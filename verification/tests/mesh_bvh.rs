//! Mesh construction, tree building and the two traversal modes, against
//! hand-built meshes and a generated icosphere.

use std::collections::HashMap;

use spatial_query::vec3::Vec3i;
use spatial_query::mesh::EditableMesh;
use spatial_query::mesh::MeshError;
use spatial_query::bvh::BoundingVolumeHierarchy;
use spatial_query::bvh::Node;
use spatial_query::tri::Ray;
use spatial_query::xform::Placement;
use spatial_query::query::intersects_ray_at_brute;
use spatial_query::SCALE;

fn v(x: i64, y: i64, z: i64) -> Vec3i {
    Vec3i::new(x, y, z)
}

fn up_normals(n: usize) -> Vec<Vec3i> {
    (0..n).map(|_| v(0, 0, SCALE)).collect()
}

/// The unit quad in the xy-plane, two counter-clockwise triangles.
fn quad_mesh() -> EditableMesh {
    let positions = vec![v(0, 0, 0), v(SCALE, 0, 0), v(SCALE, SCALE, 0), v(0, SCALE, 0)];
    let normals = up_normals(4);
    let indices = vec![0, 1, 2, 0, 2, 3];
    EditableMesh::from_triangles(positions, normals, indices).expect("valid quad")
}

/// An axis-aligned cuboid as a 24-vertex, 12-triangle mesh (each face has
/// its own four vertices, as renderable meshes do).
fn cuboid_mesh(half: i64) -> EditableMesh {
    let h = half;
    let mut positions: Vec<Vec3i> = Vec::new();
    let mut normals: Vec<Vec3i> = Vec::new();
    let mut indices: Vec<u32> = Vec::new();
    let faces: [([i64; 3], [i64; 3], [i64; 3]); 6] = [
        ([0, 0, 1], [1, 0, 0], [0, 1, 0]),
        ([0, 0, -1], [0, 1, 0], [1, 0, 0]),
        ([1, 0, 0], [0, 0, 1], [0, 1, 0]),
        ([-1, 0, 0], [0, 1, 0], [0, 0, 1]),
        ([0, 1, 0], [0, 0, 1], [1, 0, 0]),
        ([0, -1, 0], [1, 0, 0], [0, 0, 1]),
    ];
    for (n, u, w) in faces.iter() {
        let base = positions.len() as u32;
        for (su, sw) in [(-1i64, -1i64), (1, -1), (1, 1), (-1, 1)] {
            positions.push(v(
                h * n[0] + su * h * u[0] + sw * h * w[0],
                h * n[1] + su * h * u[1] + sw * h * w[1],
                h * n[2] + su * h * u[2] + sw * h * w[2],
            ));
            normals.push(v(SCALE * n[0], SCALE * n[1], SCALE * n[2]));
        }
        indices.extend_from_slice(&[base, base + 1, base + 2, base, base + 2, base + 3]);
    }
    EditableMesh::from_triangles(positions, normals, indices).expect("valid cuboid")
}

/// An icosphere of the given fixed-point radius, subdivided `depth` times
/// (20 * 4^depth triangles), quantized to the fixed-point grid.
fn icosphere(radius: f64, depth: u32) -> EditableMesh {
    let phi = (1.0 + 5.0f64.sqrt()) / 2.0;
    let base: Vec<[f64; 3]> = vec![
        [-1.0, phi, 0.0],
        [1.0, phi, 0.0],
        [-1.0, -phi, 0.0],
        [1.0, -phi, 0.0],
        [0.0, -1.0, phi],
        [0.0, 1.0, phi],
        [0.0, -1.0, -phi],
        [0.0, 1.0, -phi],
        [phi, 0.0, -1.0],
        [phi, 0.0, 1.0],
        [-phi, 0.0, -1.0],
        [-phi, 0.0, 1.0],
    ];
    let mut verts: Vec<[f64; 3]> = base
        .iter()
        .map(|p| {
            let len = (p[0] * p[0] + p[1] * p[1] + p[2] * p[2]).sqrt();
            [p[0] / len, p[1] / len, p[2] / len]
        })
        .collect();
    let mut tris: Vec<[u32; 3]> = vec![
        [0, 11, 5],
        [0, 5, 1],
        [0, 1, 7],
        [0, 7, 10],
        [0, 10, 11],
        [1, 5, 9],
        [5, 11, 4],
        [11, 10, 2],
        [10, 7, 6],
        [7, 1, 8],
        [3, 9, 4],
        [3, 4, 2],
        [3, 2, 6],
        [3, 6, 8],
        [3, 8, 9],
        [4, 9, 5],
        [2, 4, 11],
        [6, 2, 10],
        [8, 6, 7],
        [9, 8, 1],
    ];
    for _ in 0..depth {
        let mut cache: HashMap<(u32, u32), u32> = HashMap::new();
        let mut next: Vec<[u32; 3]> = Vec::new();
        for t in tris.iter() {
            let mut mid = |a: u32, b: u32, verts: &mut Vec<[f64; 3]>| -> u32 {
                let key = if a < b { (a, b) } else { (b, a) };
                if let Some(&m) = cache.get(&key) {
                    return m;
                }
                let pa = verts[a as usize];
                let pb = verts[b as usize];
                let m = [
                    (pa[0] + pb[0]) / 2.0,
                    (pa[1] + pb[1]) / 2.0,
                    (pa[2] + pb[2]) / 2.0,
                ];
                let len = (m[0] * m[0] + m[1] * m[1] + m[2] * m[2]).sqrt();
                let idx = verts.len() as u32;
                verts.push([m[0] / len, m[1] / len, m[2] / len]);
                cache.insert(key, idx);
                idx
            };
            let ab = mid(t[0], t[1], &mut verts);
            let bc = mid(t[1], t[2], &mut verts);
            let ca = mid(t[2], t[0], &mut verts);
            next.extend_from_slice(&[
                [t[0], ab, ca],
                [t[1], bc, ab],
                [t[2], ca, bc],
                [ab, bc, ca],
            ]);
        }
        tris = next;
    }
    let positions: Vec<Vec3i> = verts
        .iter()
        .map(|p| {
            v(
                (p[0] * radius).round() as i64,
                (p[1] * radius).round() as i64,
                (p[2] * radius).round() as i64,
            )
        })
        .collect();
    let normals: Vec<Vec3i> = verts
        .iter()
        .map(|p| {
            v(
                (p[0] * SCALE as f64).round() as i64,
                (p[1] * SCALE as f64).round() as i64,
                (p[2] * SCALE as f64).round() as i64,
            )
        })
        .collect();
    let indices: Vec<u32> = tris.iter().flat_map(|t| t.to_vec()).collect();
    EditableMesh::from_triangles(positions, normals, indices).expect("valid icosphere")
}

fn node_eq(a: &Node, b: &Node) -> bool {
    match (a, b) {
        (
            Node::Leaf { aabb: ab, primitive_list: al },
            Node::Leaf { aabb: bb, primitive_list: bl },
        ) => ab == bb && al == bl,
        (
            Node::NonLeaf { left: la, right: ra, aabb: ab },
            Node::NonLeaf { left: lb, right: rb, aabb: bb },
        ) => la == lb && ra == rb && ab == bb,
        _ => false,
    }
}

#[test]
fn test_editable_mesh_from_cuboid_mesh() {
    let mesh = cuboid_mesh(SCALE / 2);
    assert_eq!(mesh.vertex_count(), 24);
    assert_eq!(mesh.face_count(), 12);
}

fn expect_err(r: Result<EditableMesh, MeshError>) -> MeshError {
    match r {
        Err(e) => e,
        Ok(_) => panic!("expected the mesh to be rejected"),
    }
}

#[test]
fn test_mesh_rejects_bad_input() {
    let err = expect_err(EditableMesh::from_triangles(vec![v(0, 0, 0)], up_normals(2), vec![0, 0, 0]));
    assert_eq!(err, MeshError::MismatchedAttributeCounts);

    let err = expect_err(EditableMesh::from_triangles(Vec::new(), Vec::new(), Vec::new()));
    assert_eq!(err, MeshError::EmptyMesh);

    let err = expect_err(EditableMesh::from_triangles(
        vec![v(0, 0, 0), v(SCALE, 0, 0)],
        up_normals(2),
        vec![0, 1],
    ));
    assert_eq!(err, MeshError::BadIndexCount);

    let err = expect_err(EditableMesh::from_triangles(
        vec![v(0, 0, 0), v(70000, 0, 0)],
        up_normals(2),
        vec![0, 1, 0],
    ));
    assert_eq!(err, MeshError::CoordinateOutOfRange);

    let err = expect_err(EditableMesh::from_triangles(
        vec![v(0, 0, 0), v(SCALE, 0, 0)],
        up_normals(2),
        vec![0, 1, 2],
    ));
    assert_eq!(err, MeshError::IndexOutOfRange);
}

#[test]
fn test_mesh_from_triangle_soup() {
    let positions = vec![v(0, 0, 0), v(SCALE, 0, 0), v(0, SCALE, 0)];
    let mesh = EditableMesh::from_triangle_soup(positions, up_normals(3)).unwrap();
    assert_eq!(mesh.face_count(), 1);
    assert_eq!(mesh.vertex_count(), 3);
}

#[test]
fn test_bvh_from_mesh() {
    let mesh = icosphere(0.05 * SCALE as f64, 5);
    let bvh = BoundingVolumeHierarchy::build(&mesh);
    assert!(bvh.nodes.len() >= 1);
    assert!(bvh.nodes.len() <= 2 * mesh.face_count() - 1);
}

#[test]
fn test_bvh_leaves_partition_faces() {
    let mesh = icosphere(8.0 * SCALE as f64, 3);
    let n = mesh.face_count();
    let bvh = BoundingVolumeHierarchy::build(&mesh);
    let mut seen = vec![0usize; n];
    for node in bvh.nodes.iter() {
        if let Node::Leaf { primitive_list, .. } = node {
            assert!(!primitive_list.is_empty());
            for f in primitive_list.iter() {
                seen[*f as usize] += 1;
            }
        }
    }
    assert!(seen.iter().all(|c| *c == 1));
}

#[test]
fn test_bvh_icosphere_leaf_sizes_and_node_count() {
    // Scenario: a ~5000-face icosphere with the fixed leaf threshold.
    let mesh = icosphere(32.0 * SCALE as f64, 4);
    assert_eq!(mesh.face_count(), 5120);
    let bvh = BoundingVolumeHierarchy::build(&mesh);
    for node in bvh.nodes.iter() {
        if let Node::Leaf { primitive_list, .. } = node {
            assert!(primitive_list.len() <= 16);
        }
    }
    assert!(bvh.nodes.len() <= 2 * mesh.face_count() - 1);
}

#[test]
fn test_bvh_build_is_deterministic() {
    let mesh = icosphere(8.0 * SCALE as f64, 3);
    let b1 = BoundingVolumeHierarchy::build(&mesh);
    let b2 = BoundingVolumeHierarchy::build(&mesh);
    assert_eq!(b1.nodes.len(), b2.nodes.len());
    for (a, b) in b1.nodes.iter().zip(b2.nodes.iter()) {
        assert!(node_eq(a, b));
    }
}

#[test]
fn test_quad_precise_hit_and_miss() {
    // Scenario: unit quad, ray straight down onto its middle hits at 1.0;
    // a ray past its edge misses.
    let mesh = quad_mesh();
    let bvh = BoundingVolumeHierarchy::build(&mesh);
    let placement = Placement::identity();

    let ray = Ray {
        origin: v(SCALE / 2, SCALE / 2, SCALE),
        direction: v(0, 0, -SCALE),
        max: 1000 * SCALE,
    };
    let (face, t) = bvh
        .intersects_ray_at(&ray, &placement, &mesh)
        .expect("quad should be hit");
    assert!(face < 2);
    assert_eq!((t.num as f64) / (t.den as f64), 1.0);

    let ray = Ray {
        origin: v(SCALE / 2, -SCALE / 2, SCALE),
        direction: v(0, 0, -SCALE),
        max: 1000 * SCALE,
    };
    assert!(bvh.intersects_ray_at(&ray, &placement, &mesh).is_none());
}

#[test]
fn test_miss_outside_root_box_both_modes() {
    let mesh = cuboid_mesh(SCALE / 2);
    let bvh = BoundingVolumeHierarchy::build(&mesh);
    let placement = Placement::identity();
    // Parallel to the cuboid, far off to the side: never crosses the root
    // box.
    let ray = Ray {
        origin: v(10 * SCALE, 10 * SCALE, 10 * SCALE),
        direction: v(0, 0, -SCALE),
        max: 1000 * SCALE,
    };
    assert!(bvh.intersects_ray_at_fast(&ray, &placement).is_none());
    assert!(bvh.intersects_ray_at(&ray, &placement, &mesh).is_none());
}

#[test]
fn test_fast_mode_reports_box_entry() {
    let mesh = cuboid_mesh(SCALE / 2);
    let bvh = BoundingVolumeHierarchy::build(&mesh);
    let placement = Placement::identity();
    let ray = Ray { origin: v(0, 0, 2 * SCALE), direction: v(0, 0, -SCALE), max: 1000 * SCALE };
    let t = bvh
        .intersects_ray_at_fast(&ray, &placement)
        .expect("cuboid should be hit");
    // The cuboid's boxes start at z = 0.5, so the first box entry is 1.5.
    assert_eq!((t.num as f64) / (t.den as f64), 1.5);
}

#[test]
fn test_precise_agrees_with_brute_force() {
    // Ground truth: on a small mesh the tree traversal must return
    // exactly what testing every face returns, for a grid of rays.
    let mesh = cuboid_mesh(SCALE / 2);
    let bvh = BoundingVolumeHierarchy::build(&mesh);
    let placements = [
        Placement::identity(),
        Placement { translation: v(SCALE / 4, -SCALE / 3, SCALE / 2), scale: v(SCALE, SCALE, SCALE) },
        Placement { translation: v(0, 0, 0), scale: v(2 * SCALE, 3 * SCALE, SCALE / 2) },
    ];
    for placement in placements.iter() {
        for ix in -2i64..=2 {
            for iy in -2i64..=2 {
                let ray = Ray {
                    origin: v(ix * SCALE / 3, iy * SCALE / 3, 4 * SCALE),
                    direction: v(ix * 7, iy * 13, -SCALE),
                    max: 1000 * SCALE,
                };
                let precise = bvh.intersects_ray_at(&ray, placement, &mesh);
                let brute = intersects_ray_at_brute(&mesh, &ray, placement);
                match (precise, brute) {
                    (None, None) => {},
                    (Some((fa, ta)), Some((fb, tb))) => {
                        assert_eq!(fa, fb);
                        assert_eq!(ta.num * tb.den, tb.num * ta.den);
                    },
                    (a, b) => panic!("traversal {:?} but brute force {:?}", a.is_some(), b.is_some()),
                }
            }
        }
    }
}

#[test]
fn test_sphere_precise_agrees_with_brute_force() {
    let mesh = icosphere(4.0 * SCALE as f64, 1);
    assert!(mesh.face_count() <= 80);
    let bvh = BoundingVolumeHierarchy::build(&mesh);
    let placement = Placement::identity();
    for ix in -3i64..=3 {
        for iy in -3i64..=3 {
            let ray = Ray {
                // Slightly off-grid origins so no ray passes exactly
                // through a shared vertex, where two faces tie.
                origin: v(ix * SCALE + 137, iy * SCALE - 251, 10 * SCALE),
                direction: v(0, 0, -SCALE),
                max: 1000 * SCALE,
            };
            let precise = bvh.intersects_ray_at(&ray, &placement, &mesh);
            let brute = intersects_ray_at_brute(&mesh, &ray, &placement);
            match (precise, brute) {
                (None, None) => {},
                (Some((fa, ta)), Some((fb, tb))) => {
                    assert_eq!(fa, fb);
                    assert_eq!(ta.num * tb.den, tb.num * ta.den);
                },
                (a, b) => panic!("traversal {:?} but brute force {:?}", a.is_some(), b.is_some()),
            }
        }
    }
}

#[test]
fn test_both_modes_with_placement() {
    // The cuboid moved to z = -2: both modes see its near side at 1.5.
    let mesh = cuboid_mesh(SCALE / 2);
    let bvh = BoundingVolumeHierarchy::build(&mesh);
    let placement = Placement { translation: v(0, 0, -2 * SCALE), scale: v(SCALE, SCALE, SCALE) };
    let ray = Ray { origin: v(0, 0, 0), direction: v(0, 0, -SCALE), max: 1000 * SCALE };
    let t = bvh
        .intersects_ray_at_fast(&ray, &placement)
        .expect("the placed cuboid's boxes should be hit");
    assert_eq!((t.num as f64) / (t.den as f64), 1.5);
    let (face, tp) = bvh
        .intersects_ray_at(&ray, &placement, &mesh)
        .expect("a face of the placed cuboid should be hit");
    assert!(face < 12);
    assert_eq!((tp.num as f64) / (tp.den as f64), 1.5);
}

#[test]
fn test_fast_mode_no_farther_than_precise() {
    // The coarse mode reports a box entry at or before any exact face
    // hit, since a face hit happens inside its owning leaf's box.
    let mesh = icosphere(4.0 * SCALE as f64, 1);
    let bvh = BoundingVolumeHierarchy::build(&mesh);
    let placement = Placement::identity();
    for ix in -3i64..=3 {
        for iy in -3i64..=3 {
            let ray = Ray {
                origin: v(ix * SCALE + 137, iy * SCALE - 251, 10 * SCALE),
                direction: v(0, 0, -SCALE),
                max: 1000 * SCALE,
            };
            if let Some((_, tp)) = bvh.intersects_ray_at(&ray, &placement, &mesh) {
                let tf = bvh
                    .intersects_ray_at_fast(&ray, &placement)
                    .expect("a face hit implies a box hit");
                assert!(tf.num * tp.den <= tp.num * tf.den);
            }
        }
    }
}
