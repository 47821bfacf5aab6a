//! Geometric intersection tests: the convex-polygon fan test, the torus
//! quartic, and the concrete picking scenarios.

use spatial_query::vec3::Vec3i;
use spatial_query::tri::Ray;
use spatial_query::tri::ray_intersects_convex_plane_at;
use spatial_query::xform::Placement;
use spatial_query::ratio::Ratio;
use spatial_query::torus::Torus;
use spatial_query::torus::closest_root_within;
use spatial_query::SCALE;

fn v(x: i64, y: i64, z: i64) -> Vec3i {
    Vec3i::new(x, y, z)
}

fn ratio_as_f64(t: &Ratio) -> f64 {
    (t.num as f64) / (t.den as f64)
}

fn identity() -> Placement {
    Placement::identity()
}

/// Solves the torus quartic numerically and picks the verified closest
/// root, as the embedding layer does.
fn torus_hit(torus: &Torus, ray: &Ray) -> Option<i64> {
    let c = torus.quartic_coefficients(ray);
    let rts = roots::find_roots_quartic(
        c.a4 as f64,
        c.a3 as f64,
        c.a2 as f64,
        c.a1 as f64,
        c.a0 as f64,
    );
    let fixed: Vec<i64> = rts
        .as_ref()
        .iter()
        .map(|t| (t * SCALE as f64).round() as i64)
        .collect();
    closest_root_within(&fixed, ray.max)
}

#[test]
fn test_ray_intersect_convex_plane() {
    let vertices = vec![v(0, 0, 0), v(SCALE, 0, 0), v(SCALE, SCALE, 0), v(0, SCALE, 0)];

    let ray = Ray {
        origin: v(SCALE / 2, SCALE / 2, SCALE),
        direction: v(0, 0, -SCALE),
        max: 1000 * SCALE,
    };
    let hit = ray_intersects_convex_plane_at(&ray, &identity(), &vertices);
    let t = hit.expect("the quad should be hit");
    assert_eq!(ratio_as_f64(&t), 1.0);

    let ray = Ray {
        origin: v(SCALE / 2, -SCALE / 2, SCALE),
        direction: v(0, 0, -SCALE),
        max: 1000 * SCALE,
    };
    assert!(ray_intersects_convex_plane_at(&ray, &identity(), &vertices).is_none());
}

#[test]
fn test_default_orientation_torus_ray_intersection() {
    let torus = Torus::new(SCALE, SCALE / 2, v(0, 0, 0));
    let ray = Ray { origin: v(0, 0, 0), direction: v(0, 0, -SCALE), max: 1000 * SCALE };
    let hit = torus_hit(&torus, &ray);
    assert!(hit.is_some());
    assert_eq!(hit, Some(SCALE / 2));
}

#[test]
fn test_non_default_position_torus_ray_intersection() {
    let torus = Torus::new(SCALE, SCALE / 2, v(0, 0, -10 * SCALE));
    let ray = Ray { origin: v(0, 0, 0), direction: v(0, 0, -SCALE), max: 1000 * SCALE };
    let hit = torus_hit(&torus, &ray);
    assert!(hit.is_some());
    // 8.5 in fixed point
    assert_eq!(hit, Some(8 * SCALE + SCALE / 2));
}

#[test]
fn test_non_default_orientation_torus_ray_intersection() {
    // The torus is rotated a quarter turn about z; the ray, rotated by
    // the inverse into the torus frame, points along +x instead of +y.
    let torus = Torus::new(SCALE, SCALE / 2, v(0, 0, 0));
    let ray = Ray { origin: v(0, 0, 0), direction: v(SCALE, 0, 0), max: 1000 * SCALE };
    let hit = torus_hit(&torus, &ray);
    assert!(hit.is_some());
    assert_eq!(hit, Some(SCALE / 2));
}

#[test]
fn test_torus_miss_returns_none() {
    let torus = Torus::new(SCALE, SCALE / 2, v(0, 0, 0));
    // Along the torus axis through the hole: no intersection.
    let ray = Ray { origin: v(0, 5 * SCALE, 0), direction: v(0, SCALE, 0), max: 1000 * SCALE };
    assert_eq!(torus_hit(&torus, &ray), None);
}

#[test]
fn test_torus_root_selection_is_exact() {
    // Selection logic alone: negative roots are ignored, the smallest
    // non-negative wins, and a nearest root beyond the range is a miss.
    let roots_list = vec![-3, 700, 512, 900];
    assert_eq!(closest_root_within(&roots_list, 1000), Some(512));
    assert_eq!(closest_root_within(&roots_list, 100), None);
    let only_negative = vec![-5, -1];
    assert_eq!(closest_root_within(&only_negative, 1000), None);
    let empty: Vec<i64> = Vec::new();
    assert_eq!(closest_root_within(&empty, 1000), None);
}

#[test]
fn test_triangle_hit_scaled_and_translated() {
    // A quad moved to z = -2 and scaled by 2: the same ray now hits the
    // placed plane at t = 3.
    let vertices = vec![
        v(-SCALE, -SCALE, 0),
        v(SCALE, -SCALE, 0),
        v(SCALE, SCALE, 0),
        v(-SCALE, SCALE, 0),
    ];
    let placement = Placement {
        translation: v(0, 0, -2 * SCALE),
        scale: v(2 * SCALE, 2 * SCALE, 2 * SCALE),
    };
    let ray = Ray { origin: v(0, 0, SCALE), direction: v(0, 0, -SCALE), max: 1000 * SCALE };
    let hit = ray_intersects_convex_plane_at(&ray, &placement, &vertices);
    let t = hit.expect("the placed quad should be hit");
    assert_eq!(ratio_as_f64(&t), 3.0);
}

#[test]
fn test_torus_quartic_coefficients_exact() {
    // Ring radius 1.0, thickness 0.5, ray from the origin along -z: the
    // coefficient formulas have these exact fixed-point values.
    let torus = Torus::new(SCALE, SCALE / 2, v(0, 0, 0));
    let ray = Ray { origin: v(0, 0, 0), direction: v(0, 0, -SCALE), max: 1000 * SCALE };
    let c = torus.quartic_coefficients(&ray);
    assert_eq!(c.a4, 1099511627776);
    assert_eq!(c.a3, 0);
    assert_eq!(c.a2, -2748779069440);
    assert_eq!(c.a1, 0);
    assert_eq!(c.a0, 618475290624);
}
