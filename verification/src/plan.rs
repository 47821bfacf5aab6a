//! The build plan: a functional mirror of the whole tree construction.
//!
//! `spec_build` replays the builder — root leaf, breadth-first queue, one
//! split decision per pop — purely at the specification level, over a
//! ghost image of the node array. The executable builder returns exactly
//! this value, which is what makes construction deterministic: the tree
//! is a function of the mesh alone.
//!
//! A build of `n` faces pops the queue fewer than `2 n` times (every pop
//! retires one queue entry and entries number one plus two per split, of
//! which there are at most `n - 1`), so the replay runs on that much
//! fuel; the fuel never runs out on a reachable state.

use vstd::prelude::*;
use crate::aabb::Aabb;
use crate::mesh::EditableMesh;
use crate::bvh::Node;
use crate::bvh::BoundingVolumeHierarchy;
use crate::bvh::spec_mesh_box;
use crate::split::spec_best_split;
use crate::split::left_part;
use crate::split::right_part;

verus! {

/// The ghost image of one node: kind, box, children, faces.
pub ghost struct NodeV {
    pub is_leaf: bool,
    pub aabb: Aabb,
    pub left: int,
    pub right: int,
    pub prims: Seq<u32>,
}

pub open spec fn node_view(n: Node) -> NodeV {
    NodeV {
        is_leaf: n.spec_is_leaf(),
        aabb: n.spec_aabb(),
        left: n.spec_left(),
        right: n.spec_right(),
        prims: n.spec_prims(),
    }
}

/// The node array as a sequence of ghost images: the "structure" of a
/// tree that determinism speaks about.
pub open spec fn nodes_view(ns: Seq<Node>) -> Seq<NodeV> {
    Seq::new(ns.len(), |i: int| node_view(ns[i]))
}

pub open spec fn leaf_v(aabb: Aabb, prims: Seq<u32>) -> NodeV {
    NodeV { is_leaf: true, aabb, left: 0, right: 0, prims }
}

pub open spec fn inner_v(aabb: Aabb, left: int, right: int) -> NodeV {
    NodeV { is_leaf: false, aabb, left, right, prims: Seq::empty() }
}

/// The queue as plain integers.
pub open spec fn queue_view(q: Seq<u32>) -> Seq<int> {
    Seq::new(q.len(), |i: int| q[i] as int)
}

/// One split applied to the ghost state: what `split_node` does, stated
/// over images. A leaf that defeats every candidate stays as it is.
pub open spec fn spec_split_state(mesh: EditableMesh, s: Seq<NodeV>, idx: int) -> Seq<NodeV> {
    let nd = s[idx];
    match spec_best_split(mesh, nd.prims, nd.aabb) {
        Option::None => s,
        Option::Some(sp) => {
            let lp = left_part(mesh, nd.prims, sp.axis, sp.boundary, nd.aabb, nd.prims.len() as int);
            let rp = right_part(
                mesh,
                nd.prims,
                sp.axis,
                sp.boundary,
                nd.aabb,
                nd.prims.len() as int,
            );
            s.update(idx, inner_v(nd.aabb, s.len() as int, s.len() as int + 1)).push(
                leaf_v(sp.left_box, lp),
            ).push(leaf_v(sp.right_box, rp))
        },
    }
}

/// Replays the build loop for `fuel` pops: pop the head entry; an
/// oversized leaf is split (children queued), anything else is left
/// alone.
pub open spec fn spec_run(
    mesh: EditableMesh,
    s: Seq<NodeV>,
    q: Seq<int>,
    head: int,
    fuel: nat,
) -> Seq<NodeV>
    decreases fuel,
{
    if fuel == 0 || head < 0 || head >= q.len() {
        s
    } else {
        let idx = q[head];
        let oversized = 0 <= idx < s.len() && s[idx].is_leaf && s[idx].prims.len() > 16;
        let s2 = if oversized {
            spec_split_state(mesh, s, idx)
        } else {
            s
        };
        let q2 = if oversized && spec_best_split(mesh, s[idx].prims, s[idx].aabb) is Some {
            q.push(s.len() as int).push(s.len() as int + 1)
        } else {
            q
        };
        spec_run(mesh, s2, q2, head + 1, (fuel - 1) as nat)
    }
}

/// The tree the builder produces for `mesh`, as a pure function of the
/// mesh: root leaf over all faces, then the queue replay.
pub open spec fn spec_build(mesh: EditableMesh) -> Seq<NodeV> {
    let n = mesh.num_faces();
    let root = leaf_v(spec_mesh_box(mesh, n), Seq::new(n as nat, |i: int| i as u32));
    spec_run(mesh, seq![root], seq![0int], 0, (2 * n) as nat)
}

/// Determinism: two trees built from the same mesh are structurally
/// identical — the same node kinds, boxes, child indices and face lists
/// at every index, because both equal the mesh's build plan.
pub proof fn lemma_build_deterministic(
    mesh: EditableMesh,
    a: BoundingVolumeHierarchy,
    b: BoundingVolumeHierarchy,
)
    requires
        nodes_view(a.nodes@) == spec_build(mesh),
        nodes_view(b.nodes@) == spec_build(mesh),
    ensures
        nodes_view(a.nodes@) == nodes_view(b.nodes@),
{
}

} // verus!
