//! The bounding-volume hierarchy: a binary tree of axis-aligned boxes over
//! the faces of one mesh, kept in a single flat, append-only node array.
//!
//! Node 0 is the root; an internal node references its two children by
//! array index, and children always sit at higher indices than their
//! parent, so the array cannot encode a cycle. `tree_ok` is the structural
//! invariant every built tree satisfies; `leaves_ms` states that the
//! leaves partition the mesh's face set.

use vstd::prelude::*;
use crate::aabb::Aabb;
use crate::mesh::EditableMesh;
use vstd::seq_lib::group_to_multiset_ensures;
use vstd::multiset::Multiset;
use crate::plan::nodes_view;
use crate::plan::queue_view;
use crate::plan::node_view;
use crate::plan::leaf_v;
use crate::plan::inner_v;
use crate::plan::spec_split_state;
use crate::plan::spec_run;
use crate::plan::spec_build;

verus! {

/// One tree node: an internal node with two child indices, or a leaf with
/// the faces it holds.
pub enum Node {
    NonLeaf { left: u32, right: u32, aabb: Aabb },
    Leaf { aabb: Aabb, primitive_list: Vec<u32> },
}

impl Node {
    pub open spec fn spec_is_leaf(self) -> bool {
        self matches Node::Leaf { .. }
    }

    pub open spec fn spec_aabb(self) -> Aabb {
        match self {
            Node::NonLeaf { aabb, .. } => aabb,
            Node::Leaf { aabb, .. } => aabb,
        }
    }

    pub open spec fn spec_prims(self) -> Seq<u32> {
        match self {
            Node::Leaf { primitive_list, .. } => primitive_list@,
            Node::NonLeaf { .. } => Seq::empty(),
        }
    }

    pub open spec fn spec_left(self) -> int {
        match self {
            Node::NonLeaf { left, .. } => left as int,
            Node::Leaf { .. } => 0,
        }
    }

    pub open spec fn spec_right(self) -> int {
        match self {
            Node::NonLeaf { right, .. } => right as int,
            Node::Leaf { .. } => 0,
        }
    }

    pub fn is_leaf(&self) -> (r: bool)
        ensures
            r == self.spec_is_leaf(),
    {
        match self {
            Node::Leaf { .. } => true,
            Node::NonLeaf { .. } => false,
        }
    }

    pub fn aabb(&self) -> (r: Aabb)
        ensures
            r == self.spec_aabb(),
    {
        match self {
            Node::Leaf { aabb, .. } => *aabb,
            Node::NonLeaf { aabb, .. } => *aabb,
        }
    }

    /// The face list of a leaf, `None` on an internal node.
    pub fn primitives(&self) -> (r: Option<&Vec<u32>>)
        ensures
            r is Some <==> self.spec_is_leaf(),
            r is Some ==> r->Some_0@ == self.spec_prims(),
    {
        match self {
            Node::Leaf { primitive_list, .. } => Some(primitive_list),
            Node::NonLeaf { .. } => None,
        }
    }

    /// The two child indices of an internal node, `None` on a leaf.
    pub fn children(&self) -> (r: Option<(u32, u32)>)
        ensures
            r is Some <==> !self.spec_is_leaf(),
            r is Some ==> r->Some_0.0 == self.spec_left() && r->Some_0.1 == self.spec_right(),
    {
        match self {
            Node::Leaf { .. } => None,
            Node::NonLeaf { left, right, .. } => Some((*left, *right)),
        }
    }
}

impl Node {
    /// A copy of a leaf's face list.
    pub(crate) fn prims_copy(&self) -> (r: Vec<u32>)
        requires
            self.spec_is_leaf(),
        ensures
            r@ == self.spec_prims(),
    {
        match self {
            Node::Leaf { primitive_list, .. } => {
                let mut v: Vec<u32> = Vec::new();
                let mut j: usize = 0;
                while j < primitive_list.len()
                    invariant
                        j <= primitive_list@.len(),
                        v@ == primitive_list@.subrange(0, j as int),
                    decreases primitive_list@.len() - j,
                {
                    v.push(primitive_list[j]);
                    proof {
                        assert(v@ =~= primitive_list@.subrange(0, j + 1));
                    }
                    j = j + 1;
                }
                proof {
                    assert(v@ =~= primitive_list@);
                }
                v
            },
            Node::NonLeaf { .. } => vstd::pervasive::unreached(),
        }
    }
}

/// Node `i` is sound: its box is well formed and bounded; a leaf is
/// non-empty, lists only existing faces and bounds all their boxes; an
/// internal node points forward at two distinct in-range children whose
/// boxes it contains.
pub open spec fn node_ok(mesh: EditableMesh, nodes: Seq<Node>, i: int) -> bool {
    let nd = nodes[i];
    &&& nd.spec_aabb().wf()
    &&& nd.spec_aabb().bounded(crate::MAX_COORD as int)
    &&& if nd.spec_is_leaf() {
        &&& 1 <= nd.spec_prims().len()
        &&& forall|k: int| 0 <= k < nd.spec_prims().len() ==> (#[trigger] nd.spec_prims()[k])
            < mesh.num_faces()
        &&& forall|k: int| 0 <= k < nd.spec_prims().len() ==> nd.spec_aabb().contains_box(
            mesh.spec_face_box(#[trigger] nd.spec_prims()[k] as int),
        )
    } else {
        &&& i < nd.spec_left() < nodes.len()
        &&& i < nd.spec_right() < nodes.len()
        &&& nd.spec_left() != nd.spec_right()
        &&& nd.spec_aabb().contains_box(nodes[nd.spec_left()].spec_aabb())
        &&& nd.spec_aabb().contains_box(nodes[nd.spec_right()].spec_aabb())
    }
}

/// The whole array is sound and non-empty.
pub open spec fn tree_ok(mesh: EditableMesh, nodes: Seq<Node>) -> bool {
    &&& 1 <= nodes.len()
    &&& forall|i: int| 0 <= i < nodes.len() ==> #[trigger] node_ok(mesh, nodes, i)
}

/// What one node adds to the union of the leaves' face lists.
pub open spec fn leaf_contrib(nd: Node) -> Multiset<u32> {
    if nd.spec_is_leaf() {
        nd.spec_prims().to_multiset()
    } else {
        Multiset::empty()
    }
}

/// The multiset of faces held by leaves among the first `k` nodes.
pub open spec fn leaves_ms_prefix(nodes: Seq<Node>, k: int) -> Multiset<u32>
    decreases k,
{
    if k <= 0 {
        Multiset::empty()
    } else {
        leaves_ms_prefix(nodes, k - 1).add(leaf_contrib(nodes[k - 1]))
    }
}

/// The multiset union of all leaves' face lists.
pub open spec fn leaves_ms(nodes: Seq<Node>) -> Multiset<u32> {
    leaves_ms_prefix(nodes, nodes.len() as int)
}

/// Every face handle of the mesh, once.
pub open spec fn all_faces_ms(mesh: EditableMesh) -> Multiset<u32> {
    Seq::new(mesh.num_faces() as nat, |i: int| i as u32).to_multiset()
}

/// Number of leaves among the first `k` nodes.
pub open spec fn leaf_count_prefix(nodes: Seq<Node>, k: int) -> int
    decreases k,
{
    if k <= 0 {
        0
    } else {
        leaf_count_prefix(nodes, k - 1) + if nodes[k - 1].spec_is_leaf() {
            1int
        } else {
            0int
        }
    }
}

pub open spec fn leaf_count(nodes: Seq<Node>) -> int {
    leaf_count_prefix(nodes, nodes.len() as int)
}

/// Prefix contributions depend only on each node's kind and face list.
pub proof fn lemma_prefix_same(a: Seq<Node>, b: Seq<Node>, k: int)
    requires
        0 <= k <= a.len(),
        k <= b.len(),
        forall|j: int| 0 <= j < k ==> leaf_contrib(#[trigger] a[j]) == leaf_contrib(b[j]),
        forall|j: int| 0 <= j < k ==> ((#[trigger] a[j]).spec_is_leaf() <==> b[j].spec_is_leaf()),
    ensures
        leaves_ms_prefix(a, k) == leaves_ms_prefix(b, k),
        leaf_count_prefix(a, k) == leaf_count_prefix(b, k),
    decreases k,
{
    if k > 0 {
        lemma_prefix_same(a, b, k - 1);
    }
}

/// Exchanging one node exchanges exactly its contribution.
pub proof fn lemma_prefix_one_change(a: Seq<Node>, b: Seq<Node>, idx: int, k: int)
    requires
        0 <= idx < k,
        k <= a.len(),
        k <= b.len(),
        forall|j: int| 0 <= j < k && j != idx ==> leaf_contrib(#[trigger] a[j]) == leaf_contrib(
            b[j],
        ),
        forall|j: int|
            0 <= j < k && j != idx ==> ((#[trigger] a[j]).spec_is_leaf() <==> b[j].spec_is_leaf()),
    ensures
        leaves_ms_prefix(a, k).add(leaf_contrib(b[idx])) =~= leaves_ms_prefix(b, k).add(
            leaf_contrib(a[idx]),
        ),
        leaf_count_prefix(a, k) + (if b[idx].spec_is_leaf() {
            1int
        } else {
            0int
        }) == leaf_count_prefix(b, k) + (if a[idx].spec_is_leaf() {
            1int
        } else {
            0int
        }),
    decreases k,
{
    broadcast use vstd::multiset::group_multiset_axioms;

    if idx == k - 1 {
        lemma_prefix_same(a, b, k - 1);
        assert(leaves_ms_prefix(a, k).add(leaf_contrib(b[idx])) =~= leaves_ms_prefix(b, k).add(
            leaf_contrib(a[idx]),
        ));
    } else {
        lemma_prefix_one_change(a, b, idx, k - 1);
        assert forall|x: u32|
            leaves_ms_prefix(a, k).add(leaf_contrib(b[idx])).count(x) == leaves_ms_prefix(
                b,
                k,
            ).add(leaf_contrib(a[idx])).count(x) by {
            assert(leaves_ms_prefix(a, k - 1).add(leaf_contrib(b[idx])).count(x)
                == leaves_ms_prefix(b, k - 1).add(leaf_contrib(a[idx])).count(x));
        }
        assert(leaves_ms_prefix(a, k).add(leaf_contrib(b[idx])) =~= leaves_ms_prefix(b, k).add(
            leaf_contrib(a[idx]),
        ));
    }
}

/// With every leaf non-empty, there are at most as many leaves as faces in
/// their union.
pub proof fn lemma_leaf_count_le_ms(nodes: Seq<Node>, k: int)
    requires
        0 <= k <= nodes.len(),
        forall|i: int| 0 <= i < nodes.len() && (#[trigger] nodes[i]).spec_is_leaf() ==> nodes[i].spec_prims().len() >= 1,
    ensures
        leaf_count_prefix(nodes, k) <= leaves_ms_prefix(nodes, k).len(),
        leaves_ms_prefix(nodes, k).len() >= 0,
    decreases k,
{
    broadcast use group_to_multiset_ensures;

    if k > 0 {
        lemma_leaf_count_le_ms(nodes, k - 1);
    }
}

/// The pending work a queue entry stands for: an in-range leaf with `m`
/// faces weighs `2m - 1`; anything else weighs one pop.
pub open spec fn node_weight(nodes: Seq<Node>, i: int) -> int {
    if 0 <= i < nodes.len() && nodes[i].spec_is_leaf() {
        if nodes[i].spec_prims().len() >= 1 {
            2 * nodes[i].spec_prims().len() - 1
        } else {
            0
        }
    } else {
        1
    }
}

/// Total weight of the un-popped part of the work queue; the build loop's
/// termination measure.
pub open spec fn pend_weight(nodes: Seq<Node>, q: Seq<u32>, head: int) -> int
    decreases q.len() - head,
{
    if head < 0 || head >= q.len() {
        0
    } else {
        node_weight(nodes, q[head] as int) + pend_weight(nodes, q, head + 1)
    }
}

pub proof fn lemma_pend_nonneg(nodes: Seq<Node>, q: Seq<u32>, head: int)
    ensures
        pend_weight(nodes, q, head) >= 0,
    decreases q.len() - head,
{
    if 0 <= head < q.len() {
        lemma_pend_nonneg(nodes, q, head + 1);
    }
}

/// Pushing a queue entry adds exactly its weight.
pub proof fn lemma_pend_push(nodes: Seq<Node>, q: Seq<u32>, x: u32, head: int)
    requires
        0 <= head <= q.len(),
    ensures
        pend_weight(nodes, q.push(x), head) == pend_weight(nodes, q, head) + node_weight(
            nodes,
            x as int,
        ),
    decreases q.len() - head,
{
    if head < q.len() {
        lemma_pend_push(nodes, q, x, head + 1);
        assert(q.push(x)[head] == q[head]);
    } else {
        assert(q.push(x)[head] == x);
        assert(pend_weight(nodes, q.push(x), head + 1) == 0);
    }
}

/// If every pending entry's weight can only have dropped, the total can
/// only have dropped.
pub proof fn lemma_pend_mono(nodes1: Seq<Node>, nodes2: Seq<Node>, q: Seq<u32>, head: int)
    requires
        forall|j: int| head <= j < q.len() ==> node_weight(nodes2, #[trigger] q[j] as int)
            <= node_weight(nodes1, q[j] as int),
    ensures
        pend_weight(nodes2, q, head) <= pend_weight(nodes1, q, head),
    decreases q.len() - head,
{
    if 0 <= head < q.len() {
        lemma_pend_mono(nodes1, nodes2, q, head + 1);
    }
}

/// A face counted by the first `k` nodes' leaves sits in one of those
/// leaves' lists.
pub proof fn lemma_ms_member_in_leaf(nodes: Seq<Node>, k: int, f: u32)
    requires
        0 <= k <= nodes.len(),
        leaves_ms_prefix(nodes, k).count(f) > 0,
    ensures
        exists|i: int|
            0 <= i < k && (#[trigger] nodes[i]).spec_is_leaf() && nodes[i].spec_prims().contains(
                f,
            ),
    decreases k,
{
    broadcast use group_to_multiset_ensures;
    broadcast use vstd::multiset::group_multiset_axioms;

    if k > 0 {
        if leaf_contrib(nodes[k - 1]).count(f) > 0 {
            assert(nodes[k - 1].spec_is_leaf());
            assert(nodes[k - 1].spec_prims().contains(f));
        } else {
            lemma_ms_member_in_leaf(nodes, k - 1, f);
        }
    }
}

/// Every face of the mesh sits in some leaf of a tree whose leaves hold
/// the face set.
pub proof fn lemma_face_in_some_leaf(mesh: EditableMesh, nodes: Seq<Node>, f: u32)
    requires
        leaves_ms(nodes) == all_faces_ms(mesh),
        0 <= (f as int) < mesh.num_faces(),
    ensures
        exists|i: int|
            0 <= i < nodes.len() && (#[trigger] nodes[i]).spec_is_leaf()
                && nodes[i].spec_prims().contains(f),
{
    broadcast use group_to_multiset_ensures;

    let ids = Seq::new(mesh.num_faces() as nat, |i: int| i as u32);
    assert(ids[f as int] == f);
    assert(ids.contains(f));
    assert(all_faces_ms(mesh).count(f) > 0);
    lemma_ms_member_in_leaf(nodes, nodes.len() as int, f);
}

/// One leaf's faces are part of the union over all leaves.
pub proof fn lemma_contrib_le(nodes: Seq<Node>, i: int, k: int)
    requires
        0 <= i < k <= nodes.len(),
    ensures
        leaf_contrib(nodes[i]).len() <= leaves_ms_prefix(nodes, k).len(),
    decreases k,
{
    broadcast use vstd::multiset::group_multiset_axioms;

    if i < k - 1 {
        lemma_contrib_le(nodes, i, k - 1);
    }
}

/// The box of the first `k` faces of the mesh: the root box once `k` is
/// the face count.
pub open spec fn spec_mesh_box(mesh: EditableMesh, k: int) -> Aabb
    decreases k,
{
    if k <= 1 {
        mesh.spec_face_box(0)
    } else {
        Aabb::spec_merge(spec_mesh_box(mesh, k - 1), mesh.spec_face_box(k - 1))
    }
}

/// The mesh box is well formed, bounded, and contains every face box.
pub proof fn lemma_mesh_box(mesh: EditableMesh, k: int)
    requires
        mesh.wf(),
        1 <= k <= mesh.num_faces(),
    ensures
        spec_mesh_box(mesh, k).wf(),
        spec_mesh_box(mesh, k).bounded(crate::MAX_COORD as int),
        forall|f: int| 0 <= f < k ==> spec_mesh_box(mesh, k).contains_box(
            #[trigger] mesh.spec_face_box(f),
        ),
    decreases k,
{
    mesh.lemma_face_box(k - 1);
    if k > 1 {
        lemma_mesh_box(mesh, k - 1);
        crate::aabb::lemma_merge_properties(spec_mesh_box(mesh, k - 1), mesh.spec_face_box(k - 1));
        assert forall|f: int| 0 <= f < k - 1 implies spec_mesh_box(mesh, k).contains_box(
            #[trigger] mesh.spec_face_box(f),
        ) by {
            crate::aabb::lemma_contains_trans(
                spec_mesh_box(mesh, k),
                spec_mesh_box(mesh, k - 1),
                mesh.spec_face_box(f),
            );
        }
    }
}

/// Face `f` is held by some leaf in the subtree rooted at `i`. Children
/// sit at higher indices than their parent, so the recursion is well
/// founded.
pub open spec fn subtree_holds(nodes: Seq<Node>, i: int, f: u32) -> bool
    decreases nodes.len() - i,
{
    if !(0 <= i < nodes.len()) {
        false
    } else if nodes[i].spec_is_leaf() {
        nodes[i].spec_prims().contains(f)
    } else if i < nodes[i].spec_left() < nodes.len() && i < nodes[i].spec_right() < nodes.len() {
        subtree_holds(nodes, nodes[i].spec_left(), f) || subtree_holds(
            nodes,
            nodes[i].spec_right(),
            f,
        )
    } else {
        false
    }
}

/// Bounding containment: in a sound tree, every node's box contains the
/// boxes of all faces held by the leaves below it.
pub proof fn lemma_bounding_containment(mesh: EditableMesh, nodes: Seq<Node>, i: int, f: u32)
    requires
        tree_ok(mesh, nodes),
        0 <= i < nodes.len(),
        subtree_holds(nodes, i, f),
    ensures
        (f as int) < mesh.num_faces(),
        nodes[i].spec_aabb().contains_box(mesh.spec_face_box(f as int)),
    decreases nodes.len() - i,
{
    assert(node_ok(mesh, nodes, i));
    if nodes[i].spec_is_leaf() {
        let k = choose|k: int| 0 <= k < nodes[i].spec_prims().len() && nodes[i].spec_prims()[k]
            == f;
        assert(nodes[i].spec_aabb().contains_box(
            mesh.spec_face_box(nodes[i].spec_prims()[k] as int),
        ));
    } else {
        let l = nodes[i].spec_left();
        let r = nodes[i].spec_right();
        if subtree_holds(nodes, l, f) {
            lemma_bounding_containment(mesh, nodes, l, f);
            crate::aabb::lemma_contains_trans(
                nodes[i].spec_aabb(),
                nodes[l].spec_aabb(),
                mesh.spec_face_box(f as int),
            );
        } else {
            lemma_bounding_containment(mesh, nodes, r, f);
            crate::aabb::lemma_contains_trans(
                nodes[i].spec_aabb(),
                nodes[r].spec_aabb(),
                mesh.spec_face_box(f as int),
            );
        }
    }
}

/// The spatial index over one mesh: a flat array of nodes, rooted at
/// index 0.
pub struct BoundingVolumeHierarchy {
    pub nodes: Vec<Node>,
}

impl BoundingVolumeHierarchy {
    /// The tree is sound for `mesh`, its leaves hold every face exactly
    /// once, any leaf still larger than the split threshold defeated every
    /// split candidate, and the node array is no longer than twice the
    /// face count.
    pub open spec fn built_for(self, mesh: EditableMesh) -> bool {
        &&& tree_ok(mesh, self.nodes@)
        &&& leaves_ms(self.nodes@) == all_faces_ms(mesh)
        &&& self.nodes@.len() <= 2 * mesh.num_faces() - 1
        &&& self.nodes@[0].spec_aabb() == spec_mesh_box(mesh, mesh.num_faces())
        &&& forall|i: int| 0 <= i < self.nodes@.len() ==> #[trigger] crate::query::in_subtree(
            self.nodes@,
            0,
            i,
        )
        &&& forall|i: int|
            0 <= i < self.nodes@.len() && (#[trigger] self.nodes@[i]).spec_is_leaf()
                && self.nodes@[i].spec_prims().len() > 16 ==> crate::split::spec_best_split(
                mesh,
                self.nodes@[i].spec_prims(),
                self.nodes@[i].spec_aabb(),
            ) is None
    }

    /// Builds the hierarchy for `mesh`: every face's box and centroid is
    /// cached, a root leaf holding all faces seeds a work queue, and each
    /// oversized leaf in breadth-first order is split by the surface-area
    /// heuristic until every leaf holds at most sixteen faces or resists
    /// every candidate boundary.
    #[verifier::rlimit(100)]
    #[verifier::spinoff_prover]
    pub fn build(mesh: &EditableMesh) -> (r: BoundingVolumeHierarchy)
        requires
            mesh.wf(),
        ensures
            r.built_for(*mesh),
            nodes_view(r.nodes@) == spec_build(*mesh),
    {
        broadcast use group_to_multiset_ensures;

        let fboxes = mesh.face_boxes();
        let cents = mesh.centroids();
        let n = mesh.face_count();
        let mut root_box = fboxes[0];
        let mut f: usize = 1;
        proof {
            mesh.lemma_face_box(0);
        }
        while f < n
            invariant
                1 <= f <= n == mesh.num_faces(),
                root_box == spec_mesh_box(*mesh, f as int),
            decreases n - f,
        {
            let fb = fboxes[f];
            root_box = root_box.merge(&fb);
            f = f + 1;
        }
        proof {
            lemma_mesh_box(*mesh, n as int);
        }
        let mut all: Vec<u32> = Vec::new();
        let mut f: usize = 0;
        while f < n
            invariant
                f <= n == mesh.num_faces(),
                all@.len() == f,
                forall|j: int| 0 <= j < f ==> (#[trigger] all@[j]) == j as u32,
            decreases n - f,
        {
            all.push(f as u32);
            f = f + 1;
        }
        proof {
            assert(all@ =~= Seq::new(mesh.num_faces() as nat, |i: int| i as u32));
        }
        let mut nodes: Vec<Node> = Vec::new();
        nodes.push(Node::Leaf { aabb: root_box, primitive_list: all });
        let mut queue: Vec<u32> = Vec::new();
        queue.push(0);
        let mut head: usize = 0;
        proof {
            assert(nodes@.len() == 1);
            assert(leaves_ms_prefix(nodes@, 1) == leaves_ms_prefix(nodes@, 0).add(
                leaf_contrib(nodes@[0]),
            ));
            assert(nodes@[0].spec_prims() == Seq::new(mesh.num_faces() as nat, |i: int| i as u32));
            assert(leaves_ms(nodes@) =~= all_faces_ms(*mesh));
            assert(nodes@[0].spec_is_leaf());
            assert(leaf_count_prefix(nodes@, 0) == 0);
            assert(leaf_count_prefix(nodes@, 1) == 1);
            assert(queue@[0] == 0u32);
            assert(node_view(nodes@[0]) == leaf_v(
                spec_mesh_box(*mesh, mesh.num_faces()),
                Seq::new(mesh.num_faces() as nat, |i: int| i as u32),
            ));
            assert(nodes_view(nodes@) =~= seq![
                leaf_v(
                    spec_mesh_box(*mesh, mesh.num_faces()),
                    Seq::new(mesh.num_faces() as nat, |i: int| i as u32),
                ),
            ]);
            assert(queue_view(queue@) =~= seq![0int]);
            assert(crate::query::in_subtree(nodes@, 0, 0));
        }
        while head < queue.len()
            invariant
                mesh.wf(),
                fboxes@.len() == mesh.num_faces(),
                forall|g: int| 0 <= g < mesh.num_faces() ==> (#[trigger] fboxes@[g])
                    == mesh.spec_face_box(g),
                cents@.len() == mesh.num_faces(),
                forall|g: int| 0 <= g < mesh.num_faces() ==> mesh.centroid_matches(
                    g,
                    #[trigger] cents@[g],
                ),
                1 <= nodes@.len(),
                tree_ok(*mesh, nodes@),
                leaves_ms(nodes@) == all_faces_ms(*mesh),
                nodes@.len() == 2 * leaf_count(nodes@) - 1,
                nodes@[0].spec_aabb() == spec_mesh_box(*mesh, mesh.num_faces()),
                forall|i: int| 0 <= i < nodes@.len() ==> #[trigger] crate::query::in_subtree(
                    nodes@,
                    0,
                    i,
                ),
                head <= queue@.len(),
                queue@.len() == nodes@.len(),
                spec_run(
                    *mesh,
                    nodes_view(nodes@),
                    queue_view(queue@),
                    head as int,
                    (2 * mesh.num_faces() - head) as nat,
                ) == spec_build(*mesh),
                forall|j: int| 0 <= j < queue@.len() ==> (#[trigger] queue@[j]) < nodes@.len(),
                forall|i: int|
                    0 <= i < nodes@.len() && (#[trigger] nodes@[i]).spec_is_leaf()
                        && nodes@[i].spec_prims().len() > 16 && !(crate::split::spec_best_split(
                        *mesh,
                        nodes@[i].spec_prims(),
                        nodes@[i].spec_aabb(),
                    ) is None) ==> exists|j: int| head <= j < queue@.len() && (#[trigger] queue@[j])
                        == i,
            decreases pend_weight(nodes@, queue@, head as int),
        {
            let ghost nodes0 = nodes@;
            let ghost queue0 = queue@;
            let ghost head0 = head as int;
            let idx = queue[head];
            head = head + 1;
            let big = match &nodes[idx as usize] {
                Node::Leaf { primitive_list, .. } => primitive_list.len() > 16,
                Node::NonLeaf { .. } => false,
            };
            proof {
                assert(node_ok(*mesh, nodes@, idx as int));
                assert forall|i: int|
                    0 <= i < nodes@.len() && (#[trigger] nodes@[i]).spec_is_leaf() implies
                    nodes@[i].spec_prims().len() >= 1 by {
                    assert(node_ok(*mesh, nodes@, i));
                }
                lemma_leaf_count_le_ms(nodes@, nodes@.len() as int);
                assert(all_faces_ms(*mesh).len() == mesh.num_faces()) by {
                    broadcast use group_to_multiset_ensures;

                }
                assert(nodes@.len() <= 2 * mesh.num_faces() - 1);
                assert(queue_view(queue0)[head0] == idx as int);
                assert(nodes_view(nodes0)[idx as int] == node_view(nodes0[idx as int]));
            }
            if big {
                proof {
                    lemma_contrib_le(nodes@, idx as int, nodes@.len() as int);
                }
                let result = crate::split::split_node(&mut nodes, idx, mesh, &fboxes, &cents);
                match result {
                    Some((li, ri)) => {
                        queue.push(li);
                        queue.push(ri);
                        proof {
                            let oldn = nodes0;
                            let newn = nodes@;
                            let big_l = oldn.len() as int;
                            let prims = oldn[idx as int].spec_prims();
                            let bx = oldn[idx as int].spec_aabb();
                            let sp = crate::split::spec_best_split(*mesh, prims, bx)->Some_0;
                            let lp = crate::split::left_part(
                                *mesh,
                                prims,
                                sp.axis,
                                sp.boundary,
                                bx,
                                prims.len() as int,
                            );
                            let rp = crate::split::right_part(
                                *mesh,
                                prims,
                                sp.axis,
                                sp.boundary,
                                bx,
                                prims.len() as int,
                            );
                            // soundness of every node in the grown array
                            assert forall|i: int| 0 <= i < newn.len() implies node_ok(
                                *mesh,
                                newn,
                                i,
                            ) by {
                                if i == idx {
                                    assert(node_ok(*mesh, oldn, i));
                                } else if i < big_l {
                                    assert(node_ok(*mesh, oldn, i));
                                    if !oldn[i].spec_is_leaf() {
                                        assert(newn[oldn[i].spec_left()].spec_aabb()
                                            == oldn[oldn[i].spec_left()].spec_aabb());
                                        assert(newn[oldn[i].spec_right()].spec_aabb()
                                            == oldn[oldn[i].spec_right()].spec_aabb());
                                    }
                                }
                            }
                            // the leaves still hold every face exactly once
                            lemma_prefix_one_change(newn, oldn, idx as int, big_l);
                            assert(leaves_ms_prefix(newn, big_l + 2) == leaves_ms_prefix(
                                newn,
                                big_l + 1,
                            ).add(leaf_contrib(newn[big_l + 1])));
                            assert(leaves_ms_prefix(newn, big_l + 1) == leaves_ms_prefix(
                                newn,
                                big_l,
                            ).add(leaf_contrib(newn[big_l])));
                            assert(leaf_contrib(newn[big_l]) == lp.to_multiset());
                            assert(leaf_contrib(newn[big_l + 1]) == rp.to_multiset());
                            assert(leaf_contrib(oldn[idx as int]) == prims.to_multiset());
                            assert(leaf_contrib(newn[idx as int]) == Multiset::<u32>::empty());
                            assert forall|x: u32|
                                leaves_ms(newn).count(x) == all_faces_ms(*mesh).count(x) by {
                                broadcast use vstd::multiset::group_multiset_axioms;

                                assert(leaves_ms_prefix(newn, big_l).add(
                                    leaf_contrib(oldn[idx as int]),
                                ).count(x) == leaves_ms_prefix(oldn, big_l).add(
                                    leaf_contrib(newn[idx as int]),
                                ).count(x));
                                assert(lp.to_multiset().add(rp.to_multiset()).count(x)
                                    == prims.to_multiset().count(x));
                            }
                            assert(leaves_ms(newn) =~= all_faces_ms(*mesh));
                            // one more leaf, two more nodes
                            assert(leaf_count_prefix(newn, big_l + 2) == leaf_count_prefix(
                                newn,
                                big_l + 1,
                            ) + 1);
                            assert(leaf_count_prefix(newn, big_l + 1) == leaf_count_prefix(
                                newn,
                                big_l,
                            ) + 1);
                            assert(leaf_count(newn) == leaf_count(oldn) + 1);
                            // any oversized splittable leaf is still queued
                            assert forall|i: int|
                                0 <= i < newn.len() && (#[trigger] newn[i]).spec_is_leaf()
                                    && newn[i].spec_prims().len() > 16 && !(
                                crate::split::spec_best_split(
                                    *mesh,
                                    newn[i].spec_prims(),
                                    newn[i].spec_aabb(),
                                ) is None) implies exists|j: int|
                                head <= j < queue@.len() && (#[trigger] queue@[j]) == i by {
                                if i == big_l {
                                    assert(queue@[queue0.len() as int] == li);
                                } else if i == big_l + 1 {
                                    assert(queue@[queue0.len() as int + 1] == ri);
                                } else if i < big_l && i != idx {
                                    assert(newn[i] == oldn[i]);
                                    let jw = choose|j: int|
                                        head0 <= j < queue0.len() && (#[trigger] queue0[j]) == i;
                                    assert(queue@[jw] == i);
                                }
                            }
                            // the pending work strictly shrinks
                            lemma_pend_push(newn, queue0, li, head as int);
                            lemma_pend_push(newn, queue0.push(li), ri, head as int);
                            assert forall|j: int| head <= j < queue0.len() implies node_weight(
                                newn,
                                #[trigger] queue0[j] as int,
                            ) <= node_weight(nodes0, queue0[j] as int) by {
                                if queue0[j] as int != idx {
                                    assert(newn[queue0[j] as int] == oldn[queue0[j] as int]);
                                }
                            }
                            lemma_pend_mono(nodes0, newn, queue0, head as int);
                            lemma_pend_nonneg(newn, queue@, head as int);
                            assert(pend_weight(nodes0, queue0, head0) == node_weight(
                                nodes0,
                                idx as int,
                            ) + pend_weight(nodes0, queue0, head0 + 1));
                            assert(node_weight(newn, li as int) == 2 * lp.len() - 1);
                            assert(node_weight(newn, ri as int) == 2 * rp.len() - 1);
                            assert(node_weight(nodes0, idx as int) == 2 * prims.len() - 1);
                            // every node, the two new leaves included, stays
                            // reachable from the root
                            assert forall|i: int| 0 <= i < newn.len() implies
                                #[trigger] crate::query::in_subtree(newn, 0, i) by {
                                crate::query::lemma_in_subtree_preserved(
                                    nodes0,
                                    newn,
                                    idx as int,
                                    0,
                                    idx as int,
                                );
                                if i < big_l {
                                    crate::query::lemma_in_subtree_preserved(
                                        nodes0,
                                        newn,
                                        idx as int,
                                        0,
                                        i,
                                    );
                                } else {
                                    assert(crate::query::in_subtree(newn, i, i));
                                    assert(crate::query::in_subtree(newn, idx as int, i));
                                    crate::query::lemma_in_subtree_trans(newn, 0, idx as int, i);
                                }
                            }
                            // the replayed plan takes the same step
                            let s0 = nodes_view(nodes0);
                            let q0 = queue_view(queue0);
                            let nf = mesh.num_faces();
                            assert(s0[idx as int].prims == prims);
                            assert(s0[idx as int].aabb == bx);
                            assert(s0[idx as int].is_leaf);
                            let s1 = spec_split_state(*mesh, s0, idx as int);
                            assert forall|i: int| 0 <= i < newn.len() implies nodes_view(
                                newn,
                            )[i] == s1[i] by {
                                if i == idx {
                                    assert(node_view(newn[i]) == inner_v(
                                        bx,
                                        nodes0.len() as int,
                                        nodes0.len() as int + 1,
                                    ));
                                } else if i == big_l {
                                    assert(node_view(newn[i]) == leaf_v(sp.left_box, lp));
                                } else if i == big_l + 1 {
                                    assert(node_view(newn[i]) == leaf_v(sp.right_box, rp));
                                } else {
                                    assert(newn[i] == nodes0[i]);
                                }
                            }
                            assert(nodes_view(newn) =~= s1);
                            assert(queue_view(queue@) =~= q0.push(nodes0.len() as int).push(
                                nodes0.len() as int + 1,
                            ));
                            assert(spec_run(*mesh, s0, q0, head0, (2 * nf - head0) as nat)
                                == spec_run(
                                *mesh,
                                s1,
                                q0.push(nodes0.len() as int).push(nodes0.len() as int + 1),
                                head0 + 1,
                                (2 * nf - head0 - 1) as nat,
                            ));
                        }
                    },
                    None => {
                        proof {
                            assert(pend_weight(nodes@, queue@, head0) == node_weight(
                                nodes@,
                                idx as int,
                            ) + pend_weight(nodes@, queue@, head as int));
                            lemma_pend_nonneg(nodes@, queue@, head as int);
                            let s0 = nodes_view(nodes0);
                            let q0 = queue_view(queue0);
                            let nf = mesh.num_faces();
                            assert(s0[idx as int].prims == nodes0[idx as int].spec_prims());
                            assert(s0[idx as int].aabb == nodes0[idx as int].spec_aabb());
                            assert(spec_split_state(*mesh, s0, idx as int) == s0);
                            assert(nodes_view(nodes@) == s0);
                            assert(spec_run(*mesh, s0, q0, head0, (2 * nf - head0) as nat)
                                == spec_run(*mesh, s0, q0, head0 + 1, (2 * nf - head0 - 1) as nat));
                        }
                    },
                }
            } else {
                proof {
                    assert(pend_weight(nodes@, queue@, head0) == node_weight(nodes@, idx as int)
                        + pend_weight(nodes@, queue@, head as int));
                    lemma_pend_nonneg(nodes@, queue@, head as int);
                    let s0 = nodes_view(nodes0);
                    let q0 = queue_view(queue0);
                    let nf = mesh.num_faces();
                    assert(s0[idx as int].is_leaf == nodes0[idx as int].spec_is_leaf());
                    assert(s0[idx as int].prims == nodes0[idx as int].spec_prims());
                    assert(spec_run(*mesh, s0, q0, head0, (2 * nf - head0) as nat) == spec_run(
                        *mesh,
                        s0,
                        q0,
                        head0 + 1,
                        (2 * nf - head0 - 1) as nat,
                    ));
                }
            }
        }
        proof {
            assert forall|i: int|
                0 <= i < nodes@.len() && (#[trigger] nodes@[i]).spec_is_leaf() implies
                nodes@[i].spec_prims().len() >= 1 by {
                assert(node_ok(*mesh, nodes@, i));
            }
            lemma_leaf_count_le_ms(nodes@, nodes@.len() as int);
            assert(all_faces_ms(*mesh).len() == mesh.num_faces());
        }
        let r = BoundingVolumeHierarchy { nodes };
        r
    }
}

} // verus!
