//! The binned surface-area-heuristic split decision.
//!
//! A leaf's box extent on each of the three axes is cut into sixteen
//! equal-width bins; faces fall into bins by centroid. Every interior
//! boundary (between bin 1 and bin 14 inclusive) that leaves both sides
//! non-empty is a candidate; its cost is `leftArea * leftCount +
//! rightArea * rightCount` (surface areas are only compared against each
//! other for one leaf, so the common division by the leaf's own area is
//! dropped). The first candidate, in axis-then-boundary order, with the
//! strictly smallest cost wins, which makes the decision deterministic.
//! These spec functions are the exact statement of that decision; the
//! executable search in `split_node` returns precisely their value.

use vstd::prelude::*;
use crate::vec3::Vec3i;
use crate::aabb::Aabb;
use crate::aabb::lemma_merge_properties;
use crate::aabb::lemma_contains_trans;
use crate::mesh::EditableMesh;
use crate::bvh::Node;
use crate::ratio::lemma_mul_bound2;
use vstd::arithmetic::div_mod::lemma_div_is_ordered;
use vstd::arithmetic::div_mod::lemma_div_multiples_vanish;
use vstd::arithmetic::div_mod::lemma_hoist_over_denominator;
use vstd::arithmetic::div_mod::lemma_basic_div;
use vstd::arithmetic::div_mod::lemma_mod_bound;
use vstd::arithmetic::div_mod::lemma_mod_multiples_vanish;
use vstd::arithmetic::div_mod::lemma_small_mod;
use vstd::pervasive::VecAdditionalExecFns;
use vstd::seq_lib::group_to_multiset_ensures;

verus! {

/// A face count and the merged box of those faces, for one bin or a run of
/// bins. `box_opt` is `None` exactly when no face has landed yet.
pub ghost struct BucketV {
    pub count: int,
    pub box_opt: Option<Aabb>,
}

/// A winning split: axis, boundary index, its cost, and the two sides'
/// merged boxes and counts.
pub ghost struct SplitV {
    pub axis: int,
    pub boundary: int,
    pub cost: int,
    pub left_box: Aabb,
    pub left_count: int,
    pub right_box: Aabb,
    pub right_count: int,
}

/// The bin (0..=15) a centroid coordinate `c` falls into between `mn` and
/// `mx`: `(c - mn) * 16 / (mx - mn)`, clamped; a degenerate extent puts
/// everything in bin 0.
pub open spec fn spec_bucket_index(c: int, mn: int, mx: int) -> int {
    let ext = mx - mn;
    if ext <= 0 {
        0
    } else {
        let raw = ((c - mn) * 16) / ext;
        if raw > 15 {
            15
        } else {
            raw
        }
    }
}

/// The bin of face `f` on `axis` within box `b`.
pub open spec fn bucket_of(mesh: EditableMesh, f: int, axis: int, b: Aabb) -> int {
    spec_bucket_index(mesh.spec_centroid(f).axis(axis), b.min.axis(axis), b.max.axis(axis))
}

pub open spec fn empty_bucket() -> BucketV {
    BucketV { count: 0, box_opt: None }
}

pub open spec fn merge_opt(a: Option<Aabb>, b: Option<Aabb>) -> Option<Aabb> {
    match a {
        Option::None => b,
        Option::Some(x) => match b {
            Option::None => a,
            Option::Some(y) => Option::Some(Aabb::spec_merge(x, y)),
        },
    }
}

pub open spec fn bucket_add(bk: BucketV, fb: Aabb) -> BucketV {
    BucketV { count: bk.count + 1, box_opt: merge_opt(bk.box_opt, Option::Some(fb)) }
}

/// The sixteen bins after the first `k` faces of `prims` are binned on
/// `axis` within `b`.
pub open spec fn spec_buckets(
    mesh: EditableMesh,
    prims: Seq<u32>,
    b: Aabb,
    axis: int,
    k: int,
) -> Seq<BucketV>
    decreases k,
{
    if k <= 0 {
        Seq::new(16, |j: int| empty_bucket())
    } else {
        let prev = spec_buckets(mesh, prims, b, axis, k - 1);
        let f = prims[k - 1] as int;
        let bi = bucket_of(mesh, f, axis, b);
        prev.update(bi, bucket_add(prev[bi], mesh.spec_face_box(f)))
    }
}

pub open spec fn combine_step(acc: BucketV, bk: BucketV) -> BucketV {
    BucketV { count: acc.count + bk.count, box_opt: merge_opt(acc.box_opt, bk.box_opt) }
}

/// Left fold of `combine_step` over bins `lo..hi`.
pub open spec fn spec_combine(bs: Seq<BucketV>, lo: int, hi: int) -> BucketV
    decreases hi - lo,
{
    if hi <= lo {
        empty_bucket()
    } else {
        combine_step(spec_combine(bs, lo, hi - 1), bs[hi - 1])
    }
}

/// The candidate split of `prims` at bin boundary `i` on `axis`: `None`
/// when either side is empty.
pub open spec fn spec_cand(
    mesh: EditableMesh,
    prims: Seq<u32>,
    b: Aabb,
    axis: int,
    i: int,
) -> Option<SplitV> {
    let bs = spec_buckets(mesh, prims, b, axis, prims.len() as int);
    let lft = spec_combine(bs, 0, i);
    let rgt = spec_combine(bs, i, 16);
    if lft.box_opt is None || rgt.box_opt is None {
        None
    } else {
        Some(
            SplitV {
                axis,
                boundary: i,
                cost: lft.box_opt->Some_0.spec_half_area() * lft.count
                    + rgt.box_opt->Some_0.spec_half_area() * rgt.count,
                left_box: lft.box_opt->Some_0,
                left_count: lft.count,
                right_box: rgt.box_opt->Some_0,
                right_count: rgt.count,
            },
        )
    }
}

/// The best candidate among the first `k` of the 42 (axis, boundary)
/// pairs, visited in axis-then-boundary order; a later candidate wins only
/// with a strictly smaller cost.
pub open spec fn spec_best_upto(mesh: EditableMesh, prims: Seq<u32>, b: Aabb, k: int) -> Option<
    SplitV,
>
    decreases k,
{
    if k <= 0 {
        None
    } else {
        let prev = spec_best_upto(mesh, prims, b, k - 1);
        let c = spec_cand(mesh, prims, b, (k - 1) / 14, 1 + (k - 1) % 14);
        match c {
            Option::None => prev,
            Option::Some(cv) => match prev {
                Option::None => Some(cv),
                Option::Some(pv) => if cv.cost < pv.cost {
                    Some(cv)
                } else {
                    Some(pv)
                },
            },
        }
    }
}

/// The split decision for one leaf: the winning candidate over all three
/// axes and all fourteen interior boundaries, or `None` when no boundary
/// separates the faces.
pub open spec fn spec_best_split(mesh: EditableMesh, prims: Seq<u32>, b: Aabb) -> Option<SplitV> {
    spec_best_upto(mesh, prims, b, 42)
}

/// Face `f` goes to the left child of a split at boundary `i` on `axis`:
/// its centroid lies strictly below the boundary coordinate
/// `mn + i * ext / 16` (stated cross-multiplied).
pub open spec fn goes_left(mesh: EditableMesh, f: int, axis: int, i: int, b: Aabb) -> bool {
    (mesh.spec_centroid(f).axis(axis) - b.min.axis(axis)) * 16 < i * (b.max.axis(axis)
        - b.min.axis(axis))
}

/// The first `k` faces of `prims` that go left, in order.
pub open spec fn left_part(
    mesh: EditableMesh,
    prims: Seq<u32>,
    axis: int,
    i: int,
    b: Aabb,
    k: int,
) -> Seq<u32>
    decreases k,
{
    if k <= 0 {
        Seq::empty()
    } else {
        let pre = left_part(mesh, prims, axis, i, b, k - 1);
        if goes_left(mesh, prims[k - 1] as int, axis, i, b) {
            pre.push(prims[k - 1])
        } else {
            pre
        }
    }
}

/// The first `k` faces of `prims` that go right, in order.
pub open spec fn right_part(
    mesh: EditableMesh,
    prims: Seq<u32>,
    axis: int,
    i: int,
    b: Aabb,
    k: int,
) -> Seq<u32>
    decreases k,
{
    if k <= 0 {
        Seq::empty()
    } else {
        let pre = right_part(mesh, prims, axis, i, b, k - 1);
        if goes_left(mesh, prims[k - 1] as int, axis, i, b) {
            pre
        } else {
            pre.push(prims[k - 1])
        }
    }
}

/// What split-related reasoning assumes of a leaf: a well-formed mesh, a
/// well-formed bounded box, and a non-empty face list whose faces exist
/// and whose boxes the leaf's box contains.
pub open spec fn leaf_ctx(mesh: EditableMesh, prims: Seq<u32>, b: Aabb) -> bool {
    &&& mesh.wf()
    &&& b.wf()
    &&& b.bounded(crate::MAX_COORD as int)
    &&& 1 <= prims.len() <= 0x100000000
    &&& forall|k: int| 0 <= k < prims.len() ==> (#[trigger] prims[k]) < mesh.num_faces()
    &&& forall|k: int| 0 <= k < prims.len() ==> b.contains_box(
        mesh.spec_face_box(#[trigger] prims[k] as int),
    )
}

/// Under `leaf_ctx`, every listed face's centroid lies in the leaf box.
pub proof fn lemma_ctx_centroid(mesh: EditableMesh, prims: Seq<u32>, b: Aabb, k: int)
    requires
        leaf_ctx(mesh, prims, b),
        0 <= k < prims.len(),
    ensures
        b.min.x <= mesh.spec_centroid(prims[k] as int).x <= b.max.x,
        b.min.y <= mesh.spec_centroid(prims[k] as int).y <= b.max.y,
        b.min.z <= mesh.spec_centroid(prims[k] as int).z <= b.max.z,
{
    let f = prims[k] as int;
    mesh.lemma_face_box(f);
    assert forall|j: int| 0 <= j < mesh.faces@[f]@.len() implies b.contains_point(
        #[trigger] mesh.positions@[mesh.faces@[f]@[j] as int],
    ) by {
        assert(mesh.spec_face_box(f).contains_point(mesh.positions@[mesh.faces@[f]@[j] as int]));
    }
    mesh.lemma_centroid_in_box(f, b);
}

/// The bin index is always within 0..=15 for a face whose centroid the box
/// holds.
pub proof fn lemma_bucket_range(mesh: EditableMesh, prims: Seq<u32>, b: Aabb, axis: int, k: int)
    requires
        leaf_ctx(mesh, prims, b),
        0 <= axis < 3,
        0 <= k < prims.len(),
    ensures
        0 <= bucket_of(mesh, prims[k] as int, axis, b) <= 15,
{
    lemma_ctx_centroid(mesh, prims, b, k);
    let c = mesh.spec_centroid(prims[k] as int).axis(axis);
    let mn = b.min.axis(axis);
    let mx = b.max.axis(axis);
    let ext = mx - mn;
    if ext > 0 {
        lemma_div_is_ordered(0, (c - mn) * 16, ext);
    }
}

/// Bin membership decides the side: with a non-degenerate extent,
/// `goes_left` at boundary `i` holds exactly of the faces in bins below
/// `i`.
pub proof fn lemma_goes_left_iff_bucket(
    mesh: EditableMesh,
    prims: Seq<u32>,
    b: Aabb,
    axis: int,
    i: int,
    k: int,
)
    requires
        leaf_ctx(mesh, prims, b),
        0 <= axis < 3,
        1 <= i <= 14,
        0 <= k < prims.len(),
        b.max.axis(axis) - b.min.axis(axis) > 0,
    ensures
        goes_left(mesh, prims[k] as int, axis, i, b) <==> bucket_of(mesh, prims[k] as int, axis, b)
            < i,
{
    lemma_ctx_centroid(mesh, prims, b, k);
    let c = mesh.spec_centroid(prims[k] as int).axis(axis);
    let mn = b.min.axis(axis);
    let mx = b.max.axis(axis);
    let ext = mx - mn;
    let off = (c - mn) * 16;
    let raw = off / ext;
    if off < i * ext {
        // raw <= (i * ext - 1) / ext == i - 1
        lemma_div_is_ordered(off, i * ext - 1, ext);
        lemma_hoist_over_denominator(ext - 1, i - 1, ext as nat);
        lemma_basic_div(ext - 1, ext);
        assert(i * ext - 1 == (ext - 1) + (i - 1) * ext) by (nonlinear_arith);
        assert(raw <= i - 1);
    } else {
        // raw >= (i * ext) / ext == i
        lemma_div_is_ordered(i * ext, off, ext);
        lemma_div_multiples_vanish(i, ext);
        assert(i * ext == ext * i) by (nonlinear_arith);
        assert(raw >= i);
    }
}

/// What binning guarantees after `k` faces: counts stay within `k`, a bin
/// box exists exactly when the bin is inhabited, every bin box is well
/// formed and inside the leaf box, and each face's box is inside its bin's
/// box.
pub proof fn lemma_buckets_props(mesh: EditableMesh, prims: Seq<u32>, b: Aabb, axis: int, k: int)
    requires
        leaf_ctx(mesh, prims, b),
        0 <= axis < 3,
        0 <= k <= prims.len(),
    ensures
        spec_buckets(mesh, prims, b, axis, k).len() == 16,
        forall|j: int| 0 <= j < 16 ==> 0 <= (#[trigger] spec_buckets(mesh, prims, b, axis, k)[j]).count
            <= k,
        forall|j: int| 0 <= j < 16 ==> ((#[trigger] spec_buckets(mesh, prims, b, axis, k)[j]).box_opt
            is Some <==> exists|idx: int|
            0 <= idx < k && bucket_of(mesh, #[trigger] prims[idx] as int, axis, b) == j),
        forall|j: int|
            0 <= j < 16 && (#[trigger] spec_buckets(mesh, prims, b, axis, k)[j]).box_opt is Some
                ==> spec_buckets(mesh, prims, b, axis, k)[j].box_opt->Some_0.wf()
                && b.contains_box(spec_buckets(mesh, prims, b, axis, k)[j].box_opt->Some_0),
        forall|idx: int|
            0 <= idx < k ==> {
                let j = bucket_of(mesh, #[trigger] prims[idx] as int, axis, b);
                spec_buckets(mesh, prims, b, axis, k)[j].box_opt is Some && spec_buckets(
                    mesh,
                    prims,
                    b,
                    axis,
                    k,
                )[j].box_opt->Some_0.contains_box(mesh.spec_face_box(prims[idx] as int))
            },
        decreases k,
{
    if k > 0 {
        lemma_buckets_props(mesh, prims, b, axis, k - 1);
        assert forall|idx: int| 0 <= idx < k implies 0 <= bucket_of(
            mesh,
            #[trigger] prims[idx] as int,
            axis,
            b,
        ) <= 15 by {
            lemma_bucket_range(mesh, prims, b, axis, idx);
        }
        let prev = spec_buckets(mesh, prims, b, axis, k - 1);
        let f = prims[k - 1] as int;
        let bi = bucket_of(mesh, f, axis, b);
        let fb = mesh.spec_face_box(f);
        mesh.lemma_face_box(f);
        if prev[bi].box_opt is Some {
            lemma_merge_properties(prev[bi].box_opt->Some_0, fb);
            assert forall|idx: int| 0 <= idx < k - 1 && bucket_of(
                mesh,
                prims[idx] as int,
                axis,
                b,
            ) == bi implies spec_buckets(mesh, prims, b, axis, k)[bi].box_opt->Some_0.contains_box(
                mesh.spec_face_box(prims[idx] as int),
            ) by {
                lemma_contains_trans(
                    spec_buckets(mesh, prims, b, axis, k)[bi].box_opt->Some_0,
                    prev[bi].box_opt->Some_0,
                    mesh.spec_face_box(prims[idx] as int),
                );
            }
        }
    }
}

/// What folding a run of bins guarantees: the count is bounded, the run's
/// box exists exactly when some bin in the run is inhabited, it stays
/// inside the leaf box, and it contains every bin box in the run.
pub proof fn lemma_combine_props(bs: Seq<BucketV>, b: Aabb, maxc: int, lo: int, hi: int)
    requires
        bs.len() == 16,
        0 <= lo <= hi <= 16,
        0 <= maxc,
        forall|j: int| lo <= j < hi ==> 0 <= (#[trigger] bs[j]).count <= maxc,
        forall|j: int| lo <= j < hi && (#[trigger] bs[j]).box_opt is Some ==> bs[j].box_opt->Some_0.wf()
            && b.contains_box(bs[j].box_opt->Some_0),
    ensures
        0 <= spec_combine(bs, lo, hi).count <= (hi - lo) * maxc,
        spec_combine(bs, lo, hi).box_opt is Some <==> exists|j: int|
            lo <= j < hi && (#[trigger] bs[j]).box_opt is Some,
        spec_combine(bs, lo, hi).box_opt is Some ==> spec_combine(bs, lo, hi).box_opt->Some_0.wf()
            && b.contains_box(spec_combine(bs, lo, hi).box_opt->Some_0),
        forall|j: int| lo <= j < hi && (#[trigger] bs[j]).box_opt is Some ==> spec_combine(
            bs,
            lo,
            hi,
        ).box_opt is Some && spec_combine(bs, lo, hi).box_opt->Some_0.contains_box(
            bs[j].box_opt->Some_0,
        ),
    decreases hi - lo,
{
    if hi > lo {
        lemma_combine_props(bs, b, maxc, lo, hi - 1);
        assert((hi - lo) * maxc == (hi - 1 - lo) * maxc + maxc) by (nonlinear_arith);
        let pre = spec_combine(bs, lo, hi - 1);
        if pre.box_opt is Some && bs[hi - 1].box_opt is Some {
            lemma_merge_properties(pre.box_opt->Some_0, bs[hi - 1].box_opt->Some_0);
            assert forall|j: int| lo <= j < hi - 1 && (#[trigger] bs[j]).box_opt is Some implies
                spec_combine(bs, lo, hi).box_opt->Some_0.contains_box(bs[j].box_opt->Some_0) by {
                lemma_contains_trans(
                    spec_combine(bs, lo, hi).box_opt->Some_0,
                    pre.box_opt->Some_0,
                    bs[j].box_opt->Some_0,
                );
            }
        }
    }
}

/// The two sides of a partition at `(axis, i)`: together they hold exactly
/// the first `k` faces (as a multiset), their lengths add up, their
/// members go to their side, and any face that goes to a side makes that
/// side non-empty.
pub proof fn lemma_partition(
    mesh: EditableMesh,
    prims: Seq<u32>,
    axis: int,
    i: int,
    b: Aabb,
    k: int,
)
    requires
        0 <= k <= prims.len(),
    ensures
        left_part(mesh, prims, axis, i, b, k).to_multiset().add(
            right_part(mesh, prims, axis, i, b, k).to_multiset(),
        ) =~= prims.subrange(0, k).to_multiset(),
        left_part(mesh, prims, axis, i, b, k).len() + right_part(mesh, prims, axis, i, b, k).len()
            == k,
        forall|j: int| 0 <= j < left_part(mesh, prims, axis, i, b, k).len() ==> goes_left(
            mesh,
            #[trigger] left_part(mesh, prims, axis, i, b, k)[j] as int,
            axis,
            i,
            b,
        ) && (exists|idx: int| 0 <= idx < k && #[trigger] prims[idx] == left_part(
            mesh,
            prims,
            axis,
            i,
            b,
            k,
        )[j]),
        forall|j: int| 0 <= j < right_part(mesh, prims, axis, i, b, k).len() ==> !goes_left(
            mesh,
            #[trigger] right_part(mesh, prims, axis, i, b, k)[j] as int,
            axis,
            i,
            b,
        ) && (exists|idx: int| 0 <= idx < k && #[trigger] prims[idx] == right_part(
            mesh,
            prims,
            axis,
            i,
            b,
            k,
        )[j]),
        forall|idx: int| 0 <= idx < k && goes_left(mesh, #[trigger] prims[idx] as int, axis, i, b)
            ==> left_part(mesh, prims, axis, i, b, k).len() >= 1,
        forall|idx: int| 0 <= idx < k && !goes_left(mesh, #[trigger] prims[idx] as int, axis, i, b)
            ==> right_part(mesh, prims, axis, i, b, k).len() >= 1,
    decreases k,
{
    broadcast use group_to_multiset_ensures;

    if k > 0 {
        lemma_partition(mesh, prims, axis, i, b, k - 1);
        assert(prims.subrange(0, k) =~= prims.subrange(0, k - 1).push(prims[k - 1]));
        let lp = left_part(mesh, prims, axis, i, b, k - 1);
        let rp = right_part(mesh, prims, axis, i, b, k - 1);
        if goes_left(mesh, prims[k - 1] as int, axis, i, b) {
            assert(lp.push(prims[k - 1]).to_multiset() =~= lp.to_multiset().insert(prims[k - 1]));
            assert(lp.push(prims[k - 1]).to_multiset().add(rp.to_multiset()) =~= lp.to_multiset().add(
                rp.to_multiset(),
            ).insert(prims[k - 1]));
        } else {
            assert(rp.push(prims[k - 1]).to_multiset() =~= rp.to_multiset().insert(prims[k - 1]));
            assert(lp.to_multiset().add(rp.push(prims[k - 1]).to_multiset()) =~= lp.to_multiset().add(
                rp.to_multiset(),
            ).insert(prims[k - 1]));
        }
    }
}

/// The candidate visited at step `k` of the search is
/// `(k / 14, 1 + k % 14)`; for a well-formed pair that inverts.
proof fn lemma_candidate_index(axis: int, i: int)
    requires
        0 <= axis < 3,
        1 <= i <= 14,
    ensures
        (14 * axis + i - 1) / 14 == axis,
        1 + (14 * axis + i - 1) % 14 == i,
{
    lemma_hoist_over_denominator(i - 1, axis, 14nat);
    lemma_basic_div(i - 1, 14);
    lemma_mod_multiples_vanish(axis, i - 1, 14);
    lemma_small_mod((i - 1) as nat, 14nat);
}

/// Whatever the search settles on is one of the candidates.
pub proof fn lemma_best_is_cand(mesh: EditableMesh, prims: Seq<u32>, b: Aabb, k: int)
    requires
        0 <= k <= 42,
    ensures
        spec_best_upto(mesh, prims, b, k) is Some ==> exists|a: int, i: int|
            0 <= a < 3 && 1 <= i <= 14 && #[trigger] spec_cand(mesh, prims, b, a, i)
                == spec_best_upto(mesh, prims, b, k),
    decreases k,
{
    if k > 0 {
        lemma_best_is_cand(mesh, prims, b, k - 1);
        let a = (k - 1) / 14;
        let i = 1 + (k - 1) % 14;
        lemma_div_is_ordered(0, k - 1, 14);
        lemma_div_is_ordered(k - 1, 41, 14);
        lemma_hoist_over_denominator(13, 2, 14nat);
        lemma_basic_div(13, 14);
        lemma_mod_bound(k - 1, 14);
        if spec_best_upto(mesh, prims, b, k) is Some {
            if spec_best_upto(mesh, prims, b, k) == spec_cand(mesh, prims, b, a, i) {
                assert(0 <= a < 3 && 1 <= i <= 14 && spec_cand(mesh, prims, b, a, i)
                    == spec_best_upto(mesh, prims, b, k));
            }
        }
    }
}

/// Everything the builder needs of a winning split: the boundary is real,
/// both sides are non-empty, they partition the leaf's faces, and each
/// side's box is inside the leaf's box and holds its members' face boxes.
pub proof fn lemma_split_sides(mesh: EditableMesh, prims: Seq<u32>, b: Aabb, sp: SplitV)
    requires
        leaf_ctx(mesh, prims, b),
        spec_best_split(mesh, prims, b) == Some(sp),
    ensures
        0 <= sp.axis < 3,
        1 <= sp.boundary <= 14,
        sp.left_box.wf(),
        sp.right_box.wf(),
        sp.left_box.bounded(crate::MAX_COORD as int),
        sp.right_box.bounded(crate::MAX_COORD as int),
        b.contains_box(sp.left_box),
        b.contains_box(sp.right_box),
        left_part(mesh, prims, sp.axis, sp.boundary, b, prims.len() as int).len() >= 1,
        right_part(mesh, prims, sp.axis, sp.boundary, b, prims.len() as int).len() >= 1,
        left_part(mesh, prims, sp.axis, sp.boundary, b, prims.len() as int).len() + right_part(
            mesh,
            prims,
            sp.axis,
            sp.boundary,
            b,
            prims.len() as int,
        ).len() == prims.len(),
        left_part(mesh, prims, sp.axis, sp.boundary, b, prims.len() as int).to_multiset().add(
            right_part(mesh, prims, sp.axis, sp.boundary, b, prims.len() as int).to_multiset(),
        ) == prims.to_multiset(),
        forall|j: int|
            0 <= j < left_part(mesh, prims, sp.axis, sp.boundary, b, prims.len() as int).len()
                ==> (#[trigger] left_part(mesh, prims, sp.axis, sp.boundary, b, prims.len() as int)[j])
                < mesh.num_faces() && sp.left_box.contains_box(
                mesh.spec_face_box(
                    left_part(mesh, prims, sp.axis, sp.boundary, b, prims.len() as int)[j] as int,
                ),
            ),
        forall|j: int|
            0 <= j < right_part(mesh, prims, sp.axis, sp.boundary, b, prims.len() as int).len()
                ==> (#[trigger] right_part(mesh, prims, sp.axis, sp.boundary, b, prims.len() as int)[j])
                < mesh.num_faces() && sp.right_box.contains_box(
                mesh.spec_face_box(
                    right_part(mesh, prims, sp.axis, sp.boundary, b, prims.len() as int)[j] as int,
                ),
            ),
{
    lemma_best_is_cand(mesh, prims, b, 42);
    let (a, i): (int, int) = choose|a: int, i: int|
        0 <= a < 3 && 1 <= i <= 14 && #[trigger] spec_cand(mesh, prims, b, a, i) == Some(sp);
    assert(sp.axis == a && sp.boundary == i);
    let n = prims.len() as int;
    let bs = spec_buckets(mesh, prims, b, a, n);
    lemma_buckets_props(mesh, prims, b, a, n);
    lemma_combine_props(bs, b, n, 0, i);
    lemma_combine_props(bs, b, n, i, 16);
    let lft = spec_combine(bs, 0, i);
    let rgt = spec_combine(bs, i, 16);
    assert(sp.left_box == lft.box_opt->Some_0);
    assert(sp.right_box == rgt.box_opt->Some_0);
    assert forall|idx: int| 0 <= idx < n implies 0 <= bucket_of(
        mesh,
        #[trigger] prims[idx] as int,
        a,
        b,
    ) <= 15 by {
        lemma_bucket_range(mesh, prims, b, a, idx);
    }
    // The right side is inhabited, so some face sits in a bin >= 1, which
    // rules out a degenerate extent on this axis.
    let jr = choose|j: int| i <= j < 16 && (#[trigger] bs[j]).box_opt is Some;
    let idxr = choose|idx: int| 0 <= idx < n && bucket_of(mesh, #[trigger] prims[idx] as int, a, b)
        == jr;
    assert(b.max.axis(a) - b.min.axis(a) > 0) by {
        if b.max.axis(a) - b.min.axis(a) <= 0 {
            assert(bucket_of(mesh, prims[idxr] as int, a, b) == 0);
        }
    }
    let jl = choose|j: int| 0 <= j < i && (#[trigger] bs[j]).box_opt is Some;
    let idxl = choose|idx: int| 0 <= idx < n && bucket_of(mesh, #[trigger] prims[idx] as int, a, b)
        == jl;
    lemma_partition(mesh, prims, a, i, b, n);
    assert(prims.subrange(0, n) =~= prims);
    lemma_goes_left_iff_bucket(mesh, prims, b, a, i, idxl);
    lemma_goes_left_iff_bucket(mesh, prims, b, a, i, idxr);
    let lp = left_part(mesh, prims, a, i, b, n);
    let rp = right_part(mesh, prims, a, i, b, n);
    assert forall|j: int| 0 <= j < lp.len() implies (#[trigger] lp[j]) < mesh.num_faces()
        && sp.left_box.contains_box(mesh.spec_face_box(lp[j] as int)) by {
        let idx = choose|idx: int| 0 <= idx < n && #[trigger] prims[idx] == lp[j];
        lemma_goes_left_iff_bucket(mesh, prims, b, a, i, idx);
        let bj = bucket_of(mesh, prims[idx] as int, a, b);
        assert(bs[bj].box_opt->Some_0.contains_box(mesh.spec_face_box(prims[idx] as int)));
        assert(lft.box_opt->Some_0.contains_box(bs[bj].box_opt->Some_0));
        lemma_contains_trans(
            lft.box_opt->Some_0,
            bs[bj].box_opt->Some_0,
            mesh.spec_face_box(prims[idx] as int),
        );
    }
    assert forall|j: int| 0 <= j < rp.len() implies (#[trigger] rp[j]) < mesh.num_faces()
        && sp.right_box.contains_box(mesh.spec_face_box(rp[j] as int)) by {
        let idx = choose|idx: int| 0 <= idx < n && #[trigger] prims[idx] == rp[j];
        lemma_goes_left_iff_bucket(mesh, prims, b, a, i, idx);
        let bj = bucket_of(mesh, prims[idx] as int, a, b);
        assert(bs[bj].box_opt->Some_0.contains_box(mesh.spec_face_box(prims[idx] as int)));
        assert(rgt.box_opt->Some_0.contains_box(bs[bj].box_opt->Some_0));
        lemma_contains_trans(
            rgt.box_opt->Some_0,
            bs[bj].box_opt->Some_0,
            mesh.spec_face_box(prims[idx] as int),
        );
    }
}

/// The winning split as the search carries it: exec twin of `SplitV`.
struct SplitExec {
    axis: usize,
    boundary: usize,
    cost: i128,
    left_box: Aabb,
    left_count: i64,
    right_box: Aabb,
    right_count: i64,
}

spec fn split_matches(e: SplitExec, v: SplitV) -> bool {
    &&& e.axis == v.axis
    &&& e.boundary == v.boundary
    &&& e.cost == v.cost
    &&& e.left_box == v.left_box
    &&& e.left_count == v.left_count
    &&& e.right_box == v.right_box
    &&& e.right_count == v.right_count
}

spec fn best_matches(e: Option<SplitExec>, v: Option<SplitV>) -> bool {
    match e {
        Option::None => v is None,
        Option::Some(ee) => v is Some && split_matches(ee, v->Some_0),
    }
}

/// Exec twin of `spec_bucket_index`.
fn bucket_index_exec(c: i64, mn: i64, mx: i64) -> (r: usize)
    requires
        mn <= c <= mx,
        -crate::MAX_COORD <= mn <= crate::MAX_COORD,
        -crate::MAX_COORD <= mx <= crate::MAX_COORD,
    ensures
        r == spec_bucket_index(c as int, mn as int, mx as int),
        r < 16,
{
    let ext = mx - mn;
    if ext <= 0 {
        0
    } else {
        let raw = (((c - mn) as u64) * 16) / (ext as u64);
        proof {
            lemma_div_is_ordered(0, (c - mn) * 16, ext as int);
        }
        if raw > 15 {
            15
        } else {
            raw as usize
        }
    }
}

/// Exec twin of `merge_opt` against a face box.
fn merge_opt_push(acc: &Option<Aabb>, fb: &Aabb) -> (r: Option<Aabb>)
    ensures
        r == merge_opt(*acc, Option::Some(*fb)),
{
    match acc {
        Option::None => Option::Some(*fb),
        Option::Some(x) => Option::Some(x.merge(fb)),
    }
}

/// Exec twin of `spec_combine` over bins `lo..hi`.
fn combine_range(
    counts: &Vec<i64>,
    boxes: &Vec<Option<Aabb>>,
    lo: usize,
    hi: usize,
    bs: Ghost<Seq<BucketV>>,
) -> (r: (i64, Option<Aabb>))
    requires
        counts@.len() == 16,
        boxes@.len() == 16,
        bs@.len() == 16,
        lo <= hi <= 16,
        forall|t: int| 0 <= t < 16 ==> (#[trigger] counts@[t]) == bs@[t].count,
        forall|t: int| 0 <= t < 16 ==> (#[trigger] boxes@[t]) == bs@[t].box_opt,
        forall|t: int| 0 <= t < 16 ==> 0 <= (#[trigger] bs@[t]).count <= 0x100000000,
    ensures
        r.0 == spec_combine(bs@, lo as int, hi as int).count,
        r.1 == spec_combine(bs@, lo as int, hi as int).box_opt,
        0 <= r.0 <= 0x1000000000,
{
    let mut count: i64 = 0;
    let mut box_opt: Option<Aabb> = Option::None;
    let mut j: usize = lo;
    while j < hi
        invariant
            lo <= j <= hi,
            count == spec_combine(bs@, lo as int, j as int).count,
            box_opt == spec_combine(bs@, lo as int, j as int).box_opt,
            0 <= count <= (j - lo) * 0x100000000,
        decreases hi - j,
    {
        proof {
            assert((j + 1 - lo) * 0x100000000 == (j - lo) * 0x100000000 + 0x100000000)
                by (nonlinear_arith);
            lemma_mul_bound2((j - lo) as int, 0x100000000, 16, 0x100000000);
        }
        count = count + counts[j];
        box_opt = match (&box_opt, &boxes[j]) {
            (Option::None, other) => *other,
            (cur, Option::None) => *cur,
            (Option::Some(x), Option::Some(y)) => Option::Some(x.merge(y)),
        };
        j = j + 1;
    }
    proof {
        lemma_mul_bound2((hi - lo) as int, 0x100000000, 16, 0x100000000);
        assert(0x1000000000 == 16 * 0x100000000int);
    }
    (count, box_opt)
}

/// Bins one leaf's faces on `axis`: per-bin face counts and merged boxes,
/// exactly `spec_buckets` over the whole face list.
fn fill_buckets(
    mesh: &EditableMesh,
    fboxes: &Vec<Aabb>,
    cents: &Vec<Vec3i>,
    prims: &Vec<u32>,
    root_box: Aabb,
    axis: usize,
) -> (r: (Vec<i64>, Vec<Option<Aabb>>))
    requires
        mesh.wf(),
        fboxes@.len() == mesh.num_faces(),
        forall|f: int| 0 <= f < mesh.num_faces() ==> (#[trigger] fboxes@[f]) == mesh.spec_face_box(
            f,
        ),
        cents@.len() == mesh.num_faces(),
        forall|f: int| 0 <= f < mesh.num_faces() ==> mesh.centroid_matches(f, #[trigger] cents@[f]),
        leaf_ctx(*mesh, prims@, root_box),
        axis < 3,
    ensures
        r.0@.len() == 16,
        r.1@.len() == 16,
        forall|u: int| 0 <= u < 16 ==> (#[trigger] r.0@[u]) == spec_buckets(
            *mesh,
            prims@,
            root_box,
            axis as int,
            prims@.len() as int,
        )[u].count,
        forall|u: int| 0 <= u < 16 ==> (#[trigger] r.1@[u]) == spec_buckets(
            *mesh,
            prims@,
            root_box,
            axis as int,
            prims@.len() as int,
        )[u].box_opt,
{
    let mut bcounts: Vec<i64> = Vec::new();
    let mut bboxes: Vec<Option<Aabb>> = Vec::new();
    let mut t: usize = 0;
    while t < 16
        invariant
            t <= 16,
            bcounts@.len() == t,
            bboxes@.len() == t,
            forall|u: int| 0 <= u < t ==> (#[trigger] bcounts@[u]) == 0,
            forall|u: int| 0 <= u < t ==> (#[trigger] bboxes@[u]) is None,
        decreases 16 - t,
    {
        bcounts.push(0);
        bboxes.push(Option::None);
        t = t + 1;
    }
    let n_prims = prims.len();
    proof {
        lemma_buckets_props(*mesh, prims@, root_box, axis as int, 0);
    }
    let mut j: usize = 0;
    while j < n_prims
        invariant
            j <= n_prims == prims@.len(),
            bcounts@.len() == 16,
            bboxes@.len() == 16,
            forall|u: int| 0 <= u < 16 ==> (#[trigger] bcounts@[u]) == spec_buckets(
                *mesh,
                prims@,
                root_box,
                axis as int,
                j as int,
            )[u].count,
            forall|u: int| 0 <= u < 16 ==> (#[trigger] bboxes@[u]) == spec_buckets(
                *mesh,
                prims@,
                root_box,
                axis as int,
                j as int,
            )[u].box_opt,
        decreases n_prims - j,
    {
        let f = prims[j];
        proof {
            lemma_buckets_props(*mesh, prims@, root_box, axis as int, j as int);
            lemma_ctx_centroid(*mesh, prims@, root_box, j as int);
            lemma_bucket_range(*mesh, prims@, root_box, axis as int, j as int);
        }
        let c = cents[f as usize];
        let fb = fboxes[f as usize];
        let cx = c.get_axis(axis);
        let mn = root_box.min.get_axis(axis);
        let mx = root_box.max.get_axis(axis);
        proof {
            assert(c.axis(axis as int) == mesh.spec_centroid(f as int).axis(axis as int));
        }
        let bi = bucket_index_exec(cx, mn, mx);
        proof {
            assert(bi == bucket_of(*mesh, f as int, axis as int, root_box));
        }
        let merged = merge_opt_push(&bboxes[bi], &fb);
        let cnt = bcounts[bi];
        bcounts.set(bi, cnt + 1);
        bboxes.set(bi, merged);
        j = j + 1;
    }
    (bcounts, bboxes)
}

/// The SAH search itself: visits the three axes and the fourteen interior
/// boundaries in order and keeps the first strictly-cheapest candidate —
/// precisely `spec_best_split`.
fn find_best(
    mesh: &EditableMesh,
    fboxes: &Vec<Aabb>,
    cents: &Vec<Vec3i>,
    prims: &Vec<u32>,
    root_box: Aabb,
) -> (r: Option<SplitExec>)
    requires
        mesh.wf(),
        fboxes@.len() == mesh.num_faces(),
        forall|f: int| 0 <= f < mesh.num_faces() ==> (#[trigger] fboxes@[f]) == mesh.spec_face_box(
            f,
        ),
        cents@.len() == mesh.num_faces(),
        forall|f: int| 0 <= f < mesh.num_faces() ==> mesh.centroid_matches(f, #[trigger] cents@[f]),
        leaf_ctx(*mesh, prims@, root_box),
    ensures
        best_matches(r, spec_best_split(*mesh, prims@, root_box)),
{
    let n_prims = prims.len();
    let mut best: Option<SplitExec> = Option::None;
    let mut axis: usize = 0;
    while axis < 3
        invariant
            axis <= 3,
            best_matches(best, spec_best_upto(*mesh, prims@, root_box, 14 * axis as int)),
        decreases 3 - axis,
    {
        let (bcounts, bboxes) = fill_buckets(mesh, fboxes, cents, prims, root_box, axis);
        let ghost bs = spec_buckets(*mesh, prims@, root_box, axis as int, n_prims as int);
        proof {
            lemma_buckets_props(*mesh, prims@, root_box, axis as int, n_prims as int);
        }
        let mut i: usize = 1;
        while i < 15
            invariant
                1 <= i <= 15,
                axis < 3,
                bcounts@.len() == 16,
                bboxes@.len() == 16,
                bs == spec_buckets(*mesh, prims@, root_box, axis as int, n_prims as int),
                bs.len() == 16,
                n_prims == prims@.len(),
                forall|u: int| 0 <= u < 16 ==> (#[trigger] bcounts@[u]) == bs[u].count,
                forall|u: int| 0 <= u < 16 ==> (#[trigger] bboxes@[u]) == bs[u].box_opt,
                forall|u: int| 0 <= u < 16 ==> 0 <= (#[trigger] bs[u]).count <= 0x100000000,
                best_matches(best, spec_best_upto(*mesh, prims@, root_box, 14 * axis as int + i - 1)),
            decreases 15 - i,
        {
            let ghost k = 14 * axis as int + i - 1;
            proof {
                lemma_candidate_index(axis as int, i as int);
            }
            let (lc, lbo) = combine_range(&bcounts, &bboxes, 0, i, Ghost(bs));
            let (rc, rbo) = combine_range(&bcounts, &bboxes, i, 16, Ghost(bs));
            proof {
                lemma_combine_props(bs, root_box, n_prims as int, 0, i as int);
                lemma_combine_props(bs, root_box, n_prims as int, i as int, 16);
            }
            match (lbo, rbo) {
                (Option::Some(lbox), Option::Some(rbox)) => {
                    let la = lbox.half_area();
                    let ra = rbox.half_area();
                    proof {
                        lemma_mul_bound2(la as int, lc as int, 0x3000000000, 0x1000000000);
                        lemma_mul_bound2(ra as int, rc as int, 0x3000000000, 0x1000000000);
                    }
                    let cost: i128 = la * (lc as i128) + ra * (rc as i128);
                    proof {
                        assert(spec_cand(*mesh, prims@, root_box, axis as int, i as int) == Some(
                            SplitV {
                                axis: axis as int,
                                boundary: i as int,
                                cost: cost as int,
                                left_box: lbox,
                                left_count: lc as int,
                                right_box: rbox,
                                right_count: rc as int,
                            },
                        ));
                    }
                    let take: bool = match &best {
                        Option::None => true,
                        Option::Some(e) => cost < e.cost,
                    };
                    if take {
                        best = Option::Some(
                            SplitExec {
                                axis,
                                boundary: i,
                                cost,
                                left_box: lbox,
                                left_count: lc,
                                right_box: rbox,
                                right_count: rc,
                            },
                        );
                    }
                },
                _ => {
                    proof {
                        assert(spec_cand(*mesh, prims@, root_box, axis as int, i as int) is None);
                    }
                },
            }
            i = i + 1;
        }
        axis = axis + 1;
    }
    best
}

/// Splits the face list at boundary `boundary` on `axis`: faces whose
/// centroid lies strictly below the boundary coordinate go left, the rest
/// go right — exactly `left_part` / `right_part`.
fn partition_faces(
    mesh: &EditableMesh,
    cents: &Vec<Vec3i>,
    prims: &Vec<u32>,
    root_box: Aabb,
    axis: usize,
    boundary: usize,
) -> (r: (Vec<u32>, Vec<u32>))
    requires
        mesh.wf(),
        cents@.len() == mesh.num_faces(),
        forall|f: int| 0 <= f < mesh.num_faces() ==> mesh.centroid_matches(f, #[trigger] cents@[f]),
        leaf_ctx(*mesh, prims@, root_box),
        axis < 3,
        1 <= boundary <= 14,
    ensures
        r.0@ == left_part(*mesh, prims@, axis as int, boundary as int, root_box, prims@.len() as int),
        r.1@ == right_part(
            *mesh,
            prims@,
            axis as int,
            boundary as int,
            root_box,
            prims@.len() as int,
        ),
{
    let mn = root_box.min.get_axis(axis);
    let mx = root_box.max.get_axis(axis);
    let ext = mx - mn;
    let n_prims = prims.len();
    let mut left_list: Vec<u32> = Vec::new();
    let mut right_list: Vec<u32> = Vec::new();
    let mut j: usize = 0;
    while j < n_prims
        invariant
            j <= n_prims == prims@.len(),
            mn == root_box.min.axis(axis as int),
            mx == root_box.max.axis(axis as int),
            ext == mx - mn,
            left_list@ == left_part(*mesh, prims@, axis as int, boundary as int, root_box, j as int),
            right_list@ == right_part(
                *mesh,
                prims@,
                axis as int,
                boundary as int,
                root_box,
                j as int,
            ),
        decreases n_prims - j,
    {
        let f = prims[j];
        proof {
            lemma_ctx_centroid(*mesh, prims@, root_box, j as int);
        }
        let c = cents[f as usize];
        let cx = c.get_axis(axis);
        proof {
            assert(c.axis(axis as int) == mesh.spec_centroid(f as int).axis(axis as int));
            lemma_mul_bound2(boundary as int, ext as int, 14, 0x40000);
        }
        let off = cx - mn;
        if off * 16 < (boundary as i64) * ext {
            left_list.push(f);
        } else {
            right_list.push(f);
        }
        j = j + 1;
    }
    (left_list, right_list)
}

/// Attempts the SAH split of leaf `node_index`. On success the leaf is
/// rewritten in place as an internal node, its two sides are appended as
/// new leaves, and their indices come back; `None` leaves the array
/// untouched. The outcome — including which faces go to which side — is
/// exactly `spec_best_split` applied to the leaf's faces and box.
pub(crate) fn split_node(
    nodes: &mut Vec<Node>,
    node_index: u32,
    mesh: &EditableMesh,
    fboxes: &Vec<Aabb>,
    cents: &Vec<Vec3i>,
) -> (r: Option<(u32, u32)>)
    requires
        mesh.wf(),
        fboxes@.len() == mesh.num_faces(),
        forall|f: int| 0 <= f < mesh.num_faces() ==> (#[trigger] fboxes@[f]) == mesh.spec_face_box(
            f,
        ),
        cents@.len() == mesh.num_faces(),
        forall|f: int| 0 <= f < mesh.num_faces() ==> mesh.centroid_matches(f, #[trigger] cents@[f]),
        node_index < old(nodes)@.len(),
        old(nodes)@.len() + 2 <= 0xFFFFFFFF,
        old(nodes)@[node_index as int].spec_is_leaf(),
        leaf_ctx(
            *mesh,
            old(nodes)@[node_index as int].spec_prims(),
            old(nodes)@[node_index as int].spec_aabb(),
        ),
    ensures
        ({
            let oldn = old(nodes)@;
            let prims = oldn[node_index as int].spec_prims();
            let bx = oldn[node_index as int].spec_aabb();
            match spec_best_split(*mesh, prims, bx) {
                Option::None => r is None && final(nodes)@ == oldn,
                Option::Some(sp) => {
                    let lp = left_part(*mesh, prims, sp.axis, sp.boundary, bx, prims.len() as int);
                    let rp = right_part(*mesh, prims, sp.axis, sp.boundary, bx, prims.len() as int);
                    &&& r == Some(((oldn.len() as u32), ((oldn.len() + 1) as u32)))
                    &&& final(nodes)@.len() == oldn.len() + 2
                    &&& forall|j: int| 0 <= j < oldn.len() && j != node_index ==> final(nodes)@[j]
                        == oldn[j]
                    &&& !final(nodes)@[node_index as int].spec_is_leaf()
                    &&& final(nodes)@[node_index as int].spec_aabb() == bx
                    &&& final(nodes)@[node_index as int].spec_left() == oldn.len()
                    &&& final(nodes)@[node_index as int].spec_right() == oldn.len() + 1
                    &&& final(nodes)@[oldn.len() as int].spec_is_leaf()
                    &&& final(nodes)@[oldn.len() as int].spec_aabb() == sp.left_box
                    &&& final(nodes)@[oldn.len() as int].spec_prims() == lp
                    &&& final(nodes)@[oldn.len() as int + 1].spec_is_leaf()
                    &&& final(nodes)@[oldn.len() as int + 1].spec_aabb() == sp.right_box
                    &&& final(nodes)@[oldn.len() as int + 1].spec_prims() == rp
                    &&& sp.left_box.wf() && sp.left_box.bounded(crate::MAX_COORD as int)
                    &&& sp.right_box.wf() && sp.right_box.bounded(crate::MAX_COORD as int)
                    &&& bx.contains_box(sp.left_box) && bx.contains_box(sp.right_box)
                    &&& lp.len() >= 1 && rp.len() >= 1
                    &&& lp.len() + rp.len() == prims.len()
                    &&& lp.to_multiset().add(rp.to_multiset()) == prims.to_multiset()
                    &&& forall|k: int| 0 <= k < lp.len() ==> (#[trigger] lp[k]) < mesh.num_faces()
                        && sp.left_box.contains_box(mesh.spec_face_box(lp[k] as int))
                    &&& forall|k: int| 0 <= k < rp.len() ==> (#[trigger] rp[k]) < mesh.num_faces()
                        && sp.right_box.contains_box(mesh.spec_face_box(rp[k] as int))
                },
            }
        }),
{
    let ghost prims_s = old(nodes)@[node_index as int].spec_prims();
    let ghost bx = old(nodes)@[node_index as int].spec_aabb();
    let prims = nodes[node_index as usize].prims_copy();
    let root_box = nodes[node_index as usize].aabb();
    let best = find_best(mesh, fboxes, cents, &prims, root_box);
    match best {
        Option::None => Option::None,
        Option::Some(e) => {
            let ghost sp = spec_best_split(*mesh, prims_s, bx)->Some_0;
            proof {
                lemma_split_sides(*mesh, prims_s, bx, sp);
            }
            let (left_list, right_list) = partition_faces(
                mesh,
                cents,
                &prims,
                root_box,
                e.axis,
                e.boundary,
            );
            let li: u32 = nodes.len() as u32;
            let ri: u32 = li + 1;
            nodes.set(node_index as usize, Node::NonLeaf { left: li, right: ri, aabb: root_box });
            nodes.push(Node::Leaf { aabb: e.left_box, primitive_list: left_list });
            nodes.push(Node::Leaf { aabb: e.right_box, primitive_list: right_list });
            Some((li, ri))
        },
    }
}

} // verus!
