//! The integer core of the bounding-volume-hierarchy builder: splitting a
//! range of triangle indices by their centroid bin, and reordering the
//! triangles so that each leaf's triangles are contiguous.

use vstd::prelude::*;
use vstd::multiset::Multiset;
use core::cmp::Ordering;
use crate::raytracer::scene_data::RtTriangle;

verus! {

broadcast use vstd::seq_lib::group_to_multiset_ensures;

/// Number of centroid bins used by the split sweep.
pub const NUM_BINS: usize = 12;

/// Maximum number of triangles a leaf may hold without a split being tried.
pub const LEAF_SIZE: usize = 4;

/// Swapping two positions of a sequence keeps its multiset of elements.
pub proof fn lemma_swap_to_multiset<A>(s: Seq<A>, i: int, j: int)
    requires
        0 <= i < s.len(),
        0 <= j < s.len(),
    ensures
        s.update(i, s[j]).update(j, s[i]).to_multiset() =~= s.to_multiset(),
{
    broadcast use vstd::multiset::group_multiset_axioms;

    let s1 = s.update(i, s[j]);
    assert(s1.to_multiset() == s.to_multiset().insert(s[j]).remove(s[i]));
    assert(s1.update(j, s[i]).to_multiset() == s1.to_multiset().insert(s[i]).remove(s1[j]));
    if i == j {
        assert(s.update(i, s[j]) =~= s);
        assert(s.update(i, s[j]).update(j, s[i]) =~= s);
    } else {
        assert(s1[j] == s[j]);
    }
}

/// `result` is `s` with positions `i` and `j` exchanged.
pub open spec fn swapped<A>(s: Seq<A>, i: int, j: int) -> Seq<A> {
    s.update(i, s[j]).update(j, s[i])
}

/// Partitions `indices[start..end]` so that the triangles whose centroid bin
/// (`bins[triangle]`) is at most `split_bin` come first, and returns the split
/// position. Positions outside the range are left alone and the range keeps
/// the same triangles.
pub fn partition_by_bin(
    indices: &mut Vec<u32>,
    start: usize,
    end: usize,
    bins: &Vec<usize>,
    split_bin: usize,
) -> (mid: usize)
    requires
        start <= end <= old(indices).len(),
        forall|k: int| start <= k < end ==> (#[trigger] old(indices)@[k]) < bins.len(),
    ensures
        start <= mid <= end,
        final(indices).len() == old(indices).len(),
        forall|k: int|
            0 <= k < old(indices).len() && !(start <= k < end) ==> final(indices)@[k] == old(indices)@[k],
        final(indices)@.subrange(start as int, end as int).to_multiset() =~= old(indices)@.subrange(start as int, end as int).to_multiset(),
        forall|k: int|
            start <= k < mid ==> (#[trigger] final(indices)@[k]) < bins.len() && bins@[final(indices)@[k] as int] <= split_bin,
        forall|k: int|
            mid <= k < end ==> (#[trigger] final(indices)@[k]) < bins.len() && bins@[final(indices)@[k] as int] > split_bin,
{
    let ghost orig = indices@;
    let mut i = start;
    let mut j = end;
    while i < j
        invariant
            start <= i <= j <= end,
            end <= indices.len(),
            indices.len() == orig.len(),
            forall|k: int| 0 <= k < orig.len() && !(start <= k < end) ==> indices@[k] == orig[k],
            indices@.subrange(start as int, end as int).to_multiset() =~= orig.subrange(
                start as int,
                end as int,
            ).to_multiset(),
            forall|k: int| start <= k < end ==> (#[trigger] indices@[k]) < bins.len(),
            forall|k: int|
                start <= k < i ==> bins@[(#[trigger] indices@[k]) as int] <= split_bin,
            forall|k: int| j <= k < end ==> bins@[(#[trigger] indices@[k]) as int] > split_bin,
        decreases j - i,
    {
        let t = indices[i];
        assert(start <= i < end);
        if bins[t as usize] <= split_bin {
            i = i + 1;
        } else {
            j = j - 1;
            let ghost before = indices@;
            let a = indices[i];
            let b = indices[j];
            indices.set(i, b);
            indices.set(j, a);
            proof {
                assert(indices@ =~= swapped(before, i as int, j as int));
                let sub = before.subrange(start as int, end as int);
                lemma_swap_to_multiset(sub, i - start, j - start);
                assert(indices@.subrange(start as int, end as int) =~= swapped(
                    sub,
                    i - start,
                    j - start,
                ));
            }
        }
    }
    i
}

/// The triangles listed by `indices`, in that order.
pub open spec fn reordered(indices: Seq<u32>, triangles: Seq<RtTriangle>) -> Seq<RtTriangle> {
    Seq::new(indices.len(), |k: int| triangles[indices[k] as int])
}

/// Returns the triangles in the order given by `indices`, so that each leaf's
/// triangles are contiguous once `indices` has been partitioned.
pub fn reorder_triangles(indices: &Vec<u32>, triangles: &Vec<RtTriangle>) -> (ordered: Vec<
    RtTriangle,
>)
    requires
        forall|k: int| 0 <= k < indices.len() ==> (#[trigger] indices@[k]) < triangles.len(),
    ensures
        ordered@ == reordered(indices@, triangles@),
{
    let mut ordered: Vec<RtTriangle> = Vec::new();
    let mut k: usize = 0;
    while k < indices.len()
        invariant
            0 <= k <= indices.len(),
            forall|m: int| 0 <= m < indices.len() ==> (#[trigger] indices@[m]) < triangles.len(),
            ordered@ == reordered(indices@.subrange(0, k as int), triangles@),
        decreases indices.len() - k,
    {
        let t = triangles[indices[k] as usize];
        ordered.push(t);
        k = k + 1;
        assert(ordered@ =~= reordered(indices@.subrange(0, k as int), triangles@));
    }
    assert(indices@.subrange(0, indices.len() as int) =~= indices@);
    ordered
}

/// The identity ordering `0, 1, ..., n - 1` that the builder starts from.
pub fn identity_indices(n: u32) -> (indices: Vec<u32>)
    ensures
        indices.len() == n,
        forall|k: int| 0 <= k < n ==> indices@[k] == k,
{
    let mut indices: Vec<u32> = Vec::new();
    let mut k: u32 = 0;
    while k < n
        invariant
            k <= n,
            indices.len() == k,
            forall|m: int| 0 <= m < k ==> indices@[m] == m,
        decreases n - k,
    {
        indices.push(k);
        k = k + 1;
    }
    indices
}

/// Law: partitioning a range only permutes the index list as a whole. When
/// the positions outside `[start, end)` are unchanged and the range keeps its
/// elements, the whole list keeps its elements; so the builder's list, which
/// starts as `0 .. n`, stays a permutation of `0 .. n` through every split.
pub proof fn lemma_range_permutation(before: Seq<u32>, after: Seq<u32>, start: int, end: int)
    requires
        0 <= start <= end <= before.len(),
        after.len() == before.len(),
        forall|k: int| 0 <= k < before.len() && !(start <= k < end) ==> after[k] == before[k],
        after.subrange(start, end).to_multiset() =~= before.subrange(start, end).to_multiset(),
    ensures
        after.to_multiset() =~= before.to_multiset(),
{
    broadcast use vstd::seq_lib::lemma_multiset_commutative;

    let n = before.len() as int;
    assert(before =~= before.subrange(0, start) + before.subrange(start, end) + before.subrange(end, n));
    assert(after =~= after.subrange(0, start) + after.subrange(start, end) + after.subrange(end, n));
    assert(after.subrange(0, start) =~= before.subrange(0, start));
    assert(after.subrange(end, n) =~= before.subrange(end, n));
    vstd::seq_lib::lemma_multiset_commutative(
        before.subrange(0, start) + before.subrange(start, end),
        before.subrange(end, n),
    );
    vstd::seq_lib::lemma_multiset_commutative(before.subrange(0, start), before.subrange(start, end));
    vstd::seq_lib::lemma_multiset_commutative(
        after.subrange(0, start) + after.subrange(start, end),
        after.subrange(end, n),
    );
    vstd::seq_lib::lemma_multiset_commutative(after.subrange(0, start), after.subrange(start, end));
}

/// The rank of triangle `t`: its position along the split axis, used to
/// order triangles for a median split.
pub fn rank_of(ranks: &Vec<u32>, t: u32) -> (r: u32)
    requires
        t < ranks.len(),
    ensures
        r == ranks@[t as int],
{
    ranks[t as usize]
}

/// Orders triangles `a` and `b` by rank, as the median split sorts them.
pub fn compare_ranks(ranks: &Vec<u32>, a: u32, b: u32) -> (o: Ordering)
    requires
        a < ranks.len(),
        b < ranks.len(),
    ensures
        o == (if rank_at(ranks@, a) < rank_at(ranks@, b) {
            Ordering::Less
        } else if rank_at(ranks@, a) == rank_at(ranks@, b) {
            Ordering::Equal
        } else {
            Ordering::Greater
        }),
{
    let ra = rank_of(ranks, a);
    let rb = rank_of(ranks, b);
    if ra < rb {
        Ordering::Less
    } else if ra == rb {
        Ordering::Equal
    } else {
        Ordering::Greater
    }
}

/// The rank of triangle `t` in `ranks`.
pub open spec fn rank_at(ranks: Seq<u32>, t: u32) -> u32 {
    ranks[t as int]
}

/// Positions `start .. end` of `s`.
pub open spec fn range_of(s: Seq<u32>, start: usize, end: usize) -> Seq<u32> {
    s.subrange(start as int, end as int)
}

/// Every triangle of `m` falls on the same side of `split_bin`.
pub open spec fn one_side(m: Multiset<u32>, bins: Seq<usize>, split_bin: usize) -> bool {
    ||| forall|t: u32| #[trigger] m.count(t) > 0 ==> bins[t as int] <= split_bin
    ||| forall|t: u32| #[trigger] m.count(t) > 0 ==> bins[t as int] > split_bin
}

/// How a split divides `indices[start..end]` at `mid`: by bins, the left side
/// taking the triangles whose bin is at most `split_bin`, when that leaves
/// triangles on both sides; otherwise at the median position, with no
/// triangle before it ranked above it and none after it ranked below it.
pub open spec fn split_ok(
    indices: Seq<u32>,
    start: int,
    mid: int,
    end: int,
    bins: Seq<usize>,
    split_bin: usize,
    ranks: Seq<u32>,
) -> bool {
    if one_side(indices.subrange(start, end).to_multiset(), bins, split_bin) {
        &&& mid == start + (end - start) / 2
        &&& forall|k: int|
            start <= k < mid ==> rank_at(ranks, #[trigger] indices[k]) <= rank_at(ranks, indices[mid])
        &&& forall|k: int|
            mid < k < end ==> rank_at(ranks, #[trigger] indices[k]) >= rank_at(ranks, indices[mid])
    } else {
        &&& forall|k: int| start <= k < mid ==> bins[(#[trigger] indices[k]) as int] <= split_bin
        &&& forall|k: int| mid <= k < end ==> bins[(#[trigger] indices[k]) as int] > split_bin
    }
}

/// A bin partition of `s[start..end]` at `mid` puts every triangle on one
/// side exactly when `mid` is at an end of the range.
proof fn lemma_partition_sides(
    s: Seq<u32>,
    start: int,
    mid: int,
    end: int,
    bins: Seq<usize>,
    split_bin: usize,
)
    requires
        0 <= start <= mid <= end <= s.len(),
        forall|k: int| start <= k < mid ==> bins[(#[trigger] s[k]) as int] <= split_bin,
        forall|k: int| mid <= k < end ==> bins[(#[trigger] s[k]) as int] > split_bin,
    ensures
        one_side(s.subrange(start, end).to_multiset(), bins, split_bin) <==> (mid == start || mid
            == end),
{
    let sub = s.subrange(start, end);
    let m = sub.to_multiset();
    if mid == start {
        assert forall|t: u32| #[trigger] m.count(t) > 0 implies bins[t as int] > split_bin by {
            assert(sub.contains(t));
            let k = choose|k: int| 0 <= k < sub.len() && sub[k] == t;
            assert(sub[k] == s[start + k]);
        }
    } else if mid == end {
        assert forall|t: u32| #[trigger] m.count(t) > 0 implies bins[t as int] <= split_bin by {
            assert(sub.contains(t));
            let k = choose|k: int| 0 <= k < sub.len() && sub[k] == t;
            assert(sub[k] == s[start + k]);
        }
    } else {
        assert(sub[0] == s[start]);
        assert(sub[end - start - 1] == s[end - 1]);
        assert(sub.contains(s[start]));
        assert(sub.contains(s[end - 1]));
        assert(m.count(s[start]) > 0);
        assert(m.count(s[end - 1]) > 0);
    }
}

/// Wraps `slice::select_nth_unstable_by` on `indices[start..end]`, ordering
/// triangles by rank with [`compare_ranks`] (a total order). Per std's
/// documentation it reorders the range so that
/// the element at position `start + nth` is the one a sort would put there,
/// with no greater element before it and no smaller one after it; elements
/// are only moved within the range. `nth` must lie in the range (std panics
/// otherwise).
#[verifier::external_body]
fn select_nth_by_rank(indices: &mut Vec<u32>, start: usize, end: usize, nth: usize, ranks: &Vec<u32>)
    requires
        start <= end <= old(indices).len(),
        nth < end - start,
        forall|k: int| start <= k < end ==> (#[trigger] old(indices)@[k]) < ranks.len(),
    ensures
        final(indices).len() == old(indices).len(),
        forall|k: int|
            0 <= k < old(indices).len() && !(start <= k < end) ==> final(indices)@[k] == old(indices)@[k],
        range_of(final(indices)@, start, end).to_multiset() =~= range_of(old(indices)@, start, end).to_multiset(),
        forall|k: int|
            start <= k < start + nth ==> rank_at(ranks@, #[trigger] final(indices)@[k]) <= rank_at(ranks@, final(indices)@[start + nth]),
        forall|k: int|
            start + nth < k < end ==> rank_at(ranks@, #[trigger] final(indices)@[k]) >= rank_at(ranks@, final(indices)@[start + nth]),
{
    indices[start..end].select_nth_unstable_by(nth, |a, b| compare_ranks(ranks, *a, *b));
}

/// The integer part of a flattened BVH node. `count == 0` marks an interior
/// node, whose left child is the next node and whose right child is node
/// `left_first`; `count > 0` marks a leaf whose triangles are positions
/// `left_first .. left_first + count` of the reordered triangle list.
#[derive(Copy, Clone, Debug, PartialEq, Eq, Structural)]
pub struct BvhLink {
    /// Interior: right child index. Leaf: first triangle position.
    pub left_first: u32,
    /// Number of triangles (0 = interior node).
    pub count: u32,
}

/// How the caller, which owns the triangle geometry, wants a node split.
pub enum SplitDecision<'a> {
    /// Make the node a leaf.
    Leaf,
    /// Split by centroid bins along the chosen axis: `bins[t]` is the bin of
    /// triangle `t` and the left side takes bins up to `split_bin`. When that
    /// puts every triangle on one side, the range is split at its median
    /// instead, ordering triangles by `ranks[t]` (their order along the axis).
    Split {
        /// Bin of each triangle along the chosen axis.
        bins: &'a Vec<usize>,
        /// Last bin of the left side.
        split_bin: usize,
        /// Order of each triangle along the chosen axis.
        ranks: &'a Vec<u32>,
    },
}

/// A range of the index list still to be turned into a subtree. `parent` is
/// the interior node whose right child it becomes, if any.
#[derive(Copy, Clone, Debug, PartialEq, Eq, Structural)]
pub struct PendingRange {
    /// First position of the range.
    pub start: usize,
    /// One past the last position of the range.
    pub end: usize,
    /// The node whose right child this range becomes.
    pub parent: Option<usize>,
}

/// The identity sequence `0 .. n`.
pub open spec fn identity_seq(n: nat) -> Seq<u32> {
    Seq::new(n, |k: int| k as u32)
}

/// Whether node `i` is a leaf.
pub open spec fn is_leaf(links: Seq<BvhLink>, i: int) -> bool {
    links[i].count > 0
}

/// The positions of the reordered triangle list that leaf `i` covers contain `p`.
pub open spec fn leaf_covers(links: Seq<BvhLink>, i: int, p: int) -> bool {
    &&& is_leaf(links, i)
    &&& links[i].left_first <= p < links[i].left_first + links[i].count
}

/// Some leaf covers position `p`.
pub open spec fn covered(links: Seq<BvhLink>, p: int) -> bool {
    exists|i: int| 0 <= i < links.len() && #[trigger] leaf_covers(links, i, p)
}

/// Leaves end by `bound`, come in node order over increasing disjoint
/// ranges, and cover every position below `bound`.
pub open spec fn leaves_ok(links: Seq<BvhLink>, bound: int) -> bool {
    &&& forall|i: int|
        0 <= i < links.len() && is_leaf(links, i) ==> (#[trigger] links[i]).left_first
            + links[i].count <= bound
    &&& forall|i: int, j: int|
        0 <= i < j < links.len() && is_leaf(links, i) && is_leaf(links, j) ==> (
        #[trigger] links[i]).left_first + links[i].count <= (#[trigger] links[j]).left_first
    &&& forall|p: int| 0 <= p < bound ==> #[trigger] covered(links, p)
}

/// Interior node `a` has its left child next and its right child later.
pub open spec fn linked(links: Seq<BvhLink>, a: int) -> bool {
    a + 1 < links.len() && a + 1 < links[a].left_first < links.len()
}

/// The flattened tree is well formed over `n > 0` triangles: every interior
/// node's left child is the next node and its right child a later one; the
/// leaves, in node order, cover `0 .. n` in consecutive disjoint ranges.
pub open spec fn tree_wf(links: Seq<BvhLink>, n: nat) -> bool {
    &&& forall|a: int| 0 <= a < links.len() && !is_leaf(links, a) ==> #[trigger] linked(links, a)
    &&& leaves_ok(links, n as int)
}

/// Node `j` (not node 0) is a child of interior node `a`: its left child,
/// the next node, or its right child.
pub open spec fn child_of(links: Seq<BvhLink>, a: int, j: int) -> bool {
    &&& 0 <= a < links.len()
    &&& !is_leaf(links, a)
    &&& 0 < j
    &&& (j == a + 1 || j == links[a].left_first)
}

/// Node `j` is the child of some interior node before it.
pub open spec fn has_parent(links: Seq<BvhLink>, j: int) -> bool {
    exists|a: int| 0 <= a < j && #[trigger] child_of(links, a, j)
}

/// The nodes form one tree rooted at node 0: every other node is the child of
/// exactly one interior node, which comes before it.
pub open spec fn one_tree(links: Seq<BvhLink>) -> bool {
    &&& forall|j: int| 0 < j < links.len() ==> #[trigger] has_parent(links, j)
    &&& forall|a: int, b: int, j: int|
        j < links.len() && #[trigger] child_of(links, a, j) && #[trigger] child_of(links, b, j) ==> a == b
}

/// Interior node `a` is linked, or still waits for its right child.
pub open spec fn interior_ok(links: Seq<BvhLink>, stack: Seq<PendingRange>, a: int) -> bool {
    ||| linked(links, a)
    ||| (links[a].left_first == 0 && exists|e: int|
        0 <= e < stack.len() && (#[trigger] stack[e]).parent == Some(a as usize))
}

/// Every interior node is linked or waiting.
pub open spec fn interiors_ok(links: Seq<BvhLink>, stack: Seq<PendingRange>) -> bool {
    forall|a: int| 0 <= a < links.len() && !is_leaf(links, a) ==> #[trigger] interior_ok(links, stack, a)
}

/// Pending entry `e` waits to become the right child of an unlinked interior
/// node whose left child exists, or is about to exist (the node is the last
/// one and its left range is on top).
pub open spec fn waiting_ok(links: Seq<BvhLink>, stack: Seq<PendingRange>, e: int) -> bool {
    stack[e].parent matches Some(pu) ==> {
        let p = pu as int;
        &&& 0 <= p < links.len()
        &&& !is_leaf(links, p)
        &&& links[p].left_first == 0
        &&& (p + 1 < links.len() || (e == stack.len() - 2 && p == links.len() - 1))
    }
}

/// The bookkeeping of pending ranges and their parents.
pub open spec fn pending_ok(links: Seq<BvhLink>, stack: Seq<PendingRange>) -> bool {
    &&& forall|e: int| 0 <= e < stack.len() ==> #[trigger] waiting_ok(links, stack, e)
    &&& forall|e1: int, e2: int|
        0 <= e1 < e2 < stack.len() && (#[trigger] stack[e1]).parent is Some ==> (
        #[trigger] stack[e2]).parent != stack[e1].parent
    &&& forall|e: int| 0 <= e < stack.len() - 1 ==> (#[trigger] stack[e]).parent is Some
    &&& (links.len() > 0 && !is_leaf(links, links.len() - 1)) ==> {
        &&& stack.len() >= 2
        &&& stack[stack.len() - 2].parent == Some((links.len() - 1) as usize)
        &&& stack[stack.len() - 1].parent is None
    }
    &&& (stack.len() > 0 && stack[stack.len() - 1].parent is None && links.len() > 0) ==> !is_leaf(
        links,
        links.len() - 1,
    )
    &&& (stack.len() > 0 && links.len() == 0) ==> stack.len() == 1
}

/// The pending ranges, top of the stack last, tile `cursor .. n` in order.
pub open spec fn stack_tiles(stack: Seq<PendingRange>, cursor: int, n: int) -> bool {
    &&& stack.len() == 0 ==> cursor == n
    &&& stack.len() > 0 ==> {
        &&& stack[stack.len() - 1].start == cursor
        &&& stack[0].end == n
        &&& forall|i: int| 0 < i < stack.len() ==> (#[trigger] stack[i]).end == stack[i - 1].start
        &&& forall|i: int| 0 <= i < stack.len() ==> (#[trigger] stack[i]).start < stack[i].end
    }
}

/// Whether `parent` names node `j`.
pub open spec fn is_parent(parent: Option<usize>, j: int) -> bool {
    parent matches Some(p) && p as int == j
}

/// `links2` is `links` with node `node` appended and, when `parent` is some
/// node, that node linked to the new one as its right child.
pub open spec fn appended(links: Seq<BvhLink>, links2: Seq<BvhLink>, parent: Option<usize>, node: BvhLink) -> bool {
    let i = links.len() as int;
    &&& links2.len() == i + 1
    &&& links2[i] == node
    &&& forall|j: int| 0 <= j < i && !is_parent(parent, j) ==> links2[j] == links[j]
    &&& parent matches Some(p) ==> links2[p as int] == (BvhLink { left_first: i as u32, count: 0 })
}

proof fn lemma_stack_len(stack: Seq<PendingRange>, cursor: int, n: int)
    requires
        stack_tiles(stack, cursor, n),
    ensures
        stack.len() <= n - cursor,
        cursor <= n,
    decreases stack.len(),
{
    if stack.len() > 1 {
        let rest = stack.drop_last();
        let c2 = stack[stack.len() - 1].end as int;
        assert(stack_tiles(rest, c2, n)) by {
            assert(rest[rest.len() - 1] == stack[stack.len() - 2]);
            assert forall|i: int| 0 < i < rest.len() implies (#[trigger] rest[i]).end == rest[i - 1].start by {
                assert(rest[i] == stack[i]);
            }
            assert forall|i: int| 0 <= i < rest.len() implies (#[trigger] rest[i]).start < rest[i].end by {
                assert(rest[i] == stack[i]);
            }
        }
        lemma_stack_len(rest, c2, n);
    }
}

/// Every pending range ends by `n`.
proof fn lemma_tiles_end(stack: Seq<PendingRange>, cursor: int, n: int, k: int)
    requires
        stack_tiles(stack, cursor, n),
        0 <= k < stack.len(),
    ensures
        stack[k].end <= n,
    decreases k,
{
    if k > 0 {
        lemma_tiles_end(stack, cursor, n, k - 1);
        assert(stack[k].end == stack[k - 1].start);
        assert(stack[k - 1].start < stack[k - 1].end);
    }
}

/// Leaves are unchanged by an append that only links an interior parent.
proof fn lemma_appended_leaves(links: Seq<BvhLink>, links2: Seq<BvhLink>, parent: Option<usize>, node: BvhLink)
    requires
        appended(links, links2, parent, node),
        parent matches Some(p) ==> p < links.len() && !is_leaf(links, p as int),
    ensures
        forall|j: int| 0 <= j < links.len() && is_leaf(links, j) ==> #[trigger] links2[j] == links[j],
        forall|j: int| 0 <= j < links.len() ==> (is_leaf(links2, j) <==> is_leaf(links, j)),
{
    assert forall|j: int| 0 <= j < links.len() implies (is_leaf(links2, j) <==> is_leaf(links, j)) by {
        if !is_parent(parent, j) {
            assert(links2[j] == links[j]);
        }
    }
}

/// A new leaf starting at the old bound keeps the leaves in order and
/// extends the covered prefix to its end.
proof fn lemma_leaf_leaves(
    links: Seq<BvhLink>,
    links2: Seq<BvhLink>,
    parent: Option<usize>,
    start: int,
    end: int,
)
    requires
        leaves_ok(links, start),
        0 <= start < end <= u32::MAX,
        appended(links, links2, parent, BvhLink { left_first: start as u32, count: (end - start) as u32 }),
        parent matches Some(p) ==> p < links.len() && !is_leaf(links, p as int),
    ensures
        leaves_ok(links2, end),
{
    lemma_appended_leaves(links, links2, parent, BvhLink { left_first: start as u32, count: (end - start) as u32 });
    let i = links.len() as int;
    assert forall|p: int| 0 <= p < end implies #[trigger] covered(links2, p) by {
        if p < start {
            assert(covered(links, p));
            let w = choose|w: int| 0 <= w < links.len() && #[trigger] leaf_covers(links, w, p);
            assert(links2[w] == links[w]);
            assert(leaf_covers(links2, w, p));
        } else {
            assert(leaf_covers(links2, i, p));
        }
    }
    assert forall|a: int, b: int|
        0 <= a < b < links2.len() && is_leaf(links2, a) && is_leaf(links2, b) implies (
        #[trigger] links2[a]).left_first + links2[a].count <= (#[trigger] links2[b]).left_first by {
        assert(links2[a] == links[a]);
        if b < i {
            assert(links2[b] == links[b]);
        }
    }
    assert forall|a: int| 0 <= a < links2.len() && is_leaf(links2, a) implies (#[trigger] links2[a]).left_first
        + links2[a].count <= end by {
        if a < i {
            assert(links2[a] == links[a]);
        }
    }
}

/// A new interior node keeps the leaves and their covered prefix.
proof fn lemma_split_leaves(links: Seq<BvhLink>, links2: Seq<BvhLink>, parent: Option<usize>, bound: int)
    requires
        leaves_ok(links, bound),
        appended(links, links2, parent, BvhLink { left_first: 0, count: 0 }),
        parent matches Some(p) ==> p < links.len() && !is_leaf(links, p as int),
    ensures
        leaves_ok(links2, bound),
{
    lemma_appended_leaves(links, links2, parent, BvhLink { left_first: 0, count: 0 });
    let i = links.len() as int;
    assert forall|p: int| 0 <= p < bound implies #[trigger] covered(links2, p) by {
        assert(covered(links, p));
        let w = choose|w: int| 0 <= w < links.len() && #[trigger] leaf_covers(links, w, p);
        assert(links2[w] == links[w]);
        assert(leaf_covers(links2, w, p));
    }
    assert forall|a: int, b: int|
        0 <= a < b < links2.len() && is_leaf(links2, a) && is_leaf(links2, b) implies (
        #[trigger] links2[a]).left_first + links2[a].count <= (#[trigger] links2[b]).left_first by {
        assert(links2[a] == links[a]);
        assert(links2[b] == links[b]);
    }
    assert forall|a: int| 0 <= a < links2.len() && is_leaf(links2, a) implies (#[trigger] links2[a]).left_first
        + links2[a].count <= bound by {
        assert(links2[a] == links[a]);
    }
}

/// Appending the node for the top range keeps the nodes one tree: the new
/// node is the left child of the node before it, or the right child of the
/// node its range waits for, and of no other.
proof fn lemma_appended_one_tree(links: Seq<BvhLink>, stack: Seq<PendingRange>, links2: Seq<BvhLink>, node: BvhLink)
    requires
        one_tree(links),
        interiors_ok(links, stack),
        pending_ok(links, stack),
        stack.len() > 0,
        links.len() < 0x1_0000_0000,
        node.count > 0 || node.left_first == 0,
        appended(links, links2, stack.last().parent, node),
    ensures
        one_tree(links2),
{
    let i = links.len() as int;
    let top = stack.last();
    assert(waiting_ok(links, stack, stack.len() - 1));
    lemma_appended_leaves(links, links2, top.parent, node);
    assert forall|a: int| 0 <= a < i && !is_leaf(links, a) implies #[trigger] links[a].left_first < i
        || links[a].left_first == 0 by {
        assert(interior_ok(links, stack, a));
    }
    if top.parent is Some {
        assert(i > 0);
        assert(is_leaf(links, i - 1));
    } else if i > 0 {
        assert(!is_leaf(links, i - 1));
    }
    assert forall|a: int, j: int| 0 <= a < i && 0 < j < i implies (child_of(links2, a, j) <==> child_of(
        links,
        a,
        j,
    )) by {
        if !is_parent(top.parent, a) {
            assert(links2[a] == links[a]);
        }
    }
    assert forall|j: int| 0 < j < links2.len() implies #[trigger] has_parent(links2, j) by {
        if j < i {
            assert(has_parent(links, j));
            let a = choose|a: int| 0 <= a < j && #[trigger] child_of(links, a, j);
            assert(child_of(links2, a, j));
        } else {
            match top.parent {
                Some(p) => {
                    assert(child_of(links2, p as int, j));
                },
                None => {
                    assert(child_of(links2, i - 1, j));
                },
            }
        }
    }
    assert forall|a: int, b: int, j: int|
        j < links2.len() && #[trigger] child_of(links2, a, j) && #[trigger] child_of(links2, b, j) implies a == b by {
        assert(a < i && b < i);
        if j < i {
            assert(child_of(links, a, j));
            assert(child_of(links, b, j));
        } else {
            match top.parent {
                Some(p) => {
                    if !is_parent(top.parent, a) {
                        assert(links2[a] == links[a]);
                    }
                    if !is_parent(top.parent, b) {
                        assert(links2[b] == links[b]);
                    }
                },
                None => {
                    assert(links2[a] == links[a]);
                    assert(links2[b] == links[b]);
                },
            }
        }
    }
}

/// Popping the top range into a leaf keeps the interior and pending bookkeeping.
proof fn lemma_leaf_pending(links: Seq<BvhLink>, stack: Seq<PendingRange>, links2: Seq<BvhLink>, node: BvhLink)
    requires
        interiors_ok(links, stack),
        pending_ok(links, stack),
        stack.len() > 0,
        node.count > 0,
        links.len() < 0x1_0000_0000,
        appended(links, links2, stack.last().parent, node),
    ensures
        interiors_ok(links2, stack.drop_last()),
        pending_ok(links2, stack.drop_last()),
{
    let top = stack.last();
    let stack2 = stack.drop_last();
    let i = links.len() as int;
    assert(waiting_ok(links, stack, stack.len() - 1));
    assert forall|a: int| 0 <= a < links2.len() && !is_leaf(links2, a) implies #[trigger] interior_ok(links2, stack2, a) by {
        assert(a < i);
        if is_parent(top.parent, a) {
            assert(linked(links2, a));
        } else {
            assert(links2[a] == links[a]);
            assert(interior_ok(links, stack, a));
            if !linked(links, a) {
                let e = choose|e: int| 0 <= e < stack.len() && (#[trigger] stack[e]).parent == Some(a as usize);
                assert(e != stack.len() - 1);
                assert(stack2[e] == stack[e]);
            }
        }
    }
    assert forall|e: int| 0 <= e < stack2.len() implies #[trigger] waiting_ok(links2, stack2, e) by {
        assert(stack2[e] == stack[e]);
        assert(waiting_ok(links, stack, e));
        if stack[e].parent is Some {
            let p = stack[e].parent.unwrap() as int;
            assert(stack[e].parent != stack[stack.len() - 1].parent);
            assert(links2[p] == links[p]);
        }
    }
    assert forall|e1: int, e2: int|
        0 <= e1 < e2 < stack2.len() && (#[trigger] stack2[e1]).parent is Some implies (
        #[trigger] stack2[e2]).parent != stack2[e1].parent by {
        assert(stack2[e1] == stack[e1]);
        assert(stack2[e2] == stack[e2]);
    }
    assert forall|e: int| 0 <= e < stack2.len() - 1 implies (#[trigger] stack2[e]).parent is Some by {
        assert(stack2[e] == stack[e]);
    }
    if stack2.len() > 0 {
        assert(stack2[stack2.len() - 1] == stack[stack.len() - 2]);
    }
}

/// Splitting the top range keeps the interior and pending bookkeeping.
proof fn lemma_split_pending(
    links: Seq<BvhLink>,
    stack: Seq<PendingRange>,
    links2: Seq<BvhLink>,
    stack2: Seq<PendingRange>,
    mid: usize,
)
    requires
        interiors_ok(links, stack),
        pending_ok(links, stack),
        stack.len() > 0,
        links.len() < 0x1_0000_0000,
        appended(links, links2, stack.last().parent, BvhLink { left_first: 0, count: 0 }),
        stack2 == stack.drop_last().push(
            (PendingRange { start: mid, end: stack.last().end, parent: Some(links.len() as usize) }),
        ).push((PendingRange { start: stack.last().start, end: mid, parent: None })),
    ensures
        interiors_ok(links2, stack2),
        pending_ok(links2, stack2),
{
    let top = stack.last();
    let base = stack.drop_last();
    let i = links.len() as int;
    assert(waiting_ok(links, stack, stack.len() - 1));
    assert(stack2[stack2.len() - 2].parent == Some(i as usize));
    assert forall|a: int| 0 <= a < links2.len() && !is_leaf(links2, a) implies #[trigger] interior_ok(links2, stack2, a) by {
        if a == i {
            assert(stack2[stack2.len() - 2].parent == Some(a as usize));
        } else if is_parent(top.parent, a) {
            assert(linked(links2, a));
        } else {
            assert(links2[a] == links[a]);
            assert(interior_ok(links, stack, a));
            if !linked(links, a) {
                let e = choose|e: int| 0 <= e < stack.len() && (#[trigger] stack[e]).parent == Some(a as usize);
                assert(e != stack.len() - 1);
                assert(stack2[e] == stack[e]);
            }
        }
    }
    assert forall|e: int| 0 <= e < stack2.len() implies #[trigger] waiting_ok(links2, stack2, e) by {
        if e < base.len() {
            assert(stack2[e] == stack[e]);
            assert(waiting_ok(links, stack, e));
            if stack[e].parent is Some {
                let p = stack[e].parent.unwrap() as int;
                assert(stack[e].parent != stack[stack.len() - 1].parent);
                assert(links2[p] == links[p]);
            }
        }
    }
    assert forall|e1: int, e2: int|
        0 <= e1 < e2 < stack2.len() && (#[trigger] stack2[e1]).parent is Some implies (
        #[trigger] stack2[e2]).parent != stack2[e1].parent by {
        if e2 < base.len() {
            assert(stack2[e1] == stack[e1]);
            assert(stack2[e2] == stack[e2]);
        } else if e2 == base.len() {
            assert(stack2[e1] == stack[e1]);
            assert(waiting_ok(links, stack, e1));
        }
    }
    assert forall|e: int| 0 <= e < stack2.len() - 1 implies (#[trigger] stack2[e]).parent is Some by {
        if e < base.len() {
            assert(stack2[e] == stack[e]);
        }
    }
}

/// Builds the flattened BVH node layout depth first: the caller repeatedly
/// takes the [`pending`](Self::pending) range, decides from the geometry how
/// to split it, and [`apply`](Self::apply)s the decision; the builder keeps
/// the index list and the node links.
pub struct BvhBuilder {
    n: usize,
    indices: Vec<u32>,
    links: Vec<BvhLink>,
    stack: Vec<PendingRange>,
    cursor: usize,
    leaves: Ghost<nat>,
    interiors: Ghost<nat>,
}

impl BvhBuilder {
    /// Number of triangles.
    pub closed spec fn spec_n(&self) -> nat {
        self.n as nat
    }

    /// The index list.
    pub closed spec fn spec_indices(&self) -> Seq<u32> {
        self.indices@
    }

    /// The node links built so far.
    pub closed spec fn spec_links(&self) -> Seq<BvhLink> {
        self.links@
    }

    /// The ranges still to be built, top last.
    pub closed spec fn spec_stack(&self) -> Seq<PendingRange> {
        self.stack@
    }

    /// A bound on the decisions still to make: twice the triangles not yet
    /// in a leaf, less the pending ranges. Every decision lowers it and it
    /// never goes below zero, so the build ends.
    pub closed spec fn work_left(&self) -> int {
        2 * (self.n - self.cursor) - self.stack@.len()
    }

    /// Internal consistency of the builder.
    #[verifier::opaque]
    pub closed spec fn wf(&self) -> bool {
        let links = self.links@;
        let stack = self.stack@;
        let n = self.n as int;
        &&& n <= 0x8000_0000
        &&& self.indices@.len() == n
        &&& self.indices@.to_multiset() =~= identity_seq(n as nat).to_multiset()
        &&& n == 0 ==> links =~= seq![BvhLink { left_first: 0, count: 0 }] && stack.len() == 0
        &&& n > 0 ==> {
            &&& stack_tiles(stack, self.cursor as int, n)
            &&& links.len() == self.leaves@ + self.interiors@
            &&& self.interiors@ + 1 == self.leaves@ + stack.len()
            &&& self.leaves@ <= self.cursor
            &&& leaves_ok(links, self.cursor as int)
            &&& interiors_ok(links, stack)
            &&& pending_ok(links, stack)
            &&& one_tree(links)
        }
    }

    /// Starts building over `n` triangles: the index list is `0 .. n` and the
    /// whole range is pending. No triangles give a single empty node.
    pub fn new(n: u32) -> (b: BvhBuilder)
        requires
            n <= 0x8000_0000,
        ensures
            b.wf(),
            b.spec_n() == n,
            b.spec_indices() == identity_seq(n as nat),
            n > 0 ==> b.spec_stack() == seq![PendingRange { start: 0, end: n as usize, parent: None }],
            n == 0 ==> b.spec_stack().len() == 0,
            b.spec_links().len() == (if n == 0 { 1int } else { 0int }),
            b.work_left() == (if n == 0 { 0int } else { 2 * n - 1 }),
    {
        let indices = identity_indices(n);
        assert(indices@ =~= identity_seq(n as nat));
        let mut links: Vec<BvhLink> = Vec::new();
        let mut stack: Vec<PendingRange> = Vec::new();
        if n == 0 {
            links.push(BvhLink { left_first: 0, count: 0 });
        } else {
            stack.push(PendingRange { start: 0, end: n as usize, parent: None });
        }
        let b = BvhBuilder {
            n: n as usize,
            indices,
            links,
            stack,
            cursor: 0,
            leaves: Ghost(0),
            interiors: Ghost(0),
        };
        assert(b.wf()) by {
            reveal(BvhBuilder::wf);
        }
        b
    }

    /// The index list (a permutation of `0 .. n`).
    pub fn indices(&self) -> (v: &Vec<u32>)
        ensures
            v@ == self.spec_indices(),
    {
        &self.indices
    }

    /// The next range to decide, `(start, end)`, if any.
    pub fn pending(&self) -> (r: Option<(usize, usize)>)
        ensures
            self.spec_stack().len() == 0 ==> r is None,
            self.spec_stack().len() > 0 ==> r == Some(
                (self.spec_stack().last().start, self.spec_stack().last().end),
            ),
    {
        if self.stack.len() == 0 {
            None
        } else {
            let top = self.stack[self.stack.len() - 1];
            Some((top.start, top.end))
        }
    }
}

/// Every element of a sequence with the multiset of `0 .. n` is below `n`.
proof fn lemma_identity_bound(s: Seq<u32>, n: nat, k: int)
    requires
        s.to_multiset() =~= identity_seq(n).to_multiset(),
        0 <= k < s.len(),
    ensures
        s[k] < n,
{
    assert(s.contains(s[k]));
    assert(s.to_multiset().count(s[k]) > 0);
    assert(identity_seq(n).to_multiset().count(s[k]) > 0);
    assert(identity_seq(n).contains(s[k]));
    let j = choose|j: int| 0 <= j < identity_seq(n).len() && identity_seq(n)[j] == s[k];
    assert(identity_seq(n)[j] == j as u32);
}

impl BvhBuilder {
    /// What a consistent builder with a pending range guarantees.
    proof fn lemma_facts(&self)
        requires
            self.wf(),
            self.stack@.len() > 0,
        ensures
            self.n > 0,
            self.n <= 0x8000_0000,
            self.indices@.len() == self.n,
            self.indices@.to_multiset() =~= identity_seq(self.n as nat).to_multiset(),
            self.links@.len() <= 2 * self.n - 2,
            self.stack@.last().start < self.stack@.last().end <= self.n,
            self.stack@.last().start == self.cursor,
            waiting_ok(self.links@, self.stack@, self.stack@.len() - 1),
    {
        reveal(BvhBuilder::wf);
        lemma_stack_len(self.stack@, self.cursor as int, self.n as int);
        lemma_tiles_end(self.stack@, self.cursor as int, self.n as int, self.stack@.len() - 1);
    }

    /// Turning the top range into a leaf keeps the builder consistent.
    proof fn lemma_leaf_wf(pre: BvhBuilder, post: BvhBuilder)
        requires
            pre.wf(),
            pre.stack@.len() > 0,
            ({
                let top = pre.stack@.last();
                &&& post.n == pre.n
                &&& post.indices@ == pre.indices@
                &&& post.stack@ == pre.stack@.drop_last()
                &&& appended(pre.links@, post.links@, top.parent, BvhLink {
                    left_first: top.start as u32,
                    count: (top.end - top.start) as u32,
                })
                &&& post.cursor == top.end
                &&& post.leaves@ == pre.leaves@ + 1
                &&& post.interiors@ == pre.interiors@
            }),
        ensures
            post.wf(),
    {
        pre.lemma_facts();
        reveal(BvhBuilder::wf);
        let top = pre.stack@.last();
        let old_stack = pre.stack@;
        let node = BvhLink { left_first: top.start as u32, count: (top.end - top.start) as u32 };
        lemma_leaf_leaves(pre.links@, post.links@, top.parent, top.start as int, top.end as int);
        lemma_leaf_pending(pre.links@, pre.stack@, post.links@, node);
        lemma_appended_one_tree(pre.links@, pre.stack@, post.links@, node);
        lemma_stack_len(old_stack, pre.cursor as int, pre.n as int);
        let st = post.stack@;
        if st.len() > 0 {
            assert(old_stack[old_stack.len() - 1].end == old_stack[old_stack.len() - 2].start);
            assert(st[st.len() - 1] == old_stack[old_stack.len() - 2]);
            assert(st[0] == old_stack[0]);
            assert forall|e: int| 0 < e < st.len() implies (#[trigger] st[e]).end == st[e - 1].start by {
                assert(st[e] == old_stack[e]);
                assert(st[e - 1] == old_stack[e - 1]);
            }
            assert forall|e: int| 0 <= e < st.len() implies (#[trigger] st[e]).start < st[e].end by {
                assert(st[e] == old_stack[e]);
            }
        }
        assert(stack_tiles(st, post.cursor as int, post.n as int));
    }

    /// Splitting the top range keeps the builder consistent.
    proof fn lemma_split_wf(pre: BvhBuilder, post: BvhBuilder, mid: usize)
        requires
            pre.wf(),
            pre.stack@.len() > 0,
            ({
                let top = pre.stack@.last();
                &&& top.start < mid < top.end
                &&& post.n == pre.n
                &&& post.indices@.len() == pre.indices@.len()
                &&& post.indices@.to_multiset() =~= identity_seq(pre.n as nat).to_multiset()
                &&& post.stack@ == pre.stack@.drop_last().push(
                    (PendingRange { start: mid, end: top.end, parent: Some(pre.links@.len() as usize) }),
                ).push((PendingRange { start: top.start, end: mid, parent: None }))
                &&& appended(pre.links@, post.links@, top.parent, BvhLink { left_first: 0, count: 0 })
                &&& post.cursor == pre.cursor
                &&& post.leaves@ == pre.leaves@
                &&& post.interiors@ == pre.interiors@ + 1
            }),
        ensures
            post.wf(),
    {
        pre.lemma_facts();
        reveal(BvhBuilder::wf);
        let top = pre.stack@.last();
        let old_stack = pre.stack@;
        lemma_split_leaves(pre.links@, post.links@, top.parent, pre.cursor as int);
        lemma_split_pending(pre.links@, pre.stack@, post.links@, post.stack@, mid);
        lemma_appended_one_tree(pre.links@, pre.stack@, post.links@, BvhLink { left_first: 0, count: 0 });
        let st = post.stack@;
        let base = old_stack.drop_last();
        assert forall|e: int| 0 < e < st.len() implies (#[trigger] st[e]).end == st[e - 1].start by {
            if e < base.len() {
                assert(st[e] == old_stack[e]);
                assert(st[e - 1] == old_stack[e - 1]);
            } else if e == base.len() {
                assert(old_stack[e].end == old_stack[e - 1].start);
            }
        }
        assert forall|e: int| 0 <= e < st.len() implies (#[trigger] st[e]).start < st[e].end by {
            if e < base.len() {
                assert(st[e] == old_stack[e]);
            }
        }
        if base.len() > 0 {
            assert(st[0] == old_stack[0]);
        }
        assert(stack_tiles(st, post.cursor as int, post.n as int));
    }
}

impl BvhBuilder {
    /// Decides the pending range on top of the stack. The range becomes a leaf
    /// when `decision` says so or it holds at most [`LEAF_SIZE`] triangles;
    /// otherwise it is split: by bins when both sides get triangles, else at
    /// its median by rank. The node is appended (and becomes the right child
    /// of the node that was waiting for it), and a split pushes the right then
    /// the left half, so the left child is the next node.
    pub fn apply(&mut self, decision: SplitDecision<'_>)
        requires
            old(self).wf(),
            old(self).spec_stack().len() > 0,
            decision matches SplitDecision::Split { bins, ranks, .. } ==> bins.len() >= old(self).spec_n()
                && ranks.len() >= old(self).spec_n(),
        ensures
            final(self).wf(),
            0 <= final(self).work_left() < old(self).work_left(),
            final(self).spec_n() == old(self).spec_n(),
            ({
                let top = old(self).spec_stack().last();
                let i = old(self).spec_links().len() as int;
                let count = top.end - top.start;
                &&& forall|k: int|
                    0 <= k < old(self).spec_n() && !(top.start <= k < top.end) ==> final(self).spec_indices()[k]
                        == old(self).spec_indices()[k]
                &&& final(self).spec_indices().subrange(top.start as int, top.end as int).to_multiset()
                    =~= old(self).spec_indices().subrange(top.start as int, top.end as int).to_multiset()
                &&& (decision is Leaf || count <= LEAF_SIZE) ==> {
                    &&& appended(old(self).spec_links(), final(self).spec_links(), top.parent, BvhLink {
                        left_first: top.start as u32,
                        count: count as u32,
                    })
                    &&& final(self).spec_stack() == old(self).spec_stack().drop_last()
                }
                &&& !(decision is Leaf || count <= LEAF_SIZE) ==> {
                    &&& appended(old(self).spec_links(), final(self).spec_links(), top.parent, BvhLink {
                        left_first: 0,
                        count: 0,
                    })
                    &&& exists|mid: usize|
                        top.start < mid < top.end && final(self).spec_stack() == old(self).spec_stack().drop_last().push(
                            (PendingRange { start: mid, end: top.end, parent: Some(i as usize) }),
                        ).push((PendingRange { start: top.start, end: mid, parent: None }))
                        && (decision matches SplitDecision::Split { bins, split_bin, ranks } ==> split_ok(
                            final(self).spec_indices(),
                            top.start as int,
                            mid as int,
                            top.end as int,
                            bins@,
                            split_bin,
                            ranks@,
                        ))
                }
            }),
    {
        let ghost pre = *self;
        let ghost old_links = self.links@;
        let ghost old_stack = self.stack@;
        let ghost old_indices = self.indices@;
        proof {
            self.lemma_facts();
        }
        let top = self.stack.pop().unwrap();
        let i = self.links.len();
        let count = top.end - top.start;
        proof {
            assert(old_stack.last() == top);
            assert(self.stack@ == old_stack.drop_last());
            assert(i <= 2 * self.n - 2);
        }
        match top.parent {
            Some(p) => {
                self.links.set(p, BvhLink { left_first: i as u32, count: 0 });
            },
            None => {},
        }
        let make_leaf = match &decision {
            SplitDecision::Leaf => true,
            SplitDecision::Split { .. } => count <= LEAF_SIZE,
        };
        if make_leaf {
            let node = BvhLink { left_first: top.start as u32, count: count as u32 };
            self.links.push(node);
            self.cursor = top.end;
            self.leaves = Ghost(self.leaves@ + 1);
            proof {
                assert(appended(old_links, self.links@, top.parent, node));
                assert(self.indices@ =~= old_indices);
                Self::lemma_leaf_wf(pre, *self);
                reveal(BvhBuilder::wf);
                lemma_stack_len(self.stack@, self.cursor as int, self.n as int);
            }
        } else {
            let mid = match decision {
                SplitDecision::Split { bins, split_bin, ranks } => {
                    proof {
                        assert forall|k: int| top.start <= k < top.end implies (#[trigger] self.indices@[k]) < bins.len() by {
                            lemma_identity_bound(self.indices@, self.n as nat, k);
                        }
                    }
                    let mut mid = partition_by_bin(&mut self.indices, top.start, top.end, bins, split_bin);
                    let ghost parted = self.indices@;
                    proof {
                        lemma_range_permutation(old_indices, self.indices@, top.start as int, top.end as int);
                        lemma_partition_sides(parted, top.start as int, mid as int, top.end as int, bins@, split_bin);
                    }
                    if mid == top.start || mid == top.end {
                        mid = top.start + count / 2;
                        let ghost before = self.indices@;
                        proof {
                            assert forall|k: int| top.start <= k < top.end implies (#[trigger] self.indices@[k]) < ranks.len() by {
                                lemma_identity_bound(self.indices@, self.n as nat, k);
                            }
                        }
                        select_nth_by_rank(&mut self.indices, top.start, top.end, count / 2, ranks);
                        proof {
                            assert(range_of(self.indices@, top.start, top.end) == self.indices@.subrange(top.start as int, top.end as int));
                            assert(range_of(before, top.start, top.end) == before.subrange(top.start as int, top.end as int));
                            lemma_range_permutation(before, self.indices@, top.start as int, top.end as int);
                            assert(self.indices@.subrange(top.start as int, top.end as int).to_multiset()
                                =~= parted.subrange(top.start as int, top.end as int).to_multiset());
                        }
                    }
                    assert(split_ok(self.indices@, top.start as int, mid as int, top.end as int, bins@, split_bin, ranks@));
                    mid
                },
                SplitDecision::Leaf => top.start,
            };
            assert(top.start < mid < top.end);
            let node = BvhLink { left_first: 0, count: 0 };
            self.links.push(node);
            self.stack.push(PendingRange { start: mid, end: top.end, parent: Some(i) });
            self.stack.push(PendingRange { start: top.start, end: mid, parent: None });
            self.interiors = Ghost(self.interiors@ + 1);
            proof {
                assert(appended(old_links, self.links@, top.parent, node));
                Self::lemma_split_wf(pre, *self, mid);
                reveal(BvhBuilder::wf);
                lemma_stack_len(self.stack@, self.cursor as int, self.n as int);
                assert(self.stack@ == old_stack.drop_last().push(
                    (PendingRange { start: mid, end: top.end, parent: Some(i as usize) }),
                ).push((PendingRange { start: top.start, end: mid, parent: None })));
            }
        }
    }

    /// Ends the build once nothing is pending, handing out the node links
    /// and the index list (the reordering of the triangles). With triangles,
    /// the links form a well-formed tree over them with at most `2n - 1` nodes.
    pub fn finish(self) -> (r: (Vec<BvhLink>, Vec<u32>))
        requires
            self.wf(),
            self.spec_stack().len() == 0,
        ensures
            r.1@ == self.spec_indices(),
            r.0@ == self.spec_links(),
            r.1@.to_multiset() =~= identity_seq(self.spec_n()).to_multiset(),
            self.spec_n() == 0 ==> r.0@ == seq![BvhLink { left_first: 0, count: 0 }],
            self.spec_n() > 0 ==> tree_wf(r.0@, self.spec_n()) && one_tree(r.0@) && r.0@.len() <= 2
                * self.spec_n() - 1,
    {
        proof {
            reveal(BvhBuilder::wf);
            if self.n > 0 {
                let links = self.links@;
                assert forall|a: int| 0 <= a < links.len() && !is_leaf(links, a) implies #[trigger] linked(links, a) by {
                    assert(interior_ok(links, self.stack@, a));
                }
            }
        }
        (self.links, self.indices)
    }
}


impl BvhBuilder {
    /// The top pending range lies inside `0 .. n`, and every entry of the
    /// index list is below `n`.
    proof fn lemma_pending_in_bounds(&self)
        requires
            self.wf(),
            self.spec_stack().len() > 0,
        ensures
            self.spec_stack().last().start < self.spec_stack().last().end <= self.spec_n(),
            self.spec_indices().len() == self.spec_n(),
            forall|k: int| 0 <= k < self.spec_n() ==> #[trigger] self.spec_indices()[k] < self.spec_n(),
            self.spec_indices().no_duplicates(),
    {
        reveal(BvhBuilder::wf);
        lemma_permutation_no_duplicates(self.indices@, self.n as nat);
        let st = self.stack@;
        let n = self.n as int;
        assert forall|i: int| 0 <= i < st.len() implies #[trigger] st[i].end <= n by {
            lemma_stack_ends_bounded(st, n, i);
        }
        assert(st[st.len() - 1].end <= n);
        assert forall|k: int| 0 <= k < self.spec_n() implies #[trigger] self.spec_indices()[k] < self.spec_n() by {
            lemma_identity_bound(self.indices@, self.n as nat, k);
        }
    }
}

/// A sequence with the multiset of `0 .. n` holds no element twice.
proof fn lemma_permutation_no_duplicates(s: Seq<u32>, n: nat)
    requires
        n <= 0x8000_0000,
        s.to_multiset() =~= identity_seq(n).to_multiset(),
    ensures
        s.no_duplicates(),
{
    let id = identity_seq(n);
    assert forall|i: int, j: int| 0 <= i < id.len() && 0 <= j < id.len() && i != j implies id[i] != id[j] by {
        assert(id[i] == i as u32 && id[j] == j as u32);
    }
    assert(id.no_duplicates());
    id.lemma_multiset_has_no_duplicates();
    s.lemma_multiset_has_no_duplicates_conv();
}

/// In a stack whose bottom range ends at `n` and whose ranges sit each below
/// the one under it, every range ends by `n`.
proof fn lemma_stack_ends_bounded(st: Seq<PendingRange>, n: int, i: int)
    requires
        st.len() > 0,
        st[0].end == n,
        forall|j: int| 0 < j < st.len() ==> (#[trigger] st[j]).end == st[j - 1].start,
        forall|j: int| 0 <= j < st.len() ==> (#[trigger] st[j]).start < st[j].end,
        0 <= i < st.len(),
    ensures
        st[i].end <= n,
    decreases i,
{
    if i > 0 {
        lemma_stack_ends_bounded(st, n, i - 1);
        assert(st[i].end == st[i - 1].start);
        assert(st[i - 1].start < st[i - 1].end);
    }
}

/// `global` gives each triangle of positions `start ..` of `indices` the
/// entry that `local` gives its position in the range.
pub open spec fn spread<T>(global: Seq<T>, indices: Seq<u32>, start: int, local: Seq<T>) -> bool {
    forall|k: int| 0 <= k < local.len() ==> global[indices[start + k] as int] == #[trigger] local[k]
}

/// Whether an answer for a range of `count` triangles asks for a split: it
/// gives one bin and one rank per triangle, and the range is too large for
/// a leaf.
pub open spec fn asks_split(ans: Option<(Vec<usize>, usize, Vec<u32>)>, count: int) -> bool {
    match ans {
        Some((bins, _, ranks)) => bins.len() == count && ranks.len() == count && count > LEAF_SIZE,
        None => false,
    }
}

/// `post` is `pre` with its top pending range decided by the answer `ans`
/// (bins and ranks listed in range order): a leaf, unless the answer asks
/// for a split; a split follows the answer's bins, or its ranks at the
/// median when the bins put every triangle on one side.
pub open spec fn answered(pre: BvhBuilder, ans: Option<(Vec<usize>, usize, Vec<u32>)>, post: BvhBuilder) -> bool {
    let top = pre.spec_stack().last();
    let count = top.end - top.start;
    let i = pre.spec_links().len() as int;
    &&& post.spec_n() == pre.spec_n()
    &&& forall|k: int|
        0 <= k < pre.spec_n() && !(top.start <= k < top.end) ==> post.spec_indices()[k]
            == pre.spec_indices()[k]
    &&& post.spec_indices().subrange(top.start as int, top.end as int).to_multiset()
        =~= pre.spec_indices().subrange(top.start as int, top.end as int).to_multiset()
    &&& !asks_split(ans, count) ==> {
        &&& appended(pre.spec_links(), post.spec_links(), top.parent, BvhLink {
            left_first: top.start as u32,
            count: count as u32,
        })
        &&& post.spec_stack() == pre.spec_stack().drop_last()
    }
    &&& asks_split(ans, count) ==> {
        &&& appended(pre.spec_links(), post.spec_links(), top.parent, BvhLink { left_first: 0, count: 0 })
        &&& exists|mid: usize, bins: Seq<usize>, ranks: Seq<u32>|
            #![trigger split_ok(post.spec_indices(), top.start as int, mid as int, top.end as int, bins, ans.unwrap().1, ranks)]
            top.start < mid < top.end
            && post.spec_stack() == pre.spec_stack().drop_last().push(
                (PendingRange { start: mid, end: top.end, parent: Some(i as usize) }),
            ).push((PendingRange { start: top.start, end: mid, parent: None }))
            && spread(bins, pre.spec_indices(), top.start as int, ans.unwrap().0@)
            && spread(ranks, pre.spec_indices(), top.start as int, ans.unwrap().2@)
            && split_ok(post.spec_indices(), top.start as int, mid as int, top.end as int, bins, ans.unwrap().1, ranks)
    }
}

/// `post` is `pre` with its top pending range decided by what `decide`
/// answers for that range and `pre`'s index list.
pub open spec fn decided_by<F: Fn(usize, usize, &Vec<u32>) -> Option<(Vec<usize>, usize, Vec<u32>)>>(
    decide: F,
    pre: BvhBuilder,
    post: BvhBuilder,
) -> bool {
    let top = pre.spec_stack().last();
    &&& pre.spec_stack().len() > 0
    &&& exists|idx: &Vec<u32>, ans: Option<(Vec<usize>, usize, Vec<u32>)>|
        idx@ == pre.spec_indices() && #[trigger] call_ensures(decide, (top.start, top.end, idx), ans)
            && answered(pre, ans, post)
}

/// Step `k` of `trace` is decided by `decide`.
pub open spec fn step_by<F: Fn(usize, usize, &Vec<u32>) -> Option<(Vec<usize>, usize, Vec<u32>)>>(
    decide: F,
    trace: Seq<BvhBuilder>,
    k: int,
) -> bool {
    decided_by(decide, trace[k], trace[k + 1])
}

/// `trace` is a build over `n` triangles from the start to its end, each
/// step deciding the top pending range as `decide` answers.
pub open spec fn built_by<F: Fn(usize, usize, &Vec<u32>) -> Option<(Vec<usize>, usize, Vec<u32>)>>(
    decide: F,
    n: u32,
    trace: Seq<BvhBuilder>,
) -> bool {
    &&& trace.len() >= 1
    &&& trace[0].spec_n() == n
    &&& trace[0].spec_indices() == identity_seq(n as nat)
    &&& n > 0 ==> trace[0].spec_stack() == seq![PendingRange { start: 0, end: n as usize, parent: None }]
        && trace[0].spec_links().len() == 0
    &&& n == 0 ==> trace[0].spec_stack().len() == 0
    &&& trace.last().spec_stack().len() == 0
    &&& forall|k: int| 0 <= k < trace.len() - 1 ==> #[trigger] step_by(decide, trace, k)
}

/// Builds the whole tree over `n` triangles. For each pending range
/// `start .. end` the caller's `decide` is handed the range and the current
/// index list, and answers `None` for a leaf or, for a split, the bin of each
/// triangle of the range, the last bin of the left side and each triangle's
/// order along the split axis (both lists in range order). An answer whose
/// lists do not have one entry per triangle of the range makes a leaf.
/// The result is the node links and the triangle order of a build that
/// decides every range as `decide` answers it ([`built_by`]): with
/// triangles, one tree rooted at node 0 over all of them, with at most
/// `2n - 1` nodes.
pub fn build_with<F>(n: u32, decide: F) -> (r: (Vec<BvhLink>, Vec<u32>)) where
    F: Fn(usize, usize, &Vec<u32>) -> Option<(Vec<usize>, usize, Vec<u32>)>,

    requires
        n <= 0x8000_0000,
        forall|start: usize, end: usize, indices: &Vec<u32>| #[trigger] decide.requires((start, end, indices)),
    ensures
        exists|trace: Seq<BvhBuilder>|
            built_by(decide, n, trace) && r.0@ == trace.last().spec_links() && r.1@ == trace.last().spec_indices(),
        r.1@.to_multiset() =~= identity_seq(n as nat).to_multiset(),
        r.1.len() == n,
        n == 0 ==> r.0@ == seq![BvhLink { left_first: 0, count: 0 }],
        n > 0 ==> tree_wf(r.0@, n as nat) && one_tree(r.0@) && r.0@.len() <= 2 * n - 1,
{
    let mut b = BvhBuilder::new(n);
    let ghost trace: Seq<BvhBuilder> = seq![b];
    let mut bins: Vec<usize> = Vec::new();
    let mut ranks: Vec<u32> = Vec::new();
    let mut k: u32 = 0;
    while k < n
        invariant
            k <= n,
            bins.len() == k,
            ranks.len() == k,
        decreases n - k,
    {
        bins.push(0);
        ranks.push(0);
        k = k + 1;
    }
    let mut pending = b.pending();
    while pending.is_some()
        invariant
            b.wf(),
            b.spec_n() == n,
            b.work_left() >= 0,
            bins.len() == n,
            ranks.len() == n,
            b.spec_stack().len() == 0 ==> pending is None,
            b.spec_stack().len() > 0 ==> pending == Some(
                (b.spec_stack().last().start, b.spec_stack().last().end),
            ),
            forall|start: usize, end: usize, indices: &Vec<u32>| #[trigger] decide.requires((start, end, indices)),
            trace.len() >= 1,
            trace.last() == b,
            trace[0].spec_n() == n,
            trace[0].spec_indices() == identity_seq(n as nat),
            n > 0 ==> trace[0].spec_stack() == seq![PendingRange { start: 0, end: n as usize, parent: None }]
                && trace[0].spec_links().len() == 0,
            n == 0 ==> trace[0].spec_stack().len() == 0,
            forall|k: int| 0 <= k < trace.len() - 1 ==> #[trigger] step_by(decide, trace, k),
        decreases b.work_left(),
    {
        let (start, end) = pending.unwrap();
        let ghost pre = b;
        proof {
            b.lemma_pending_in_bounds();
        }
        let idx = b.indices();
        let decision = decide(start, end, idx);
        let ghost idx_v: Vec<u32> = *idx;
        let ghost ans = decision;
        let len = end - start;
        match decision {
            Some((local_bins, split_bin, local_ranks)) => {
                if local_bins.len() == len && local_ranks.len() == len {
                    let mut j: usize = 0;
                    while j < len
                        invariant
                            start < end <= n,
                            len == end - start,
                            j <= len,
                            local_bins.len() == len,
                            local_ranks.len() == len,
                            bins.len() == n,
                            ranks.len() == n,
                            b == pre,
                            b.spec_indices().len() == n,
                            b.spec_indices().no_duplicates(),
                            forall|k: int| 0 <= k < n ==> #[trigger] b.spec_indices()[k] < n,
                            forall|k2: int|
                                0 <= k2 < j ==> bins@[b.spec_indices()[start + k2] as int] == #[trigger] local_bins@[k2],
                            forall|k2: int|
                                0 <= k2 < j ==> ranks@[b.spec_indices()[start + k2] as int] == #[trigger] local_ranks@[k2],
                        decreases len - j,
                    {
                        let t = b.indices()[start + j] as usize;
                        assert(b.spec_indices()[start + j] < n);
                        bins.set(t, local_bins[j]);
                        ranks.set(t, local_ranks[j]);
                        j = j + 1;
                    }
                    b.apply(SplitDecision::Split { bins: &bins, split_bin, ranks: &ranks });
                    proof {
                        assert(spread(bins@, pre.spec_indices(), start as int, local_bins@));
                        assert(spread(ranks@, pre.spec_indices(), start as int, local_ranks@));
                        if len > LEAF_SIZE {
                            let top = pre.spec_stack().last();
                            let mid = choose|mid: usize|
                                top.start < mid < top.end && b.spec_stack() == pre.spec_stack().drop_last().push(
                                    (PendingRange { start: mid, end: top.end, parent: Some(pre.spec_links().len() as usize) }),
                                ).push((PendingRange { start: top.start, end: mid, parent: None })) && split_ok(
                                    b.spec_indices(),
                                    top.start as int,
                                    mid as int,
                                    top.end as int,
                                    bins@,
                                    split_bin,
                                    ranks@,
                                );
                            assert(split_ok(b.spec_indices(), top.start as int, mid as int, top.end as int, bins@, ans.unwrap().1, ranks@));
                        }
                        assert(answered(pre, ans, b));
                    }
                } else {
                    b.apply(SplitDecision::Leaf);
                    proof {
                        assert(answered(pre, ans, b));
                    }
                }
            },
            None => {
                b.apply(SplitDecision::Leaf);
                proof {
                    assert(answered(pre, ans, b));
                }
            },
        }
        proof {
            assert(call_ensures(decide, (start, end, &idx_v), ans));
            assert(decided_by(decide, pre, b));
            let old_trace = trace;
            trace = trace.push(b);
            assert forall|k: int| 0 <= k < trace.len() - 1 implies #[trigger] step_by(decide, trace, k) by {
                if k < old_trace.len() - 1 {
                    assert(step_by(decide, old_trace, k));
                    assert(trace[k] == old_trace[k] && trace[k + 1] == old_trace[k + 1]);
                } else {
                    assert(trace[k] == pre);
                }
            }
        }
        pending = b.pending();
    }
    proof {
        reveal(BvhBuilder::wf);
        assert(built_by(decide, n, trace));
    }
    b.finish()
}

} // verus!
