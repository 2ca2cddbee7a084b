use vstd::prelude::*;

use crate::ids::TreeIndex;
use crate::tree_layout::TreeLayout;

verus! {

/// Number of internal positions of the compact d-ary heap layout over
/// `leaves` leaves: `ceil((leaves - 1) / (arity - 1))`, and none for at most
/// one leaf.
pub open spec fn internal_count(arity: nat, leaves: nat) -> nat {
    if leaves <= 1 {
        0
    } else {
        ((leaves - 2) / ((arity - 1) as int) + 1) as nat
    }
}

/// In the compact layout with `leaves` leaves, the internal positions are
/// exactly those whose first child slot exists: an internal position has at
/// least one child, and a leaf position has none.
pub proof fn lemma_compact_layout_shape(arity: nat, leaves: nat, p: nat)
    requires
        arity >= 2,
        leaves >= 1,
    ensures
        p < internal_count(arity, leaves) <==> p * arity + 1 < internal_count(arity, leaves) + leaves,
{
    let i = internal_count(arity, leaves) as int;
    let n = leaves as int;
    let d = arity as int;
    let pp = p as int;
    if n == 1 {
        assert(i == 0);
        assert(pp * d + 1 >= 1) by (nonlinear_arith)
            requires
                pp >= 0,
                d >= 2,
        ;
    } else {
        let q = (n - 2) / (d - 1);
        assert(i == q + 1);
        assert(q * (d - 1) <= n - 2 < (q + 1) * (d - 1)) by (nonlinear_arith)
            requires
                q == (n - 2) / (d - 1),
                d >= 2,
                n >= 2,
        ;
        if pp < i {
            assert(pp * d + 1 < i + n) by (nonlinear_arith)
                requires
                    pp <= i - 1,
                    i == q + 1,
                    q * (d - 1) <= n - 2,
                    d >= 2,
                    pp >= 0,
            ;
        } else {
            assert(pp * d + 1 >= i + n) by (nonlinear_arith)
                requires
                    pp >= i,
                    i == q + 1,
                    n - 2 < (q + 1) * (d - 1),
                    d >= 2,
            ;
        }
    }
}

/// More leaves never need fewer internal positions.
pub proof fn lemma_internal_count_monotone(arity: nat, a: nat, b: nat)
    requires
        arity >= 2,
        a <= b,
    ensures
        internal_count(arity, a) <= internal_count(arity, b),
{
    if a > 1 {
        let d = arity as int;
        assert((a - 2) / (d - 1) <= (b - 2) / (d - 1)) by (nonlinear_arith)
            requires
                2 <= a <= b,
                d >= 2,
        ;
    }
}

/// Where the leaves go when `added` fresh leaves join a compact layout of
/// `old_leaves` leaves.
pub struct InsertionPlan {
    /// Leaf count after the insertion.
    pub new_leaves: usize,
    /// Internal position count after the insertion.
    pub new_internal: usize,
    /// Old leaves that change position, as `(from, to)`.
    pub moves: Vec<(TreeIndex, TreeIndex)>,
    /// Position of the first fresh leaf; the fresh leaves follow it in order.
    pub fresh_start: usize,
    /// Leaf positions whose ancestors must be recomputed, as a half-open range.
    pub rebuild_start: usize,
    pub rebuild_end: usize,
    /// Pending touched positions refer to the old layout and must be dropped
    /// (the rebuild covers every leaf); otherwise only the moved positions
    /// must be dropped from them.
    pub reset_touched: bool,
}

/// Position `x` is one of `deleted`.
pub open spec fn is_deleted(deleted: Seq<TreeIndex>, x: int) -> bool {
    exists|k: int| 0 <= k < deleted.len() && deleted[k].0 == x
}

/// Number of positions in `[lo, hi)` that are deleted.
pub open spec fn count_deleted(deleted: Seq<TreeIndex>, lo: int, hi: int) -> nat
    decreases hi - lo,
{
    if hi <= lo {
        0
    } else {
        count_deleted(deleted, lo, hi - 1) + if is_deleted(deleted, hi - 1) {
            1nat
        } else {
            0nat
        }
    }
}

/// Positions of `[lo, hi)` that are not deleted, in increasing order.
pub open spec fn live_positions(deleted: Seq<TreeIndex>, lo: int, hi: int) -> Seq<usize>
    decreases hi - lo,
{
    if hi <= lo {
        Seq::empty()
    } else {
        let rest = live_positions(deleted, lo, hi - 1);
        if is_deleted(deleted, hi - 1) {
            rest
        } else {
            rest.push((hi - 1) as usize)
        }
    }
}

/// The deleted positions that lie in `[lo, hi)`, in deletion order.
pub open spec fn deleted_within(deleted: Seq<TreeIndex>, lo: int, hi: int) -> Seq<TreeIndex>
    decreases deleted.len(),
{
    if deleted.len() == 0 {
        Seq::empty()
    } else {
        let rest = deleted_within(deleted.drop_last(), lo, hi);
        if lo <= deleted.last().0 < hi {
            rest.push(deleted.last())
        } else {
            rest
        }
    }
}

/// No position is deleted twice.
pub open spec fn distinct_positions(deleted: Seq<TreeIndex>) -> bool {
    forall|i: int, j: int| 0 <= i < j < deleted.len() ==> deleted[i] != deleted[j]
}

/// The first `k` deletions are leaf positions of `[lo, hi)`, none repeated.
pub open spec fn valid_deletions(deleted: Seq<TreeIndex>, k: int, lo: int, hi: int) -> bool {
    &&& forall|j: int| 0 <= j < k ==> lo <= (#[trigger] deleted[j]).0 < hi
    &&& forall|i: int, j: int| 0 <= i < j < k ==> deleted[i] != deleted[j]
}

/// The live positions of a range number its positions less its deleted ones;
/// they lie in the range, are not deleted, and increase.
pub proof fn lemma_live_len(deleted: Seq<TreeIndex>, lo: int, hi: int)
    requires
        0 <= lo <= hi <= usize::MAX + 1,
    ensures
        live_positions(deleted, lo, hi).len() + count_deleted(deleted, lo, hi) == hi - lo,
        forall|i: int|
            0 <= i < live_positions(deleted, lo, hi).len() ==> lo <= #[trigger] live_positions(
                deleted,
                lo,
                hi,
            )[i] < hi && !is_deleted(deleted, live_positions(deleted, lo, hi)[i] as int),
        forall|i: int, j: int|
            0 <= i < j < live_positions(deleted, lo, hi).len() ==> live_positions(deleted, lo, hi)[i]
                < live_positions(deleted, lo, hi)[j],
    decreases hi - lo,
{
    if hi > lo {
        lemma_live_len(deleted, lo, hi - 1);
        let r = live_positions(deleted, lo, hi - 1);
        let l = live_positions(deleted, lo, hi);
        if !is_deleted(deleted, hi - 1) {
            assert(l == r.push((hi - 1) as usize));
            assert forall|i: int| 0 <= i < l.len() implies lo <= #[trigger] l[i] < hi && !is_deleted(
                deleted,
                l[i] as int,
            ) by {
                if i < r.len() {
                    assert(l[i] == r[i]);
                }
            }
            assert forall|i: int, j: int| 0 <= i < j < l.len() implies l[i] < l[j] by {
                assert(l[i] == r[i]);
                if j < r.len() {
                    assert(l[j] == r[j]);
                }
            }
        } else {
            assert(l == r);
        }
    }
}

/// Every live position of `[lo, hi)` appears among the live positions.
pub proof fn lemma_live_complete(deleted: Seq<TreeIndex>, lo: int, hi: int, x: int)
    requires
        0 <= lo <= x < hi <= usize::MAX + 1,
        !is_deleted(deleted, x),
    ensures
        exists|i: int|
            0 <= i < live_positions(deleted, lo, hi).len() && #[trigger] live_positions(
                deleted,
                lo,
                hi,
            )[i] == x,
    decreases hi - lo,
{
    if x < hi - 1 {
        lemma_live_complete(deleted, lo, hi - 1, x);
        let prev = live_positions(deleted, lo, hi - 1);
        let i = choose|i: int| 0 <= i < prev.len() && #[trigger] prev[i] == x;
        assert(live_positions(deleted, lo, hi)[i] == x);
    } else {
        let r = live_positions(deleted, lo, hi - 1);
        assert(live_positions(deleted, lo, hi) == r.push((hi - 1) as usize));
        assert(live_positions(deleted, lo, hi)[r.len() as int] == x);
    }
}

proof fn lemma_count_split(deleted: Seq<TreeIndex>, lo: int, mid: int, hi: int)
    requires
        lo <= mid <= hi,
    ensures
        count_deleted(deleted, lo, hi) == count_deleted(deleted, lo, mid) + count_deleted(
            deleted,
            mid,
            hi,
        ),
    decreases hi - mid,
{
    if hi > mid {
        lemma_count_split(deleted, lo, mid, hi - 1);
    }
}

/// Appending a position that was not yet deleted adds one to the count of
/// every range that holds it.
proof fn lemma_count_push(deleted: Seq<TreeIndex>, x: TreeIndex, lo: int, hi: int)
    requires
        !is_deleted(deleted, x.0 as int),
    ensures
        count_deleted(deleted.push(x), lo, hi) == count_deleted(deleted, lo, hi) + if lo <= x.0 < hi {
            1nat
        } else {
            0nat
        },
    decreases hi - lo,
{
    let s = deleted.push(x);
    if hi > lo {
        lemma_count_push(deleted, x, lo, hi - 1);
        assert(is_deleted(s, hi - 1) == (is_deleted(deleted, hi - 1) || x.0 == hi - 1)) by {
            if is_deleted(deleted, hi - 1) {
                let k = choose|k: int| 0 <= k < deleted.len() && deleted[k].0 == hi - 1;
                assert(s[k].0 == hi - 1);
            }
            if x.0 == hi - 1 {
                assert(s[deleted.len() as int].0 == hi - 1);
            }
            if is_deleted(s, hi - 1) {
                let k = choose|k: int| 0 <= k < s.len() && s[k].0 == hi - 1;
                if k < deleted.len() {
                    assert(deleted[k].0 == hi - 1);
                }
            }
        }
    }
}

/// For distinct deletions, the count of a range is the number of deletions
/// that fall in it.
pub proof fn lemma_count_is_filter_len(deleted: Seq<TreeIndex>, lo: int, hi: int)
    requires
        distinct_positions(deleted),
    ensures
        count_deleted(deleted, lo, hi) == deleted_within(deleted, lo, hi).len(),
    decreases deleted.len(),
{
    if deleted.len() == 0 {
        lemma_count_empty(deleted, lo, hi);
    } else {
        let rest = deleted.drop_last();
        let x = deleted.last();
        assert(distinct_positions(rest));
        lemma_count_is_filter_len(rest, lo, hi);
        assert(rest.push(x) =~= deleted);
        assert(!is_deleted(rest, x.0 as int)) by {
            if is_deleted(rest, x.0 as int) {
                let k = choose|k: int| 0 <= k < rest.len() && rest[k].0 == x.0;
                assert(deleted[k] == deleted[deleted.len() - 1]);
            }
        }
        lemma_count_push(rest, x, lo, hi);
        assert(deleted.drop_last() =~= rest);
        assert(deleted_within(deleted, lo, hi) == if lo <= x.0 < hi {
            deleted_within(rest, lo, hi).push(x)
        } else {
            deleted_within(rest, lo, hi)
        });
    }
}

proof fn lemma_count_empty(deleted: Seq<TreeIndex>, lo: int, hi: int)
    requires
        deleted.len() == 0,
    ensures
        count_deleted(deleted, lo, hi) == 0,
    decreases hi - lo,
{
    if hi > lo {
        lemma_count_empty(deleted, lo, hi - 1);
    }
}

/// When every deletion lies in `[lo, hi)`, filtering to that range keeps them all.
pub proof fn lemma_filter_all(deleted: Seq<TreeIndex>, lo: int, hi: int)
    requires
        forall|j: int| 0 <= j < deleted.len() ==> lo <= (#[trigger] deleted[j]).0 < hi,
    ensures
        deleted_within(deleted, lo, hi) == deleted,
    decreases deleted.len(),
{
    if deleted.len() > 0 {
        let rest = deleted.drop_last();
        lemma_filter_all(rest, lo, hi);
        assert(rest.push(deleted.last()) =~= deleted);
        assert(deleted_within(deleted, lo, hi) == deleted_within(rest, lo, hi).push(
            deleted.last(),
        ));
    }
}

/// A deletion that falls in `[lo, hi)` is kept by `deleted_within`.
pub proof fn lemma_deleted_within_contains(deleted: Seq<TreeIndex>, lo: int, hi: int, w: int)
    requires
        0 <= w < deleted.len(),
        lo <= deleted[w].0 < hi,
    ensures
        exists|j: int|
            0 <= j < deleted_within(deleted, lo, hi).len() && deleted_within(deleted, lo, hi)[j]
                == deleted[w],
    decreases deleted.len(),
{
    let rest = deleted.drop_last();
    let kept = deleted_within(deleted, lo, hi);
    if w == deleted.len() - 1 {
        let r = deleted_within(rest, lo, hi);
        assert(kept[r.len() as int] == deleted[w]);
    } else {
        assert(rest[w] == deleted[w]);
        lemma_deleted_within_contains(rest, lo, hi, w);
        let r = deleted_within(rest, lo, hi);
        let j = choose|j: int| 0 <= j < r.len() && r[j] == rest[w];
        assert(kept[j] == r[j]);
    }
}

/// Each position kept by `deleted_within` is a deletion that falls in
/// `[lo, hi)`, and without repeated deletions none is kept twice.
pub proof fn lemma_deleted_within_members(deleted: Seq<TreeIndex>, lo: int, hi: int)
    ensures
        forall|j: int|
            0 <= j < deleted_within(deleted, lo, hi).len() ==> lo <= (#[trigger] deleted_within(
                deleted,
                lo,
                hi,
            )[j]).0 < hi && is_deleted(deleted, deleted_within(deleted, lo, hi)[j].0 as int),
        distinct_positions(deleted) ==> distinct_positions(deleted_within(deleted, lo, hi)),
    decreases deleted.len(),
{
    if deleted.len() > 0 {
        let rest = deleted.drop_last();
        let x = deleted.last();
        lemma_deleted_within_members(rest, lo, hi);
        let r = deleted_within(rest, lo, hi);
        let kept = deleted_within(deleted, lo, hi);
        assert forall|j: int| 0 <= j < kept.len() implies lo <= (#[trigger] kept[j]).0 < hi && is_deleted(
            deleted,
            kept[j].0 as int,
        ) by {
            if j < r.len() {
                assert(kept[j] == r[j]);
                let w = choose|w: int| 0 <= w < rest.len() && rest[w].0 == r[j].0;
                assert(deleted[w] == rest[w]);
            } else {
                assert(kept[j] == x);
                assert(deleted[deleted.len() - 1] == x);
            }
        }
        if distinct_positions(deleted) {
            assert(distinct_positions(rest));
            assert forall|a: int, b: int| 0 <= a < b < kept.len() implies kept[a] != kept[b] by {
                assert(kept[a] == r[a]);
                if b < r.len() {
                    assert(kept[b] == r[b]);
                } else {
                    assert(kept[b] == x);
                    let w = choose|w: int| 0 <= w < rest.len() && rest[w].0 == r[a].0;
                    assert(deleted[w] == rest[w]);
                    assert(deleted[deleted.len() - 1] == x);
                }
            }
        }
    }
}

/// Some move of `moves` ends at position `x`.
pub open spec fn is_destination(moves: Seq<(TreeIndex, TreeIndex)>, x: int) -> bool {
    exists|k: int| 0 <= k < moves.len() && (#[trigger] moves[k]).1.0 == x
}

/// Every position of `[i1, t1)` holds a leaf after `moves`: it is either the
/// destination of a move or an old leaf position (at or after `i0`) that was
/// not deleted.
pub open spec fn leaf_block_filled(
    moves: Seq<(TreeIndex, TreeIndex)>,
    deleted: Seq<TreeIndex>,
    i0: int,
    i1: int,
    t1: int,
) -> bool {
    forall|x: int|
        i1 <= x < t1 ==> (i0 <= x && !is_deleted(deleted, x)) || #[trigger] is_destination(moves, x)
}

/// Where the surviving leaves go when some leaves leave a compact layout.
pub struct DeletionPlan {
    /// Leaf count after the deletion.
    pub new_leaves: usize,
    /// Internal position count after the deletion.
    pub new_internal: usize,
    /// Old internal positions that become leaf positions, as a half-open range.
    pub promoted_start: usize,
    pub promoted_end: usize,
    /// Surviving leaves of the truncated tail that change position, as
    /// `(from, to)`.
    pub moves: Vec<(TreeIndex, TreeIndex)>,
}

/// Why a batch of leaf deletions was refused.
#[derive(Debug, Clone, Copy, PartialEq, Eq, Structural)]
pub enum DeletionError {
    /// A deleted position is not a leaf position of the layout.
    NotALeaf,
    /// A position is deleted twice in one batch.
    DuplicateDeletion,
}

impl<const ARITY: usize> TreeLayout<ARITY> {
    /// Plans the insertion of `added` fresh leaves into the compact layout of
    /// `old_leaves` leaves. When the layout grows past its old size, every
    /// old leaf shifts to the new leaf block; otherwise only the old leaves
    /// that become internal positions move, to the end of the old block.
    /// Either way the fresh leaves end exactly at the new layout size.
    pub fn plan_leaf_insertion(old_leaves: usize, added: usize) -> (plan: InsertionPlan)
        requires
            ARITY >= 2,
            added >= 1,
            old_leaves + added <= usize::MAX / 2,
        ensures
            ({
                let i0 = internal_count(ARITY as nat, old_leaves as nat);
                let n1 = old_leaves + added;
                let i1 = internal_count(ARITY as nat, n1 as nat);
                &&& plan.new_leaves == n1
                &&& plan.new_internal == i1
                &&& i0 <= i1
                &&& plan.fresh_start + added == i1 + n1
                &&& plan.rebuild_end == i1 + n1
                &&& if i1 >= i0 + old_leaves {
                    &&& plan.reset_touched
                    &&& plan.moves@.len() == old_leaves
                    &&& forall|k: int|
                        0 <= k < old_leaves ==> #[trigger] plan.moves@[k] == (
                            TreeIndex((i0 + k) as usize),
                            TreeIndex((i1 + k) as usize),
                        )
                    &&& plan.fresh_start == i1 + old_leaves
                    &&& plan.rebuild_start == i1
                } else {
                    &&& !plan.reset_touched
                    &&& plan.moves@.len() == i1 - i0
                    &&& forall|k: int|
                        0 <= k < i1 - i0 ==> #[trigger] plan.moves@[k] == (
                            TreeIndex((i0 + k) as usize),
                            TreeIndex((i0 + old_leaves + k) as usize),
                        )
                    &&& plan.fresh_start == i0 + old_leaves + (i1 - i0)
                    &&& plan.rebuild_start == i0 + old_leaves
                }
            }),
    {
        let old_internal = Self::internal_count_for_leaves(old_leaves);
        let old_total = old_internal + old_leaves;
        let new_leaves = old_leaves + added;
        let new_internal = Self::internal_count_for_leaves(new_leaves);
        proof {
            lemma_internal_count_monotone(ARITY as nat, old_leaves as nat, new_leaves as nat);
        }
        let mut moves: Vec<(TreeIndex, TreeIndex)> = Vec::new();
        if new_internal >= old_total {
            let mut i: usize = 0;
            while i < old_leaves
                invariant
                    i <= old_leaves,
                    old_internal <= new_internal,
                    new_internal + old_leaves <= usize::MAX,
                    moves@.len() == i,
                    forall|k: int|
                        0 <= k < i ==> #[trigger] moves@[k] == (
                            TreeIndex((old_internal + k) as usize),
                            TreeIndex((new_internal + k) as usize),
                        ),
                decreases old_leaves - i,
            {
                moves.push((TreeIndex(old_internal + i), TreeIndex(new_internal + i)));
                i += 1;
            }
            InsertionPlan {
                new_leaves,
                new_internal,
                moves,
                fresh_start: new_internal + old_leaves,
                rebuild_start: new_internal,
                rebuild_end: new_internal + old_leaves + added,
                reset_touched: true,
            }
        } else {
            let promoted = new_internal - old_internal;
            let mut i: usize = 0;
            while i < promoted
                invariant
                    i <= promoted,
                    promoted == new_internal - old_internal,
                    old_total == old_internal + old_leaves,
                    new_internal < old_total,
                    old_total + promoted <= usize::MAX,
                    moves@.len() == i,
                    forall|k: int|
                        0 <= k < i ==> #[trigger] moves@[k] == (
                            TreeIndex((old_internal + k) as usize),
                            TreeIndex((old_total + k) as usize),
                        ),
                decreases promoted - i,
            {
                moves.push((TreeIndex(old_internal + i), TreeIndex(old_total + i)));
                i += 1;
            }
            let fresh_start = old_total + promoted;
            InsertionPlan {
                new_leaves,
                new_internal,
                moves,
                fresh_start,
                rebuild_start: old_total,
                rebuild_end: fresh_start + added,
                reset_touched: false,
            }
        }
    }

    /// Plans the removal of the leaves at positions `deleted` from the
    /// compact layout of `old_leaves` leaves. The layout shrinks to the new
    /// leaf count; the surviving leaves of the cut-off tail move, in
    /// increasing order, first into the old internal positions that become
    /// leaf positions and then into the holes that the deletions leave in the
    /// kept part of the old leaf block, in deletion order. Afterwards every
    /// leaf position of the new layout holds a surviving leaf.
    pub fn plan_leaf_deletion(old_leaves: usize, deleted: &[TreeIndex]) -> (res: Result<DeletionPlan, DeletionError>)
        requires
            ARITY >= 2,
            old_leaves <= usize::MAX / 2,
        ensures
            ({
                let i0 = internal_count(ARITY as nat, old_leaves as nat) as int;
                let t0 = i0 + old_leaves;
                &&& res is Ok <==> valid_deletions(deleted@, deleted@.len() as int, i0, t0)
                &&& res matches Err(e) ==> exists|k: int|
                    0 <= k < deleted@.len() && valid_deletions(deleted@, k, i0, t0) && if i0
                        <= deleted@[k].0 < t0 {
                        e == DeletionError::DuplicateDeletion
                    } else {
                        e == DeletionError::NotALeaf
                    }
                &&& res matches Ok(plan) ==> {
                    let n1 = old_leaves - deleted@.len();
                    let i1 = internal_count(ARITY as nat, n1 as nat) as int;
                    let t1 = i1 + n1;
                    let p = plan.promoted_end - plan.promoted_start;
                    let kept = deleted_within(deleted@, i0, t1);
                    let sources = live_positions(
                        deleted@,
                        if i0 > t1 {
                            i0
                        } else {
                            t1
                        },
                        t0,
                    );
                    &&& deleted@.len() <= old_leaves
                    &&& plan.new_leaves == n1
                    &&& plan.new_internal == i1
                    &&& n1 == 0 ==> plan.moves@.len() == 0
                    &&& n1 > 0 ==> {
                        &&& plan.promoted_start == i1
                        &&& plan.promoted_end == if i0 < t1 {
                            i0
                        } else {
                            t1
                        }
                        &&& plan.moves@.len() == p + kept.len()
                        &&& plan.moves@.len() == sources.len()
                        &&& forall|k: int|
                            0 <= k < plan.moves@.len() ==> (#[trigger] plan.moves@[k]).0.0
                                == sources[k]
                        &&& forall|k: int|
                            0 <= k < p ==> (#[trigger] plan.moves@[k]).1.0 == i1 + k
                        &&& forall|k: int|
                            p <= k < plan.moves@.len() ==> (#[trigger] plan.moves@[k]).1 == kept[k
                                - p]
                        &&& leaf_block_filled(plan.moves@, deleted@, i0, i1, t1)
                    }
                }
            }),
    {
        let ghost d = ARITY as nat;
        let old_internal = Self::internal_count_for_leaves(old_leaves);
        let old_total = old_internal + old_leaves;
        let ghost i0 = old_internal as int;
        let ghost t0 = old_total as int;
        let mut seen: Vec<bool> = Vec::new();
        let mut x: usize = 0;
        while x < old_total
            invariant
                x <= old_total,
                seen@.len() == x,
                forall|y: int| 0 <= y < x ==> !seen@[y],
            decreases old_total - x,
        {
            seen.push(false);
            x += 1;
        }
        let mut k: usize = 0;
        while k < deleted.len()
            invariant
                k <= deleted.len(),
                old_total == old_internal + old_leaves,
                old_internal == internal_count(ARITY as nat, old_leaves as nat),
                i0 == old_internal,
                t0 == old_total,
                seen@.len() == old_total,
                valid_deletions(deleted@, k as int, i0, t0),
                forall|y: int|
                    0 <= y < old_total ==> (#[trigger] seen@[y] <==> is_deleted(
                        deleted@.take(k as int),
                        y,
                    )),
            decreases deleted.len() - k,
        {
            let idx = deleted[k].0;
            if idx < old_internal || idx >= old_total {
                proof {
                    assert(deleted@[k as int].0 == idx);
                    assert(!valid_deletions(deleted@, deleted@.len() as int, i0, t0));
                    assert(valid_deletions(deleted@, k as int, i0, t0) && !(i0 <= deleted@[k as int].0 < t0));
                }
                return Err(DeletionError::NotALeaf);
            }
            if seen[idx] {
                proof {
                    let w = choose|w: int|
                        0 <= w < deleted@.take(k as int).len() && deleted@.take(k as int)[w].0
                            == idx;
                    assert(deleted@[w] == deleted@[k as int]);
                    assert(!valid_deletions(deleted@, deleted@.len() as int, i0, t0));
                    assert(deleted@[k as int].0 == idx);
                    assert(valid_deletions(deleted@, k as int, i0, t0) && (i0 <= deleted@[k as int].0 < t0));
                }
                return Err(DeletionError::DuplicateDeletion);
            }
            seen.set(idx, true);
            proof {
                let before = deleted@.take(k as int);
                let after = deleted@.take(k + 1);
                assert forall|y: int| 0 <= y < old_total implies (#[trigger] seen@[y] <==> is_deleted(
                    after,
                    y,
                )) by {
                    if is_deleted(before, y) {
                        let w = choose|w: int| 0 <= w < before.len() && before[w].0 == y;
                        assert(after[w].0 == y);
                    }
                    if y == idx {
                        assert(after[k as int].0 == y);
                    }
                    if is_deleted(after, y) && y != idx {
                        let w = choose|w: int| 0 <= w < after.len() && after[w].0 == y;
                        assert(before[w].0 == y);
                    }
                }
                assert forall|i: int, j: int| 0 <= i < j < k + 1 implies deleted@[i]
                    != deleted@[j] by {
                    if j == k && deleted@[i] == deleted@[j] {
                        assert(before[i].0 == idx);
                        assert(is_deleted(before, idx as int));
                    }
                }
            }
            k += 1;
        }
        proof {
            assert(deleted@.take(deleted@.len() as int) =~= deleted@);
            lemma_live_len(deleted@, i0, t0);
            lemma_count_is_filter_len(deleted@, i0, t0);
            lemma_filter_all(deleted@, i0, t0);
        }
        let removed = deleted.len();
        let new_leaves = old_leaves - removed;
        if new_leaves == 0 {
            return Ok(
                DeletionPlan {
                    new_leaves: 0,
                    new_internal: 0,
                    promoted_start: 0,
                    promoted_end: 0,
                    moves: Vec::new(),
                },
            );
        }
        let new_internal = Self::internal_count_for_leaves(new_leaves);
        let new_total = new_internal + new_leaves;
        let ghost i1 = new_internal as int;
        let ghost t1 = new_total as int;
        proof {
            lemma_internal_count_monotone(d, new_leaves as nat, old_leaves as nat);
        }
        let promoted_start = new_internal;
        let promoted_end = if old_internal < new_total {
            old_internal
        } else {
            new_total
        };
        let mut destinations: Vec<TreeIndex> = Vec::new();
        let mut p: usize = promoted_start;
        while p < promoted_end
            invariant
                promoted_start <= p <= promoted_end,
                destinations@.len() == p - promoted_start,
                forall|j: int|
                    0 <= j < destinations@.len() ==> (#[trigger] destinations@[j]).0 == promoted_start
                        + j,
            decreases promoted_end - p,
        {
            destinations.push(TreeIndex(p));
            p += 1;
        }
        let ghost promoted_len = (promoted_end - promoted_start) as int;
        let mut k: usize = 0;
        while k < deleted.len()
            invariant
                k <= deleted.len(),
                0 <= promoted_len,
                promoted_len == promoted_end - promoted_start,
                destinations@.len() == promoted_len + deleted_within(
                    deleted@.take(k as int),
                    i0,
                    t1,
                ).len(),
                i0 == old_internal,
                t1 == new_total,
                forall|j: int|
                    0 <= j < promoted_len ==> (#[trigger] destinations@[j]).0 == promoted_start + j,
                forall|j: int|
                    promoted_len <= j < destinations@.len() ==> #[trigger] destinations@[j]
                        == deleted_within(deleted@.take(k as int), i0, t1)[j - promoted_len],
            decreases deleted.len() - k,
        {
            let idx = deleted[k];
            proof {
                let cur = deleted@.take(k + 1);
                assert(cur.drop_last() =~= deleted@.take(k as int));
                assert(cur.last() == idx);
                assert(deleted_within(cur, i0, t1) == if i0 <= idx.0 < t1 {
                    deleted_within(deleted@.take(k as int), i0, t1).push(idx)
                } else {
                    deleted_within(deleted@.take(k as int), i0, t1)
                });
            }
            let ghost prev_dest = destinations@;
            if old_internal <= idx.0 && idx.0 < new_total {
                destinations.push(idx);
            }
            proof {
                let cur = deleted_within(deleted@.take(k + 1), i0, t1);
                let prev = deleted_within(deleted@.take(k as int), i0, t1);
                assert forall|j: int|
                    promoted_len <= j < destinations@.len() implies #[trigger] destinations@[j]
                    == cur[j - promoted_len] by {
                    if j < prev_dest.len() {
                        assert(destinations@[j] == prev_dest[j]);
                        assert(cur[j - promoted_len] == prev[j - promoted_len]);
                    }
                }
            }
            k += 1;
        }
        proof {
            assert(deleted@.take(deleted@.len() as int) =~= deleted@);
        }
        let source_start = if old_internal > new_total {
            old_internal
        } else {
            new_total
        };
        let ghost s0 = source_start as int;
        let mut sources: Vec<usize> = Vec::new();
        let mut y: usize = source_start;
        while y < old_total
            invariant
                source_start <= y <= old_total,
                s0 == source_start,
                seen@.len() == old_total,
                forall|z: int|
                    0 <= z < old_total ==> (#[trigger] seen@[z] <==> is_deleted(deleted@, z)),
                sources@ == live_positions(deleted@, s0, y as int),
            decreases old_total - y,
        {
            if !seen[y] {
                sources.push(y);
            }
            y += 1;
        }
        proof {
            lemma_live_len(deleted@, s0, t0);
            lemma_count_is_filter_len(deleted@, i0, t1);
            if t1 >= i0 {
                lemma_count_split(deleted@, i0, t1, t0);
            }
            assert(sources@.len() == destinations@.len());
        }
        let mut moves: Vec<(TreeIndex, TreeIndex)> = Vec::new();
        let mut m: usize = 0;
        while m < sources.len()
            invariant
                m <= sources@.len(),
                sources@.len() == destinations@.len(),
                moves@.len() == m,
                forall|j: int|
                    0 <= j < m ==> #[trigger] moves@[j] == (TreeIndex(sources@[j]), destinations@[j]),
            decreases sources@.len() - m,
        {
            moves.push((TreeIndex(sources[m]), destinations[m]));
            m += 1;
        }
        let plan = DeletionPlan { new_leaves, new_internal, promoted_start, promoted_end, moves };
        proof {
            let kept = deleted_within(deleted@, i0, t1);
            let srcs = live_positions(deleted@, s0, t0);
            assert(i0 == internal_count(ARITY as nat, old_leaves as nat));
            assert(new_leaves == old_leaves - deleted@.len());
            assert(i1 == internal_count(ARITY as nat, new_leaves as nat));
            assert((old_leaves - deleted@.len()) as nat == new_leaves as nat);
            assert(i1 == internal_count(ARITY as nat, (old_leaves - deleted@.len()) as nat));
            assert(s0 == if i0 > t1 { i0 } else { t1 });
            assert(deleted@.len() <= old_leaves);
            assert(valid_deletions(deleted@, deleted@.len() as int, i0, t0));
            assert(sources@ == srcs);
            assert(plan.moves@.len() == promoted_len + kept.len());
            assert forall|kk: int| 0 <= kk < plan.moves@.len() implies (#[trigger] plan.moves@[kk]).0.0
                == srcs[kk] by {}
            assert forall|kk: int| 0 <= kk < promoted_len implies (#[trigger] plan.moves@[kk]).1.0
                == i1 + kk by {}
            assert forall|kk: int| promoted_len <= kk < plan.moves@.len() implies (
            #[trigger] plan.moves@[kk]).1 == kept[kk - promoted_len] by {}
        }
        proof {
            let kept = deleted_within(deleted@, i0, t1);
            assert forall|xx: int|
                i1 <= xx < t1 implies (i0 <= xx && !is_deleted(deleted@, xx)) || #[trigger] is_destination(
                plan.moves@,
                xx,
            ) by {
                if xx < i0 {
                    let kk = xx - promoted_start;
                    assert(plan.moves@[kk].1.0 == xx);
                } else if is_deleted(deleted@, xx) {
                    let w = choose|w: int| 0 <= w < deleted@.len() && deleted@[w].0 == xx;
                    lemma_deleted_within_contains(deleted@, i0, t1, w);
                    let j = choose|j: int| 0 <= j < kept.len() && kept[j] == deleted@[w];
                    assert(plan.moves@[promoted_len + j].1.0 == xx);
                }
            }
        }

        Ok(plan)
    }

    /// Number of internal positions needed above `num_leaves` leaves.
    pub fn internal_count_for_leaves(num_leaves: usize) -> (res: usize)
        requires
            ARITY >= 2,
        ensures
            res == internal_count(ARITY as nat, num_leaves as nat),
            res <= num_leaves,
    {
        if num_leaves <= 1 {
            0
        } else {
            proof {
                let n = num_leaves as int;
                let d = ARITY as int;
                assert((n - 2) / (d - 1) + 1 <= n) by (nonlinear_arith)
                    requires
                        n >= 2,
                        d >= 2,
                ;
            }
            (num_leaves - 2) / (ARITY - 1) + 1
        }
    }

    /// Number of positions, internal and leaf, of the layout over
    /// `num_leaves` leaves.
    pub fn total_count_for_leaves(num_leaves: usize) -> (res: usize)
        requires
            ARITY >= 2,
            num_leaves <= usize::MAX / 2,
        ensures
            res == num_leaves + internal_count(ARITY as nat, num_leaves as nat),
    {
        num_leaves + Self::internal_count_for_leaves(num_leaves)
    }

    /// Number of internal positions of the layout over `num_leaves` leaves.
    pub fn num_internal_nodes_from_leaves(num_leaves: usize) -> (res: usize)
        requires
            ARITY >= 2,
        ensures
            res == internal_count(ARITY as nat, num_leaves as nat),
    {
        Self::internal_count_for_leaves(num_leaves)
    }

    /// Number of positions of the layout over `num_leaves` leaves.
    pub fn num_total_nodes_from_leaves(num_leaves: usize) -> (res: usize)
        requires
            ARITY >= 2,
            num_leaves <= usize::MAX / 2,
        ensures
            res == num_leaves + internal_count(ARITY as nat, num_leaves as nat),
    {
        Self::total_count_for_leaves(num_leaves)
    }

    /// First leaf position of the layout over `num_leaves` leaves.
    pub fn leaf_start_for_leaves(num_leaves: usize) -> (res: usize)
        requires
            ARITY >= 2,
        ensures
            res == internal_count(ARITY as nat, num_leaves as nat),
    {
        Self::internal_count_for_leaves(num_leaves)
    }

    /// Leaf positions of the layout over `num_leaves` leaves.
    pub fn leaf_range_for_leaves(num_leaves: usize) -> (res: std::ops::Range<usize>)
        requires
            ARITY >= 2,
            num_leaves <= usize::MAX / 2,
        ensures
            res.start == internal_count(ARITY as nat, num_leaves as nat),
            res.end == res.start + num_leaves,
    {
        let leaf_start = Self::leaf_start_for_leaves(num_leaves);
        leaf_start..leaf_start + num_leaves
    }

    /// Whether `idx` is a leaf position of the layout over `num_leaves` leaves.
    pub fn is_leaf_index_for_leaves(idx: TreeIndex, num_leaves: usize) -> (res: bool)
        requires
            ARITY >= 2,
            num_leaves <= usize::MAX / 2,
        ensures
            res == (internal_count(ARITY as nat, num_leaves as nat) <= idx.0 < internal_count(
                ARITY as nat,
                num_leaves as nat,
            ) + num_leaves),
    {
        let range = Self::leaf_range_for_leaves(num_leaves);
        range.start <= idx.0 && idx.0 < range.end
    }
}

} // verus!
