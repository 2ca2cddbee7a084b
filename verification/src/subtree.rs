use vstd::prelude::*;

use crate::compact_tree::{internal_count, lemma_compact_layout_shape};
use crate::ids::TreeIndex;
use crate::tree_layout::{
    has_index, is_ancestor_of_some, is_proper_ancestor, parents_follow, lemma_ancestor_lt, lemma_ancestor_step,
    lemma_ancestor_trans, lemma_parent_lt, parent_of, TreeLayout,
};

verus! {

/// `x` is `p` or lies below `p`.
pub open spec fn in_subtree(arity: nat, p: nat, x: nat) -> bool {
    x == p || is_proper_ancestor(arity, p, x)
}

/// Number of positions of `[lo, hi)` that lie in the subtree of `p`.
pub open spec fn subtree_count(arity: nat, p: nat, lo: nat, hi: nat) -> nat
    decreases hi,
{
    if hi <= lo {
        0
    } else {
        subtree_count(arity, p, lo, (hi - 1) as nat) + if in_subtree(arity, p, (hi - 1) as nat) {
            1nat
        } else {
            0nat
        }
    }
}

/// Sum of `subtree_count` over the first `j` children of `p`.
pub open spec fn children_count(arity: nat, p: nat, j: nat, lo: nat, hi: nat) -> nat
    decreases j,
{
    if j == 0 {
        0
    } else {
        children_count(arity, p, (j - 1) as nat, lo, hi) + subtree_count(
            arity,
            p * arity + j,
            lo,
            hi,
        )
    }
}

/// How many of the first `j` children of `p` hold `x` in their subtree.
pub open spec fn children_hits(arity: nat, p: nat, j: nat, x: nat) -> nat
    decreases j,
{
    if j == 0 {
        0
    } else {
        children_hits(arity, p, (j - 1) as nat, x) + if in_subtree(arity, p * arity + j, x) {
            1nat
        } else {
            0nat
        }
    }
}

/// Sum of `children_hits` over the positions of `[lo, hi)`.
pub open spec fn hits_count(arity: nat, p: nat, j: nat, lo: nat, hi: nat) -> nat
    decreases hi,
{
    if hi <= lo {
        0
    } else {
        hits_count(arity, p, j, lo, (hi - 1) as nat) + children_hits(arity, p, j, (hi - 1) as nat)
    }
}

/// Number of leaves, positions of `[first_leaf, total)`, below or at `p`.
pub open spec fn leaves_below(arity: nat, first_leaf: nat, total: nat, p: nat) -> nat {
    subtree_count(arity, p, first_leaf, total)
}

/// Sum of `sizes` over `[lo, hi)`.
pub open spec fn range_sum(sizes: Seq<usize>, lo: int, hi: int) -> int
    decreases hi - lo,
{
    if hi <= lo {
        0
    } else {
        range_sum(sizes, lo, hi - 1) + sizes[hi - 1]
    }
}

/// Sum of the sizes of the children of `p` that exist among `total` positions.
pub open spec fn child_sum(arity: nat, sizes: Seq<usize>, p: nat, total: nat) -> int {
    let start = (p * arity + 1) as int;
    let end = if start + arity < total {
        start + arity
    } else {
        total as int
    };
    range_sum(sizes, start, end)
}

/// Ancestors of one position are ordered: of two ancestors-or-self of `x`,
/// one is an ancestor-or-self of the other.
proof fn lemma_ancestor_chain(arity: nat, a: nat, b: nat, x: nat)
    requires
        arity > 0,
        in_subtree(arity, a, x),
        in_subtree(arity, b, x),
    ensures
        in_subtree(arity, a, b) || in_subtree(arity, b, a),
    decreases x,
{
    if a != x && b != x {
        lemma_ancestor_step(arity, a, x);
        lemma_ancestor_step(arity, b, x);
        lemma_parent_lt(arity, x);
        lemma_ancestor_chain(arity, a, b, parent_of(arity, x));
    }
}

/// A proper descendant of `p` lies at or after the first child slot of `p`.
pub proof fn lemma_descendant_ge_first_child(arity: nat, p: nat, x: nat)
    requires
        arity > 0,
        is_proper_ancestor(arity, p, x),
    ensures
        x >= p * arity + 1,
    decreases x,
{
    lemma_ancestor_step(arity, p, x);
    lemma_parent_lt(arity, x);
    let q = parent_of(arity, x);
    if q == p {
        assert(x >= p * arity + 1) by (nonlinear_arith)
            requires
                p == (x - 1) / (arity as int),
                x >= 1,
                arity > 0,
        ;
    } else {
        lemma_descendant_ge_first_child(arity, p, q);
        assert(x >= p * arity + 1) by (nonlinear_arith)
            requires
                q >= p * arity + 1,
                q == (x - 1) / (arity as int),
                x >= 1,
                arity > 0,
        ;
    }
}

/// The `j`-th child of `p` (counting from 1) has `p` as its parent.
pub proof fn lemma_child_parent(arity: nat, p: nat, j: nat)
    requires
        arity > 0,
        1 <= j <= arity,
    ensures
        parent_of(arity, p * arity + j) == p,
        is_proper_ancestor(arity, p, p * arity + j),
{
    let c = p * arity + j;
    assert((c - 1) / (arity as int) == p) by (nonlinear_arith)
        requires
            c == p * arity + j,
            1 <= j <= arity,
    ;
    lemma_ancestor_step(arity, p, c);
}

/// A position strictly below `p` lies below exactly one child of `p`.
proof fn lemma_hits_one(arity: nat, p: nat, x: nat, j: nat)
    requires
        arity > 0,
        x != p,
        j <= arity,
    ensures
        children_hits(arity, p, j, x) == if exists|i: nat|
            1 <= i <= j && #[trigger] in_subtree(arity, p * arity + i, x) {
            1nat
        } else {
            0nat
        },
    decreases j,
{
    if j > 0 {
        lemma_hits_one(arity, p, x, (j - 1) as nat);
        let c = p * arity + j;
        if in_subtree(arity, c, x) {
            assert forall|i: nat|
                1 <= i <= j - 1 implies !#[trigger] in_subtree(arity, p * arity + i, x) by {
                if in_subtree(arity, p * arity + i, x) {
                    let ci = p * arity + i;
                    lemma_ancestor_chain(arity, ci, c, x);
                    assert(ci < c) by (nonlinear_arith)
                        requires
                            ci == p * arity + i,
                            c == p * arity + j,
                            i < j,
                    ;
                    if ci != c && is_proper_ancestor(arity, c, ci) {
                        lemma_ancestor_lt(arity, c, ci);
                    }
                    if is_proper_ancestor(arity, ci, c) {
                        lemma_child_parent(arity, p, j);
                        lemma_ancestor_step(arity, ci, c);
                        lemma_child_parent(arity, p, i);
                        if parent_of(arity, c) != ci {
                            lemma_ancestor_lt(arity, ci, p);
                        }
                    }
                }
            }
            assert(in_subtree(arity, p * arity + j, x));
        } else {
            if exists|i: nat| 1 <= i <= j && #[trigger] in_subtree(arity, p * arity + i, x) {
                let i = choose|i: nat| 1 <= i <= j && #[trigger] in_subtree(arity, p * arity + i, x);
                assert(i <= j - 1);
            }
        }
    }
}

/// `x` lies strictly below `p` exactly when it lies below some child of `p`.
proof fn lemma_below_some_child(arity: nat, p: nat, x: nat)
    requires
        arity > 0,
        x != p,
    ensures
        in_subtree(arity, p, x) <==> exists|i: nat|
            1 <= i <= arity && #[trigger] in_subtree(arity, p * arity + i, x),
    decreases x,
{
    if is_proper_ancestor(arity, p, x) {
        lemma_ancestor_step(arity, p, x);
        lemma_parent_lt(arity, x);
        let q = parent_of(arity, x);
        if q == p {
            assert(p * arity + 1 <= x <= p * arity + arity) by (nonlinear_arith)
                requires
                    p == (x - 1) / (arity as int),
                    x >= 1,
                    arity > 0,
            ;
            let i = (x - p * arity) as nat;
            assert(p * arity + i == x);
            assert(in_subtree(arity, p * arity + i, x));
        } else {
            lemma_below_some_child(arity, p, q);
            let i = choose|i: nat| 1 <= i <= arity && #[trigger] in_subtree(arity, p * arity + i, q);
            let c = p * arity + i;
            if c != q {
                lemma_ancestor_step(arity, c, x);
                lemma_ancestor_trans(arity, c, q, x);
            } else {
                lemma_ancestor_step(arity, c, x);
            }
            assert(in_subtree(arity, p * arity + i, x));
        }
    }
    if exists|i: nat| 1 <= i <= arity && #[trigger] in_subtree(arity, p * arity + i, x) {
        let i = choose|i: nat| 1 <= i <= arity && #[trigger] in_subtree(arity, p * arity + i, x);
        let c = p * arity + i;
        lemma_child_parent(arity, p, i);
        if c != x {
            lemma_ancestor_trans(arity, p, c, x);
        }
    }
}

/// Counting hits over a range distributes over the children.
proof fn lemma_hits_count_split(arity: nat, p: nat, j: nat, lo: nat, hi: nat)
    requires
        j >= 1,
    ensures
        hits_count(arity, p, j, lo, hi) == hits_count(arity, p, (j - 1) as nat, lo, hi)
            + subtree_count(arity, p * arity + j, lo, hi),
    decreases hi,
{
    if hi > lo {
        lemma_hits_count_split(arity, p, j, lo, (hi - 1) as nat);
    }
}

proof fn lemma_children_count_is_hits(arity: nat, p: nat, j: nat, lo: nat, hi: nat)
    ensures
        children_count(arity, p, j, lo, hi) == hits_count(arity, p, j, lo, hi),
    decreases j,
{
    if j == 0 {
        lemma_hits_zero(arity, p, lo, hi);
    } else {
        lemma_children_count_is_hits(arity, p, (j - 1) as nat, lo, hi);
        lemma_hits_count_split(arity, p, j, lo, hi);
    }
}

proof fn lemma_hits_zero(arity: nat, p: nat, lo: nat, hi: nat)
    ensures
        hits_count(arity, p, 0, lo, hi) == 0,
    decreases hi,
{
    if hi > lo {
        lemma_hits_zero(arity, p, lo, (hi - 1) as nat);
    }
}

/// The leaves below an internal position are the leaves below its children.
pub proof fn lemma_count_by_children(arity: nat, p: nat, lo: nat, hi: nat)
    requires
        arity > 0,
        p < lo,
    ensures
        subtree_count(arity, p, lo, hi) == children_count(arity, p, arity, lo, hi),
    decreases hi,
{
    lemma_children_count_is_hits(arity, p, arity, lo, hi);
    lemma_count_matches_hits(arity, p, lo, hi);
}

proof fn lemma_count_matches_hits(arity: nat, p: nat, lo: nat, hi: nat)
    requires
        arity > 0,
        p < lo,
    ensures
        subtree_count(arity, p, lo, hi) == hits_count(arity, p, arity, lo, hi),
    decreases hi,
{
    if hi > lo {
        lemma_count_matches_hits(arity, p, lo, (hi - 1) as nat);
        let x = (hi - 1) as nat;
        lemma_hits_one(arity, p, x, arity);
        lemma_below_some_child(arity, p, x);
    }
}

/// `p` is a proper ancestor of some position of `[lo, hi)`.
pub open spec fn ancestor_of_range(arity: nat, p: nat, lo: nat, hi: nat) -> bool {
    exists|l: nat| lo <= l < hi && #[trigger] is_proper_ancestor(arity, p, l)
}

/// `child_sum`, capped at `usize::MAX`.
pub open spec fn capped_child_sum(arity: nat, sizes: Seq<usize>, p: nat) -> int {
    let s = child_sum(arity, sizes, p, sizes.len() as nat);
    if s <= usize::MAX {
        s
    } else {
        usize::MAX as int
    }
}

/// `p` is a proper ancestor of some position of `stale`.
pub open spec fn ancestor_of_set(arity: nat, p: nat, stale: Set<usize>) -> bool {
    exists|b: usize| #[trigger] stale.contains(b) && is_proper_ancestor(arity, p, b as nat)
}

/// Sum over the positions of `[lo, hi)`: the value in `tree` where the
/// position's timestamp is `cur`, and the value in `fallback` otherwise.
pub open spec fn timestamped_sum(
    tree: Seq<usize>,
    timestamps: Seq<usize>,
    cur: usize,
    fallback: Seq<usize>,
    lo: int,
    hi: int,
) -> int
    decreases hi - lo,
{
    if hi <= lo {
        0
    } else {
        timestamped_sum(tree, timestamps, cur, fallback, lo, hi - 1) + if timestamps[hi - 1] == cur {
            tree[hi - 1] as int
        } else {
            fallback[hi - 1] as int
        }
    }
}

/// A shorter prefix sums to no more.
proof fn lemma_timestamped_sum_monotone(
    tree: Seq<usize>,
    timestamps: Seq<usize>,
    cur: usize,
    fallback: Seq<usize>,
    lo: int,
    mid: int,
    hi: int,
)
    requires
        lo <= mid <= hi,
    ensures
        timestamped_sum(tree, timestamps, cur, fallback, lo, mid) <= timestamped_sum(tree, timestamps, cur, fallback, lo, hi),
    decreases hi - mid,
{
    if mid < hi {
        lemma_timestamped_sum_monotone(tree, timestamps, cur, fallback, lo, mid, hi - 1);
    }
}

/// A range sum only reads the range.
proof fn lemma_range_sum_frame(a: Seq<usize>, b: Seq<usize>, lo: int, hi: int)
    requires
        a.len() == b.len(),
        forall|i: int| lo <= i < hi ==> a[i] == b[i],
    ensures
        range_sum(a, lo, hi) == range_sum(b, lo, hi),
    decreases hi - lo,
{
    if hi > lo {
        lemma_range_sum_frame(a, b, lo, hi - 1);
    }
}

/// Position `q` is recomputed again at some step `k` or later of `order`.
pub open spec fn pending(order: Seq<TreeIndex>, k: int, q: int) -> bool {
    exists|i: int| k <= i < order.len() && (#[trigger] order[i]).0 == q
}

/// A count over `[lo, hi)` is at most the length of the range.
proof fn lemma_count_le(arity: nat, p: nat, lo: nat, hi: nat)
    ensures
        subtree_count(arity, p, lo, hi) <= if hi > lo {
            hi - lo
        } else {
            0
        },
    decreases hi,
{
    if hi > lo {
        lemma_count_le(arity, p, lo, (hi - 1) as nat);
    }
}

/// Without descendants of `p` in `[lo, hi)`, the count is one exactly when
/// `p` itself lies in the range.
proof fn lemma_count_only_self(arity: nat, p: nat, lo: nat, hi: nat)
    requires
        arity > 0,
        hi <= p * arity + 1,
    ensures
        subtree_count(arity, p, lo, hi) == if lo <= p < hi {
            1nat
        } else {
            0nat
        },
    decreases hi,
{
    if hi > lo {
        lemma_count_only_self(arity, p, lo, (hi - 1) as nat);
        let x = (hi - 1) as nat;
        if x != p && is_proper_ancestor(arity, p, x) {
            lemma_descendant_ge_first_child(arity, p, x);
        }
    }
}

/// A count over `[lo, hi)` is the count over `[lo, mid)` plus the count
/// over `[mid, hi)`.
pub proof fn lemma_count_split(arity: nat, p: nat, lo: nat, mid: nat, hi: nat)
    requires
        lo <= mid <= hi,
    ensures
        subtree_count(arity, p, lo, hi) == subtree_count(arity, p, lo, mid) + subtree_count(
            arity,
            p,
            mid,
            hi,
        ),
    decreases hi,
{
    if hi > mid {
        lemma_count_split(arity, p, lo, mid, (hi - 1) as nat);
    }
}

/// A range without positions of the subtree of `p` counts nothing.
pub proof fn lemma_count_zero(arity: nat, p: nat, lo: nat, hi: nat)
    requires
        forall|x: nat| lo <= x < hi ==> !#[trigger] in_subtree(arity, p, x),
    ensures
        subtree_count(arity, p, lo, hi) == 0,
    decreases hi,
{
    if hi > lo {
        lemma_count_zero(arity, p, lo, (hi - 1) as nat);
        assert(!in_subtree(arity, p, (hi - 1) as nat));
    }
}

/// In the compact layout over `leaves` leaves, every internal position lies
/// above some leaf.
pub proof fn lemma_internal_above_leaf(arity: nat, leaves: nat, p: nat)
    requires
        arity >= 2,
        leaves >= 1,
        p < internal_count(arity, leaves),
    ensures
        ancestor_of_range(arity, p, internal_count(arity, leaves), internal_count(arity, leaves) + leaves),
    decreases internal_count(arity, leaves) + leaves - p,
{
    let fl = internal_count(arity, leaves);
    lemma_compact_layout_shape(arity, leaves, p);
    lemma_child_parent(arity, p, 1);
    let c = p * arity + 1;
    assert(c > p) by (nonlinear_arith)
        requires
            c == p * arity + 1,
            arity >= 2,
    ;
    if c >= fl {
        assert(is_proper_ancestor(arity, p, c));
    } else {
        lemma_internal_above_leaf(arity, leaves, c);
        let l = choose|l: nat| fl <= l < fl + leaves && #[trigger] is_proper_ancestor(arity, c, l);
        lemma_ancestor_trans(arity, p, c, l);
    }
}

/// In the compact layout over `leaves` leaves, a leaf position has exactly
/// one leaf below it, itself.
pub proof fn lemma_leaf_counts_one(arity: nat, leaves: nat, p: nat)
    requires
        arity >= 2,
        leaves >= 1,
        internal_count(arity, leaves) <= p < internal_count(arity, leaves) + leaves,
    ensures
        leaves_below(arity, internal_count(arity, leaves), internal_count(arity, leaves) + leaves, p)
            == 1,
{
    lemma_compact_layout_shape(arity, leaves, p);
    lemma_count_only_self(
        arity,
        p,
        internal_count(arity, leaves),
        internal_count(arity, leaves) + leaves,
    );
}

/// No position has more leaves below it than there are leaves.
pub proof fn lemma_leaves_below_bounded(arity: nat, first_leaf: nat, total: nat, p: nat)
    requires
        first_leaf <= total,
    ensures
        leaves_below(arity, first_leaf, total, p) <= total - first_leaf,
{
    lemma_count_le(arity, p, first_leaf, total);
}

/// When every existing child of the internal position `p` carries its leaf
/// count, the sum over those children is the leaf count of `p`.
pub proof fn lemma_child_sum_counts(arity: nat, leaves: nat, sizes: Seq<usize>, p: nat)
    requires
        arity >= 2,
        leaves >= 1,
        p < internal_count(arity, leaves),
        sizes.len() == internal_count(arity, leaves) + leaves,
        forall|c: int|
            p * arity + 1 <= c < sizes.len() && c <= p * arity + arity ==> #[trigger] sizes[c]
                == leaves_below(
                arity,
                internal_count(arity, leaves),
                sizes.len() as nat,
                c as nat,
            ),
    ensures
        child_sum(arity, sizes, p, sizes.len() as nat) == leaves_below(
            arity,
            internal_count(arity, leaves),
            sizes.len() as nat,
            p,
        ),
{
    let fl = internal_count(arity, leaves);
    let total = sizes.len() as nat;
    lemma_count_by_children(arity, p, fl, total);
    lemma_children_prefix(arity, leaves, sizes, p, arity);
}

proof fn lemma_children_prefix(arity: nat, leaves: nat, sizes: Seq<usize>, p: nat, j: nat)
    requires
        arity >= 2,
        leaves >= 1,
        j <= arity,
        p < internal_count(arity, leaves),
        sizes.len() == internal_count(arity, leaves) + leaves,
        forall|c: int|
            p * arity + 1 <= c < sizes.len() && c <= p * arity + arity ==> #[trigger] sizes[c]
                == leaves_below(
                arity,
                internal_count(arity, leaves),
                sizes.len() as nat,
                c as nat,
            ),
    ensures
        children_count(arity, p, j, internal_count(arity, leaves), sizes.len() as nat)
            == range_sum(
            sizes,
            (p * arity + 1) as int,
            if p * arity + 1 + j < sizes.len() {
                (p * arity + 1 + j) as int
            } else {
                sizes.len() as int
            },
        ),
    decreases j,
{
    let fl = internal_count(arity, leaves);
    let total = sizes.len() as nat;
    let start = (p * arity + 1) as int;
    lemma_compact_layout_shape(arity, leaves, p);
    if j > 0 {
        lemma_children_prefix(arity, leaves, sizes, p, (j - 1) as nat);
        let c = p * arity + j;
        if c < total {
            assert(c == start + j - 1);
        } else {
            assert(c * arity + 1 >= total) by (nonlinear_arith)
                requires
                    c >= total,
                    arity >= 2,
            ;
            lemma_count_only_self(arity, c, fl, total);
        }
    }
}

impl<const ARITY: usize> TreeLayout<ARITY> {
    /// Sets the size of `parent` to the sum of the sizes of its children
    /// that exist in `tree`; a position without children is left alone.
    pub fn one_step_recompute_size(parent: TreeIndex, tree: &mut Vec<usize>)
        requires
            ARITY >= 2,
            parent.0 < old(tree).len(),
            parent.0 * ARITY + ARITY + 1 <= usize::MAX,
            parent.0 * ARITY + 1 < old(tree).len() ==> 1 <= child_sum(
                ARITY as nat,
                old(tree)@,
                parent.0 as nat,
                old(tree).len() as nat,
            ) <= usize::MAX,
        ensures
            final(tree)@ == if parent.0 * ARITY + 1 < old(tree).len() {
                old(tree)@.update(
                    parent.0 as int,
                    child_sum(ARITY as nat, old(tree)@, parent.0 as nat, old(tree).len() as nat) as usize,
                )
            } else {
                old(tree)@
            },
    {
        proof {
            assert(parent.0 * ARITY <= parent.0 * ARITY + ARITY) by (nonlinear_arith)
                requires
                    ARITY >= 2,
            ;
        }
        let start = parent.0 * ARITY + 1;
        if start >= tree.len() {
            return;
        }
        let end = if start + ARITY < tree.len() {
            start + ARITY
        } else {
            tree.len()
        };
        let total = Self::sum_range_saturating(tree, start, end);
        tree.set(parent.0, total);
    }

    /// `range_sum(sizes, start, end)`, or `usize::MAX` when that does not fit.
    fn sum_range_saturating(sizes: &Vec<usize>, start: usize, end: usize) -> (res: usize)
        requires
            start <= end <= sizes.len(),
        ensures
            res == if range_sum(sizes@, start as int, end as int) <= usize::MAX {
                range_sum(sizes@, start as int, end as int)
            } else {
                usize::MAX as int
            },
    {
        let mut acc: usize = 0;
        let mut i: usize = start;
        while i < end
            invariant
                start <= i <= end <= sizes.len(),
                acc == if range_sum(sizes@, start as int, i as int) <= usize::MAX {
                    range_sum(sizes@, start as int, i as int)
                } else {
                    usize::MAX as int
                },
                range_sum(sizes@, start as int, i as int) >= 0,
            decreases end - i,
        {
            acc = acc.saturating_add(sizes[i]);
            i += 1;
        }
        acc
    }

    /// Sets `parent` to the sum over its children that exist in `tree` of
    /// the child's value, where the child's timestamp is `cur_timestamp`,
    /// and of its value in `fallback` otherwise; a position without
    /// children is left alone.
    pub fn one_step_recompute_with_timestamp(
        parent: TreeIndex,
        tree: &mut Vec<usize>,
        timestamps: &[usize],
        cur_timestamp: usize,
        fallback: &[usize],
    )
        requires
            ARITY >= 2,
            parent.0 * ARITY + ARITY + 1 <= usize::MAX,
            ({
                let start = parent.0 * ARITY + 1;
                let end = if start + ARITY < old(tree).len() {
                    start + ARITY
                } else {
                    old(tree).len() as int
                };
                start < old(tree).len() ==> {
                    &&& end <= timestamps@.len()
                    &&& end <= fallback@.len()
                    &&& timestamped_sum(old(tree)@, timestamps@, cur_timestamp, fallback@, start as int, end)
                        <= usize::MAX
                }
            }),
        ensures
            ({
                let start = parent.0 * ARITY + 1;
                let end = if start + ARITY < old(tree).len() {
                    start + ARITY
                } else {
                    old(tree).len() as int
                };
                final(tree)@ == if start < old(tree).len() {
                    old(tree)@.update(
                        parent.0 as int,
                        timestamped_sum(old(tree)@, timestamps@, cur_timestamp, fallback@, start as int, end) as usize,
                    )
                } else {
                    old(tree)@
                }
            }),
    {
        let start = parent.0 * ARITY + 1;
        if start >= tree.len() {
            return;
        }
        let end = if start + ARITY < tree.len() {
            start + ARITY
        } else {
            tree.len()
        };
        let mut total: usize = 0;
        let mut idx: usize = start;
        while idx < end
            invariant
                start <= idx <= end <= tree.len(),
                end <= timestamps@.len(),
                end <= fallback@.len(),
                tree@ == old(tree)@,
                total == timestamped_sum(tree@, timestamps@, cur_timestamp, fallback@, start as int, idx as int),
                timestamped_sum(tree@, timestamps@, cur_timestamp, fallback@, start as int, end as int) <= usize::MAX,
            decreases end - idx,
        {
            proof {
                lemma_timestamped_sum_monotone(
                    tree@,
                    timestamps@,
                    cur_timestamp,
                    fallback@,
                    start as int,
                    idx + 1,
                    end as int,
                );
            }
            let value = if timestamps[idx] == cur_timestamp {
                tree[idx]
            } else {
                fallback[idx]
            };
            total = total + value;
            idx += 1;
        }
        proof {
            assert(parent.0 < start) by (nonlinear_arith)
                requires
                    start == parent.0 * ARITY + 1,
                    ARITY >= 2,
            ;
        }
        tree.set(parent.0, total);
    }

    /// Recomputes the size of every proper ancestor of the leaves at
    /// positions `[leaf_start, leaf_end)` of the compact layout over
    /// `num_leaves` leaves, children before parents. When every other
    /// position already held its leaf count, afterwards every position does.
    pub fn rebuild_from_leaves(sizes: &mut Vec<usize>, num_leaves: usize, leaf_start: usize, leaf_end: usize)
        requires
            ARITY >= 2,
            num_leaves >= 1,
            (2 * num_leaves + 1) * (ARITY + 1) <= usize::MAX,
            old(sizes).len() == internal_count(ARITY as nat, num_leaves as nat) + num_leaves,
            internal_count(ARITY as nat, num_leaves as nat) <= leaf_start <= leaf_end <= old(
                sizes,
            ).len(),
        ensures
            final(sizes).len() == old(sizes).len(),
            forall|p: int|
                0 <= p < old(sizes).len() && !ancestor_of_range(ARITY as nat, p as nat, leaf_start as nat, leaf_end as nat)
                    ==> #[trigger] final(sizes)@[p] == old(sizes)@[p],
            forall|p: int|
                0 <= p < old(sizes).len() && ancestor_of_range(ARITY as nat, p as nat, leaf_start as nat, leaf_end as nat)
                    ==> #[trigger] final(sizes)@[p] == capped_child_sum(ARITY as nat, final(sizes)@, p as nat),
            (forall|p: int|
                0 <= p < old(sizes).len() && !ancestor_of_range(ARITY as nat, p as nat, leaf_start as nat, leaf_end as nat)
                    ==> #[trigger] old(sizes)@[p] == leaves_below(
                    ARITY as nat,
                    internal_count(ARITY as nat, num_leaves as nat),
                    old(sizes).len() as nat,
                    p as nat,
                )) ==> forall|p: int|
                0 <= p < final(sizes).len() ==> #[trigger] final(sizes)@[p] == leaves_below(
                    ARITY as nat,
                    internal_count(ARITY as nat, num_leaves as nat),
                    final(sizes).len() as nat,
                    p as nat,
                ),
    {
        Self::rebuild_from_leaves_except(sizes, num_leaves, leaf_start, leaf_end, Ghost(Set::empty()));
    }

    /// [`Self::rebuild_from_leaves`], where the positions above `stale` may
    /// hold wrong sizes before and after: when every position that lies
    /// neither above the range nor above `stale` holds its leaf count,
    /// afterwards every position that does not lie above `stale` does.
    pub(crate) fn rebuild_from_leaves_except(
        sizes: &mut Vec<usize>,
        num_leaves: usize,
        leaf_start: usize,
        leaf_end: usize,
        Ghost(stale): Ghost<Set<usize>>,
    )
        requires
            ARITY >= 2,
            num_leaves >= 1,
            (2 * num_leaves + 1) * (ARITY + 1) <= usize::MAX,
            old(sizes).len() == internal_count(ARITY as nat, num_leaves as nat) + num_leaves,
            internal_count(ARITY as nat, num_leaves as nat) <= leaf_start <= leaf_end <= old(
                sizes,
            ).len(),
        ensures
            final(sizes).len() == old(sizes).len(),
            forall|p: int|
                0 <= p < old(sizes).len() && !ancestor_of_range(ARITY as nat, p as nat, leaf_start as nat, leaf_end as nat)
                    ==> #[trigger] final(sizes)@[p] == old(sizes)@[p],
            forall|p: int|
                0 <= p < old(sizes).len() && ancestor_of_range(ARITY as nat, p as nat, leaf_start as nat, leaf_end as nat)
                    ==> #[trigger] final(sizes)@[p] == capped_child_sum(ARITY as nat, final(sizes)@, p as nat),
            (forall|p: int|
                0 <= p < old(sizes).len() && !ancestor_of_range(ARITY as nat, p as nat, leaf_start as nat, leaf_end as nat)
                    && !ancestor_of_set(ARITY as nat, p as nat, stale) ==> #[trigger] old(sizes)@[p] == leaves_below(
                    ARITY as nat,
                    internal_count(ARITY as nat, num_leaves as nat),
                    old(sizes).len() as nat,
                    p as nat,
                )) ==> forall|p: int|
                0 <= p < final(sizes).len() && !ancestor_of_set(ARITY as nat, p as nat, stale) ==> #[trigger] final(sizes)@[p] == leaves_below(
                    ARITY as nat,
                    internal_count(ARITY as nat, num_leaves as nat),
                    final(sizes).len() as nat,
                    p as nat,
                ),
    {
        if leaf_start >= leaf_end || leaf_start == 0 {
            proof {
                assert forall|p: int| 0 <= p < sizes.len() implies !#[trigger] ancestor_of_range(
                    ARITY as nat,
                    p as nat,
                    leaf_start as nat,
                    leaf_end as nat,
                ) by {
                    if ancestor_of_range(ARITY as nat, p as nat, leaf_start as nat, leaf_end as nat) {
                        let l = choose|l: nat|
                            leaf_start <= l < leaf_end && #[trigger] is_proper_ancestor(
                                ARITY as nat,
                                p as nat,
                                l,
                            );
                        lemma_ancestor_lt(ARITY as nat, p as nat, l);
                    }
                }
            }
            return;
        }
        let ghost d = ARITY as nat;
        let ghost fl = internal_count(d, num_leaves as nat);
        let mut updates: Vec<TreeIndex> = Vec::new();
        let mut l: usize = leaf_start;
        while l < leaf_end
            invariant
                leaf_start <= l <= leaf_end,
                updates@.len() == l - leaf_start,
                forall|k: int| 0 <= k < updates@.len() ==> (#[trigger] updates@[k]).0 == leaf_start + k,
            decreases leaf_end - l,
        {
            updates.push(TreeIndex(l));
            l += 1;
        }
        proof {
            assert forall|p: int| 0 <= p < sizes@.len() implies (#[trigger] is_ancestor_of_some(d, p as nat, updates@)
                <==> ancestor_of_range(d, p as nat, leaf_start as nat, leaf_end as nat)) by {
                if ancestor_of_range(d, p as nat, leaf_start as nat, leaf_end as nat) {
                    let l = choose|l: nat|
                        leaf_start <= l < leaf_end && #[trigger] is_proper_ancestor(d, p as nat, l);
                    let kk = l - leaf_start;
                    assert(updates@[kk].0 == l);
                    assert(is_proper_ancestor(d, p as nat, updates@[kk].0 as nat));
                }
                if is_ancestor_of_some(d, p as nat, updates@) {
                    let kk = choose|kk: int|
                        0 <= kk < updates@.len() && is_proper_ancestor(d, p as nat, #[trigger] updates@[kk].0 as nat);
                    assert(is_proper_ancestor(d, p as nat, updates@[kk].0 as nat));
                }
            }
        }
        Self::recompute_sizes_above_except(sizes, num_leaves, updates.as_slice(), Ghost(stale));
    }

    /// Recomputes the size of every proper ancestor of the positions
    /// `updates` of the compact layout over `num_leaves` leaves, children
    /// before parents (the order of
    /// [`Self::apply_updates_from_slice_with_marker`]). When every other
    /// position already held its leaf count, afterwards every position does.
    pub fn recompute_sizes_above(sizes: &mut Vec<usize>, num_leaves: usize, updates: &[TreeIndex])
        requires
            ARITY >= 2,
            num_leaves >= 1,
            (2 * num_leaves + 1) * (ARITY + 1) <= usize::MAX,
            old(sizes).len() == internal_count(ARITY as nat, num_leaves as nat) + num_leaves,
            forall|k: int| 0 <= k < updates@.len() ==> (#[trigger] updates@[k]).0 < old(sizes).len(),
        ensures
            final(sizes).len() == old(sizes).len(),
            forall|p: int|
                0 <= p < old(sizes).len() && !is_ancestor_of_some(ARITY as nat, p as nat, updates@)
                    ==> #[trigger] final(sizes)@[p] == old(sizes)@[p],
            forall|p: int|
                0 <= p < old(sizes).len() && is_ancestor_of_some(ARITY as nat, p as nat, updates@)
                    ==> #[trigger] final(sizes)@[p] == capped_child_sum(
                    ARITY as nat,
                    final(sizes)@,
                    p as nat,
                ),
            (forall|p: int|
                0 <= p < old(sizes).len() && !is_ancestor_of_some(ARITY as nat, p as nat, updates@)
                    ==> #[trigger] old(sizes)@[p] == leaves_below(
                    ARITY as nat,
                    internal_count(ARITY as nat, num_leaves as nat),
                    old(sizes).len() as nat,
                    p as nat,
                )) ==> forall|p: int|
                0 <= p < final(sizes).len() ==> #[trigger] final(sizes)@[p] == leaves_below(
                    ARITY as nat,
                    internal_count(ARITY as nat, num_leaves as nat),
                    final(sizes).len() as nat,
                    p as nat,
                ),
    {
        Self::recompute_sizes_above_except(sizes, num_leaves, updates, Ghost(Set::empty()));
    }

    /// [`Self::recompute_sizes_above`], where the positions above `stale`
    /// may hold wrong sizes before and after: when every position that lies
    /// neither above `updates` nor above `stale` holds its leaf count,
    /// afterwards every position that does not lie above `stale` does.
    pub(crate) fn recompute_sizes_above_except(
        sizes: &mut Vec<usize>,
        num_leaves: usize,
        updates: &[TreeIndex],
        Ghost(stale): Ghost<Set<usize>>,
    )
        requires
            ARITY >= 2,
            num_leaves >= 1,
            (2 * num_leaves + 1) * (ARITY + 1) <= usize::MAX,
            old(sizes).len() == internal_count(ARITY as nat, num_leaves as nat) + num_leaves,
            forall|k: int| 0 <= k < updates@.len() ==> (#[trigger] updates@[k]).0 < old(sizes).len(),
        ensures
            final(sizes).len() == old(sizes).len(),
            forall|p: int|
                0 <= p < old(sizes).len() && !is_ancestor_of_some(ARITY as nat, p as nat, updates@)
                    ==> #[trigger] final(sizes)@[p] == old(sizes)@[p],
            forall|p: int|
                0 <= p < old(sizes).len() && is_ancestor_of_some(ARITY as nat, p as nat, updates@)
                    ==> #[trigger] final(sizes)@[p] == capped_child_sum(
                    ARITY as nat,
                    final(sizes)@,
                    p as nat,
                ),
            (forall|p: int|
                0 <= p < old(sizes).len() && !is_ancestor_of_some(ARITY as nat, p as nat, updates@)
                    && !ancestor_of_set(ARITY as nat, p as nat, stale) ==> #[trigger] old(sizes)@[p] == leaves_below(
                    ARITY as nat,
                    internal_count(ARITY as nat, num_leaves as nat),
                    old(sizes).len() as nat,
                    p as nat,
                )) ==> forall|p: int|
                0 <= p < final(sizes).len() && !ancestor_of_set(ARITY as nat, p as nat, stale) ==> #[trigger] final(sizes)@[p] == leaves_below(
                    ARITY as nat,
                    internal_count(ARITY as nat, num_leaves as nat),
                    final(sizes).len() as nat,
                    p as nat,
                ),
    {
        let ghost d = ARITY as nat;
        let ghost fl = internal_count(d, num_leaves as nat);
        let ghost initial = sizes@;
        let ghost good = forall|p: int|
            0 <= p < initial.len() && !is_ancestor_of_some(d, p as nat, updates@) && !ancestor_of_set(d, p as nat, stale)
                ==> #[trigger] initial[p] == leaves_below(d, fl, initial.len() as nat, p as nat);
        let total = sizes.len();
        let mut current: Vec<TreeIndex> = Vec::new();
        let mut next: Vec<TreeIndex> = Vec::new();
        let mut seen: Vec<usize> = Vec::new();
        let mut epoch: usize = 0;
        proof {
            assert(total * 3 <= usize::MAX) by (nonlinear_arith)
                requires
                    total <= 2 * num_leaves,
                    (2 * num_leaves + 1) * (ARITY + 1) <= usize::MAX,
                    ARITY >= 2,
            ;
        }
        let order = Self::apply_updates_from_slice_with_marker(
            total,
            updates,
            &mut current,
            &mut next,
            &mut seen,
            &mut epoch,
        );
        proof {
            assert forall|q: int| 0 <= q < total && is_ancestor_of_some(d, q as nat, updates@) implies pending(order@, 0, q) by {
                let kk = choose|kk: int|
                    0 <= kk < updates@.len() && is_proper_ancestor(d, q as nat, #[trigger] updates@[kk].0 as nat);
                assert(has_index(order@, q as nat));
                let i = choose|i: int| 0 <= i < order@.len() && (#[trigger] order@[i]).0 == q;
            }
        }
        let mut k: usize = 0;
        while k < order.len()
            invariant
                k <= order@.len(),
                d == ARITY as nat,
                ARITY >= 2,
                num_leaves >= 1,
                fl == internal_count(d, num_leaves as nat),
                sizes@.len() == total,
                initial.len() == total,
                total == fl + num_leaves,
                (2 * num_leaves + 1) * (ARITY + 1) <= usize::MAX,
                forall|i: int|
                    0 <= i < order@.len() ==> is_ancestor_of_some(d, (#[trigger] order@[i]).0 as nat, updates@),
                forall|kk: int| 0 <= kk < updates@.len() ==> (#[trigger] updates@[kk]).0 < total,
                parents_follow(d, order@),
                forall|q: int|
                    0 <= q < total && is_ancestor_of_some(d, q as nat, updates@) && !pending(order@, 0, q) ==> false,
                forall|q: int|
                    0 <= q < total && !is_ancestor_of_some(d, q as nat, updates@) ==> #[trigger] sizes@[q]
                        == initial[q],
                forall|q: int|
                    0 <= q < total && is_ancestor_of_some(d, q as nat, updates@) && !pending(
                        order@,
                        k as int,
                        q,
                    ) ==> #[trigger] sizes@[q] == capped_child_sum(d, sizes@, q as nat),
                good == (forall|p: int|
                    0 <= p < initial.len() && !is_ancestor_of_some(d, p as nat, updates@) && !ancestor_of_set(d, p as nat, stale)
                        ==> #[trigger] initial[p] == leaves_below(d, fl, initial.len() as nat, p as nat)),
                good ==> forall|q: int|
                    0 <= q < total ==> #[trigger] sizes@[q] == leaves_below(d, fl, total as nat, q as nat)
                        || pending(order@, k as int, q) || ancestor_of_set(d, q as nat, stale),
            decreases order@.len() - k,
        {
            let p = order[k];
            proof {
                assert(is_ancestor_of_some(d, p.0 as nat, updates@));
                let u = choose|u: int| 0 <= u < updates@.len() && is_proper_ancestor(d, p.0 as nat, #[trigger] updates@[u].0 as nat);
                lemma_descendant_ge_first_child(d, p.0 as nat, updates@[u].0 as nat);
                lemma_compact_layout_shape(d, num_leaves as nat, p.0 as nat);
                assert(p.0 * ARITY + ARITY + 1 <= usize::MAX) by (nonlinear_arith)
                    requires
                        p.0 < total,
                        total <= 2 * num_leaves,
                        (2 * num_leaves + 1) * (ARITY + 1) <= usize::MAX,
                        ARITY >= 2,
                ;
                assert(p.0 * ARITY >= p.0) by (nonlinear_arith)
                    requires
                        ARITY >= 2,
                ;
                assert(order@[k as int] == p);
            }
            let start = p.0 * ARITY + 1;
            let end = if start + ARITY < total {
                start + ARITY
            } else {
                total
            };
            let sum = Self::sum_range_saturating(&sizes, start, end);
            let ghost before = sizes@;
            proof {
                if good && !ancestor_of_set(d, p.0 as nat, stale) {
                    assert forall|c: int| start <= c < end implies !#[trigger] ancestor_of_set(d, c as nat, stale) by {
                        if ancestor_of_set(d, c as nat, stale) {
                            let b = choose|b: usize| #[trigger] stale.contains(b) && is_proper_ancestor(d, c as nat, b as nat);
                            assert(parent_of(d, c as nat) == p.0) by (nonlinear_arith)
                                requires
                                    start <= c < start + d,
                                    start == p.0 * d + 1,
                                    d >= 2,
                            ;
                            lemma_ancestor_step(d, p.0 as nat, c as nat);
                            lemma_ancestor_trans(d, p.0 as nat, c as nat, b as nat);
                        }
                    }
                    if forall|c: int| start <= c < end ==> #[trigger] before[c] == leaves_below(d, fl, total as nat, c as nat) {
                        lemma_child_sum_counts(d, num_leaves as nat, before, p.0 as nat);
                        lemma_leaves_below_bounded(d, fl, total as nat, p.0 as nat);
                        assert(sum == leaves_below(d, fl, total as nat, p.0 as nat));
                    } else {
                        let c = choose|c: int| start <= c < end && !(#[trigger] before[c] == leaves_below(d, fl, total as nat, c as nat));
                        assert(pending(order@, k as int, c));
                        let i = choose|i: int| k <= i < order@.len() && (#[trigger] order@[i]).0 == c;
                        assert(c > p.0);
                        assert(i != k);
                        assert(order@[i].0 != 0);
                        let j = choose|j: int| i < j < order@.len() && (#[trigger] order@[j]).0 == parent_of(d, order@[i].0 as nat);
                        assert(parent_of(d, c as nat) == p.0) by (nonlinear_arith)
                            requires
                                start <= c < start + d,
                                start == p.0 * d + 1,
                                d >= 2,
                        ;
                        assert(pending(order@, k + 1, p.0 as int));
                    }
                }
            }
            sizes.set(p.0, sum);
            proof {
                assert(capped_child_sum(d, sizes@, p.0 as nat) == sum) by {
                    lemma_range_sum_frame(before, sizes@, start as int, end as int);
                }
                assert forall|q: int|
                    0 <= q < total && is_ancestor_of_some(d, q as nat, updates@) && !pending(
                        order@,
                        k + 1,
                        q,
                    ) implies #[trigger] sizes@[q] == capped_child_sum(d, sizes@, q as nat) by {
                    if q != p.0 {
                        assert(!pending(order@, k as int, q)) by {
                            if pending(order@, k as int, q) {
                                let i = choose|i: int| k <= i < order@.len() && (#[trigger] order@[i]).0 == q;
                                assert(i != k);
                                assert(pending(order@, k + 1, q));
                            }
                        }
                        let qs = (q * d + 1) as int;
                        let qe = if qs + d < total { qs + d } else { total as int };
                        assert(!(qs <= p.0 < qe)) by {
                            if qs <= p.0 < qe {
                                assert(p.0 != 0);
                                let j = choose|j: int| k < j < order@.len() && (#[trigger] order@[j]).0 == parent_of(d, order@[k as int].0 as nat);
                                assert(qs <= p.0 < qs + d);
                                assert((p.0 - 1) / (d as int) == q) by (nonlinear_arith)
                                    requires
                                        qs <= p.0 < qs + d,
                                        qs == q * d + 1,
                                        d >= 2,
                                        q >= 0,
                                ;
                                assert(parent_of(d, p.0 as nat) == q);
                                assert(pending(order@, k + 1, q));
                            }
                        }
                        lemma_range_sum_frame(before, sizes@, qs, qe);
                    }
                }
                if good {
                    assert forall|q: int| 0 <= q < total implies #[trigger] sizes@[q] == leaves_below(
                        d,
                        fl,
                        total as nat,
                        q as nat,
                    ) || pending(order@, k + 1, q) || ancestor_of_set(d, q as nat, stale) by {
                        if q != p.0 {
                            assert(sizes@[q] == before[q]);
                            if pending(order@, k as int, q) {
                                let i = choose|i: int| k <= i < order@.len() && (#[trigger] order@[i]).0 == q;
                                assert(i != k);
                                assert(pending(order@, k + 1, q));
                            }
                        }
                    }
                }
            }
            k += 1;
        }
    }
}

} // verus!
