use std::collections::{HashMap, HashSet};

use vstd::prelude::*;

use crate::compact_tree::{
    count_deleted, deleted_within, internal_count, is_deleted, is_destination, leaf_block_filled, lemma_compact_layout_shape,
    lemma_count_is_filter_len, lemma_deleted_within_contains, lemma_deleted_within_members, lemma_filter_all,
    lemma_internal_count_monotone, lemma_live_complete, lemma_live_len, live_positions, valid_deletions,
};
use crate::grow::resize_with_value;
use crate::position_set::{filter_positions, positions_in};
use crate::ids::TreeIndex;
use crate::subtree::{
    ancestor_of_range, ancestor_of_set, capped_child_sum, in_subtree, leaves_below, lemma_child_parent, lemma_count_split, lemma_count_zero,
    lemma_descendant_ge_first_child, lemma_internal_above_leaf, lemma_leaf_counts_one, subtree_count,
};
use crate::tree_layout::{
    is_ancestor_of_some, is_proper_ancestor, lemma_ancestor_lt, lemma_ancestor_step, lemma_ancestor_trans, lemma_parent_lt, parent_of, TreeLayout,
};

verus! {

broadcast use vstd::std_specs::hash::group_hash_axioms;

/// Where the leaf at old position `q` of the layout over `n0` leaves goes
/// when `added` leaves join: every old leaf shifts to the new leaf block when
/// the layout outgrows its old size, and otherwise the old leaves that become
/// internal positions move, in order, to the end of the old layout.
pub open spec fn insertion_target(arity: nat, n0: nat, added: nat, q: nat) -> int {
    let i0 = internal_count(arity, n0);
    let t0 = i0 + n0;
    let i1 = internal_count(arity, n0 + added);
    if i1 >= t0 {
        q - i0 + i1
    } else if q < i1 {
        t0 + (q - i0)
    } else {
        q as int
    }
}

/// `n + added` leaves and their layout fit in `usize`.
pub open spec fn old_leaves_bound(n: nat, added: nat) -> bool {
    n + added <= usize::MAX / 2
}

/// First leaf position whose ancestors an insertion recomputes: the whole
/// new leaf block when the layout outgrew its old size, and otherwise the
/// positions after the old layout.
pub open spec fn insertion_rebuild_start(arity: nat, n0: nat, added: nat) -> nat {
    let i0 = internal_count(arity, n0);
    let i1 = internal_count(arity, n0 + added);
    if i1 >= i0 + n0 {
        i1
    } else {
        i0 + n0
    }
}

/// An old leaf position that becomes internal lies directly above a
/// position after the old layout.
proof fn lemma_promoted_above_new(d: nat, n0: nat, n1: nat, x: nat)
    requires
        d >= 2,
        n0 >= 1,
        n0 <= n1,
        internal_count(d, n0) <= x < internal_count(d, n1),
    ensures
        internal_count(d, n0) + n0 <= x * d + 1 < internal_count(d, n1) + n1,
        is_proper_ancestor(d, x, x * d + 1),
{
    lemma_compact_layout_shape(d, n0, x);
    lemma_compact_layout_shape(d, n1, x);
    lemma_child_parent(d, x, 1);
}

/// Before the rebuild of an insertion, every position that lies neither
/// above the rebuilt leaves nor above a kept touched position holds its leaf
/// count in the new layout.
proof fn lemma_insert_sizes_ready(
    d: nat,
    n0: nat,
    added: nat,
    old_sizes: Seq<usize>,
    mid: Seq<usize>,
    stale: Set<usize>,
    kept: Set<usize>,
)
    requires
        d >= 2,
        added >= 1,
        old_sizes.len() == internal_count(d, n0) + n0,
        mid.len() == internal_count(d, n0 + added) + n0 + added,
        forall|p: int| 0 <= p < mid.len() ==> #[trigger] mid[p] == if p < old_sizes.len() {
            old_sizes[p]
        } else {
            1usize
        },
        forall|p: int|
            0 <= p < old_sizes.len() && !ancestor_of_set(d, p as nat, stale) ==> #[trigger] old_sizes[p]
                == leaves_below(d, internal_count(d, n0), old_sizes.len() as nat, p as nat),
        forall|x: usize| #[trigger] stale.contains(x) ==> x < old_sizes.len(),
        internal_count(d, n0 + added) < internal_count(d, n0) + n0 ==> forall|x: usize| #[trigger]
            kept.contains(x) <==> stale.contains(x) && (x < internal_count(d, n0) || x >= internal_count(
                d,
                n0 + added,
            )),
    ensures
        forall|p: int|
            0 <= p < mid.len() && !ancestor_of_range(d, p as nat, insertion_rebuild_start(d, n0, added), mid.len() as nat)
                && !ancestor_of_set(d, p as nat, kept) ==> #[trigger] mid[p] == leaves_below(
                d,
                internal_count(d, n0 + added),
                mid.len() as nat,
                p as nat,
            ),
{
    let n1 = n0 + added;
    let i0 = internal_count(d, n0);
    let t0 = i0 + n0;
    let i1 = internal_count(d, n1);
    let t1 = i1 + n1;
    let lo = insertion_rebuild_start(d, n0, added);
    lemma_internal_count_monotone(d, n0, n1);
    assert forall|p: int|
        0 <= p < mid.len() && !ancestor_of_range(d, p as nat, lo, t1) && !ancestor_of_set(d, p as nat, kept)
            implies #[trigger] mid[p] == leaves_below(d, i1, t1, p as nat) by {
        let pn = p as nat;
        if p >= i1 {
            lemma_leaf_counts_one(d, n1, pn);
            if p < t0 {
                lemma_compact_layout_shape(d, n0, pn);
                if ancestor_of_set(d, pn, stale) {
                    let b = choose|b: usize| #[trigger] stale.contains(b) && is_proper_ancestor(d, pn, b as nat);
                    lemma_descendant_ge_first_child(d, pn, b as nat);
                }
                lemma_leaf_counts_one(d, n0, pn);
            }
        } else if i1 >= t0 {
            lemma_internal_above_leaf(d, n1, pn);
        } else if p >= i0 {
            lemma_promoted_above_new(d, n0, n1, pn);
            assert(is_proper_ancestor(d, pn, pn * d + 1));
        } else {
            assert(!ancestor_of_set(d, pn, stale)) by {
                if ancestor_of_set(d, pn, stale) {
                    let b = choose|b: usize| #[trigger] stale.contains(b) && is_proper_ancestor(d, pn, b as nat);
                    if !kept.contains(b) {
                        lemma_promoted_above_new(d, n0, n1, b as nat);
                        lemma_ancestor_trans(d, pn, b as nat, (b as nat) * d + 1);
                        assert(is_proper_ancestor(d, pn, (b as nat) * d + 1));
                    }
                }
            }
            lemma_count_split(d, pn, i0, i1, t0);
            assert forall|x: nat| i0 <= x < i1 implies !#[trigger] in_subtree(d, pn, x) by {
                if is_proper_ancestor(d, pn, x) {
                    lemma_promoted_above_new(d, n0, n1, x);
                    lemma_ancestor_trans(d, pn, x, x * d + 1);
                    assert(is_proper_ancestor(d, pn, x * d + 1));
                }
            }
            lemma_count_zero(d, pn, i0, i1);
            lemma_count_split(d, pn, i1, t0, t1);
            assert forall|x: nat| t0 <= x < t1 implies !#[trigger] in_subtree(d, pn, x) by {
                if is_proper_ancestor(d, pn, x) {
                    assert(is_proper_ancestor(d, pn, x));
                }
            }
            lemma_count_zero(d, pn, t0, t1);
        }
    }
}

/// When a layout shrinks from `n0` to `n1` leaves, an internal position of
/// the new layout that lies above a cut-off position lies above an old
/// internal position that becomes a leaf, or above the last new position.
proof fn lemma_tail_above(d: nat, n0: nat, n1: nat, p: nat, x: nat)
    requires
        d >= 2,
        1 <= n1 <= n0,
        p < internal_count(d, n1),
        internal_count(d, n1) + n1 <= x < internal_count(d, n0) + n0,
        is_proper_ancestor(d, p, x),
    ensures
        ancestor_of_range(
            d,
            p,
            internal_count(d, n1),
            if internal_count(d, n0) < internal_count(d, n1) + n1 {
                internal_count(d, n0)
            } else {
                internal_count(d, n1) + n1
            },
        ) || is_proper_ancestor(d, p, (internal_count(d, n1) + n1 - 1) as nat),
    decreases x,
{
    let i0 = internal_count(d, n0);
    let t0 = i0 + n0;
    let i1 = internal_count(d, n1);
    let t1 = i1 + n1;
    let pe = if i0 < t1 { i0 } else { t1 };
    let last = (t1 - 1) as nat;
    lemma_compact_layout_shape(d, n1, (i1 - 1) as nat);
    lemma_compact_layout_shape(d, n1, i1);
    let di = d as int;
    assert(parent_of(d, last) == i1 - 1) by (nonlinear_arith)
        requires
            (i1 - 1) * di + 1 < t1,
            i1 * di + 1 >= t1,
            di >= 2,
            i1 >= 1,
            last == t1 - 1,
            parent_of(d, last) == (last - 1) / di,
    ;
    lemma_ancestor_step(d, (i1 - 1) as nat, last);
    lemma_ancestor_step(d, p, x);
    lemma_parent_lt(d, x);
    let y = parent_of(d, x);
    assert(y >= i1 - 1 && y * di <= x - 1) by (nonlinear_arith)
        requires
            x >= t1,
            y == (x - 1) / di,
            (i1 - 1) * di + 1 < t1,
            di >= 2,
            i1 >= 1,
    ;
    if y != p {
        lemma_ancestor_lt(d, p, y);
        if y == i1 - 1 {
            lemma_ancestor_trans(d, p, y, last);
        } else if y >= t1 {
            lemma_tail_above(d, n0, n1, p, y);
        } else {
            lemma_compact_layout_shape(d, n0, y);
            assert(is_proper_ancestor(d, p, y));
        }
    }
}

/// Before the rebuild of a deletion, every position that lies neither above
/// the promoted positions nor above a touched position holds its leaf count
/// in the new layout.
proof fn lemma_delete_sizes_ready(
    d: nat,
    n0: nat,
    n1: nat,
    old_sizes: Seq<usize>,
    mid: Seq<usize>,
    stale: Set<usize>,
    kept: Set<usize>,
    dests: Set<int>,
    gone: Set<int>,
)
    requires
        d >= 2,
        1 <= n1 <= n0,
        old_sizes.len() == internal_count(d, n0) + n0,
        old_sizes.len() <= usize::MAX,
        mid.len() == internal_count(d, n1) + n1,
        forall|p: int| 0 <= p < mid.len() ==> #[trigger] mid[p] == if dests.contains(p) {
            1usize
        } else {
            old_sizes[p]
        },
        forall|p: int|
            0 <= p < old_sizes.len() && !ancestor_of_set(d, p as nat, stale) ==> #[trigger] old_sizes[p]
                == leaves_below(d, internal_count(d, n0), old_sizes.len() as nat, p as nat),
        forall|x: usize| #[trigger] stale.contains(x) ==> internal_count(d, n0) <= x < old_sizes.len(),
        forall|x: int| #[trigger] dests.contains(x) ==> internal_count(d, n1) <= x < mid.len(),
        forall|x: int|
            internal_count(d, n1) <= x < mid.len() ==> #[trigger] dests.contains(x) || (internal_count(d, n0)
                <= x && !gone.contains(x)),
        forall|x: int| internal_count(d, n0) <= x < mid.len() && #[trigger] gone.contains(x) ==> dests.contains(x),
        forall|x: usize|
            #[trigger] stale.contains(x) && internal_count(d, n0) <= x < mid.len() && !gone.contains(x as int)
                ==> kept.contains(x),
        forall|x: int| #[trigger] dests.contains(x) && x >= internal_count(d, n0) ==> kept.contains(x as usize),
        n1 > 1 && !(mid.len() - 1 < internal_count(d, n0)) ==> kept.contains((mid.len() - 1) as usize),
    ensures
        forall|p: int|
            0 <= p < mid.len() && !ancestor_of_range(
                d,
                p as nat,
                internal_count(d, n1),
                if internal_count(d, n0) < mid.len() {
                    internal_count(d, n0)
                } else {
                    mid.len() as nat
                },
            ) && !ancestor_of_set(d, p as nat, kept) ==> #[trigger] mid[p] == leaves_below(
                d,
                internal_count(d, n1),
                mid.len() as nat,
                p as nat,
            ),
{
    let i0 = internal_count(d, n0);
    let t0 = i0 + n0;
    let i1 = internal_count(d, n1);
    let t1 = i1 + n1;
    let pe = if i0 < t1 { i0 } else { t1 };
    lemma_internal_count_monotone(d, n1, n0);
    assert forall|p: int|
        0 <= p < t1 && !ancestor_of_range(d, p as nat, i1, pe) && !ancestor_of_set(d, p as nat, kept)
            implies #[trigger] mid[p] == leaves_below(d, i1, t1, p as nat) by {
        let pn = p as nat;
        if p >= i1 {
            lemma_leaf_counts_one(d, n1, pn);
            if !dests.contains(p) {
                lemma_compact_layout_shape(d, n0, pn);
                if ancestor_of_set(d, pn, stale) {
                    let b = choose|b: usize| #[trigger] stale.contains(b) && is_proper_ancestor(d, pn, b as nat);
                    lemma_descendant_ge_first_child(d, pn, b as nat);
                }
                lemma_leaf_counts_one(d, n0, pn);
            }
        } else if i0 >= t1 {
            lemma_internal_above_leaf(d, n1, pn);
        } else {
            assert(!dests.contains(p));
            assert forall|x: nat| t1 <= x < t0 implies !#[trigger] is_proper_ancestor(d, pn, x) by {
                if is_proper_ancestor(d, pn, x) {
                    lemma_tail_above(d, n0, n1, pn, x);
                    let last = (t1 - 1) as usize;
                    assert(n1 > 1);
                    if is_proper_ancestor(d, pn, last as nat) {
                        if last < i0 {
                            assert(i1 <= last < pe);
                            assert(ancestor_of_range(d, pn, i1, pe));
                        } else {
                            assert(kept.contains(last));
                            assert(ancestor_of_set(d, pn, kept));
                        }
                    }
                }
            }
            assert(!ancestor_of_set(d, pn, stale)) by {
                if ancestor_of_set(d, pn, stale) {
                    let b = choose|b: usize| #[trigger] stale.contains(b) && is_proper_ancestor(d, pn, b as nat);
                    if b < t1 {
                        if gone.contains(b as int) {
                            assert(dests.contains(b as int));
                            assert(kept.contains(b));
                        } else {
                            assert(kept.contains(b));
                        }
                    } else {
                        assert(is_proper_ancestor(d, pn, b as nat));
                    }
                }
            }
            lemma_count_split(d, pn, i0, t1, t0);
            assert forall|x: nat| t1 <= x < t0 implies !#[trigger] in_subtree(d, pn, x) by {
                assert(!is_proper_ancestor(d, pn, x));
            }
            lemma_count_zero(d, pn, t1, t0);
            lemma_count_split(d, pn, i1, i0, t1);
            assert forall|x: nat| i1 <= x < i0 implies !#[trigger] in_subtree(d, pn, x) by {
                if is_proper_ancestor(d, pn, x) {
                    assert(is_proper_ancestor(d, pn, x));
                }
            }
            lemma_count_zero(d, pn, i1, i0);
        }
    }
}

/// The positions of `nodes` in `placement`, in order.
pub open spec fn positions_of(placement: Map<usize, TreeIndex>, nodes: Seq<usize>) -> Seq<TreeIndex> {
    nodes.map_values(|v: usize| placement[v])
}

/// The first `k` of `nodes` are in `placement`, none repeated.
pub open spec fn deletion_valid(placement: Map<usize, TreeIndex>, nodes: Seq<usize>, k: int) -> bool {
    &&& forall|j: int| 0 <= j < k ==> placement.contains_key(#[trigger] nodes[j])
    &&& forall|i: int, j: int| 0 <= i < j < k ==> nodes[i] != nodes[j]
}

/// End of the old internal positions that become leaf positions when the
/// layout over `n0` leaves shrinks to `n1` leaves; they start at the new
/// first leaf.
pub open spec fn promoted_end(arity: nat, n0: nat, n1: nat) -> nat {
    let i0 = internal_count(arity, n0);
    let t1 = internal_count(arity, n1) + n1;
    if i0 < t1 {
        i0
    } else {
        t1
    }
}

/// The surviving leaves cut off when the leaves at `removed` leave the
/// layout over `n0` leaves, in increasing order.
pub open spec fn tail_sources(arity: nat, n0: nat, removed: Seq<TreeIndex>) -> Seq<usize> {
    let n1 = (n0 - removed.len()) as nat;
    let i0 = internal_count(arity, n0);
    let t1 = internal_count(arity, n1) + n1;
    live_positions(removed, if i0 > t1 { i0 as int } else { t1 as int }, (i0 + n0) as int)
}

/// Where the `k`-th cut-off survivor goes: first the promoted positions in
/// order, then the removed positions that stay inside the new layout, in
/// removal order.
pub open spec fn tail_destination(arity: nat, n0: nat, removed: Seq<TreeIndex>, k: int) -> int {
    let n1 = (n0 - removed.len()) as nat;
    let i0 = internal_count(arity, n0);
    let i1 = internal_count(arity, n1);
    let t1 = i1 + n1;
    let promoted = promoted_end(arity, n0, n1) - i1;
    if k < promoted {
        i1 + k
    } else {
        deleted_within(removed, i0 as int, t1 as int)[k - promoted].0 as int
    }
}

/// Position `x` receives a cut-off survivor.
pub open spec fn is_tail_destination(arity: nat, n0: nat, removed: Seq<TreeIndex>, x: int) -> bool {
    exists|k: int| 0 <= k < tail_sources(arity, n0, removed).len() && #[trigger] tail_destination(arity, n0, removed, k) == x
}

/// Where the survivor at old position `q` goes when the leaves at `removed`
/// leave the layout over `n0` leaves: it stays inside the new layout, and a
/// cut-off one moves to its destination.
pub open spec fn deletion_target(arity: nat, n0: nat, removed: Seq<TreeIndex>, q: nat) -> int {
    let n1 = (n0 - removed.len()) as nat;
    let t1 = internal_count(arity, n1) + n1;
    if q < t1 {
        q as int
    } else {
        tail_destination(
            arity,
            n0,
            removed,
            choose|k: int| 0 <= k < tail_sources(arity, n0, removed).len() && tail_sources(arity, n0, removed)[k] == q,
        )
    }
}

/// The two maps of a tree describe the same placement: each node's
/// position holds that node, and each held position is its node's position.
spec fn maps_agree(nodes: Map<usize, TreeIndex>, slots: Map<usize, usize>) -> bool {
    &&& forall|v: usize| #[trigger]
        nodes.contains_key(v) ==> slots.contains_key(nodes[v].0) && slots[nodes[v].0] == v
    &&& forall|x: usize| #[trigger]
        slots.contains_key(x) ==> nodes.contains_key(slots[x]) && nodes[slots[x]].0 == x
}

/// Position of the leaf that sat at `o` after the first `m` of `moves`.
spec fn moved_position(moves: Seq<(TreeIndex, TreeIndex)>, o: int, m: int) -> int {
    let k = choose|k: int| 0 <= k < moves.len() && (#[trigger] moves[k]).0.0 == o;
    if 0 <= k < m && k < moves.len() && moves[k].0.0 == o {
        moves[k].1.0 as int
    } else {
        o
    }
}

/// With increasing sources, the leaf at the source of move `k` is at its
/// destination exactly after that move.
proof fn lemma_moved_position(moves: Seq<(TreeIndex, TreeIndex)>, o: int, m: int, k: int)
    requires
        0 <= k < moves.len(),
        moves[k].0.0 == o,
        forall|a: int, b: int| 0 <= a < b < moves.len() ==> (#[trigger] moves[a]).0.0 < (#[trigger] moves[b]).0.0,
    ensures
        moved_position(moves, o, m) == if k < m {
            moves[k].1.0 as int
        } else {
            o
        },
{
    let kk = choose|kk: int| 0 <= kk < moves.len() && (#[trigger] moves[kk]).0.0 == o;
    assert(0 <= kk < moves.len() && moves[kk].0.0 == o);
    if kk < k {
        assert(moves[kk].0.0 < moves[k].0.0);
    } else if kk > k {
        assert(moves[k].0.0 < moves[kk].0.0);
    }
}

/// A leaf that is no move's source stays where it is.
proof fn lemma_not_moved(moves: Seq<(TreeIndex, TreeIndex)>, o: int, m: int)
    requires
        forall|k: int| 0 <= k < moves.len() ==> (#[trigger] moves[k]).0.0 != o,
    ensures
        moved_position(moves, o, m) == o,
{
}

/// After the cut-off survivors move, the nodes fill exactly the leaf
/// positions of the new layout, each at its deletion target.
proof fn lemma_delete_placement(
    d: nat,
    n0: nat,
    removed: Seq<TreeIndex>,
    deleted: Seq<usize>,
    old_nodes: Map<usize, TreeIndex>,
    old_slots: Map<usize, usize>,
    moves: Seq<(TreeIndex, TreeIndex)>,
    detached: Map<usize, TreeIndex>,
    nodes: Map<usize, TreeIndex>,
    slots: Map<usize, usize>,
)
    requires
        d >= 2,
        removed.len() < n0,
        n0 <= usize::MAX / 2,
        ({
            let n1 = (n0 - removed.len()) as nat;
            let i0 = internal_count(d, n0) as int;
            let t0 = i0 + n0;
            let i1 = internal_count(d, n1) as int;
            let t1 = i1 + n1;
            let lo_src = if i0 > t1 { i0 } else { t1 };
            let srcs = live_positions(removed, lo_src, t0);
            &&& forall|v: usize| #[trigger] old_nodes.contains_key(v) ==> i0 <= old_nodes[v].0 < t0 && old_slots.contains_key(
                old_nodes[v].0,
            ) && old_slots[old_nodes[v].0] == v
            &&& forall|x: usize| #[trigger] old_slots.contains_key(x) <==> i0 <= x < t0
            &&& forall|x: usize| #[trigger] old_slots.contains_key(x) ==> old_nodes.contains_key(old_slots[x]) && old_nodes[old_slots[x]].0 == x
            &&& forall|v: usize| #[trigger] old_nodes.contains_key(v) ==> (deleted.contains(v) <==> is_deleted(
                removed,
                old_nodes[v].0 as int,
            ))
            &&& moves.len() == srcs.len()
            &&& forall|k: int| 0 <= k < moves.len() ==> (#[trigger] moves[k]).0.0 == srcs[k]
            &&& forall|k: int| 0 <= k < moves.len() ==> (#[trigger] moves[k]).1.0 == tail_destination(d, n0, removed, k)
                && i1 <= moves[k].1.0 < t1
            &&& forall|a: int, b: int| 0 <= a < b < moves.len() ==> (#[trigger] moves[a]).0.0 < (#[trigger] moves[b]).0.0
            &&& leaf_block_filled(moves, removed, i0, i1, t1)
            &&& forall|v: usize| #[trigger] detached.contains_key(v) <==> old_nodes.contains_key(v) && !deleted.contains(v)
            &&& forall|v: usize| #[trigger] detached.contains_key(v) ==> detached[v] == old_nodes[v]
            &&& forall|v: usize| #[trigger] nodes.contains_key(v) <==> detached.contains_key(v)
            &&& forall|v: usize| #[trigger] detached.contains_key(v) ==> nodes[v].0 == moved_position(
                moves,
                detached[v].0 as int,
                moves.len() as int,
            )
            &&& maps_agree(nodes, slots)
        }),
    ensures
        ({
            let n1 = (n0 - removed.len()) as nat;
            let i1 = internal_count(d, n1) as int;
            let t1 = i1 + n1;
            &&& forall|x: usize| #[trigger] slots.contains_key(x) <==> i1 <= x < t1
            &&& forall|v: usize| #[trigger] nodes.contains_key(v) ==> nodes[v].0 == deletion_target(
                d,
                n0,
                removed,
                old_nodes[v].0 as nat,
            )
        }),
{
    let n1 = (n0 - removed.len()) as nat;
    let i0 = internal_count(d, n0) as int;
    let t0 = i0 + n0;
    let i1 = internal_count(d, n1) as int;
    let t1 = i1 + n1;
    let lo_src = if i0 > t1 { i0 } else { t1 };
    let srcs = live_positions(removed, lo_src, t0);
    lemma_internal_count_monotone(d, n1, n0);
    lemma_live_len(removed, lo_src, t0);
    assert forall|x: usize| #[trigger] slots.contains_key(x) implies i1 <= x < t1 by {
        let w = slots[x];
        let ow = old_nodes[w].0 as int;
        assert(detached.contains_key(w));
        if exists|k: int| 0 <= k < moves.len() && (#[trigger] moves[k]).0.0 == ow {
            let k = choose|k: int| 0 <= k < moves.len() && (#[trigger] moves[k]).0.0 == ow;
            lemma_moved_position(moves, ow, moves.len() as int, k);
        } else {
            lemma_not_moved(moves, ow, moves.len() as int);
            if ow >= t1 {
                lemma_live_complete(removed, lo_src, t0, ow);
                let i = choose|i: int| 0 <= i < srcs.len() && #[trigger] srcs[i] == ow;
                assert(moves[i].0.0 == ow);
            }
        }
    }
    assert forall|x: usize| i1 <= x < t1 implies #[trigger] slots.contains_key(x) by {
        if i0 <= x && !is_deleted(removed, x as int) {
            let v = old_slots[x];
            assert(old_slots.contains_key(x));
            assert(!deleted.contains(v));
            assert forall|k: int| 0 <= k < moves.len() implies (#[trigger] moves[k]).0.0 != x as int by {
                assert(srcs[k] >= lo_src);
            }
            lemma_not_moved(moves, x as int, moves.len() as int);
            assert(nodes.contains_key(v));
        } else {
            assert(is_destination(moves, x as int));
            let k = choose|k: int| 0 <= k < moves.len() && (#[trigger] moves[k]).1.0 == x;
            let sk = moves[k].0.0;
            let v = old_slots[sk];
            assert(srcs[k] >= lo_src && !is_deleted(removed, srcs[k] as int));
            assert(old_slots.contains_key(sk));
            assert(!deleted.contains(v));
            lemma_moved_position(moves, sk as int, moves.len() as int, k);
            assert(nodes.contains_key(v));
        }
    }
    assert forall|v: usize| #[trigger] nodes.contains_key(v) implies nodes[v].0 == deletion_target(
        d,
        n0,
        removed,
        old_nodes[v].0 as nat,
    ) by {
        let ov = old_nodes[v].0 as int;
        assert(detached.contains_key(v));
        if ov < t1 {
            assert forall|k: int| 0 <= k < moves.len() implies (#[trigger] moves[k]).0.0 != ov by {
                assert(srcs[k] >= lo_src);
            }
            lemma_not_moved(moves, ov, moves.len() as int);
        } else {
            lemma_live_complete(removed, lo_src, t0, ov);
            let k = choose|k: int| 0 <= k < srcs.len() && #[trigger] srcs[k] == ov;
            lemma_moved_position(moves, ov, moves.len() as int, k);
            let kk = choose|kk: int|
                0 <= kk < tail_sources(d, n0, removed).len() && tail_sources(d, n0, removed)[kk] == ov as nat;
            assert(tail_sources(d, n0, removed) == srcs);
            assert(0 <= kk < srcs.len() && srcs[kk] == ov);
            if kk < k {
                assert(srcs[kk] < srcs[k]);
            } else if kk > k {
                assert(srcs[k] < srcs[kk]);
            }
        }
    }
}

/// The touched positions after a deletion, as the separate steps leave them.
proof fn lemma_deletion_touched(
    d: nat,
    n0: nat,
    removed: Seq<TreeIndex>,
    moves: Seq<(TreeIndex, TreeIndex)>,
    stale: Set<usize>,
    moved: Seq<usize>,
    kept: Set<usize>,
)
    requires
        d >= 2,
        removed.len() < n0,
        n0 <= usize::MAX / 2,
        ({
            let n1 = (n0 - removed.len()) as nat;
            let i0 = internal_count(d, n0) as int;
            let i1 = internal_count(d, n1) as int;
            let t1 = i1 + n1;
            let pe = promoted_end(d, n0, n1) as int;
            let srcs = tail_sources(d, n0, removed);
            &&& moves.len() == srcs.len()
            &&& forall|k: int| 0 <= k < moves.len() ==> (#[trigger] moves[k]).0.0 == srcs[k]
            &&& forall|k: int| 0 <= k < moves.len() ==> (#[trigger] moves[k]).1.0 == tail_destination(d, n0, removed, k)
            &&& forall|k: int| 0 <= k < srcs.len() ==> #[trigger] srcs[k] >= t1
            &&& forall|x: usize| #[trigger] moved.contains(x) <==> exists|i: int|
                0 <= i < moves.len() && (#[trigger] moves[i]).1.0 == x && stale.contains(moves[i].0.0) && !(i1 <= x < pe)
            &&& forall|x: usize| #[trigger] kept.contains(x) <==> ((stale.contains(x) && !exists|i: int|
                0 <= i < moves.len() && (#[trigger] moves[i]).0.0 == x) && i0 <= x < t1 && !is_deleted(removed, x as int))
                || moved.contains(x) || (i0 <= x && exists|k: int| 0 <= k < moves.len() && (#[trigger] moves[k]).1.0 == x) || (n1
                > 1 && x == t1 - 1 && !(i1 <= x < pe))
        }),
    ensures
        ({
            let n1 = (n0 - removed.len()) as nat;
            let i0 = internal_count(d, n0) as int;
            let i1 = internal_count(d, n1) as int;
            let t1 = i1 + n1;
            let pe = promoted_end(d, n0, n1) as int;
            let srcs = tail_sources(d, n0, removed);
            forall|x: usize| #[trigger] kept.contains(x) <==> (stale.contains(x) && i0 <= x < t1 && !is_deleted(
                removed,
                x as int,
            )) || (exists|k: int|
                0 <= k < srcs.len() && tail_destination(d, n0, removed, k) == x && ((stale.contains(srcs[k]) && !(i1 <= x < pe))
                    || x >= i0)) || (n1 > 1 && x == t1 - 1 && !(i1 <= x < pe))
        }),
{
    let n1 = (n0 - removed.len()) as nat;
    let i0 = internal_count(d, n0) as int;
    let i1 = internal_count(d, n1) as int;
    let t1 = i1 + n1;
    let pe = promoted_end(d, n0, n1) as int;
    let srcs = tail_sources(d, n0, removed);
    assert forall|x: usize| #[trigger] kept.contains(x) <==> (stale.contains(x) && i0 <= x < t1 && !is_deleted(
        removed,
        x as int,
    )) || (exists|k: int|
        0 <= k < srcs.len() && tail_destination(d, n0, removed, k) == x && ((stale.contains(srcs[k]) && !(i1 <= x < pe))
            || x >= i0)) || (n1 > 1 && x == t1 - 1 && !(i1 <= x < pe)) by {
        if x < t1 {
            assert forall|i: int| 0 <= i < moves.len() implies (#[trigger] moves[i]).0.0 != x by {
                assert(srcs[i] >= t1);
            }
        }
        if moved.contains(x) {
            let i = choose|i: int|
                0 <= i < moves.len() && (#[trigger] moves[i]).1.0 == x && stale.contains(moves[i].0.0) && !(i1 <= x < pe);
            assert(tail_destination(d, n0, removed, i) == x);
        }
        if i0 <= x && exists|i: int| 0 <= i < moves.len() && (#[trigger] moves[i]).1.0 == x {
            let i = choose|i: int| 0 <= i < moves.len() && (#[trigger] moves[i]).1.0 == x;
            assert(tail_destination(d, n0, removed, i) == x);
        }
        if exists|k: int|
            0 <= k < srcs.len() && tail_destination(d, n0, removed, k) == x && ((stale.contains(srcs[k]) && !(i1 <= x < pe))
                || x >= i0) {
            let k = choose|k: int|
                0 <= k < srcs.len() && tail_destination(d, n0, removed, k) == x && ((stale.contains(srcs[k]) && !(i1 <= x < pe))
                    || x >= i0);
            assert(moves[k].1.0 == x);
            if stale.contains(srcs[k]) && !(i1 <= x < pe) {
                assert(moved.contains(x));
            }
        }
    }
}

/// Before the rebuild of a deletion, every position that lies neither above
/// the promoted positions nor above a touched position holds its leaf count.
proof fn lemma_deletion_sizes(
    d: nat,
    n0: nat,
    removed: Seq<TreeIndex>,
    moves: Seq<(TreeIndex, TreeIndex)>,
    old_sizes: Seq<usize>,
    mid: Seq<usize>,
    stale: Set<usize>,
    kept: Set<usize>,
)
    requires
        d >= 2,
        1 <= n0 - removed.len(),
        removed.len() <= n0,
        n0 <= usize::MAX / 2,
        ({
            let n1 = (n0 - removed.len()) as nat;
            let i0 = internal_count(d, n0) as int;
            let t0 = i0 + n0;
            let i1 = internal_count(d, n1) as int;
            let t1 = i1 + n1;
            let pe = promoted_end(d, n0, n1) as int;
            let holes = deleted_within(removed, i0, t1);
            &&& old_sizes.len() == t0
            &&& mid.len() == t1
            &&& forall|p: int| 0 <= p < t1 ==> #[trigger] mid[p] == if is_destination(moves, p) {
                1usize
            } else {
                old_sizes[p]
            }
            &&& forall|p: int|
                0 <= p < t0 && !ancestor_of_set(d, p as nat, stale) ==> #[trigger] old_sizes[p] == leaves_below(
                    d,
                    i0 as nat,
                    t0 as nat,
                    p as nat,
                )
            &&& forall|x: usize| #[trigger] stale.contains(x) ==> i0 <= x < t0
            &&& forall|k: int| 0 <= k < moves.len() ==> i1 <= (#[trigger] moves[k]).1.0 < t1
            &&& moves.len() == (pe - i1) + holes.len()
            &&& forall|k: int| pe - i1 <= k < moves.len() ==> (#[trigger] moves[k]).1 == holes[k - (pe - i1)]
            &&& leaf_block_filled(moves, removed, i0, i1, t1)
            &&& forall|x: usize| #[trigger] kept.contains(x) <==> (stale.contains(x) && i0 <= x < t1 && !is_deleted(
                removed,
                x as int,
            )) || (exists|k: int|
                0 <= k < moves.len() && (#[trigger] moves[k]).1.0 == x && ((stale.contains(moves[k].0.0) && !(i1 <= x < pe))
                    || x >= i0)) || (n1 > 1 && x == t1 - 1 && !(i1 <= x < pe))
        }),
    ensures
        ({
            let n1 = (n0 - removed.len()) as nat;
            let i1 = internal_count(d, n1);
            let t1 = i1 + n1;
            forall|p: int|
                0 <= p < t1 && !ancestor_of_range(d, p as nat, i1, promoted_end(d, n0, n1)) && !ancestor_of_set(d, p as nat, kept)
                    ==> #[trigger] mid[p] == leaves_below(d, i1, t1, p as nat)
        }),
{
    let n1 = (n0 - removed.len()) as nat;
    let i0 = internal_count(d, n0) as int;
    let t0 = i0 + n0;
    let i1 = internal_count(d, n1) as int;
    let t1 = i1 + n1;
    let pe = promoted_end(d, n0, n1) as int;
    let holes = deleted_within(removed, i0, t1);
    lemma_internal_count_monotone(d, n1, n0);
    let dests = Set::new(|x: int| is_destination(moves, x));
    let gone = Set::new(|x: int| is_deleted(removed, x));
    assert forall|x: int| i0 <= x < t1 && #[trigger] gone.contains(x) implies dests.contains(x) by {
        let w = choose|w: int| 0 <= w < removed.len() && removed[w].0 == x;
        lemma_deleted_within_contains(removed, i0, t1, w);
        let j = choose|j: int| 0 <= j < holes.len() && holes[j] == removed[w];
        assert(moves[(pe - i1) + j].1 == holes[j]);
    }
    assert forall|x: int| #[trigger] dests.contains(x) && x >= i0 implies kept.contains(x as usize) by {
        let k = choose|k: int| 0 <= k < moves.len() && (#[trigger] moves[k]).1.0 == x;
    }
    lemma_delete_sizes_ready(d, n0, n1, old_sizes, mid, stale, kept, dests, gone);
}

/// No node has two operations in `diffs`.
pub open spec fn distinct_nodes<W>(diffs: Seq<(usize, Option<W>)>) -> bool {
    forall|i: int, j: int| 0 <= i < j < diffs.len() ==> diffs[i].0 != diffs[j].0
}

/// The nodes of `diffs` without a value that are in `placement`, in order.
pub open spec fn deletions_in<W>(diffs: Seq<(usize, Option<W>)>, placement: Map<usize, TreeIndex>) -> Seq<usize>
    decreases diffs.len(),
{
    if diffs.len() == 0 {
        Seq::empty()
    } else {
        let rest = deletions_in(diffs.drop_last(), placement);
        let last = diffs.last();
        if last.1 is None && placement.contains_key(last.0) {
            rest.push(last.0)
        } else {
            rest
        }
    }
}

/// The operations of `diffs` with a value on nodes that are not in
/// `placement`, in order.
pub open spec fn fresh_in<W>(diffs: Seq<(usize, Option<W>)>, placement: Map<usize, TreeIndex>) -> Seq<(usize, W)>
    decreases diffs.len(),
{
    if diffs.len() == 0 {
        Seq::empty()
    } else {
        let rest = fresh_in(diffs.drop_last(), placement);
        let last = diffs.last();
        if last.1 is Some && !placement.contains_key(last.0) {
            rest.push((last.0, last.1->0))
        } else {
            rest
        }
    }
}

/// The operations of `diffs` with a value on nodes that are in `placement`,
/// in order.
pub open spec fn modified_in<W>(diffs: Seq<(usize, Option<W>)>, placement: Map<usize, TreeIndex>) -> Seq<(usize, W)>
    decreases diffs.len(),
{
    if diffs.len() == 0 {
        Seq::empty()
    } else {
        let rest = modified_in(diffs.drop_last(), placement);
        let last = diffs.last();
        if last.1 is Some && placement.contains_key(last.0) {
            rest.push((last.0, last.1->0))
        } else {
            rest
        }
    }
}

/// Some entry of `fresh` is for node `x`.
pub open spec fn names_node<W>(fresh: Seq<(usize, W)>, x: usize) -> bool {
    exists|k: int| 0 <= k < fresh.len() && (#[trigger] fresh[k]).0 == x
}

/// A node leaves with a batch exactly when one of its operations carries no
/// value and it is in the tree, and joins exactly when one of its
/// operations carries a value and it is not in the tree.
pub proof fn lemma_classified_members<W>(diffs: Seq<(usize, Option<W>)>, placement: Map<usize, TreeIndex>)
    ensures
        forall|x: usize|
            #[trigger] deletions_in(diffs, placement).contains(x) <==> exists|i: int|
                0 <= i < diffs.len() && (#[trigger] diffs[i]).0 == x && diffs[i].1 is None
                    && placement.contains_key(x),
        forall|x: usize|
            #[trigger] names_node(fresh_in(diffs, placement), x) <==> exists|i: int|
                0 <= i < diffs.len() && (#[trigger] diffs[i]).0 == x && diffs[i].1 is Some
                    && !placement.contains_key(x),
    decreases diffs.len(),
{
    if diffs.len() > 0 {
        let rest = diffs.drop_last();
        let last = diffs.last();
        lemma_classified_members(rest, placement);
        let dr = deletions_in(rest, placement);
        let fr = fresh_in(rest, placement);
        let d = deletions_in(diffs, placement);
        let f = fresh_in(diffs, placement);
        assert forall|i: int| 0 <= i < rest.len() implies #[trigger] rest[i] == diffs[i] by {}
        assert forall|x: usize| #[trigger] d.contains(x) <==> exists|i: int|
            0 <= i < diffs.len() && (#[trigger] diffs[i]).0 == x && diffs[i].1 is None
                && placement.contains_key(x) by {
            if d.contains(x) {
                if dr.contains(x) {
                    let i = choose|i: int|
                        0 <= i < rest.len() && (#[trigger] rest[i]).0 == x && rest[i].1 is None
                            && placement.contains_key(x);
                    assert(diffs[i] == rest[i]);
                } else {
                    assert(last.1 is None && placement.contains_key(last.0) && x == last.0);
                    assert(diffs[diffs.len() - 1] == last);
                }
            }
            if exists|i: int|
                0 <= i < diffs.len() && (#[trigger] diffs[i]).0 == x && diffs[i].1 is None
                    && placement.contains_key(x) {
                let i = choose|i: int|
                    0 <= i < diffs.len() && (#[trigger] diffs[i]).0 == x && diffs[i].1 is None
                        && placement.contains_key(x);
                if i < rest.len() {
                    assert(rest[i] == diffs[i]);
                    assert(dr.contains(x));
                    if last.1 is None && placement.contains_key(last.0) {
                        assert(d == dr.push(last.0));
                        let j = choose|j: int| 0 <= j < dr.len() && dr[j] == x;
                        assert(d[j] == x);
                    }
                } else {
                    assert(d == dr.push(last.0));
                    assert(d[dr.len() as int] == x);
                }
            }
        }
        assert forall|x: usize|
            #[trigger] names_node(f, x) <==> exists|i: int|
                0 <= i < diffs.len() && (#[trigger] diffs[i]).0 == x && diffs[i].1 is Some
                    && !placement.contains_key(x) by {
            if names_node(f, x) {
                let k = choose|k: int| 0 <= k < f.len() && (#[trigger] f[k]).0 == x;
                if k < fr.len() {
                    assert(f[k] == fr[k]);
                    assert(names_node(fr, x));
                    let i = choose|i: int|
                        0 <= i < rest.len() && (#[trigger] rest[i]).0 == x && rest[i].1 is Some
                            && !placement.contains_key(x);
                    assert(diffs[i] == rest[i]);
                } else {
                    assert(diffs[diffs.len() - 1] == last);
                }
            }
            if exists|i: int|
                0 <= i < diffs.len() && (#[trigger] diffs[i]).0 == x && diffs[i].1 is Some
                    && !placement.contains_key(x) {
                let i = choose|i: int|
                    0 <= i < diffs.len() && (#[trigger] diffs[i]).0 == x && diffs[i].1 is Some
                        && !placement.contains_key(x);
                if i < rest.len() {
                    assert(rest[i] == diffs[i]);
                    assert(names_node(fr, x));
                    let k = choose|k: int| 0 <= k < fr.len() && (#[trigger] fr[k]).0 == x;
                    assert(f[k] == fr[k]);
                } else {
                    assert(f[fr.len() as int].0 == x);
                }
            }
        }
    }
}

/// A batch of node operations sorted by kind: nodes that join the tree with
/// their value, nodes whose value changes, and nodes that leave.
pub struct ClassifiedNodeOps<W> {
    pub fresh: Vec<(usize, W)>,
    pub modified: Vec<(usize, W)>,
    pub deleted: Vec<usize>,
}

/// Each classified node comes from an operation of its kind on a node of
/// the right membership, and without repeated nodes no classified node
/// repeats.
proof fn lemma_classified<W>(diffs: Seq<(usize, Option<W>)>, placement: Map<usize, TreeIndex>)
    ensures
        deletions_in(diffs, placement).len() <= diffs.len(),
        fresh_in(diffs, placement).len() <= diffs.len(),
        forall|k: int|
            0 <= k < deletions_in(diffs, placement).len() ==> placement.contains_key(#[trigger] deletions_in(diffs, placement)[k])
                && exists|i: int| 0 <= i < diffs.len() && (#[trigger] diffs[i]).0 == deletions_in(diffs, placement)[k] && diffs[i].1 is None,
        forall|k: int|
            0 <= k < fresh_in(diffs, placement).len() ==> !placement.contains_key((#[trigger] fresh_in(diffs, placement)[k]).0)
                && exists|i: int| 0 <= i < diffs.len() && (#[trigger] diffs[i]).0 == fresh_in(diffs, placement)[k].0 && diffs[i].1 is Some,
        forall|k: int|
            0 <= k < modified_in(diffs, placement).len() ==> placement.contains_key((#[trigger] modified_in(diffs, placement)[k]).0)
                && exists|i: int| 0 <= i < diffs.len() && (#[trigger] diffs[i]).0 == modified_in(diffs, placement)[k].0 && diffs[i].1 is Some,
        distinct_nodes(diffs) ==> forall|a: int, b: int|
            0 <= a < b < deletions_in(diffs, placement).len() ==> deletions_in(diffs, placement)[a] != deletions_in(
                diffs,
                placement,
            )[b],
        distinct_nodes(diffs) ==> forall|a: int, b: int|
            0 <= a < b < fresh_in(diffs, placement).len() ==> fresh_in(diffs, placement)[a].0 != fresh_in(diffs, placement)[b].0,
    decreases diffs.len(),
{
    if diffs.len() > 0 {
        let rest = diffs.drop_last();
        lemma_classified(rest, placement);
        let last = diffs.last();
        let n = diffs.len() - 1;
        assert forall|i: int| 0 <= i < rest.len() implies #[trigger] rest[i] == diffs[i] by {}
        let dels = deletions_in(diffs, placement);
        let rd = deletions_in(rest, placement);
        let fr = fresh_in(diffs, placement);
        let rf = fresh_in(rest, placement);
        let md = modified_in(diffs, placement);
        let rm = modified_in(rest, placement);
        assert forall|k: int| 0 <= k < dels.len() implies placement.contains_key(#[trigger] dels[k]) && exists|i: int|
            0 <= i < diffs.len() && (#[trigger] diffs[i]).0 == dels[k] && diffs[i].1 is None by {
            if k < rd.len() {
                assert(dels[k] == rd[k]);
                let i = choose|i: int| 0 <= i < rest.len() && (#[trigger] rest[i]).0 == rd[k] && rest[i].1 is None;
                assert(diffs[i] == rest[i]);
            } else {
                assert(diffs[n] == last);
            }
        }
        assert forall|k: int| 0 <= k < fr.len() implies !placement.contains_key((#[trigger] fr[k]).0) && exists|i: int|
            0 <= i < diffs.len() && (#[trigger] diffs[i]).0 == fr[k].0 && diffs[i].1 is Some by {
            if k < rf.len() {
                assert(fr[k] == rf[k]);
                let i = choose|i: int| 0 <= i < rest.len() && (#[trigger] rest[i]).0 == rf[k].0 && rest[i].1 is Some;
                assert(diffs[i] == rest[i]);
            } else {
                assert(diffs[n] == last);
            }
        }
        assert forall|k: int| 0 <= k < md.len() implies placement.contains_key((#[trigger] md[k]).0) && exists|i: int|
            0 <= i < diffs.len() && (#[trigger] diffs[i]).0 == md[k].0 && diffs[i].1 is Some by {
            if k < rm.len() {
                assert(md[k] == rm[k]);
                let i = choose|i: int| 0 <= i < rest.len() && (#[trigger] rest[i]).0 == rm[k].0 && rest[i].1 is Some;
                assert(diffs[i] == rest[i]);
            } else {
                assert(diffs[n] == last);
            }
        }
        if distinct_nodes(diffs) {
            assert(distinct_nodes(rest));
            assert forall|a: int, b: int| 0 <= a < b < dels.len() implies dels[a] != dels[b] by {
                assert(dels[a] == rd[a]);
                if b < rd.len() {
                    assert(dels[b] == rd[b]);
                } else {
                    let i = choose|i: int| 0 <= i < rest.len() && (#[trigger] rest[i]).0 == rd[a] && rest[i].1 is None;
                    assert(diffs[i] == rest[i]);
                    assert(diffs[i].0 != diffs[n].0);
                }
            }
            assert forall|a: int, b: int| 0 <= a < b < fr.len() implies fr[a].0 != fr[b].0 by {
                assert(fr[a] == rf[a]);
                if b < rf.len() {
                    assert(fr[b] == rf[b]);
                } else {
                    let i = choose|i: int| 0 <= i < rest.len() && (#[trigger] rest[i]).0 == rf[a].0 && rest[i].1 is Some;
                    assert(diffs[i] == rest[i]);
                    assert(diffs[i].0 != diffs[n].0);
                }
            }
        }
    }
}

/// The first components of `pairs`, in order.
fn nodes_of<W: Copy>(pairs: &Vec<(usize, W)>) -> (res: Vec<usize>)
    ensures
        res@.len() == pairs@.len(),
        forall|k: int| 0 <= k < pairs@.len() ==> #[trigger] res@[k] == pairs@[k].0,
{
    let mut out: Vec<usize> = Vec::new();
    let mut i: usize = 0;
    while i < pairs.len()
        invariant
            i <= pairs@.len(),
            out@.len() == i,
            forall|k: int| 0 <= k < i ==> #[trigger] out@[k] == pairs@[k].0,
        decreases pairs@.len() - i,
    {
        out.push(pairs[i].0);
        i += 1;
    }
    out
}

/// Why a batch of node operations was refused.
#[derive(Debug, Clone, Copy, PartialEq, Eq, Structural)]
pub enum TreeOpError {
    /// A fresh node is already in the tree.
    NodeAlreadyExists,
    /// A deleted or modified node is not in the tree.
    NodeNotFound,
    /// A node is deleted twice in one batch.
    DuplicateDeletion,
    /// A node has two operations in one batch.
    DuplicateOperation,
}

/// The nodes of a dynamic clustering tree: each node sits at one leaf
/// position of the compact d-ary layout over its node count, and every leaf
/// position holds one node. `sizes` holds, per position, the number of
/// leaves below it.
pub struct LeafTree<const ARITY: usize> {
    node_to_tree: HashMap<usize, TreeIndex>,
    tree_to_node: HashMap<usize, usize>,
    sizes: Vec<usize>,
    num_leaves: usize,
}

/// Drops the sources of `moves` from `touched` and returns the destinations
/// whose source was touched, except those in `[lo, hi)`.
fn take_moved_touched(moves: &Vec<(TreeIndex, TreeIndex)>, touched: &mut HashSet<usize>, lo: usize, hi: usize) -> (res: Vec<usize>)
    requires
        forall|a: int, b: int| 0 <= a < b < moves@.len() ==> (#[trigger] moves@[a]).0.0 < (#[trigger] moves@[b]).0.0,
    ensures
        forall|x: usize| #[trigger] final(touched)@.contains(x) <==> old(touched)@.contains(x) && !exists|i: int|
            0 <= i < moves@.len() && (#[trigger] moves@[i]).0.0 == x,
        forall|x: usize| #[trigger] res@.contains(x) <==> exists|i: int|
            0 <= i < moves@.len() && (#[trigger] moves@[i]).1.0 == x && old(touched)@.contains(moves@[i].0.0) && !(lo <= x < hi),
{
    let ghost stale = touched@;
    let mut moved: Vec<usize> = Vec::new();
    let mut k: usize = 0;
    while k < moves.len()
        invariant
            k <= moves@.len(),
            forall|a: int, b: int| 0 <= a < b < moves@.len() ==> (#[trigger] moves@[a]).0.0 < (#[trigger] moves@[b]).0.0,
            forall|x: usize| #[trigger] touched@.contains(x) <==> stale.contains(x) && !exists|i: int|
                0 <= i < k && (#[trigger] moves@[i]).0.0 == x,
            forall|x: usize| #[trigger] moved@.contains(x) <==> exists|i: int|
                0 <= i < k && (#[trigger] moves@[i]).1.0 == x && stale.contains(moves@[i].0.0) && !(lo <= x < hi),
        decreases moves@.len() - k,
    {
        let (src, dst) = moves[k];
        let ghost before = touched@;
        let ghost moved_before = moved@;
        let was = touched.remove(&src.0);
        proof {
            assert(moves@[k as int] == (src, dst));
            assert(was == stale.contains(src.0)) by {
                if exists|i: int| 0 <= i < k && (#[trigger] moves@[i]).0.0 == src.0 {
                    let i = choose|i: int| 0 <= i < k && (#[trigger] moves@[i]).0.0 == src.0;
                    assert(moves@[i].0.0 < moves@[k as int].0.0);
                }
            }
        }
        if was && (dst.0 < lo || dst.0 >= hi) {
            moved.push(dst.0);
        }
        proof {
            assert forall|x: usize| #[trigger] touched@.contains(x) <==> stale.contains(x) && !exists|i: int|
                0 <= i < k + 1 && (#[trigger] moves@[i]).0.0 == x by {
                if exists|i: int| 0 <= i < k + 1 && (#[trigger] moves@[i]).0.0 == x {
                    let i = choose|i: int| 0 <= i < k + 1 && (#[trigger] moves@[i]).0.0 == x;
                    if i < k {
                        assert(!before.contains(x));
                    }
                } else {
                    assert(moves@[k as int].0.0 != x);
                }
            }
            assert forall|x: usize| #[trigger] moved@.contains(x) <==> exists|i: int|
                0 <= i < k + 1 && (#[trigger] moves@[i]).1.0 == x && stale.contains(moves@[i].0.0) && !(lo <= x < hi) by {
                if moved@.contains(x) {
                    let j = choose|j: int| 0 <= j < moved@.len() && moved@[j] == x;
                    if j < moved_before.len() {
                        assert(moved_before[j] == x);
                        assert(moved_before.contains(x));
                        let i = choose|i: int|
                            0 <= i < k && (#[trigger] moves@[i]).1.0 == x && stale.contains(moves@[i].0.0) && !(lo <= x < hi);
                    } else {
                        assert(moves@[k as int].1.0 == x);
                    }
                }
                if exists|i: int| 0 <= i < k + 1 && (#[trigger] moves@[i]).1.0 == x && stale.contains(moves@[i].0.0) && !(lo <= x
                    < hi) {
                    let i = choose|i: int|
                        0 <= i < k + 1 && (#[trigger] moves@[i]).1.0 == x && stale.contains(moves@[i].0.0) && !(lo <= x < hi);
                    if i == k {
                        assert(moved@[moved@.len() - 1] == x);
                    } else {
                        assert(moved_before.contains(x));
                        let j = choose|j: int| 0 <= j < moved_before.len() && moved_before[j] == x;
                        assert(moved@[j] == x);
                    }
                }
            }
        }
        k += 1;
    }
    moved
}

/// Adds every element of `xs` to `touched`.
fn mark_all(touched: &mut HashSet<usize>, xs: &Vec<usize>)
    ensures
        forall|x: usize| #[trigger] final(touched)@.contains(x) <==> old(touched)@.contains(x) || xs@.contains(x),
{
    let ghost start = touched@;
    let mut i: usize = 0;
    while i < xs.len()
        invariant
            i <= xs@.len(),
            forall|x: usize| #[trigger] touched@.contains(x) <==> start.contains(x) || xs@.take(i as int).contains(x),
        decreases xs@.len() - i,
    {
        let ghost prev = xs@.take(i as int);
        touched.insert(xs[i]);
        proof {
            let next = xs@.take(i + 1);
            assert forall|x: usize| #[trigger] touched@.contains(x) <==> start.contains(x) || next.contains(x) by {
                if next.contains(x) {
                    let j = choose|j: int| 0 <= j < next.len() && next[j] == x;
                    if j < i {
                        assert(prev[j] == x);
                    }
                }
                if prev.contains(x) {
                    let j = choose|j: int| 0 <= j < prev.len() && prev[j] == x;
                    assert(next[j] == x);
                }
                if x == xs@[i as int] {
                    assert(next[i as int] == x);
                }
            }
        }
        i += 1;
    }
    proof {
        assert(xs@.take(xs@.len() as int) =~= xs@);
    }
}

/// Adds to `touched` every destination of `moves` at or after `lo`.
fn mark_destinations_from(touched: &mut HashSet<usize>, moves: &Vec<(TreeIndex, TreeIndex)>, lo: usize)
    ensures
        forall|x: usize| #[trigger] final(touched)@.contains(x) <==> old(touched)@.contains(x) || (lo <= x && exists|k: int|
            0 <= k < moves@.len() && (#[trigger] moves@[k]).1.0 == x),
{
    let ghost start = touched@;
    let mut k: usize = 0;
    while k < moves.len()
        invariant
            k <= moves@.len(),
            forall|x: usize| #[trigger] touched@.contains(x) <==> start.contains(x) || (lo <= x && exists|i: int|
                0 <= i < k && (#[trigger] moves@[i]).1.0 == x),
        decreases moves@.len() - k,
    {
        let dst = moves[k].1;
        if dst.0 >= lo {
            touched.insert(dst.0);
        }
        proof {
            assert forall|x: usize| #[trigger] touched@.contains(x) <==> start.contains(x) || (lo <= x && exists|i: int|
                0 <= i < k + 1 && (#[trigger] moves@[i]).1.0 == x) by {
                if exists|i: int| 0 <= i < k + 1 && (#[trigger] moves@[i]).1.0 == x {
                    let i = choose|i: int| 0 <= i < k + 1 && (#[trigger] moves@[i]).1.0 == x;
                    if i < k {
                        assert(exists|i2: int| 0 <= i2 < k && (#[trigger] moves@[i2]).1.0 == x);
                    }
                }
                if lo <= x && exists|i: int| 0 <= i < k && (#[trigger] moves@[i]).1.0 == x {
                    let i = choose|i: int| 0 <= i < k && (#[trigger] moves@[i]).1.0 == x;
                    assert(exists|i2: int| 0 <= i2 < k + 1 && (#[trigger] moves@[i2]).1.0 == x);
                }
                if x == dst.0 && lo <= x {
                    assert(moves@[k as int].1.0 == x);
                }
            }
        }
        k += 1;
    }
}

impl<const ARITY: usize> LeafTree<ARITY> {
    /// First leaf position.
    pub closed spec fn first_leaf(&self) -> nat {
        internal_count(ARITY as nat, self.num_leaves as nat)
    }

    /// Number of positions.
    pub closed spec fn total(&self) -> nat {
        self.first_leaf() + self.num_leaves as nat
    }

    /// Leaf position of each node.
    pub closed spec fn placement(&self) -> Map<usize, TreeIndex> {
        self.node_to_tree@
    }

    /// Node at each leaf position.
    pub closed spec fn occupant(&self) -> Map<usize, usize> {
        self.tree_to_node@
    }

    /// Size of each position.
    pub closed spec fn size_view(&self) -> Seq<usize> {
        self.sizes@
    }

    /// Number of nodes.
    pub closed spec fn leaf_count(&self) -> nat {
        self.num_leaves as nat
    }

    /// Nodes and leaf positions correspond one to one, and there is one
    /// size per position.
    pub closed spec fn wf(&self) -> bool {
        &&& ARITY >= 2
        &&& (2 * self.num_leaves + 1) * (ARITY + 1) <= usize::MAX
        &&& self.sizes@.len() == self.total()
        &&& forall|v: usize| #[trigger]
            self.node_to_tree@.contains_key(v) ==> {
                let pos = self.node_to_tree@[v].0;
                &&& self.first_leaf() <= pos < self.total()
                &&& self.tree_to_node@.contains_key(pos)
                &&& self.tree_to_node@[pos] == v
            }
        &&& forall|pos: usize| #[trigger]
            self.tree_to_node@.contains_key(pos) <==> self.first_leaf() <= pos < self.total()
        &&& forall|pos: usize| #[trigger]
            self.tree_to_node@.contains_key(pos) ==> {
                let v = self.tree_to_node@[pos];
                &&& self.node_to_tree@.contains_key(v)
                &&& self.node_to_tree@[v].0 == pos
            }
    }

    /// Every position that does not lie above a position of `stale` holds
    /// the number of leaves below it.
    pub closed spec fn sizes_ok_except(&self, stale: Set<usize>) -> bool {
        forall|p: int|
            0 <= p < self.total() && !ancestor_of_set(ARITY as nat, p as nat, stale) ==> #[trigger] self.sizes@[p]
                == leaves_below(ARITY as nat, self.first_leaf(), self.total(), p as nat)
    }

    /// What a well-formed tree holds: the leaf block of the compact layout
    /// over its nodes, one size per position, and nodes and leaf positions in
    /// one-to-one correspondence, as many nodes as leaves.
    pub proof fn lemma_well_formed(&self)
        requires
            self.wf(),
        ensures
            ARITY >= 2,
            self.first_leaf() == internal_count(ARITY as nat, self.leaf_count()),
            self.total() == self.first_leaf() + self.leaf_count(),
            self.size_view().len() == self.total(),
            forall|v: usize| #[trigger]
                self.placement().contains_key(v) ==> {
                    let pos = self.placement()[v].0;
                    &&& self.first_leaf() <= pos < self.total()
                    &&& self.occupant().contains_key(pos)
                    &&& self.occupant()[pos] == v
                },
            forall|pos: usize| #[trigger]
                self.occupant().contains_key(pos) <==> self.first_leaf() <= pos < self.total(),
            forall|pos: usize| #[trigger]
                self.occupant().contains_key(pos) ==> self.placement().contains_key(self.occupant()[pos])
                    && self.placement()[self.occupant()[pos]].0 == pos,
            self.placement().dom().finite(),
            self.placement().dom().len() == self.leaf_count(),
    {
        let n = self.num_leaves as nat;
        assert(internal_count(ARITY as nat, n) <= n) by {
            if n > 1 {
                assert((n - 2) / ((ARITY - 1) as int) <= n - 2) by (nonlinear_arith)
                    requires
                        ARITY >= 2,
                        n >= 2,
                ;
            }
        }
        assert(2 * n <= usize::MAX) by (nonlinear_arith)
            requires
                (2 * n + 1) * (ARITY + 1) <= usize::MAX,
                ARITY >= 2,
        ;
        let lo = self.first_leaf() as int;
        let hi = self.total() as int;
        let r = vstd::set_lib::set_int_range(lo, hi);
        vstd::set_lib::lemma_int_range(lo, hi);
        let f = |p: int| self.tree_to_node@[p as usize];
        assert forall|a: int, b: int| r.contains(a) && r.contains(b) && #[trigger] f(a) == #[trigger] f(b) implies a == b by {
            assert(self.tree_to_node@.contains_key(a as usize));
            assert(self.tree_to_node@.contains_key(b as usize));
        }
        assert(vstd::relations::injective_on(f, r));
        assert(r.map(f) =~= self.node_to_tree@.dom()) by {
            assert forall|v: usize| self.node_to_tree@.dom().contains(v) implies r.map(f).contains(v) by {
                let pos = self.node_to_tree@[v].0;
                assert(r.contains(pos as int));
                assert(f(pos as int) == v);
            }
            assert forall|v: usize| r.map(f).contains(v) implies self.node_to_tree@.dom().contains(v) by {
                let p = choose|p: int| r.contains(p) && f(p) == v;
                assert(self.tree_to_node@.contains_key(p as usize));
            }
        }
        vstd::set_lib::lemma_map_size(r, self.node_to_tree@.dom(), f);
    }

    /// `sizes_ok_except(stale)` says that every position of the tree that is
    /// no ancestor of a position in `stale` holds the number of leaves below
    /// it.
    pub proof fn lemma_sizes_ok_except(&self, stale: Set<usize>)
        ensures
            self.sizes_ok_except(stale) == forall|p: int|
                0 <= p < self.total() && !ancestor_of_set(ARITY as nat, p as nat, stale) ==> #[trigger] self.size_view()[p]
                    == leaves_below(ARITY as nat, self.first_leaf(), self.total(), p as nat),
    {
        let fl = self.first_leaf();
        let t = self.total();
        if self.sizes_ok_except(stale) {
            assert forall|p: int|
                0 <= p < t && !ancestor_of_set(ARITY as nat, p as nat, stale) implies #[trigger] self.size_view()[p]
                    == leaves_below(ARITY as nat, fl, t, p as nat) by {
                assert(self.sizes@[p] == leaves_below(ARITY as nat, fl, t, p as nat));
            }
        }
        if forall|p: int|
            0 <= p < t && !ancestor_of_set(ARITY as nat, p as nat, stale) ==> #[trigger] self.size_view()[p]
                == leaves_below(ARITY as nat, fl, t, p as nat) {
            assert forall|p: int|
                0 <= p < t && !ancestor_of_set(ARITY as nat, p as nat, stale) implies #[trigger] self.sizes@[p]
                    == leaves_below(ARITY as nat, fl, t, p as nat) by {
                assert(self.size_view()[p] == leaves_below(ARITY as nat, fl, t, p as nat));
            }
        }
    }

    /// Every position holds the number of leaves below it.
    pub open spec fn sizes_track_leaves(&self) -> bool {
        self.sizes_ok_except(Set::empty())
    }

    /// A tree without nodes.
    pub fn new() -> (res: Self)
        requires
            2 <= ARITY < usize::MAX,
        ensures
            res.wf(),
            res.leaf_count() == 0,
            res.placement() == Map::<usize, TreeIndex>::empty(),
    {
        proof {
            assert(internal_count(ARITY as nat, 0) == 0);
        }
        LeafTree {
            node_to_tree: HashMap::new(),
            tree_to_node: HashMap::new(),
            sizes: Vec::new(),
            num_leaves: 0,
        }
    }

    /// Number of nodes.
    pub fn num_leaves(&self) -> (res: usize)
        ensures
            res == self.leaf_count(),
    {
        self.num_leaves
    }

    /// Number of internal positions.
    pub fn num_internal_nodes(&self) -> (res: usize)
        requires
            self.wf(),
        ensures
            res == self.first_leaf(),
    {
        TreeLayout::<ARITY>::internal_count_for_leaves(self.num_leaves)
    }

    /// Number of positions, internal and leaf.
    pub fn num_total_nodes(&self) -> (res: usize)
        requires
            self.wf(),
        ensures
            res == self.total(),
    {
        proof {
            assert(self.num_leaves <= usize::MAX / 2) by (nonlinear_arith)
                requires
                    (2 * self.num_leaves + 1) * (ARITY + 1) <= usize::MAX,
                    ARITY >= 2,
            ;
        }
        TreeLayout::<ARITY>::total_count_for_leaves(self.num_leaves)
    }

    /// Leaf position of `node`, if it is in the tree.
    pub fn position_of(&self, node: usize) -> (res: Option<TreeIndex>)
        ensures
            res == self.placement().get(node),
    {
        match self.node_to_tree.get(&node) {
            Some(pos) => Some(*pos),
            None => None,
        }
    }

    /// Node at position `pos`, if `pos` is a leaf position.
    pub fn node_at(&self, pos: TreeIndex) -> (res: Option<usize>)
        ensures
            res == self.occupant().get(pos.0),
    {
        match self.tree_to_node.get(&pos.0) {
            Some(node) => Some(*node),
            None => None,
        }
    }

    /// The nodes of the tree ordered by their leaf position: entry `i` is
    /// the node at position `first_leaf + i`.
    pub fn nodes_by_position(&self) -> (res: Vec<usize>)
        requires
            self.wf(),
        ensures
            res@.len() == self.leaf_count(),
            forall|i: int|
                0 <= i < res@.len() ==> self.occupant().contains_key((self.first_leaf() + i) as usize)
                    && #[trigger] res@[i] == self.occupant()[(self.first_leaf() + i) as usize],
    {
        proof {
            self.lemma_well_formed();
        }
        let first = self.num_internal_nodes();
        let total = self.num_total_nodes();
        let mut res: Vec<usize> = Vec::new();
        let mut pos = first;
        while pos < total
            invariant
                self.wf(),
                first == self.first_leaf(),
                total == self.total(),
                total == self.first_leaf() + self.leaf_count(),
                first <= pos <= total,
                res@.len() == pos - first,
                forall|q: usize| #[trigger]
                    self.occupant().contains_key(q) <==> self.first_leaf() <= q < self.total(),
                forall|i: int|
                    0 <= i < res@.len() ==> self.occupant().contains_key((self.first_leaf() + i) as usize)
                        && #[trigger] res@[i] == self.occupant()[(self.first_leaf() + i) as usize],
            decreases total - pos,
        {
            let node = self.node_at(TreeIndex(pos));
            assert(self.occupant().contains_key(pos));
            match node {
                Some(x) => {
                    res.push(x);
                },
                None => {
                    assert(false);
                },
            }
            pos = pos + 1;
        }
        res
    }

    /// Size of position `pos`.
    pub fn size_at(&self, pos: TreeIndex) -> (res: Option<usize>)
        ensures
            pos.0 < self.size_view().len() ==> res == Some(self.size_view()[pos.0 as int]),
            pos.0 >= self.size_view().len() ==> res is None,
    {
        if pos.0 < self.sizes.len() {
            Some(self.sizes[pos.0])
        } else {
            None
        }
    }

    /// Adds the `fresh` nodes, which must not be in the tree yet. The
    /// layout grows to the new node count: old nodes move as
    /// `insertion_target` says, the fresh nodes take the last leaf
    /// positions in order, the sizes of the new positions are 1, and the
    /// sizes above the moved and fresh leaves are recomputed. Pending
    /// touched positions are dropped when every old leaf moved, and
    /// otherwise those of old leaves that became internal are dropped.
    pub fn insert_fresh_nodes(&mut self, fresh: &[usize], touched: &mut HashSet<usize>) -> (res: Result<(), TreeOpError>)
        requires
            old(self).wf(),
            forall|i: int, j: int| 0 <= i < j < fresh@.len() ==> fresh@[i] != fresh@[j],
            (2 * (old(self).leaf_count() + fresh@.len()) + 1) * (ARITY + 1) <= usize::MAX,
        ensures
            final(self).wf(),
            res is Err <==> exists|i: int| 0 <= i < fresh@.len() && old(self).placement().contains_key(#[trigger] fresh@[i]),
            res is Err ==> res == Err::<(), TreeOpError>(TreeOpError::NodeAlreadyExists) && final(self).placement()
                == old(self).placement() && final(self).leaf_count() == old(self).leaf_count() && final(touched)@ == old(touched)@,
            res is Ok ==> {
                let n0 = old(self).leaf_count();
                let added = fresh@.len();
                let i0 = internal_count(ARITY as nat, n0);
                let i1 = internal_count(ARITY as nat, n0 + added);
                &&& final(self).leaf_count() == n0 + added
                &&& forall|v: usize| #[trigger] final(self).placement().contains_key(v) <==> (old(self).placement().contains_key(v) || fresh@.contains(v))
                &&& forall|v: usize| #[trigger] old(self).placement().contains_key(v) ==> final(self).placement()[v].0 == insertion_target(
                    ARITY as nat,
                    n0,
                    added,
                    old(self).placement()[v].0 as nat,
                )
                &&& forall|i: int| 0 <= i < added ==> final(self).placement()[#[trigger] fresh@[i]].0 == i1 + n0 + i
                &&& forall|x: usize| #[trigger] final(touched)@.contains(x) <==> if added == 0 {
                    old(touched)@.contains(x)
                } else if i1 >= i0 + n0 {
                    false
                } else {
                    old(touched)@.contains(x) && (x < i0 || x >= i1)
                }
                &&& added > 0 ==> forall|p: int|
                    0 <= p < final(self).total() && !ancestor_of_range(
                        ARITY as nat,
                        p as nat,
                        insertion_rebuild_start(ARITY as nat, n0, added),
                        final(self).total(),
                    ) ==> #[trigger] final(self).size_view()[p] == if p < old(self).total() {
                        old(self).size_view()[p]
                    } else {
                        1usize
                    }
                &&& added > 0 ==> forall|p: int|
                    0 <= p < final(self).total() && ancestor_of_range(
                        ARITY as nat,
                        p as nat,
                        insertion_rebuild_start(ARITY as nat, n0, added),
                        final(self).total(),
                    ) ==> #[trigger] final(self).size_view()[p] == capped_child_sum(
                        ARITY as nat,
                        final(self).size_view(),
                        p as nat,
                    )
                &&& added == 0 ==> final(self).size_view() == old(self).size_view()
                &&& old(self).sizes_ok_except(old(touched)@) && (forall|x: usize| #[trigger]
                    old(touched)@.contains(x) ==> x < old(self).total()) ==> final(self).sizes_ok_except(
                    final(touched)@,
                )
                &&& (forall|x: usize| #[trigger] old(touched)@.contains(x) ==> old(self).first_leaf() <= x < old(self).total())
                    ==> forall|x: usize| #[trigger] final(touched)@.contains(x) ==> final(self).first_leaf() <= x
                    < final(self).total()
            },
    {
        let added = fresh.len();
        if added == 0 {
            return Ok(());
        }
        let mut c: usize = 0;
        while c < added
            invariant
                c <= added == fresh@.len(),
                self.wf(),
                *self == *old(self),
                touched@ == old(touched)@,
                forall|i: int| 0 <= i < c ==> !self.placement().contains_key(#[trigger] fresh@[i]),
            decreases added - c,
        {
            if self.node_to_tree.contains_key(&fresh[c]) {
                proof {
                    assert(self.placement().contains_key(fresh@[c as int]));
                }
                return Err(TreeOpError::NodeAlreadyExists);
            }
            c += 1;
        }
        proof {
            assert(old_leaves_bound(self.num_leaves as nat, added as nat)) by {
                assert((self.num_leaves + added) * 2 <= usize::MAX) by (nonlinear_arith)
                    requires
                        (2 * (self.num_leaves + added) + 1) * (ARITY + 1) <= usize::MAX,
                        ARITY >= 2,
                ;
            }
        }
        let ghost d = ARITY as nat;
        let ghost old_nodes = self.node_to_tree@;
        let ghost old_slots = self.tree_to_node@;
        let old_leaves = self.num_leaves;
        let plan = TreeLayout::<ARITY>::plan_leaf_insertion(old_leaves, added);
        let ghost i0 = internal_count(d, old_leaves as nat) as int;
        let ghost t0 = i0 + old_leaves;
        let ghost i1 = plan.new_internal as int;
        let ghost big = i1 >= t0;
        let ghost dest0 = if big { i1 } else { t0 };
        let new_total = plan.new_internal + plan.new_leaves;
        resize_with_value(&mut self.sizes, new_total, 1);
        let ghost mid = self.sizes@;
        let mut m: usize = 0;
        while m < plan.moves.len()
            invariant
                m <= plan.moves@.len(),
                d == ARITY as nat,
                self.sizes@ == mid,
                self.num_leaves == old_leaves,
                forall|j: int| 0 <= j < added ==> !old_nodes.contains_key(#[trigger] fresh@[j]),
                added == fresh@.len(),
                ARITY >= 2,
                0 <= i0 <= i1,
                t0 == i0 + old_leaves,
                i0 == internal_count(d, old_leaves as nat),
                i1 == internal_count(d, (old_leaves + added) as nat),
                big == (i1 >= t0),
                dest0 == if big { i1 } else { t0 },
                plan.moves@.len() == if big { old_leaves as int } else { i1 - i0 },
                forall|k: int| 0 <= k < plan.moves@.len() ==> #[trigger] plan.moves@[k] == (
                    TreeIndex((i0 + k) as usize),
                    TreeIndex((dest0 + k) as usize),
                ),
                i1 + old_leaves + added <= usize::MAX,
                forall|pos: usize| #[trigger] old_slots.contains_key(pos) <==> i0 <= pos < t0,
                forall|pos: usize| #[trigger] old_slots.contains_key(pos) ==> old_nodes.contains_key(old_slots[pos]) && old_nodes[old_slots[pos]].0 == pos,
                forall|v: usize| #[trigger] old_nodes.contains_key(v) ==> i0 <= old_nodes[v].0 < t0 && old_slots[old_nodes[v].0] == v,
                forall|pos: usize| #[trigger] self.tree_to_node@.contains_key(pos) <==> ((i0 + m <= pos < t0) || (dest0 <= pos < dest0 + m)),
                forall|pos: usize| i0 + m <= pos < t0 ==> #[trigger] self.tree_to_node@[pos] == old_slots[pos],
                forall|pos: usize| dest0 <= pos < dest0 + m ==> #[trigger] self.tree_to_node@[pos] == old_slots[(pos - dest0 + i0) as usize],
                forall|v: usize| #[trigger] self.node_to_tree@.contains_key(v) <==> old_nodes.contains_key(v),
                forall|v: usize| #[trigger] self.node_to_tree@.contains_key(v) ==> self.node_to_tree@[v].0 == if old_nodes[v].0 < i0 + m {
                    dest0 + (old_nodes[v].0 - i0)
                } else {
                    old_nodes[v].0 as int
                },
            decreases plan.moves@.len() - m,
        {
            let (src, dst) = plan.moves[m];
            proof {
                assert(plan.moves@[m as int] == (src, dst));
                assert(src.0 == i0 + m);
                assert(dst.0 == dest0 + m);
                assert(self.tree_to_node@.contains_key(src.0));
                assert(self.tree_to_node@[src.0] == old_slots[src.0]);
                assert(old_slots.contains_key(src.0));
            }
            let node = match self.tree_to_node.remove(&src.0) {
                Some(node) => node,
                None => {
                    proof {
                        assert(false);
                    }
                    return Err(TreeOpError::NodeNotFound);
                },
            };
            proof {
                assert(node == old_slots[src.0]);
                assert(old_nodes.contains_key(node));
                assert(old_nodes[node].0 == src.0);
            }
            self.tree_to_node.insert(dst.0, node);
            self.node_to_tree.insert(node, dst);
            m += 1;
        }
        let ghost n0 = old_leaves as nat;
        proof {
            assert forall|pos: usize| #[trigger] self.tree_to_node@.contains_key(pos) implies self.node_to_tree@.contains_key(
                self.tree_to_node@[pos],
            ) && self.node_to_tree@[self.tree_to_node@[pos]].0 == pos by {
                if pos < t0 && pos >= i0 + plan.moves@.len() {
                    assert(self.tree_to_node@[pos] == old_slots[pos]);
                    assert(old_slots.contains_key(pos));
                    let v = old_slots[pos];
                    assert(old_nodes.contains_key(v) && old_nodes[v].0 == pos);
                    assert(self.node_to_tree@.contains_key(v));
                } else {
                    assert(dest0 <= pos < dest0 + plan.moves@.len());
                    let src = (pos - dest0 + i0) as usize;
                    assert(self.tree_to_node@[pos] == old_slots[src]);
                    assert(old_slots.contains_key(src));
                    let v = old_slots[src];
                    assert(old_nodes.contains_key(v) && old_nodes[v].0 == src);
                    assert(self.node_to_tree@.contains_key(v));
                }
            }
            assert forall|v: usize| #[trigger] old_nodes.contains_key(v) implies self.node_to_tree@.contains_key(v)
                && self.node_to_tree@[v].0 == insertion_target(d, n0, added as nat, old_nodes[v].0 as nat) by {
                assert(self.node_to_tree@.contains_key(v));
            }
            assert forall|v: usize| #[trigger] self.node_to_tree@.contains_key(v) implies self.tree_to_node@.contains_key(
                self.node_to_tree@[v].0,
            ) && self.tree_to_node@[self.node_to_tree@[v].0] == v by {
                let o = old_nodes[v].0;
                if o < i0 + plan.moves@.len() {
                    let q = (dest0 + (o - i0)) as usize;
                    assert(self.tree_to_node@[q] == old_slots[(q - dest0 + i0) as usize]);
                } else {
                    assert(self.tree_to_node@[o] == old_slots[o]);
                }
            }
        }
        let fresh_start = plan.fresh_start;
        let mut i: usize = 0;
        while i < added
            invariant
                i <= added == fresh@.len(),
                fresh_start == i1 + n0,
                i1 + n0 + added <= usize::MAX,
                n0 == old_leaves,
                d == ARITY as nat,
                self.sizes@ == mid,
                self.num_leaves == old_leaves,
                forall|a: int, b: int| 0 <= a < b < fresh@.len() ==> fresh@[a] != fresh@[b],
                forall|j: int| 0 <= j < added ==> !old_nodes.contains_key(#[trigger] fresh@[j]),
                forall|v: usize| #[trigger] old_nodes.contains_key(v) ==> self.node_to_tree@.contains_key(v)
                    && self.node_to_tree@[v].0 == insertion_target(d, n0, added as nat, old_nodes[v].0 as nat),
                forall|j: int| 0 <= j < i ==> self.node_to_tree@.contains_key(#[trigger] fresh@[j])
                    && self.node_to_tree@[fresh@[j]].0 == i1 + n0 + j,
                forall|v: usize| #[trigger] self.node_to_tree@.contains_key(v) ==> old_nodes.contains_key(v) || exists|j: int|
                    0 <= j < i && fresh@[j] == v,
                forall|pos: usize| #[trigger] self.tree_to_node@.contains_key(pos) <==> i1 <= pos < i1 + n0 + i,
                forall|pos: usize| #[trigger] self.tree_to_node@.contains_key(pos) ==> self.node_to_tree@.contains_key(
                    self.tree_to_node@[pos],
                ) && self.node_to_tree@[self.tree_to_node@[pos]].0 == pos,
                forall|v: usize| #[trigger] self.node_to_tree@.contains_key(v) ==> self.tree_to_node@.contains_key(
                    self.node_to_tree@[v].0,
                ) && self.tree_to_node@[self.node_to_tree@[v].0] == v,
            decreases added - i,
        {
            let node = fresh[i];
            let pos = fresh_start + i;
            proof {
                assert(!self.node_to_tree@.contains_key(node)) by {
                    if self.node_to_tree@.contains_key(node) {
                        if !old_nodes.contains_key(node) {
                            let j = choose|j: int| 0 <= j < i && fresh@[j] == node;
                            assert(fresh@[j] != fresh@[i as int]);
                        }
                    }
                }
                assert(!self.tree_to_node@.contains_key(pos));
            }
            self.tree_to_node.insert(pos, node);
            self.node_to_tree.insert(node, TreeIndex(pos));
            proof {
                assert forall|v: usize| #[trigger] self.node_to_tree@.contains_key(v) implies old_nodes.contains_key(v)
                    || exists|j: int| 0 <= j < i + 1 && fresh@[j] == v by {
                    if v == node {
                        assert(fresh@[i as int] == v);
                    }
                }
            }
            i += 1;
        }
        self.num_leaves = plan.new_leaves;
        proof {
            assert(self.first_leaf() == i1);
        }
        if plan.reset_touched {
            touched.clear();
        } else {
            let old_internal = TreeLayout::<ARITY>::internal_count_for_leaves(old_leaves);
            let empty: HashSet<usize> = HashSet::new();
            *touched = filter_positions(touched, false, old_internal, plan.new_internal, &empty);
        }
        let ghost stale = old(touched)@;
        let ghost kept = touched@;
        proof {
            assert(plan.rebuild_start == insertion_rebuild_start(d, n0, added as nat));
            if old(self).sizes_ok_except(stale) && (forall|x: usize| #[trigger] stale.contains(x) ==> x < t0) {
                lemma_insert_sizes_ready(d, n0, added as nat, old(self).sizes@, mid, stale, kept);
            }
        }
        TreeLayout::<ARITY>::rebuild_from_leaves_except(
            &mut self.sizes,
            plan.new_leaves,
            plan.rebuild_start,
            plan.rebuild_end,
            Ghost(kept),
        );
        Ok(())
    }

    /// The positions of the `deleted` nodes, in order, and the set of them;
    /// fails at the first node that is missing or repeated.
    fn locate_deletions(&self, deleted: &[usize]) -> (res: Result<(Vec<TreeIndex>, HashSet<usize>), TreeOpError>)
        requires
            self.wf(),
        ensures
            res is Ok <==> deletion_valid(self.placement(), deleted@, deleted@.len() as int),
            res matches Err(e) ==> exists|k: int|
                0 <= k < deleted@.len() && deletion_valid(self.placement(), deleted@, k) && if self.placement().contains_key(
                    deleted@[k],
                ) {
                    e == TreeOpError::DuplicateDeletion
                } else {
                    e == TreeOpError::NodeNotFound
                },
            res matches Ok((positions, seen)) ==> {
                &&& positions@ == positions_of(self.placement(), deleted@)
                &&& forall|x: usize| #[trigger] seen@.contains(x) <==> is_deleted(positions@, x as int)
            },
    {
        let n = deleted.len();
        let mut positions: Vec<TreeIndex> = Vec::new();
        let mut seen: HashSet<usize> = HashSet::new();
        let mut j: usize = 0;
        while j < n
            invariant
                j <= n == deleted@.len(),
                self.wf(),
                positions@.len() == j,
                deletion_valid(self.placement(), deleted@, j as int),
                forall|k: int| 0 <= k < j ==> #[trigger] positions@[k] == self.placement()[deleted@[k]],
                forall|x: usize| #[trigger] seen@.contains(x) <==> exists|k: int| 0 <= k < j && positions@[k].0 == x,
            decreases n - j,
        {
            let node = deleted[j];
            let idx = match self.node_to_tree.get(&node) {
                Some(idx) => *idx,
                None => {
                    return Err(TreeOpError::NodeNotFound);
                },
            };
            if seen.contains(&idx.0) {
                proof {
                    let k = choose|k: int| 0 <= k < j && positions@[k].0 == idx.0;
                    assert(self.tree_to_node@[idx.0] == node);
                    assert(self.tree_to_node@[positions@[k].0] == deleted@[k]);
                    assert(deleted@[k] == deleted@[j as int]);
                }
                return Err(TreeOpError::DuplicateDeletion);
            }
            proof {
                assert forall|k: int| 0 <= k < j implies deleted@[k] != node by {
                    if deleted@[k] == node {
                        assert(positions@[k].0 == idx.0);
                    }
                }
            }
            let ghost seen_before = seen@;
            let ghost positions_before = positions@;
            seen.insert(idx.0);
            positions.push(idx);
            proof {
                assert forall|x: usize| #[trigger] seen@.contains(x) <==> exists|k: int| 0 <= k < j + 1 && positions@[k].0 == x by {
                    if x == idx.0 {
                        assert(positions@[j as int].0 == x);
                    } else if seen_before.contains(x) {
                        let k = choose|k: int| 0 <= k < j && positions_before[k].0 == x;
                        assert(positions@[k] == positions_before[k]);
                    } else if exists|k: int| 0 <= k < j + 1 && positions@[k].0 == x {
                        let k = choose|k: int| 0 <= k < j + 1 && positions@[k].0 == x;
                        assert(positions@[k] == positions_before[k]);
                    }
                }
            }
            j += 1;
        }
        proof {
            assert(positions@ =~= positions_of(self.placement(), deleted@));
            assert forall|x: usize| #[trigger] seen@.contains(x) <==> is_deleted(positions@, x as int) by {
                if seen@.contains(x) {
                    let k = choose|k: int| 0 <= k < n && positions@[k].0 == x;
                }
            }
        }
        Ok((positions, seen))
    }

    /// Takes the `deleted` nodes, held at `positions`, out of both maps.
    fn detach_nodes(&mut self, deleted: &[usize], positions: &Vec<TreeIndex>)
        requires
            deleted@.len() == positions@.len(),
        ensures
            final(self).sizes@ == old(self).sizes@,
            final(self).num_leaves == old(self).num_leaves,
            forall|v: usize| #[trigger] final(self).node_to_tree@.contains_key(v) <==> old(self).node_to_tree@.contains_key(v)
                && !deleted@.contains(v),
            forall|v: usize| #[trigger] final(self).node_to_tree@.contains_key(v) ==> final(self).node_to_tree@[v]
                == old(self).node_to_tree@[v],
            forall|x: usize| #[trigger] final(self).tree_to_node@.contains_key(x) <==> old(self).tree_to_node@.contains_key(x)
                && !is_deleted(positions@, x as int),
            forall|x: usize| #[trigger] final(self).tree_to_node@.contains_key(x) ==> final(self).tree_to_node@[x]
                == old(self).tree_to_node@[x],
    {
        let ghost nodes0 = self.node_to_tree@;
        let ghost slots0 = self.tree_to_node@;
        let n = deleted.len();
        let mut j: usize = 0;
        while j < n
            invariant
                j <= n == deleted@.len() == positions@.len(),
                self.sizes@ == old(self).sizes@,
                self.num_leaves == old(self).num_leaves,
                nodes0 == old(self).node_to_tree@,
                slots0 == old(self).tree_to_node@,
                forall|v: usize| #[trigger] self.node_to_tree@.contains_key(v) <==> nodes0.contains_key(v)
                    && !deleted@.take(j as int).contains(v),
                forall|v: usize| #[trigger] self.node_to_tree@.contains_key(v) ==> self.node_to_tree@[v] == nodes0[v],
                forall|x: usize| #[trigger] self.tree_to_node@.contains_key(x) <==> slots0.contains_key(x)
                    && !is_deleted(positions@.take(j as int), x as int),
                forall|x: usize| #[trigger] self.tree_to_node@.contains_key(x) ==> self.tree_to_node@[x] == slots0[x],
            decreases n - j,
        {
            let ghost before = positions@.take(j as int);
            self.node_to_tree.remove(&deleted[j]);
            self.tree_to_node.remove(&positions[j].0);
            proof {
                let dnext = deleted@.take(j + 1);
                let dprev = deleted@.take(j as int);
                assert forall|v: usize| #[trigger] dnext.contains(v) <==> dprev.contains(v) || v == deleted@[j as int] by {
                    if dnext.contains(v) {
                        let k = choose|k: int| 0 <= k < dnext.len() && dnext[k] == v;
                        if k < j {
                            assert(dprev[k] == v);
                        }
                    }
                    if dprev.contains(v) {
                        let k = choose|k: int| 0 <= k < dprev.len() && dprev[k] == v;
                        assert(dnext[k] == v);
                    }
                    if v == deleted@[j as int] {
                        assert(dnext[j as int] == v);
                    }
                }
                let after = positions@.take(j + 1);
                assert forall|x: int| #[trigger] is_deleted(after, x) <==> is_deleted(before, x) || positions@[j as int].0 == x by {
                    if is_deleted(after, x) {
                        let k = choose|k: int| 0 <= k < after.len() && after[k].0 == x;
                        if k < j {
                            assert(before[k] == after[k]);
                        }
                    }
                    if is_deleted(before, x) {
                        let k = choose|k: int| 0 <= k < before.len() && before[k].0 == x;
                        assert(after[k] == before[k]);
                    }
                    if positions@[j as int].0 == x {
                        assert(after[j as int] == positions@[j as int]);
                    }
                }
            }
            j += 1;
        }
        proof {
            assert(deleted@.take(n as int) =~= deleted@);
            assert(positions@.take(n as int) =~= positions@);
        }
    }

    /// Applies `moves` in order: the node at each source goes to its
    /// destination, whose size becomes 1.
    fn relocate_tail(&mut self, moves: &Vec<(TreeIndex, TreeIndex)>)
        requires
            maps_agree(old(self).node_to_tree@, old(self).tree_to_node@),
            forall|a: int, b: int| 0 <= a < b < moves@.len() ==> (#[trigger] moves@[a]).0.0 < (#[trigger] moves@[b]).0.0,
            forall|a: int, b: int| 0 <= a < b < moves@.len() ==> (#[trigger] moves@[a]).1.0 != (#[trigger] moves@[b]).1.0,
            forall|a: int, b: int| 0 <= a < moves@.len() && 0 <= b < moves@.len() ==> (#[trigger] moves@[a]).0.0
                != (#[trigger] moves@[b]).1.0,
            forall|k: int| 0 <= k < moves@.len() ==> old(self).tree_to_node@.contains_key((#[trigger] moves@[k]).0.0),
            forall|k: int| 0 <= k < moves@.len() ==> !old(self).tree_to_node@.contains_key((#[trigger] moves@[k]).1.0),
            forall|k: int| 0 <= k < moves@.len() ==> (#[trigger] moves@[k]).1.0 < old(self).sizes@.len(),
        ensures
            maps_agree(final(self).node_to_tree@, final(self).tree_to_node@),
            final(self).num_leaves == old(self).num_leaves,
            forall|v: usize| #[trigger] final(self).node_to_tree@.contains_key(v) <==> old(self).node_to_tree@.contains_key(v),
            forall|v: usize| #[trigger] old(self).node_to_tree@.contains_key(v) ==> final(self).node_to_tree@[v].0
                == moved_position(moves@, old(self).node_to_tree@[v].0 as int, moves@.len() as int),
            final(self).sizes@.len() == old(self).sizes@.len(),
            forall|q: int| 0 <= q < old(self).sizes@.len() ==> #[trigger] final(self).sizes@[q] == if is_destination(moves@, q) {
                1usize
            } else {
                old(self).sizes@[q]
            },
    {
        let ghost nodes0 = self.node_to_tree@;
        let ghost sizes0 = self.sizes@;
        let mut m: usize = 0;
        while m < moves.len()
            invariant
                m <= moves@.len(),
                nodes0 == old(self).node_to_tree@,
                sizes0 == old(self).sizes@,
                self.num_leaves == old(self).num_leaves,
                maps_agree(self.node_to_tree@, self.tree_to_node@),
                forall|a: int, b: int| 0 <= a < b < moves@.len() ==> (#[trigger] moves@[a]).0.0 < (#[trigger] moves@[b]).0.0,
                forall|a: int, b: int| 0 <= a < b < moves@.len() ==> (#[trigger] moves@[a]).1.0 != (#[trigger] moves@[b]).1.0,
                forall|a: int, b: int| 0 <= a < moves@.len() && 0 <= b < moves@.len() ==> (#[trigger] moves@[a]).0.0
                    != (#[trigger] moves@[b]).1.0,
                forall|k: int| m <= k < moves@.len() ==> self.tree_to_node@.contains_key((#[trigger] moves@[k]).0.0),
                forall|k: int| m <= k < moves@.len() ==> !self.tree_to_node@.contains_key((#[trigger] moves@[k]).1.0),
                forall|k: int| 0 <= k < moves@.len() ==> (#[trigger] moves@[k]).1.0 < sizes0.len(),
                forall|v: usize| #[trigger] self.node_to_tree@.contains_key(v) <==> nodes0.contains_key(v),
                forall|v: usize| #[trigger] nodes0.contains_key(v) ==> self.node_to_tree@[v].0 == moved_position(
                    moves@,
                    nodes0[v].0 as int,
                    m as int,
                ),
                self.sizes@.len() == sizes0.len(),
                forall|q: int| 0 <= q < sizes0.len() ==> #[trigger] self.sizes@[q] == if is_destination(moves@.take(m as int), q) {
                    1usize
                } else {
                    sizes0[q]
                },
            decreases moves@.len() - m,
        {
            let (src, dst) = moves[m];
            let ghost nodes_before = self.node_to_tree@;
            let ghost slots_before = self.tree_to_node@;
            proof {
                assert(moves@[m as int] == (src, dst));
                assert(self.tree_to_node@.contains_key(src.0));
            }
            let node = match self.tree_to_node.remove(&src.0) {
                Some(node) => node,
                None => {
                    proof {
                        assert(false);
                    }
                    return;
                },
            };
            let ghost o = nodes0[node].0 as int;
            proof {
                assert(self.node_to_tree@[node].0 == src.0);
                if exists|k: int| 0 <= k < moves@.len() && (#[trigger] moves@[k]).0.0 == o {
                    let k = choose|k: int| 0 <= k < moves@.len() && (#[trigger] moves@[k]).0.0 == o;
                    lemma_moved_position(moves@, o, m as int, k);
                    if k < m {
                        assert(moves@[m as int].0.0 != moves@[k].1.0);
                    }
                    assert(k >= m);
                } else {
                    lemma_not_moved(moves@, o, m as int);
                }
                assert(o == src.0);
            }
            let ghost sizes_before = self.sizes@;
            self.sizes.set(dst.0, 1);
            self.tree_to_node.insert(dst.0, node);
            self.node_to_tree.insert(node, dst);
            proof {
                lemma_moved_position(moves@, o, m + 1, m as int);
                let before = moves@.take(m as int);
                let after = moves@.take(m + 1);
                assert(after =~= before.push(moves@[m as int]));
                assert forall|q: int| #[trigger] is_destination(after, q) <==> is_destination(before, q) || dst.0 == q by {
                    if is_destination(after, q) {
                        let k = choose|k: int| 0 <= k < after.len() && (#[trigger] after[k]).1.0 == q;
                        if k < m {
                            assert(before[k] == after[k]);
                        }
                    }
                    if is_destination(before, q) {
                        let k = choose|k: int| 0 <= k < before.len() && (#[trigger] before[k]).1.0 == q;
                        assert(after[k] == before[k]);
                    }
                    if dst.0 == q {
                        assert(after[m as int] == moves@[m as int]);
                    }
                }
                assert forall|v: usize| #[trigger] nodes0.contains_key(v) implies self.node_to_tree@[v].0 == moved_position(
                    moves@,
                    nodes0[v].0 as int,
                    m + 1,
                ) by {
                    let ov = nodes0[v].0 as int;
                    if v != node {
                        assert(self.node_to_tree@[v] == nodes_before[v]);
                        if exists|k: int| 0 <= k < moves@.len() && (#[trigger] moves@[k]).0.0 == ov {
                            let k = choose|k: int| 0 <= k < moves@.len() && (#[trigger] moves@[k]).0.0 == ov;
                            lemma_moved_position(moves@, ov, m as int, k);
                            lemma_moved_position(moves@, ov, m + 1, k);
                            if k == m {
                                assert(nodes_before.contains_key(v));
                                assert(nodes_before[v].0 == src.0);
                                assert(slots_before[nodes_before[v].0] == v);
                            }
                        } else {
                            lemma_not_moved(moves@, ov, m as int);
                            lemma_not_moved(moves@, ov, m + 1);
                        }
                    }
                }
            }
            m += 1;
        }
        proof {
            assert(moves@.take(moves@.len() as int) =~= moves@);
        }
    }

    /// Removes the `deleted` nodes. The layout shrinks to the new node
    /// count: the surviving nodes that are cut off move as `deletion_target`
    /// says, the positions that receive one get size 1, and the sizes above
    /// the promoted positions are recomputed. Pending touched positions are
    /// kept where their leaf stays, and the positions whose ancestors still
    /// need a recompute are added: the destinations in the old leaf block,
    /// those whose source was touched outside the promoted positions, and the
    /// last position of the new layout when it has two leaves or more and is
    /// not promoted. Nothing changes when a node is missing or deleted twice.
    #[verifier::spinoff_prover]
    #[verifier::rlimit(80)]
    pub fn delete_nodes_compact(&mut self, deleted: &[usize], touched: &mut HashSet<usize>) -> (res: Result<(), TreeOpError>)
        requires
            old(self).wf(),
        ensures
            final(self).wf(),
            res is Ok <==> deletion_valid(old(self).placement(), deleted@, deleted@.len() as int),
            res matches Err(e) ==> exists|k: int|
                0 <= k < deleted@.len() && deletion_valid(old(self).placement(), deleted@, k) && if old(
                    self,
                ).placement().contains_key(deleted@[k]) {
                    e == TreeOpError::DuplicateDeletion
                } else {
                    e == TreeOpError::NodeNotFound
                },
            res is Err ==> *final(self) == *old(self) && final(touched)@ == old(touched)@,
            deleted@.len() == 0 ==> *final(self) == *old(self) && final(touched)@ == old(touched)@,
            res is Ok ==> {
                let d = ARITY as nat;
                let n0 = old(self).leaf_count();
                let n1 = (n0 - deleted@.len()) as nat;
                let removed = positions_of(old(self).placement(), deleted@);
                let i0 = internal_count(d, n0);
                let i1 = internal_count(d, n1);
                let t1 = i1 + n1;
                let pe = promoted_end(d, n0, n1);
                let sources = tail_sources(d, n0, removed);
                &&& deleted@.len() <= n0
                &&& final(self).leaf_count() == n1
                &&& forall|v: usize| #[trigger] final(self).placement().contains_key(v) <==> (old(self).placement().contains_key(v)
                    && !deleted@.contains(v))
                &&& forall|v: usize| #[trigger] final(self).placement().contains_key(v) ==> final(self).placement()[v].0
                    == deletion_target(d, n0, removed, old(self).placement()[v].0 as nat)
                &&& (n1 == 0 && deleted@.len() > 0) ==> final(touched)@ == Set::<usize>::empty()
                &&& (n1 > 0 && deleted@.len() > 0) ==> {
                    &&& forall|p: int|
                        0 <= p < t1 && !ancestor_of_range(d, p as nat, i1, pe) ==> #[trigger] final(self).size_view()[p]
                            == if is_tail_destination(d, n0, removed, p) {
                            1usize
                        } else {
                            old(self).size_view()[p]
                        }
                    &&& forall|p: int|
                        0 <= p < t1 && ancestor_of_range(d, p as nat, i1, pe) ==> #[trigger] final(self).size_view()[p]
                            == capped_child_sum(d, final(self).size_view(), p as nat)
                    &&& forall|x: usize| #[trigger] final(touched)@.contains(x) <==> (old(touched)@.contains(x) && i0 <= x < t1
                        && !is_deleted(removed, x as int)) || (exists|k: int|
                        0 <= k < sources.len() && tail_destination(d, n0, removed, k) == x && ((old(touched)@.contains(
                            sources[k],
                        ) && !(i1 <= x < pe)) || x >= i0)) || (n1 > 1 && x == t1 - 1 && !(i1 <= x < pe))
                }
                &&& (forall|x: usize| #[trigger] old(touched)@.contains(x) ==> old(self).first_leaf() <= x < old(self).total())
                    ==> forall|x: usize| #[trigger] final(touched)@.contains(x) ==> final(self).first_leaf() <= x
                    < final(self).total()
                &&& old(self).sizes_ok_except(old(touched)@) && (forall|x: usize| #[trigger]
                    old(touched)@.contains(x) ==> old(self).first_leaf() <= x < old(self).total()) ==> {
                    &&& final(self).sizes_ok_except(final(touched)@)
                    &&& forall|x: usize| #[trigger]
                        final(touched)@.contains(x) ==> final(self).first_leaf() <= x < final(self).total()
                }
            },
    {
        let n = deleted.len();
        if n == 0 {
            proof {
                assert(positions_of(self.placement(), deleted@) =~= Seq::<TreeIndex>::empty());
            }
            return Ok(());
        }
        let (positions, seen) = match self.locate_deletions(deleted) {
            Ok(found) => found,
            Err(e) => {
                return Err(e);
            },
        };
        let ghost d = ARITY as nat;
        let ghost old_nodes = self.node_to_tree@;
        let ghost old_slots = self.tree_to_node@;
        let ghost old_sizes = self.sizes@;
        let ghost removed = positions@;
        let old_leaves = self.num_leaves;
        let ghost n0 = old_leaves as nat;
        let ghost i0 = internal_count(d, n0) as int;
        let ghost t0 = i0 + n0;
        proof {
            assert forall|v: usize| #[trigger] old_nodes.contains_key(v) implies i0 <= old_nodes[v].0 < t0
                && old_slots.contains_key(old_nodes[v].0) && old_slots[old_nodes[v].0] == v by {
                assert(self.node_to_tree@.contains_key(v));
            }
            assert forall|x: usize| #[trigger] old_slots.contains_key(x) implies old_nodes.contains_key(old_slots[x])
                && old_nodes[old_slots[x]].0 == x by {
                assert(self.tree_to_node@.contains_key(x));
            }
            assert(removed =~= positions_of(self.placement(), deleted@));
            assert forall|a: int, b: int| 0 <= a < b < n implies removed[a] != removed[b] by {
                assert(old_slots[removed[a].0] == deleted@[a]);
                assert(old_slots[removed[b].0] == deleted@[b]);
            }
            assert(valid_deletions(removed, n as int, i0, t0));
            assert(old_leaves <= usize::MAX / 2) by (nonlinear_arith)
                requires
                    (2 * old_leaves + 1) * (ARITY + 1) <= usize::MAX,
                    ARITY >= 2,
            ;
            assert forall|v: usize| #[trigger] old_nodes.contains_key(v) implies (deleted@.contains(v) <==> is_deleted(
                removed,
                old_nodes[v].0 as int,
            )) by {
                if deleted@.contains(v) {
                    let k = choose|k: int| 0 <= k < deleted@.len() && deleted@[k] == v;
                    assert(removed[k].0 == old_nodes[v].0);
                }
                if is_deleted(removed, old_nodes[v].0 as int) {
                    let k = choose|k: int| 0 <= k < removed.len() && removed[k].0 == old_nodes[v].0;
                    assert(old_slots[removed[k].0] == deleted@[k]);
                    assert(deleted@[k] == v);
                }
            }
        }
        let plan = match TreeLayout::<ARITY>::plan_leaf_deletion(old_leaves, positions.as_slice()) {
            Ok(plan) => plan,
            Err(_) => {
                proof {
                    assert(false);
                }
                return Err(TreeOpError::DuplicateDeletion);
            },
        };
        if plan.new_leaves == 0 {
            proof {
                lemma_live_len(removed, i0, t0);
                lemma_count_is_filter_len(removed, i0, t0);
                lemma_filter_all(removed, i0, t0);
                assert forall|v: usize| #[trigger] old_nodes.contains_key(v) implies deleted@.contains(v) by {
                    let o = old_nodes[v].0 as int;
                    if !is_deleted(removed, o) {
                        lemma_live_complete(removed, i0, t0, o);
                    }
                }
            }
            self.node_to_tree.clear();
            self.tree_to_node.clear();
            self.sizes.clear();
            self.num_leaves = 0;
            touched.clear();
            proof {
                assert(self.first_leaf() == 0);
                assert((2 * 0 + 1) * (ARITY + 1) <= usize::MAX) by (nonlinear_arith)
                    requires
                        (2 * old_leaves + 1) * (ARITY + 1) <= usize::MAX,
                ;
            }
            return Ok(());
        }
        let ghost n1 = plan.new_leaves as nat;
        let ghost i1 = plan.new_internal as int;
        let ghost t1 = i1 + n1;
        let ghost pe = plan.promoted_end as int;
        let ghost lo_src = if i0 > t1 { i0 } else { t1 };
        let ghost srcs = live_positions(removed, lo_src, t0);
        let ghost kept_holes = deleted_within(removed, i0, t1);
        let ghost moves = plan.moves@;
        proof {
            lemma_internal_count_monotone(d, n1, n0);
            lemma_live_len(removed, lo_src, t0);
            lemma_deleted_within_members(removed, i0, t1);
            assert(srcs == tail_sources(d, n0, removed));
            assert forall|k: int| 0 <= k < moves.len() implies (#[trigger] moves[k]).1.0 == tail_destination(d, n0, removed, k)
                && i1 <= moves[k].1.0 < t1 && (moves[k].1.0 < i0 || is_deleted(removed, moves[k].1.0 as int)) by {
                if k >= pe - i1 {
                    assert(kept_holes[k - (pe - i1)] == moves[k].1);
                }
            }
            assert forall|a: int, b: int| 0 <= a < b < moves.len() implies (#[trigger] moves[a]).0.0 < (#[trigger] moves[b]).0.0 by {
                assert(srcs[a] < srcs[b]);
            }
            assert forall|a: int, b: int| 0 <= a < b < moves.len() implies (#[trigger] moves[a]).1.0 != (#[trigger] moves[b]).1.0 by {
                if a >= pe - i1 {
                    assert(kept_holes[a - (pe - i1)] != kept_holes[b - (pe - i1)]);
                }
            }
            assert forall|a: int, b: int| 0 <= a < moves.len() && 0 <= b < moves.len() implies (#[trigger] moves[a]).0.0
                != (#[trigger] moves[b]).1.0 by {
                assert(srcs[a] >= lo_src);
            }
        }
        self.detach_nodes(deleted, &positions);
        proof {
            assert(maps_agree(self.node_to_tree@, self.tree_to_node@)) by {
                assert forall|v: usize| #[trigger] self.node_to_tree@.contains_key(v) implies self.tree_to_node@.contains_key(
                    self.node_to_tree@[v].0,
                ) && self.tree_to_node@[self.node_to_tree@[v].0] == v by {
                    assert(old_nodes.contains_key(v));
                    assert(!is_deleted(removed, old_nodes[v].0 as int));
                }
                assert forall|x: usize| #[trigger] self.tree_to_node@.contains_key(x) implies self.node_to_tree@.contains_key(
                    self.tree_to_node@[x],
                ) && self.node_to_tree@[self.tree_to_node@[x]].0 == x by {
                    assert(old_slots.contains_key(x));
                    assert(!is_deleted(removed, x as int));
                    let v = old_slots[x];
                    assert(self.tree_to_node@[x] == v);
                    assert(old_nodes.contains_key(v));
                    assert(old_nodes[v].0 == x);
                    assert(!deleted@.contains(v));
                    assert(self.node_to_tree@.contains_key(v));
                }
            }
            assert forall|k: int| 0 <= k < moves.len() implies self.tree_to_node@.contains_key((#[trigger] moves[k]).0.0) by {
                assert(srcs[k] >= lo_src && !is_deleted(removed, srcs[k] as int));
                assert(old_slots.contains_key(moves[k].0.0));
            }
            assert forall|k: int| 0 <= k < moves.len() implies !self.tree_to_node@.contains_key((#[trigger] moves[k]).1.0) by {
                assert(moves[k].1.0 < i0 || is_deleted(removed, moves[k].1.0 as int));
            }
        }
        let ghost detached = self.node_to_tree@;
        self.relocate_tail(&plan.moves);
        proof {
            lemma_delete_placement(
                d,
                n0,
                removed,
                deleted@,
                old_nodes,
                old_slots,
                moves,
                detached,
                self.node_to_tree@,
                self.tree_to_node@,
            );
        }
        let promoted_start = plan.promoted_start;
        let promoted_stop = plan.promoted_end;
        let new_total = plan.new_internal + plan.new_leaves;
        let ghost stale = touched@;
        let moved_touched = take_moved_touched(&plan.moves, touched, promoted_start, promoted_stop);
        let old_internal = TreeLayout::<ARITY>::internal_count_for_leaves(old_leaves);
        *touched = filter_positions(touched, true, old_internal, new_total, &seen);
        mark_all(touched, &moved_touched);
        mark_destinations_from(touched, &plan.moves, old_internal);
        if plan.new_leaves > 1 {
            let boundary = new_total - 1;
            if boundary < promoted_start || boundary >= promoted_stop {
                touched.insert(boundary);
            }
        }
        let ghost relocated = self.sizes@;
        self.sizes.truncate(new_total);
        self.num_leaves = plan.new_leaves;
        let ghost kept = touched@;
        proof {
            assert(stale == old(touched)@);
            assert(self.first_leaf() == i1);
            assert((2 * n1 + 1) * (ARITY + 1) <= usize::MAX) by (nonlinear_arith)
                requires
                    (2 * n0 + 1) * (ARITY + 1) <= usize::MAX,
                    n1 <= n0,
            ;
            lemma_deletion_touched(d, n0, removed, moves, stale, moved_touched@, kept);
            if old(self).sizes_ok_except(stale) && (forall|x: usize| #[trigger] stale.contains(x) ==> i0 <= x < t0) {
                lemma_deletion_sizes(d, n0, removed, moves, old_sizes, self.sizes@, stale, kept);
            }
        }
        if promoted_start < promoted_stop {
            TreeLayout::<ARITY>::rebuild_from_leaves_except(
                &mut self.sizes,
                plan.new_leaves,
                promoted_start,
                promoted_stop,
                Ghost(kept),
            );
        }
        Ok(())
    }

    /// Recomputes the size of every proper ancestor of the positions in
    /// `update_set`, children before parents. When only those ancestors held
    /// wrong sizes, afterwards every position holds its leaf count.
    pub fn apply_updates_from_set(&mut self, update_set: &HashSet<usize>)
        requires
            old(self).wf(),
            forall|x: usize| #[trigger] update_set@.contains(x) ==> x < old(self).total(),
        ensures
            final(self).wf(),
            final(self).placement() == old(self).placement(),
            final(self).occupant() == old(self).occupant(),
            final(self).leaf_count() == old(self).leaf_count(),
            forall|p: int|
                0 <= p < old(self).total() && !ancestor_of_set(ARITY as nat, p as nat, update_set@)
                    ==> #[trigger] final(self).size_view()[p] == old(self).size_view()[p],
            forall|p: int|
                0 <= p < old(self).total() && ancestor_of_set(ARITY as nat, p as nat, update_set@)
                    ==> #[trigger] final(self).size_view()[p] == capped_child_sum(
                    ARITY as nat,
                    final(self).size_view(),
                    p as nat,
                ),
            old(self).sizes_ok_except(update_set@) ==> final(self).sizes_track_leaves(),
    {
        if update_set.is_empty() || self.num_leaves == 0 {
            proof {
                assert forall|p: int| 0 <= p < self.total() implies !#[trigger] ancestor_of_set(
                    ARITY as nat,
                    p as nat,
                    update_set@,
                ) by {
                    if ancestor_of_set(ARITY as nat, p as nat, update_set@) {
                        let b = choose|b: usize| #[trigger] update_set@.contains(b) && is_proper_ancestor(ARITY as nat, p as nat, b as nat);
                    }
                }
                if old(self).sizes_ok_except(update_set@) {
                    assert forall|p: int| 0 <= p < self.total() implies !#[trigger] ancestor_of_set(
                        ARITY as nat,
                        p as nat,
                        Set::<usize>::empty(),
                    ) by {
                        if ancestor_of_set(ARITY as nat, p as nat, Set::<usize>::empty()) {
                            let b = choose|b: usize| #[trigger] Set::<usize>::empty().contains(b) && is_proper_ancestor(
                                ARITY as nat,
                                p as nat,
                                b as nat,
                            );
                        }
                    }
                }
            }
            return;
        }
        let updates = positions_in(update_set);
        proof {
            assert forall|p: int| 0 <= p < self.total() implies (#[trigger] is_ancestor_of_some(
                ARITY as nat,
                p as nat,
                updates@,
            ) <==> ancestor_of_set(ARITY as nat, p as nat, update_set@)) by {
                if is_ancestor_of_some(ARITY as nat, p as nat, updates@) {
                    let k = choose|k: int|
                        0 <= k < updates@.len() && is_proper_ancestor(ARITY as nat, p as nat, #[trigger] updates@[k].0 as nat);
                    assert(update_set@.contains(updates@[k].0));
                }
                if ancestor_of_set(ARITY as nat, p as nat, update_set@) {
                    let b = choose|b: usize| #[trigger] update_set@.contains(b) && is_proper_ancestor(ARITY as nat, p as nat, b as nat);
                    let k = choose|k: int| 0 <= k < updates@.len() && (#[trigger] updates@[k]).0 == b;
                    assert(is_proper_ancestor(ARITY as nat, p as nat, updates@[k].0 as nat));
                }
            }
            assert forall|k: int| 0 <= k < updates@.len() implies (#[trigger] updates@[k]).0 < self.sizes@.len() by {
                assert(update_set@.contains(updates@[k].0));
            }
        }
        TreeLayout::<ARITY>::recompute_sizes_above(&mut self.sizes, self.num_leaves, updates.as_slice());
        proof {
            if old(self).sizes_ok_except(update_set@) {
                assert forall|p: int| 0 <= p < self.total() implies !#[trigger] ancestor_of_set(
                    ARITY as nat,
                    p as nat,
                    Set::<usize>::empty(),
                ) by {
                    if ancestor_of_set(ARITY as nat, p as nat, Set::<usize>::empty()) {
                        let b = choose|b: usize| #[trigger] Set::<usize>::empty().contains(b) && is_proper_ancestor(
                            ARITY as nat,
                            p as nat,
                            b as nat,
                        );
                    }
                }
            }
        }
    }

    /// Sorts a batch of operations, `(node, Some(value))` to set a node's
    /// value and `(node, None)` to remove it, into fresh, modified and
    /// deleted nodes; the removal of a node that is not in the tree is
    /// dropped. A node with two operations refuses the batch.
    pub fn classify_node_ops<W: Copy>(&self, diffs: &[(usize, Option<W>)]) -> (res: Result<ClassifiedNodeOps<W>, TreeOpError>)
        ensures
            res is Ok <==> distinct_nodes(diffs@),
            res matches Err(e) ==> e == TreeOpError::DuplicateOperation,
            res matches Ok(ops) ==> {
                &&& ops.fresh@ == fresh_in(diffs@, self.placement())
                &&& ops.modified@ == modified_in(diffs@, self.placement())
                &&& ops.deleted@ == deletions_in(diffs@, self.placement())
            },
    {
        let mut seen: HashSet<usize> = HashSet::new();
        let mut fresh: Vec<(usize, W)> = Vec::new();
        let mut modified: Vec<(usize, W)> = Vec::new();
        let mut deleted: Vec<usize> = Vec::new();
        let mut i: usize = 0;
        while i < diffs.len()
            invariant
                i <= diffs@.len(),
                distinct_nodes(diffs@.take(i as int)),
                forall|x: usize| #[trigger] seen@.contains(x) <==> exists|k: int| 0 <= k < i && diffs@[k].0 == x,
                fresh@ == fresh_in(diffs@.take(i as int), self.placement()),
                modified@ == modified_in(diffs@.take(i as int), self.placement()),
                deleted@ == deletions_in(diffs@.take(i as int), self.placement()),
            decreases diffs@.len() - i,
        {
            let (node, value) = diffs[i];
            let ghost prefix = diffs@.take(i as int);
            let ghost next = diffs@.take(i + 1);
            proof {
                assert(next.drop_last() =~= prefix);
                assert(next.last() == diffs@[i as int]);
            }
            if seen.contains(&node) {
                proof {
                    let k = choose|k: int| 0 <= k < i && diffs@[k].0 == node;
                    assert(diffs@[k].0 == diffs@[i as int].0);
                }
                return Err(TreeOpError::DuplicateOperation);
            }
            seen.insert(node);
            match value {
                Some(v) => {
                    if self.node_to_tree.contains_key(&node) {
                        modified.push((node, v));
                    } else {
                        fresh.push((node, v));
                    }
                },
                None => {
                    if self.node_to_tree.contains_key(&node) {
                        deleted.push(node);
                    }
                },
            }
            proof {
                assert forall|a: int, b: int| 0 <= a < b < next.len() implies next[a].0 != next[b].0 by {
                    if b < i {
                        assert(prefix[a] == next[a] && prefix[b] == next[b]);
                    } else {
                        assert(next[a] == diffs@[a]);
                        if diffs@[a].0 == node {
                            assert(seen@.contains(node)) by {
                                assert(exists|k: int| 0 <= k < i && diffs@[k].0 == node);
                            }
                        }
                    }
                }
                assert forall|x: usize| #[trigger] seen@.contains(x) <==> exists|k: int| 0 <= k < i + 1 && diffs@[k].0 == x by {
                    if x == node {
                        assert(diffs@[i as int].0 == x);
                    }
                }
            }
            i += 1;
        }
        proof {
            assert(diffs@.take(diffs@.len() as int) =~= diffs@);
        }
        Ok(ClassifiedNodeOps { fresh, modified, deleted })
    }

    /// Touching more positions keeps the sizes that are right outside them
    /// right.
    proof fn lemma_sizes_ok_grow(&self, a: Set<usize>, b: Set<usize>)
        requires
            self.sizes_ok_except(a),
            a.subset_of(b),
        ensures
            self.sizes_ok_except(b),
    {
        assert forall|p: int| 0 <= p < self.total() && !ancestor_of_set(ARITY as nat, p as nat, b) implies !#[trigger] ancestor_of_set(
            ARITY as nat,
            p as nat,
            a,
        ) by {
            if ancestor_of_set(ARITY as nat, p as nat, a) {
                let x = choose|x: usize| #[trigger] a.contains(x) && is_proper_ancestor(ARITY as nat, p as nat, x as nat);
                assert(b.contains(x));
            }
        }
    }

    /// Applies a batch of node operations: `(node, Some(value))` adds the
    /// node or changes its value, `(node, None)` removes it. The deletions
    /// run first, then the fresh nodes join, then the modified nodes are
    /// marked, and finally the sizes above every touched position are
    /// recomputed, so that sizes that held leaf counts before still do. A
    /// node with two operations refuses the batch and nothing changes.
    pub fn apply_node_ops<W: Copy>(&mut self, diffs: &[(usize, Option<W>)]) -> (res: Result<(), TreeOpError>)
        requires
            old(self).wf(),
            (2 * (old(self).leaf_count() + diffs@.len()) + 1) * (ARITY + 1) <= usize::MAX,
        ensures
            final(self).wf(),
            res is Ok <==> distinct_nodes(diffs@),
            res is Err ==> res == Err::<(), TreeOpError>(TreeOpError::DuplicateOperation) && *final(self) == *old(self),
            res is Ok ==> {
                let d = ARITY as nat;
                let n0 = old(self).leaf_count();
                let dels = deletions_in(diffs@, old(self).placement());
                let fresh = fresh_in(diffs@, old(self).placement());
                let kept = (n0 - dels.len()) as nat;
                let removed = positions_of(old(self).placement(), dels);
                &&& final(self).leaf_count() == kept + fresh.len()
                &&& forall|v: usize| #[trigger] final(self).placement().contains_key(v) <==> (old(self).placement().contains_key(v)
                    && !dels.contains(v)) || exists|i: int| 0 <= i < fresh.len() && fresh[i].0 == v
                &&& forall|v: usize|
                    old(self).placement().contains_key(v) && !dels.contains(v) ==> #[trigger] final(self).placement()[v].0
                        == insertion_target(
                        d,
                        kept,
                        fresh.len(),
                        deletion_target(d, n0, removed, old(self).placement()[v].0 as nat) as nat,
                    )
                &&& forall|i: int|
                    0 <= i < fresh.len() ==> final(self).placement()[#[trigger] fresh[i].0].0 == internal_count(
                        d,
                        kept + fresh.len(),
                    ) + kept + i
                &&& old(self).sizes_track_leaves() ==> final(self).sizes_track_leaves()
            },
    {
        let ops = match self.classify_node_ops(diffs) {
            Ok(ops) => ops,
            Err(e) => {
                return Err(e);
            },
        };
        let ghost p0 = self.placement();
        let ghost n0 = self.leaf_count();
        let ghost d = ARITY as nat;
        proof {
            lemma_classified(diffs@, p0);
        }
        let mut touched: HashSet<usize> = HashSet::new();
        let ghost s0 = self.sizes_track_leaves();
        proof {
            assert(touched@ =~= Set::<usize>::empty());
        }
        match self.delete_nodes_compact(ops.deleted.as_slice(), &mut touched) {
            Ok(()) => {},
            Err(_) => {
                proof {
                    assert(deletion_valid(p0, ops.deleted@, ops.deleted@.len() as int));
                    assert(false);
                }
                return Err(TreeOpError::DuplicateOperation);
            },
        }
        let ghost p1 = self.placement();
        let ghost t1 = touched@;
        let fresh_nodes = nodes_of(&ops.fresh);
        proof {
            assert forall|i: int| 0 <= i < fresh_nodes@.len() implies !p1.contains_key(#[trigger] fresh_nodes@[i]) by {
                assert(fresh_nodes@[i] == ops.fresh@[i].0);
            }
            assert forall|a: int, b: int| 0 <= a < b < fresh_nodes@.len() implies fresh_nodes@[a] != fresh_nodes@[b] by {
                assert(fresh_nodes@[a] == ops.fresh@[a].0);
                assert(fresh_nodes@[b] == ops.fresh@[b].0);
            }
            assert((2 * (self.leaf_count() + fresh_nodes@.len()) + 1) * (ARITY + 1) <= usize::MAX) by (nonlinear_arith)
                requires
                    (2 * (n0 + diffs@.len()) + 1) * (ARITY + 1) <= usize::MAX,
                    self.leaf_count() <= n0,
                    fresh_nodes@.len() <= diffs@.len(),
            ;
        }
        match self.insert_fresh_nodes(fresh_nodes.as_slice(), &mut touched) {
            Ok(()) => {},
            Err(_) => {
                proof {
                    assert(false);
                }
                return Err(TreeOpError::DuplicateOperation);
            },
        }
        let ghost t2 = touched@;
        let modified_nodes = nodes_of(&ops.modified);
        proof {
            assert forall|i: int| 0 <= i < modified_nodes@.len() implies self.placement().contains_key(#[trigger] modified_nodes@[i]) by {
                let v = modified_nodes@[i];
                assert(v == ops.modified@[i].0);
                assert(p0.contains_key(v));
                assert(!ops.deleted@.contains(v)) by {
                    if ops.deleted@.contains(v) {
                        let b = choose|b: int| 0 <= b < ops.deleted@.len() && ops.deleted@[b] == v;
                        let ia = choose|ia: int| 0 <= ia < diffs@.len() && (#[trigger] diffs@[ia]).0 == ops.modified@[i].0 && diffs@[ia].1 is Some;
                        let ib = choose|ib: int| 0 <= ib < diffs@.len() && (#[trigger] diffs@[ib]).0 == ops.deleted@[b] && diffs@[ib].1 is None;
                        assert(ia != ib);
                    }
                }
                assert(p1.contains_key(v));
            }
        }
        match self.update_modified_nodes(modified_nodes.as_slice(), &mut touched) {
            Ok(()) => {},
            Err(_) => {
                proof {
                    assert(false);
                }
                return Err(TreeOpError::DuplicateOperation);
            },
        }
        let ghost t3 = touched@;
        proof {
            assert(t2.subset_of(t3));
            assert forall|x: usize| #[trigger] t3.contains(x) implies x < self.total() by {
                if !t2.contains(x) {
                    let i = choose|i: int| 0 <= i < modified_nodes@.len() && self.placement()[modified_nodes@[i]].0 == x;
                    assert(self.placement().contains_key(modified_nodes@[i]));
                }
            }
            if s0 {
                self.lemma_sizes_ok_grow(t2, t3);
            }
        }
        let ghost p3 = self.placement();
        self.apply_updates_from_set(&touched);
        proof {
            assert(self.placement() == p3);
            if s0 {
                assert(self.sizes_track_leaves());
            }
            assert forall|i: int| 0 <= i < fresh_in(diffs@, p0).len() implies #[trigger] fresh_in(diffs@, p0)[i].0 == fresh_nodes@[i] by {}
            assert forall|v: usize| #[trigger] fresh_nodes@.contains(v) <==> exists|i: int|
                0 <= i < fresh_in(diffs@, p0).len() && fresh_in(diffs@, p0)[i].0 == v by {
                if fresh_nodes@.contains(v) {
                    let i = choose|i: int| 0 <= i < fresh_nodes@.len() && fresh_nodes@[i] == v;
                    assert(fresh_in(diffs@, p0)[i].0 == v);
                }
                if exists|i: int| 0 <= i < fresh_in(diffs@, p0).len() && fresh_in(diffs@, p0)[i].0 == v {
                    let i = choose|i: int| 0 <= i < fresh_in(diffs@, p0).len() && fresh_in(diffs@, p0)[i].0 == v;
                    assert(fresh_nodes@[i] == v);
                }
            }
            let dels = deletions_in(diffs@, p0);
            let kept = (n0 - dels.len()) as nat;
            assert(self.leaf_count() == kept + fresh_nodes@.len());
            assert(forall|v: usize| #[trigger] self.placement().contains_key(v) <==> (p0.contains_key(v)
                    && !dels.contains(v)) || exists|i: int| 0 <= i < fresh_in(diffs@, p0).len() && fresh_in(diffs@, p0)[i].0 == v);
            assert forall|v: usize| p0.contains_key(v) && !dels.contains(v) implies #[trigger] self.placement()[v].0
                == insertion_target(
                d,
                kept,
                fresh_in(diffs@, p0).len(),
                deletion_target(d, n0, positions_of(p0, dels), p0[v].0 as nat) as nat,
            ) by {
                assert(p1.contains_key(v));
                assert(p1[v].0 == deletion_target(d, n0, positions_of(p0, dels), p0[v].0 as nat));
            }
            assert(forall|i: int|
                    0 <= i < fresh_in(diffs@, p0).len() ==> self.placement()[#[trigger] fresh_in(diffs@, p0)[i].0].0 == internal_count(
                        d,
                        kept + fresh_in(diffs@, p0).len(),
                    ) + kept + i);
        }
        Ok(())
    }

    /// Marks the positions of the `modified` nodes as touched; fails at the
    /// first node that is not in the tree, after marking the ones before it.
    pub fn update_modified_nodes(&self, modified: &[usize], touched: &mut HashSet<usize>) -> (res: Result<(), TreeOpError>)
        requires
            self.wf(),
        ensures
            res is Ok <==> forall|i: int|
                0 <= i < modified@.len() ==> self.placement().contains_key(#[trigger] modified@[i]),
            res matches Err(e) ==> e == TreeOpError::NodeNotFound,
            ({
                let done = if res is Ok {
                    modified@.len() as int
                } else {
                    choose|k: int|
                        0 <= k < modified@.len() && !self.placement().contains_key(modified@[k])
                            && forall|i: int|
                            0 <= i < k ==> self.placement().contains_key(#[trigger] modified@[i])
                };
                forall|x: usize| #[trigger]
                    final(touched)@.contains(x) <==> old(touched)@.contains(x) || exists|i: int|
                        0 <= i < done && self.placement()[modified@[i]].0 == x
            }),
    {
        let mut i: usize = 0;
        while i < modified.len()
            invariant
                i <= modified@.len(),
                forall|j: int| 0 <= j < i ==> self.placement().contains_key(#[trigger] modified@[j]),
                forall|x: usize| #[trigger]
                    touched@.contains(x) <==> old(touched)@.contains(x) || exists|j: int|
                        0 <= j < i && self.placement()[modified@[j]].0 == x,
            decreases modified@.len() - i,
        {
            let node = modified[i];
            match self.node_to_tree.get(&node) {
                Some(pos) => {
                    let p = pos.0;
                    touched.insert(p);
                    proof {
                        assert forall|x: usize| #[trigger] touched@.contains(x) <==> old(touched)@.contains(x)
                            || exists|j: int| 0 <= j < i + 1 && self.placement()[modified@[j]].0 == x by {
                            if x == p {
                                assert(self.placement()[modified@[i as int]].0 == x);
                            }
                        }
                    }
                },
                None => {
                    proof {
                        let k = choose|k: int|
                            0 <= k < modified@.len() && !self.placement().contains_key(modified@[k])
                                && forall|j: int|
                                0 <= j < k ==> self.placement().contains_key(#[trigger] modified@[j]);
                        assert(k == i) by {
                            if k < i {
                                assert(self.placement().contains_key(modified@[k]));
                            }
                            if k > i {
                                assert(self.placement().contains_key(modified@[i as int]));
                            }
                        }
                    }
                    return Err(TreeOpError::NodeNotFound);
                },
            }
            i += 1;
        }
        Ok(())
    }
}

} // verus!
