use std::collections::HashSet;

use vstd::prelude::*;

use crate::ids::TreeIndex;
use crate::position_set::positions_in;
use crate::subtree::ancestor_of_set;

verus! {

/// Parent position of `child` in a d-ary heap layout with `arity` children per node.
pub open spec fn parent_of(arity: nat, child: nat) -> nat
    recommends
        arity > 0,
        child > 0,
{
    ((child - 1) / (arity as int)) as nat
}

/// A parent always sits strictly before its children.
pub proof fn lemma_parent_lt(arity: nat, child: nat)
    requires
        arity > 0,
        child > 0,
    ensures
        parent_of(arity, child) < child,
{
    assert((child - 1) / (arity as int) <= child - 1) by (nonlinear_arith)
        requires
            arity > 0,
            child > 0,
    ;
}

/// `a` lies strictly above `x` on the path from `x` to the root.
pub open spec fn is_proper_ancestor(arity: nat, a: nat, x: nat) -> bool
    decreases x,
    when arity > 0
{
    if x == 0 {
        false
    } else {
        proof {
            lemma_parent_lt(arity, x);
        }
        parent_of(arity, x) == a || is_proper_ancestor(arity, a, parent_of(arity, x))
    }
}

/// `a` is a proper ancestor of at least one of `updates`.
pub open spec fn is_ancestor_of_some(arity: nat, a: nat, updates: Seq<TreeIndex>) -> bool {
    exists|k: int| 0 <= k < updates.len() && is_proper_ancestor(arity, a, #[trigger] updates[k].0 as nat)
}

/// The proper ancestors of `x` are the parent of `x` and the proper ancestors of that parent.
pub proof fn lemma_ancestor_step(arity: nat, a: nat, x: nat)
    requires
        arity > 0,
        x > 0,
    ensures
        is_proper_ancestor(arity, a, x) == (parent_of(arity, x) == a || is_proper_ancestor(
            arity,
            a,
            parent_of(arity, x),
        )),
{
    reveal_with_fuel(is_proper_ancestor, 1);
}

/// An ancestor chain is transitive.
pub proof fn lemma_ancestor_trans(arity: nat, a: nat, b: nat, x: nat)
    requires
        arity > 0,
        is_proper_ancestor(arity, a, b),
        is_proper_ancestor(arity, b, x),
    ensures
        is_proper_ancestor(arity, a, x),
    decreases x,
{
    lemma_parent_lt(arity, x);
    lemma_ancestor_step(arity, b, x);
    lemma_ancestor_step(arity, a, x);
    if parent_of(arity, x) != b {
        lemma_ancestor_trans(arity, a, b, parent_of(arity, x));
    }
}

/// A proper ancestor sits at a strictly smaller position.
pub proof fn lemma_ancestor_lt(arity: nat, a: nat, x: nat)
    requires
        arity > 0,
        is_proper_ancestor(arity, a, x),
    ensures
        a < x,
    decreases x,
{
    lemma_parent_lt(arity, x);
    lemma_ancestor_step(arity, a, x);
    if parent_of(arity, x) != a {
        lemma_ancestor_lt(arity, a, parent_of(arity, x));
    }
}

/// First position of depth `level` in a d-ary heap layout.
pub open spec fn level_start(arity: nat, level: nat) -> nat
    decreases level,
{
    if level == 0 {
        0
    } else {
        level_start(arity, (level - 1) as nat) * arity + 1
    }
}

/// Some entry of `v` has position `x`.
pub open spec fn has_index(v: Seq<TreeIndex>, x: nat) -> bool {
    exists|i: int| 0 <= i < v.len() && (#[trigger] v[i]).0 == x
}

/// Where the frontier of one changed position `u` sits after the first sorting
/// step: `u` itself in `current` (`kind` 0), its parent in `next` (`kind` 1),
/// or nowhere because `u` is the root (`kind` 2).
pub open spec fn frontier_entry(
    arity: nat,
    u: TreeIndex,
    kind: int,
    f: int,
    current: Seq<TreeIndex>,
    next: Seq<TreeIndex>,
) -> bool {
    ||| (kind == 0 && 0 <= f < current.len() && current[f] == u)
    ||| (kind == 1 && 0 <= f < next.len() && u.0 != 0 && next[f].0 == parent_of(arity, u.0 as nat))
    ||| (kind == 2 && u.0 == 0)
}

/// Every recomputed position that is not the root is recomputed again later
/// through its parent, so a parent is always refreshed after its children.
pub open spec fn parents_follow(arity: nat, order: Seq<TreeIndex>) -> bool {
    forall|i: int|
        0 <= i < order.len() && (#[trigger] order[i]).0 != 0 ==> exists|j: int|
            i < j < order.len() && (#[trigger] order[j]).0 == parent_of(arity, order[i].0 as nat)
}

/// The parents of the non-root entries of `s`, each once, in order of first
/// appearance.
pub open spec fn parents_once(arity: nat, s: Seq<TreeIndex>) -> Seq<TreeIndex>
    decreases s.len(),
{
    if s.len() == 0 {
        Seq::empty()
    } else {
        let r = parents_once(arity, s.drop_last());
        let x = s.last();
        if x.0 == 0 || has_index(r, parent_of(arity, x.0 as nat)) {
            r
        } else {
            r.push(TreeIndex(parent_of(arity, x.0 as nat) as usize))
        }
    }
}

/// The rounds that climb from the frontier `s`: the parents of the frontier,
/// each once, then the rounds that climb from them, for at most `fuel`
/// rounds.
pub open spec fn climb(arity: nat, s: Seq<TreeIndex>, fuel: nat) -> Seq<TreeIndex>
    decreases fuel,
{
    if fuel == 0 {
        Seq::empty()
    } else {
        let n = parents_once(arity, s);
        if n.len() == 0 {
            Seq::empty()
        } else {
            n + climb(arity, n, (fuel - 1) as nat)
        }
    }
}

/// Sorting the changed positions `upd` against the first position `bottom`
/// of the deepest levels: a position below `bottom` joins the kept frontier
/// (the first part) unless its last mark already says so; a position from
/// `bottom` on gives its parent to the first round (the second part) unless
/// the parent's last mark already says so. The map holds each position's
/// last mark: 1 for the kept frontier, 2 for the first round.
pub open spec fn seed_state(arity: nat, upd: Seq<TreeIndex>, bottom: nat) -> (Seq<TreeIndex>, Seq<TreeIndex>, Map<nat, int>)
    decreases upd.len(),
{
    if upd.len() == 0 {
        (Seq::empty(), Seq::empty(), Map::empty())
    } else {
        let (c, n, m) = seed_state(arity, upd.drop_last(), bottom);
        let x = upd.last();
        if x.0 >= bottom {
            if x.0 == 0 {
                (c, n, m)
            } else {
                let p = parent_of(arity, x.0 as nat);
                if m.contains_key(p) && m[p] == 2 {
                    (c, n, m)
                } else {
                    (c, n.push(TreeIndex(p as usize)), m.insert(p, 2))
                }
            }
        } else {
            if m.contains_key(x.0 as nat) && m[x.0 as nat] == 1 {
                (c, n, m)
            } else {
                (c.push(x), n, m.insert(x.0 as nat, 1))
            }
        }
    }
}

/// First position of the deepest full level of a layout with `total`
/// positions: with `h` the depth such that depth `h + 1` starts within the
/// layout and depth `h + 2` does not, the first position of depth `h`.
pub open spec fn bottom_start_of(arity: nat, total: nat) -> nat {
    level_start(arity, choose|h: nat| #[trigger] fits_levels(arity, total, h))
}

/// Depth `h + 1` starts within a layout of `total` positions and depth
/// `h + 2` does not.
pub open spec fn fits_levels(arity: nat, total: nat, h: nat) -> bool {
    level_start(arity, h + 1) <= total && total < level_start(arity, h + 2)
}

/// The order in which the positions above the changed positions `upd` of a
/// layout with `total` positions are recomputed: the first round, then the
/// rounds that climb from the kept frontier followed by the first round.
pub open spec fn update_order(arity: nat, upd: Seq<TreeIndex>, total: nat) -> Seq<TreeIndex> {
    let (c, n, m) = seed_state(arity, upd, bottom_start_of(arity, total));
    n + climb(arity, c + n, total)
}

/// The depth named by [`bottom_start_of`] is the only one that fits, so any
/// depth `h` that fits gives its first position.
pub proof fn lemma_bottom_start_of(arity: nat, total: nat, h: nat)
    requires
        arity >= 2,
        fits_levels(arity, total, h),
    ensures
        bottom_start_of(arity, total) == level_start(arity, h),
{
    let h2 = choose|h2: nat| #[trigger] fits_levels(arity, total, h2);
    if h2 < h {
        lemma_level_start_increasing(arity, h2 + 2, h + 1);
    } else if h < h2 {
        lemma_level_start_increasing(arity, h + 2, h2 + 1);
    }
}

/// Depths start at increasing positions.
proof fn lemma_level_start_increasing(arity: nat, a: nat, b: nat)
    requires
        arity >= 1,
        a < b,
    ensures
        level_start(arity, a) < level_start(arity, b),
    decreases b,
{
    assert(level_start(arity, b) == level_start(arity, (b - 1) as nat) * arity + 1);
    assert(level_start(arity, (b - 1) as nat) * arity >= level_start(arity, (b - 1) as nat)) by (nonlinear_arith)
        requires
            arity >= 1,
    ;
    if a < b - 1 {
        lemma_level_start_increasing(arity, a, (b - 1) as nat);
    }
}

/// Zero-sized helper for index arithmetic on a d-ary heap layout.
pub struct TreeLayout<const ARITY: usize>;

impl<const ARITY: usize> TreeLayout<ARITY> {
    /// Returns the parent position, or `None` for the root.
    pub fn parent_index(child: TreeIndex) -> (res: Option<TreeIndex>)
        requires
            ARITY > 0,
        ensures
            child.0 == 0 ==> res is None,
            child.0 > 0 ==> res == Some(TreeIndex(parent_of(ARITY as nat, child.0 as nat) as usize)),
            res matches Some(p) ==> p.0 < child.0,
    {
        if child.0 == 0 {
            None
        } else {
            proof {
                lemma_parent_lt(ARITY as nat, child.0 as nat);
            }
            Some(TreeIndex((child.0 - 1) / ARITY))
        }
    }

    /// Position of the `child`-th child of `parent`.
    pub fn child_index(parent: TreeIndex, child: usize) -> (res: TreeIndex)
        requires
            parent.0 * ARITY + 1 + child <= usize::MAX,
        ensures
            res.0 == parent.0 * ARITY + 1 + child,
    {
        proof {
            assert(parent.0 * ARITY <= usize::MAX) by (nonlinear_arith)
                requires
                    parent.0 * ARITY + 1 + child <= usize::MAX,
            ;
        }
        TreeIndex(parent.0 * ARITY + 1 + child)
    }

    /// Positions that must be recomputed after `source` changed: its proper
    /// ancestors, from its parent up to the root, in that order.
    pub fn apply_updates_from_single(source: TreeIndex) -> (order: Vec<TreeIndex>)
        requires
            ARITY > 0,
        ensures
            order.len() > 0 <==> source.0 > 0,
            source.0 > 0 ==> order[0].0 == parent_of(ARITY as nat, source.0 as nat),
            forall|i: int, j: int|
                0 <= i < order.len() && j == i + 1 && j < order.len() ==> #[trigger] order[j].0
                    == parent_of(ARITY as nat, #[trigger] order[i].0 as nat) && order[i].0 > 0,
            order.len() > 0 ==> order[order.len() - 1].0 == 0,
            forall|i: int|
                0 <= i < order.len() ==> is_proper_ancestor(
                    ARITY as nat,
                    #[trigger] order[i].0 as nat,
                    source.0 as nat,
                ),
    {
        let mut order: Vec<TreeIndex> = Vec::new();
        let mut cur = source;
        let mut parent = Self::parent_index(source);
        while parent.is_some()
            invariant
                ARITY > 0,
                parent == Self::spec_parent(cur),
                order.len() == 0 <==> cur == source,
                cur.0 <= source.0,
                order.len() > 0 ==> order[order.len() - 1] == cur,
                source.0 > 0 && order.len() > 0 ==> order[0].0 == parent_of(
                    ARITY as nat,
                    source.0 as nat,
                ),
                forall|i: int, j: int|
                    0 <= i < order.len() && j == i + 1 && j < order.len() ==> #[trigger] order[j].0
                        == parent_of(ARITY as nat, #[trigger] order[i].0 as nat) && order[i].0 > 0,
                forall|i: int|
                    0 <= i < order.len() ==> is_proper_ancestor(
                        ARITY as nat,
                        #[trigger] order[i].0 as nat,
                        source.0 as nat,
                    ),
            decreases cur.0,
        {
            let p = parent.unwrap();
            proof {
                lemma_ancestor_step(ARITY as nat, p.0 as nat, cur.0 as nat);
                if order.len() > 0 {
                    lemma_ancestor_trans(ARITY as nat, p.0 as nat, cur.0 as nat, source.0 as nat);
                }
            }
            let ghost old_order = order@;
            order.push(p);
            assert forall|i: int, j: int|
                0 <= i < order.len() && j == i + 1 && j < order.len() implies #[trigger] order[j].0
                == parent_of(ARITY as nat, #[trigger] order[i].0 as nat) && order[i].0 > 0 by {
                if j < old_order.len() {
                    assert(order[i] == old_order[i]);
                    assert(order[j] == old_order[j]);
                } else {
                    assert(order[i] == cur);
                }
            }
            cur = p;
            parent = Self::parent_index(p);
        }
        order
    }

    /// Starts a fresh marking round: the returned epoch differs from every mark
    /// left in `seen`. When the counter would overflow, all marks are cleared and
    /// counting restarts at 1.
    pub fn next_marker_epoch(seen: &mut Vec<usize>, seen_epoch: &mut usize) -> (epoch: usize)
        ensures
            *final(seen_epoch) == epoch,
            final(seen).len() == old(seen).len(),
            *old(seen_epoch) < usize::MAX ==> epoch == *old(seen_epoch) + 1 && final(seen)@
                == old(seen)@,
            *old(seen_epoch) == usize::MAX ==> epoch == 1 && forall|i: int|
                0 <= i < final(seen).len() ==> #[trigger] final(seen)[i] == 0,
    {
        if *seen_epoch < usize::MAX {
            *seen_epoch = *seen_epoch + 1;
        } else {
            let mut i: usize = 0;
            while i < seen.len()
                invariant
                    seen.len() == old(seen).len(),
                    forall|j: int| 0 <= j < i ==> #[trigger] seen[j] == 0,
                decreases seen.len() - i,
            {
                seen[i] = 0;
                i = i + 1;
            }
            *seen_epoch = 1;
        }
        *seen_epoch
    }

    /// Appends `idx` to `indices` unless it was already marked with `epoch`.
    pub fn push_once(idx: TreeIndex, indices: &mut Vec<TreeIndex>, seen: &mut Vec<usize>, epoch: usize)
        requires
            idx.0 < old(seen).len(),
        ensures
            old(seen)[idx.0 as int] == epoch ==> final(indices)@ == old(indices)@ && final(seen)@
                == old(seen)@,
            old(seen)[idx.0 as int] != epoch ==> final(indices)@ == old(indices)@.push(idx)
                && final(seen)@ == old(seen)@.update(idx.0 as int, epoch),
    {
        if seen[idx.0] == epoch {
            return ;
        }
        seen[idx.0] = epoch;
        indices.push(idx);
    }

    /// First position of the deepest full level of a heap with `total` slots:
    /// with `h` the largest depth whose first position is at most `total`, this
    /// is the first position of depth `h - 1`.
    fn bottom_level_start(total: usize) -> (start: usize)
        requires
            ARITY >= 2,
            total >= 1,
        ensures
            exists|h: nat|
                start == #[trigger] level_start(ARITY as nat, h) && level_start(ARITY as nat, h + 1) <= total
                    && total < level_start(ARITY as nat, h + 2),
            start == bottom_start_of(ARITY as nat, total as nat),
    {
        let ghost d = ARITY as nat;
        let mut prev: usize = 0;
        let mut cur: usize = 1;
        let ghost mut h: nat = 0;
        assert(level_start(d, 1) == 1) by {
            assert(level_start(d, 0) == 0);
            assert(level_start(d, 1) == level_start(d, 0) * d + 1);
        }
        while cur <= (total - 1) / ARITY
            invariant
                ARITY >= 2,
                total >= 1,
                d == ARITY as nat,
                prev == level_start(d, h),
                cur == level_start(d, h + 1),
                cur <= total,
            decreases total - cur,
        {
            proof {
                assert(cur * ARITY + 1 <= total) by (nonlinear_arith)
                    requires
                        cur <= (total - 1) / (ARITY as int),
                        ARITY >= 2,
                        total >= 1,
                ;
                assert(cur * ARITY >= cur) by (nonlinear_arith)
                    requires
                        ARITY >= 2,
                ;
            }
            prev = cur;
            cur = cur * ARITY + 1;
            proof {
                h = h + 1;
            }
        }
        proof {
            assert(cur * ARITY + 1 > total) by (nonlinear_arith)
                requires
                    cur > (total - 1) / (ARITY as int),
                    ARITY >= 2,
                    total >= 1,
            ;
            assert(level_start(d, h + 2) == cur * ARITY + 1);
            assert(fits_levels(d, total as nat, h));
            lemma_bottom_start_of(d, total as nat, h);
        }
        prev
    }

    /// Collects, without repetition, the parents of the non-root entries of
    /// `current` into the empty `next`, marking them with one fresh epoch that
    /// is taken only if there is at least one parent. The ghost results give,
    /// for each collected parent, a child it came from, and for each non-root
    /// entry of `current`, where its parent was placed.
    fn collect_parents(
        current: &Vec<TreeIndex>,
        next: &mut Vec<TreeIndex>,
        seen: &mut Vec<usize>,
        seen_epoch: &mut usize,
    ) -> (witness: (Ghost<Seq<int>>, Ghost<Seq<int>>))
        requires
            ARITY >= 2,
            old(next).len() == 0,
            forall|c: int| 0 <= c < current.len() ==> (#[trigger] current[c]).0 < old(seen).len(),
            forall|i: int|
                0 <= i < old(seen).len() ==> #[trigger] old(seen)[i] <= *old(seen_epoch) || (
                old(seen)[i] == usize::MAX && *old(seen_epoch) + 1 < usize::MAX),
        ensures
            final(seen).len() == old(seen).len(),
            final(next)@ == parents_once(ARITY as nat, current@),
            witness.0@.len() == final(next).len(),
            forall|m: int|
                0 <= m < final(next).len() ==> {
                    let c = #[trigger] witness.0@[m];
                    &&& 0 <= c < current.len()
                    &&& current[c].0 != 0
                    &&& final(next)[m].0 == parent_of(ARITY as nat, current[c].0 as nat)
                },
            witness.1@.len() == current.len(),
            forall|c: int|
                0 <= c < current.len() && current[c].0 != 0 ==> {
                    let m = #[trigger] witness.1@[c];
                    &&& 0 <= m < final(next).len()
                    &&& final(next)[m].0 == parent_of(ARITY as nat, current[c].0 as nat)
                },
            final(next).len() == 0 ==> final(seen)@ == old(seen)@ && *final(seen_epoch)
                == *old(seen_epoch),
            final(next).len() > 0 ==> *final(seen_epoch) <= *old(seen_epoch) + 1,
            *final(seen_epoch) >= *old(seen_epoch) || forall|i: int|
                0 <= i < final(seen).len() ==> #[trigger] final(seen)[i] <= *final(seen_epoch),
            forall|i: int|
                0 <= i < final(seen).len() ==> #[trigger] final(seen)[i] <= *final(seen_epoch)
                    || final(seen)[i] == old(seen)[i],
    {
        let mut parent_epoch: Option<usize> = None;
        let mut j: usize = 0;
        let ghost mut src: Seq<int> = Seq::empty();
        let ghost mut dst: Seq<int> = Seq::empty();
        while j < current.len()
            invariant
                ARITY >= 2,
                0 <= j <= current.len(),
                seen.len() == old(seen).len(),
                forall|c: int| 0 <= c < current.len() ==> (#[trigger] current[c]).0 < seen.len(),
                forall|i: int|
                    0 <= i < old(seen).len() ==> #[trigger] old(seen)[i] <= *old(seen_epoch) || (
                    old(seen)[i] == usize::MAX && *old(seen_epoch) + 1 < usize::MAX),
                next@ == parents_once(ARITY as nat, current@.take(j as int)),
                src.len() == next.len(),
                forall|m: int|
                    0 <= m < next.len() ==> {
                        let c = #[trigger] src[m];
                        &&& 0 <= c < j
                        &&& current[c].0 != 0
                        &&& next[m].0 == parent_of(ARITY as nat, current[c].0 as nat)
                    },
                dst.len() == j,
                forall|c: int|
                    0 <= c < j && current[c].0 != 0 ==> {
                        let m = #[trigger] dst[c];
                        &&& 0 <= m < next.len()
                        &&& next[m].0 == parent_of(ARITY as nat, current[c].0 as nat)
                    },
                parent_epoch is None ==> next.len() == 0 && seen@ == old(seen)@ && *seen_epoch
                    == *old(seen_epoch),
                parent_epoch matches Some(e) ==> {
                    &&& e == *seen_epoch
                    &&& next.len() > 0
                    &&& e <= *old(seen_epoch) + 1
                    &&& (e >= *old(seen_epoch) || forall|i: int|
                        0 <= i < seen.len() ==> #[trigger] seen[i] <= e)
                    &&& forall|i: int|
                        0 <= i < seen.len() ==> #[trigger] seen[i] <= e || seen[i] == old(seen)[i]
                    &&& forall|i: int|
                        0 <= i < seen.len() && #[trigger] seen[i] == e ==> has_index(
                            next@,
                            i as nat,
                        )
                    &&& forall|m: int| 0 <= m < next.len() ==> seen[(#[trigger] next[m]).0 as int] == e
                },
            decreases current.len() - j,
        {
            let idx = current[j];
            let ghost seen0 = seen@;
            let ghost pe0 = parent_epoch;
            proof {
                assert(current@.take(j + 1).drop_last() =~= current@.take(j as int));
                assert(current@.take(j + 1).last() == idx);
            }
            if idx.0 != 0 {
                proof {
                    lemma_parent_lt(ARITY as nat, idx.0 as nat);
                }
                let parent = TreeIndex((idx.0 - 1) / ARITY);
                let epoch = match parent_epoch {
                    Some(e) => e,
                    None => {
                        let e = Self::next_marker_epoch(seen, seen_epoch);
                        assert(forall|i: int| 0 <= i < seen.len() ==> #[trigger] seen[i] != e);
                        parent_epoch = Some(e);
                        e
                    },
                };
                let ghost before_next = next@;
                let ghost before_seen = seen@;
                Self::push_once(parent, next, seen, epoch);
                proof {
                    let pos: int;
                    if before_seen[parent.0 as int] == epoch {
                        let w = choose|w: int|
                            0 <= w < before_next.len() && (#[trigger] before_next[w]).0 == parent.0;
                        pos = w;
                        assert(next@[w] == before_next[w]);
                    } else {
                        pos = next.len() - 1;
                        src = src.push(j as int);
                    }
                    dst = dst.push(pos);
                    assert forall|m: int| 0 <= m < next.len() implies seen[(#[trigger] next[m]).0 as int] == epoch by {
                        if m < before_next.len() {
                            assert(next[m] == before_next[m]);
                            let c = src[m];
                            assert(current[c].0 != 0 && next[m].0 == parent_of(ARITY as nat, current[c].0 as nat));
                            lemma_parent_lt(ARITY as nat, current[c].0 as nat);
                            assert(pe0 is Some);
                            assert(before_seen == seen0);
                            assert(seen0[before_next[m].0 as int] == epoch);
                            if before_next[m].0 != parent.0 {
                                assert(seen@[before_next[m].0 as int] == before_seen[before_next[m].0 as int]);
                            }
                        }
                    }
                    if before_seen[parent.0 as int] != epoch {
                        assert(!has_index(before_next, parent.0 as nat)) by {
                            if has_index(before_next, parent.0 as nat) {
                                let w = choose|w: int|
                                    0 <= w < before_next.len() && (#[trigger] before_next[w]).0 == parent.0;
                                assert(before_seen[before_next[w].0 as int] == epoch);
                            }
                        }
                    }
                    assert forall|i: int|
                        0 <= i < seen.len() && #[trigger] seen[i] == epoch implies has_index(
                        next@,
                        i as nat,
                    ) by {
                        if i != parent.0 && before_seen[i] == epoch {
                            let w = choose|w: int|
                                0 <= w < before_next.len() && (#[trigger] before_next[w]).0 == i;
                            assert(next@[w] == before_next[w]);
                        } else {
                            assert(next@[pos] == parent);
                        }
                    }
                    assert forall|m: int| 0 <= m < next.len() implies {
                        let c = #[trigger] src[m];
                        &&& 0 <= c < j + 1
                        &&& current[c].0 != 0
                        &&& next[m].0 == parent_of(ARITY as nat, current[c].0 as nat)
                    } by {
                        if m < before_next.len() {
                            assert(next[m] == before_next[m]);
                        }
                    }
                    assert forall|c: int| 0 <= c < j + 1 && current[c].0 != 0 implies {
                        let m = #[trigger] dst[c];
                        &&& 0 <= m < next.len()
                        &&& next[m].0 == parent_of(ARITY as nat, current[c].0 as nat)
                    } by {
                        if c < j {
                            assert(next[dst[c]] == before_next[dst[c]]);
                        }
                    }
                }
            } else {
                proof {
                    dst = dst.push(0);
                }
            }
            j = j + 1;
        }
        proof {
            assert(current@.take(current.len() as int) =~= current@);
        }
        (Ghost(src), Ghost(dst))
    }

    /// Appends the entries of `src` to `dst`, in order.
    fn append_indices(dst: &mut Vec<TreeIndex>, src: &Vec<TreeIndex>)
        ensures
            final(dst)@ == old(dst)@ + src@,
    {
        let mut i: usize = 0;
        while i < src.len()
            invariant
                0 <= i <= src.len(),
                dst@ == old(dst)@ + src@.subrange(0, i as int),
            decreases src.len() - i,
        {
            dst.push(src[i]);
            i = i + 1;
            assert(src@.subrange(0, i as int) == src@.subrange(0, i - 1 as int).push(src[i - 1]));
        }
        assert(src@.subrange(0, src.len() as int) == src@);
    }

    /// Sorts the changed positions into the two starting frontiers: positions on
    /// the deepest levels (from `bottom_start` on) contribute their parent to
    /// `next` (marked with `bottom_epoch`), the others are kept in `current`
    /// (marked with `current_epoch`). The ghost results record where each
    /// entry came from and, per changed position, where its frontier entry is.
    fn seed_frontiers(
        update_indices: &[TreeIndex],
        bottom_start: usize,
        current: &mut Vec<TreeIndex>,
        next: &mut Vec<TreeIndex>,
        seen: &mut Vec<usize>,
        current_epoch: usize,
        bottom_epoch: usize,
    ) -> (witness: (Ghost<Seq<int>>, Ghost<Seq<int>>, Ghost<Seq<int>>, Ghost<Seq<int>>))
        requires
            ARITY >= 2,
            old(current).len() == 0,
            old(next).len() == 0,
            current_epoch != bottom_epoch,
            forall|k: int|
                0 <= k < update_indices.len() ==> (#[trigger] update_indices[k]).0 < old(seen).len(),
            forall|i: int|
                0 <= i < old(seen).len() ==> #[trigger] old(seen)[i] != current_epoch && old(seen)[i] != bottom_epoch,
        ensures
            final(seen).len() == old(seen).len(),
            forall|i: int|
                0 <= i < final(seen).len() ==> #[trigger] final(seen)[i] == old(seen)[i]
                    || final(seen)[i] == current_epoch || final(seen)[i] == bottom_epoch,
            witness.0@.len() == final(current).len(),
            forall|c: int|
                0 <= c < final(current).len() ==> {
                    let k = #[trigger] witness.0@[c];
                    &&& 0 <= k < update_indices.len()
                    &&& final(current)[c] == update_indices[k]
                },
            witness.1@.len() == final(next).len(),
            forall|m: int|
                0 <= m < final(next).len() ==> {
                    let k = #[trigger] witness.1@[m];
                    &&& 0 <= k < update_indices.len()
                    &&& update_indices[k].0 != 0
                    &&& final(next)[m].0 == parent_of(ARITY as nat, update_indices[k].0 as nat)
                },
            witness.2@.len() == update_indices.len(),
            witness.3@.len() == update_indices.len(),
            forall|k: int|
                0 <= k < update_indices.len() ==> frontier_entry(
                    ARITY as nat,
                    update_indices[k],
                    #[trigger] witness.2@[k],
                    witness.3@[k],
                    final(current)@,
                    final(next)@,
                ),
            final(current)@ == seed_state(ARITY as nat, update_indices@, bottom_start as nat).0,
            final(next)@ == seed_state(ARITY as nat, update_indices@, bottom_start as nat).1,
    {
        let ghost mut cw: Seq<int> = Seq::empty();
        let ghost mut marks: Map<nat, int> = Map::empty();
        let ghost mut nw: Seq<int> = Seq::empty();
        let ghost mut kind: Seq<int> = Seq::empty();
        let ghost mut fk: Seq<int> = Seq::empty();
        let mut k: usize = 0;
        while k < update_indices.len()
            invariant
                ARITY >= 2,
                0 <= k <= update_indices.len(),
                current_epoch != bottom_epoch,
                seen.len() == old(seen).len(),
                forall|q: int|
                    0 <= q < update_indices.len() ==> (#[trigger] update_indices[q]).0 < seen.len(),
                forall|i: int|
                    0 <= i < seen.len() ==> #[trigger] seen[i] == old(seen)[i] || seen[i]
                        == current_epoch || seen[i] == bottom_epoch,
                forall|i: int|
                    0 <= i < seen.len() && #[trigger] seen[i] == current_epoch ==> has_index(
                        current@,
                        i as nat,
                    ),
                forall|i: int|
                    0 <= i < seen.len() && #[trigger] seen[i] == bottom_epoch ==> has_index(
                        next@,
                        i as nat,
                    ),
                forall|i: int|
                    0 <= i < old(seen).len() ==> #[trigger] old(seen)[i] != current_epoch && old(seen)[i] != bottom_epoch,
                cw.len() == current.len(),
                forall|c: int|
                    0 <= c < current.len() ==> {
                        let q = #[trigger] cw[c];
                        &&& 0 <= q < k
                        &&& current[c] == update_indices[q]
                    },
                nw.len() == next.len(),
                forall|m: int|
                    0 <= m < next.len() ==> {
                        let q = #[trigger] nw[m];
                        &&& 0 <= q < k
                        &&& update_indices[q].0 != 0
                        &&& next[m].0 == parent_of(ARITY as nat, update_indices[q].0 as nat)
                    },
                kind.len() == k,
                fk.len() == k,
                forall|q: int|
                    0 <= q < k ==> frontier_entry(
                        ARITY as nat,
                        update_indices[q],
                        #[trigger] kind[q],
                        fk[q],
                        current@,
                        next@,
                    ),
                current@ == seed_state(ARITY as nat, update_indices@.take(k as int), bottom_start as nat).0,
                next@ == seed_state(ARITY as nat, update_indices@.take(k as int), bottom_start as nat).1,
                marks == seed_state(ARITY as nat, update_indices@.take(k as int), bottom_start as nat).2,
                forall|i: int|
                    0 <= i < seen.len() ==> ((#[trigger] seen[i] == current_epoch) <==> (
                    marks.contains_key(i as nat) && marks[i as nat] == 1)),
                forall|i: int|
                    0 <= i < seen.len() ==> ((#[trigger] seen[i] == bottom_epoch) <==> (
                    marks.contains_key(i as nat) && marks[i as nat] == 2)),
                forall|p: nat| #[trigger] marks.contains_key(p) ==> p < seen.len(),
            decreases update_indices.len() - k,
        {
            let idx = update_indices[k];
            let ghost before_current = current@;
            let ghost before_next = next@;
            let ghost before_seen = seen@;
            let ghost before_kind = kind;
            let ghost before_fk = fk;
            let ghost before_marks = marks;
            proof {
                assert(update_indices@.take(k + 1).drop_last() =~= update_indices@.take(k as int));
                assert(update_indices@.take(k + 1).last() == idx);
            }
            if idx.0 >= bottom_start {
                if idx.0 != 0 {
                    proof {
                        lemma_parent_lt(ARITY as nat, idx.0 as nat);
                    }
                    let parent = TreeIndex((idx.0 - 1) / ARITY);
                    Self::push_once(parent, next, seen, bottom_epoch);
                    proof {
                        let p = parent.0 as nat;
                        if !(before_marks.contains_key(p) && before_marks[p] == 2) {
                            marks = before_marks.insert(p, 2);
                        }
                        let pos: int;
                        if before_seen[parent.0 as int] == bottom_epoch {
                            let w = choose|w: int|
                                0 <= w < before_next.len() && (#[trigger] before_next[w]).0
                                    == parent.0;
                            pos = w;
                        } else {
                            pos = next.len() - 1;
                            nw = nw.push(k as int);
                        }
                        kind = kind.push(1);
                        fk = fk.push(pos);
                        assert(next[pos].0 == parent.0);
                    }
                } else {
                    proof {
                        kind = kind.push(2);
                        fk = fk.push(0);
                    }
                }
            } else {
                Self::push_once(idx, current, seen, current_epoch);
                proof {
                    let x = idx.0 as nat;
                    if !(before_marks.contains_key(x) && before_marks[x] == 1) {
                        marks = before_marks.insert(x, 1);
                    }
                    let pos: int;
                    if before_seen[idx.0 as int] == current_epoch {
                        let w = choose|w: int|
                            0 <= w < before_current.len() && (#[trigger] before_current[w]).0
                                == idx.0;
                        pos = w;
                    } else {
                        pos = current.len() - 1;
                        cw = cw.push(k as int);
                    }
                    kind = kind.push(0);
                    fk = fk.push(pos);
                    assert(current[pos] == idx);
                }
            }
            proof {
                assert forall|i: int|
                    0 <= i < seen.len() && #[trigger] seen[i] == current_epoch implies has_index(
                    current@,
                    i as nat,
                ) by {
                    if before_seen[i] == current_epoch {
                        let w = choose|w: int|
                            0 <= w < before_current.len() && (#[trigger] before_current[w]).0 == i;
                        assert(current@[w] == before_current[w]);
                    } else {
                        assert(current@[current.len() - 1].0 == i);
                    }
                }
                assert forall|i: int|
                    0 <= i < seen.len() && #[trigger] seen[i] == bottom_epoch implies has_index(
                    next@,
                    i as nat,
                ) by {
                    if before_seen[i] == bottom_epoch {
                        let w = choose|w: int|
                            0 <= w < before_next.len() && (#[trigger] before_next[w]).0 == i;
                        assert(next@[w] == before_next[w]);
                    } else {
                        assert(next@[next.len() - 1].0 == i);
                    }
                }
                assert forall|c: int| 0 <= c < current.len() implies {
                    let q = #[trigger] cw[c];
                    &&& 0 <= q < k + 1
                    &&& current[c] == update_indices[q]
                } by {
                    if c < before_current.len() {
                        assert(current[c] == before_current[c]);
                    }
                }
                assert forall|m: int| 0 <= m < next.len() implies {
                    let q = #[trigger] nw[m];
                    &&& 0 <= q < k + 1
                    &&& update_indices[q].0 != 0
                    &&& next[m].0 == parent_of(ARITY as nat, update_indices[q].0 as nat)
                } by {
                    if m < before_next.len() {
                        assert(next[m] == before_next[m]);
                    }
                }
                assert forall|q: int| 0 <= q < k + 1 implies frontier_entry(
                    ARITY as nat,
                    update_indices[q],
                    #[trigger] kind[q],
                    fk[q],
                    current@,
                    next@,
                ) by {
                    if q < k {
                        assert(kind[q] == before_kind[q]);
                        assert(fk[q] == before_fk[q]);
                        if kind[q] == 0 {
                            assert(current[fk[q]] == before_current[fk[q]]);
                        } else if kind[q] == 1 {
                            assert(next[fk[q]] == before_next[fk[q]]);
                        }
                    }
                }
            }
            k = k + 1;
        }
        proof {
            assert(update_indices@.take(update_indices.len() as int) =~= update_indices@);
        }
        (Ghost(cw), Ghost(nw), Ghost(kind), Ghost(fk))
    }

    /// Positions to recompute after the positions in `update_indices` changed,
    /// in the order in which they must be recomputed. `current`, `next`, `seen`
    /// and `seen_epoch` are reusable scratch space; `seen` grows to `total`
    /// entries if it is shorter. Nothing is visited when there are no changes.
    pub fn apply_updates_from_slice_with_marker(
        total: usize,
        update_indices: &[TreeIndex],
        current: &mut Vec<TreeIndex>,
        next: &mut Vec<TreeIndex>,
        seen: &mut Vec<usize>,
        seen_epoch: &mut usize,
    ) -> (order: Vec<TreeIndex>)
        requires
            ARITY >= 2,
            total <= isize::MAX,
            forall|k: int|
                0 <= k < update_indices.len() ==> (#[trigger] update_indices[k]).0 < total,
            update_indices.len() > 0 ==> forall|i: int|
                0 <= i < old(seen).len() ==> #[trigger] old(seen)[i] <= *old(seen_epoch),
        ensures
            update_indices.len() == 0 ==> order.len() == 0 && final(current).len() == 0 && final(next).len() == 0 && final(seen)@ == old(seen)@ && *final(seen_epoch) == *old(seen_epoch),
            update_indices.len() > 0 ==> final(seen).len() == if old(seen).len() < total {
                total
            } else {
                old(seen).len()
            },
            forall|i: int|
                0 <= i < order.len() ==> is_ancestor_of_some(
                    ARITY as nat,
                    (#[trigger] order[i]).0 as nat,
                    update_indices@,
                ),
            forall|k: int, a: nat|
                0 <= k < update_indices.len() && #[trigger] is_proper_ancestor(ARITY as nat, a, update_indices[k].0 as nat) ==> has_index(order@, a),
            parents_follow(ARITY as nat, order@),
            update_indices.len() > 0 && *old(seen_epoch) != usize::MAX - 1 ==> forall|i: int|
                0 <= i < final(seen).len() ==> #[trigger] final(seen)[i] <= *final(seen_epoch),
            order@ == update_order(ARITY as nat, update_indices@, total as nat),
    {
        if update_indices.len() == 0 {
            current.clear();
            next.clear();
            proof {
                assert(update_order(ARITY as nat, update_indices@, total as nat) =~= Seq::<
                    TreeIndex,
                >::empty());
            }
            return Vec::new();
        }
        Self::apply_updates_from_iter_with_marker(
            total,
            update_indices,
            current,
            next,
            seen,
            seen_epoch,
        )
    }

    /// Positions to recompute after the positions in `update_set` changed,
    /// in the order in which they must be recomputed: every proper ancestor
    /// of a changed position, each after its children. Nothing is visited
    /// when there are no changes.
    pub fn apply_updates_from_set(total: usize, update_set: &HashSet<usize>) -> (order: Vec<TreeIndex>)
        requires
            ARITY >= 2,
            total <= isize::MAX,
            forall|x: usize| #[trigger] update_set@.contains(x) ==> x < total,
        ensures
            update_set@.is_empty() ==> order.len() == 0,
            forall|i: int|
                0 <= i < order.len() ==> ancestor_of_set(ARITY as nat, (#[trigger] order[i]).0 as nat, update_set@),
            forall|a: nat| #[trigger] ancestor_of_set(ARITY as nat, a, update_set@) ==> has_index(order@, a),
            parents_follow(ARITY as nat, order@),
    {
        if update_set.is_empty() {
            return Vec::new();
        }
        let updates = positions_in(update_set);
        let mut current: Vec<TreeIndex> = Vec::new();
        let mut next: Vec<TreeIndex> = Vec::new();
        let mut seen: Vec<usize> = Vec::new();
        let mut seen_epoch: usize = 0;
        proof {
            let x = update_set@.choose();
            assert(update_set@.contains(x));
            let k = choose|k: int| 0 <= k < updates@.len() && (#[trigger] updates@[k]).0 == x;
            assert forall|k: int| 0 <= k < updates@.len() implies (#[trigger] updates@[k]).0 < total by {
                assert(update_set@.contains(updates@[k].0));
            }
        }
        let order = Self::apply_updates_from_iter_with_marker(
            total,
            updates.as_slice(),
            &mut current,
            &mut next,
            &mut seen,
            &mut seen_epoch,
        );
        proof {
            assert forall|i: int| 0 <= i < order.len() implies ancestor_of_set(
                ARITY as nat,
                (#[trigger] order[i]).0 as nat,
                update_set@,
            ) by {
                let k = choose|k: int|
                    0 <= k < updates@.len() && is_proper_ancestor(ARITY as nat, order[i].0 as nat, #[trigger] updates@[k].0 as nat);
                assert(update_set@.contains(updates@[k].0));
            }
            assert forall|a: nat| #[trigger] ancestor_of_set(ARITY as nat, a, update_set@) implies has_index(order@, a) by {
                let b = choose|b: usize| #[trigger] update_set@.contains(b) && is_proper_ancestor(ARITY as nat, a, b as nat);
                let k = choose|k: int| 0 <= k < updates@.len() && (#[trigger] updates@[k]).0 == b;
                assert(is_proper_ancestor(ARITY as nat, a, updates@[k].0 as nat));
            }
        }
        order
    }

    /// The non-empty case of [`Self::apply_updates_from_slice_with_marker`]:
    /// parents of positions on the deepest levels are recomputed first, then
    /// the frontier climbs one parent step per round until only the root is
    /// left.
    pub fn apply_updates_from_iter_with_marker(
        total: usize,
        update_indices: &[TreeIndex],
        current: &mut Vec<TreeIndex>,
        next: &mut Vec<TreeIndex>,
        seen: &mut Vec<usize>,
        seen_epoch: &mut usize,
    ) -> (order: Vec<TreeIndex>)
        requires
            ARITY >= 2,
            total <= isize::MAX,
            update_indices.len() > 0,
            forall|k: int|
                0 <= k < update_indices.len() ==> (#[trigger] update_indices[k]).0 < total,
            forall|i: int| 0 <= i < old(seen).len() ==> #[trigger] old(seen)[i] <= *old(seen_epoch),
        ensures
            final(seen).len() == if old(seen).len() < total {
                total
            } else {
                old(seen).len()
            },
            forall|i: int|
                0 <= i < order.len() ==> is_ancestor_of_some(
                    ARITY as nat,
                    (#[trigger] order[i]).0 as nat,
                    update_indices@,
                ),
            forall|k: int, a: nat|
                0 <= k < update_indices.len() && #[trigger] is_proper_ancestor(ARITY as nat, a, update_indices[k].0 as nat) ==> has_index(order@, a),
            parents_follow(ARITY as nat, order@),
            *old(seen_epoch) != usize::MAX - 1 ==> forall|i: int|
                0 <= i < final(seen).len() ==> #[trigger] final(seen)[i] <= *final(seen_epoch),
            order@ == update_order(ARITY as nat, update_indices@, total as nat),
    {
        let ghost upd = update_indices@;
        let ghost d = ARITY as nat;
        let ghost target = update_order(d, upd, total as nat);
        current.clear();
        next.clear();
        if seen.len() < total {
            seen.resize(total, 0);
        }
        let ghost seen_sized = seen@;
        assert(forall|i: int| 0 <= i < seen.len() ==> #[trigger] seen[i] <= *seen_epoch) by {
            assert forall|i: int| 0 <= i < seen.len() implies #[trigger] seen[i] <= *seen_epoch by {
                if i >= old(seen).len() {
                    assert(seen_sized[i] == 0);
                } else {
                    assert(seen_sized[i] == old(seen)[i]);
                }
            }
        }
        assert(update_indices[0].0 < total);
        let bottom_start = Self::bottom_level_start(total);
        let ghost mut wrapped: bool = *old(seen_epoch) == usize::MAX - 1;
        let current_epoch = Self::next_marker_epoch(seen, seen_epoch);
        let bottom_epoch = Self::next_marker_epoch(seen, seen_epoch);
        assert(forall|i: int|
            0 <= i < seen.len() ==> #[trigger] seen[i] != current_epoch && seen[i] != bottom_epoch);
        let ghost seen_before_seed = seen@;
        let (Ghost(cw), Ghost(nw), Ghost(kind), Ghost(fk)) = Self::seed_frontiers(
            update_indices,
            bottom_start,
            current,
            next,
            seen,
            current_epoch,
            bottom_epoch,
        );
        let mut order: Vec<TreeIndex> = Vec::new();
        Self::append_indices(&mut order, next);
        let ghost top_len = current.len() as int;
        Self::append_indices(current, next);
        // ghost bookkeeping for the rounds
        let ghost mut aw: Seq<int> = nw;
        let ghost mut cur_w: Seq<int> = cw + nw;
        let ghost mut front: Seq<int> = Seq::new(
            upd.len(),
            |k: int|
                if kind[k] == 0 {
                    fk[k]
                } else if kind[k] == 1 {
                    top_len + fk[k]
                } else {
                    0
                },
        );
        let ghost mut b: nat = (total - 1) as nat;
        proof {
            let (c0, n0, m0) = seed_state(d, upd, bottom_start as nat);
            assert(order@ =~= n0);
            assert(current@ =~= c0 + n0);
            assert(order@ + climb(d, current@, b + 1) == target);
            assert forall|i: int| 0 <= i < order.len() implies {
                let k = #[trigger] aw[i];
                &&& 0 <= k < upd.len()
                &&& is_proper_ancestor(d, order[i].0 as nat, upd[k].0 as nat)
            } by {
                let k = aw[i];
                assert(order[i] == next[i]);
                lemma_ancestor_step(d, order[i].0 as nat, upd[k].0 as nat);
            }
            assert forall|c: int| 0 <= c < current.len() implies {
                let k = #[trigger] cur_w[c];
                &&& 0 <= k < upd.len()
                &&& (current[c].0 == upd[k].0 || is_proper_ancestor(
                    d,
                    current[c].0 as nat,
                    upd[k].0 as nat,
                ))
                &&& current[c].0 <= b
            } by {
                if c < top_len {
                    assert(cur_w[c] == cw[c]);
                } else {
                    let k = nw[c - top_len];
                    assert(cur_w[c] == k);
                    assert(current[c] == next[c - top_len]);
                    lemma_ancestor_step(d, current[c].0 as nat, upd[k].0 as nat);
                    lemma_parent_lt(d, upd[k].0 as nat);
                }
            }
            assert forall|k: int, a: nat|
                0 <= k < upd.len() && #[trigger] is_proper_ancestor(d, a, upd[k].0 as nat) implies has_index(order@, a) || (0 <= front[k] < current.len()
                && is_proper_ancestor(d, a, current[front[k]].0 as nat)) by {
                assert(frontier_entry(d, upd[k], kind[k], fk[k], current@.subrange(0, top_len), next@));
                if kind[k] == 0 {
                    assert(current[front[k]] == upd[k]);
                } else if kind[k] == 1 {
                    lemma_ancestor_step(d, a, upd[k].0 as nat);
                    assert(order@[fk[k]] == next[fk[k]]);
                    assert(current[front[k]] == next[fk[k]]);
                } else {
                    assert(!is_proper_ancestor(d, a, 0));
                }
            }
            assert forall|i: int|
                0 <= i < order.len() && (#[trigger] order[i]).0 != 0 implies (exists|j: int|
                i < j < order.len() && (#[trigger] order[j]).0 == parent_of(
                    d,
                    order[i].0 as nat,
                )) || has_index(current@, order[i].0 as nat) by {
                assert(current@[top_len + i] == order[i]);
            }
        }
        loop
            invariant
                ARITY >= 2,
                d == ARITY as nat,
                upd == update_indices@,
                total <= isize::MAX,
                b < total,
                seen.len() >= total,
                seen.len() == if old(seen).len() < total {
                    total
                } else {
                    old(seen).len()
                },
                !wrapped ==> forall|i: int|
                    0 <= i < seen.len() ==> #[trigger] seen[i] <= *seen_epoch,
                wrapped ==> *seen_epoch + b <= total + 1 && forall|i: int|
                    0 <= i < seen.len() ==> #[trigger] seen[i] <= *seen_epoch || seen[i]
                        == usize::MAX,
                *old(seen_epoch) != usize::MAX - 1 ==> !wrapped,
                aw.len() == order.len(),
                forall|i: int|
                    0 <= i < order.len() ==> {
                        let k = #[trigger] aw[i];
                        &&& 0 <= k < upd.len()
                        &&& is_proper_ancestor(d, order[i].0 as nat, upd[k].0 as nat)
                    },
                cur_w.len() == current.len(),
                forall|c: int|
                    0 <= c < current.len() ==> {
                        let k = #[trigger] cur_w[c];
                        &&& 0 <= k < upd.len()
                        &&& (current[c].0 == upd[k].0 || is_proper_ancestor(
                            d,
                            current[c].0 as nat,
                            upd[k].0 as nat,
                        ))
                        &&& current[c].0 <= b
                    },
                front.len() == upd.len(),
                forall|k: int, a: nat|
                    0 <= k < upd.len() && #[trigger] is_proper_ancestor(d, a, upd[k].0 as nat) ==> has_index(order@, a) || (0 <= front[k] < current.len()
                        && is_proper_ancestor(d, a, current[front[k]].0 as nat)),
                forall|i: int|
                    0 <= i < order.len() && (#[trigger] order[i]).0 != 0 ==> (exists|j: int|
                        i < j < order.len() && (#[trigger] order[j]).0 == parent_of(
                            d,
                            order[i].0 as nat,
                        )) || has_index(current@, order[i].0 as nat),
                target == update_order(d, upd, total as nat),
                order@ + climb(d, current@, b + 1) == target,
            ensures
                forall|c: int| 0 <= c < current.len() ==> (#[trigger] current[c]).0 == 0,
                order@ == target,
            decreases b,
        {
            next.clear();
            let ghost epoch_before = *seen_epoch;
            let ghost seen_before = seen@;
            proof {
                assert forall|i: int| 0 <= i < seen.len() implies #[trigger] seen[i] <= *seen_epoch
                    || (seen[i] == usize::MAX && *seen_epoch + 1 < usize::MAX) by {
                    if wrapped && seen[i] > *seen_epoch {
                        assert(*seen_epoch + 1 < usize::MAX);
                    }
                }
            }
            proof {
                assert forall|c: int| 0 <= c < current.len() implies (#[trigger] current[c]).0
                    < seen.len() by {
                    assert(0 <= cur_w[c] < upd.len());
                }
            }
            let (Ghost(src), Ghost(dst)) = Self::collect_parents(current, next, seen, seen_epoch);
            if next.len() == 0 {
                proof {
                    assert forall|c: int| 0 <= c < current.len() implies (#[trigger] current[c]).0
                        == 0 by {
                        if current[c].0 != 0 {
                            assert(0 <= dst[c] < next.len());
                        }
                    }
                    assert(climb(d, current@, b + 1) =~= Seq::<TreeIndex>::empty());
                    assert(order@ + climb(d, current@, b + 1) =~= order@);
                }
                break ;
            }
            proof {
                let m0 = 0int;
                let c0 = src[m0];
                assert(0 <= cur_w[c0] < upd.len());
                assert(current[c0].0 != 0 && current[c0].0 <= b);
                assert(b >= 1);
            }
            let ghost order_before = order@;
            let ghost current_before = current@;
            let ghost next_seq = next@;
            let ghost new_w = Seq::new(next_seq.len(), |m: int| cur_w[src[m]]);
            Self::append_indices(&mut order, next);
            std::mem::swap(current, next);
            proof {
                let old_len = order_before.len() as int;
                let old_front = front;
                let old_b = b;
                b = (b - 1) as nat;
                assert(climb(d, current_before, old_b + 1) == next_seq + climb(d, next_seq, old_b));
                assert(order@ + climb(d, current@, b + 1) =~= order_before + climb(
                    d,
                    current_before,
                    old_b + 1,
                ));
                aw = aw + new_w;
                cur_w = new_w;
                front = Seq::new(
                    upd.len(),
                    |k: int|
                        if 0 <= old_front[k] < current_before.len() && current_before[old_front[k]].0
                            != 0 {
                            dst[old_front[k]]
                        } else {
                            0
                        },
                );
                if *seen_epoch < epoch_before {
                    wrapped = false;
                }
                // every new entry is a parent of an entry of the old frontier
                assert forall|m: int| 0 <= m < current.len() implies {
                    let k = #[trigger] cur_w[m];
                    &&& 0 <= k < upd.len()
                    &&& (current[m].0 == upd[k].0 || is_proper_ancestor(
                        d,
                        current[m].0 as nat,
                        upd[k].0 as nat,
                    ))
                    &&& current[m].0 <= b
                } by {
                    let c = src[m];
                    let k = cur_w[m];
                    assert(current[m] == next_seq[m]);
                    lemma_ancestor_step(d, current[m].0 as nat, current_before[c].0 as nat);
                    lemma_parent_lt(d, current_before[c].0 as nat);
                    if current_before[c].0 != upd[k].0 {
                        lemma_ancestor_trans(
                            d,
                            current[m].0 as nat,
                            current_before[c].0 as nat,
                            upd[k].0 as nat,
                        );
                    }
                }
                assert forall|i: int| 0 <= i < order.len() implies {
                    let k = #[trigger] aw[i];
                    &&& 0 <= k < upd.len()
                    &&& is_proper_ancestor(d, order[i].0 as nat, upd[k].0 as nat)
                } by {
                    if i < old_len {
                        assert(order[i] == order_before[i]);
                    } else {
                        let m = i - old_len;
                        let c = src[m];
                        let k = aw[i];
                        assert(order[i] == next_seq[m]);
                        assert(k == cur_w[m]);
                        lemma_ancestor_step(d, order[i].0 as nat, current_before[c].0 as nat);
                        if current_before[c].0 != upd[k].0 {
                            lemma_ancestor_trans(
                                d,
                                order[i].0 as nat,
                                current_before[c].0 as nat,
                                upd[k].0 as nat,
                            );
                        }
                    }
                }
                assert forall|k: int, a: nat|
                    0 <= k < upd.len() && #[trigger] is_proper_ancestor(d, a, upd[k].0 as nat) implies has_index(order@, a) || (0 <= front[k] < current.len()
                    && is_proper_ancestor(d, a, current[front[k]].0 as nat)) by {
                    if has_index(order_before, a) {
                        let w = choose|w: int|
                            0 <= w < order_before.len() && (#[trigger] order_before[w]).0 == a;
                        assert(order@[w] == order_before[w]);
                    } else {
                        let f = old_front[k];
                        let c = current_before[f];
                        if c.0 == 0 {
                            assert(!is_proper_ancestor(d, a, 0));
                        }
                        lemma_ancestor_step(d, a, c.0 as nat);
                        let m = dst[f];
                        assert(front[k] == m);
                        assert(current[m] == next_seq[m]);
                        assert(order@[old_len + m] == next_seq[m]);
                    }
                }
                assert forall|i: int|
                    0 <= i < order.len() && (#[trigger] order[i]).0 != 0 implies (exists|j: int|
                    i < j < order.len() && (#[trigger] order[j]).0 == parent_of(
                        d,
                        order[i].0 as nat,
                    )) || has_index(current@, order[i].0 as nat) by {
                    if i < old_len {
                        assert(order[i] == order_before[i]);
                        if has_index(current_before, order[i].0 as nat) {
                            let c = choose|c: int|
                                0 <= c < current_before.len() && (#[trigger] current_before[c]).0
                                    == order[i].0;
                            let m = dst[c];
                            assert(order[old_len + m] == next_seq[m]);
                        } else {
                            let j = choose|j: int|
                                i < j < order_before.len() && (#[trigger] order_before[j]).0
                                    == parent_of(d, order_before[i].0 as nat);
                            assert(order[j] == order_before[j]);
                        }
                    } else {
                        assert(current@[i - old_len] == order[i]);
                    }
                }
            }
        }
        proof {
            assert forall|i: int| 0 <= i < order.len() implies is_ancestor_of_some(
                ARITY as nat,
                (#[trigger] order[i]).0 as nat,
                update_indices@,
            ) by {
                let k = aw[i];
                assert(0 <= k < upd.len());
                assert(is_proper_ancestor(d, order[i].0 as nat, upd[k].0 as nat));
                assert(update_indices@[k] == upd[k]);
            }
            assert forall|i: int|
                0 <= i < order@.len() && (#[trigger] order@[i]).0 != 0 implies exists|j: int|
                i < j < order@.len() && (#[trigger] order@[j]).0 == parent_of(
                    ARITY as nat,
                    order@[i].0 as nat,
                ) by {
                if has_index(current@, order[i].0 as nat) {
                    let c = choose|c: int|
                        0 <= c < current.len() && (#[trigger] current@[c]).0 == order[i].0;
                    assert(current[c].0 == 0);
                }
            }
            assert forall|k: int, a: nat|
                0 <= k < update_indices.len() && #[trigger] is_proper_ancestor(ARITY as nat, a, update_indices[k].0 as nat) implies has_index(order@, a) by {
                if !has_index(order@, a) {
                    let c = current[front[k]];
                    assert(c.0 == 0);
                    assert(!is_proper_ancestor(d, a, 0));
                }
            }
        }
        order
    }

    /// The parent position as an option, `None` at the root.
    pub open spec fn spec_parent(child: TreeIndex) -> Option<TreeIndex> {
        if child.0 == 0 {
            None
        } else {
            Some(TreeIndex(parent_of(ARITY as nat, child.0 as nat) as usize))
        }
    }
}

} // verus!
