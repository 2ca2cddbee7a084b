use std::collections::HashSet;

use vstd::prelude::*;

use crate::ids::TreeIndex;

verus! {

broadcast use vstd::std_specs::hash::group_hash_axioms;

/// The positions of `set` that `keep` admits, where `keep` holds of a
/// position outside `[lo, hi)` when `inside` is false, and of a position
/// inside `[lo, hi)` that is not in `exclude` when `inside` is true.
pub open spec fn kept_position(x: usize, inside: bool, lo: usize, hi: usize, exclude: Set<usize>) -> bool {
    if inside {
        lo <= x < hi && !exclude.contains(x)
    } else {
        x < lo || x >= hi
    }
}

/// The elements of `set` that `kept_position` admits.
pub fn filter_positions(set: &HashSet<usize>, inside: bool, lo: usize, hi: usize, exclude: &HashSet<usize>) -> (res: HashSet<usize>)
    ensures
        forall|y: usize| #[trigger] res@.contains(y) <==> set@.contains(y) && kept_position(y, inside, lo, hi, exclude@),
{
    let mut out: HashSet<usize> = HashSet::new();
    let ghost mut seen: Set<usize> = Set::empty();
    for x in it: set.iter()
        invariant
            it.seq().unref().to_set() == set@,
            seen == it.seq().unref().take(it.index() as int).to_set(),
            it.index() == it.seq().len() ==> seen == set@,
            forall|y: usize| #[trigger] out@.contains(y) <==> (seen.contains(y) && kept_position(y, inside, lo, hi, exclude@)),
    {
        let v = *x;
        let keep = if inside {
            lo <= v && v < hi && !exclude.contains(&v)
        } else {
            v < lo || v >= hi
        };
        if keep {
            out.insert(v);
        }
        let ghost old_seen = seen;
        proof {
            seen = seen.insert(v);
        }
        assert(it.seq().unref()[it.index() as int] == v);
        assert forall|y: usize| #[trigger] seen.contains(y) <==> it.seq().unref().take(it.index() + 1).contains(y) by {
            assert(old_seen.contains(y) <==> it.seq().unref().take(it.index() as int).contains(y));
            if y == v {
                assert(it.seq().unref().take(it.index() + 1)[it.index() as int] == v);
            }
            if it.seq().unref().take(it.index() as int).contains(y) {
                let k = choose|k: int| 0 <= k < it.index() && #[trigger] it.seq().unref().take(it.index() as int)[k] == y;
                assert(it.seq().unref().take(it.index() + 1)[k] == y);
            }
            if it.seq().unref().take(it.index() + 1).contains(y) {
                let k = choose|k: int| 0 <= k < it.index() + 1 && #[trigger] it.seq().unref().take(it.index() + 1)[k] == y;
                if k < it.index() {
                    assert(it.seq().unref().take(it.index() as int)[k] == y);
                }
            }
        }
        assert(seen =~= it.seq().unref().take(it.index() + 1).to_set());
        assert(it.index() + 1 == it.seq().len() ==> it.seq().unref().take(it.index() + 1) =~= it.seq().unref());
    }
    out
}

/// The elements of `set` as positions, in some order.
pub fn positions_in(set: &HashSet<usize>) -> (res: Vec<TreeIndex>)
    ensures
        forall|x: usize| #[trigger] set@.contains(x) <==> exists|k: int| 0 <= k < res@.len() && (#[trigger] res@[k]).0 == x,
{
    let mut out: Vec<TreeIndex> = Vec::new();
    let ghost mut seen: Set<usize> = Set::empty();
    for x in it: set.iter()
        invariant
            it.seq().unref().to_set() == set@,
            seen == it.seq().unref().take(it.index() as int).to_set(),
            it.index() == it.seq().len() ==> seen == set@,
            forall|y: usize| #[trigger] seen.contains(y) <==> exists|k: int| 0 <= k < out@.len() && (#[trigger] out@[k]).0 == y,
    {
        let v = *x;
        let ghost before = out@;
        out.push(TreeIndex(v));
        let ghost old_seen = seen;
        proof {
            seen = seen.insert(v);
        }
        assert(it.seq().unref()[it.index() as int] == v);
        assert forall|y: usize| #[trigger] seen.contains(y) <==> exists|k: int| 0 <= k < out@.len() && (#[trigger] out@[k]).0 == y by {
            if y == v {
                assert(out@[out@.len() - 1].0 == y);
            } else if old_seen.contains(y) {
                let k = choose|k: int| 0 <= k < before.len() && (#[trigger] before[k]).0 == y;
                assert(out@[k] == before[k]);
            } else if exists|k: int| 0 <= k < out@.len() && (#[trigger] out@[k]).0 == y {
                let k = choose|k: int| 0 <= k < out@.len() && (#[trigger] out@[k]).0 == y;
                assert(out@[k] == before[k]);
            }
        }
        assert forall|y: usize| #[trigger] seen.contains(y) <==> it.seq().unref().take(it.index() + 1).contains(y) by {
            assert(old_seen.contains(y) <==> it.seq().unref().take(it.index() as int).contains(y));
            if y == v {
                assert(it.seq().unref().take(it.index() + 1)[it.index() as int] == v);
            }
            if it.seq().unref().take(it.index() as int).contains(y) {
                let k = choose|k: int| 0 <= k < it.index() && #[trigger] it.seq().unref().take(it.index() as int)[k] == y;
                assert(it.seq().unref().take(it.index() + 1)[k] == y);
            }
            if it.seq().unref().take(it.index() + 1).contains(y) {
                let k = choose|k: int| 0 <= k < it.index() + 1 && #[trigger] it.seq().unref().take(it.index() + 1)[k] == y;
                if k < it.index() {
                    assert(it.seq().unref().take(it.index() as int)[k] == y);
                }
            }
        }
        assert(seen =~= it.seq().unref().take(it.index() + 1).to_set());
        assert(it.index() + 1 == it.seq().len() ==> it.seq().unref().take(it.index() + 1) =~= it.seq().unref());
    }
    out
}

} // verus!
