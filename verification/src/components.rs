use std::collections::HashMap;

use vstd::prelude::*;

use crate::consensus::{
    all_distinct, find, is_forest, node_positions, occurs_in, ranking, root_of, same_set, union,
};
use crate::error::RavenError;
use crate::text::{append_decimal, decimal};

verus! {

broadcast use vstd::std_specs::hash::group_hash_axioms;

/// `a` and `b` are joined by the first `k` pairs: the equivalence built by
/// merging, pair after pair, the class of each pair's first node with the
/// class of its second node.
pub open spec fn linked(pairs: Seq<(usize, usize)>, k: nat, a: usize, b: usize) -> bool
    decreases k,
{
    if k == 0 || k > pairs.len() {
        a == b
    } else {
        let km = (k - 1) as nat;
        let l = pairs[km as int].0;
        let r = pairs[km as int].1;
        ||| linked(pairs, km, a, b)
        ||| (linked(pairs, km, a, l) && linked(pairs, km, b, r))
        ||| (linked(pairs, km, a, r) && linked(pairs, km, b, l))
    }
}

/// `a` and `b` lie in one connected component of the graph whose edges are `pairs`.
pub open spec fn connected(pairs: Seq<(usize, usize)>, a: usize, b: usize) -> bool {
    linked(pairs, pairs.len(), a, b)
}

/// Node `x` is an endpoint of one of `pairs`.
pub open spec fn touched(pairs: Seq<(usize, usize)>, x: usize) -> bool {
    exists|j: int| 0 <= j < pairs.len() && (pairs[j].0 == x || pairs[j].1 == x)
}

/// Some pair names a node that is not one of `nodes`.
pub open spec fn has_unknown_node(nodes: Seq<usize>, pairs: Seq<(usize, usize)>) -> bool {
    exists|j: int|
        0 <= j < pairs.len() && (!occurs_in(nodes, pairs[j].0 as int) || !occurs_in(
            nodes,
            pairs[j].1 as int,
        ))
}

/// Node `x` belongs in the output: it is one of `nodes`, and it is an
/// endpoint of a pair unless singletons are kept.
pub open spec fn included(
    nodes: Seq<usize>,
    pairs: Seq<(usize, usize)>,
    include_singletons: bool,
    x: usize,
) -> bool {
    occurs_in(nodes, x as int) && (include_singletons || touched(pairs, x))
}

/// Text of the error for a node outside the consensus query.
pub open spec fn unknown_node_text(node: usize) -> Seq<char> {
    "node "@ + decimal(node as nat) + " was not part of this consensus query"@
}

/// Pair `k` is the first that names a node outside `nodes`.
pub open spec fn first_unknown_pair(nodes: Seq<usize>, pairs: Seq<(usize, usize)>, k: int) -> bool {
    &&& 0 <= k < pairs.len()
    &&& !has_unknown_node(nodes, pairs.subrange(0, k))
    &&& (!occurs_in(nodes, pairs[k].0 as int) || !occurs_in(nodes, pairs[k].1 as int))
}

/// The endpoint of `pair` that is reported as outside `nodes`: the first
/// one when it is outside, else the second.
pub open spec fn unknown_endpoint(nodes: Seq<usize>, pair: (usize, usize)) -> usize {
    if !occurs_in(nodes, pair.0 as int) {
        pair.0
    } else {
        pair.1
    }
}

/// Description of the error for a node outside the query.
fn unknown_node_message(node: usize) -> (res: String)
    ensures
        res@ == unknown_node_text(node),
{
    let mut text = String::new();
    text.append("node ");
    append_decimal(&mut text, node);
    text.append(" was not part of this consensus query");
    assert(text@ =~= unknown_node_text(node));
    text
}

/// Position of `node` in the query, or the error for a node outside it.
fn position_of(
    nodes: &[usize],
    positions: &HashMap<usize, usize>,
    node: usize,
) -> (res: Result<usize, RavenError>)
    requires
        forall|x: usize| #[trigger] positions@.contains_key(x) <==> occurs_in(nodes@, x as int),
        forall|i: int| 0 <= i < nodes.len() ==> positions@[#[trigger] nodes@[i]] == i,
    ensures
        res is Ok <==> occurs_in(nodes@, node as int),
        res matches Ok(p) ==> p < nodes.len() && nodes@[p as int] == node,
        res is Err ==> (res matches Err(RavenError::InvalidInput(msg)) && msg@ == unknown_node_text(
            node,
        )),
{
    match positions.get(&node) {
        Some(p) => {
            proof {
                let w = choose|w: int| 0 <= w < nodes.len() && nodes@[w] == node;
                assert(positions@[nodes@[w]] == w);
            }
            Ok(*p)
        },
        None => Err(RavenError::InvalidInput(unknown_node_message(node))),
    }
}

/// Position of `node` among `nodes`, as `node_positions` records them: read
/// from the dense table when the table covers the id and holds a position,
/// from the map otherwise; an id outside `nodes` is an error.
pub fn node_position(
    nodes: &[usize],
    positions: &HashMap<usize, usize>,
    dense: &Option<Vec<usize>>,
    node: usize,
) -> (res: Result<usize, RavenError>)
    requires
        forall|x: usize| #[trigger] positions@.contains_key(x) <==> occurs_in(nodes@, x as int),
        forall|i: int| 0 <= i < nodes.len() ==> positions@[#[trigger] nodes@[i]] == i,
        dense matches Some(table) ==> forall|x: int|
            0 <= x < table@.len() ==> if occurs_in(nodes@, x) {
                table@[x] < nodes.len() && nodes@[#[trigger] table@[x] as int] == x
            } else {
                table@[x] == usize::MAX
            },
    ensures
        res is Ok <==> occurs_in(nodes@, node as int),
        res matches Ok(p) ==> p < nodes.len() && nodes@[p as int] == node,
        res is Err ==> (res matches Err(RavenError::InvalidInput(msg)) && msg@ == unknown_node_text(
            node,
        )),
{
    if let Some(table) = dense {
        if node < table.len() {
            let p = table[node];
            if p != usize::MAX {
                proof {
                    if !occurs_in(nodes@, node as int) {
                        assert(table@[node as int] == usize::MAX);
                    }
                }
                return Ok(p);
            }
        }
    }
    position_of(nodes, positions, node)
}

/// Merges the classes of the endpoints of every pair into a union-find
/// forest over the positions of `nodes`, and marks each endpoint as active.
fn join_pairs(
    nodes: &[usize],
    positions: &HashMap<usize, usize>,
    pairs: &[(usize, usize)],
    parent: &mut Vec<usize>,
    active: &mut Vec<bool>,
) -> (res: Result<(), RavenError>)
    requires
        all_distinct(nodes@),
        forall|x: usize| #[trigger] positions@.contains_key(x) <==> occurs_in(nodes@, x as int),
        forall|i: int| 0 <= i < nodes.len() ==> positions@[#[trigger] nodes@[i]] == i,
        old(parent)@.len() == nodes.len(),
        old(active)@.len() == nodes.len(),
        forall|i: int| 0 <= i < nodes.len() ==> #[trigger] old(parent)@[i] == i,
        forall|i: int| 0 <= i < nodes.len() ==> !#[trigger] old(active)@[i],
    ensures
        res is Ok <==> !has_unknown_node(nodes@, pairs@),
        res is Err ==> exists|k: int|
            #[trigger] first_unknown_pair(nodes@, pairs@, k) && (res matches Err(RavenError::InvalidInput(msg))
                && msg@ == unknown_node_text(unknown_endpoint(nodes@, pairs@[k]))),
        res is Ok ==> {
            &&& final(parent)@.len() == nodes.len()
            &&& final(active)@.len() == nodes.len()
            &&& is_forest(final(parent)@)
            &&& forall|a: int, b: int|
                0 <= a < nodes.len() && 0 <= b < nodes.len() ==> (#[trigger] same_set(
                    final(parent)@,
                    a,
                    b,
                ) <==> connected(pairs@, nodes@[a], nodes@[b]))
            &&& forall|i: int|
                0 <= i < nodes.len() ==> (#[trigger] final(active)@[i] <==> touched(
                    pairs@,
                    nodes@[i],
                ))
        },
{
    proof {
        let rank = Seq::new(nodes.len() as nat, |i: int| 0nat);
        assert(ranking(parent@, rank));
        assert forall|a: int, b: int|
            0 <= a < nodes.len() && 0 <= b < nodes.len() implies (#[trigger] same_set(
            parent@,
            a,
            b,
        ) <==> linked(pairs@, 0, nodes@[a], nodes@[b])) by {
            crate::consensus::lemma_root_props(parent@, rank, a);
            crate::consensus::lemma_root_props(parent@, rank, b);
        }
    }
    let mut k: usize = 0;
    while k < pairs.len()
        invariant
            k <= pairs.len(),
            all_distinct(nodes@),
            forall|x: usize| #[trigger] positions@.contains_key(x) <==> occurs_in(nodes@, x as int),
            forall|i: int| 0 <= i < nodes.len() ==> positions@[#[trigger] nodes@[i]] == i,
            parent@.len() == nodes.len(),
            active@.len() == nodes.len(),
            is_forest(parent@),
            !has_unknown_node(nodes@, pairs@.subrange(0, k as int)),
            forall|a: int, b: int|
                0 <= a < nodes.len() && 0 <= b < nodes.len() ==> (#[trigger] same_set(
                    parent@,
                    a,
                    b,
                ) <==> linked(pairs@, k as nat, nodes@[a], nodes@[b])),
            forall|i: int|
                0 <= i < nodes.len() ==> (#[trigger] active@[i] <==> touched(
                    pairs@.subrange(0, k as int),
                    nodes@[i],
                )),
        decreases pairs.len() - k,
    {
        let (u, v) = pairs[k];
        let left = match position_of(nodes, positions, u) {
            Ok(p) => p,
            Err(e) => {
                proof {
                    assert(pairs@[k as int].0 == u);
                    assert(first_unknown_pair(nodes@, pairs@, k as int));
                }
                return Err(e);
            },
        };
        let right = match position_of(nodes, positions, v) {
            Ok(p) => p,
            Err(e) => {
                proof {
                    assert(pairs@[k as int].1 == v);
                    assert(first_unknown_pair(nodes@, pairs@, k as int));
                }
                return Err(e);
            },
        };
        let ghost p0 = parent@;
        let ghost a0 = active@;
        active.set(left, true);
        active.set(right, true);
        union(parent, left, right);
        proof {
            let before = pairs@.subrange(0, k as int);
            let after = pairs@.subrange(0, k + 1);
            assert(after[k as int] == (u, v));
            assert forall|j: int| 0 <= j < before.len() implies after[j] == before[j] by {}
            assert(!has_unknown_node(nodes@, after)) by {
                if has_unknown_node(nodes@, after) {
                    let j = choose|j: int|
                        0 <= j < after.len() && (!occurs_in(nodes@, after[j].0 as int)
                            || !occurs_in(nodes@, after[j].1 as int));
                    if j < k {
                        assert(after[j] == before[j]);
                    } else {
                        assert(nodes@[left as int] == u);
                        assert(nodes@[right as int] == v);
                    }
                }
            }
            assert forall|a: int, b: int|
                0 <= a < nodes.len() && 0 <= b < nodes.len() implies (#[trigger] same_set(
                parent@,
                a,
                b,
            ) <==> linked(pairs@, (k + 1) as nat, nodes@[a], nodes@[b])) by {
                assert(same_set(p0, a, left as int) <==> linked(
                    pairs@,
                    k as nat,
                    nodes@[a],
                    nodes@[left as int],
                ));
                assert(same_set(p0, b, right as int) <==> linked(
                    pairs@,
                    k as nat,
                    nodes@[b],
                    nodes@[right as int],
                ));
                assert(same_set(p0, a, right as int) <==> linked(
                    pairs@,
                    k as nat,
                    nodes@[a],
                    nodes@[right as int],
                ));
                assert(same_set(p0, b, left as int) <==> linked(
                    pairs@,
                    k as nat,
                    nodes@[b],
                    nodes@[left as int],
                ));
                assert(same_set(p0, a, b) <==> linked(pairs@, k as nat, nodes@[a], nodes@[b]));
            }
            assert forall|i: int| 0 <= i < nodes.len() implies (#[trigger] active@[i] <==> touched(
                after,
                nodes@[i],
            )) by {
                if touched(after, nodes@[i]) && !a0[i] {
                    let j = choose|j: int|
                        0 <= j < after.len() && (after[j].0 == nodes@[i] || after[j].1
                            == nodes@[i]);
                    if j < k {
                        assert(after[j] == before[j]);
                    } else {
                        assert(nodes@[left as int] == u);
                        assert(nodes@[right as int] == v);
                        if after[j].0 == nodes@[i] {
                            assert(i == left);
                        } else {
                            assert(i == right);
                        }
                    }
                }
                if a0[i] {
                    let j = choose|j: int|
                        0 <= j < before.len() && (before[j].0 == nodes@[i] || before[j].1
                            == nodes@[i]);
                    assert(after[j] == before[j]);
                }
                if i == left {
                    assert(after[k as int].0 == nodes@[i]);
                }
                if i == right {
                    assert(after[k as int].1 == nodes@[i]);
                }
            }
        }
        k += 1;
    }
    proof {
        assert(pairs@.subrange(0, pairs.len() as int) =~= pairs@);
    }
    Ok(())
}

/// The entries of `s` increase strictly.
pub open spec fn strictly_increasing(s: Seq<usize>) -> bool {
    forall|a: int, b: int| 0 <= a < b < s.len() ==> s[a] < s[b]
}

/// `x` is the id at some position below `k` of `nodes` that is kept: every
/// position when `keep_all`, else those marked in `keep`.
pub open spec fn kept_before(
    nodes: Seq<usize>,
    keep: Seq<bool>,
    keep_all: bool,
    k: int,
    x: usize,
) -> bool {
    exists|i: int| 0 <= i < k && nodes[i] == x && (keep_all || keep[i])
}

/// The kept node ids of `nodes`, in increasing order.
fn sorted_kept_ids(nodes: &[usize], keep: &Vec<bool>, keep_all: bool) -> (out: Vec<usize>)
    requires
        all_distinct(nodes@),
        keep@.len() == nodes.len(),
    ensures
        strictly_increasing(out@),
        forall|x: usize|
            #[trigger] out@.contains(x) <==> kept_before(
                nodes@,
                keep@,
                keep_all,
                nodes.len() as int,
                x,
            ),
{
    let mut out: Vec<usize> = Vec::new();
    let mut i: usize = 0;
    while i < nodes.len()
        invariant
            i <= nodes.len(),
            all_distinct(nodes@),
            keep@.len() == nodes.len(),
            strictly_increasing(out@),
            forall|x: usize|
                #[trigger] out@.contains(x) <==> kept_before(nodes@, keep@, keep_all, i as int, x),
        decreases nodes.len() - i,
    {
        if keep_all || keep[i] {
            let x = nodes[i];
            let mut p: usize = 0;
            while p < out.len() && out[p] < x
                invariant
                    p <= out.len(),
                    forall|j: int| 0 <= j < p ==> out@[j] < x,
                decreases out.len() - p,
            {
                p += 1;
            }
            proof {
                assert(!out@.contains(x)) by {
                    if out@.contains(x) {
                        let i2 = choose|i2: int|
                            0 <= i2 < i && nodes@[i2] == x && (keep_all || keep@[i2]);
                        assert(nodes@[i2] == nodes@[i as int]);
                    }
                }
                if p < out.len() {
                    assert(out@[p as int] != x) by {
                        assert(out@.contains(out@[p as int]));
                    }
                }
            }
            let ghost before = out@;
            out.insert(p, x);
            proof {
                before.insert_ensures(p as int, x);
                let after = out@;
                assert forall|a: int, b: int| 0 <= a < b < after.len() implies after[a]
                    < after[b] by {
                    if b < p {
                    } else if b == p {
                    } else if a < p {
                        assert(after[b] == before[b - 1]);
                    } else if a == p {
                        assert(after[b] == before[b - 1]);
                        assert(before[p as int] <= before[b - 1]);
                    } else {
                        assert(after[a] == before[a - 1]);
                        assert(after[b] == before[b - 1]);
                    }
                }
                assert forall|y: usize| #[trigger] after.contains(y) <==> kept_before(
                    nodes@,
                    keep@,
                    keep_all,
                    i + 1,
                    y,
                ) by {
                    if after.contains(y) {
                        let j = choose|j: int| 0 <= j < after.len() && after[j] == y;
                        if j < p {
                            assert(before.contains(y));
                        } else if j > p {
                            assert(after[j] == before[j - 1]);
                            assert(before.contains(y));
                        }
                    }
                    if kept_before(nodes@, keep@, keep_all, i + 1, y) {
                        if y == x {
                            assert(after[p as int] == x);
                        } else {
                            let i2 = choose|i2: int|
                                0 <= i2 < i + 1 && nodes@[i2] == y && (keep_all || keep@[i2]);
                            assert(kept_before(nodes@, keep@, keep_all, i as int, y));
                            assert(before.contains(y));
                            let j = choose|j: int| 0 <= j < before.len() && before[j] == y;
                            if j < p {
                                assert(after[j] == y);
                            } else {
                                assert(after[j + 1] == y);
                            }
                        }
                    }
                }
            }
        } else {
            proof {
                assert forall|y: usize| #[trigger] out@.contains(y) <==> kept_before(
                    nodes@,
                    keep@,
                    keep_all,
                    i + 1,
                    y,
                ) by {
                    if kept_before(nodes@, keep@, keep_all, i + 1, y) {
                        let i2 = choose|i2: int|
                            0 <= i2 < i + 1 && nodes@[i2] == y && (keep_all || keep@[i2]);
                        assert(i2 != i);
                        assert(kept_before(nodes@, keep@, keep_all, i as int, y));
                    }
                }
            }
        }
        i += 1;
    }
    out
}

/// Root recorded for node id `x`: the entry of `roots` at the position of `x`.
pub open spec fn root_at(positions: Map<usize, usize>, roots: Seq<usize>, x: usize) -> usize {
    roots[positions[x] as int]
}

/// Splits the increasing ids `sorted` into groups of equal root, in order of
/// their smallest ids, each group increasing.
fn group_by_root(
    positions: &HashMap<usize, usize>,
    roots: &Vec<usize>,
    sorted: &Vec<usize>,
) -> (res: (Vec<Vec<usize>>, Ghost<Seq<int>>))
    requires
        strictly_increasing(sorted@),
        forall|t: int|
            0 <= t < sorted.len() ==> positions@.contains_key(#[trigger] sorted@[t])
                && positions@[sorted@[t]] < roots.len(),
        forall|i: int| 0 <= i < roots.len() ==> #[trigger] roots@[i] < roots.len(),
    ensures
        forall|g: int|
            0 <= g < res.0.len() ==> #[trigger] res.0@[g]@.len() > 0 && strictly_increasing(
                res.0@[g]@,
            ),
        forall|g1: int, g2: int|
            0 <= g1 < g2 < res.0.len() ==> #[trigger] res.0@[g1]@[0] < #[trigger] res.0@[g2]@[0],
        forall|g: int, j: int|
            0 <= g < res.0.len() && 0 <= j < res.0@[g]@.len() ==> sorted@.contains(
                #[trigger] res.0@[g]@[j],
            ),
        res.1@.len() == sorted.len(),
        forall|t: int|
            0 <= t < sorted.len() ==> 0 <= #[trigger] res.1@[t] < res.0.len() && res.0@[res.1@[t]]@.contains(
                sorted@[t],
            ),
        forall|g1: int, j1: int, g2: int, j2: int|
            0 <= g1 < res.0.len() && 0 <= j1 < res.0@[g1]@.len() && 0 <= g2 < res.0.len() && 0
                <= j2 < res.0@[g2]@.len() ==> (root_at(positions@, roots@, #[trigger] res.0@[g1]@[j1])
                == root_at(positions@, roots@, #[trigger] res.0@[g2]@[j2]) <==> g1 == g2),
{
    let n = roots.len();
    let mut slot: Vec<usize> = Vec::new();
    let mut i: usize = 0;
    while i < n
        invariant
            i <= n,
            n == roots.len(),
            slot@.len() == i,
            forall|r: int| 0 <= r < i ==> #[trigger] slot@[r] == usize::MAX,
            forall|t: int|
                0 <= t < sorted.len() ==> positions@.contains_key(#[trigger] sorted@[t])
                    && positions@[sorted@[t]] < n,
        decreases n - i,
    {
        slot.push(usize::MAX);
        i += 1;
    }
    let mut groups: Vec<Vec<usize>> = Vec::new();
    let ghost mut groot: Seq<usize> = Seq::empty();
    let mut k: usize = 0;
    while k < sorted.len()
        invariant
            k <= sorted.len(),
            n == roots.len(),
            slot@.len() == n,
            strictly_increasing(sorted@),
            forall|t: int|
                0 <= t < sorted.len() ==> positions@.contains_key(#[trigger] sorted@[t])
                    && positions@[sorted@[t]] < roots.len(),
            forall|i: int| 0 <= i < roots.len() ==> #[trigger] roots@[i] < roots.len(),
            groot.len() == groups.len(),
            forall|g: int|
                0 <= g < groups.len() ==> #[trigger] groot[g] < n && slot@[groot[g] as int] == g,
            forall|r: int|
                0 <= r < n && #[trigger] slot@[r] != usize::MAX ==> slot@[r] < groups.len()
                    && groot[slot@[r] as int] == r,
            forall|g: int|
                0 <= g < groups.len() ==> #[trigger] groups@[g]@.len() > 0 && strictly_increasing(
                    groups@[g]@,
                ),
            forall|g1: int, g2: int|
                0 <= g1 < g2 < groups.len() ==> #[trigger] groups@[g1]@[0]
                    < #[trigger] groups@[g2]@[0],
            forall|g: int, j: int|
                0 <= g < groups.len() && 0 <= j < groups@[g]@.len() ==> {
                    &&& sorted@.subrange(0, k as int).contains(#[trigger] groups@[g]@[j])
                    &&& root_at(positions@, roots@, groups@[g]@[j]) == groot[g]
                },
            forall|t: int|
                0 <= t < k ==> {
                    let gt = slot@[root_at(positions@, roots@, #[trigger] sorted@[t]) as int];
                    gt < groups.len() && groups@[gt as int]@.contains(sorted@[t])
                },
        decreases sorted.len() - k,
    {
        let x = sorted[k];
        let pos = match positions.get(&x) {
            Some(p) => *p,
            None => {
                proof {
                    assert(positions@.contains_key(sorted@[k as int]));
                }
                0
            },
        };
        let r = roots[pos];
        let ghost old_groups = groups@;
        let ghost old_slot = slot@;
        let ghost sub0 = sorted@.subrange(0, k as int);
        let ghost sub1 = sorted@.subrange(0, k + 1);
        proof {
            assert(sub1[k as int] == x);
            assert forall|y: usize| sub0.contains(y) implies sub1.contains(y) && y < x by {
                let t = choose|t: int| 0 <= t < sub0.len() && sub0[t] == y;
                assert(sub1[t] == y);
            }
        }
        if slot[r] == usize::MAX {
            let g = groups.len();
            slot.set(r, g);
            let mut fresh: Vec<usize> = Vec::new();
            fresh.push(x);
            groups.push(fresh);
            proof {
                groot = groot.push(r);
                assert(groups@[g as int]@[0] == x);
                assert forall|g1: int, g2: int|
                    0 <= g1 < g2 < groups.len() implies #[trigger] groups@[g1]@[0]
                    < #[trigger] groups@[g2]@[0] by {
                    if g2 == g {
                        assert(old_groups[g1]@.len() > 0);
                        assert(sub0.contains(old_groups[g1]@[0]));
                    }
                }
                assert forall|gg: int, j: int|
                    0 <= gg < groups.len() && 0 <= j < groups@[gg]@.len() implies {
                    &&& sorted@.subrange(0, k + 1).contains(#[trigger] groups@[gg]@[j])
                    &&& root_at(positions@, roots@, groups@[gg]@[j]) == groot[gg]
                } by {
                    if gg < g {
                        assert(groups@[gg] == old_groups[gg]);
                        assert(sub0.contains(old_groups[gg]@[j]));
                    } else {
                        assert(sub1[k as int] == x);
                    }
                }
                assert forall|t: int| 0 <= t < k + 1 implies {
                    let gt = slot@[root_at(positions@, roots@, #[trigger] sorted@[t]) as int];
                    gt < groups.len() && groups@[gt as int]@.contains(sorted@[t])
                } by {
                    if t < k {
                        let rt = root_at(positions@, roots@, sorted@[t]);
                        assert(old_slot[rt as int] < old_groups.len());
                        assert(rt != r);
                        let gt = old_slot[rt as int];
                        assert(groups@[gt as int] == old_groups[gt as int]);
                    } else {
                        assert(groups@[g as int]@[0] == x);
                        assert(groups@[g as int]@.contains(sorted@[t]));
                    }
                }
            }
        } else {
            let g = slot[r];
            groups[g].push(x);
            proof {
                let grp = old_groups[g as int]@;
                assert(groups@[g as int]@ == grp.push(x));
                assert(sub0.contains(grp[grp.len() - 1]));
                assert forall|g1: int, g2: int|
                    0 <= g1 < g2 < groups.len() implies #[trigger] groups@[g1]@[0]
                    < #[trigger] groups@[g2]@[0] by {
                    assert(old_groups[g1]@[0] < old_groups[g2]@[0]);
                }
                assert forall|gg: int, j: int|
                    0 <= gg < groups.len() && 0 <= j < groups@[gg]@.len() implies {
                    &&& sorted@.subrange(0, k + 1).contains(#[trigger] groups@[gg]@[j])
                    &&& root_at(positions@, roots@, groups@[gg]@[j]) == groot[gg]
                } by {
                    if gg != g || j < grp.len() {
                        assert(groups@[gg]@[j] == old_groups[gg]@[j]);
                        assert(sub0.contains(old_groups[gg]@[j]));
                    } else {
                        assert(sub1[k as int] == x);
                    }
                }
                assert forall|t: int| 0 <= t < k + 1 implies {
                    let gt = slot@[root_at(positions@, roots@, #[trigger] sorted@[t]) as int];
                    gt < groups.len() && groups@[gt as int]@.contains(sorted@[t])
                } by {
                    if t < k {
                        let gg = slot@[root_at(positions@, roots@, sorted@[t]) as int] as int;
                        assert(old_groups[gg]@.contains(sorted@[t]));
                        let j = choose|j: int|
                            0 <= j < old_groups[gg]@.len() && old_groups[gg]@[j] == sorted@[t];
                        assert(groups@[gg]@[j] == sorted@[t]);
                        assert(groups@[gg]@.contains(sorted@[t]));
                    } else {
                        assert(groups@[g as int]@[grp.len() as int] == x);
                        assert(groups@[g as int]@.contains(sorted@[t]));
                    }
                }
            }
        }
        k += 1;
    }
    proof {
        assert(sorted@.subrange(0, sorted.len() as int) =~= sorted@);
        assert forall|g1: int, j1: int, g2: int, j2: int|
            0 <= g1 < groups.len() && 0 <= j1 < groups@[g1]@.len() && 0 <= g2 < groups.len() && 0
                <= j2 < groups@[g2]@.len() implies (root_at(
            positions@,
            roots@,
            #[trigger] groups@[g1]@[j1],
        ) == root_at(positions@, roots@, #[trigger] groups@[g2]@[j2]) <==> g1 == g2) by {
            if g1 != g2 {
                assert(slot@[groot[g1] as int] == g1);
                assert(slot@[groot[g2] as int] == g2);
            }
        }
    }
    let ghost gi = Seq::new(
        sorted.len() as nat,
        |t: int| slot@[root_at(positions@, roots@, sorted@[t]) as int] as int,
    );
    (groups, Ghost(gi))
}

/// `cs` lists the connected components of the graph on `nodes` whose edges
/// are `pairs`, restricted to the included nodes: each component is a
/// non-empty increasing list of node ids, the components are ordered by
/// their smallest ids, every included node lies in exactly one component,
/// and two listed nodes share a component exactly when they are connected.
pub open spec fn is_component_list(
    nodes: Seq<usize>,
    pairs: Seq<(usize, usize)>,
    include_singletons: bool,
    cs: Seq<Seq<usize>>,
) -> bool {
    &&& forall|g: int|
        0 <= g < cs.len() ==> #[trigger] cs[g].len() > 0 && strictly_increasing(cs[g])
    &&& forall|g1: int, g2: int| 0 <= g1 < g2 < cs.len() ==> #[trigger] cs[g1][0] < #[trigger] cs[g2][0]
    &&& forall|g: int, j: int|
        0 <= g < cs.len() && 0 <= j < cs[g].len() ==> included(
            nodes,
            pairs,
            include_singletons,
            #[trigger] cs[g][j],
        )
    &&& forall|x: usize|
        #[trigger] included(nodes, pairs, include_singletons, x) ==> exists|g: int|
            0 <= g < cs.len() && #[trigger] cs[g].contains(x)
    &&& forall|g1: int, j1: int, g2: int, j2: int|
        0 <= g1 < cs.len() && 0 <= j1 < cs[g1].len() && 0 <= g2 < cs.len() && 0 <= j2 < cs[g2].len()
            ==> (connected(pairs, #[trigger] cs[g1][j1], #[trigger] cs[g2][j2]) <==> g1 == g2)
}

/// Groups the consensus nodes into the connected components of the graph
/// whose edges are `pairs` (the pairs whose score reached the threshold).
/// Nodes that are no endpoint of a pair are left out unless
/// `include_singletons` is set. Each component is sorted, and the components
/// are sorted by their smallest node id. A pair that names a node outside
/// `nodes` is an `InvalidInput` error.
pub fn connected_components(
    nodes: &[usize],
    pairs: &[(usize, usize)],
    include_singletons: bool,
) -> (res: Result<Vec<Vec<usize>>, RavenError>)
    requires
        all_distinct(nodes@),
    ensures
        res is Ok <==> !has_unknown_node(nodes@, pairs@),
        res is Err ==> exists|k: int|
            #[trigger] first_unknown_pair(nodes@, pairs@, k) && (res matches Err(RavenError::InvalidInput(msg))
                && msg@ == unknown_node_text(unknown_endpoint(nodes@, pairs@[k]))),
        res matches Ok(comps) ==> is_component_list(
            nodes@,
            pairs@,
            include_singletons,
            comps@.map_values(|c: Vec<usize>| c@),
        ),
{
    let positions = match node_positions(nodes) {
        Ok((map, _)) => map,
        Err(e) => {
            return Err(e);
        },
    };
    let n = nodes.len();
    let mut parent: Vec<usize> = Vec::new();
    let mut active: Vec<bool> = Vec::new();
    let mut i: usize = 0;
    while i < n
        invariant
            i <= n,
            n == nodes.len(),
            parent@.len() == i,
            active@.len() == i,
            forall|j: int| 0 <= j < i ==> #[trigger] parent@[j] == j,
            forall|j: int| 0 <= j < i ==> !#[trigger] active@[j],
        decreases n - i,
    {
        parent.push(i);
        active.push(false);
        i += 1;
    }
    match join_pairs(nodes, &positions, pairs, &mut parent, &mut active) {
        Ok(()) => {},
        Err(e) => {
            return Err(e);
        },
    }
    let ghost joined = parent@;
    let mut roots: Vec<usize> = Vec::new();
    let mut i: usize = 0;
    while i < n
        invariant
            i <= n,
            n == nodes.len(),
            is_forest(joined),
            joined.len() == n,
            is_forest(parent@),
            parent@.len() == n,
            forall|k: int| 0 <= k < n ==> #[trigger] root_of(parent@, k) == root_of(joined, k),
            roots@.len() == i,
            forall|j: int|
                0 <= j < i ==> #[trigger] roots@[j] == root_of(joined, j) && roots@[j] < n,
        decreases n - i,
    {
        let r = find(&mut parent, i);
        roots.push(r);
        i += 1;
    }
    let sorted = sorted_kept_ids(nodes, &active, include_singletons);
    proof {
        assert forall|t: int|
            0 <= t < sorted.len() implies positions@.contains_key(#[trigger] sorted@[t])
            && positions@[sorted@[t]] < roots.len() by {
            assert(sorted@.contains(sorted@[t]));
            let w = choose|w: int|
                0 <= w < n && nodes@[w] == sorted@[t] && (include_singletons || active@[w]);
            assert(occurs_in(nodes@, sorted@[t] as int));
        }
    }
    let (groups, Ghost(gi)) = group_by_root(&positions, &roots, &sorted);
    proof {
        let cs = groups@.map_values(|c: Vec<usize>| c@);
        assert forall|x: usize| #[trigger] sorted@.contains(x) <==> included(
            nodes@,
            pairs@,
            include_singletons,
            x,
        ) by {
            if sorted@.contains(x) {
                let w = choose|w: int|
                    0 <= w < n && nodes@[w] == x && (include_singletons || active@[w]);
                assert(occurs_in(nodes@, x as int));
            }
            if included(nodes@, pairs@, include_singletons, x) {
                let w = choose|w: int| 0 <= w < n && nodes@[w] == x;
                assert(active@[w] <==> touched(pairs@, nodes@[w]));
                assert(kept_before(nodes@, active@, include_singletons, n as int, x));
            }
        }
        assert forall|x: usize|
            #![trigger sorted@.contains(x)]
            sorted@.contains(x) implies root_at(positions@, roots@, x) == root_of(
            joined,
            positions@[x] as int,
        ) && nodes@[positions@[x] as int] == x && positions@[x] < n by {
            let w = choose|w: int|
                0 <= w < n && nodes@[w] == x && (include_singletons || active@[w]);
            assert(positions@[nodes@[w]] == w);
        }
        assert forall|g: int| 0 <= g < cs.len() implies #[trigger] cs[g] == groups@[g]@ by {}
        assert forall|g: int, j: int|
            0 <= g < cs.len() && 0 <= j < cs[g].len() implies included(
            nodes@,
            pairs@,
            include_singletons,
            #[trigger] cs[g][j],
        ) by {
            assert(cs[g] == groups@[g]@);
            assert(sorted@.contains(groups@[g]@[j]));
        }
        assert forall|x: usize|
            #[trigger] included(nodes@, pairs@, include_singletons, x) implies exists|g: int|
            0 <= g < cs.len() && #[trigger] cs[g].contains(x) by {
            assert(sorted@.contains(x));
            let t = choose|t: int| 0 <= t < sorted.len() && sorted@[t] == x;
            assert(cs[gi[t]] == groups@[gi[t]]@);
            assert(cs[gi[t]].contains(x));
        }
        assert forall|g1: int, j1: int, g2: int, j2: int|
            0 <= g1 < cs.len() && 0 <= j1 < cs[g1].len() && 0 <= g2 < cs.len() && 0 <= j2
                < cs[g2].len() implies (connected(pairs@, #[trigger] cs[g1][j1], #[trigger] cs[g2][j2])
            <==> g1 == g2) by {
            assert(cs[g1] == groups@[g1]@);
            assert(cs[g2] == groups@[g2]@);
            let a = groups@[g1]@[j1];
            let b = groups@[g2]@[j2];
            assert(sorted@.contains(a));
            assert(sorted@.contains(b));
            let pa = positions@[a] as int;
            let pb = positions@[b] as int;
            assert(same_set(joined, pa, pb) <==> connected(pairs@, nodes@[pa], nodes@[pb]));
        }
        assert forall|g: int|
            0 <= g < cs.len() implies #[trigger] cs[g].len() > 0 && strictly_increasing(cs[g]) by {
            assert(cs[g] == groups@[g]@);
        }
        assert forall|g1: int, g2: int|
            0 <= g1 < g2 < cs.len() implies #[trigger] cs[g1][0] < #[trigger] cs[g2][0] by {
            assert(cs[g1] == groups@[g1]@);
            assert(cs[g2] == groups@[g2]@);
        }
    }
    Ok(groups)
}

} // verus!
