use std::collections::HashMap;

use vstd::prelude::*;

use crate::error::RavenError;
use crate::text::{append_decimal, decimal};

verus! {

broadcast use vstd::std_specs::hash::group_hash_axioms;

/// Strategy used to combine independent query trials into pair scores.
#[derive(Debug, Clone, Copy, PartialEq, Eq, Structural)]
pub enum TrialWeighting {
    /// Give every trial equal mass.
    Uniform,
    /// Weight trials by inverse total objective score.
    InverseScore,
    /// Weight trials with a softmax over negated total objective scores.
    ScoreSoftmax,
}

/// No node id occurs twice in `nodes`.
pub open spec fn all_distinct(nodes: Seq<usize>) -> bool {
    forall|i: int, j: int| 0 <= i < j < nodes.len() ==> nodes[i] != nodes[j]
}

/// Node id `x` occurs in `nodes`.
pub open spec fn occurs_in(nodes: Seq<usize>, x: int) -> bool {
    exists|i: int| 0 <= i < nodes.len() && nodes[i] == x
}

/// `i` is the last position of `nodes` that holds `x`.
pub open spec fn last_occurrence(nodes: Seq<usize>, x: int, i: int) -> bool {
    &&& 0 <= i < nodes.len()
    &&& nodes[i] == x
    &&& forall|j: int| i < j < nodes.len() ==> nodes[j] != x
}

/// Largest node id of `nodes` (0 for no nodes).
pub open spec fn max_node(nodes: Seq<usize>) -> int
    decreases nodes.len(),
{
    if nodes.len() == 0 {
        0
    } else {
        let rest = max_node(nodes.drop_last());
        if nodes.last() > rest {
            nodes.last() as int
        } else {
            rest
        }
    }
}

/// `n * factor`, capped at `usize::MAX`.
pub open spec fn saturating_product(n: int, factor: int) -> int {
    if n * factor > usize::MAX {
        usize::MAX as int
    } else {
        n * factor
    }
}

/// Length of the dense position table for `nodes`, when one is built: the
/// largest id plus one, unless there are no nodes, that length overflows,
/// exceeds `max(64 * nodes.len(), 1024)` or exceeds ten million.
pub open spec fn dense_table_len(nodes: Seq<usize>) -> Option<nat> {
    if nodes.len() == 0 || max_node(nodes) == usize::MAX {
        None
    } else {
        let len = max_node(nodes) + 1;
        let product = saturating_product(nodes.len() as int, 64);
        let limit = if product > 1024 {
            product
        } else {
            1024
        };
        if len > limit || len > 10_000_000 {
            None
        } else {
            Some(len as nat)
        }
    }
}

proof fn lemma_max_node(nodes: Seq<usize>)
    ensures
        forall|i: int| 0 <= i < nodes.len() ==> nodes[i] <= max_node(nodes),
        nodes.len() > 0 ==> occurs_in(nodes, max_node(nodes)),
        0 <= max_node(nodes) <= usize::MAX,
    decreases nodes.len(),
{
    if nodes.len() > 0 {
        let rest = nodes.drop_last();
        lemma_max_node(rest);
        assert forall|i: int| 0 <= i < nodes.len() implies nodes[i] <= max_node(nodes) by {
            if i < nodes.len() - 1 {
                assert(nodes[i] == rest[i]);
            }
        }
        if nodes.last() <= max_node(rest) && rest.len() > 0 {
            let k = choose|k: int| 0 <= k < rest.len() && rest[k] == max_node(rest);
            assert(nodes[k] == rest[k]);
        }
    }
}

/// Text of the error for a repeated consensus node.
pub open spec fn duplicate_node_text(node: usize) -> Seq<char> {
    "consensus nodes must be unique, found duplicate node "@ + decimal(node as nat)
}

/// `nodes` repeats an id first at position `j`: the ids before `j` are
/// distinct and one of them is the id at `j`.
pub open spec fn first_repeat(nodes: Seq<usize>, j: int) -> bool {
    &&& 0 <= j < nodes.len()
    &&& all_distinct(nodes.subrange(0, j))
    &&& occurs_in(nodes.subrange(0, j), nodes[j] as int)
}

/// Description of the error for a duplicated consensus node.
fn duplicate_node_message(node: usize) -> (res: String)
    ensures
        res@ == duplicate_node_text(node),
{
    let mut text = String::new();
    text.append("consensus nodes must be unique, found duplicate node ");
    append_decimal(&mut text, node);
    assert(text@ =~= duplicate_node_text(node));
    text
}

/// Dense table from node id to its position in `nodes`, for ids that are
/// small enough; absent ids hold `usize::MAX`. When an id occurs more than
/// once its last position is kept.
pub fn dense_node_positions(nodes: &[usize]) -> (res: Option<Vec<usize>>)
    ensures
        res is None <==> dense_table_len(nodes@) is None,
        res matches Some(table) ==> {
            &&& dense_table_len(nodes@) == Some(table@.len())
            &&& forall|x: int|
                0 <= x < table@.len() ==> if occurs_in(nodes@, x) {
                    last_occurrence(nodes@, x, #[trigger] table@[x] as int)
                } else {
                    table@[x] == usize::MAX
                }
        },
{
    if nodes.len() == 0 {
        return None;
    }
    let mut max: usize = 0;
    let mut i: usize = 0;
    while i < nodes.len()
        invariant
            0 < nodes.len(),
            i <= nodes.len(),
            max == (if i == 0 {
                0
            } else {
                max_node(nodes@.subrange(0, i as int))
            }),
        decreases nodes.len() - i,
    {
        proof {
            let next = nodes@.subrange(0, i + 1);
            assert(next.drop_last() =~= nodes@.subrange(0, i as int));
        }
        if i == 0 || nodes[i] > max {
            max = nodes[i];
        }
        proof {
            let next = nodes@.subrange(0, i + 1);
            assert(next.last() == nodes@[i as int]);
            if i == 0 {
                assert(next.drop_last().len() == 0);
                assert(max_node(next.drop_last()) == 0);
            }
            assert(max == max_node(next));
        }
        i += 1;
    }
    proof {
        assert(nodes@.subrange(0, nodes.len() as int) =~= nodes@);
        lemma_max_node(nodes@);
    }
    if max == usize::MAX {
        return None;
    }
    let len = max + 1;
    let product: usize = match nodes.len().checked_mul(64) {
        Some(p) => p,
        None => usize::MAX,
    };
    let max_reasonable_len = if product > 1024 {
        product
    } else {
        1024
    };
    if len > max_reasonable_len || len > 10_000_000 {
        return None;
    }
    let mut positions: Vec<usize> = Vec::new();
    let mut k: usize = 0;
    while k < len
        invariant
            k <= len,
            positions@.len() == k,
            forall|x: int| 0 <= x < k ==> positions@[x] == usize::MAX,
        decreases len - k,
    {
        positions.push(usize::MAX);
        k += 1;
    }
    let mut idx: usize = 0;
    while idx < nodes.len()
        invariant
            idx <= nodes.len(),
            positions@.len() == len,
            len == max_node(nodes@) + 1,
            forall|j: int| 0 <= j < nodes.len() ==> nodes@[j] <= max_node(nodes@),
            forall|x: int|
                0 <= x < len ==> if occurs_in(nodes@.subrange(0, idx as int), x) {
                    last_occurrence(nodes@.subrange(0, idx as int), x, #[trigger] positions@[x] as int)
                } else {
                    positions@[x] == usize::MAX
                },
        decreases nodes.len() - idx,
    {
        let node = nodes[idx];
        positions.set(node, idx);
        proof {
            let prev = nodes@.subrange(0, idx as int);
            let next = nodes@.subrange(0, idx + 1);
            assert forall|x: int| 0 <= x < len implies if occurs_in(next, x) {
                last_occurrence(next, x, #[trigger] positions@[x] as int)
            } else {
                positions@[x] == usize::MAX
            } by {
                if x == node {
                    assert(next[idx as int] == x);
                } else {
                    if occurs_in(next, x) {
                        let w = choose|w: int| 0 <= w < next.len() && next[w] == x;
                        assert(prev[w] == x);
                    }
                    if occurs_in(prev, x) {
                        let w = choose|w: int| 0 <= w < prev.len() && prev[w] == x;
                        assert(next[w] == x);
                    }
                }
            }
        }
        idx += 1;
    }
    proof {
        assert(nodes@.subrange(0, nodes.len() as int) =~= nodes@);
    }
    Some(positions)
}

/// Map from each node id to its position in `nodes`, together with the
/// dense table of the same positions when the ids are small enough; fails
/// when a node id occurs twice.
pub fn node_positions(nodes: &[usize]) -> (res: Result<(HashMap<usize, usize>, Option<Vec<usize>>), RavenError>)
    ensures
        res is Ok <==> all_distinct(nodes@),
        res is Err ==> exists|j: int|
            #[trigger] first_repeat(nodes@, j) && (res matches Err(RavenError::InvalidInput(msg)) && msg@
                == duplicate_node_text(nodes@[j])),
        res matches Ok((map, dense)) ==> {
            &&& forall|x: usize| #[trigger] map@.contains_key(x) <==> occurs_in(nodes@, x as int)
            &&& forall|i: int| 0 <= i < nodes.len() ==> map@[#[trigger] nodes@[i]] == i
            &&& dense is None <==> dense_table_len(nodes@) is None
            &&& dense matches Some(table) ==> {
                &&& dense_table_len(nodes@) == Some(table@.len())
                &&& forall|x: int|
                    0 <= x < table@.len() ==> if occurs_in(nodes@, x) {
                        table@[x] < nodes.len() && nodes@[#[trigger] table@[x] as int] == x
                    } else {
                        table@[x] == usize::MAX
                    }
            }
        },
{
    let mut positions: HashMap<usize, usize> = HashMap::with_capacity(nodes.len());
    let mut idx: usize = 0;
    while idx < nodes.len()
        invariant
            idx <= nodes.len(),
            all_distinct(nodes@.subrange(0, idx as int)),
            forall|x: usize|
                #[trigger] positions@.contains_key(x) <==> occurs_in(
                    nodes@.subrange(0, idx as int),
                    x as int,
                ),
            forall|i: int| 0 <= i < idx ==> positions@[#[trigger] nodes@[i]] == i,
        decreases nodes.len() - idx,
    {
        let node = nodes[idx];
        let prev = positions.insert(node, idx);
        let ghost before = nodes@.subrange(0, idx as int);
        let ghost after = nodes@.subrange(0, idx + 1);
        if prev.is_some() {
            proof {
                let w = choose|w: int| 0 <= w < before.len() && before[w] == node;
                assert(nodes@[w] == nodes@[idx as int]);
                assert(!all_distinct(nodes@)) by {
                    assert(w < idx);
                }
                assert(first_repeat(nodes@, idx as int));
            }
            return Err(RavenError::InvalidInput(duplicate_node_message(node)));
        }
        proof {
            assert forall|i: int, j: int| 0 <= i < j < after.len() implies after[i] != after[j] by {
                if j == idx {
                    assert(before[i] == after[i]);
                    if after[i] == node {
                        assert(occurs_in(before, node as int));
                    }
                } else {
                    assert(before[i] == after[i] && before[j] == after[j]);
                }
            }
            assert forall|x: usize| #[trigger] positions@.contains_key(x) <==> occurs_in(
                after,
                x as int,
            ) by {
                if occurs_in(before, x as int) {
                    let w = choose|w: int| 0 <= w < before.len() && before[w] == x;
                    assert(after[w] == x);
                }
                if occurs_in(after, x as int) && x != node {
                    let w = choose|w: int| 0 <= w < after.len() && after[w] == x;
                    assert(before[w] == x);
                }
                if x == node {
                    assert(after[idx as int] == x);
                }
            }
            assert forall|i: int| 0 <= i < idx + 1 implies positions@[#[trigger] nodes@[i]] == i by {
                if i < idx {
                    assert(before[i] != node) by {
                        if before[i] == node {
                            assert(occurs_in(before, node as int));
                        }
                    }
                }
            }
        }
        idx += 1;
    }
    proof {
        assert(nodes@.subrange(0, nodes.len() as int) =~= nodes@);
    }
    let dense = dense_node_positions(nodes);
    Ok((positions, dense))
}

/// Fails exactly when a node id occurs twice in `nodes`.
pub fn validate_unique_nodes(nodes: &[usize]) -> (res: Result<(), RavenError>)
    ensures
        res is Ok <==> all_distinct(nodes@),
        res is Err ==> exists|j: int|
            #[trigger] first_repeat(nodes@, j) && (res matches Err(RavenError::InvalidInput(msg)) && msg@
                == duplicate_node_text(nodes@[j])),
{
    match node_positions(nodes) {
        Ok(_) => Ok(()),
        Err(e) => Err(e),
    }
}

/// `rank` strictly decreases from every non-root entry to its parent, and
/// every parent pointer stays inside the table.
pub open spec fn ranking(parent: Seq<usize>, rank: Seq<nat>) -> bool {
    &&& rank.len() == parent.len()
    &&& forall|i: int|
        0 <= i < parent.len() ==> (#[trigger] parent[i]) < parent.len() && (parent[i] != i
            ==> rank[parent[i] as int] < rank[i])
}

/// The parent table is a forest: following parent pointers always reaches a
/// root, an entry that points to itself.
pub open spec fn is_forest(parent: Seq<usize>) -> bool {
    exists|rank: Seq<nat>| ranking(parent, rank)
}

/// A ranking chosen for a forest.
pub open spec fn canonical_rank(parent: Seq<usize>) -> Seq<nat> {
    choose|rank: Seq<nat>| ranking(parent, rank)
}

/// Root of the tree of the forest that holds `i`.
pub open spec fn root_of(parent: Seq<usize>, i: int) -> int
    decreases canonical_rank(parent)[i],
    when is_forest(parent) && 0 <= i < parent.len()
{
    if parent[i] == i {
        i
    } else {
        root_of(parent, parent[i] as int)
    }
}

/// `a` and `b` lie in the same tree of the forest.
pub open spec fn same_set(parent: Seq<usize>, a: int, b: int) -> bool {
    root_of(parent, a) == root_of(parent, b)
}

/// A root is reached from `i`, it lies in the table, it is its own parent,
/// and it is its own root.
pub proof fn lemma_root_props(parent: Seq<usize>, rank: Seq<nat>, i: int)
    requires
        ranking(parent, rank),
        0 <= i < parent.len(),
    ensures
        0 <= root_of(parent, i) < parent.len(),
        parent[root_of(parent, i)] == root_of(parent, i),
        root_of(parent, root_of(parent, i)) == root_of(parent, i),
        parent[i] != i ==> rank[root_of(parent, i)] < rank[i],
        parent[i] == i ==> root_of(parent, i) == i,
    decreases rank[i],
{
    assert(is_forest(parent));
    if parent[i] != i {
        let p = parent[i] as int;
        lemma_root_props(parent, rank, p);
    }
}

/// Rewriting entries of a forest to their own roots, under a ranking that
/// both tables share, keeps every root.
pub proof fn lemma_roots_kept(p1: Seq<usize>, p2: Seq<usize>, rank: Seq<nat>, j: int)
    requires
        ranking(p1, rank),
        ranking(p2, rank),
        p1.len() == p2.len(),
        forall|k: int| 0 <= k < p1.len() ==> #[trigger] p2[k] == p1[k] || p2[k] == root_of(p1, k),
        0 <= j < p1.len(),
    ensures
        root_of(p2, j) == root_of(p1, j),
    decreases rank[j],
{
    assert(is_forest(p1));
    assert(is_forest(p2));
    lemma_root_props(p1, rank, j);
    if p2[j] != j {
        let q = p2[j] as int;
        lemma_roots_kept(p1, p2, rank, q);
        if p2[j] == p1[j] {
        } else {
            lemma_root_props(p1, rank, q);
        }
    } else {
        if p1[j] != j {
            assert(p2[j] == root_of(p1, j));
        }
    }
}

/// Returns the root of `node`, rewriting the parent of every entry on the
/// path to that root (path compression).
pub fn find(parent: &mut Vec<usize>, node: usize) -> (root: usize)
    requires
        is_forest(old(parent)@),
        node < old(parent)@.len(),
    ensures
        final(parent)@.len() == old(parent)@.len(),
        ranking(final(parent)@, canonical_rank(old(parent)@)),
        is_forest(final(parent)@),
        root == root_of(old(parent)@, node as int),
        root < old(parent)@.len(),
        final(parent)@[root as int] == root,
        forall|k: int|
            0 <= k < old(parent)@.len() ==> #[trigger] final(parent)@[k] == old(parent)@[k]
                || final(parent)@[k] == root_of(old(parent)@, k),
        forall|k: int|
            0 <= k < old(parent)@.len() ==> #[trigger] root_of(final(parent)@, k) == root_of(
                old(parent)@,
                k,
            ),
    decreases canonical_rank(old(parent)@)[node as int],
{
    let ghost p0 = parent@;
    let ghost rank = canonical_rank(p0);
    proof {
        lemma_root_props(p0, rank, node as int);
    }
    if parent[node] != node {
        let next = parent[node];
        let r = find(parent, next);
        let ghost p1 = parent@;
        proof {
            lemma_root_props(p0, rank, next as int);
            assert(r == root_of(p0, node as int));
            assert(rank[r as int] < rank[node as int]);
        }
        parent.set(node, r);
        proof {
            let p2 = parent@;
            assert(ranking(p2, rank));
            assert forall|k: int|
                0 <= k < p0.len() implies #[trigger] p2[k] == p0[k] || p2[k] == root_of(
                p0,
                k,
            ) by {
                if k != node {
                    assert(p2[k] == p1[k]);
                }
            }
            assert forall|k: int| 0 <= k < p0.len() implies #[trigger] root_of(p2, k) == root_of(
                p0,
                k,
            ) by {
                lemma_roots_kept(p0, p2, rank, k);
            }
            assert(is_forest(p2));
        }
        r
    } else {
        proof {
            assert forall|k: int| 0 <= k < p0.len() implies #[trigger] root_of(parent@, k)
                == root_of(p0, k) by {}
        }
        node
    }
}

/// Ranking after the root `rr` is hung below the root `lr`: every entry of
/// the tree of `rr` climbs above `lr`.
pub open spec fn union_rank(parent: Seq<usize>, rank: Seq<nat>, lr: int, rr: int) -> Seq<nat> {
    Seq::new(
        rank.len(),
        |k: int|
            if root_of(parent, k) == rr {
                rank[k] + rank[lr] + 1
            } else {
                rank[k]
            },
    )
}

/// Hanging the root `rr` below the root `lr` moves exactly the tree of `rr`
/// under `lr`.
proof fn lemma_union_roots(p1: Seq<usize>, p2: Seq<usize>, rank: Seq<nat>, lr: int, rr: int, j: int)
    requires
        ranking(p1, rank),
        ranking(p2, union_rank(p1, rank, lr, rr)),
        0 <= lr < p1.len(),
        0 <= rr < p1.len(),
        lr != rr,
        p1[lr] == lr,
        p1[rr] == rr,
        p2 == p1.update(rr, lr as usize),
        0 <= j < p1.len(),
    ensures
        root_of(p2, j) == if root_of(p1, j) == rr {
            lr
        } else {
            root_of(p1, j)
        },
    decreases rank[j],
{
    assert(is_forest(p1));
    assert(is_forest(p2));
    lemma_root_props(p1, rank, j);
    lemma_root_props(p1, rank, lr);
    lemma_root_props(p1, rank, rr);
    if j == rr {
        assert(p2[lr] == lr);
        assert(root_of(p2, lr) == lr);
    } else if p1[j] != j {
        let q = p1[j] as int;
        lemma_union_roots(p1, p2, rank, lr, rr, q);
    }
}

/// Joins the trees of `left` and `right`: the root of `right` is hung below
/// the root of `left` when they differ.
pub fn union(parent: &mut Vec<usize>, left: usize, right: usize)
    requires
        is_forest(old(parent)@),
        left < old(parent)@.len(),
        right < old(parent)@.len(),
    ensures
        final(parent)@.len() == old(parent)@.len(),
        is_forest(final(parent)@),
        forall|k: int|
            0 <= k < old(parent)@.len() ==> #[trigger] root_of(final(parent)@, k) == if root_of(
                old(parent)@,
                k,
            ) == root_of(old(parent)@, right as int) {
                root_of(old(parent)@, left as int)
            } else {
                root_of(old(parent)@, k)
            },
        forall|a: int, b: int|
            0 <= a < old(parent)@.len() && 0 <= b < old(parent)@.len() ==> (#[trigger] same_set(
                final(parent)@,
                a,
                b,
            ) <==> (same_set(old(parent)@, a, b) || (same_set(old(parent)@, a, left as int)
                && same_set(old(parent)@, b, right as int)) || (same_set(
                old(parent)@,
                a,
                right as int,
            ) && same_set(old(parent)@, b, left as int)))),
{
    let ghost p0 = parent@;
    let left_root = find(parent, left);
    let ghost pmid = parent@;
    let right_root = find(parent, right);
    let ghost p1 = parent@;
    if left_root != right_root {
        proof {
            let rank = canonical_rank(pmid);
            lemma_root_props(p1, rank, left_root as int);
            lemma_root_props(p1, rank, right_root as int);
        }
        parent.set(right_root, left_root);
        proof {
            let p2 = parent@;
            let rank = canonical_rank(pmid);
            let rank2 = union_rank(p1, rank, left_root as int, right_root as int);
            assert forall|i: int| 0 <= i < p2.len() implies (#[trigger] p2[i]) < p2.len() && (p2[i]
                != i ==> rank2[p2[i] as int] < rank2[i]) by {
                lemma_root_props(p1, rank, i);
                if i != right_root && p2[i] != i {
                    lemma_root_props(p1, rank, p2[i] as int);
                    assert(root_of(p1, p1[i] as int) == root_of(p1, i));
                }
            }
            assert(ranking(p2, rank2));
            assert forall|k: int| 0 <= k < p0.len() implies #[trigger] root_of(p2, k) == if root_of(
                p0,
                k,
            ) == root_of(p0, right as int) {
                root_of(p0, left as int)
            } else {
                root_of(p0, k)
            } by {
                lemma_union_roots(p1, p2, rank, left_root as int, right_root as int, k);
            }
        }
    }
    proof {
        let p2 = parent@;
        assert forall|a: int, b: int|
            0 <= a < p0.len() && 0 <= b < p0.len() implies (#[trigger] same_set(p2, a, b) <==> (
            same_set(p0, a, b) || (same_set(p0, a, left as int) && same_set(p0, b, right as int))
                || (same_set(p0, a, right as int) && same_set(p0, b, left as int)))) by {
            lemma_union_same_set(p0, p2, left as int, right as int, a, b);
        }
    }
}

/// After `union(left, right)` two entries share a tree exactly when they
/// did before, or one shared a tree with `left` and the other with `right`.
proof fn lemma_union_same_set(p0: Seq<usize>, p2: Seq<usize>, left: int, right: int, a: int, b: int)
    requires
        is_forest(p0),
        p2.len() == p0.len(),
        0 <= left < p0.len(),
        0 <= right < p0.len(),
        0 <= a < p0.len(),
        0 <= b < p0.len(),
        forall|k: int|
            0 <= k < p0.len() ==> #[trigger] root_of(p2, k) == if root_of(p0, k) == root_of(
                p0,
                right,
            ) {
                root_of(p0, left)
            } else {
                root_of(p0, k)
            },
    ensures
        same_set(p2, a, b) <==> (same_set(p0, a, b) || (same_set(p0, a, left) && same_set(
            p0,
            b,
            right,
        )) || (same_set(p0, a, right) && same_set(p0, b, left))),
{
    let rank = canonical_rank(p0);
    lemma_root_props(p0, rank, left);
    lemma_root_props(p0, rank, right);
    lemma_root_props(p0, rank, a);
    lemma_root_props(p0, rank, b);
    assert(root_of(p2, a) == if root_of(p0, a) == root_of(p0, right) {
        root_of(p0, left)
    } else {
        root_of(p0, a)
    });
    assert(root_of(p2, b) == if root_of(p0, b) == root_of(p0, right) {
        root_of(p0, left)
    } else {
        root_of(p0, b)
    });
}

} // verus!
