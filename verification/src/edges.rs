use std::collections::HashMap;

use vstd::prelude::*;

verus! {

broadcast use vstd::std_specs::hash::group_hash_axioms;

/// The end points of an undirected edge, smaller first.
pub fn ordered_edge(u: usize, v: usize) -> (res: (usize, usize))
    ensures
        res.0 <= res.1,
        (res == (u, v)) || (res == (v, u)),
{
    if u <= v {
        (u, v)
    } else {
        (v, u)
    }
}

/// Key `u * total_nodes + v` of the directed pair `(u, v)`, or `None` when
/// an operand or the key does not fit `i64`.
pub fn edge_key(u: usize, v: usize, total_nodes: usize) -> (res: Option<i64>)
    ensures
        res is Some <==> (u <= i64::MAX && v <= i64::MAX && total_nodes <= i64::MAX && u
            * total_nodes <= i64::MAX && u * total_nodes + v <= i64::MAX),
        res matches Some(key) ==> key == u * total_nodes + v,
{
    let limit = i64::MAX as u64;
    if u as u64 > limit || v as u64 > limit || total_nodes as u64 > limit {
        return None;
    }
    let u = u as i64;
    let v = v as i64;
    let total = total_nodes as i64;
    match u.checked_mul(total) {
        Some(base) => base.checked_add(v),
        None => None,
    }
}

/// The community label of each query node, in query order; fails with the
/// first query node that has no label.
pub fn labels_from_memgraph_map(labels: &HashMap<usize, usize>, query_nodes: &[usize]) -> (res: Result<Vec<usize>, usize>)
    ensures
        res is Ok <==> forall|i: int|
            0 <= i < query_nodes@.len() ==> labels@.contains_key(#[trigger] query_nodes@[i]),
        res matches Ok(out) ==> out@.len() == query_nodes@.len() && forall|i: int|
            0 <= i < query_nodes@.len() ==> #[trigger] out@[i] == labels@[query_nodes@[i]],
        res matches Err(node) ==> exists|k: int|
            0 <= k < query_nodes@.len() && query_nodes@[k] == node && !labels@.contains_key(node)
                && forall|i: int| 0 <= i < k ==> labels@.contains_key(#[trigger] query_nodes@[i]),
{
    let mut out: Vec<usize> = Vec::new();
    let mut i: usize = 0;
    while i < query_nodes.len()
        invariant
            i <= query_nodes@.len(),
            out@.len() == i,
            forall|j: int| 0 <= j < i ==> labels@.contains_key(#[trigger] query_nodes@[j]),
            forall|j: int| 0 <= j < i ==> #[trigger] out@[j] == labels@[query_nodes@[j]],
        decreases query_nodes@.len() - i,
    {
        let node = query_nodes[i];
        match labels.get(&node) {
            Some(label) => {
                out.push(*label);
            },
            None => {
                return Err(node);
            },
        }
        i += 1;
    }
    Ok(out)
}

} // verus!
