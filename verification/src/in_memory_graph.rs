use std::collections::{HashMap, HashSet};

use vstd::prelude::*;

use crate::dense_marker::{first_occurrence, occurs, DenseMarker};
use crate::error::{InMemoryGraphError, OracleError};
use crate::ids::NodeIdentity;
use crate::neighbourhoods::{offsets_well_formed, row_of, OwnedNeighbourhoods};
use crate::node_ops::NodeOpsBuffer;

verus! {

broadcast use vstd::std_specs::hash::group_hash_axioms;

/// `{x, y}` is the pair `{u, v}`, in either order.
pub open spec fn same_pair(x: usize, y: usize, u: usize, v: usize) -> bool {
    (x == u && y == v) || (x == v && y == u)
}

/// `pending` after `node` changed: a node joins at the end the first time.
pub open spec fn with_touched(pending: Seq<NodeIdentity>, node: NodeIdentity) -> Seq<NodeIdentity> {
    if pending.contains(node) {
        pending
    } else {
        pending.push(node)
    }
}

/// `row` lists, each once and with its weight, the neighbours of `node` in
/// `g` that lie in `targets`.
pub open spec fn row_lists<W>(g: InMemoryUndirectedGraph<W>, node: usize, row: Seq<(NodeIdentity, W)>, targets: Set<usize>) -> bool {
    &&& forall|i: int|
        0 <= i < row.len() ==> g.has_edge(node, (#[trigger] row[i]).0.0) && targets.contains(row[i].0.0) && row[i].1 == g.weight(
            node,
            row[i].0.0,
        )
    &&& forall|y: usize| #[trigger] g.has_edge(node, y) && targets.contains(y) ==> exists|i: int|
        0 <= i < row.len() && (#[trigger] row[i]).0.0 == y
    &&& forall|i: int, j: int| 0 <= i < j < row.len() ==> row[i].0 != row[j].0
}

/// The positions of `nodes`.
pub open spec fn node_positions_of(nodes: Seq<NodeIdentity>) -> Set<usize> {
    Set::new(|x: usize| exists|k: int| 0 <= k < nodes.len() && nodes[k].0 == x)
}

/// Every one of `nodes` has an adjacency row in `g`.
pub open spec fn all_present<W>(g: InMemoryUndirectedGraph<W>, nodes: Seq<NodeIdentity>) -> bool {
    forall|k: int| 0 <= k < nodes.len() ==> g.has_node(#[trigger] nodes[k].0)
}

/// Flat rows, one per node of `nodes` in order, each listing the neighbours
/// of its node in `g` that lie in `targets`.
pub open spec fn rows_list<W>(
    g: InMemoryUndirectedGraph<W>,
    nodes: Seq<NodeIdentity>,
    rows: OwnedNeighbourhoods<(NodeIdentity, W)>,
    targets: Set<usize>,
) -> bool {
    &&& offsets_well_formed(rows.data@.len(), rows.offsets@)
    &&& rows.offsets@.len() == nodes.len() + 1
    &&& forall|k: int| 0 <= k < nodes.len() ==> row_lists(g, (#[trigger] nodes[k]).0, row_of(rows.data@, rows.offsets@, k), targets)
}

/// Offsets never decrease.
proof fn lemma_offsets_monotone(offsets: Seq<usize>, a: int, b: int)
    requires
        0 <= a <= b < offsets.len(),
        forall|i: int| 0 <= i < offsets.len() - 1 ==> #[trigger] offsets[i] <= offsets[i + 1],
    ensures
        offsets[a] <= offsets[b],
    decreases b - a,
{
    if a < b {
        lemma_offsets_monotone(offsets, a, b - 1);
    }
}

/// The positions of `nodes` as a set.
fn node_set(nodes: &[NodeIdentity]) -> (res: HashSet<usize>)
    ensures
        forall|x: usize| #[trigger] res@.contains(x) <==> exists|k: int| 0 <= k < nodes@.len() && nodes@[k].0 == x,
        res@ == node_positions_of(nodes@),
{
    let mut set: HashSet<usize> = HashSet::new();
    let mut k: usize = 0;
    while k < nodes.len()
        invariant
            k <= nodes@.len(),
            forall|x: usize| #[trigger] set@.contains(x) <==> exists|j: int| 0 <= j < k && nodes@[j].0 == x,
        decreases nodes@.len() - k,
    {
        set.insert(nodes[k].0);
        proof {
            assert forall|x: usize| #[trigger] set@.contains(x) <==> exists|j: int| 0 <= j < k + 1 && nodes@[j].0 == x by {
                if x == nodes@[k as int].0 {
                    assert(nodes@[k as int].0 == x);
                }
            }
        }
        k += 1;
    }
    proof {
        assert(set@ =~= node_positions_of(nodes@));
    }
    set
}

/// Appends `items` to `data`.
fn append_all<E: Copy>(data: &mut Vec<E>, items: &Vec<E>)
    ensures
        final(data)@ == old(data)@ + items@,
{
    let ghost start = data@;
    let mut i: usize = 0;
    while i < items.len()
        invariant
            i <= items@.len(),
            data@ == start + items@.take(i as int),
        decreases items@.len() - i,
    {
        data.push(items[i]);
        proof {
            assert(items@.take(i + 1) =~= items@.take(i as int).push(items@[i as int]));
        }
        i += 1;
    }
    proof {
        assert(items@.take(items@.len() as int) =~= items@);
    }
}

/// Which neighbours a row read keeps.
enum RowFilter<'b> {
    All,
    Among(&'b HashSet<usize>),
    Marked(&'b DenseMarker),
}

/// The node positions that `filter` keeps.
spec fn filter_targets(filter: RowFilter) -> Set<usize> {
    match filter {
        RowFilter::All => Set::full(),
        RowFilter::Among(set) => set@,
        RowFilter::Marked(marker) => Set::new(|x: usize| marker.is_marked(x as nat)),
    }
}

/// Whether `filter` keeps node position `x`.
fn filter_keeps(filter: &RowFilter, x: usize) -> (res: bool)
    ensures
        res == filter_targets(*filter).contains(x),
{
    match filter {
        RowFilter::All => true,
        RowFilter::Among(set) => set.contains(&x),
        RowFilter::Marked(marker) => marker.contains(NodeIdentity(x)),
    }
}

/// The entries of `row` whose node `filter` keeps, in order.
fn keep_targets<W: Copy>(row: &Vec<(NodeIdentity, W)>, filter: &RowFilter) -> (res: Vec<(NodeIdentity, W)>)
    ensures
        forall|i: int| 0 <= i < res@.len() ==> filter_targets(*filter).contains((#[trigger] res@[i]).0.0) && row@.contains(res@[i]),
        forall|i: int| 0 <= i < row@.len() && filter_targets(*filter).contains((#[trigger] row@[i]).0.0) ==> res@.contains(row@[i]),
        (forall|i: int, j: int| 0 <= i < j < row@.len() ==> row@[i].0 != row@[j].0) ==> forall|i: int, j: int|
            0 <= i < j < res@.len() ==> res@[i].0 != res@[j].0,
{
    let mut out: Vec<(NodeIdentity, W)> = Vec::new();
    let mut i: usize = 0;
    while i < row.len()
        invariant
            i <= row@.len(),
            forall|k: int| 0 <= k < out@.len() ==> filter_targets(*filter).contains((#[trigger] out@[k]).0.0) && exists|j: int|
                0 <= j < i && row@[j] == out@[k],
            forall|j: int| 0 <= j < i && filter_targets(*filter).contains((#[trigger] row@[j]).0.0) ==> out@.contains(row@[j]),
            (forall|a: int, b: int| 0 <= a < b < row@.len() ==> row@[a].0 != row@[b].0) ==> forall|a: int, b: int|
                0 <= a < b < out@.len() ==> out@[a].0 != out@[b].0,
        decreases row@.len() - i,
    {
        let entry = row[i];
        let ghost before = out@;
        if filter_keeps(filter, entry.0.0) {
            out.push(entry);
            proof {
                assert(out@[out@.len() - 1] == row@[i as int]);
                if forall|a: int, b: int| 0 <= a < b < row@.len() ==> row@[a].0 != row@[b].0 {
                    assert forall|a: int, b: int| 0 <= a < b < out@.len() implies out@[a].0 != out@[b].0 by {
                        if b == out@.len() - 1 {
                            assert(out@[a] == before[a]);
                            let j = choose|j: int| 0 <= j < i && row@[j] == before[a];
                            assert(row@[j].0 != row@[i as int].0);
                        } else {
                            assert(out@[a] == before[a] && out@[b] == before[b]);
                        }
                    }
                }
                assert forall|j: int| 0 <= j < i + 1 && filter_targets(*filter).contains((#[trigger] row@[j]).0.0) implies out@.contains(row@[j]) by {
                    if j < i {
                        let k = choose|k: int| 0 <= k < before.len() && before[k] == row@[j];
                        assert(out@[k] == row@[j]);
                    } else {
                        assert(out@[out@.len() - 1] == row@[j]);
                    }
                }
                assert forall|k: int| 0 <= k < out@.len() implies filter_targets(*filter).contains((#[trigger] out@[k]).0.0) && exists|j: int|
                    0 <= j < i + 1 && row@[j] == out@[k] by {
                    if k < before.len() {
                        assert(out@[k] == before[k]);
                        let j = choose|j: int| 0 <= j < i && row@[j] == before[k];
                    } else {
                        assert(row@[i as int] == out@[k]);
                    }
                }
            }
        }
        i += 1;
    }
    proof {
        assert forall|k: int| 0 <= k < out@.len() implies filter_targets(*filter).contains((#[trigger] out@[k]).0.0) && row@.contains(out@[k]) by {
            let j = choose|j: int| 0 <= j < row@.len() && row@[j] == out@[k];
        }
    }
    out
}

/// `visits` lists, row by row in the order of `sources`, each neighbour of a
/// source that occurs in `targets`, once, as `(row, first position in
/// targets, neighbour, weight)`.
pub open spec fn visits_list<W>(
    g: InMemoryUndirectedGraph<W>,
    sources: Seq<NodeIdentity>,
    targets: Seq<NodeIdentity>,
    visits: Seq<(usize, usize, NodeIdentity, W)>,
) -> bool {
    &&& forall|i: int|
        0 <= i < visits.len() ==> {
            let (r, t, y, w) = #[trigger] visits[i];
            &&& r < sources.len()
            &&& g.has_edge(sources[r as int].0, y.0)
            &&& first_occurrence(targets, y.0 as nat, t as int)
            &&& w == g.weight(sources[r as int].0, y.0)
        }
    &&& forall|r: int, y: usize|
        0 <= r < sources.len() && #[trigger] g.has_edge(sources[r].0, y) && occurs(targets, y as nat) ==> exists|i: int|
            0 <= i < visits.len() && (#[trigger] visits[i]).0 == r && visits[i].2.0 == y
    &&& forall|i: int, j: int| 0 <= i < j < visits.len() ==> visits[i].0 <= visits[j].0
    &&& forall|i: int, j: int| 0 <= i < j < visits.len() && visits[i].0 == visits[j].0 ==> visits[i].2 != visits[j].2
}

/// The entries of `row_entries` whose node `marker` marks, in order, as
/// `(row, marker position, node, weight)`.
spec fn marked_entries<W>(row_entries: Seq<(NodeIdentity, W)>, marker: DenseMarker, row: usize) -> Seq<(usize, usize, NodeIdentity, W)>
    decreases row_entries.len(),
{
    if row_entries.len() == 0 {
        Seq::empty()
    } else {
        let rest = marked_entries(row_entries.drop_last(), marker, row);
        let last = row_entries.last();
        if marker.is_marked(last.0.0 as nat) {
            rest.push((row, marker.ordinal_of(last.0.0 as nat) as usize, last.0, last.1))
        } else {
            rest
        }
    }
}

/// Each marked entry comes from a marked entry of the row, every marked
/// entry of the row appears, and without repeated nodes none repeats.
proof fn lemma_marked_entries<W>(row_entries: Seq<(NodeIdentity, W)>, marker: DenseMarker, row: usize)
    ensures
        forall|i: int|
            0 <= i < marked_entries(row_entries, marker, row).len() ==> {
                let e = #[trigger] marked_entries(row_entries, marker, row)[i];
                &&& e.0 == row
                &&& marker.is_marked(e.2.0 as nat)
                &&& e.1 == marker.ordinal_of(e.2.0 as nat) as usize
                &&& exists|k: int| 0 <= k < row_entries.len() && row_entries[k].0 == e.2 && row_entries[k].1 == e.3
            },
        forall|k: int|
            0 <= k < row_entries.len() && marker.is_marked((#[trigger] row_entries[k]).0.0 as nat) ==> exists|i: int|
                0 <= i < marked_entries(row_entries, marker, row).len() && marked_entries(row_entries, marker, row)[i].2
                    == row_entries[k].0,
        (forall|a: int, b: int| 0 <= a < b < row_entries.len() ==> row_entries[a].0 != row_entries[b].0) ==> forall|a: int, b: int|
            0 <= a < b < marked_entries(row_entries, marker, row).len() ==> marked_entries(row_entries, marker, row)[a].2
                != marked_entries(row_entries, marker, row)[b].2,
    decreases row_entries.len(),
{
    if row_entries.len() > 0 {
        let rest_entries = row_entries.drop_last();
        lemma_marked_entries(rest_entries, marker, row);
        let rest = marked_entries(rest_entries, marker, row);
        let all = marked_entries(row_entries, marker, row);
        let n = row_entries.len() - 1;
        assert forall|k: int| 0 <= k < rest_entries.len() implies #[trigger] rest_entries[k] == row_entries[k] by {}
        assert forall|i: int| 0 <= i < all.len() implies {
            let e = #[trigger] all[i];
            &&& e.0 == row
            &&& marker.is_marked(e.2.0 as nat)
            &&& e.1 == marker.ordinal_of(e.2.0 as nat) as usize
            &&& exists|k: int| 0 <= k < row_entries.len() && row_entries[k].0 == e.2 && row_entries[k].1 == e.3
        } by {
            if i < rest.len() {
                assert(all[i] == rest[i]);
                let k = choose|k: int| 0 <= k < rest_entries.len() && rest_entries[k].0 == rest[i].2 && rest_entries[k].1 == rest[i].3;
                assert(row_entries[k] == rest_entries[k]);
            } else {
                assert(row_entries[n] == row_entries.last());
            }
        }
        assert forall|k: int| 0 <= k < row_entries.len() && marker.is_marked((#[trigger] row_entries[k]).0.0 as nat) implies exists|i: int|
            0 <= i < all.len() && all[i].2 == row_entries[k].0 by {
            if k < n {
                assert(rest_entries[k] == row_entries[k]);
                let i = choose|i: int| 0 <= i < rest.len() && rest[i].2 == rest_entries[k].0;
                assert(all[i] == rest[i]);
            } else {
                assert(all[all.len() - 1].2 == row_entries[k].0);
            }
        }
        if forall|a: int, b: int| 0 <= a < b < row_entries.len() ==> row_entries[a].0 != row_entries[b].0 {
            assert forall|a: int, b: int| 0 <= a < b < all.len() implies all[a].2 != all[b].2 by {
                assert(all[a] == rest[a]);
                if b < rest.len() {
                    assert(all[b] == rest[b]);
                } else {
                    let k = choose|k: int| 0 <= k < rest_entries.len() && rest_entries[k].0 == rest[a].2 && rest_entries[k].1 == rest[a].3;
                    assert(row_entries[k] == rest_entries[k]);
                    assert(row_entries[k].0 != row_entries[n].0);
                }
            }
        }
    }
}

/// The marked entries of a full neighbour row are the row's visits.
proof fn lemma_row_visits<W>(
    g: InMemoryUndirectedGraph<W>,
    source: NodeIdentity,
    neighbours: Seq<(NodeIdentity, W)>,
    marker: DenseMarker,
    targets: Seq<NodeIdentity>,
    row: usize,
    out: Seq<(usize, usize, NodeIdentity, W)>,
)
    requires
        out == marked_entries(neighbours, marker, row),
        forall|i: int| 0 <= i < neighbours.len() ==> g.has_edge(source.0, (#[trigger] neighbours[i]).0.0) && neighbours[i].1
            == g.weight(source.0, neighbours[i].0.0),
        forall|y: usize| #[trigger] g.has_edge(source.0, y) ==> exists|i: int| 0 <= i < neighbours.len() && (#[trigger] neighbours[i]).0.0 == y,
        forall|a: int, b: int| 0 <= a < b < neighbours.len() ==> neighbours[a].0 != neighbours[b].0,
        forall|x: nat| #[trigger] marker.is_marked(x) <==> occurs(targets, x),
        forall|x: nat| #[trigger] marker.is_marked(x) ==> first_occurrence(targets, x, marker.ordinal_of(x) as int),
        targets.len() <= usize::MAX,
    ensures
        forall|i: int|
            0 <= i < out.len() ==> (#[trigger] out[i]).0 == row && g.has_edge(source.0, out[i].2.0) && first_occurrence(
                targets,
                out[i].2.0 as nat,
                out[i].1 as int,
            ) && out[i].3 == g.weight(source.0, out[i].2.0),
        forall|y: usize| #[trigger] g.has_edge(source.0, y) && occurs(targets, y as nat) ==> exists|i: int|
            0 <= i < out.len() && (#[trigger] out[i]).2.0 == y,
        forall|i: int, j: int| 0 <= i < j < out.len() ==> out[i].2 != out[j].2,
{
    lemma_marked_entries(neighbours, marker, row);
    assert forall|i: int| 0 <= i < out.len() implies (#[trigger] out[i]).0 == row && g.has_edge(source.0, out[i].2.0)
        && first_occurrence(targets, out[i].2.0 as nat, out[i].1 as int) && out[i].3 == g.weight(source.0, out[i].2.0) by {
        let k = choose|k: int| 0 <= k < neighbours.len() && neighbours[k].0 == out[i].2 && neighbours[k].1 == out[i].3;
        let x = out[i].2.0 as nat;
        assert(marker.is_marked(x));
        assert(first_occurrence(targets, x, marker.ordinal_of(x) as int));
        assert(g.has_edge(source.0, neighbours[k].0.0));
    }
    assert forall|yy: usize| #[trigger] g.has_edge(source.0, yy) && occurs(targets, yy as nat) implies exists|i: int|
        0 <= i < out.len() && (#[trigger] out[i]).2.0 == yy by {
        let k = choose|k: int| 0 <= k < neighbours.len() && (#[trigger] neighbours[k]).0.0 == yy;
        assert(marker.is_marked(yy as nat));
        assert(marker.is_marked(neighbours[k].0.0 as nat));
    }
}

/// A query handle over a graph that keeps an epoch marker for target sets.
pub struct DenseInMemoryOracle<'a, W> {
    graph: &'a InMemoryUndirectedGraph<W>,
    marker: DenseMarker,
}

/// An undirected weighted graph kept as adjacency rows, one per node with at
/// least one edge, and a buffer of the nodes whose edges changed since the
/// last flush.
pub struct InMemoryUndirectedGraph<W> {
    rows: HashMap<usize, HashMap<usize, W>>,
    node_ops: NodeOpsBuffer,
}

impl<W> InMemoryUndirectedGraph<W> {
    /// Node `u` has an adjacency row.
    pub closed spec fn has_node(&self, u: usize) -> bool {
        self.rows@.contains_key(u)
    }

    /// The row of `u` holds `v`.
    pub closed spec fn has_edge(&self, u: usize, v: usize) -> bool {
        self.rows@.contains_key(u) && self.rows@[u]@.contains_key(v)
    }

    /// Weight stored in the row of `u` for `v`.
    pub closed spec fn weight(&self, u: usize, v: usize) -> W {
        self.rows@[u]@[v]
    }

    /// Nodes whose edges changed since the last flush, in order of first change.
    pub closed spec fn pending(&self) -> Seq<NodeIdentity> {
        self.node_ops.pending()
    }

    /// Flush threshold of the change buffer, if any.
    pub closed spec fn limit(&self) -> Option<usize> {
        self.node_ops.limit()
    }

    /// Rows are symmetric, carry the same weight both ways, hold no self
    /// loop, and no row is empty.
    pub closed spec fn wf(&self) -> bool {
        &&& self.node_ops.wf()
        &&& forall|u: usize| #[trigger]
            self.rows@.contains_key(u) ==> exists|v: usize| #[trigger] self.rows@[u]@.contains_key(v)
        &&& forall|u: usize, v: usize| #[trigger]
            self.has_edge(u, v) ==> u != v && self.has_edge(v, u) && self.weight(u, v) == self.weight(v, u)
    }

    /// Every graph that the operations of this type produce is undirected:
    /// each edge is stored in both directions with one weight, no node has
    /// an edge to itself, and a node is present exactly when it has an edge.
    pub proof fn lemma_undirected(&self)
        requires
            self.wf(),
        ensures
            forall|u: usize, v: usize| #[trigger]
                self.has_edge(u, v) ==> u != v && self.has_edge(v, u) && self.weight(u, v)
                    == self.weight(v, u),
            forall|x: usize| #[trigger] self.has_node(x) <==> exists|y: usize| #[trigger] self.has_edge(x, y),
    {
        assert forall|x: usize| #[trigger] self.has_node(x) implies exists|y: usize| #[trigger] self.has_edge(x, y) by {
            let y = choose|y: usize| #[trigger] self.rows@[x]@.contains_key(y);
            assert(self.has_edge(x, y));
        }
    }

    /// No node waits twice in the change buffer.
    pub proof fn lemma_pending_distinct(&self)
        requires
            self.wf(),
        ensures
            self.pending().no_duplicates(),
    {
        self.node_ops.lemma_distinct();
    }

    /// The nodes that have at least one edge.
    pub open spec fn node_set(&self) -> Set<usize> {
        Set::new(|x: usize| self.has_node(x))
    }

    /// Number of nodes with at least one edge.
    pub fn node_count(&self) -> (res: usize)
        ensures
            res == self.node_set().len(),
    {
        proof {
            assert(self.node_set() =~= self.rows@.dom());
        }
        self.rows.len()
    }

    /// The nodes with at least one edge, each once, in no promised order.
    pub fn nodes(&self) -> (res: Vec<NodeIdentity>)
        ensures
            res@.no_duplicates(),
            res@.len() == self.node_set().len(),
            forall|x: usize| #[trigger] res@.contains(NodeIdentity(x)) <==> self.has_node(x),
    {
        let mut out: Vec<NodeIdentity> = Vec::new();
        let ghost keyseq = vstd::std_specs::iter::IteratorSpec::remaining(&vstd::std_specs::hash::spec_keys_iter(&self.rows));
        proof {
            vstd::std_specs::hash::axiom_spec_keys_iter(&self.rows);
        }
        for k in it: self.rows.keys()
            invariant
                it.seq() == keyseq,
                out@.len() == it.index(),
                forall|j: int| 0 <= j < it.index() ==> #[trigger] out@[j] == NodeIdentity(*keyseq[j]),
        {
            out.push(NodeIdentity(*k));
        }
        proof {
            let ks = keyseq.unref();
            assert(ks.to_set() == self.rows@.dom());
            assert(out@.len() == keyseq.len());
            assert forall|x: usize| #[trigger] out@.contains(NodeIdentity(x)) <==> self.has_node(x) by {
                if out@.contains(NodeIdentity(x)) {
                    let j = choose|j: int| 0 <= j < out@.len() && out@[j] == NodeIdentity(x);
                    assert(ks[j] == x);
                    assert(ks.to_set().contains(x));
                }
                if self.has_node(x) {
                    assert(ks.to_set().contains(x));
                    let j = choose|j: int| 0 <= j < ks.len() && ks[j] == x;
                    assert(out@[j] == NodeIdentity(x));
                }
            }
            assert forall|i: int, j: int| 0 <= i < out@.len() && 0 <= j < out@.len() && i != j implies out@[i] != out@[j] by {
                assert(ks[i] != ks[j]);
            }
            assert(self.node_set() =~= self.rows@.dom());
        }
        out
    }

    /// A graph without nodes and without a flush threshold.
    pub fn new() -> (res: Self)
        ensures
            res.wf(),
            forall|u: usize| !#[trigger] res.has_node(u),
            forall|u: usize, v: usize| !#[trigger] res.has_edge(u, v),
            res.pending().len() == 0,
            res.limit() is None,
    {
        InMemoryUndirectedGraph { rows: HashMap::new(), node_ops: NodeOpsBuffer::new() }
    }

    /// A graph without nodes whose change buffer reports full at `capacity`
    /// nodes.
    pub fn with_capacity(capacity: usize) -> (res: Self)
        requires
            capacity > 0,
        ensures
            res.wf(),
            forall|u: usize| !#[trigger] res.has_node(u),
            forall|u: usize, v: usize| !#[trigger] res.has_edge(u, v),
            res.pending().len() == 0,
            res.limit() == Some(capacity),
    {
        InMemoryUndirectedGraph { rows: HashMap::new(), node_ops: NodeOpsBuffer::with_capacity(capacity) }
    }

    /// A graph without nodes whose change buffer reports full at `capacity`
    /// nodes, with no other room reserved.
    pub fn with_node_ops_capacity(capacity: usize) -> (res: Self)
        requires
            capacity > 0,
        ensures
            res.wf(),
            forall|u: usize| !#[trigger] res.has_node(u),
            forall|u: usize, v: usize| !#[trigger] res.has_edge(u, v),
            res.pending().len() == 0,
            res.limit() == Some(capacity),
    {
        InMemoryUndirectedGraph { rows: HashMap::new(), node_ops: NodeOpsBuffer::with_capacity(capacity) }
    }

    /// Hands out the nodes whose edges changed since the last call, in order
    /// of first change, and empties the buffer.
    pub fn take_changed_nodes(&mut self) -> (res: Vec<NodeIdentity>)
        requires
            old(self).wf(),
        ensures
            final(self).wf(),
            res@ == old(self).pending(),
            final(self).pending().len() == 0,
            final(self).limit() == old(self).limit(),
            forall|u: usize, v: usize| #[trigger] final(self).has_edge(u, v) == old(self).has_edge(u, v),
            forall|u: usize| #[trigger] final(self).has_node(u) == old(self).has_node(u),
            forall|u: usize, v: usize| #[trigger] final(self).weight(u, v) == old(self).weight(u, v),
    {
        let ghost before = *self;
        let res = self.node_ops.take_nodes();
        proof {
            assert(self.rows@ == before.rows@);
            assert forall|x: usize, y: usize| #[trigger] self.has_edge(x, y) implies x != y && self.has_edge(y, x)
                && self.weight(x, y) == self.weight(y, x) by {
                assert(before.has_edge(x, y));
            }
        }
        res
    }

    /// Whether `node` has at least one edge.
    pub fn contains_node(&self, node: NodeIdentity) -> (res: bool)
        ensures
            res == self.has_node(node.0),
    {
        self.rows.contains_key(&node.0)
    }

    /// Number of nodes waiting in the change buffer.
    pub fn node_ops_buffer_len(&self) -> (res: usize)
        ensures
            res == self.pending().len(),
    {
        self.node_ops.len()
    }

    /// Whether the change buffer is empty.
    pub fn node_ops_buffer_is_empty(&self) -> (res: bool)
        ensures
            res == (self.pending().len() == 0),
    {
        self.node_ops.is_empty()
    }

    /// Whether the change buffer reached its flush threshold.
    pub fn node_ops_buffer_is_full(&self) -> (res: bool)
        ensures
            res == match self.limit() {
                Some(c) => self.pending().len() >= c,
                None => false,
            },
    {
        self.node_ops.is_full()
    }
}

impl<W: Copy> InMemoryUndirectedGraph<W> {
    /// The row of `x` in `before` is left empty once the edge between `u`
    /// and `v` is gone.
    spec fn rows_view_empty_after(self, before: Self, x: usize, u: usize, v: usize) -> bool {
        (if x == u {
            before.rows@[x]@.remove(v)
        } else {
            before.rows@[x]@.remove(u)
        }).dom().is_empty()
    }

    /// Stores `b` with weight `w` in the row of `a`, creating the row.
    fn link(&mut self, a: usize, b: usize, w: W)
        ensures
            final(self).node_ops == old(self).node_ops,
            forall|x: usize| #[trigger] final(self).rows@.contains_key(x) <==> old(self).rows@.contains_key(x) || x == a,
            forall|x: usize| #[trigger] final(self).rows@.contains_key(x) && x != a ==> final(self).rows@[x] == old(self).rows@[x],
            final(self).rows@[a]@ == (if old(self).rows@.contains_key(a) {
                old(self).rows@[a]@
            } else {
                Map::<usize, W>::empty()
            }).insert(b, w),
    {
        let mut row = match self.rows.remove(&a) {
            Some(row) => row,
            None => HashMap::new(),
        };
        row.insert(b, w);
        self.rows.insert(a, row);
    }

    /// Drops `b` from the row of `a`, if both are there; reports whether it
    /// was there.
    fn unlink(&mut self, a: usize, b: usize) -> (removed: bool)
        ensures
            final(self).node_ops == old(self).node_ops,
            removed == (old(self).rows@.contains_key(a) && old(self).rows@[a]@.contains_key(b)),
            forall|x: usize| #[trigger] final(self).rows@.contains_key(x) <==> old(self).rows@.contains_key(x),
            forall|x: usize| #[trigger] final(self).rows@.contains_key(x) && x != a ==> final(self).rows@[x] == old(self).rows@[x],
            old(self).rows@.contains_key(a) ==> final(self).rows@[a]@ == old(self).rows@[a]@.remove(b),
    {
        match self.rows.remove(&a) {
            Some(mut row) => {
                let removed = row.remove(&b).is_some();
                self.rows.insert(a, row);
                removed
            },
            None => false,
        }
    }

    /// Drops the row of `a` when it is empty.
    fn remove_if_isolated(&mut self, a: usize)
        ensures
            final(self).node_ops == old(self).node_ops,
            forall|x: usize| #[trigger] final(self).rows@.contains_key(x) <==> old(self).rows@.contains_key(x) && !(x == a
                && old(self).rows@[a]@.dom().is_empty()),
            forall|x: usize| #[trigger] final(self).rows@.contains_key(x) ==> final(self).rows@[x] == old(self).rows@[x],
    {
        let isolated = match self.rows.get(&a) {
            Some(row) => row.is_empty(),
            None => false,
        };
        if isolated {
            self.rows.remove(&a);
        }
    }

    /// Inserts, updates or deletes the undirected edge between `u` and `v`.
    /// `Some(weight)` creates missing endpoints and stores the weight in both
    /// directions; `None` removes the edge and drops endpoints left without
    /// edges. Both endpoints are recorded as changed. A self loop, or the
    /// removal of an absent edge, is refused and nothing changes.
    pub fn update_edge(&mut self, u: NodeIdentity, v: NodeIdentity, weight: Option<W>) -> (res: Result<(), InMemoryGraphError>)
        requires
            old(self).wf(),
        ensures
            final(self).wf(),
            res is Ok <==> u != v && (weight is Some || old(self).has_edge(u.0, v.0)),
            u == v ==> res == Err::<(), InMemoryGraphError>(InMemoryGraphError::SelfLoop),
            u != v && weight is None && !old(self).has_edge(u.0, v.0) ==> res == Err::<(), InMemoryGraphError>(
                InMemoryGraphError::MissingEdge,
            ),
            res is Err ==> *final(self) == *old(self),
            res is Ok ==> {
                &&& forall|x: usize, y: usize| #[trigger] final(self).has_edge(x, y) <==> if same_pair(x, y, u.0, v.0) {
                    weight is Some
                } else {
                    old(self).has_edge(x, y)
                }
                &&& forall|x: usize, y: usize| #[trigger] final(self).has_edge(x, y) ==> final(self).weight(x, y)
                    == if same_pair(x, y, u.0, v.0) {
                    weight->0
                } else {
                    old(self).weight(x, y)
                }
                &&& final(self).pending() == with_touched(with_touched(old(self).pending(), u), v)
                &&& final(self).limit() == old(self).limit()
            },
            forall|x: usize| #[trigger] final(self).has_node(x) <==> exists|y: usize| #[trigger] final(self).has_edge(x, y),
    {
        proof {
            assert forall|x: usize| #[trigger] self.has_node(x) implies exists|y: usize| #[trigger] self.has_edge(x, y) by {
                let y = choose|y: usize| #[trigger] self.rows@[x]@.contains_key(y);
                assert(self.has_edge(x, y));
            }
        }
        if u.0 == v.0 {
            return Err(InMemoryGraphError::SelfLoop);
        }
        let ghost before = *self;
        match weight {
            Some(w) => {
                self.link(u.0, v.0, w);
                let ghost mid = *self;
                self.link(v.0, u.0, w);
                proof {
                    assert forall|x: usize, y: usize| #[trigger] self.has_edge(x, y) <==> same_pair(x, y, u.0, v.0) || before.has_edge(
                        x,
                        y,
                    ) by {
                        if x == v.0 {
                        } else if x == u.0 {
                            assert(mid.rows@.contains_key(x));
                            assert(self.rows@.contains_key(x));
                            assert(self.rows@[x] == mid.rows@[x]);
                        } else {
                            assert(self.rows@.contains_key(x) ==> self.rows@[x] == mid.rows@[x]);
                            assert(mid.rows@.contains_key(x) ==> mid.rows@[x] == before.rows@[x]);
                        }
                    }
                    assert forall|x: usize, y: usize| #[trigger] self.has_edge(x, y) implies self.weight(x, y) == if same_pair(
                        x,
                        y,
                        u.0,
                        v.0,
                    ) {
                        w
                    } else {
                        before.weight(x, y)
                    } by {
                        if x == v.0 {
                        } else if x == u.0 {
                            assert(mid.rows@.contains_key(x));
                            assert(self.rows@[x] == mid.rows@[x]);
                        } else {
                            assert(mid.rows@.contains_key(x));
                            assert(self.rows@[x] == mid.rows@[x]);
                            assert(mid.rows@[x] == before.rows@[x]);
                        }
                    }
                    assert forall|x: usize, y: usize| #[trigger] self.has_edge(x, y) implies x != y && self.has_edge(y, x)
                        && self.weight(x, y) == self.weight(y, x) by {
                        if !same_pair(x, y, u.0, v.0) {
                            assert(before.has_edge(x, y));
                            assert(before.has_edge(y, x));
                        }
                    }
                    assert forall|x: usize| #[trigger] self.rows@.contains_key(x) implies exists|y: usize| #[trigger] self.rows@[x]@.contains_key(y) by {
                        if x == u.0 {
                            assert(self.rows@[x]@.contains_key(v.0));
                        } else if x == v.0 {
                            assert(self.rows@[x]@.contains_key(u.0));
                        } else {
                            let y = choose|y: usize| #[trigger] before.rows@[x]@.contains_key(y);
                            assert(self.rows@[x]@.contains_key(y));
                        }
                    }
                }
            },
            None => {
                let present = match self.rows.get(&u.0) {
                    Some(row) => row.contains_key(&v.0),
                    None => false,
                };
                if !present {
                    return Err(InMemoryGraphError::MissingEdge);
                }
                self.unlink(u.0, v.0);
                let ghost m1 = *self;
                self.unlink(v.0, u.0);
                let ghost m2 = *self;
                self.remove_if_isolated(u.0);
                let ghost m3 = *self;
                self.remove_if_isolated(v.0);
                proof {
                    assert forall|x: usize| #[trigger] self.rows@.contains_key(x) implies self.rows@[x]@ == if x == u.0 {
                        before.rows@[x]@.remove(v.0)
                    } else if x == v.0 {
                        before.rows@[x]@.remove(u.0)
                    } else {
                        before.rows@[x]@
                    } by {
                        assert(m3.rows@.contains_key(x) && m3.rows@[x] == self.rows@[x]);
                        assert(m2.rows@.contains_key(x) && m2.rows@[x] == m3.rows@[x]);
                        assert(m1.rows@.contains_key(x));
                        assert(before.rows@.contains_key(x));
                        if x != v.0 {
                            assert(m2.rows@[x] == m1.rows@[x]);
                        }
                        if x != u.0 {
                            assert(m1.rows@[x] == before.rows@[x]);
                        }
                    }
                    assert forall|x: usize| #[trigger] before.rows@.contains_key(x) && !self.rows@.contains_key(x) implies (x == u.0
                        || x == v.0) && self.rows_view_empty_after(before, x, u.0, v.0) by {
                        assert(m1.rows@.contains_key(x));
                        assert(m2.rows@.contains_key(x));
                        if x != v.0 {
                            assert(m2.rows@[x] == m1.rows@[x]);
                        }
                        if x != u.0 {
                            assert(m1.rows@[x] == before.rows@[x]);
                        }
                        if m3.rows@.contains_key(x) {
                            assert(m3.rows@[x] == m2.rows@[x]);
                        }
                    }
                    assert forall|x: usize, y: usize| #[trigger] self.has_edge(x, y) <==> !same_pair(x, y, u.0, v.0)
                        && before.has_edge(x, y) by {
                        if !same_pair(x, y, u.0, v.0) && before.has_edge(x, y) && !self.rows@.contains_key(x) {
                            assert(before.rows@[x]@.contains_key(y));
                            if x == u.0 {
                                assert(before.rows@[x]@.remove(v.0).contains_key(y));
                            } else {
                                assert(before.rows@[x]@.remove(u.0).contains_key(y));
                            }
                        }
                    }
                    assert forall|x: usize, y: usize| #[trigger] self.has_edge(x, y) implies self.weight(x, y) == before.weight(x, y) by {}
                    assert forall|x: usize, y: usize| #[trigger] self.has_edge(x, y) implies x != y && self.has_edge(y, x)
                        && self.weight(x, y) == self.weight(y, x) by {
                        assert(before.has_edge(x, y));
                        assert(before.has_edge(y, x));
                    }
                    assert forall|x: usize| #[trigger] self.rows@.contains_key(x) implies exists|y: usize| #[trigger] self.rows@[x]@.contains_key(y) by {
                        let y = choose|y: usize| #[trigger] before.rows@[x]@.contains_key(y);
                        if !self.rows@[x]@.contains_key(y) {
                            assert(x == u.0 || x == v.0);
                            assert(!self.rows@[x]@.dom().is_empty());
                            let z = self.rows@[x]@.dom().choose();
                            assert(self.rows@[x]@.contains_key(z));
                        }
                    }
                    assert forall|x: usize, y: usize| #[trigger] self.has_edge(x, y) <==> !same_pair(x, y, u.0, v.0)
                        && before.has_edge(x, y) by {
                        if !same_pair(x, y, u.0, v.0) && before.has_edge(x, y) && (x == u.0 || x == v.0) {
                            assert(self.rows@.contains_key(x)) by {
                                assert(self.rows@[x]@.contains_key(y)) by {
                                    assert(before.rows@[x]@.contains_key(y));
                                }
                            }
                        }
                    }
                }
            },
        }
        let ghost pre_touch = *self;
        proof {
            assert forall|x: usize, y: usize| #[trigger] pre_touch.has_edge(x, y) implies x != y && pre_touch.has_edge(y, x)
                && pre_touch.weight(x, y) == pre_touch.weight(y, x) by {}
        }
        self.node_ops.touch(u);
        self.node_ops.touch(v);
        proof {
            assert(self.rows@ == pre_touch.rows@);
            assert forall|x: usize, y: usize| #[trigger] self.has_edge(x, y) implies x != y && self.has_edge(y, x)
                && self.weight(x, y) == self.weight(y, x) by {
                assert(pre_touch.has_edge(x, y));
            }
            assert forall|x: usize| #[trigger] self.has_node(x) implies exists|y: usize| #[trigger] self.has_edge(x, y) by {
                let y = choose|y: usize| #[trigger] self.rows@[x]@.contains_key(y);
                assert(self.has_edge(x, y));
            }
        }
        Ok(())
    }

    /// The neighbours of `node` with the weights of their edges, in some
    /// order, each once; `None` when `node` has no edges.
    pub fn neighbours(&self, node: NodeIdentity) -> (res: Option<Vec<(NodeIdentity, W)>>)
        requires
            self.wf(),
        ensures
            res is None <==> !self.has_node(node.0),
            res matches Some(list) ==> forall|i: int|
                0 <= i < list@.len() ==> self.has_edge(node.0, (#[trigger] list@[i]).0.0) && list@[i].1 == self.weight(
                    node.0,
                    list@[i].0.0,
                ),
            res matches Some(list) ==> forall|y: usize| #[trigger] self.has_edge(node.0, y) ==> exists|i: int|
                0 <= i < list@.len() && (#[trigger] list@[i]).0.0 == y,
            res matches Some(list) ==> forall|i: int, j: int| 0 <= i < j < list@.len() ==> list@[i].0 != list@[j].0,
    {
        let row = match self.rows.get(&node.0) {
            Some(row) => row,
            None => {
                return None;
            },
        };
        let mut out: Vec<(NodeIdentity, W)> = Vec::new();
        for (k, w) in it: row.iter()
            invariant
                row@ == self.rows@[node.0]@,
                self.rows@.contains_key(node.0),
                it.seq().no_duplicates(),
                out@.len() == it.index(),
                forall|i: int| 0 <= i < it.index() ==> (#[trigger] out@[i]).0.0 == *it.seq()[i].0 && out@[i].1 == *it.seq()[i].1,
                forall|i: int| 0 <= i < it.seq().len() ==> row@.contains_key(*(#[trigger] it.seq()[i]).0) && row@[*it.seq()[i].0] == *it.seq()[i].1,
                forall|y: usize| #[trigger] row@.contains_key(y) ==> it.seq().contains((&y, &row@[y])),
                forall|i: int| 0 <= i < out@.len() ==> row@.contains_key((#[trigger] out@[i]).0.0) && out@[i].1 == row@[out@[i].0.0],
                forall|i: int, j: int| 0 <= i < j < out@.len() ==> out@[i].0 != out@[j].0,
                it.index() == it.seq().len() ==> forall|y: usize| #[trigger] row@.contains_key(y) ==> exists|i: int|
                    0 <= i < out@.len() && (#[trigger] out@[i]).0.0 == y,
        {
            let ghost before = out@;
            out.push((NodeIdentity(*k), *w));
            assert(out@[it.index() as int].0.0 == *it.seq()[it.index() as int].0);
            assert forall|i: int, j: int| 0 <= i < j < out@.len() implies out@[i].0 != out@[j].0 by {
                if j == it.index() && out@[i].0 == out@[j].0 {
                    assert(out@[i] == before[i]);
                    assert(*it.seq()[i].0 == *it.seq()[it.index() as int].0);
                    assert(it.seq()[i] == it.seq()[it.index() as int]);
                }
                if j < it.index() {
                    assert(out@[i] == before[i] && out@[j] == before[j]);
                }
            }
            assert forall|y: usize| it.index() + 1 == it.seq().len() && #[trigger] row@.contains_key(y) implies exists|i: int|
                0 <= i < out@.len() && (#[trigger] out@[i]).0.0 == y by {
                let i = choose|i: int| 0 <= i < it.seq().len() && it.seq()[i] == (&y, &row@[y]);
                assert(out@[i].0.0 == y);
            }
        }
        proof {
            assert forall|y: usize| #[trigger] self.has_edge(node.0, y) implies exists|i: int|
                0 <= i < out@.len() && (#[trigger] out@[i]).0.0 == y by {
                assert(row@.contains_key(y));
            }
            assert forall|i: int| 0 <= i < out@.len() implies self.has_edge(node.0, (#[trigger] out@[i]).0.0) && out@[i].1
                == self.weight(node.0, out@[i].0.0) by {
                assert(row@.contains_key(out@[i].0.0));
            }
            assert forall|i: int, j: int| 0 <= i < j < out@.len() implies out@[i].0 != out@[j].0 by {}
        }
        let res = Some(out);
        proof {
            let list = res->0;
            assert forall|y: usize| #[trigger] self.has_edge(node.0, y) implies exists|i: int|
                0 <= i < list@.len() && (#[trigger] list@[i]).0.0 == y by {
                let i = choose|i: int| 0 <= i < out@.len() && (#[trigger] out@[i]).0.0 == y;
                assert(list@[i].0.0 == y);
            }
        }
        res
    }

    /// Flat rows for `nodes`, each listing the neighbours of its node, or
    /// only those in `keep` when it is given; `None` when a node has no edges.
    fn rows_for(&self, nodes: &[NodeIdentity], filter: RowFilter) -> (res: Option<OwnedNeighbourhoods<(NodeIdentity, W)>>)
        requires
            self.wf(),
        ensures
            res is Some <==> all_present(*self, nodes@),
            res matches Some(rows) ==> rows_list(*self, nodes@, rows, filter_targets(filter)),
    {
        let ghost targets = filter_targets(filter);
        let mut data: Vec<(NodeIdentity, W)> = Vec::new();
        let mut offsets: Vec<usize> = Vec::new();
        offsets.push(0);
        let mut k: usize = 0;
        while k < nodes.len()
            invariant
                self.wf(),
                k <= nodes@.len(),
                offsets@.len() == k + 1,
                offsets_well_formed(data@.len(), offsets@),
                targets == filter_targets(filter),
                forall|j: int| 0 <= j < k ==> self.has_node(#[trigger] nodes@[j].0),
                forall|j: int| 0 <= j < k ==> row_lists(*self, (#[trigger] nodes@[j]).0, row_of(data@, offsets@, j), targets),
            decreases nodes@.len() - k,
        {
            let node = nodes[k];
            let neighbours = match self.neighbours(node) {
                Some(list) => list,
                None => {
                    proof {
                        assert(!self.has_node(nodes@[k as int].0));
                    }
                    return None;
                },
            };
            let row = keep_targets(&neighbours, &filter);
            proof {
                assert(row_lists(*self, node.0, row@, targets)) by {
                    {
                        assert forall|i: int| 0 <= i < row@.len() implies self.has_edge(node.0, (#[trigger] row@[i]).0.0)
                            && targets.contains(row@[i].0.0) && row@[i].1 == self.weight(node.0, row@[i].0.0) by {
                            let j = choose|j: int| 0 <= j < neighbours@.len() && neighbours@[j] == row@[i];
                        }
                        assert forall|y: usize| #[trigger] self.has_edge(node.0, y) && targets.contains(y) implies exists|i: int|
                            0 <= i < row@.len() && (#[trigger] row@[i]).0.0 == y by {
                            let j = choose|j: int| 0 <= j < neighbours@.len() && (#[trigger] neighbours@[j]).0.0 == y;
                            assert(row@.contains(neighbours@[j]));
                            let i = choose|i: int| 0 <= i < row@.len() && row@[i] == neighbours@[j];
                        }
                    }
                }
            }
            let ghost data_before = data@;
            let ghost offsets_before = offsets@;
            append_all(&mut data, &row);
            offsets.push(data.len());
            proof {
                assert(row_of(data@, offsets@, k as int) =~= row@);
                assert forall|j: int| 0 <= j < k + 1 implies row_lists(
                    *self,
                    (#[trigger] nodes@[j]).0,
                    row_of(data@, offsets@, j),
                    targets,
                ) by {
                    if j < k {
                        assert(offsets@[j] == offsets_before[j] && offsets@[j + 1] == offsets_before[j + 1]);
                        assert(offsets_before[j + 1] <= data_before.len()) by {
                            assert forall|a: int, b: int| 0 <= a <= b < offsets_before.len() implies offsets_before[a]
                                <= offsets_before[b] by {
                                lemma_offsets_monotone(offsets_before, a, b);
                            }
                            assert(offsets_before[j + 1] <= offsets_before[k as int]);
                        }
                        assert(row_of(data@, offsets@, j) =~= row_of(data_before, offsets_before, j));
                    }
                }
                assert forall|i: int| 0 <= i < offsets@.len() - 1 implies #[trigger] offsets@[i] <= offsets@[i + 1] by {
                    if i < k {
                        assert(offsets@[i] == offsets_before[i] && offsets@[i + 1] == offsets_before[i + 1]);
                    }
                }
            }
            k += 1;
        }
        Some(OwnedNeighbourhoods { data, offsets })
    }

    /// The neighbourhood rows of `nodes`, in order; a node without edges is
    /// refused.
    pub fn graph_neighbourhoods(&self, nodes: &[NodeIdentity]) -> (res: Result<
        OwnedNeighbourhoods<(NodeIdentity, W)>,
        OracleError<InMemoryGraphError>,
    >)
        requires
            self.wf(),
        ensures
            res is Ok <==> all_present(*self, nodes@),
            res matches Err(e) ==> e == OracleError::GraphError(InMemoryGraphError::MissingNode),
            res matches Ok(rows) ==> rows_list(*self, nodes@, rows, Set::full()),
    {
        match self.rows_for(nodes, RowFilter::All) {
            Some(rows) => Ok(rows),
            None => Err(OracleError::GraphError(InMemoryGraphError::MissingNode)),
        }
    }

    /// The neighbourhood rows of `sources`, in order, each keeping only the
    /// neighbours among `targets`; a source without edges is refused.
    pub fn graph_neighbourhoods_intersecting(&self, sources: &[NodeIdentity], targets: &[NodeIdentity]) -> (res: Result<
        OwnedNeighbourhoods<(NodeIdentity, W)>,
        OracleError<InMemoryGraphError>,
    >)
        requires
            self.wf(),
        ensures
            res is Ok <==> all_present(*self, sources@),
            res matches Err(e) ==> e == OracleError::GraphError(InMemoryGraphError::MissingNode),
            res matches Ok(rows) ==> rows_list(*self, sources@, rows, node_positions_of(targets@)),
    {
        let keep = node_set(targets);
        match self.rows_for(sources, RowFilter::Among(&keep)) {
            Some(rows) => Ok(rows),
            None => Err(OracleError::GraphError(InMemoryGraphError::MissingNode)),
        }
    }

    /// The neighbourhood rows of `nodes`, in order, each keeping only the
    /// neighbours among `nodes` themselves; a node without edges is refused.
    pub fn coreset_neighbourhoods(&self, nodes: &[NodeIdentity]) -> (res: Result<
        OwnedNeighbourhoods<(NodeIdentity, W)>,
        OracleError<InMemoryGraphError>,
    >)
        requires
            self.wf(),
        ensures
            res is Ok <==> all_present(*self, nodes@),
            res matches Err(e) ==> e == OracleError::CoresetError(InMemoryGraphError::MissingNode),
            res matches Ok(rows) ==> rows_list(*self, nodes@, rows, node_positions_of(nodes@)),
    {
        let keep = node_set(nodes);
        match self.rows_for(nodes, RowFilter::Among(&keep)) {
            Some(rows) => Ok(rows),
            None => Err(OracleError::CoresetError(InMemoryGraphError::MissingNode)),
        }
    }

    /// A query handle over this graph with its own marker.
    pub fn dense_oracle(&self) -> (res: DenseInMemoryOracle<'_, W>)
        requires
            self.wf(),
        ensures
            res.wf(),
            res.graph_view() == *self,
    {
        DenseInMemoryOracle { graph: self, marker: DenseMarker::default() }
    }

    /// `count` independent query handles over this graph.
    pub fn dense_oracles(&self, count: usize) -> (res: Vec<DenseInMemoryOracle<'_, W>>)
        requires
            self.wf(),
        ensures
            res@.len() == count,
            forall|i: int| 0 <= i < count ==> (#[trigger] res@[i]).wf() && res@[i].graph_view() == *self,
    {
        let mut out: Vec<DenseInMemoryOracle<'_, W>> = Vec::new();
        let mut i: usize = 0;
        while i < count
            invariant
                self.wf(),
                i <= count,
                out@.len() == i,
                forall|k: int| 0 <= k < i ==> (#[trigger] out@[k]).wf() && out@[k].graph_view() == *self,
            decreases count - i,
        {
            out.push(self.dense_oracle());
            i += 1;
        }
        out
    }

    /// The visits of the neighbours of `source` that `marker` marks, as
    /// `(row, marker position, neighbour, weight)`; `None` when `source` has
    /// no edges.
    fn marked_row(&self, row: usize, source: NodeIdentity, marker: &DenseMarker, Ghost(targets): Ghost<Seq<NodeIdentity>>) -> (res:
        Option<Vec<(usize, usize, NodeIdentity, W)>>)
        requires
            self.wf(),
            marker.wf(),
            forall|x: nat| #[trigger] marker.is_marked(x) <==> occurs(targets, x),
            forall|x: nat| #[trigger] marker.is_marked(x) ==> first_occurrence(targets, x, marker.ordinal_of(x) as int),
            targets.len() <= usize::MAX,
        ensures
            res is Some <==> self.has_node(source.0),
            res matches Some(list) ==> {
                &&& forall|i: int|
                    0 <= i < list@.len() ==> (#[trigger] list@[i]).0 == row && self.has_edge(source.0, list@[i].2.0)
                        && first_occurrence(targets, list@[i].2.0 as nat, list@[i].1 as int) && list@[i].3 == self.weight(
                        source.0,
                        list@[i].2.0,
                    )
                &&& forall|y: usize| #[trigger] self.has_edge(source.0, y) && occurs(targets, y as nat) ==> exists|i: int|
                    0 <= i < list@.len() && (#[trigger] list@[i]).2.0 == y
                &&& forall|i: int, j: int| 0 <= i < j < list@.len() ==> list@[i].2 != list@[j].2
            },
    {
        let neighbours = match self.neighbours(source) {
            Some(list) => list,
            None => {
                return None;
            },
        };
        let mut out: Vec<(usize, usize, NodeIdentity, W)> = Vec::new();
        let mut j: usize = 0;
        while j < neighbours.len()
            invariant
                marker.wf(),
                j <= neighbours@.len(),
                out@ == marked_entries(neighbours@.take(j as int), *marker, row),
            decreases neighbours@.len() - j,
        {
            let (y, w) = neighbours[j];
            proof {
                assert(neighbours@.take(j + 1).drop_last() =~= neighbours@.take(j as int));
                assert(neighbours@.take(j + 1).last() == (y, w));
            }
            match marker.ordinal(y) {
                Some(t) => {
                    out.push((row, t, y, w));
                },
                None => {},
            }
            j += 1;
        }
        proof {
            assert(neighbours@.take(neighbours@.len() as int) =~= neighbours@);
            lemma_row_visits(*self, source, neighbours@, *marker, targets, row, out@);
        }
        let res = Some(out);
        proof {
            let list = res->0;
            assert forall|y: usize| #[trigger] self.has_edge(source.0, y) && occurs(targets, y as nat) implies exists|i: int|
                0 <= i < list@.len() && (#[trigger] list@[i]).2.0 == y by {
                let i = choose|i: int| 0 <= i < out@.len() && (#[trigger] out@[i]).2.0 == y;
                assert(list@[i].2.0 == y);
            }
        }
        res
    }

    /// The visits of the neighbours of `sources` that `marker` marks, with
    /// the marker's positions; `None` when a source has no edges.
    fn marked_visits(&self, sources: &[NodeIdentity], marker: &DenseMarker, Ghost(targets): Ghost<Seq<NodeIdentity>>) -> (res:
        Option<Vec<(usize, usize, NodeIdentity, W)>>)
        requires
            self.wf(),
            marker.wf(),
            forall|x: nat| #[trigger] marker.is_marked(x) <==> occurs(targets, x),
            forall|x: nat| #[trigger] marker.is_marked(x) ==> first_occurrence(targets, x, marker.ordinal_of(x) as int),
            targets.len() <= usize::MAX,
        ensures
            res is Some <==> all_present(*self, sources@),
            res matches Some(visits) ==> visits_list(*self, sources@, targets, visits@),
    {
        let mut out: Vec<(usize, usize, NodeIdentity, W)> = Vec::new();
        let mut r: usize = 0;
        while r < sources.len()
            invariant
                self.wf(),
                marker.wf(),
                forall|x: nat| #[trigger] marker.is_marked(x) <==> occurs(targets, x),
                forall|x: nat| #[trigger] marker.is_marked(x) ==> first_occurrence(targets, x, marker.ordinal_of(x) as int),
                targets.len() <= usize::MAX,
                r <= sources@.len(),
                forall|k: int| 0 <= k < r ==> self.has_node(#[trigger] sources@[k].0),
                forall|i: int|
                    0 <= i < out@.len() ==> {
                        let (rr, t, y, w) = #[trigger] out@[i];
                        &&& rr < r
                        &&& self.has_edge(sources@[rr as int].0, y.0)
                        &&& first_occurrence(targets, y.0 as nat, t as int)
                        &&& w == self.weight(sources@[rr as int].0, y.0)
                    },
                forall|rr: int, y: usize|
                    0 <= rr < r && #[trigger] self.has_edge(sources@[rr].0, y) && occurs(targets, y as nat) ==> exists|i: int|
                        0 <= i < out@.len() && (#[trigger] out@[i]).0 == rr && out@[i].2.0 == y,
                forall|i: int, j: int| 0 <= i < j < out@.len() ==> out@[i].0 <= out@[j].0,
                forall|i: int, j: int| 0 <= i < j < out@.len() && out@[i].0 == out@[j].0 ==> out@[i].2 != out@[j].2,
            decreases sources@.len() - r,
        {
            let row = match self.marked_row(r, sources[r], marker, Ghost(targets)) {
                Some(row) => row,
                None => {
                    proof {
                        assert(!self.has_node(sources@[r as int].0));
                    }
                    return None;
                },
            };
            let ghost before = out@;
            append_all(&mut out, &row);
            proof {
                let n = before.len();
                assert forall|i: int| 0 <= i < out@.len() implies {
                    let (rr, t, y, w) = #[trigger] out@[i];
                    &&& rr < r + 1
                    &&& self.has_edge(sources@[rr as int].0, y.0)
                    &&& first_occurrence(targets, y.0 as nat, t as int)
                    &&& w == self.weight(sources@[rr as int].0, y.0)
                } by {
                    if i < n {
                        assert(out@[i] == before[i]);
                    } else {
                        assert(out@[i] == row@[i - n]);
                    }
                }
                assert forall|rr: int, y: usize|
                    0 <= rr < r + 1 && #[trigger] self.has_edge(sources@[rr].0, y) && occurs(targets, y as nat) implies exists|i: int|
                        0 <= i < out@.len() && (#[trigger] out@[i]).0 == rr && out@[i].2.0 == y by {
                    if rr < r {
                        let i = choose|i: int| 0 <= i < before.len() && (#[trigger] before[i]).0 == rr && before[i].2.0 == y;
                        assert(out@[i] == before[i]);
                    } else {
                        let k = choose|k: int| 0 <= k < row@.len() && (#[trigger] row@[k]).2.0 == y;
                        assert(out@[n + k] == row@[k]);
                    }
                }
                assert forall|i: int, j: int| 0 <= i < j < out@.len() implies out@[i].0 <= out@[j].0 by {
                    if j < n {
                        assert(out@[i] == before[i] && out@[j] == before[j]);
                    } else if i < n {
                        assert(out@[i] == before[i] && out@[j] == row@[j - n]);
                    } else {
                        assert(out@[i] == row@[i - n] && out@[j] == row@[j - n]);
                    }
                }
                assert forall|i: int, j: int| 0 <= i < j < out@.len() && out@[i].0 == out@[j].0 implies out@[i].2 != out@[j].2 by {
                    if j < n {
                        assert(out@[i] == before[i] && out@[j] == before[j]);
                    } else if i < n {
                        assert(out@[i] == before[i] && out@[j] == row@[j - n]);
                    } else {
                        assert(out@[i] == row@[i - n] && out@[j] == row@[j - n]);
                    }
                }
            }
            r += 1;
        }
        Some(out)
    }

    /// Weight of the edge between `u` and `v`, if there is one.
    pub fn edge_weight(&self, u: NodeIdentity, v: NodeIdentity) -> (res: Option<W>)
        ensures
            res == if self.has_edge(u.0, v.0) {
                Some(self.weight(u.0, v.0))
            } else {
                None::<W>
            },
    {
        match self.rows.get(&u.0) {
            Some(row) => match row.get(&v.0) {
                Some(w) => Some(*w),
                None => None,
            },
            None => None,
        }
    }
}

impl<'a, W: Copy> DenseInMemoryOracle<'a, W> {
    /// The graph this handle reads.
    pub closed spec fn graph_view(&self) -> InMemoryUndirectedGraph<W> {
        *self.graph
    }

    /// The graph is well formed and the marker consistent.
    pub closed spec fn wf(&self) -> bool {
        self.graph.wf() && self.marker.wf()
    }

    /// The neighbourhood rows of `nodes`, in order; a node without edges is
    /// refused.
    pub fn graph_neighbourhoods(&mut self, nodes: &[NodeIdentity]) -> (res: Result<
        OwnedNeighbourhoods<(NodeIdentity, W)>,
        OracleError<InMemoryGraphError>,
    >)
        requires
            old(self).wf(),
        ensures
            final(self).wf(),
            final(self).graph_view() == old(self).graph_view(),
            res is Ok <==> all_present(old(self).graph_view(), nodes@),
            res matches Err(e) ==> e == OracleError::GraphError(InMemoryGraphError::MissingNode),
            res matches Ok(rows) ==> rows_list(old(self).graph_view(), nodes@, rows, Set::full()),
    {
        self.graph.graph_neighbourhoods(nodes)
    }

    /// The neighbourhood rows of `sources`, in order, each keeping only the
    /// neighbours among `targets`; a source without edges is refused.
    pub fn graph_neighbourhoods_intersecting(&mut self, sources: &[NodeIdentity], targets: &[NodeIdentity]) -> (res:
        Result<OwnedNeighbourhoods<(NodeIdentity, W)>, OracleError<InMemoryGraphError>>)
        requires
            old(self).wf(),
            forall|i: int| 0 <= i < targets@.len() ==> (#[trigger] targets@[i]).0 < usize::MAX,
        ensures
            final(self).wf(),
            final(self).graph_view() == old(self).graph_view(),
            res is Ok <==> all_present(old(self).graph_view(), sources@),
            res matches Err(e) ==> e == OracleError::GraphError(InMemoryGraphError::MissingNode),
            res matches Ok(rows) ==> rows_list(old(self).graph_view(), sources@, rows, node_positions_of(targets@)),
    {
        self.marker.mark_all(targets);
        proof {
            self.lemma_marked_targets(targets@);
        }
        match self.graph.rows_for(sources, RowFilter::Marked(&self.marker)) {
            Some(rows) => Ok(rows),
            None => Err(OracleError::GraphError(InMemoryGraphError::MissingNode)),
        }
    }

    /// The neighbourhood rows of `nodes`, in order, each keeping only the
    /// neighbours among `nodes` themselves; a node without edges is refused.
    pub fn coreset_neighbourhoods(&mut self, nodes: &[NodeIdentity]) -> (res: Result<
        OwnedNeighbourhoods<(NodeIdentity, W)>,
        OracleError<InMemoryGraphError>,
    >)
        requires
            old(self).wf(),
            forall|i: int| 0 <= i < nodes@.len() ==> (#[trigger] nodes@[i]).0 < usize::MAX,
        ensures
            final(self).wf(),
            final(self).graph_view() == old(self).graph_view(),
            res is Ok <==> all_present(old(self).graph_view(), nodes@),
            res matches Err(e) ==> e == OracleError::CoresetError(InMemoryGraphError::MissingNode),
            res matches Ok(rows) ==> rows_list(old(self).graph_view(), nodes@, rows, node_positions_of(nodes@)),
    {
        self.marker.mark_all(nodes);
        proof {
            self.lemma_marked_targets(nodes@);
        }
        match self.graph.rows_for(nodes, RowFilter::Marked(&self.marker)) {
            Some(rows) => Ok(rows),
            None => Err(OracleError::CoresetError(InMemoryGraphError::MissingNode)),
        }
    }

    /// The marked positions are the positions of `targets`.
    proof fn lemma_marked_targets(&self, targets: Seq<NodeIdentity>)
        requires
            forall|x: nat| #[trigger] self.marker.is_marked(x) <==> occurs(targets, x),
        ensures
            filter_targets(RowFilter::Marked(&self.marker)) == node_positions_of(targets),
    {
        assert(filter_targets(RowFilter::Marked(&self.marker)) =~= node_positions_of(targets)) by {
            assert forall|x: usize| #[trigger] node_positions_of(targets).contains(x) implies self.marker.is_marked(x as nat) by {
                let k = choose|k: int| 0 <= k < targets.len() && targets[k].0 == x;
                assert(occurs(targets, x as nat));
            }
        }
    }

    /// Visits, row by row in the order of `sources`, each neighbour of a
    /// source that occurs in `targets`, as `(row, first position in targets,
    /// neighbour, weight)`; a source without edges is refused.
    pub fn visit_graph_neighbourhoods_intersecting_with_target_indices(
        &mut self,
        sources: &[NodeIdentity],
        targets: &[NodeIdentity],
    ) -> (res: Result<Vec<(usize, usize, NodeIdentity, W)>, OracleError<InMemoryGraphError>>)
        requires
            old(self).wf(),
            forall|i: int| 0 <= i < targets@.len() ==> (#[trigger] targets@[i]).0 < usize::MAX,
        ensures
            final(self).wf(),
            final(self).graph_view() == old(self).graph_view(),
            res is Ok <==> all_present(old(self).graph_view(), sources@),
            res matches Err(e) ==> e == OracleError::GraphError(InMemoryGraphError::MissingNode),
            res matches Ok(visits) ==> visits_list(old(self).graph_view(), sources@, targets@, visits@),
    {
        self.marker.mark_all_with_ordinals(targets);
        proof {
            assert(targets@.len() == targets.len());
        }
        match self.graph.marked_visits(sources, &self.marker, Ghost(targets@)) {
            Some(visits) => Ok(visits),
            None => Err(OracleError::GraphError(InMemoryGraphError::MissingNode)),
        }
    }

    /// Visits, row by row in the order of `sources`, each neighbour of a
    /// source that occurs in `targets`, as `(row, neighbour, weight)`; a
    /// source without edges is refused.
    pub fn visit_graph_neighbourhoods_intersecting(&mut self, sources: &[NodeIdentity], targets: &[NodeIdentity]) -> (res:
        Result<Vec<(usize, NodeIdentity, W)>, OracleError<InMemoryGraphError>>)
        requires
            old(self).wf(),
            forall|i: int| 0 <= i < targets@.len() ==> (#[trigger] targets@[i]).0 < usize::MAX,
        ensures
            final(self).wf(),
            final(self).graph_view() == old(self).graph_view(),
            res is Ok <==> all_present(old(self).graph_view(), sources@),
            res matches Err(e) ==> e == OracleError::GraphError(InMemoryGraphError::MissingNode),
            res matches Ok(visits) ==> exists|full: Seq<(usize, usize, NodeIdentity, W)>|
                #[trigger] visits_list(old(self).graph_view(), sources@, targets@, full) && visits@ == full.map_values(
                    |v: (usize, usize, NodeIdentity, W)| (v.0, v.2, v.3),
                ),
    {
        let full = self.visit_graph_neighbourhoods_intersecting_with_target_indices(sources, targets)?;
        let mut out: Vec<(usize, NodeIdentity, W)> = Vec::new();
        let mut i: usize = 0;
        while i < full.len()
            invariant
                i <= full@.len(),
                out@ == full@.take(i as int).map_values(|v: (usize, usize, NodeIdentity, W)| (v.0, v.2, v.3)),
            decreases full@.len() - i,
        {
            let (r, _, y, w) = full[i];
            out.push((r, y, w));
            proof {
                assert(full@.take(i + 1) =~= full@.take(i as int).push(full@[i as int]));
                assert(out@ =~= full@.take(i + 1).map_values(|v: (usize, usize, NodeIdentity, W)| (v.0, v.2, v.3)));
            }
            i += 1;
        }
        proof {
            assert(full@.take(full@.len() as int) =~= full@);
        }
        Ok(out)
    }

    /// Visits, row by row in the order of `nodes`, each neighbour of a node
    /// that is itself among `nodes`, as `(row, first position in nodes,
    /// neighbour, weight)`; a node without edges is refused.
    pub fn visit_coreset_neighbourhoods_with_target_indices(&mut self, nodes: &[NodeIdentity]) -> (res: Result<
        Vec<(usize, usize, NodeIdentity, W)>,
        OracleError<InMemoryGraphError>,
    >)
        requires
            old(self).wf(),
            forall|i: int| 0 <= i < nodes@.len() ==> (#[trigger] nodes@[i]).0 < usize::MAX,
        ensures
            final(self).wf(),
            final(self).graph_view() == old(self).graph_view(),
            res is Ok <==> all_present(old(self).graph_view(), nodes@),
            res matches Err(e) ==> e == OracleError::CoresetError(InMemoryGraphError::MissingNode),
            res matches Ok(visits) ==> visits_list(old(self).graph_view(), nodes@, nodes@, visits@),
    {
        self.marker.mark_all_with_ordinals(nodes);
        proof {
            assert(nodes@.len() == nodes.len());
        }
        match self.graph.marked_visits(nodes, &self.marker, Ghost(nodes@)) {
            Some(visits) => Ok(visits),
            None => Err(OracleError::CoresetError(InMemoryGraphError::MissingNode)),
        }
    }
}

} // verus!
