use vstd::prelude::*;

use crate::error::InMemoryGraphError;
use crate::ids::NodeIdentity;
use crate::in_memory_graph::{same_pair, with_touched, InMemoryUndirectedGraph};

verus! {

/// One edge change of a replayed workload.
#[derive(Debug, Clone, Copy)]
pub enum SbmEdgeOp<W> {
    /// Insert the edge, or overwrite its weight.
    SetWeight { u: usize, v: usize, weight: W },
    /// Remove the edge; removing an absent edge changes nothing.
    Delete { u: usize, v: usize },
}

/// The change names two different endpoints.
pub open spec fn distinct_endpoints<W>(op: SbmEdgeOp<W>) -> bool {
    match op {
        SbmEdgeOp::SetWeight { u, v, .. } => u != v,
        SbmEdgeOp::Delete { u, v } => u != v,
    }
}

/// Weight of the edge between `x` and `y` once `ops` were applied to `g`,
/// or `None` when there is no such edge.
pub open spec fn edge_after<W>(
    g: InMemoryUndirectedGraph<W>,
    ops: Seq<SbmEdgeOp<W>>,
    x: usize,
    y: usize,
) -> Option<W>
    decreases ops.len(),
{
    if ops.len() == 0 {
        if g.has_edge(x, y) {
            Some(g.weight(x, y))
        } else {
            None
        }
    } else {
        let before = edge_after(g, ops.drop_last(), x, y);
        match ops.last() {
            SbmEdgeOp::SetWeight { u, v, weight } => if same_pair(x, y, u, v) {
                Some(weight)
            } else {
                before
            },
            SbmEdgeOp::Delete { u, v } => if same_pair(x, y, u, v) {
                None
            } else {
                before
            },
        }
    }
}

/// Nodes recorded as changed once `ops` were applied to `g`: each change
/// records both endpoints, except the removal of an absent edge.
pub open spec fn changed_after<W>(g: InMemoryUndirectedGraph<W>, ops: Seq<SbmEdgeOp<W>>) -> Seq<
    NodeIdentity,
>
    decreases ops.len(),
{
    if ops.len() == 0 {
        g.pending()
    } else {
        let before = changed_after(g, ops.drop_last());
        match ops.last() {
            SbmEdgeOp::SetWeight { u, v, .. } => with_touched(
                with_touched(before, NodeIdentity(u)),
                NodeIdentity(v),
            ),
            SbmEdgeOp::Delete { u, v } => if edge_after(g, ops.drop_last(), u, v) is Some {
                with_touched(with_touched(before, NodeIdentity(u)), NodeIdentity(v))
            } else {
                before
            },
        }
    }
}

/// `new` is `old` with `ops` applied: its edges, weights and changed nodes
/// are those that the changes leave, its buffer limit is kept, and a node
/// is present exactly when it has an edge.
pub open spec fn applied<W>(
    old: InMemoryUndirectedGraph<W>,
    new: InMemoryUndirectedGraph<W>,
    ops: Seq<SbmEdgeOp<W>>,
) -> bool {
    &&& forall|x: usize, y: usize| #[trigger] new.has_edge(x, y) <==> edge_after(old, ops, x, y) is Some
    &&& forall|x: usize, y: usize|
        #[trigger] new.has_edge(x, y) ==> new.weight(x, y) == edge_after(old, ops, x, y)->0
    &&& new.pending() == changed_after(old, ops)
    &&& new.limit() == old.limit()
    &&& forall|x: usize| #[trigger] new.has_node(x) <==> exists|y: usize| #[trigger] new.has_edge(x, y)
}

/// One more change acts on the state that the earlier changes left.
pub proof fn lemma_step<W>(g: InMemoryUndirectedGraph<W>, ops: Seq<SbmEdgeOp<W>>, op: SbmEdgeOp<W>)
    ensures
        forall|x: usize, y: usize|
            #[trigger] edge_after(g, ops.push(op), x, y) == match op {
                SbmEdgeOp::SetWeight { u, v, weight } => if same_pair(x, y, u, v) {
                    Some(weight)
                } else {
                    edge_after(g, ops, x, y)
                },
                SbmEdgeOp::Delete { u, v } => if same_pair(x, y, u, v) {
                    None
                } else {
                    edge_after(g, ops, x, y)
                },
            },
        changed_after(g, ops.push(op)) == match op {
            SbmEdgeOp::SetWeight { u, v, .. } => with_touched(
                with_touched(changed_after(g, ops), NodeIdentity(u)),
                NodeIdentity(v),
            ),
            SbmEdgeOp::Delete { u, v } => if edge_after(g, ops, u, v) is Some {
                with_touched(with_touched(changed_after(g, ops), NodeIdentity(u)), NodeIdentity(v))
            } else {
                changed_after(g, ops)
            },
        },
{
    assert(ops.push(op).drop_last() =~= ops);
    assert(ops.push(op).last() == op);
}

impl<W: Copy> SbmEdgeOp<W> {
    /// Applies the change to `graph`. A self loop is refused and leaves the
    /// graph as it was; removing an absent edge succeeds and changes nothing.
    pub fn apply_to_graph(self, graph: &mut InMemoryUndirectedGraph<W>) -> (res: Result<
        (),
        InMemoryGraphError,
    >)
        requires
            old(graph).wf(),
        ensures
            final(graph).wf(),
            res is Ok <==> distinct_endpoints(self),
            res is Err ==> res == Err::<(), InMemoryGraphError>(InMemoryGraphError::SelfLoop)
                && *final(graph) == *old(graph),
            res is Ok ==> applied(*old(graph), *final(graph), seq![self]),
    {
        let ghost g0 = *graph;
        let ghost ops = seq![self];
        proof {
            assert(ops =~= Seq::<SbmEdgeOp<W>>::empty().push(self));
            lemma_step(g0, Seq::<SbmEdgeOp<W>>::empty(), self);
            assert(changed_after(g0, Seq::<SbmEdgeOp<W>>::empty()) == g0.pending());
            assert forall|x: usize, y: usize| #[trigger] edge_after(g0, Seq::<SbmEdgeOp<W>>::empty(), x, y)
                == if g0.has_edge(x, y) {
                Some(g0.weight(x, y))
            } else {
                None
            } by {}
            g0.lemma_undirected();
        }
        match self {
            SbmEdgeOp::SetWeight { u, v, weight } => graph.update_edge(
                NodeIdentity(u),
                NodeIdentity(v),
                Some(weight),
            ),
            SbmEdgeOp::Delete { u, v } => match graph.update_edge(
                NodeIdentity(u),
                NodeIdentity(v),
                None,
            ) {
                Ok(()) => Ok(()),
                Err(InMemoryGraphError::MissingEdge) => {
                    proof {
                        assert forall|x: usize, y: usize| #[trigger] graph.has_edge(x, y)
                            <==> edge_after(g0, ops, x, y) is Some by {
                            if same_pair(x, y, u, v) && g0.has_edge(x, y) {
                                assert(g0.has_edge(y, x));
                            }
                        }
                    }
                    Ok(())
                },
                Err(e) => Err(e),
            },
        }
    }
}

/// Applying one more change to a graph that holds the result of `ops`
/// gives the result of `ops` followed by that change.
proof fn lemma_applied_step<W>(
    g0: InMemoryUndirectedGraph<W>,
    gk: InMemoryUndirectedGraph<W>,
    gk1: InMemoryUndirectedGraph<W>,
    ops: Seq<SbmEdgeOp<W>>,
    op: SbmEdgeOp<W>,
)
    requires
        applied(g0, gk, ops),
        applied(gk, gk1, seq![op]),
    ensures
        applied(g0, gk1, ops.push(op)),
{
    let empty = Seq::<SbmEdgeOp<W>>::empty();
    assert(seq![op] =~= empty.push(op));
    lemma_step(gk, empty, op);
    lemma_step(g0, ops, op);
    assert forall|x: usize, y: usize| #[trigger] edge_after(gk, empty, x, y) == edge_after(
        g0,
        ops,
        x,
        y,
    ) by {}
    assert(changed_after(gk, empty) == gk.pending());
    assert forall|x: usize, y: usize| #[trigger] edge_after(gk, seq![op], x, y) == edge_after(
        g0,
        ops.push(op),
        x,
        y,
    ) by {
        assert(edge_after(gk, empty, x, y) == edge_after(g0, ops, x, y));
    }
    match op {
        SbmEdgeOp::SetWeight { u, v, .. } => {},
        SbmEdgeOp::Delete { u, v } => {
            assert(edge_after(gk, empty, u, v) == edge_after(g0, ops, u, v));
        },
    }
}

/// Edge and node changes that a workload applies at one time step.
pub struct SbmUpdateBatch<W> {
    pub time: i64,
    pub edge_ops: Vec<SbmEdgeOp<W>>,
    pub node_ops: Vec<(usize, Option<W>)>,
}

/// Every change of `ops` names two different endpoints.
pub open spec fn all_distinct_endpoints<W>(ops: Seq<SbmEdgeOp<W>>) -> bool {
    forall|j: int| 0 <= j < ops.len() ==> #[trigger] distinct_endpoints(ops[j])
}

impl<W: Copy> SbmUpdateBatch<W> {
    /// Applies the edge changes in order. The first self loop stops the
    /// replay with a `SelfLoop` error; the changes before it stay applied.
    pub fn apply_to_graph(&self, graph: &mut InMemoryUndirectedGraph<W>) -> (res: Result<
        (),
        InMemoryGraphError,
    >)
        requires
            old(graph).wf(),
        ensures
            final(graph).wf(),
            res is Ok <==> all_distinct_endpoints(self.edge_ops@),
            res is Ok ==> applied(*old(graph), *final(graph), self.edge_ops@),
            res is Err ==> res == Err::<(), InMemoryGraphError>(InMemoryGraphError::SelfLoop)
                && exists|k: int|
                0 <= k < self.edge_ops@.len() && all_distinct_endpoints(self.edge_ops@.take(k))
                    && !distinct_endpoints(self.edge_ops@[k]) && applied(
                    *old(graph),
                    *final(graph),
                    self.edge_ops@.take(k),
                ),
    {
        let ghost g0 = *graph;
        let ghost ops = self.edge_ops@;
        proof {
            g0.lemma_undirected();
            assert(ops.take(0) =~= Seq::<SbmEdgeOp<W>>::empty());
            assert forall|x: usize, y: usize| #[trigger] edge_after(g0, ops.take(0), x, y)
                == if g0.has_edge(x, y) {
                Some(g0.weight(x, y))
            } else {
                None
            } by {}
            assert(changed_after(g0, ops.take(0)) == g0.pending());
        }
        let mut k: usize = 0;
        while k < self.edge_ops.len()
            invariant
                k <= self.edge_ops.len(),
                ops == self.edge_ops@,
                g0 == *old(graph),
                graph.wf(),
                all_distinct_endpoints(ops.take(k as int)),
                applied(g0, *graph, ops.take(k as int)),
            decreases self.edge_ops.len() - k,
        {
            let op = self.edge_ops[k];
            let ghost gk = *graph;
            match op.apply_to_graph(graph) {
                Ok(()) => {
                    proof {
                        lemma_applied_step(g0, gk, *graph, ops.take(k as int), op);
                        assert(ops.take(k + 1) =~= ops.take(k as int).push(op));
                        assert forall|j: int| 0 <= j < k + 1 implies #[trigger] distinct_endpoints(
                            ops.take(k + 1)[j],
                        ) by {
                            if j < k {
                                assert(ops.take(k + 1)[j] == ops.take(k as int)[j]);
                            }
                        }
                    }
                },
                Err(e) => {
                    proof {
                        assert(!all_distinct_endpoints(ops)) by {
                            assert(!distinct_endpoints(ops[k as int]));
                        }
                        assert(applied(g0, *graph, self.edge_ops@.take(k as int)));
                    }
                    return Err(e);
                },
            }
            k += 1;
        }
        proof {
            assert(ops.take(ops.len() as int) =~= ops);
        }
        Ok(())
    }

    /// Applies the edge changes as `apply_to_graph` does and, when all of
    /// them succeed, hands out the nodes recorded as changed and empties the
    /// change buffer.
    pub fn apply_to_graph_and_flush_node_ops(&self, graph: &mut InMemoryUndirectedGraph<W>) -> (res:
        Result<Vec<NodeIdentity>, InMemoryGraphError>)
        requires
            old(graph).wf(),
        ensures
            final(graph).wf(),
            res is Ok <==> all_distinct_endpoints(self.edge_ops@),
            res matches Ok(nodes) ==> {
                &&& nodes@ == changed_after(*old(graph), self.edge_ops@)
                &&& final(graph).pending().len() == 0
                &&& final(graph).limit() == old(graph).limit()
                &&& forall|x: usize, y: usize| #[trigger] final(graph).has_edge(x, y)
                    <==> edge_after(*old(graph), self.edge_ops@, x, y) is Some
                &&& forall|x: usize, y: usize| #[trigger] final(graph).has_edge(x, y)
                    ==> final(graph).weight(x, y) == edge_after(*old(graph), self.edge_ops@, x, y)->0
            },
            res is Err ==> res == Err::<Vec<NodeIdentity>, InMemoryGraphError>(
                InMemoryGraphError::SelfLoop,
            ) && exists|k: int|
                0 <= k < self.edge_ops@.len() && all_distinct_endpoints(self.edge_ops@.take(k))
                    && !distinct_endpoints(self.edge_ops@[k]) && applied(
                    *old(graph),
                    *final(graph),
                    self.edge_ops@.take(k),
                ),
    {
        match self.apply_to_graph(graph) {
            Ok(()) => Ok(graph.take_changed_nodes()),
            Err(e) => Err(e),
        }
    }
}

} // verus!
