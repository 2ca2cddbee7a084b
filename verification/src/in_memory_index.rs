use vstd::prelude::*;

use crate::config::EdgeUpdateStats;
use crate::error::{InMemoryGraphError, InMemoryIndexError};
use crate::ids::NodeIdentity;
use crate::in_memory_graph::{same_pair, with_touched, InMemoryUndirectedGraph};
use crate::interner::NodeInterner;
use crate::leaf_tree::{deletions_in, fresh_in, lemma_classified_members, names_node, LeafTree};

verus! {

/// An in-memory index: external node ids are interned to dense identities,
/// the edges live in an undirected graph over the identities, and the leaf
/// tree of the dynamic clustering keeps one leaf per live identity once the
/// buffered node changes are applied.
pub struct InMemoryIndex<const ARITY: usize, W> {
    interner: NodeInterner,
    graph: InMemoryUndirectedGraph<W>,
    tree: LeafTree<ARITY>,
}

/// Membership of `x` in `with_touched(with_touched(p, a), b)`.
proof fn lemma_touched_contains(p: Seq<NodeIdentity>, a: NodeIdentity, b: NodeIdentity, x: NodeIdentity)
    ensures
        with_touched(with_touched(p, a), b).contains(x) <==> p.contains(x) || x == a || x == b,
{
    let p1 = with_touched(p, a);
    if !p.contains(a) {
        assert(p1 == p.push(a));
        assert(p1[p.len() as int] == a);
        if p.contains(x) {
            let j = choose|j: int| 0 <= j < p.len() && p[j] == x;
            assert(p1[j] == x);
        }
        if p1.contains(x) && x != a {
            let j = choose|j: int| 0 <= j < p1.len() && p1[j] == x;
            assert(p[j] == x);
        }
    }
    let p2 = with_touched(p1, b);
    if !p1.contains(b) {
        assert(p2 == p1.push(b));
        assert(p2[p1.len() as int] == b);
        if p1.contains(x) {
            let j = choose|j: int| 0 <= j < p1.len() && p1[j] == x;
            assert(p2[j] == x);
        }
        if p2.contains(x) && x != b {
            let j = choose|j: int| 0 <= j < p2.len() && p2[j] == x;
            assert(p1[j] == x);
        }
    }
}

/// `id` was released by the first `k` changed nodes: one of them is `id`
/// and it has no edge left.
pub open spec fn released_among<W>(
    graph: InMemoryUndirectedGraph<W>,
    changed: Seq<NodeIdentity>,
    k: int,
    id: NodeIdentity,
) -> bool {
    exists|j: int| 0 <= j < k && changed[j] == id && !graph.has_node(id.0)
}

/// One change of a batch of edge changes between external nodes.
#[derive(Debug, Clone, Copy)]
pub enum EdgeUpdate<W> {
    /// Insert the undirected edge, or overwrite its weight.
    SetWeight { u: usize, v: usize, weight: W },
    /// Remove the undirected edge if it is there.
    Delete { u: usize, v: usize },
}

/// The change names one node twice.
pub open spec fn is_self_loop<W>(update: EdgeUpdate<W>) -> bool {
    match update {
        EdgeUpdate::SetWeight { u, v, .. } => u == v,
        EdgeUpdate::Delete { u, v } => u == v,
    }
}

/// Whether the edge between external nodes `x` and `y` is there once
/// `updates` were applied in order, where `before` tells which edges were
/// there at the start.
pub open spec fn edge_after_updates<W>(
    before: spec_fn(usize, usize) -> bool,
    updates: Seq<EdgeUpdate<W>>,
    x: usize,
    y: usize,
) -> bool
    decreases updates.len(),
{
    if updates.len() == 0 {
        before(x, y)
    } else {
        match updates.last() {
            EdgeUpdate::SetWeight { u, v, .. } => same_pair(x, y, u, v) || edge_after_updates(
                before,
                updates.drop_last(),
                x,
                y,
            ),
            EdgeUpdate::Delete { u, v } => !same_pair(x, y, u, v) && edge_after_updates(
                before,
                updates.drop_last(),
                x,
                y,
            ),
        }
    }
}

/// Weight of the edge between external nodes `x` and `y` once `updates`
/// were applied in order, where `before` gives the weights at the start:
/// the weight of the last change that set it, or its weight before.
pub open spec fn weight_after_updates<W>(
    before: spec_fn(usize, usize) -> W,
    updates: Seq<EdgeUpdate<W>>,
    x: usize,
    y: usize,
) -> W
    decreases updates.len(),
{
    if updates.len() == 0 {
        before(x, y)
    } else {
        match updates.last() {
            EdgeUpdate::SetWeight { u, v, weight } => if same_pair(x, y, u, v) {
                weight
            } else {
                weight_after_updates(before, updates.drop_last(), x, y)
            },
            EdgeUpdate::Delete { .. } => weight_after_updates(before, updates.drop_last(), x, y),
        }
    }
}

/// The change names the pair `x`, `y`, in either order.
pub open spec fn touches<W>(update: EdgeUpdate<W>, x: usize, y: usize) -> bool {
    match update {
        EdgeUpdate::SetWeight { u, v, .. } => same_pair(x, y, u, v),
        EdgeUpdate::Delete { u, v } => same_pair(x, y, u, v),
    }
}

/// Changes from position `k` on that leave the pair `x`, `y` alone do not
/// change what the pair ends with.
proof fn lemma_untouched_suffix<W>(
    before_edges: spec_fn(usize, usize) -> bool,
    before_weights: spec_fn(usize, usize) -> W,
    updates: Seq<EdgeUpdate<W>>,
    k: int,
    x: usize,
    y: usize,
)
    requires
        0 <= k <= updates.len(),
        forall|j: int| k <= j < updates.len() ==> !touches(#[trigger] updates[j], x, y),
    ensures
        edge_after_updates(before_edges, updates, x, y) == edge_after_updates(
            before_edges,
            updates.take(k),
            x,
            y,
        ),
        weight_after_updates(before_weights, updates, x, y) == weight_after_updates(
            before_weights,
            updates.take(k),
            x,
            y,
        ),
    decreases updates.len(),
{
    if updates.len() == k {
        assert(updates.take(k) =~= updates);
    } else {
        let rest = updates.drop_last();
        assert(!touches(updates[updates.len() - 1], x, y));
        assert(rest.take(k) =~= updates.take(k));
        assert forall|j: int| k <= j < rest.len() implies !touches(#[trigger] rest[j], x, y) by {
            assert(rest[j] == updates[j]);
        }
        lemma_untouched_suffix(before_edges, before_weights, rest, k, x, y);
    }
}

/// Number of changes in `updates` that set a weight.
pub open spec fn sets_in<W>(updates: Seq<EdgeUpdate<W>>) -> nat
    decreases updates.len(),
{
    if updates.len() == 0 {
        0
    } else {
        sets_in(updates.drop_last()) + if updates.last() is SetWeight {
            1nat
        } else {
            0nat
        }
    }
}

/// Number of removals in `updates` that found their edge, the changes being
/// applied in order from the edges that `before` tells.
pub open spec fn removals_found<W>(before: spec_fn(usize, usize) -> bool, updates: Seq<EdgeUpdate<W>>) -> nat
    decreases updates.len(),
{
    if updates.len() == 0 {
        0
    } else {
        removals_found(before, updates.drop_last()) + match updates.last() {
            EdgeUpdate::Delete { u, v } => if edge_after_updates(before, updates.drop_last(), u, v) {
                1nat
            } else {
                0nat
            },
            EdgeUpdate::SetWeight { .. } => 0nat,
        }
    }
}

/// `new` is `old` with `updates` applied in order, as seen through
/// external ids: its edges are those the changes leave, and each edge has
/// the weight that the last change setting it gave, or its old weight.
pub open spec fn batch_applied<const ARITY: usize, W: Copy>(
    old: InMemoryIndex<ARITY, W>,
    new: InMemoryIndex<ARITY, W>,
    updates: Seq<EdgeUpdate<W>>,
) -> bool {
    &&& forall|x: usize, y: usize| #[trigger]
        new.has_edge(x, y) <==> edge_after_updates(|a: usize, b: usize| old.has_edge(a, b), updates, x, y)
    &&& forall|x: usize, y: usize| #[trigger]
        new.has_edge(x, y) ==> new.edge_weight(x, y) == weight_after_updates(
            |a: usize, b: usize| old.edge_weight(a, b),
            updates,
            x,
            y,
        )
}

/// After a batch, a pair whose last change set a weight is an edge with
/// that weight, in either order of its endpoints.
pub proof fn lemma_batch_last_set_wins<const ARITY: usize, W: Copy>(
    old: InMemoryIndex<ARITY, W>,
    new: InMemoryIndex<ARITY, W>,
    updates: Seq<EdgeUpdate<W>>,
    k: int,
    u: usize,
    v: usize,
    weight: W,
)
    requires
        batch_applied(old, new, updates),
        0 <= k < updates.len(),
        updates[k] == (EdgeUpdate::SetWeight { u, v, weight }),
        forall|j: int| k < j < updates.len() ==> !touches(#[trigger] updates[j], u, v),
    ensures
        new.has_edge(u, v),
        new.edge_weight(u, v) == weight,
        new.has_edge(v, u),
        new.edge_weight(v, u) == weight,
{
    let be = |a: usize, b: usize| old.has_edge(a, b);
    let bw = |a: usize, b: usize| old.edge_weight(a, b);
    let head = updates.take(k + 1);
    assert(head.drop_last() =~= updates.take(k));
    assert(head.last() == updates[k]);
    lemma_untouched_suffix(be, bw, updates, k + 1, u, v);
    assert forall|j: int| k + 1 <= j < updates.len() implies !touches(#[trigger] updates[j], v, u) by {
        assert(!touches(updates[j], u, v));
    }
    lemma_untouched_suffix(be, bw, updates, k + 1, v, u);
}

/// After a batch, a pair whose last change removed it is no edge.
pub proof fn lemma_batch_last_delete_removes<const ARITY: usize, W: Copy>(
    old: InMemoryIndex<ARITY, W>,
    new: InMemoryIndex<ARITY, W>,
    updates: Seq<EdgeUpdate<W>>,
    k: int,
    u: usize,
    v: usize,
)
    requires
        batch_applied(old, new, updates),
        0 <= k < updates.len(),
        updates[k] == (EdgeUpdate::<W>::Delete { u, v }),
        forall|j: int| k < j < updates.len() ==> !touches(#[trigger] updates[j], u, v),
    ensures
        !new.has_edge(u, v),
        !new.has_edge(v, u),
{
    let be = |a: usize, b: usize| old.has_edge(a, b);
    let bw = |a: usize, b: usize| old.edge_weight(a, b);
    let head = updates.take(k + 1);
    assert(head.drop_last() =~= updates.take(k));
    assert(head.last() == updates[k]);
    lemma_untouched_suffix(be, bw, updates, k + 1, u, v);
    assert forall|j: int| k + 1 <= j < updates.len() implies !touches(#[trigger] updates[j], v, u) by {
        assert(!touches(updates[j], u, v));
    }
    lemma_untouched_suffix(be, bw, updates, k + 1, v, u);
}

/// After a batch, a pair that no change names keeps its edge and weight.
pub proof fn lemma_batch_untouched_kept<const ARITY: usize, W: Copy>(
    old: InMemoryIndex<ARITY, W>,
    new: InMemoryIndex<ARITY, W>,
    updates: Seq<EdgeUpdate<W>>,
    x: usize,
    y: usize,
)
    requires
        batch_applied(old, new, updates),
        forall|j: int| 0 <= j < updates.len() ==> !touches(#[trigger] updates[j], x, y),
    ensures
        new.has_edge(x, y) == old.has_edge(x, y),
        old.has_edge(x, y) ==> new.edge_weight(x, y) == old.edge_weight(x, y),
{
    let be = |a: usize, b: usize| old.has_edge(a, b);
    let bw = |a: usize, b: usize| old.edge_weight(a, b);
    lemma_untouched_suffix(be, bw, updates, 0, x, y);
    assert(updates.take(0) =~= Seq::<EdgeUpdate<W>>::empty());
}

impl<const ARITY: usize, W: Copy> InMemoryIndex<ARITY, W> {
    /// The mapping between external ids and identities.
    pub closed spec fn interner_view(&self) -> NodeInterner {
        self.interner
    }

    /// The graph over identities.
    pub closed spec fn graph_view(&self) -> InMemoryUndirectedGraph<W> {
        self.graph
    }

    /// The leaf tree of the clustering.
    pub closed spec fn tree_view(&self) -> LeafTree<ARITY> {
        self.tree
    }

    /// External node `x` is interned and has an edge.
    pub open spec fn is_live(&self, x: usize) -> bool {
        let ids = self.interner_view().mapping();
        ids.contains_key(x) && self.graph_view().has_node(ids[x].0)
    }

    /// There is an edge between external nodes `u` and `v`.
    pub open spec fn has_edge(&self, u: usize, v: usize) -> bool {
        let ids = self.interner_view().mapping();
        ids.contains_key(u) && ids.contains_key(v) && self.graph_view().has_edge(ids[u].0, ids[v].0)
    }

    /// Weight stored for the edge between external nodes `u` and `v`;
    /// meaningful when `has_edge(u, v)`.
    pub open spec fn edge_weight(&self, u: usize, v: usize) -> W {
        let ids = self.interner_view().mapping();
        self.graph_view().weight(ids[u].0, ids[v].0)
    }

    /// Every part is well formed, every live identity is held by an
    /// external id, and the tree holds exactly the live identities among
    /// those whose changes are not buffered.
    pub closed spec fn wf(&self) -> bool {
        &&& self.interner.wf()
        &&& self.graph.wf()
        &&& self.tree.wf()
        &&& forall|x: usize| #[trigger] self.graph.has_node(x) ==> self.interner.holds(NodeIdentity(x))
        &&& forall|x: usize|
            #![trigger self.tree.placement().contains_key(x)]
            #![trigger self.graph.has_node(x)]
            !self.graph.pending().contains(NodeIdentity(x)) ==> (self.tree.placement().contains_key(x)
                <==> self.graph.has_node(x))
    }

    /// Seen through external ids, a change of the edge between `u` and `v`
    /// that keeps every earlier id and interns at most `u` and `v` changes
    /// that edge alone.
    proof fn lemma_external_edge_change(old_idx: Self, new_idx: Self, u: usize, v: usize, set: bool)
        requires
            old_idx.wf(),
            new_idx.wf(),
            ({
                let ids = new_idx.interner_view().mapping();
                let old_ids = old_idx.interner_view().mapping();
                &&& ids.contains_key(u) && ids.contains_key(v)
                &&& forall|e: usize| #[trigger]
                    old_ids.contains_key(e) ==> ids.contains_key(e) && ids[e] == old_ids[e]
                &&& forall|e: usize| #[trigger] ids.contains_key(e) ==> old_ids.contains_key(e) || e == u || e == v
                &&& forall|x: usize, y: usize| #[trigger] new_idx.graph_view().has_edge(x, y) <==> if same_pair(
                    x,
                    y,
                    ids[u].0,
                    ids[v].0,
                ) {
                    set
                } else {
                    old_idx.graph_view().has_edge(x, y)
                }
            }),
        ensures
            forall|x: usize, y: usize| #[trigger]
                new_idx.has_edge(x, y) <==> if same_pair(x, y, u, v) {
                    set
                } else {
                    old_idx.has_edge(x, y)
                },
    {
        let ids = new_idx.interner_view().mapping();
        let old_ids = old_idx.interner_view().mapping();
        new_idx.interner.lemma_injective();
        old_idx.graph.lemma_undirected();
        assert forall|x: usize, y: usize| #[trigger]
            new_idx.has_edge(x, y) <==> if same_pair(x, y, u, v) {
                set
            } else {
                old_idx.has_edge(x, y)
            } by {
            if ids.contains_key(x) && ids.contains_key(y) {
                let p = ids[x].0;
                let q = ids[y].0;
                assert(same_pair(p, q, ids[u].0, ids[v].0) <==> same_pair(x, y, u, v)) by {
                    if p == ids[u].0 {
                        assert(NodeIdentity(p) == ids[x]);
                    }
                    if p == ids[v].0 {
                        assert(NodeIdentity(p) == ids[x]);
                    }
                    if q == ids[u].0 {
                        assert(NodeIdentity(q) == ids[y]);
                    }
                    if q == ids[v].0 {
                        assert(NodeIdentity(q) == ids[y]);
                    }
                }
                if old_idx.graph.has_edge(p, q) {
                    assert(old_idx.graph.has_node(p));
                    assert(old_idx.graph.has_node(q)) by {
                        assert(old_idx.graph.has_edge(q, p));
                    }
                    let e = choose|e: usize| #[trigger] old_ids.contains_key(e) && old_ids[e] == NodeIdentity(p);
                    let f = choose|f: usize| #[trigger] old_ids.contains_key(f) && old_ids[f] == NodeIdentity(q);
                    assert(NodeIdentity(p) == ids[x]);
                    assert(NodeIdentity(q) == ids[y]);
                    assert(ids[e] == ids[x]);
                    assert(ids[f] == ids[y]);
                    assert(old_ids.contains_key(x) && old_ids.contains_key(y));
                }
                if old_ids.contains_key(x) && old_ids.contains_key(y) {
                    assert(old_ids[x] == ids[x] && old_ids[y] == ids[y]);
                }
            } else {
                if ids.contains_key(x) {
                    assert(!ids.contains_key(y));
                    assert(!old_ids.contains_key(y));
                } else if old_ids.contains_key(x) {
                    assert(ids.contains_key(x));
                }
            }
        }
    }

    /// Seen through external ids, the weights after a change of the edge
    /// between `u` and `v`: that edge gets the new weight, every other edge
    /// keeps its weight.
    proof fn lemma_external_weight_change(old_idx: Self, new_idx: Self, u: usize, v: usize, weight: Option<W>)
        requires
            old_idx.wf(),
            new_idx.wf(),
            ({
                let ids = new_idx.interner_view().mapping();
                let old_ids = old_idx.interner_view().mapping();
                &&& ids.contains_key(u) && ids.contains_key(v)
                &&& forall|e: usize| #[trigger]
                    old_ids.contains_key(e) ==> ids.contains_key(e) && ids[e] == old_ids[e]
                &&& forall|e: usize| #[trigger] ids.contains_key(e) ==> old_ids.contains_key(e) || e == u || e == v
                &&& forall|x: usize, y: usize| #[trigger] new_idx.graph_view().has_edge(x, y) <==> if same_pair(
                    x,
                    y,
                    ids[u].0,
                    ids[v].0,
                ) {
                    weight is Some
                } else {
                    old_idx.graph_view().has_edge(x, y)
                }
                &&& forall|x: usize, y: usize| #[trigger] new_idx.graph_view().has_edge(x, y)
                    ==> new_idx.graph_view().weight(x, y) == if same_pair(x, y, ids[u].0, ids[v].0) {
                    weight->0
                } else {
                    old_idx.graph_view().weight(x, y)
                }
            }),
        ensures
            forall|x: usize, y: usize| #[trigger]
                new_idx.has_edge(x, y) ==> new_idx.edge_weight(x, y) == if same_pair(x, y, u, v) {
                    weight->0
                } else {
                    old_idx.edge_weight(x, y)
                },
    {
        let ids = new_idx.interner_view().mapping();
        let old_ids = old_idx.interner_view().mapping();
        new_idx.interner.lemma_injective();
        old_idx.graph.lemma_undirected();
        assert forall|x: usize, y: usize| #[trigger]
            new_idx.has_edge(x, y) implies new_idx.edge_weight(x, y) == if same_pair(x, y, u, v) {
                weight->0
            } else {
                old_idx.edge_weight(x, y)
            } by {
            let p = ids[x].0;
            let q = ids[y].0;
            assert(same_pair(p, q, ids[u].0, ids[v].0) <==> same_pair(x, y, u, v)) by {
                if p == ids[u].0 {
                    assert(NodeIdentity(p) == ids[x]);
                }
                if p == ids[v].0 {
                    assert(NodeIdentity(p) == ids[x]);
                }
                if q == ids[u].0 {
                    assert(NodeIdentity(q) == ids[y]);
                }
                if q == ids[v].0 {
                    assert(NodeIdentity(q) == ids[y]);
                }
            }
            if !same_pair(x, y, u, v) {
                assert(old_idx.graph.has_edge(p, q));
                assert(old_idx.graph.has_node(p));
                assert(old_idx.graph.has_node(q)) by {
                    assert(old_idx.graph.has_edge(q, p));
                }
                let e = choose|e: usize| #[trigger] old_ids.contains_key(e) && old_ids[e] == NodeIdentity(p);
                let f = choose|f: usize| #[trigger] old_ids.contains_key(f) && old_ids[f] == NodeIdentity(q);
                assert(NodeIdentity(p) == ids[x]);
                assert(NodeIdentity(q) == ids[y]);
                assert(ids[e] == ids[x]);
                assert(ids[f] == ids[y]);
                assert(old_ids.contains_key(x) && old_ids.contains_key(y));
                assert(old_ids[x] == ids[x] && old_ids[y] == ids[y]);
            }
        }
    }

    /// Every live identity is held by an external id.
    pub proof fn lemma_live_nodes_have_ids(&self)
        requires
            self.wf(),
        ensures
            forall|x: usize| #[trigger]
                self.graph_view().has_node(x) ==> self.interner_view().holds(NodeIdentity(x)),
    {
    }

    /// Once no node change waits, the clustering tree holds exactly the
    /// live identities.
    pub proof fn lemma_tree_holds_live_nodes(&self)
        requires
            self.wf(),
            self.graph_view().pending().len() == 0,
        ensures
            forall|x: usize| #[trigger]
                self.tree_view().placement().contains_key(x) <==> self.graph_view().has_node(x),
    {
        assert forall|x: usize| #[trigger] self.tree.placement().contains_key(x) <==> self.graph.has_node(
            x,
        ) by {
            assert(!self.graph.pending().contains(NodeIdentity(x)));
        }
    }

    /// An empty index.
    pub fn new() -> (res: Self)
        requires
            2 <= ARITY < usize::MAX,
        ensures
            res.wf(),
            res.interner_view().mapping() == Map::<usize, NodeIdentity>::empty(),
            res.interner_view().slots() == 0,
            forall|x: usize| !#[trigger] res.graph_view().has_node(x),
            res.graph_view().pending().len() == 0,
            res.graph_view().limit() is None,
            res.tree_view().leaf_count() == 0,
    {
        InMemoryIndex { interner: NodeInterner::new(), graph: InMemoryUndirectedGraph::new(), tree: LeafTree::new() }
    }

    /// An empty index with room for `node_capacity` nodes, whose change
    /// buffer reports full at `node_capacity` nodes.
    pub fn with_capacity(node_capacity: usize) -> (res: Self)
        requires
            2 <= ARITY < usize::MAX,
            node_capacity > 0,
        ensures
            res.wf(),
            res.interner_view().mapping() == Map::<usize, NodeIdentity>::empty(),
            res.interner_view().slots() == 0,
            forall|x: usize| !#[trigger] res.graph_view().has_node(x),
            res.graph_view().pending().len() == 0,
            res.graph_view().limit() == Some(node_capacity),
            res.tree_view().leaf_count() == 0,
    {
        let graph: InMemoryUndirectedGraph<W> = InMemoryUndirectedGraph::with_capacity(node_capacity);
        InMemoryIndex { interner: NodeInterner::with_capacity(node_capacity), graph, tree: LeafTree::new() }
    }

    /// Inserts, updates or deletes the edge between external nodes `u` and
    /// `v`. `Some(weight)` interns missing endpoints and stores the weight;
    /// `None` removes the edge. A self loop is refused, and so is the
    /// removal of an edge that is not there (also when an endpoint was never
    /// seen); a refused change leaves the index as it was. The clustering
    /// tree only learns of the change when the buffered node changes are
    /// applied.
    pub fn update_edge(&mut self, u: usize, v: usize, weight: Option<W>) -> (res: Result<(), InMemoryIndexError>)
        requires
            old(self).wf(),
            old(self).interner_view().slots() + 2 <= usize::MAX,
        ensures
            final(self).wf(),
            final(self).tree_view() == old(self).tree_view(),
            final(self).graph_view().limit() == old(self).graph_view().limit(),
            res is Ok <==> u != v && (weight is Some || old(self).has_edge(u, v)),
            u == v ==> res == Err::<(), InMemoryIndexError>(
                InMemoryIndexError::Graph(InMemoryGraphError::SelfLoop),
            ),
            u != v && res is Err ==> res == Err::<(), InMemoryIndexError>(
                InMemoryIndexError::Graph(InMemoryGraphError::MissingEdge),
            ),
            res is Err ==> *final(self) == *old(self),
            res is Ok ==> forall|x: usize, y: usize| #[trigger]
                final(self).has_edge(x, y) <==> if same_pair(x, y, u, v) {
                    weight is Some
                } else {
                    old(self).has_edge(x, y)
                },
            res is Ok ==> forall|x: usize, y: usize| #[trigger]
                final(self).has_edge(x, y) ==> final(self).edge_weight(x, y) == if same_pair(x, y, u, v) {
                    weight->0
                } else {
                    old(self).edge_weight(x, y)
                },
            res is Ok ==> {
                let ids = final(self).interner_view().mapping();
                let old_ids = old(self).interner_view().mapping();
                let a = ids[u];
                let b = ids[v];
                &&& ids.contains_key(u) && ids.contains_key(v)
                &&& forall|e: usize| #[trigger]
                    old_ids.contains_key(e) ==> ids.contains_key(e) && ids[e] == old_ids[e]
                &&& forall|e: usize| #[trigger] ids.contains_key(e) ==> old_ids.contains_key(e) || e == u || e == v
                &&& final(self).interner_view().slots() <= old(self).interner_view().slots() + 2
                &&& forall|x: usize, y: usize| #[trigger] final(self).graph_view().has_edge(x, y) <==> if same_pair(
                    x,
                    y,
                    a.0,
                    b.0,
                ) {
                    weight is Some
                } else {
                    old(self).graph_view().has_edge(x, y)
                }
                &&& forall|x: usize, y: usize| #[trigger] final(self).graph_view().has_edge(x, y)
                    ==> final(self).graph_view().weight(x, y) == if same_pair(x, y, a.0, b.0) {
                    weight->0
                } else {
                    old(self).graph_view().weight(x, y)
                }
                &&& final(self).graph_view().pending() == with_touched(
                    with_touched(old(self).graph_view().pending(), a),
                    b,
                )
            },
    {
        let ghost old_self = *self;
        proof {
            old_self.graph.lemma_undirected();
            old_self.interner.lemma_injective();
        }
        if u == v {
            return Err(InMemoryIndexError::Graph(InMemoryGraphError::SelfLoop));
        }
        let (a, b) = match weight {
            Some(_) => {
                let a = self.interner.intern(u);
                let b = self.interner.intern(v);
                proof {
                    self.interner.lemma_injective();
                    assert(self.interner.mapping()[u] == a);
                    assert(self.interner.mapping()[v] == b);
                    assert(a != b);
                }
                (a, b)
            },
            None => {
                let a = match self.interner.get(&u) {
                    Some(a) => a,
                    None => {
                        return Err(InMemoryIndexError::Graph(InMemoryGraphError::MissingEdge));
                    },
                };
                let b = match self.interner.get(&v) {
                    Some(b) => b,
                    None => {
                        return Err(InMemoryIndexError::Graph(InMemoryGraphError::MissingEdge));
                    },
                };
                (a, b)
            },
        };
        let ghost mid = self.graph;
        match self.graph.update_edge(a, b, weight) {
            Ok(()) => {},
            Err(e) => {
                proof {
                    assert(weight is None);
                }
                return Err(InMemoryIndexError::Graph(e));
            },
        }
        proof {
            let ids = self.interner.mapping();
            let g = self.graph;
            assert forall|x: usize| #[trigger] g.has_node(x) implies self.interner.holds(NodeIdentity(x)) by {
                let y = choose|y: usize| #[trigger] g.has_edge(x, y);
                if x == a.0 {
                    assert(ids.contains_key(u) && ids[u] == NodeIdentity(x));
                } else if x == b.0 {
                    assert(ids.contains_key(v) && ids[v] == NodeIdentity(x));
                } else {
                    assert(!same_pair(x, y, a.0, b.0));
                    assert(old_self.graph.has_edge(x, y));
                    assert(old_self.graph.has_node(x));
                    assert(old_self.interner.holds(NodeIdentity(x)));
                    let e = choose|e: usize| #[trigger] old_self.interner.mapping().contains_key(e)
                        && old_self.interner.mapping()[e] == NodeIdentity(x);
                    assert(ids.contains_key(e));
                }
            }
            assert forall|x: usize|
                #![trigger self.tree.placement().contains_key(x)]
                #![trigger g.has_node(x)]
                !g.pending().contains(NodeIdentity(x)) implies (self.tree.placement().contains_key(x)
                <==> g.has_node(x)) by {
                lemma_touched_contains(old_self.graph.pending(), a, b, NodeIdentity(x));
                assert(x != a.0 && x != b.0);
                assert(g.has_node(x) == old_self.graph.has_node(x)) by {
                    if g.has_node(x) {
                        let y = choose|y: usize| #[trigger] g.has_edge(x, y);
                        assert(old_self.graph.has_edge(x, y));
                    }
                    if old_self.graph.has_node(x) {
                        let y = choose|y: usize| #[trigger] old_self.graph.has_edge(x, y);
                        assert(g.has_edge(x, y));
                    }
                }
            }
            assert(self.wf());
            Self::lemma_external_edge_change(old_self, *self, u, v, weight is Some);
            Self::lemma_external_weight_change(old_self, *self, u, v, weight);
        }
        Ok(())
    }

    /// Applies `updates` in order and counts them: weights set, removals
    /// that found their edge and removals whose edge was absent. A change
    /// that names one node twice stops the batch with an error; the changes
    /// before it stay applied.
    pub fn update_edges(&mut self, updates: &[EdgeUpdate<W>]) -> (res: Result<EdgeUpdateStats, InMemoryIndexError>)
        requires
            old(self).wf(),
            old(self).interner_view().slots() + 2 * updates.len() <= usize::MAX,
        ensures
            final(self).wf(),
            final(self).tree_view() == old(self).tree_view(),
            final(self).graph_view().limit() == old(self).graph_view().limit(),
            res is Ok <==> forall|k: int| 0 <= k < updates.len() ==> !is_self_loop(#[trigger] updates[k]),
            res is Err ==> res == Err::<EdgeUpdateStats, InMemoryIndexError>(
                InMemoryIndexError::Graph(InMemoryGraphError::SelfLoop),
            ),
            res is Err ==> exists|k: int|
                0 <= k < updates.len() && is_self_loop(#[trigger] updates[k]) && (forall|j: int|
                    0 <= j < k ==> !is_self_loop(#[trigger] updates[j])) && (forall|x: usize, y: usize| #[trigger]
                    final(self).has_edge(x, y) <==> edge_after_updates(
                        (|a: usize, b: usize| old(self).has_edge(a, b)),
                        updates@.take(k),
                        x,
                        y,
                    )) && batch_applied(*old(self), *final(self), updates@.take(k)),
            res matches Ok(stats) ==> {
                let before = (|a: usize, b: usize| old(self).has_edge(a, b));
                &&& stats.total == updates.len()
                &&& stats.set == sets_in(updates@)
                &&& stats.deleted == removals_found(before, updates@)
                &&& stats.missing_deletes == updates.len() - sets_in(updates@) - removals_found(
                    before,
                    updates@,
                )
                &&& forall|x: usize, y: usize| #[trigger]
                    final(self).has_edge(x, y) <==> edge_after_updates(before, updates@, x, y)
            },
            res is Ok ==> batch_applied(*old(self), *final(self), updates@),
    {
        let ghost start = *self;
        let ghost before = (|a: usize, b: usize| start.has_edge(a, b));
        let ghost wbefore = (|a: usize, b: usize| start.edge_weight(a, b));
        let mut stats = EdgeUpdateStats { total: 0, set: 0, deleted: 0, missing_deletes: 0 };
        let mut k: usize = 0;
        while k < updates.len()
            invariant
                self.wf(),
                k <= updates.len(),
                start == *old(self),
                before == (|a: usize, b: usize| start.has_edge(a, b)),
                self.tree_view() == start.tree_view(),
                self.graph_view().limit() == start.graph_view().limit(),
                self.interner_view().slots() <= start.interner_view().slots() + 2 * k,
                start.interner_view().slots() + 2 * updates.len() <= usize::MAX,
                forall|j: int| 0 <= j < k ==> !is_self_loop(#[trigger] updates[j]),
                forall|x: usize, y: usize| #[trigger]
                    self.has_edge(x, y) <==> edge_after_updates(before, updates@.take(k as int), x, y),
                wbefore == (|a: usize, b: usize| start.edge_weight(a, b)),
                forall|x: usize, y: usize| #[trigger]
                    self.has_edge(x, y) ==> self.edge_weight(x, y) == weight_after_updates(
                        wbefore,
                        updates@.take(k as int),
                        x,
                        y,
                    ),
                stats.total == k,
                stats.set == sets_in(updates@.take(k as int)),
                stats.deleted == removals_found(before, updates@.take(k as int)),
                stats.missing_deletes + stats.set + stats.deleted == k,
            decreases updates.len() - k,
        {
            let ghost prev = *self;
            let update = updates[k];
            proof {
                assert(updates@.take(k + 1).drop_last() =~= updates@.take(k as int));
                assert(updates@.take(k + 1).last() == update);
                prev.graph.lemma_undirected();
            }
            match update {
                EdgeUpdate::SetWeight { u, v, weight } => {
                    match self.update_edge(u, v, Some(weight)) {
                        Ok(()) => {},
                        Err(e) => {
                            return Err(e);
                        },
                    }
                    stats.set = stats.set + 1;
                },
                EdgeUpdate::Delete { u, v } => {
                    match self.update_edge(u, v, None) {
                        Ok(()) => {
                            stats.deleted = stats.deleted + 1;
                        },
                        Err(InMemoryIndexError::Graph(InMemoryGraphError::MissingEdge)) => {
                            stats.missing_deletes = stats.missing_deletes + 1;
                        },
                        Err(e) => {
                            return Err(e);
                        },
                    }
                },
            }
            proof {
                assert forall|x: usize, y: usize| #[trigger]
                    self.has_edge(x, y) <==> edge_after_updates(before, updates@.take(k + 1), x, y) by {
                    if prev.has_edge(x, y) {
                        assert(prev.has_edge(y, x));
                    }
                }
                assert forall|x: usize, y: usize| #[trigger]
                    self.has_edge(x, y) implies self.edge_weight(x, y) == weight_after_updates(
                        wbefore,
                        updates@.take(k + 1),
                        x,
                        y,
                    ) by {
                    if !touches(update, x, y) {
                        assert(prev.has_edge(x, y));
                    }
                }
            }
            stats.total = stats.total + 1;
            k = k + 1;
        }
        proof {
            assert(updates@.take(updates.len() as int) =~= updates@);
        }
        Ok(stats)
    }

    /// Hands the buffered node changes to the clustering tree: each changed
    /// identity with an edge joins the tree or stays in it, each one without
    /// an edge leaves it, and the external ids of the latter are released.
    /// Afterwards the tree holds exactly the live identities.
    pub fn apply_pending_node_ops(&mut self) -> (res: Result<(), InMemoryIndexError>)
        requires
            old(self).wf(),
            (2 * (old(self).tree_view().leaf_count() + old(self).graph_view().pending().len()) + 1) * (
            ARITY + 1) <= usize::MAX,
        ensures
            final(self).wf(),
            res is Ok,
            final(self).graph_view().pending().len() == 0,
            final(self).graph_view().limit() == old(self).graph_view().limit(),
            forall|x: usize, y: usize| #[trigger]
                final(self).graph_view().has_edge(x, y) == old(self).graph_view().has_edge(x, y),
            forall|x: usize, y: usize| #[trigger]
                final(self).graph_view().weight(x, y) == old(self).graph_view().weight(x, y),
            forall|x: usize| #[trigger]
                final(self).graph_view().has_node(x) == old(self).graph_view().has_node(x),
            forall|x: usize| #[trigger]
                final(self).tree_view().placement().contains_key(x) <==> final(self).graph_view().has_node(x),
            old(self).tree_view().sizes_track_leaves() ==> final(self).tree_view().sizes_track_leaves(),
            final(self).interner_view().slots() == old(self).interner_view().slots(),
            forall|e: usize| #[trigger]
                final(self).interner_view().mapping().contains_key(e) <==> old(self).interner_view().mapping().contains_key(e)
                    && !released_among(
                    old(self).graph_view(),
                    old(self).graph_view().pending(),
                    old(self).graph_view().pending().len() as int,
                    old(self).interner_view().mapping()[e],
                ),
            forall|e: usize| #[trigger]
                final(self).interner_view().mapping().contains_key(e) ==> final(self).interner_view().mapping()[e]
                    == old(self).interner_view().mapping()[e],
    {
        let ghost old_self = *self;
        proof {
            old_self.graph.lemma_pending_distinct();
        }
        let changed = self.graph.take_changed_nodes();
        let ghost g = self.graph;
        if changed.len() == 0 {
            proof {
                assert forall|x: usize| #[trigger] self.tree.placement().contains_key(x) <==> g.has_node(x) by {
                    assert(!old_self.graph.pending().contains(NodeIdentity(x)));
                }
            }
            return Ok(());
        }
        let mut diffs: Vec<(usize, Option<()>)> = Vec::new();
        let mut i: usize = 0;
        while i < changed.len()
            invariant
                i <= changed.len(),
                g == self.graph,
                g.wf(),
                diffs@.len() == i,
                forall|j: int|
                    0 <= j < i ==> (#[trigger] diffs@[j]).0 == changed@[j].0 && (diffs@[j].1 is Some
                        <==> g.has_node(changed@[j].0)),
            decreases changed.len() - i,
        {
            let node = changed[i];
            let live = self.graph.contains_node(node);
            if live {
                diffs.push((node.0, Some(())));
            } else {
                diffs.push((node.0, None));
            }
            i += 1;
        }
        let ghost t0 = self.tree;
        let ghost p0 = t0.placement();
        proof {
            assert forall|a: int, b: int| 0 <= a < b < diffs@.len() implies diffs@[a].0 != diffs@[b].0 by {
                assert(changed@[a] != changed@[b]);
                assert(changed@[a] == NodeIdentity(changed@[a].0));
                assert(changed@[b] == NodeIdentity(changed@[b].0));
            }
            lemma_classified_members(diffs@, p0);
        }
        let applied = self.tree.apply_node_ops(&diffs);
        proof {
            assert(applied is Ok);
            let dels = deletions_in(diffs@, p0);
            let fresh = fresh_in(diffs@, p0);
            assert forall|x: usize| #[trigger] self.tree.placement().contains_key(x) <==> g.has_node(x) by {
                if old_self.graph.pending().contains(NodeIdentity(x)) {
                    let j = choose|j: int| 0 <= j < changed@.len() && changed@[j] == NodeIdentity(x);
                    assert(diffs@[j].0 == x);
                    assert forall|i2: int| 0 <= i2 < diffs@.len() && (#[trigger] diffs@[i2]).0 == x implies i2 == j by {
                        if i2 != j {
                            assert(changed@[i2] == NodeIdentity(changed@[i2].0));
                            assert(changed@[i2] != changed@[j]);
                        }
                    }
                    if g.has_node(x) {
                        if !p0.contains_key(x) {
                            assert(names_node(fresh, x));
                        } else {
                            assert(!dels.contains(x));
                        }
                    } else {
                        if p0.contains_key(x) {
                            assert(dels.contains(x));
                        }
                        assert(!names_node(fresh, x));
                    }
                } else {
                    assert forall|i2: int| 0 <= i2 < diffs@.len() implies (#[trigger] diffs@[i2]).0 != x by {
                        if diffs@[i2].0 == x {
                            assert(changed@[i2] == NodeIdentity(changed@[i2].0));
                            assert(old_self.graph.pending().contains(changed@[i2]));
                        }
                    }
                    assert(!dels.contains(x));
                    assert(!names_node(fresh, x));
                    assert(p0.contains_key(x) <==> old_self.graph.has_node(x));
                }
            }
        }
        let ghost ids0 = self.interner.mapping();
        let ghost t1 = self.tree;
        let mut k: usize = 0;
        while k < changed.len()
            invariant
                k <= changed.len(),
                g == self.graph,
                g.wf(),
                g.pending().len() == 0,
                g.limit() == old_self.graph.limit(),
                forall|x: usize, y: usize| #[trigger] g.weight(x, y) == old_self.graph.weight(x, y),
                self.tree == t1,
                t1.wf(),
                forall|x: usize| #[trigger] t1.placement().contains_key(x) <==> g.has_node(x),
                old_self.tree.sizes_track_leaves() ==> t1.sizes_track_leaves(),
                self.interner.wf(),
                self.interner.slots() == old_self.interner.slots(),
                ids0 == old_self.interner.mapping(),
                changed@ == old_self.graph.pending(),
                forall|x: usize, y: usize| #[trigger] g.has_edge(x, y) == old_self.graph.has_edge(x, y),
                forall|x: usize| #[trigger] g.has_node(x) == old_self.graph.has_node(x),
                forall|e: usize| #[trigger]
                    self.interner.mapping().contains_key(e) <==> ids0.contains_key(e) && !released_among(
                        g,
                        changed@,
                        k as int,
                        ids0[e],
                    ),
                forall|e: usize| #[trigger]
                    self.interner.mapping().contains_key(e) ==> self.interner.mapping()[e] == ids0[e],
            decreases changed.len() - k,
        {
            let node = changed[k];
            let ghost before = self.interner.mapping();
            proof {
                self.interner.lemma_injective();
            }
            if !self.graph.contains_node(node) {
                let released = self.interner.release(node);
                proof {
                    assert forall|e: usize| #[trigger] self.interner.mapping().contains_key(e) <==> ids0.contains_key(e)
                        && !released_among(g, changed@, k + 1, ids0[e]) by {
                        if released_among(g, changed@, k + 1, ids0[e]) && !released_among(g, changed@, k as int, ids0[e]) {
                            let j = choose|j: int| 0 <= j < k + 1 && changed@[j] == ids0[e] && !g.has_node(ids0[e].0);
                            assert(j == k);
                            if before.contains_key(e) {
                                match released {
                                    Some(r) => {
                                        assert(before[r] == node);
                                        assert(before[e] == node);
                                    },
                                    None => {},
                                }
                            }
                        }
                        if released_among(g, changed@, k as int, ids0[e]) {
                            let j = choose|j: int| 0 <= j < k && changed@[j] == ids0[e] && !g.has_node(ids0[e].0);
                            assert(released_among(g, changed@, k + 1, ids0[e]));
                        }
                        if ids0.contains_key(e) && !released_among(g, changed@, k + 1, ids0[e]) {
                            assert(ids0[e] != node || g.has_node(node.0));
                            match released {
                                Some(r) => {
                                    if r == e {
                                        assert(before[r] == node);
                                    }
                                },
                                None => {},
                            }
                        }
                    }
                }
            } else {
                proof {
                    assert forall|e: usize| #[trigger] self.interner.mapping().contains_key(e) <==> ids0.contains_key(e)
                        && !released_among(g, changed@, k + 1, ids0[e]) by {
                        if released_among(g, changed@, k + 1, ids0[e]) {
                            let j = choose|j: int| 0 <= j < k + 1 && changed@[j] == ids0[e] && !g.has_node(ids0[e].0);
                            if j == k {
                                assert(changed@[j] == node);
                            }
                            assert(released_among(g, changed@, k as int, ids0[e]));
                        }
                    }
                }
            }
            k += 1;
        }
        proof {
            assert forall|x: usize| #[trigger] self.graph.has_node(x) implies self.interner.holds(NodeIdentity(x)) by {
                assert(old_self.interner.holds(NodeIdentity(x)));
                let e = choose|e: usize| #[trigger] ids0.contains_key(e) && ids0[e] == NodeIdentity(x);
                assert(!released_among(g, changed@, changed@.len() as int, ids0[e]));
                assert(self.interner.mapping().contains_key(e));
            }
        }
        Ok(())
    }

    /// Identity held by external node `node`, if it is interned.
    pub fn internal_id(&self, node: usize) -> (res: Option<NodeIdentity>)
        ensures
            res == self.interner_view().mapping().get(node),
    {
        self.interner.get(&node)
    }

    /// The leaf tree of the clustering.
    pub fn tree(&self) -> (res: &LeafTree<ARITY>)
        ensures
            *res == self.tree_view(),
    {
        &self.tree
    }

    /// Whether external node `node` is interned and has an edge.
    pub fn contains_node(&self, node: usize) -> (res: bool)
        ensures
            res == self.is_live(node),
    {
        match self.interner.get(&node) {
            Some(id) => self.graph.contains_node(id),
            None => false,
        }
    }

    /// Number of nodes with an edge.
    pub fn live_node_count(&self) -> (res: usize)
        ensures
            res == self.graph_view().node_set().len(),
    {
        self.graph.node_count()
    }

    /// External ids of the nodes with an edge, each once, in no promised order.
    pub fn live_nodes(&self) -> (res: Vec<usize>)
        requires
            self.wf(),
        ensures
            res@.no_duplicates(),
            forall|x: usize| #[trigger] res@.contains(x) <==> self.is_live(x),
    {
        let nodes = self.graph.nodes();
        let ghost ids = self.interner.mapping();
        proof {
            self.interner.lemma_injective();
        }
        let mut out: Vec<usize> = Vec::new();
        let mut i: usize = 0;
        while i < nodes.len()
            invariant
                self.wf(),
                ids == self.interner.mapping(),
                i <= nodes.len(),
                nodes@.no_duplicates(),
                forall|x: usize| #[trigger] nodes@.contains(NodeIdentity(x)) <==> self.graph.has_node(x),
                out@.len() == i,
                forall|j: int|
                    0 <= j < i ==> ids.contains_key(#[trigger] out@[j]) && ids[out@[j]] == nodes@[j],
                forall|a: usize, b: usize|
                    #![trigger ids[a], ids[b]]
                    ids.contains_key(a) && ids.contains_key(b) && ids[a] == ids[b] ==> a == b,
            decreases nodes.len() - i,
        {
            let node = nodes[i];
            proof {
                assert(nodes@.contains(NodeIdentity(node.0)));
                assert(self.interner.holds(node));
            }
            match self.interner.external(node) {
                Some(e) => {
                    out.push(e);
                },
                None => {
                    proof {
                        let e = choose|e: usize| #[trigger] ids.contains_key(e) && ids[e] == node;
                        assert(false);
                    }
                },
            }
            i += 1;
        }
        proof {
            assert forall|a: int, b: int| 0 <= a < out@.len() && 0 <= b < out@.len() && a != b implies out@[a]
                != out@[b] by {
                assert(nodes@[a] != nodes@[b]);
            }
            assert forall|x: usize| #[trigger] out@.contains(x) <==> self.is_live(x) by {
                if out@.contains(x) {
                    let j = choose|j: int| 0 <= j < out@.len() && out@[j] == x;
                    assert(nodes@.contains(nodes@[j]));
                    assert(nodes@[j] == NodeIdentity(nodes@[j].0));
                }
                if self.is_live(x) {
                    assert(nodes@.contains(NodeIdentity(ids[x].0)));
                    let j = choose|j: int| 0 <= j < nodes@.len() && nodes@[j] == NodeIdentity(ids[x].0);
                    assert(ids[out@[j]] == ids[x]);
                    assert(out@[j] == x);
                }
            }
        }
        out
    }

    /// Identity of a live external node, or `UnknownNode`.
    fn internal_live_node(&self, node: usize) -> (res: Result<NodeIdentity, InMemoryIndexError>)
        ensures
            res is Ok <==> self.is_live(node),
            res matches Ok(id) ==> id == self.interner_view().mapping()[node],
            res matches Err(e) ==> e == InMemoryIndexError::UnknownNode,
    {
        match self.interner.get(&node) {
            Some(id) => if self.graph.contains_node(id) {
                Ok(id)
            } else {
                Err(InMemoryIndexError::UnknownNode)
            },
            None => Err(InMemoryIndexError::UnknownNode),
        }
    }

    /// Identities of the requested nodes, as a subset query needs them; a
    /// node that is not live is an `UnknownNode` error.
    pub fn internal_live_nodes(&self, nodes: &[usize]) -> (res: Result<Vec<NodeIdentity>, InMemoryIndexError>)
        ensures
            res is Ok <==> forall|i: int| 0 <= i < nodes@.len() ==> self.is_live(#[trigger] nodes@[i]),
            res matches Ok(ids) ==> ids@.len() == nodes@.len() && forall|i: int|
                0 <= i < nodes@.len() ==> #[trigger] ids@[i] == self.interner_view().mapping()[nodes@[i]],
            res matches Err(e) ==> e == InMemoryIndexError::UnknownNode,
    {
        let mut out: Vec<NodeIdentity> = Vec::new();
        let mut i: usize = 0;
        while i < nodes.len()
            invariant
                i <= nodes.len(),
                out@.len() == i,
                forall|j: int| 0 <= j < i ==> self.is_live(#[trigger] nodes@[j]),
                forall|j: int|
                    0 <= j < i ==> #[trigger] out@[j] == self.interner_view().mapping()[nodes@[j]],
            decreases nodes.len() - i,
        {
            match self.internal_live_node(nodes[i]) {
                Ok(id) => {
                    out.push(id);
                },
                Err(e) => {
                    return Err(e);
                },
            }
            i += 1;
        }
        Ok(out)
    }
}

} // verus!
