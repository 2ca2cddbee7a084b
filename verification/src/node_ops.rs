use std::collections::HashSet;

use vstd::prelude::*;

use crate::ids::NodeIdentity;

verus! {

broadcast use vstd::std_specs::hash::group_hash_axioms;

/// Nodes whose degree changed since the last flush, each once, in the
/// order of their first change.
pub struct NodeOpsBuffer {
    nodes: Vec<NodeIdentity>,
    seen: HashSet<usize>,
    capacity: Option<usize>,
}

impl NodeOpsBuffer {
    /// `seen` holds exactly the indices of the buffered nodes, and no node
    /// is buffered twice.
    pub closed spec fn wf(&self) -> bool {
        &&& forall|x: usize| #[trigger] self.seen@.contains(x) <==> exists|i: int|
            0 <= i < self.nodes@.len() && self.nodes@[i].0 == x
        &&& forall|i: int, j: int| 0 <= i < j < self.nodes@.len() ==> self.nodes@[i] != self.nodes@[j]
    }

    /// Buffered nodes, in order of first change.
    pub closed spec fn pending(&self) -> Seq<NodeIdentity> {
        self.nodes@
    }

    /// Flush threshold, if any.
    pub closed spec fn limit(&self) -> Option<usize> {
        self.capacity
    }

    /// No node is buffered twice.
    pub proof fn lemma_distinct(&self)
        requires
            self.wf(),
        ensures
            self.pending().no_duplicates(),
    {
    }

    /// An empty buffer without a flush threshold.
    pub fn new() -> (res: Self)
        ensures
            res.wf(),
            res.pending().len() == 0,
            res.limit() is None,
    {
        NodeOpsBuffer { nodes: Vec::new(), seen: HashSet::new(), capacity: None }
    }

    /// An empty buffer that reports itself full at `capacity` nodes.
    pub fn with_capacity(capacity: usize) -> (res: Self)
        requires
            capacity > 0,
        ensures
            res.wf(),
            res.pending().len() == 0,
            res.limit() == Some(capacity),
    {
        NodeOpsBuffer {
            nodes: Vec::with_capacity(capacity),
            seen: HashSet::with_capacity(capacity),
            capacity: Some(capacity),
        }
    }

    /// Number of buffered nodes.
    pub fn len(&self) -> (res: usize)
        ensures
            res == self.pending().len(),
    {
        self.nodes.len()
    }

    /// Whether no node is buffered.
    pub fn is_empty(&self) -> (res: bool)
        ensures
            res == (self.pending().len() == 0),
    {
        self.nodes.len() == 0
    }

    /// Whether the buffer has reached its flush threshold.
    pub fn is_full(&self) -> (res: bool)
        ensures
            res == match self.limit() {
                Some(c) => self.pending().len() >= c,
                None => false,
            },
    {
        match self.capacity {
            Some(capacity) => self.nodes.len() >= capacity,
            None => false,
        }
    }

    /// Records a change of `node`; a node already buffered keeps its place.
    pub fn touch(&mut self, node: NodeIdentity)
        requires
            old(self).wf(),
        ensures
            final(self).wf(),
            final(self).limit() == old(self).limit(),
            final(self).pending() == if old(self).pending().contains(node) {
                old(self).pending()
            } else {
                old(self).pending().push(node)
            },
    {
        let ghost old_self = *self;
        let inserted = self.seen.insert(node.index());
        if inserted {
            proof {
                assert(!old_self.nodes@.contains(node)) by {
                    if old_self.nodes@.contains(node) {
                        let i = choose|i: int| 0 <= i < old_self.nodes@.len() && old_self.nodes@[i] == node;
                        assert(old_self.seen@.contains(node.0));
                    }
                }
            }
            self.nodes.push(node);
            proof {
                assert forall|x: usize| #[trigger] self.seen@.contains(x) <==> exists|i: int|
                    0 <= i < self.nodes@.len() && self.nodes@[i].0 == x by {
                    if x == node.0 {
                        assert(self.nodes@[self.nodes@.len() - 1].0 == x);
                    }
                    if old_self.seen@.contains(x) {
                        let i = choose|i: int| 0 <= i < old_self.nodes@.len() && old_self.nodes@[i].0 == x;
                        assert(self.nodes@[i].0 == x);
                    }
                    if exists|i: int| 0 <= i < self.nodes@.len() && self.nodes@[i].0 == x {
                        let i = choose|i: int| 0 <= i < self.nodes@.len() && self.nodes@[i].0 == x;
                        if i < old_self.nodes@.len() {
                            assert(old_self.nodes@[i].0 == x);
                        }
                    }
                }
                assert forall|i: int, j: int| 0 <= i < j < self.nodes@.len() implies self.nodes@[i]
                    != self.nodes@[j] by {
                    if j == self.nodes@.len() - 1 {
                        assert(old_self.nodes@[i] == self.nodes@[i]);
                    }
                }
            }
        } else {
            proof {
                let i = choose|i: int| 0 <= i < old_self.nodes@.len() && old_self.nodes@[i].0 == node.0;
                assert(old_self.nodes@[i] == node);
                assert(old_self.nodes@.contains(node));
            }
        }
    }

    /// Hands out the buffered nodes and empties the buffer.
    pub fn take_nodes(&mut self) -> (res: Vec<NodeIdentity>)
        requires
            old(self).wf(),
        ensures
            final(self).wf(),
            final(self).limit() == old(self).limit(),
            res@ == old(self).pending(),
            final(self).pending().len() == 0,
    {
        self.seen.clear();
        let mut nodes: Vec<NodeIdentity> = Vec::new();
        std::mem::swap(&mut nodes, &mut self.nodes);
        nodes
    }
}

impl Default for NodeOpsBuffer {
    fn default() -> (res: Self)
        ensures
            res.wf(),
            res.pending().len() == 0,
            res.limit() is None,
    {
        NodeOpsBuffer::new()
    }
}

} // verus!
