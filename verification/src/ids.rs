use vstd::prelude::*;

verus! {

/// Position of a node in the flat array that stores a d-ary tree; the root is at index 0.
#[derive(Clone, Copy, PartialEq, Eq, Structural, Hash, Debug)]
pub struct TreeIndex(pub usize);

/// Unique identifier of a node of the graph.
#[derive(Clone, Copy, PartialEq, Eq, Structural, Hash, Debug, PartialOrd, Ord)]
pub struct NodeIdentity(pub usize);

impl NodeIdentity {
    /// Dense position of this node in per-node tables.
    pub fn index(&self) -> (res: usize)
        ensures
            res == self.0,
    {
        self.0
    }
}

impl From<usize> for TreeIndex {
    fn from(index: usize) -> (res: Self) {
        TreeIndex(index)
    }
}

impl vstd::std_specs::convert::FromSpecImpl<usize> for TreeIndex {
    open spec fn obeys_from_spec() -> bool {
        true
    }

    open spec fn from_spec(index: usize) -> Self {
        TreeIndex(index)
    }
}

} // verus!
