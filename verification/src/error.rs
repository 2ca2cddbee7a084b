use vstd::prelude::*;

use crate::ids::NodeIdentity;

verus! {

/// Errors returned by the public index API; each carries a description.
#[derive(Debug, Clone, PartialEq, Eq)]
pub enum RavenError {
    /// Invalid static configuration.
    InvalidConfig(String),
    /// Invalid user input supplied to an operation.
    InvalidInput(String),
    /// Invalid edge weight.
    InvalidWeight(String),
    /// Error from the in-memory graph or index backend.
    Index(String),
    /// Internal invariant failure or unexpected lower-level output shape.
    UnexpectedOutput(String),
}

/// Errors of the in-memory adjacency store.
#[derive(Debug, Clone, Copy, PartialEq, Eq, Structural)]
pub enum InMemoryGraphError {
    MissingNode,
    MissingEdge,
    SelfLoop,
}

impl InMemoryGraphError {
    /// Human-readable description of the error.
    pub fn message(&self) -> (res: &'static str)
        ensures
            *self == InMemoryGraphError::MissingNode ==> res@
                == "node was missing from the in-memory graph"@,
            *self == InMemoryGraphError::MissingEdge ==> res@
                == "edge was missing from the in-memory graph"@,
            *self == InMemoryGraphError::SelfLoop ==> res@
                == "self-loops are not supported by the in-memory graph"@,
    {
        match self {
            InMemoryGraphError::MissingNode => "node was missing from the in-memory graph",
            InMemoryGraphError::MissingEdge => "edge was missing from the in-memory graph",
            InMemoryGraphError::SelfLoop => "self-loops are not supported by the in-memory graph",
        }
    }
}

/// Errors of the in-memory index that maps external node ids to dense ones.
#[derive(Debug, Clone)]
pub enum InMemoryIndexError {
    Graph(InMemoryGraphError),
    Core(String),
    UnknownNode,
    MissingExternalMapping(NodeIdentity),
}

impl From<InMemoryGraphError> for InMemoryIndexError {
    fn from(value: InMemoryGraphError) -> (res: Self) {
        InMemoryIndexError::Graph(value)
    }
}

impl vstd::std_specs::convert::FromSpecImpl<InMemoryGraphError> for InMemoryIndexError {
    open spec fn obeys_from_spec() -> bool {
        true
    }

    open spec fn from_spec(value: InMemoryGraphError) -> Self {
        InMemoryIndexError::Graph(value)
    }
}

/// Graph-level errors that a remote backend may wrap.
#[derive(Debug, Clone, Copy, PartialEq, Eq, Structural)]
pub enum RemoteGraphError {
    MissingNode,
    MissingEdge,
    SelfLoop,
}

impl RemoteGraphError {
    /// Human-readable description of the error.
    pub fn message(&self) -> (res: &'static str)
        ensures
            *self == RemoteGraphError::MissingNode ==> res@
                == "node was missing from the remote graph"@,
            *self == RemoteGraphError::MissingEdge ==> res@
                == "edge was missing from the remote graph"@,
            *self == RemoteGraphError::SelfLoop ==> res@
                == "self-loops are not supported by the remote graph"@,
    {
        match self {
            RemoteGraphError::MissingNode => "node was missing from the remote graph",
            RemoteGraphError::MissingEdge => "edge was missing from the remote graph",
            RemoteGraphError::SelfLoop => "self-loops are not supported by the remote graph",
        }
    }
}

/// Inconsistencies in the rows returned by a batched neighbourhood query.
#[derive(Debug, Clone, Copy, PartialEq, Eq, Structural)]
pub enum MemgraphRowError {
    DuplicateRow,
    MissingRow,
    RowIndexOutOfBounds,
}

impl MemgraphRowError {
    /// Human-readable description of the error.
    pub fn message(&self) -> (res: &'static str)
        ensures
            *self == MemgraphRowError::DuplicateRow ==> res@
                == "Memgraph returned the same row index more than once"@,
            *self == MemgraphRowError::MissingRow ==> res@
                == "Memgraph did not return one row per requested source"@,
            *self == MemgraphRowError::RowIndexOutOfBounds ==> res@
                == "Memgraph returned an out-of-bounds row index"@,
    {
        match self {
            MemgraphRowError::DuplicateRow => "Memgraph returned the same row index more than once",
            MemgraphRowError::MissingRow => "Memgraph did not return one row per requested source",
            MemgraphRowError::RowIndexOutOfBounds => "Memgraph returned an out-of-bounds row index",
        }
    }
}

/// Errors of the synthetic stochastic-block-model workload generator.
#[derive(Debug, Clone, PartialEq, Eq)]
pub enum SbmWorkloadError {
    InvalidParameter(&'static str),
    InvalidWeight,
    Graph(InMemoryGraphError),
}

impl From<InMemoryGraphError> for SbmWorkloadError {
    fn from(value: InMemoryGraphError) -> (res: Self) {
        SbmWorkloadError::Graph(value)
    }
}

impl vstd::std_specs::convert::FromSpecImpl<InMemoryGraphError> for SbmWorkloadError {
    open spec fn obeys_from_spec() -> bool {
        true
    }

    open spec fn from_spec(value: InMemoryGraphError) -> Self {
        SbmWorkloadError::Graph(value)
    }
}

/// Errors of the clustering data structure.
#[derive(Debug, Clone, PartialEq, Eq)]
pub enum DynamicCoresetError {
    NoData,
    InvalidEdge(String, String),
    NodeNotFound(String),
    NodeAlreadyExists(String),
    NoSelfLoopsAllowed(String),
}

/// Either a failure of the graph oracle or of the clustering data structure.
#[derive(Debug)]
pub enum AlgorithmicError<E> {
    OracleError(E),
    DataStructureError(DynamicCoresetError),
}

/// Failure reported by a neighbourhood oracle.
#[derive(Debug)]
pub enum OracleError<E> {
    GraphError(E),
    CoresetError(E),
}

/// The reciprocal of a finite positive value overflowed to infinity.
#[derive(Debug, Clone, Copy, PartialEq, Eq, Structural)]
pub struct ReciprocalOverflow;

impl ReciprocalOverflow {
    /// Human-readable description of the error.
    pub fn message(&self) -> (res: &'static str)
        ensures
            res@ == "reciprocal overflowed to infinity"@,
    {
        "reciprocal overflowed to infinity"
    }
}

/// Why a floating-point value was rejected by a checked number type.
#[derive(Debug, Clone, Copy, PartialEq, Eq, Structural)]
pub enum InvalidNumber {
    NaN,
    Zero,
    Negative,
    Positive,
    Infinite,
}

impl InvalidNumber {
    /// Human-readable description of the error.
    pub fn message(&self) -> (res: &'static str)
        ensures
            *self == InvalidNumber::NaN ==> res@ == "NaN is not a valid number"@,
            *self == InvalidNumber::Zero ==> res@ == "Zero is not a valid number"@,
            *self == InvalidNumber::Negative ==> res@ == "Negative numbers are not valid"@,
            *self == InvalidNumber::Positive ==> res@ == "Positive numbers are not valid"@,
            *self == InvalidNumber::Infinite ==> res@ == "Infinite values are not valid"@,
    {
        match self {
            InvalidNumber::NaN => "NaN is not a valid number",
            InvalidNumber::Zero => "Zero is not a valid number",
            InvalidNumber::Negative => "Negative numbers are not valid",
            InvalidNumber::Positive => "Positive numbers are not valid",
            InvalidNumber::Infinite => "Infinite values are not valid",
        }
    }
}

} // verus!
