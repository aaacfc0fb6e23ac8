//! Operation nodes and the arena that holds them.

use vstd::prelude::*;

verus! {

/// What can go wrong while a history is built, walked or merged.
#[derive(Clone, Copy, Debug, PartialEq, Eq, Structural)]
pub enum DagError {
    /// A reference names a node that the arena does not hold.
    UnknownPredecessor,
    /// Following predecessor edges leads back to a node that is still being visited.
    CycleDetected,
    /// Two replicas disagree about the causal direction between operations.
    InconsistentCausalOrder,
    /// Two replicas use one identity for operations with different payloads.
    IdentityCollision,
}

/// One causally situated mutation.
///
/// A node lives in an arena, a `Vec<DAGNode<T>>`; its position there is its
/// identity inside one replica, and `predecessors` holds positions in the same
/// arena. `identity` is the name of the operation across replicas.
#[derive(PartialEq, Eq, PartialOrd, Ord, Debug)]
pub struct DAGNode<T> {
    /// Replica-independent name of the operation.
    pub identity: u64,
    /// Positions of the operations this one causally depends on, in the order
    /// in which a traversal visits them.
    pub predecessors: Vec<usize>,
    /// The payload of the operation.
    pub current_data: T,
}

/// A node whose payload is a signed delta.
pub type DAGNodeCounter = DAGNode<i64>;

/// The predecessor lists of an arena, position by position.
pub open spec fn edges<T>(nodes: Seq<DAGNode<T>>) -> Seq<Seq<usize>> {
    Seq::new(nodes.len(), |i: int| nodes[i].predecessors@)
}

} // verus!
