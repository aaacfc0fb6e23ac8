//! Causal history of a replicated object as a graph of operations.
//!
//! Every mutation is an operation node that names the operations it causally
//! depends on. The current value of the object is never stored: it is folded
//! from the history, taken in an order that respects causality.
//!
//! - [`node`]: the operation node and the errors.
//! - [`graph`]: what it means that one operation depends on another.
//! - [`order`]: the replay order, and the traversal that computes it.
//! - [`payload_order`]: what the reducers ask of the payloads.
//! - [`reducers`]: counter, minimum, maximum and observed-remove set.
//! - [`store`]: the node store of one replica.
//! - [`merge`]: the store that two replicas agree on.
//! - [`snapshot`]: stores as plain nodes, sent from replica to replica.
//! - [`random`]: stores of arbitrary shape.
//! - [`order_laws`], [`reducer_laws`]: what holds of all of these.

pub mod graph;
pub mod merge;
pub mod node;
pub mod order;
pub mod order_laws;
pub mod payload_order;
pub mod random;
pub mod reducer_laws;
pub mod reducers;
pub mod snapshot;
pub mod store;

pub use merge::merge;
pub use node::{DAGNode, DAGNodeCounter, DagError};
pub use order::{topological_sort, topological_sort_visit};
pub use random::{DrawError, RandomDAG};
pub use reducers::{counter, max, min, observed_remove_set, AddOrRemove, CurrentState};
pub use store::NodeStore;
