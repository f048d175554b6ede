//! An in-memory directed-graph container with a family of verified traversal
//! algorithms.
//!
//! The storage type, [`AdjacencyVecGraph`], maps a `u64` node key to a payload
//! and a set of successor keys.  Traversals run against any store through the
//! [`ReferenceGraph`] capability interface: the store only has to enumerate
//! its keys and the registered successors of a key.  Pre-order depth-first,
//! post-order depth-first and breadth-first traversal are lazy iterators over
//! a borrowed store; each is proved to emit exactly the keys reachable from
//! its root, each exactly once, and to step deterministically.  Topological
//! sorting composes post-order traversals across components, and over an
//! acyclic graph its sequence provably places every edge's source before the
//! edge's destination.

pub mod adj_vec;
pub mod graph;
pub mod reach;
pub mod topsort;
pub mod traversal;

pub use adj_vec::AdjacencyVecGraph;
pub use graph::GraphTraversal;
pub use graph::ReferenceGraph;
pub use topsort::TopSort;
pub use traversal::PostOrderDFS;
pub use traversal::PreOrderDFS;
pub use traversal::BFS;
