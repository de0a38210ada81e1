//! A directed acyclic graph whose edge insertions are checked against cycles,
//! with walkers that traverse it without borrowing it, and transitive
//! reduction.
//!
//! The topology (the endpoints of the edges and the adjacency lists of the
//! nodes) is kept in a `petgraph` graph, which also answers the questions of
//! reachability; the weights of nodes and edges are kept beside it, index for
//! index. What the graph holds is described by [`DagView`], over which every
//! operation states what it does.
//!
//! - [`dag`]: the graph and its operations;
//! - [`view`]: what a graph holds, and what the operations make of it;
//! - [`bulk`], [`subgraph`]: graphs made from lists and from other graphs;
//! - [`reduce`]: transitive reduction;
//! - [`walker`]: the walker trait and its combinators;
//! - [`paths`], [`links`]: walks and cycles over edge lists, and the
//!   agreement of edge lists with adjacency lists;
//! - [`laws`]: what holds across operations;
//! - [`topology`]: the calls into `petgraph`, with the contracts that are
//!   taken on trust.

pub mod bulk;
pub mod dag;
pub mod index;
pub mod laws;
pub mod links;
pub mod paths;
pub mod reduce;
pub mod subgraph;
pub mod topology;
pub mod view;
pub mod walker;

pub use bulk::Element;
pub use dag::{Children, Dag, EdgeIndices, Parents, RecursiveWalk, WouldCycle};
pub use index::{EdgeId, NodeId};
pub use view::DagView;
pub use walker::{Walker, WalkerIter};
