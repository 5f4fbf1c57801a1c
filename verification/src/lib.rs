//! The structure of a codebase as a graph, and what it takes to fill the
//! graph and to lay it out.
//!
//! - [`types`] holds the graph store: folders, files and symbols as nodes,
//!   containment as edges, both named by integer handles.
//! - [`layout`] holds the exact part of the force-directed layout: the
//!   initial placement, the terms of each node's net force, the schedule of
//!   refinement and the projection of edges onto segments.
//! - [`file_structure`] and [`symbols`] turn directory entries and
//!   document symbols into nodes and edges.
//! - [`progress`], [`transport`] and [`uri`] hold the rules of talking to
//!   a language server: when indexing is over, how messages are framed, and
//!   how a file is addressed.
//!
//! Every function states what it returns and what it changes, and is
//! proved to do so.

pub mod file_structure;
pub mod layout;
pub mod progress;
pub mod symbols;
pub mod transport;
pub mod types;
pub mod uri;

pub use types::{EdgeData, EdgeId, Graph, GraphView, NodeContents, NodeData, NodeId, Relation};
