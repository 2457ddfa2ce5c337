//! A library for manipulating documents modeled as graphs of
//! indirectly-addressed objects connected by typed references.
//!
//! The library covers id remapping, reference rewriting, transitive
//! reachability collection with cycle safety, balanced hierarchy assembly,
//! page-range parsing, and the merge and split orchestrators built on them.
pub mod graph;
pub mod hierarchy;
pub mod merge;
pub mod metadata;
pub mod model;
pub mod ranges;
pub mod reach;
pub mod remap;
pub mod rewrite;
pub mod split;

pub use model::ObjectId;
pub use model::Node;
pub use remap::IdMap;
pub use graph::Graph;
pub use graph::Trailer;
