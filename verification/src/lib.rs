//! An in-memory graph of identifiable nodes and edges, with the generator
//! that mints their identifiers.

pub mod adjacency;
pub mod edge;
pub mod error;
pub mod graph;
pub mod id;
pub mod indexer;
pub mod laws;
pub mod model;
pub mod node;
pub mod relation;
pub mod relationship;

pub use edge::Edge;
pub use error::GraphError;
pub use graph::Graph;
pub use id::{id_generator, Generator, ID};
pub use node::Node;
pub use relation::Relation;
pub use relationship::Relationship;
