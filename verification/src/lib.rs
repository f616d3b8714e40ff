//! Converts a graph-structured note export into outline page documents.
//!
//! Raw records (id, optional properties, owner/meta/source links, ordered
//! child ids) are resolved into an entity graph, which is then turned into a
//! page-oriented block graph and serialized to indented outline text.

pub mod block;
pub mod block_builder;
pub mod config;
pub mod laws;
pub mod node;
pub mod node_builder;
pub mod text;
