//! Ingestion and reconstruction of OpenStreetMap extracts.
//!
//! The crate reads a map document into nodes, ways and relations, plans the
//! batched statements that load them into a relational store, and rebuilds
//! the same entities from the rows, with their folded columns, that the
//! store hands back.

/// The attributes of the elements that a document holds.
pub mod attributes;
/// The statements of a load, each within the store's ceiling.
pub mod batch;
/// Runs of positions cut into spans of a given size.
pub mod chunk;
/// That the statements of a load hold every row, each once.
pub mod coverage;
/// The columns into which the store folds tags, node references and members.
pub mod decode;
/// What the store folds, and that decoding gives it back.
pub mod encode;
/// The choice of a map file from a list.
pub mod fetcher;
/// Members of relations and their ids.
pub mod member;
/// Nodes.
pub mod node;
/// The reading of a document, event by event.
pub mod parser;
/// Relations.
pub mod relation;
/// Runs of positions.
pub mod span;
/// What a table of the store holds after the statements of a load.
pub mod store;
/// Tags.
pub mod tag;
/// Texts: comparison, numbers, pieces between delimiters.
pub mod text;
/// Errors, kinds of entity, rows of tags.
pub mod utils;
/// Ways.
pub mod way;
/// Rows of the table that links ways to nodes.
pub mod way_node;
/// The events that a document is made of.
pub mod xml;
