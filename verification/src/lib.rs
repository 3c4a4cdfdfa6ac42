//! Retrieval logic of a desktop document search engine: query analysis,
//! context assembly, indexing decisions and the vector store.
use vstd::prelude::*;

pub mod ai;
pub mod commands;
pub mod embedding;
pub mod identity;
pub mod indexer;
pub mod json;
pub mod order;
pub mod parser;
pub mod score;
pub mod search;
pub mod select;
pub mod session;
pub mod text;
pub mod watcher;

verus! {

} // verus!
