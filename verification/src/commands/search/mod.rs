//! Search: from a query to keywords, ranked files and an answer context.
use vstd::prelude::*;

use crate::score::Score;

pub mod assembly;
pub mod context;
pub mod decompose;
pub mod keyword;
pub mod pii;
pub mod pipeline;
pub mod prompt;
pub mod smart_query;
pub mod turn;

verus! {

/// A chunk as it is shown in a list of results.
#[derive(Clone, Debug)]
pub struct SearchResult {
    /// The chunk.
    pub chunk_id: String,
    /// The path of its file.
    pub file_path: String,
    /// The name of its file.
    pub file_name: String,
    /// The snippet around the match.
    pub content_preview: String,
    /// The section it stands in.
    pub section: Option<String>,
    /// Its score, relative to the best.
    pub score: Score,
    /// The keywords that were found.
    pub highlights: Vec<String>,
}

/// A list of results.
#[derive(Debug)]
pub struct SearchResponse {
    /// The results.
    pub results: Vec<SearchResult>,
    /// How many there are.
    pub total: usize,
    /// The query.
    pub query: String,
    /// How long the search took.
    pub duration_ms: u64,
}

/// The answer to a query: results, a text, or both.
#[derive(Debug)]
pub struct SmartResponse {
    /// "search" or "chat".
    pub intent: String,
    /// The results.
    pub search_results: Option<SearchResponse>,
    /// The text.
    pub chat_response: Option<String>,
    /// The keywords.
    pub keywords: String,
    /// The files that the answer rests on.
    pub attached_files: Vec<AttachedFile>,
}

/// A file that an answer rests on.
#[derive(Debug)]
pub struct AttachedFile {
    /// Its name.
    pub file_name: String,
    /// Its path.
    pub file_path: String,
    /// Its score.
    pub score: Score,
}

impl Clone for AttachedFile {
    fn clone(&self) -> (r: Self)
        ensures
            r == *self,
    {
        AttachedFile {
            file_name: self.file_name.clone(),
            file_path: self.file_path.clone(),
            score: self.score,
        }
    }
}

} // verus!
