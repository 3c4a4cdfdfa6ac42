//! Embeddings: from texts to the vectors that the index is made of. The
//! components of a vector are carried as the bits of single-precision numbers.
use vstd::prelude::*;

use crate::text::edit;
use crate::text::number;

pub mod gemini_embed;
pub mod pipeline;

verus! {

/// Why there is no embedding.
#[derive(Debug)]
pub enum EmbeddingError {
    /// The request or its reply failed.
    ModelError(String),
    /// The service refused.
    ApiError(String),
    /// Reading or writing failed.
    IoError(String),
    /// No key has quota left: how many keys there are, and how often they were
    /// tried.
    QuotaExhausted(usize, u32),
}

/// What an error says.
pub open spec fn error_text(e: EmbeddingError) -> Seq<char> {
    match e {
        EmbeddingError::ModelError(m) => "Model error: "@ + m@,
        EmbeddingError::ApiError(m) => "API error: "@ + m@,
        EmbeddingError::IoError(m) => "IO error: "@ + m@,
        EmbeddingError::QuotaExhausted(keys, tries) => "API quota exhausted: tất cả "@
            + number::decimal(keys as nat) + " keys đều bị 429 sau "@ + number::decimal(
            tries as nat,
        ) + " retries"@,
    }
}

impl EmbeddingError {
    /// What the error says.
    pub fn message(&self) -> (r: String)
        ensures
            r@ == error_text(*self),
    {
        match self {
            EmbeddingError::ModelError(m) => edit::concat2("Model error: ", m.as_str()),
            EmbeddingError::ApiError(m) => edit::concat2("API error: ", m.as_str()),
            EmbeddingError::IoError(m) => edit::concat2("IO error: ", m.as_str()),
            EmbeddingError::QuotaExhausted(keys, tries) => {
                let n: String = number::to_decimal(*keys as u128);
                let t: String = number::to_decimal(*tries as u128);
                let mut out: String = edit::concat3(
                    "API quota exhausted: tất cả ",
                    n.as_str(),
                    " keys đều bị 429 sau ",
                );
                out.append(t.as_str());
                out.append(" retries");
                out
            },
        }
    }
}

/// A text with its vector.
#[derive(Debug)]
pub struct EmbeddingResult {
    /// The text.
    pub text: String,
    /// The components of the vector, as bits.
    pub vector: Vec<u32>,
}

} // verus!
