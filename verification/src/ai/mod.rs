//! The language model: requests and replies, models, memory and structured
//! output.
use vstd::prelude::*;

pub mod gemini;
pub mod llm_provider;
pub mod memory;
pub mod model_registry;
pub mod reply;
pub mod structured;

verus! {

} // verus!
