//! From documents to chunks, and from chunks to the keyword index.
use vstd::prelude::*;

pub mod chunker;
pub mod tantivy_index;

verus! {

} // verus!
