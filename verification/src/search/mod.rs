//! The two indexes behind a search: keywords and vectors.
use vstd::prelude::*;

pub mod hybrid;
pub mod vector_index;

verus! {

} // verus!
