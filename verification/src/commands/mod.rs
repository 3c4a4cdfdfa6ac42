//! The commands of the application, reduced to what they decide and compute.
use vstd::prelude::*;

pub mod chat;
pub mod context_guard;
pub mod folder;
pub mod index;
pub mod search;
pub mod settings;

verus! {

} // verus!
