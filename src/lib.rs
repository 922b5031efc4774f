//! Extracts, filters and chunks server logs for summarising: gzip archives are
//! decoded, their text normalised, the informational entries after startup
//! kept, and the result cut into windows that fit a request budget.
use vstd::prelude::*;

pub mod archive;
pub mod chunk;
pub mod filter;

verus! {

} // verus!
