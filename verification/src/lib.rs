//! A line-indexed piece-table engine for viewing and editing very large
//! text files: a read-only original backing store, an append-only edit
//! buffer, line-granular edits, block extraction and substring search.

use vstd::prelude::*;

pub mod engine;
pub mod block;
pub mod edit;
pub mod index;
pub mod laws;
pub mod piece;
pub mod search;
pub mod outside;
pub mod text;

verus! {

} // verus!
