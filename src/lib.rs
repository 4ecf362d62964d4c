//! A knowledge graph of named entities, their observations and typed
//! relations: the store's operations, ranked search, and the record form in
//! which a graph is persisted.

use vstd::prelude::*;

pub mod graph;
pub mod search;
pub mod laws;
pub mod items;
pub mod requests;

verus! {

} // verus!
