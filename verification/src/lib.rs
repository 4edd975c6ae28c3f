//! A personal study-card manager's core engine: a hierarchical deck tree kept
//! as a closure table, stashes (flat card groupings), a review-candidate
//! selector with a single-slot-per-container cache, and a score tracker with
//! an append-only history of score changes.
//!
//! The relational store is modelled in memory: every table of the schema is an
//! explicit data structure with its well-formedness invariant, and every
//! operation carries a contract that pins down its effect on the store.
#![verifier::loop_isolation(false)]

pub mod cascade;
pub mod hierarchy;
pub mod review;
pub mod scores;
pub mod stashes;
pub mod store;
pub mod table;

use vstd::prelude::*;

verus! {

/// The single failure kind of the store: a row that an operation needs does
/// not exist.
#[derive(Clone, Copy, Debug, PartialEq, Eq, Structural)]
pub enum StoreError {
    NotFound,
}

} // verus!
