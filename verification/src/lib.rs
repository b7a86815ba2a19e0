use vstd::prelude::*;

pub mod join;
pub mod models;
pub mod rtree;
pub mod utils;
pub mod weights;

verus! {

/// The library's fatal error conditions.
#[derive(PartialEq, Eq, Structural, Debug, Clone, Copy)]
pub enum GeoError {
    /// A polygon id carries no parent separator where hierarchical grouping
    /// was requested: a data-integrity failure, never silently dropped.
    MissingStateId,
    /// Two join strategies disagree on the output mapping: a correctness bug
    /// in pruning or indexing, reported rather than reconciled.
    CountMismatch,
}

} // verus!
