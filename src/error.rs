//! Errors reported by the store and by input validation.
use vstd::prelude::*;

verus! {

/// What can go wrong, each with a human-readable detail.
#[derive(Debug)]
pub enum AppError {
    /// A requested index or root does not exist.
    NotFound(String),
    /// Construction broke an internal invariant.
    TreeBuildError(String),
    /// Caller-supplied input was rejected.
    InvalidInput(String),
    /// Any other failure.
    Internal(String),
}

} // verus!
