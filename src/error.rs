use vstd::prelude::*;

verus! {

/// What can go wrong while reading, computing or persisting task data.
#[derive(Debug, Clone, PartialEq, Eq)]
pub enum TaskError {
    /// The backing store failed; the text says how.
    Io(String),
    /// A read addressed an artifact that does not exist.
    NotFound(String),
    /// A task's own computation failed.
    Compute(String),
    /// Freshly computed output was rejected before it was persisted.
    Validation(String),
    /// A dependency's output was absent when a task was about to compute.
    MissingInput(String),
    /// No fresh node identifier could be minted.
    IdCollision,
}

} // verus!
