//! The error kinds of the engine.
use vstd::prelude::*;

verus! {

/// What went wrong, with a message.
#[derive(Debug, PartialEq, Eq)]
pub enum AppError {
    /// A filesystem read or metadata failure.
    Io(String),
    /// A path without a name or parent, a stale entry, a path outside its base, a file too large.
    Path(String),
    /// An unreadable directory or file contents.
    Parse(String),
    /// An operation invoked in a mode or on a state that does not allow it.
    State(String),
    /// The terminal could not be driven.
    Terminal(String),
    /// A key that should be in the cache is not.
    Cache(String),
}

/// A result whose error is an `AppError`.
pub type AppResult<T> = Result<T, AppError>;

} // verus!
