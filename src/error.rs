//! The failures an operation of the core can report.
use vstd::prelude::*;

verus! {

/// Kinds of failure.
#[derive(Clone, Copy, Debug, PartialEq, Eq, Structural)]
pub enum AppError {
    /// A record id has no entry.
    NotFound,
    /// A feed could not be fetched, or read in neither supported format.
    InvalidFeedSource,
    /// The store failed an operation.
    StorageFailure,
    /// An operation that needs a signed-in viewer was attempted anonymously.
    Unauthenticated,
    /// An input lies outside its declared constraints.
    ValidationFailure,
}

/// The text that describes a kind of failure.
pub open spec fn message_of(e: AppError) -> Seq<char> {
    match e {
        AppError::NotFound => "not found"@,
        AppError::InvalidFeedSource => "invalid feed source"@,
        AppError::StorageFailure => "storage failure"@,
        AppError::Unauthenticated => "not signed in"@,
        AppError::ValidationFailure => "invalid input"@,
    }
}

impl AppError {
    /// The text that describes this failure, as recorded next to a feed.
    pub fn message(&self) -> (r: String)
        ensures
            r@ == message_of(*self),
    {
        match self {
            AppError::NotFound => "not found".to_owned(),
            AppError::InvalidFeedSource => "invalid feed source".to_owned(),
            AppError::StorageFailure => "storage failure".to_owned(),
            AppError::Unauthenticated => "not signed in".to_owned(),
            AppError::ValidationFailure => "invalid input".to_owned(),
        }
    }
}

} // verus!
