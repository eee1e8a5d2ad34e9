//! What goes wrong around the registry rather than in it.

use std::sync::PoisonError;
use vstd::prelude::*;

verus! {

/// `std::sync::PoisonError`: what a lock returns once a holder of it has
/// panicked. Nothing is read from it.
#[verifier::external_type_specification]
#[verifier::external_body]
#[verifier::reject_recursive_types(T)]
pub struct ExPoisonError<T>(PoisonError<T>);

/// A failure of the machinery that shares the registry between its callers.
#[derive(Clone, Copy, Debug, PartialEq, Eq, Structural)]
pub enum InternError {
    /// The lock around the registry could not be taken.
    LockError,
}

/// What an internal error reads as.
pub open spec fn description(error: InternError) -> Seq<char> {
    match error {
        InternError::LockError => "Error in a lock"@,
    }
}

impl<T> From<PoisonError<T>> for InternError {
    fn from(err: PoisonError<T>) -> (error: InternError) {
        InternError::LockError
    }
}

impl<T> vstd::std_specs::convert::FromSpecImpl<PoisonError<T>> for InternError {
    open spec fn obeys_from_spec() -> bool {
        true
    }

    open spec fn from_spec(err: PoisonError<T>) -> InternError {
        InternError::LockError
    }
}

impl InternError {
    /// The error in words.
    pub fn to_string(&self) -> (text: String)
        ensures
            text@ == description(*self),
    {
        match self {
            InternError::LockError => "Error in a lock".to_owned(),
        }
    }
}

} // verus!
