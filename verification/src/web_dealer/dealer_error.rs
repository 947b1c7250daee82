//! The error a dealer can report at startup.

use vstd::prelude::*;

verus! {

/// Failure to set up the dealer: the listening address could not be bound.
#[derive(Debug, Clone, Copy, PartialEq, Eq, Structural)]
pub enum DealerError {
    CannotListen,
}

impl DealerError {
    /// A human-readable description of the error.
    pub fn message(&self) -> (r: String)
        ensures
            r@ == "Can not listen for address"@,
    {
        "Can not listen for address".to_owned()
    }
}

} // verus!
