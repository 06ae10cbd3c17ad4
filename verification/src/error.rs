//! The errors of the library.

use vstd::prelude::*;

verus! {

/// Why the hasher or the zero-commitment table refused a request.
#[derive(Clone, Copy, Debug, PartialEq, Eq, Structural)]
pub enum Error {
    /// The write would take the payload past the largest one a piece can hold.
    PayloadTooLarge,
    /// The level asked for is not among the levels the zero-commitment table has.
    ZeroCommitmentLevelOutOfRange,
}

impl Error {
    /// A sentence that says what went wrong.
    pub fn message(&self) -> (text: String)
        ensures
            text@ == match *self {
                Error::PayloadTooLarge => "Payload size exceeded"@,
                Error::ZeroCommitmentLevelOutOfRange => "Only levels between 0 and 63 inclusive are available"@,
            },
    {
        match self {
            Error::PayloadTooLarge => "Payload size exceeded".to_owned(),
            Error::ZeroCommitmentLevelOutOfRange => "Only levels between 0 and 63 inclusive are available".to_owned(),
        }
    }
}

} // verus!
