//! Failure kinds shared by every mutating operation and decoder.

use vstd::prelude::*;

verus! {

/// Why an operation was refused. A refused operation leaves all state as it was.
#[derive(Clone, Copy, Debug, PartialEq, Eq, Structural)]
pub enum Error {
    /// The name already has an owner.
    IdentityAlreadyClaimed,
    /// The name has no owner.
    IdentityNotFound,
    /// The caller is not the owner recorded for the name.
    NotAuthorized,
    /// The challenge is not open in the block under construction.
    ChallengeNotFound,
    /// The challenge already has a solution in this block.
    SolutionAlreadySubmitted,
    /// The bytes are not the canonical encoding of a value.
    EncodingError,
}

} // verus!
