//! The ways in which an operation can be refused.

use vstd::prelude::*;

verus! {

/// Why an operation was refused. A refused operation changes nothing.
#[derive(Clone, Copy, Debug, PartialEq, Eq, Structural)]
pub enum Error {
    /// A poll with this id exists already.
    AlreadyExists,
    /// The zero-knowledge proof was rejected.
    InvalidProof,
    /// No poll has the id that the proof names.
    UnknownContext,
    /// The nullifier has signalled in this poll before.
    ReplayedNullifier,
    /// The proof was made for another root than the tree's current one.
    StaleRoot,
    /// The proof was made for another signal.
    SignalMismatch,
    /// The leaf index is not below the number of leaves.
    IndexOutOfRange,
    /// The public inputs are no list of exactly four field elements.
    MalformedPublicInputs,
    /// The commitment is no field element.
    MalformedCommitment,
}

impl Error {
    /// The words in which the refusal is reported.
    pub fn message(&self) -> (text: &'static str)
        ensures
            text@ == match *self {
                Error::AlreadyExists => "poll already exists"@,
                Error::InvalidProof => "invalid proof"@,
                Error::UnknownContext => "poll doesn't exist"@,
                Error::ReplayedNullifier => "used nullifier"@,
                Error::StaleRoot => "wrong root"@,
                Error::SignalMismatch => "mismatched signal"@,
                Error::IndexOutOfRange => "leaf index out of range"@,
                Error::MalformedPublicInputs => "malformed public inputs"@,
                Error::MalformedCommitment => "malformed commitment"@,
            },
    {
        match self {
            Error::AlreadyExists => "poll already exists",
            Error::InvalidProof => "invalid proof",
            Error::UnknownContext => "poll doesn't exist",
            Error::ReplayedNullifier => "used nullifier",
            Error::StaleRoot => "wrong root",
            Error::SignalMismatch => "mismatched signal",
            Error::IndexOutOfRange => "leaf index out of range",
            Error::MalformedPublicInputs => "malformed public inputs",
            Error::MalformedCommitment => "malformed commitment",
        }
    }
}

} // verus!
