use vstd::prelude::*;

verus! {

/// What an operation on a node handle or a block can fail with.
#[derive(Clone, Copy, Debug, PartialEq, Eq, Structural)]
pub enum Error {
    /// The peer named in the call is not a member of the genesis group.
    UnknownPeer,
    /// We have already voted for this network event.
    DuplicateVote,
    /// The vote is for another network event than the block's payload.
    MismatchedPayload,
    /// The vote was not signed by the peer it is presented for.
    SignatureFailure,
    /// Our own id is not a member of the genesis group we were given.
    InvalidSelfState,
    /// A gossip message carries a vote by a peer outside the genesis group.
    InvalidEvent,
}

/// The status code that the C interface reports for an error (never 0).
pub open spec fn spec_error_code(e: Error) -> int {
    match e {
        Error::UnknownPeer => -1,
        Error::DuplicateVote => -2,
        Error::MismatchedPayload => -3,
        Error::SignatureFailure => -4,
        Error::InvalidSelfState => -5,
        Error::InvalidEvent => -6,
    }
}

/// The status code that the C interface returns for the outcome of a call:
/// `0` on success, the error's own negative code otherwise.
pub open spec fn spec_status_code<T>(r: Result<T, Error>) -> int {
    match r {
        Ok(_) => 0,
        Err(e) => spec_error_code(e),
    }
}

impl Error {
    /// The negative status code of this error.
    pub fn code(&self) -> (c: i32)
        ensures
            c == spec_error_code(*self),
            c < 0,
    {
        match self {
            Error::UnknownPeer => -1,
            Error::DuplicateVote => -2,
            Error::MismatchedPayload => -3,
            Error::SignatureFailure => -4,
            Error::InvalidSelfState => -5,
            Error::InvalidEvent => -6,
        }
    }
}

/// The status code of a call's outcome: `0` exactly when it succeeded.
pub fn status_code<T>(r: &Result<T, Error>) -> (c: i32)
    ensures
        c == spec_status_code(*r),
        (c == 0) <==> r is Ok,
{
    match r {
        Ok(_) => 0,
        Err(e) => e.code(),
    }
}

/// Distinct errors have distinct status codes, so the code identifies the error.
pub proof fn law_error_codes_distinct(a: Error, b: Error)
    ensures
        spec_error_code(a) == spec_error_code(b) ==> a == b,
        spec_error_code(a) != 0,
{
}

} // verus!
