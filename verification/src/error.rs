//! The error type shared by the codec, the broker and the recovery image.
use vstd::prelude::*;

verus! {

/// Why an operation was refused.
#[derive(Clone, Copy, Debug, PartialEq, Eq, Structural)]
pub enum Error {
    Authentication,
    Forbidden,
    Invalid,
    Overloaded,
    Draining,
    Unavailable,
    Timeout,
    Configuration,
    Conflict,
    Storage,
    IncompatibleSpool,
    Internal,
    Codec,
}

} // verus!
