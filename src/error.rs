//! The errors of catalog and replication operations.
use vstd::prelude::*;

verus! {

#[derive(Debug, Clone, Copy, PartialEq, Eq, Structural)]
pub enum PlaysetError {
    /// A requested hash resolves to no content of the expected kind.
    NotFound,
    /// An import named an unknown type, or its payload is not an entry of
    /// that type.
    UnknownOrMismatchedType,
    /// The remote invocation channel failed.
    RemoteInvocationFailure,
    /// A recomputed hash disagrees with the hash a payload was checked under.
    InvariantViolation,
}

} // verus!
