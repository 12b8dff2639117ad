//! The errors that the store reports to its caller.

use vstd::prelude::*;

verus! {

/// Why an operation of the store failed.
#[derive(Clone, Copy, Debug, PartialEq, Eq, Structural)]
pub enum FsError {
    /// The path validator rejected the logical file name.
    InvalidPath,
    /// The host holds no file under the path.
    NotFound,
    /// The host already holds a file under the path.
    AlreadyExists,
    /// The host refuses the path, or the session does not permit the
    /// operation in its present state or protection mode.
    PermissionDenied,
    /// The identity context could not produce a secret.
    KeyDerivationFailed,
    /// A tag did not verify: tampering, corruption or a foreign identity.
    IntegrityViolation,
    /// The host layer failed in a way the store does not interpret.
    Io,
}

/// A tag that does not belong to the block it was presented with.
#[derive(Clone, Copy, Debug, PartialEq, Eq, Structural)]
pub struct AuthFailure;

} // verus!
