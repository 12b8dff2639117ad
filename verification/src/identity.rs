//! The identity of the calling context, and the root secret that it yields
//! for a file.

use crate::cipher::{derive_key, spec_derive};
use crate::error::FsError;
use vstd::prelude::*;

verus! {

/// Purpose label of a file's root secret.
pub const LABEL_ROOT: u8 = 0;

/// The identity under which files are sealed: the secret that the platform
/// binds to the calling context, or none where the platform cannot produce
/// one.
#[derive(Clone, Copy)]
pub struct IdentityContext {
    pub secret: Option<[u8; 32]>,
}

/// The root secret of the file with the given nonce under `identity`.
pub open spec fn spec_root_secret(identity: IdentityContext, nonce: Seq<u8>) -> Result<
    [u8; 32],
    FsError,
> {
    match identity.secret {
        Some(secret) => Ok(spec_derive(secret@, LABEL_ROOT, nonce)),
        None => Err(FsError::KeyDerivationFailed),
    }
}

impl IdentityContext {
    /// The identity that holds `secret`.
    pub fn new(secret: [u8; 32]) -> (identity: IdentityContext)
        ensures
            identity.secret == Some(secret),
    {
        IdentityContext { secret: Some(secret) }
    }

    /// An identity for which the platform yields no secret.
    pub fn unavailable() -> (identity: IdentityContext)
        ensures
            identity.secret is None,
    {
        IdentityContext { secret: None }
    }

    /// Derives the root secret of the file with the given nonce. The same
    /// identity and nonce always give the same secret.
    pub fn derive(&self, nonce: &[u8; 32]) -> (res: Result<[u8; 32], FsError>)
        ensures
            res == spec_root_secret(*self, nonce@),
    {
        match &self.secret {
            Some(secret) => Ok(derive_key(secret, LABEL_ROOT, nonce.as_slice())),
            None => Err(FsError::KeyDerivationFailed),
        }
    }
}

} // verus!
