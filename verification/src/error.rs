//! Errors of the secret tree and its sender ratchets.
use vstd::prelude::*;
use openmls_traits::types::CryptoError;

verus! {

/// Why a secret could not be handed out.
#[derive(Debug, Clone, Copy, PartialEq, Eq)]
pub enum SecretTreeError {
    /// The generation lies before the ratchet's out-of-order window.
    TooDistantInThePast,
    /// The generation lies beyond the ratchet's maximum forward distance.
    TooDistantInTheFuture,
    /// The leaf index lies outside the tree, or the window holds no such entry.
    IndexOutOfBounds,
    /// The secret of this generation was handed out before and was deleted.
    SecretReuseError,
    /// The ratchet has reached the last generation that a `u32` can count.
    RatchetTooLong,
    /// The leaf's ratchet is of the other kind (own leaf versus other leaves).
    RatchetTypeError,
    /// A generation lane is wider than the sender ratchet's windows.
    GenerationLaneTooWide,
    /// A generation lane's residue does not lie below its width.
    GenerationLaneInvalidResidue,
    /// The crypto provider refused a derivation.
    CryptoError(CryptoError),
}

} // verus!
