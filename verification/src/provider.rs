//! The cryptographic provider: the trusted interface to `openmls_rust_crypto`.
//!
//! Everything in this file is believed by Verus without proof; each item says
//! which outside function it calls and what its contract claims of it.
use vstd::prelude::*;
use crate::ciphersuite::HashType;
use openmls_traits::crypto::OpenMlsCrypto;
use openmls_traits::random::OpenMlsRand;

use openmls_rust_crypto::RustCrypto;
use openmls_traits::types::CryptoError;

verus! {

/// The crypto and randomness provider of `openmls_rust_crypto`.
#[verifier::external_type_specification]
#[verifier::external_body]
pub struct ExRustCrypto(openmls_rust_crypto::RustCrypto);

/// The error type of the outside crypto provider.
#[verifier::external_type_specification]
#[verifier::external_body]
pub struct ExCryptoError(openmls_traits::types::CryptoError);

/// The output of RFC 5869 HKDF-Expand with the hash function of the given
/// code point, pseudorandom key `prk`, `info` and output length `okm_len`.
pub uninterp spec fn hkdf_expand_output(hash_code: u8, prk: Seq<u8>, info: Seq<u8>, okm_len: nat) -> Seq<u8>;

/// Calls `RustCrypto::hkdf_expand` (trait `OpenMlsCrypto`).
///
/// Claimed: the call succeeds exactly when `prk` is at least as long as the
/// hash output (the source's `Hkdf::from_prk` refuses shorter keys; the length
/// bound that `expand` checks is required here, so it cannot fail there), and
/// then yields `okm_len` bytes, the HKDF-Expand output named by
/// `hkdf_expand_output` of the hash, `prk`, `info` and `okm_len`. The error
/// value itself is left unsaid. The output length is bounded by `requires`
/// rather than answered with an error: the provider allocates `okm_len`
/// bytes before HKDF checks the length, so a huge length would abort there.
#[verifier::external_body]
pub(crate) fn hkdf_expand(crypto: &RustCrypto, hash: HashType, prk: &[u8], info: &[u8], okm_len: usize) -> (r: Result<Vec<u8>, CryptoError>)
    requires
        okm_len <= 255 * hash.spec_size(),
    ensures
        r is Ok <==> prk@.len() >= hash.spec_size(),
        r matches Ok(okm) ==> okm@ == hkdf_expand_output(hash.code(), prk@, info@, okm_len as nat),
        r matches Ok(okm) ==> okm@.len() == okm_len,
{
    let hash_type = match hash {
        HashType::Sha2_256 => openmls_traits::types::HashType::Sha2_256,
        HashType::Sha2_384 => openmls_traits::types::HashType::Sha2_384,
        HashType::Sha2_512 => openmls_traits::types::HashType::Sha2_512,
    };
    match crypto.hkdf_expand(hash_type, prk, info, okm_len) {
        Ok(okm) => Ok(okm.as_slice().to_vec()),
        Err(e) => Err(e),
    }
}

/// Calls `RustCrypto::random_vec` (trait `OpenMlsRand`).
///
/// Claimed: on success the result holds `len` bytes. Which bytes, and whether
/// the generator succeeds, depend on the generator's state and are left
/// unsaid. The provider's own error is reported as
/// `CryptoError::InsufficientRandomness`.
#[verifier::external_body]
pub(crate) fn random_vec(rand: &RustCrypto, len: usize) -> (r: Result<Vec<u8>, CryptoError>)
    requires
        len <= isize::MAX,
    ensures
        r matches Ok(v) ==> v@.len() == len,
{
    match rand.random_vec(len) {
        Ok(v) => Ok(v),
        Err(_) => Err(CryptoError::InsufficientRandomness),
    }
}

} // verus!
