//! Secrets and AEAD key material.
use vstd::prelude::*;
use crate::ciphersuite::Ciphersuite;
use crate::provider::random_vec;
use openmls_rust_crypto::RustCrypto;
use openmls_traits::types::CryptoError;

verus! {

/// Copies a byte slice into a vector.
pub fn slice_to_bytes(v: &[u8]) -> (r: Vec<u8>)
    ensures
        r@ == v@,
{
    let mut out: Vec<u8> = Vec::new();
    let mut i: usize = 0;
    while i < v.len()
        invariant
            i <= v@.len(),
            out@ == v@.subrange(0, i as int),
        decreases v@.len() - i,
    {
        out.push(v[i]);
        i = i + 1;
        assert(out@ =~= v@.subrange(0, i as int));
    }
    assert(v@.subrange(0, v@.len() as int) =~= v@);
    out
}

/// A secret of the key schedule.
#[derive(Debug, Clone, PartialEq, Eq)]
pub struct Secret {
    value: Vec<u8>,
}

impl View for Secret {
    type V = Seq<u8>;

    closed spec fn view(&self) -> Seq<u8> {
        self.value@
    }
}

impl Secret {
    /// A secret holding the given bytes.
    pub fn from_slice(bytes: &[u8]) -> (r: Secret)
        ensures
            r@ == bytes@,
    {
        Secret { value: slice_to_bytes(bytes) }
    }

    /// A secret holding the given bytes.
    pub fn from_vec(bytes: Vec<u8>) -> (r: Secret)
        ensures
            r@ == bytes@,
    {
        Secret { value: bytes }
    }

    /// A fresh random secret of the cipher suite's hash length.
    pub fn random(cs: Ciphersuite, rand: &RustCrypto) -> (r: Result<Secret, CryptoError>)
        ensures
            r matches Ok(s) ==> s@.len() == cs.spec_hash_length(),
    {
        match random_vec(rand, cs.hash_length()) {
            Ok(v) => Ok(Secret { value: v }),
            Err(e) => Err(e),
        }
    }

    /// The bytes of the secret.
    pub fn as_slice(&self) -> (r: &[u8])
        ensures
            r@ == self@,
    {
        self.value.as_slice()
    }

    /// An equal secret.
    pub fn duplicate(&self) -> (r: Secret)
        ensures
            r@ == self@,
    {
        Secret { value: slice_to_bytes(self.value.as_slice()) }
    }
}

/// An AEAD key.
#[derive(Debug, Clone, PartialEq, Eq)]
pub struct AeadKey {
    value: Vec<u8>,
}

impl View for AeadKey {
    type V = Seq<u8>;

    closed spec fn view(&self) -> Seq<u8> {
        self.value@
    }
}

impl AeadKey {
    pub fn from_vec(bytes: Vec<u8>) -> (r: AeadKey)
        ensures
            r@ == bytes@,
    {
        AeadKey { value: bytes }
    }

    /// The bytes of the key.
    pub fn as_slice(&self) -> (r: &[u8])
        ensures
            r@ == self@,
    {
        self.value.as_slice()
    }

    /// An equal key.
    pub fn duplicate(&self) -> (r: AeadKey)
        ensures
            r@ == self@,
    {
        AeadKey { value: slice_to_bytes(self.value.as_slice()) }
    }
}

/// An AEAD nonce.
#[derive(Debug, Clone, PartialEq, Eq)]
pub struct AeadNonce {
    value: Vec<u8>,
}

impl View for AeadNonce {
    type V = Seq<u8>;

    closed spec fn view(&self) -> Seq<u8> {
        self.value@
    }
}

impl AeadNonce {
    pub fn from_vec(bytes: Vec<u8>) -> (r: AeadNonce)
        ensures
            r@ == bytes@,
    {
        AeadNonce { value: bytes }
    }

    /// The bytes of the nonce.
    pub fn as_slice(&self) -> (r: &[u8])
        ensures
            r@ == self@,
    {
        self.value.as_slice()
    }

    /// An equal nonce.
    pub fn duplicate(&self) -> (r: AeadNonce)
        ensures
            r@ == self@,
    {
        AeadNonce { value: slice_to_bytes(self.value.as_slice()) }
    }
}

/// The key and nonce of one generation.
pub type RatchetKeyMaterial = (AeadKey, AeadNonce);

/// An equal key and nonce pair.
pub fn copy_material(m: &RatchetKeyMaterial) -> (r: RatchetKeyMaterial)
    ensures
        material_view(r) == material_view(*m),
{
    (m.0.duplicate(), m.1.duplicate())
}

/// The bytes of a key and nonce pair.
pub open spec fn material_view(m: RatchetKeyMaterial) -> (Seq<u8>, Seq<u8>) {
    (m.0@, m.1@)
}

} // verus!
