//! Sender ratchets: the hash chain of one sender and the window of a receiver.
use vstd::prelude::*;
use crate::ciphersuite::Ciphersuite;
use crate::config::SenderRatchetConfiguration;
use crate::error::SecretTreeError;
use crate::kdf::{derive_tree_secret, kdf_derive_tree_secret};
use crate::secret::{material_view, AeadKey, AeadNonce, RatchetKeyMaterial, Secret};
use openmls_rust_crypto::RustCrypto;

verus! {

/// The bytes of `"secret"`.
pub open spec fn secret_label() -> Seq<u8> {
    seq![115u8, 101u8, 99u8, 114u8, 101u8, 116u8]
}

/// The bytes of `"key"`.
pub open spec fn key_label() -> Seq<u8> {
    seq![107u8, 101u8, 121u8]
}

/// The bytes of `"nonce"`.
pub open spec fn nonce_label() -> Seq<u8> {
    seq![110u8, 111u8, 110u8, 99u8, 101u8]
}

/// The ratchet secret that follows `s` at generation `g`.
pub closed spec fn next_chain_secret(cs: Ciphersuite, s: Seq<u8>, g: nat) -> Seq<u8> {
    derive_tree_secret(cs, s, secret_label(), g, cs.spec_hash_length())
}

/// The AEAD key and nonce derived from ratchet secret `s` at generation `g`.
pub closed spec fn key_material(cs: Ciphersuite, s: Seq<u8>, g: nat) -> (Seq<u8>, Seq<u8>) {
    (
        derive_tree_secret(cs, s, key_label(), g, cs.spec_aead_key_length()),
        derive_tree_secret(cs, s, nonce_label(), g, cs.spec_aead_nonce_length()),
    )
}

/// The ratchet secret `n` steps after secret `s` of generation `g`.
pub open spec fn chain_secret(cs: Ciphersuite, s: Seq<u8>, g: nat, n: nat) -> Seq<u8>
    decreases n,
{
    if n == 0 {
        s
    } else {
        next_chain_secret(cs, chain_secret(cs, s, g, (n - 1) as nat), (g + n - 1) as nat)
    }
}

/// The key material of generation `g + n` on the chain that holds `s` at generation `g`.
pub open spec fn material_at(cs: Ciphersuite, s: Seq<u8>, g: nat, n: nat) -> (Seq<u8>, Seq<u8>) {
    key_material(cs, chain_secret(cs, s, g, n), g + n)
}

/// The sender ratchet of RFC 9420, section 9.1: generation `g` of a chain
/// whose secret there is `s` has the AEAD key
/// `DeriveTreeSecret(s, "key", g, AEAD.Nk)`, the nonce
/// `DeriveTreeSecret(s, "nonce", g, AEAD.Nn)`, and the next generation's
/// secret `DeriveTreeSecret(s, "secret", g, KDF.Nh)`.
pub proof fn lemma_ratchet_derivation(cs: Ciphersuite, s: Seq<u8>, g: nat)
    ensures
        key_material(cs, s, g).0 == derive_tree_secret(cs, s, seq![107u8, 101u8, 121u8], g, cs.spec_aead_key_length()),
        key_material(cs, s, g).1 == derive_tree_secret(
            cs,
            s,
            seq![110u8, 111u8, 110u8, 99u8, 101u8],
            g,
            cs.spec_aead_nonce_length(),
        ),
        next_chain_secret(cs, s, g) == derive_tree_secret(
            cs,
            s,
            seq![115u8, 101u8, 99u8, 114u8, 101u8, 116u8],
            g,
            cs.spec_hash_length(),
        ),
        chain_secret(cs, s, g, 1) == next_chain_secret(cs, s, g),
        material_at(cs, s, g, 0) == key_material(cs, s, g),
{
    assert(key_label() =~= seq![107u8, 101u8, 121u8]);
    assert(nonce_label() =~= seq![110u8, 111u8, 110u8, 99u8, 101u8]);
    assert(secret_label() =~= seq![115u8, 101u8, 99u8, 114u8, 101u8, 116u8]);
    assert(chain_secret(cs, s, g, 0) == s);
    assert((g + 1 - 1) as nat == g);
}

/// The key lengths of every cipher suite fit in one hash output.
pub proof fn lemma_lengths(cs: Ciphersuite)
    ensures
        cs.spec_aead_key_length() <= cs.spec_hash_length(),
        cs.spec_aead_nonce_length() <= cs.spec_hash_length(),
        32 <= cs.spec_hash_length() <= 64,
{
}

fn secret_label_bytes() -> (r: Vec<u8>)
    ensures
        r@ == secret_label(),
{
    let v: Vec<u8> = vec![115u8, 101u8, 99u8, 114u8, 101u8, 116u8];
    assert(v@ =~= secret_label());
    v
}

fn key_label_bytes() -> (r: Vec<u8>)
    ensures
        r@ == key_label(),
{
    let v: Vec<u8> = vec![107u8, 101u8, 121u8];
    assert(v@ =~= key_label());
    v
}

fn nonce_label_bytes() -> (r: Vec<u8>)
    ensures
        r@ == nonce_label(),
{
    let v: Vec<u8> = vec![110u8, 111u8, 110u8, 99u8, 101u8];
    assert(v@ =~= nonce_label());
    v
}

/// The head of a hash chain: a secret and its generation.
#[derive(Debug, Clone, PartialEq, Eq)]
pub struct RatchetSecret {
    secret: Secret,
    generation: u32,
}

impl RatchetSecret {
    pub closed spec fn spec_secret(&self) -> Seq<u8> {
        self.secret@
    }

    pub closed spec fn spec_generation(&self) -> u32 {
        self.generation
    }

    /// The chain head at generation zero.
    pub fn initial_ratchet_secret(secret: Secret) -> (r: RatchetSecret)
        ensures
            r.spec_secret() == secret@,
            r.spec_generation() == 0,
    {
        RatchetSecret { secret, generation: 0 }
    }

    /// The generation of the next secret that the chain hands out.
    pub fn generation(&self) -> (r: u32)
        ensures
            r == self.spec_generation(),
    {
        self.generation
    }

    /// Moves the chain head to another generation, keeping its secret.
    pub fn set_generation(&mut self, generation: u32)
        ensures
            final(self).spec_generation() == generation,
            final(self).spec_secret() == old(self).spec_secret(),
    {
        self.generation = generation;
    }

    /// The secret of the chain head.
    pub fn secret_bytes(&self) -> (r: &[u8])
        ensures
            r@ == self.spec_secret(),
    {
        self.secret.as_slice()
    }

    /// A chain head equal to this one.
    pub fn duplicate(&self) -> (r: RatchetSecret)
        ensures
            r.spec_secret() == self.spec_secret(),
            r.spec_generation() == self.spec_generation(),
    {
        RatchetSecret { secret: self.secret.duplicate(), generation: self.generation }
    }

    /// Derives the key material of the current generation and moves the chain
    /// one step forward. At generation `u32::MAX` the chain is exhausted.
    pub fn ratchet_forward(&mut self, crypto: &RustCrypto, cs: Ciphersuite) -> (r: Result<
        (u32, RatchetKeyMaterial),
        SecretTreeError,
    >)
        ensures
            old(self).spec_generation() == u32::MAX ==> r == Err::<(u32, RatchetKeyMaterial), SecretTreeError>(
                SecretTreeError::RatchetTooLong,
            ),
            old(self).spec_generation() < u32::MAX && old(self).spec_secret().len() < cs.spec_hash_length()
                ==> r matches Err(SecretTreeError::CryptoError(_)),
            r is Err ==> *final(self) == *old(self),
            old(self).spec_generation() < u32::MAX && old(self).spec_secret().len() >= cs.spec_hash_length()
                ==> {
                &&& r is Ok
                &&& r->Ok_0.0 == old(self).spec_generation()
                &&& material_view(r->Ok_0.1) == key_material(
                    cs,
                    old(self).spec_secret(),
                    old(self).spec_generation() as nat,
                )
                &&& final(self).spec_generation() == old(self).spec_generation() + 1
                &&& final(self).spec_secret() == next_chain_secret(
                    cs,
                    old(self).spec_secret(),
                    old(self).spec_generation() as nat,
                )
                &&& final(self).spec_secret().len() == cs.spec_hash_length()
            },
    {
        if self.generation == u32::MAX {
            return Err(SecretTreeError::RatchetTooLong);
        }
        proof {
            lemma_lengths(cs);
        }
        let nonce = match kdf_derive_tree_secret(
            crypto,
            cs,
            self.secret.as_slice(),
            nonce_label_bytes().as_slice(),
            self.generation,
            cs.aead_nonce_length(),
        ) {
            Ok(v) => v,
            Err(e) => return Err(SecretTreeError::CryptoError(e)),
        };
        let key = match kdf_derive_tree_secret(
            crypto,
            cs,
            self.secret.as_slice(),
            key_label_bytes().as_slice(),
            self.generation,
            cs.aead_key_length(),
        ) {
            Ok(v) => v,
            Err(e) => return Err(SecretTreeError::CryptoError(e)),
        };
        let next = match kdf_derive_tree_secret(
            crypto,
            cs,
            self.secret.as_slice(),
            secret_label_bytes().as_slice(),
            self.generation,
            cs.hash_length(),
        ) {
            Ok(v) => v,
            Err(e) => return Err(SecretTreeError::CryptoError(e)),
        };
        let generation = self.generation;
        self.secret = Secret::from_vec(next);
        self.generation = generation + 1;
        Ok((generation, (AeadKey::from_vec(key), AeadNonce::from_vec(nonce))))
    }
}

} // verus!
