//! MLS cipher suites and the parameters that the key schedule reads from them.
use vstd::prelude::*;

verus! {

/// The hash functions used by the MLS cipher suites.
#[derive(Debug, Clone, Copy, PartialEq, Eq, Structural)]
#[allow(non_camel_case_types)]
pub enum HashType {
    Sha2_256,
    Sha2_384,
    Sha2_512,
}

impl HashType {
    /// Output size in bytes.
    pub open spec fn spec_size(self) -> nat {
        match self {
            HashType::Sha2_256 => 32,
            HashType::Sha2_384 => 48,
            HashType::Sha2_512 => 64,
        }
    }

    /// The code point of the hash function in the MLS registry.
    pub open spec fn code(self) -> u8 {
        match self {
            HashType::Sha2_256 => 4,
            HashType::Sha2_384 => 5,
            HashType::Sha2_512 => 6,
        }
    }

    /// Output size in bytes.
    pub fn size(&self) -> (r: usize)
        ensures
            r == self.spec_size(),
    {
        match self {
            HashType::Sha2_256 => 32,
            HashType::Sha2_384 => 48,
            HashType::Sha2_512 => 64,
        }
    }
}

/// The AEAD schemes used by the MLS cipher suites.
#[derive(Debug, Clone, Copy, PartialEq, Eq, Structural)]
pub enum AeadType {
    Aes128Gcm,
    Aes256Gcm,
    ChaCha20Poly1305,
}

impl AeadType {
    pub open spec fn spec_key_size(self) -> nat {
        match self {
            AeadType::Aes128Gcm => 16,
            AeadType::Aes256Gcm => 32,
            AeadType::ChaCha20Poly1305 => 32,
        }
    }

    pub open spec fn spec_nonce_size(self) -> nat {
        12
    }

    /// Key size in bytes.
    pub fn key_size(&self) -> (r: usize)
        ensures
            r == self.spec_key_size(),
    {
        match self {
            AeadType::Aes128Gcm => 16,
            AeadType::Aes256Gcm => 32,
            AeadType::ChaCha20Poly1305 => 32,
        }
    }

    /// Nonce size in bytes.
    pub fn nonce_size(&self) -> (r: usize)
        ensures
            r == self.spec_nonce_size(),
    {
        12
    }
}

/// The MLS cipher suites of RFC 9420.
#[derive(Debug, Clone, Copy, PartialEq, Eq, Structural)]
#[allow(non_camel_case_types)]
pub enum Ciphersuite {
    MLS_128_DHKEMX25519_AES128GCM_SHA256_Ed25519,
    MLS_128_DHKEMP256_AES128GCM_SHA256_P256,
    MLS_128_DHKEMX25519_CHACHA20POLY1305_SHA256_Ed25519,
    MLS_256_DHKEMX448_AES256GCM_SHA512_Ed448,
    MLS_256_DHKEMP521_AES256GCM_SHA512_P521,
    MLS_256_DHKEMX448_CHACHA20POLY1305_SHA512_Ed448,
    MLS_256_DHKEMP384_AES256GCM_SHA384_P384,
}

impl Ciphersuite {
    pub open spec fn spec_hash_algorithm(self) -> HashType {
        match self {
            Ciphersuite::MLS_128_DHKEMX25519_AES128GCM_SHA256_Ed25519
            | Ciphersuite::MLS_128_DHKEMP256_AES128GCM_SHA256_P256
            | Ciphersuite::MLS_128_DHKEMX25519_CHACHA20POLY1305_SHA256_Ed25519 => HashType::Sha2_256,
            Ciphersuite::MLS_256_DHKEMP384_AES256GCM_SHA384_P384 => HashType::Sha2_384,
            Ciphersuite::MLS_256_DHKEMX448_AES256GCM_SHA512_Ed448
            | Ciphersuite::MLS_256_DHKEMP521_AES256GCM_SHA512_P521
            | Ciphersuite::MLS_256_DHKEMX448_CHACHA20POLY1305_SHA512_Ed448 => HashType::Sha2_512,
        }
    }

    pub open spec fn spec_aead_algorithm(self) -> AeadType {
        match self {
            Ciphersuite::MLS_128_DHKEMX25519_AES128GCM_SHA256_Ed25519
            | Ciphersuite::MLS_128_DHKEMP256_AES128GCM_SHA256_P256 => AeadType::Aes128Gcm,
            Ciphersuite::MLS_128_DHKEMX25519_CHACHA20POLY1305_SHA256_Ed25519
            | Ciphersuite::MLS_256_DHKEMX448_CHACHA20POLY1305_SHA512_Ed448 => AeadType::ChaCha20Poly1305,
            Ciphersuite::MLS_256_DHKEMX448_AES256GCM_SHA512_Ed448
            | Ciphersuite::MLS_256_DHKEMP521_AES256GCM_SHA512_P521
            | Ciphersuite::MLS_256_DHKEMP384_AES256GCM_SHA384_P384 => AeadType::Aes256Gcm,
        }
    }

    /// `KDF.Nh`: the output length of the cipher suite's hash.
    pub open spec fn spec_hash_length(self) -> nat {
        self.spec_hash_algorithm().spec_size()
    }

    /// `AEAD.Nk`.
    pub open spec fn spec_aead_key_length(self) -> nat {
        self.spec_aead_algorithm().spec_key_size()
    }

    /// `AEAD.Nn`.
    pub open spec fn spec_aead_nonce_length(self) -> nat {
        self.spec_aead_algorithm().spec_nonce_size()
    }

    pub fn hash_algorithm(&self) -> (r: HashType)
        ensures
            r == self.spec_hash_algorithm(),
    {
        match self {
            Ciphersuite::MLS_128_DHKEMX25519_AES128GCM_SHA256_Ed25519
            | Ciphersuite::MLS_128_DHKEMP256_AES128GCM_SHA256_P256
            | Ciphersuite::MLS_128_DHKEMX25519_CHACHA20POLY1305_SHA256_Ed25519 => HashType::Sha2_256,
            Ciphersuite::MLS_256_DHKEMP384_AES256GCM_SHA384_P384 => HashType::Sha2_384,
            Ciphersuite::MLS_256_DHKEMX448_AES256GCM_SHA512_Ed448
            | Ciphersuite::MLS_256_DHKEMP521_AES256GCM_SHA512_P521
            | Ciphersuite::MLS_256_DHKEMX448_CHACHA20POLY1305_SHA512_Ed448 => HashType::Sha2_512,
        }
    }

    pub fn aead_algorithm(&self) -> (r: AeadType)
        ensures
            r == self.spec_aead_algorithm(),
    {
        match self {
            Ciphersuite::MLS_128_DHKEMX25519_AES128GCM_SHA256_Ed25519
            | Ciphersuite::MLS_128_DHKEMP256_AES128GCM_SHA256_P256 => AeadType::Aes128Gcm,
            Ciphersuite::MLS_128_DHKEMX25519_CHACHA20POLY1305_SHA256_Ed25519
            | Ciphersuite::MLS_256_DHKEMX448_CHACHA20POLY1305_SHA512_Ed448 => AeadType::ChaCha20Poly1305,
            Ciphersuite::MLS_256_DHKEMX448_AES256GCM_SHA512_Ed448
            | Ciphersuite::MLS_256_DHKEMP521_AES256GCM_SHA512_P521
            | Ciphersuite::MLS_256_DHKEMP384_AES256GCM_SHA384_P384 => AeadType::Aes256Gcm,
        }
    }

    pub fn hash_length(&self) -> (r: usize)
        ensures
            r == self.spec_hash_length(),
    {
        self.hash_algorithm().size()
    }

    pub fn aead_key_length(&self) -> (r: usize)
        ensures
            r == self.spec_aead_key_length(),
    {
        self.aead_algorithm().key_size()
    }

    pub fn aead_nonce_length(&self) -> (r: usize)
        ensures
            r == self.spec_aead_nonce_length(),
    {
        self.aead_algorithm().nonce_size()
    }
}

/// Each cipher suite uses the hash and the AEAD that its name spells out
/// (RFC 9420, section 17.1), with their lengths in bytes: SHA-256, SHA-384
/// and SHA-512 give 32, 48 and 64 bytes; AES-128-GCM a 16-byte key,
/// AES-256-GCM and ChaCha20-Poly1305 a 32-byte key; every AEAD a 12-byte
/// nonce.
pub proof fn lemma_suite_parameters(cs: Ciphersuite)
    ensures
        cs == Ciphersuite::MLS_128_DHKEMX25519_AES128GCM_SHA256_Ed25519 ==> cs.spec_hash_algorithm() == HashType::Sha2_256
            && cs.spec_aead_algorithm() == AeadType::Aes128Gcm && cs.spec_hash_length() == 32 && cs.spec_aead_key_length() == 16,
        cs == Ciphersuite::MLS_128_DHKEMP256_AES128GCM_SHA256_P256 ==> cs.spec_hash_algorithm() == HashType::Sha2_256
            && cs.spec_aead_algorithm() == AeadType::Aes128Gcm && cs.spec_hash_length() == 32 && cs.spec_aead_key_length() == 16,
        cs == Ciphersuite::MLS_128_DHKEMX25519_CHACHA20POLY1305_SHA256_Ed25519 ==> cs.spec_hash_algorithm() == HashType::Sha2_256
            && cs.spec_aead_algorithm() == AeadType::ChaCha20Poly1305 && cs.spec_hash_length() == 32 && cs.spec_aead_key_length() == 32,
        cs == Ciphersuite::MLS_256_DHKEMX448_AES256GCM_SHA512_Ed448 ==> cs.spec_hash_algorithm() == HashType::Sha2_512
            && cs.spec_aead_algorithm() == AeadType::Aes256Gcm && cs.spec_hash_length() == 64 && cs.spec_aead_key_length() == 32,
        cs == Ciphersuite::MLS_256_DHKEMP521_AES256GCM_SHA512_P521 ==> cs.spec_hash_algorithm() == HashType::Sha2_512
            && cs.spec_aead_algorithm() == AeadType::Aes256Gcm && cs.spec_hash_length() == 64 && cs.spec_aead_key_length() == 32,
        cs == Ciphersuite::MLS_256_DHKEMX448_CHACHA20POLY1305_SHA512_Ed448 ==> cs.spec_hash_algorithm() == HashType::Sha2_512
            && cs.spec_aead_algorithm() == AeadType::ChaCha20Poly1305 && cs.spec_hash_length() == 64 && cs.spec_aead_key_length() == 32,
        cs == Ciphersuite::MLS_256_DHKEMP384_AES256GCM_SHA384_P384 ==> cs.spec_hash_algorithm() == HashType::Sha2_384
            && cs.spec_aead_algorithm() == AeadType::Aes256Gcm && cs.spec_hash_length() == 48 && cs.spec_aead_key_length() == 32,
        cs.spec_aead_nonce_length() == 12,
{
}

} // verus!
