//! The secret tree and sender ratchets of the MLS key schedule (RFC 9420, section 9).
use vstd::prelude::*;

pub mod ciphersuite;
pub mod kdf;
pub mod provider;
pub mod error;
pub mod secret;
pub mod config;
pub mod ratchet;
pub mod decryption;
pub mod dual_use;
pub mod tree;
pub mod secret_tree;

verus! {

} // verus!
