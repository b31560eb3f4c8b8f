//! `ExpandWithLabel` and `DeriveTreeSecret` of RFC 9420, section 8.
//!
//! The `KDFLabel` structure is encoded here by hand:
//! `struct { uint16 length; opaque label<V>; opaque context<V>; }`, where
//! `<V>` prefixes a byte string with its length as a variable-length integer
//! (RFC 9420, section 2.1.2) and the label is prefixed with `"MLS 1.0 "`.
use vstd::prelude::*;
use crate::ciphersuite::Ciphersuite;
use crate::provider::{hkdf_expand, hkdf_expand_output};
use openmls_rust_crypto::RustCrypto;
use openmls_traits::types::CryptoError;

verus! {

/// The largest length that a variable-length integer of MLS can encode.
pub open spec fn varint_limit() -> nat {
    0x4000_0000
}

/// The variable-length integer encoding of `n` (one, two or four bytes).
pub open spec fn varint(n: nat) -> Seq<u8> {
    if n < 64 {
        seq![n as u8]
    } else if n < 16384 {
        seq![(64 + n / 256) as u8, (n % 256) as u8]
    } else {
        seq![
            (128 + n / 0x100_0000) as u8,
            ((n / 0x1_0000) % 256) as u8,
            ((n / 256) % 256) as u8,
            (n % 256) as u8,
        ]
    }
}

/// `opaque data<V>`: the length prefix followed by the bytes.
pub open spec fn vl_bytes(data: Seq<u8>) -> Seq<u8> {
    varint(data.len()) + data
}

/// The bytes of `"MLS 1.0 "`.
pub open spec fn label_prefix() -> Seq<u8> {
    seq![77u8, 76u8, 83u8, 32u8, 49u8, 46u8, 48u8, 32u8]
}

/// The serialized `KDFLabel` for an output of `length` bytes.
pub open spec fn kdf_label(length: nat, label: Seq<u8>, context: Seq<u8>) -> Seq<u8> {
    seq![(length / 256) as u8, (length % 256) as u8] + vl_bytes(label_prefix() + label) + vl_bytes(context)
}

/// `ExpandWithLabel(secret, label, context, length)`.
pub open spec fn expand_with_label(
    cs: Ciphersuite,
    secret: Seq<u8>,
    label: Seq<u8>,
    context: Seq<u8>,
    length: nat,
) -> Seq<u8> {
    hkdf_expand_output(cs.spec_hash_algorithm().code(), secret, kdf_label(length, label, context), length)
}

/// The four big-endian bytes of a generation.
pub open spec fn be_u32(g: nat) -> Seq<u8> {
    seq![
        ((g / 0x100_0000) % 256) as u8,
        ((g / 0x1_0000) % 256) as u8,
        ((g / 256) % 256) as u8,
        (g % 256) as u8,
    ]
}

/// `DeriveTreeSecret(secret, label, generation, length)`.
pub open spec fn derive_tree_secret(cs: Ciphersuite, secret: Seq<u8>, label: Seq<u8>, generation: nat, length: nat) -> Seq<u8> {
    expand_with_label(cs, secret, label, be_u32(generation), length)
}

/// `DeriveTreeSecret` passes the generation as its context in four bytes,
/// most significant first: read back big-endian, they give the generation.
pub proof fn lemma_generation_encoding(g: u32)
    ensures
        be_u32(g as nat).len() == 4,
        be_u32(g as nat)[0] * 0x100_0000int + be_u32(g as nat)[1] * 0x1_0000int + be_u32(g as nat)[2] * 256int
            + be_u32(g as nat)[3] == g,
{
    let n = g as int;
    let b0 = (n / 0x100_0000) % 256;
    let b1 = (n / 0x1_0000) % 256;
    let b2 = (n / 256) % 256;
    let b3 = n % 256;
    assert(b0 * 0x100_0000 + b1 * 0x1_0000 + b2 * 256 + b3 == n) by (nonlinear_arith)
        requires
            0 <= n < 0x1_0000_0000,
            b0 == (n / 0x100_0000) % 256,
            b1 == (n / 0x1_0000) % 256,
            b2 == (n / 256) % 256,
            b3 == n % 256,
    ;
}

/// A variable-length integer of RFC 9420, section 2.1.2: the two top bits of
/// the first byte give the length (one, two or four bytes), and the other
/// bits, big-endian, give the value; the shortest length is used.
pub proof fn lemma_varint_decodes(n: nat)
    requires
        n < varint_limit(),
    ensures
        n < 64 ==> varint(n).len() == 1 && varint(n)[0] == n,
        64 <= n < 16384 ==> varint(n).len() == 2 && varint(n)[0] / 64 == 1 && (varint(n)[0] % 64) * 256int + varint(n)[1] == n,
        16384 <= n ==> varint(n).len() == 4 && varint(n)[0] / 64 == 2 && (varint(n)[0] % 64) * 0x100_0000int
            + varint(n)[1] * 0x1_0000int + varint(n)[2] * 256int + varint(n)[3] == n,
{
    let m = n as int;
    if 64 <= n < 16384 {
        let b0 = 64 + m / 256;
        let b1 = m % 256;
        assert(b0 / 64 == 1 && (b0 % 64) * 256 + b1 == m) by (nonlinear_arith)
            requires
                64 <= m < 16384,
                b0 == 64 + m / 256,
                b1 == m % 256,
        ;
    } else if 16384 <= n {
        let b0 = 128 + m / 0x100_0000;
        let b1 = (m / 0x1_0000) % 256;
        let b2 = (m / 256) % 256;
        let b3 = m % 256;
        assert(b0 / 64 == 2 && (b0 % 64) * 0x100_0000 + b1 * 0x1_0000 + b2 * 256 + b3 == m) by (nonlinear_arith)
            requires
                16384 <= m < 0x4000_0000,
                b0 == 128 + m / 0x100_0000,
                b1 == (m / 0x1_0000) % 256,
                b2 == (m / 256) % 256,
                b3 == m % 256,
        ;
    }
}

/// The `KDFLabel` of RFC 9420, section 8: the output length in two bytes,
/// most significant first, then the label prefixed with `"MLS 1.0 "` and the
/// context, each preceded by its length.
pub proof fn lemma_kdf_label_layout(length: u16, label: Seq<u8>, context: Seq<u8>)
    ensures
        kdf_label(length as nat, label, context) == seq![(length / 256) as u8, (length % 256) as u8]
            + varint(label.len() + 8) + seq![77u8, 76u8, 83u8, 32u8, 49u8, 46u8, 48u8, 32u8] + label + varint(context.len())
            + context,
        kdf_label(length as nat, label, context)[0] * 256int + kdf_label(length as nat, label, context)[1] == length,
{
    assert(label_prefix() =~= seq![77u8, 76u8, 83u8, 32u8, 49u8, 46u8, 48u8, 32u8]);
    assert((label_prefix() + label).len() == label.len() + 8);
    assert(kdf_label(length as nat, label, context) =~= seq![(length / 256) as u8, (length % 256) as u8]
        + varint(label.len() + 8) + seq![77u8, 76u8, 83u8, 32u8, 49u8, 46u8, 48u8, 32u8] + label + varint(context.len())
        + context);
}

/// Appends the variable-length integer encoding of `n`.
fn push_varint(out: &mut Vec<u8>, n: usize)
    requires
        n < varint_limit(),
    ensures
        final(out)@ == old(out)@ + varint(n as nat),
{
    if n < 64 {
        out.push(n as u8);
    } else if n < 16384 {
        out.push((64 + n / 256) as u8);
        out.push((n % 256) as u8);
    } else {
        out.push((128 + n / 0x100_0000) as u8);
        out.push(((n / 0x1_0000) % 256) as u8);
        out.push(((n / 256) % 256) as u8);
        out.push((n % 256) as u8);
    }
    assert(final(out)@ =~= old(out)@ + varint(n as nat));
}

/// Appends all of `data`.
fn push_all(out: &mut Vec<u8>, data: &[u8])
    ensures
        final(out)@ == old(out)@ + data@,
{
    let ghost start = out@;
    let mut i: usize = 0;
    while i < data.len()
        invariant
            i <= data@.len(),
            out@ == start + data@.subrange(0, i as int),
        decreases data@.len() - i,
    {
        out.push(data[i]);
        i = i + 1;
        assert(out@ =~= start + data@.subrange(0, i as int));
    }
    assert(data@.subrange(0, data@.len() as int) =~= data@);
}

/// Serializes the `KDFLabel` structure.
pub fn encode_kdf_label(length: u16, label: &[u8], context: &[u8]) -> (r: Vec<u8>)
    requires
        label@.len() + 8 < varint_limit(),
        context@.len() < varint_limit(),
    ensures
        r@ == kdf_label(length as nat, label@, context@),
{
    let mut out: Vec<u8> = Vec::new();
    out.push((length / 256) as u8);
    out.push((length % 256) as u8);
    push_varint(&mut out, label.len() + 8);
    let prefix: Vec<u8> = vec![77u8, 76u8, 83u8, 32u8, 49u8, 46u8, 48u8, 32u8];
    assert(prefix@ =~= label_prefix());
    push_all(&mut out, prefix.as_slice());
    push_all(&mut out, label);
    push_varint(&mut out, context.len());
    push_all(&mut out, context);
    assert(out@ =~= kdf_label(length as nat, label@, context@));
    out
}

/// The big-endian encoding of a generation.
pub fn generation_bytes(generation: u32) -> (r: Vec<u8>)
    ensures
        r@ == be_u32(generation as nat),
{
    let v: Vec<u8> = vec![
        ((generation / 0x100_0000) % 256) as u8,
        ((generation / 0x1_0000) % 256) as u8,
        ((generation / 256) % 256) as u8,
        (generation % 256) as u8,
    ];
    assert(v@ =~= be_u32(generation as nat));
    v
}

/// `ExpandWithLabel` through the provider's HKDF-Expand.
pub fn kdf_expand_label(
    crypto: &RustCrypto,
    cs: Ciphersuite,
    secret: &[u8],
    label: &[u8],
    context: &[u8],
    length: usize,
) -> (r: Result<Vec<u8>, CryptoError>)
    requires
        length <= 255 * cs.spec_hash_length(),
        label@.len() + 8 < varint_limit(),
        context@.len() < varint_limit(),
    ensures
        r is Ok <==> secret@.len() >= cs.spec_hash_length(),
        r matches Ok(v) ==> v@ == expand_with_label(cs, secret@, label@, context@, length as nat),
        r matches Ok(v) ==> v@.len() == length,
{
    let info = encode_kdf_label(length as u16, label, context);
    hkdf_expand(crypto, cs.hash_algorithm(), secret, info.as_slice(), length)
}

/// `DeriveTreeSecret` through the provider's HKDF-Expand.
pub fn kdf_derive_tree_secret(
    crypto: &RustCrypto,
    cs: Ciphersuite,
    secret: &[u8],
    label: &[u8],
    generation: u32,
    length: usize,
) -> (r: Result<Vec<u8>, CryptoError>)
    requires
        length <= 255 * cs.spec_hash_length(),
        label@.len() + 8 < varint_limit(),
    ensures
        r is Ok <==> secret@.len() >= cs.spec_hash_length(),
        r matches Ok(v) ==> v@ == derive_tree_secret(cs, secret@, label@, generation as nat, length as nat),
        r matches Ok(v) ==> v@.len() == length,
{
    let context = generation_bytes(generation);
    kdf_expand_label(crypto, cs, secret, label, context.as_slice(), length)
}

} // verus!
