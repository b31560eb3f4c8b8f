use openmls_rust_crypto::OpenMlsRustCrypto;
use openmls_traits::crypto::OpenMlsCrypto;
use openmls_traits::types::HashType;
use openmls_traits::OpenMlsProvider;
use secret_tree::ciphersuite::Ciphersuite;
use secret_tree::kdf::{encode_kdf_label, generation_bytes, kdf_derive_tree_secret, kdf_expand_label};

#[test]
fn kdf_label_short_fields() {
    let encoded = encode_kdf_label(32, b"key", &[0, 0, 0, 1]);
    let mut expected = vec![0x00, 0x20, 11];
    expected.extend_from_slice(b"MLS 1.0 key");
    expected.extend_from_slice(&[4, 0, 0, 0, 1]);
    assert_eq!(encoded, expected);
}

#[test]
fn kdf_label_two_byte_lengths() {
    let label = vec![b'a'; 60];
    let context = vec![7u8; 300];
    let encoded = encode_kdf_label(0x0102, &label, &context);
    assert_eq!(&encoded[0..2], &[0x01, 0x02]);
    // 68 = 8 + 60 bytes of label: 0x4000 | 68
    assert_eq!(&encoded[2..4], &[0x40, 68]);
    assert_eq!(&encoded[4..12], b"MLS 1.0 ");
    assert_eq!(&encoded[12..72], &label[..]);
    // 300 bytes of context: 0x4000 | 300 = 0x412c
    assert_eq!(&encoded[72..74], &[0x41, 0x2c]);
    assert_eq!(&encoded[74..], &context[..]);
}

#[test]
fn kdf_label_four_byte_length() {
    let context = vec![1u8; 20_000];
    let encoded = encode_kdf_label(16, b"", &context);
    assert_eq!(&encoded[0..3], &[0x00, 0x10, 8]);
    // 20000 = 0x4e20: 0x8000_0000 | 0x4e20
    assert_eq!(&encoded[11..15], &[0x80, 0x00, 0x4e, 0x20]);
    assert_eq!(encoded.len(), 15 + 20_000);
}

#[test]
fn generation_is_big_endian() {
    assert_eq!(generation_bytes(0x0102_0304), vec![1, 2, 3, 4]);
    assert_eq!(generation_bytes(u32::MAX), vec![255, 255, 255, 255]);
}

// ExpandWithLabel is HKDF-Expand over the encoded label.
#[test]
fn expand_with_label_is_hkdf_expand_of_the_label() {
    let provider = OpenMlsRustCrypto::default();
    let secret = [3u8; 32];
    let out = kdf_expand_label(
        provider.crypto(),
        Ciphersuite::MLS_128_DHKEMX25519_AES128GCM_SHA256_Ed25519,
        &secret,
        b"tree",
        b"left",
        32,
    )
    .unwrap();
    let mut info = vec![0x00, 0x20, 12];
    info.extend_from_slice(b"MLS 1.0 tree");
    info.push(4);
    info.extend_from_slice(b"left");
    let expected = provider
        .crypto()
        .hkdf_expand(HashType::Sha2_256, &secret, &info, 32)
        .unwrap();
    assert_eq!(out, expected.as_slice().to_vec());
    assert_ne!(out, secret.to_vec());
    assert_eq!(out.len(), 32);
}

#[test]
fn derive_tree_secret_uses_the_generation_as_context() {
    let provider = OpenMlsRustCrypto::default();
    let cs = Ciphersuite::MLS_256_DHKEMP384_AES256GCM_SHA384_P384;
    let secret = [9u8; 48];
    let derived = kdf_derive_tree_secret(provider.crypto(), cs, &secret, b"nonce", 7, 12).unwrap();
    let direct = kdf_expand_label(provider.crypto(), cs, &secret, b"nonce", &[0, 0, 0, 7], 12).unwrap();
    assert_eq!(derived, direct);
    assert_eq!(derived.len(), 12);
    // A secret shorter than the hash output is refused.
    assert!(kdf_derive_tree_secret(provider.crypto(), cs, &secret[..47], b"nonce", 7, 12).is_err());
}

#[test]
fn ciphersuite_parameters() {
    let cs = Ciphersuite::MLS_256_DHKEMX448_CHACHA20POLY1305_SHA512_Ed448;
    assert_eq!(cs.hash_length(), 64);
    assert_eq!(cs.aead_key_length(), 32);
    assert_eq!(cs.aead_nonce_length(), 12);
    let cs = Ciphersuite::MLS_128_DHKEMP256_AES128GCM_SHA256_P256;
    assert_eq!(cs.hash_length(), 32);
    assert_eq!(cs.aead_key_length(), 16);
}
