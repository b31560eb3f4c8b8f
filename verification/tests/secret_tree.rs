use std::collections::HashMap;

use openmls_rust_crypto::OpenMlsRustCrypto;
use openmls_traits::OpenMlsProvider;
use secret_tree::ciphersuite::Ciphersuite;
use secret_tree::config::SenderRatchetConfiguration;
use secret_tree::dual_use::GenerationLaneContext;
use secret_tree::error::SecretTreeError;
use secret_tree::secret_tree::{EncryptionSecret, SecretTree, SecretType};
use secret_tree::tree::{LeafNodeIndex, TreeSize};

const CIPHERSUITE: Ciphersuite = Ciphersuite::MLS_128_DHKEMX25519_AES128GCM_SHA256_Ed25519;

const CIPHERSUITES: [Ciphersuite; 7] = [
    Ciphersuite::MLS_128_DHKEMX25519_AES128GCM_SHA256_Ed25519,
    Ciphersuite::MLS_128_DHKEMP256_AES128GCM_SHA256_P256,
    Ciphersuite::MLS_128_DHKEMX25519_CHACHA20POLY1305_SHA256_Ed25519,
    Ciphersuite::MLS_256_DHKEMX448_AES256GCM_SHA512_Ed448,
    Ciphersuite::MLS_256_DHKEMP521_AES256GCM_SHA512_P521,
    Ciphersuite::MLS_256_DHKEMX448_CHACHA20POLY1305_SHA512_Ed448,
    Ciphersuite::MLS_256_DHKEMP384_AES256GCM_SHA384_P384,
];

// This tests the boundaries of the generations from a SecretTree
#[test]
fn test_boundaries() {
    for ciphersuite in CIPHERSUITES {
        test_boundaries_in(ciphersuite);
    }
}

fn test_boundaries_in(ciphersuite: Ciphersuite) {
    let provider = OpenMlsRustCrypto::default();
    let configuration = &SenderRatchetConfiguration::default();
    let encryption_secret = EncryptionSecret::random(ciphersuite, provider.rand()).unwrap();
    let mut secret_tree = SecretTree::new(
        ciphersuite,
        encryption_secret,
        TreeSize::from_leaf_count(3u32),
        LeafNodeIndex::new(2u32),
    );
    assert_eq!(secret_tree.own_index(), LeafNodeIndex::new(2u32));
    let secret_type = SecretType::ApplicationSecret;
    assert!(secret_tree
        .secret_for_decryption(provider.crypto(), LeafNodeIndex::new(0u32), secret_type, 0, configuration)
        .is_ok());
    assert!(secret_tree
        .secret_for_decryption(provider.crypto(), LeafNodeIndex::new(1u32), secret_type, 0, configuration)
        .is_ok());
    assert!(secret_tree
        .secret_for_decryption(provider.crypto(), LeafNodeIndex::new(0u32), secret_type, 1, configuration)
        .is_ok());
    assert!(secret_tree
        .secret_for_decryption(provider.crypto(), LeafNodeIndex::new(0u32), secret_type, 1_000, configuration)
        .is_ok());
    assert_eq!(
        secret_tree.secret_for_decryption(
            provider.crypto(),
            LeafNodeIndex::new(1u32),
            secret_type,
            // We're at generation 1, so 1001 is still ok.
            1002,
            configuration,
        ),
        Err(SecretTreeError::TooDistantInTheFuture)
    );
    assert!(secret_tree
        .secret_for_decryption(provider.crypto(), LeafNodeIndex::new(0u32), secret_type, 996, configuration)
        .is_ok());
    assert_eq!(
        secret_tree.secret_for_decryption(provider.crypto(), LeafNodeIndex::new(0u32), secret_type, 995, configuration),
        Err(SecretTreeError::TooDistantInThePast)
    );
    assert_eq!(
        secret_tree.secret_for_decryption(provider.crypto(), LeafNodeIndex::new(4u32), secret_type, 0, configuration),
        Err(SecretTreeError::IndexOutOfBounds)
    );
    let encryption_secret = EncryptionSecret::random(ciphersuite, provider.rand()).unwrap();
    let mut largetree = SecretTree::new(
        ciphersuite,
        encryption_secret,
        TreeSize::from_leaf_count(100_000u32),
        LeafNodeIndex::new(2u32),
    );
    assert!(largetree
        .secret_for_decryption(provider.crypto(), LeafNodeIndex::new(0u32), secret_type, 0, configuration)
        .is_ok());
    largetree
        .secret_for_decryption(provider.crypto(), LeafNodeIndex::new(99_999u32), secret_type, 0, configuration)
        .unwrap();
    assert!(largetree
        .secret_for_decryption(provider.crypto(), LeafNodeIndex::new(99_999u32), secret_type, 1_000, configuration)
        .is_ok());
    assert_eq!(
        largetree.secret_for_decryption(provider.crypto(), LeafNodeIndex::new(200_000u32), secret_type, 0, configuration),
        Err(SecretTreeError::IndexOutOfBounds)
    );
}

// This tests if the generation gets incremented correctly and that the returned
// values are unique.
#[test]
fn increment_generation() {
    for ciphersuite in CIPHERSUITES {
        increment_generation_in(ciphersuite);
    }
}

fn increment_generation_in(ciphersuite: Ciphersuite) {
    let provider = OpenMlsRustCrypto::default();

    const SIZE: usize = 100;
    const MAX_GENERATIONS: usize = 10;

    let mut unique_values: HashMap<Vec<u8>, bool> = HashMap::new();
    let encryption_secret = EncryptionSecret::random(ciphersuite, provider.rand()).unwrap();
    let mut secret_tree = SecretTree::new(
        ciphersuite,
        encryption_secret,
        TreeSize::from_leaf_count(SIZE as u32),
        LeafNodeIndex::new(0u32),
    );
    for i in 0..SIZE {
        assert_eq!(secret_tree.generation(LeafNodeIndex::new(i as u32), SecretType::HandshakeSecret), 0);
        assert_eq!(secret_tree.generation(LeafNodeIndex::new(i as u32), SecretType::ApplicationSecret), 0);
    }
    for i in 0..MAX_GENERATIONS {
        // We are index 0, so we can't get a decryption secret for that leaf.
        for j in 1..SIZE {
            let next_gen = secret_tree.generation(LeafNodeIndex::new(j as u32), SecretType::HandshakeSecret);
            let (handshake_key, handshake_nonce) = secret_tree
                .secret_for_decryption(
                    provider.crypto(),
                    LeafNodeIndex::new(j as u32),
                    SecretType::HandshakeSecret,
                    i as u32,
                    &SenderRatchetConfiguration::default(),
                )
                .expect("Index out of bounds.");
            assert_eq!(next_gen, i as u32);
            assert!(unique_values.insert(handshake_key.as_slice().to_vec(), true).is_none());
            assert!(unique_values.insert(handshake_nonce.as_slice().to_vec(), true).is_none());
            let next_gen = secret_tree.generation(LeafNodeIndex::new(j as u32), SecretType::ApplicationSecret);
            let (application_key, application_nonce) = secret_tree
                .secret_for_decryption(
                    provider.crypto(),
                    LeafNodeIndex::new(j as u32),
                    SecretType::ApplicationSecret,
                    i as u32,
                    &SenderRatchetConfiguration::default(),
                )
                .expect("Index out of bounds.");
            assert_eq!(next_gen, i as u32);
            assert!(unique_values.insert(application_key.as_slice().to_vec(), true).is_none());
            assert!(unique_values.insert(application_nonce.as_slice().to_vec(), true).is_none());
        }
    }
}

#[test]
fn secret_tree() {
    for ciphersuite in CIPHERSUITES {
        secret_tree_in(ciphersuite);
    }
}

fn secret_tree_in(ciphersuite: Ciphersuite) {
    let provider = OpenMlsRustCrypto::default();
    let leaf_index = 0u32;
    let generation = 0;
    let n_leaves = 10u32;
    let configuration = &SenderRatchetConfiguration::default();
    let mut secret_tree = SecretTree::new(
        ciphersuite,
        EncryptionSecret::random(ciphersuite, provider.rand()).expect("An unexpected error occurred."),
        TreeSize::new(n_leaves),
        LeafNodeIndex::new(1u32),
    );
    let (application_secret_key, application_secret_nonce) = secret_tree
        .secret_for_decryption(
            provider.crypto(),
            LeafNodeIndex::new(leaf_index),
            SecretType::ApplicationSecret,
            generation,
            configuration,
        )
        .expect("Error getting decryption secret");
    assert_eq!(application_secret_key.as_slice().len(), ciphersuite.aead_key_length());
    assert_eq!(application_secret_nonce.as_slice().len(), ciphersuite.aead_nonce_length());
}

// What the owner of a leaf encrypts with is what the other members decrypt with.
#[test]
fn members_agree_on_keys() {
    let provider = OpenMlsRustCrypto::default();
    for ciphersuite in [
        Ciphersuite::MLS_128_DHKEMX25519_CHACHA20POLY1305_SHA256_Ed25519,
        Ciphersuite::MLS_256_DHKEMP384_AES256GCM_SHA384_P384,
        Ciphersuite::MLS_256_DHKEMX448_AES256GCM_SHA512_Ed448,
    ] {
        let configuration = &SenderRatchetConfiguration::default();
        let bytes = vec![0x42u8; 64];
        let size = TreeSize::new(8);
        let mut alice = SecretTree::new(ciphersuite, EncryptionSecret::from_slice(&bytes), size, LeafNodeIndex::new(3));
        let mut bob = SecretTree::new(ciphersuite, EncryptionSecret::from_slice(&bytes), size, LeafNodeIndex::new(6));
        for expected in 0..4u32 {
            let (generation, sent) = alice
                .secret_for_encryption(provider.crypto(), LeafNodeIndex::new(3), SecretType::ApplicationSecret)
                .unwrap();
            assert_eq!(generation, expected);
            let received = bob
                .secret_for_decryption(
                    provider.crypto(),
                    LeafNodeIndex::new(3),
                    SecretType::ApplicationSecret,
                    generation,
                    configuration,
                )
                .unwrap();
            assert_eq!(sent, received);
        }
        assert_eq!(alice.generation(LeafNodeIndex::new(3), SecretType::ApplicationSecret), 4);
        assert_eq!(alice.generation(LeafNodeIndex::new(3), SecretType::HandshakeSecret), 0);
        // The kinds of secrets differ.
        let (_, handshake) = alice
            .secret_for_encryption(provider.crypto(), LeafNodeIndex::new(3), SecretType::HandshakeSecret)
            .unwrap();
        let received = bob
            .secret_for_decryption(provider.crypto(), LeafNodeIndex::new(3), SecretType::ApplicationSecret, 4, configuration)
            .unwrap();
        assert_ne!(handshake, received);
    }
}

#[test]
fn ratchet_kinds_are_enforced() {
    let provider = OpenMlsRustCrypto::default();
    let configuration = &SenderRatchetConfiguration::default();
    let mut tree = SecretTree::new_unshared(
        CIPHERSUITE,
        EncryptionSecret::from_slice(&[1u8; 32]),
        TreeSize::new(4),
        LeafNodeIndex::new(0),
    );
    assert_eq!(
        tree.secret_for_decryption(provider.crypto(), LeafNodeIndex::new(0), SecretType::HandshakeSecret, 0, configuration),
        Err(SecretTreeError::RatchetTypeError)
    );
    assert_eq!(
        tree.secret_for_encryption(provider.crypto(), LeafNodeIndex::new(1), SecretType::HandshakeSecret),
        Err(SecretTreeError::RatchetTypeError)
    );
    assert_eq!(
        tree.secret_for_encryption(provider.crypto(), LeafNodeIndex::new(4), SecretType::HandshakeSecret),
        Err(SecretTreeError::IndexOutOfBounds)
    );
    // Nothing was started by the refused requests.
    assert_eq!(tree.generation(LeafNodeIndex::new(0), SecretType::HandshakeSecret), 0);
    assert!(!tree.ratchets_started(LeafNodeIndex::new(0)));
}

// A refused request leaves the whole tree as it was, node secrets included.
#[test]
fn refused_requests_leave_the_tree_unchanged() {
    let provider = OpenMlsRustCrypto::default();
    let configuration = &SenderRatchetConfiguration::default();
    let mut tree = SecretTree::new(
        CIPHERSUITE,
        EncryptionSecret::from_slice(&[3u8; 32]),
        TreeSize::new(4),
        LeafNodeIndex::new(0),
    );
    tree.secret_for_decryption(provider.crypto(), LeafNodeIndex::new(1), SecretType::HandshakeSecret, 0, configuration)
        .unwrap();
    let before = tree.clone();
    assert_eq!(
        tree.secret_for_decryption(provider.crypto(), LeafNodeIndex::new(4), SecretType::HandshakeSecret, 0, configuration),
        Err(SecretTreeError::IndexOutOfBounds)
    );
    assert!(tree == before);
    assert_eq!(
        tree.secret_for_decryption(provider.crypto(), LeafNodeIndex::new(1), SecretType::HandshakeSecret, 0, configuration),
        Err(SecretTreeError::SecretReuseError)
    );
    assert!(tree == before);
    assert_eq!(
        tree.secret_for_encryption(provider.crypto(), LeafNodeIndex::new(2), SecretType::HandshakeSecret),
        Err(SecretTreeError::RatchetTypeError)
    );
    assert!(tree == before);
    let too_wide = GenerationLaneContext::new(TreeSize::new(16), LeafNodeIndex::new(0));
    assert_eq!(
        tree.secret_for_application_encryption_in_generation_lane(
            provider.crypto(),
            LeafNodeIndex::new(0),
            too_wide,
            &SenderRatchetConfiguration::new(3, 1000),
        ),
        Err(SecretTreeError::GenerationLaneTooWide)
    );
    assert!(tree == before);
    // A tree made by `new` shares its own leaf: the own leaf decrypts.
    let (generation, sent) = tree
        .secret_for_encryption(provider.crypto(), LeafNodeIndex::new(0), SecretType::ApplicationSecret)
        .unwrap();
    assert_eq!(
        tree.secret_for_decryption(provider.crypto(), LeafNodeIndex::new(0), SecretType::ApplicationSecret, generation, configuration)
            .unwrap(),
        sent
    );
}

#[test]
fn short_encryption_secret_is_refused_by_the_provider() {
    let provider = OpenMlsRustCrypto::default();
    let configuration = &SenderRatchetConfiguration::default();
    let mut tree = SecretTree::new(
        CIPHERSUITE,
        EncryptionSecret::from_slice(&[1u8; 16]),
        TreeSize::new(4),
        LeafNodeIndex::new(0),
    );
    assert!(matches!(
        tree.secret_for_decryption(provider.crypto(), LeafNodeIndex::new(1), SecretType::HandshakeSecret, 0, configuration),
        Err(SecretTreeError::CryptoError(_))
    ));
    assert!(matches!(
        tree.secret_for_encryption(provider.crypto(), LeafNodeIndex::new(0), SecretType::HandshakeSecret),
        Err(SecretTreeError::CryptoError(_))
    ));
}

#[test]
fn tree_sizes_round_up_to_powers_of_two() {
    assert_eq!(TreeSize::new(0).leaf_count(), 1);
    assert_eq!(TreeSize::new(1).leaf_count(), 1);
    assert_eq!(TreeSize::new(2).leaf_count(), 2);
    assert_eq!(TreeSize::new(4).leaf_count(), 4);
    assert_eq!(TreeSize::new(10).leaf_count(), 8);
    assert_eq!(TreeSize::new(10).u32(), 15);
    assert_eq!(TreeSize::from_leaf_count(1).leaf_count(), 2);
    assert_eq!(TreeSize::from_leaf_count(3).leaf_count(), 4);
    assert_eq!(TreeSize::from_leaf_count(100_000).leaf_count(), 131_072);
}

#[test]
fn invalid_generation_lane_does_not_initialize_secret_tree() {
    let provider = OpenMlsRustCrypto::default();
    let ciphersuite = CIPHERSUITE;
    let encryption_secret = EncryptionSecret::random(ciphersuite, provider.rand()).unwrap();
    let mut secret_tree =
        SecretTree::new(ciphersuite, encryption_secret, TreeSize::new(2), LeafNodeIndex::new(0));
    let before = secret_tree.clone();
    let invalid_lane = GenerationLaneContext::new(TreeSize::new(2), LeafNodeIndex::new(2));

    let err = secret_tree
        .secret_for_application_encryption_in_generation_lane(
            provider.crypto(),
            LeafNodeIndex::new(0),
            invalid_lane,
            &SenderRatchetConfiguration::default(),
        )
        .expect_err("invalid lane must be rejected before sender-ratchet initialization");

    assert_eq!(err, SecretTreeError::GenerationLaneInvalidResidue);
    assert!(secret_tree == before);
}

// A shared own leaf sends in lanes; the other members decrypt every lane send,
// and the own leaf decrypts the other devices' sends of the skipped generations.
#[test]
fn shared_own_leaf_lanes_agree_with_other_members() {
    let provider = OpenMlsRustCrypto::default();
    let ciphersuite = CIPHERSUITE;
    let configuration = &SenderRatchetConfiguration::default();
    let bytes = [5u8; 32];
    let size = TreeSize::new(4);
    let mut device_a =
        SecretTree::new(ciphersuite, EncryptionSecret::from_slice(&bytes), size, LeafNodeIndex::new(1));
    let mut device_b =
        SecretTree::new(ciphersuite, EncryptionSecret::from_slice(&bytes), size, LeafNodeIndex::new(1));
    let mut other = SecretTree::new_unshared(ciphersuite, EncryptionSecret::from_slice(&bytes), size, LeafNodeIndex::new(2));
    let lane_a = GenerationLaneContext::new(TreeSize::new(2), LeafNodeIndex::new(0));
    let lane_b = GenerationLaneContext::new(TreeSize::new(2), LeafNodeIndex::new(1));

    let (ga, ka) = device_a
        .secret_for_application_encryption_in_generation_lane(provider.crypto(), LeafNodeIndex::new(1), lane_a, configuration)
        .unwrap();
    let (gb, kb) = device_b
        .secret_for_application_encryption_in_generation_lane(provider.crypto(), LeafNodeIndex::new(1), lane_b, configuration)
        .unwrap();
    assert_eq!((ga, gb), (0, 1));
    // Each device decrypts the other's message.
    assert_eq!(
        device_a
            .secret_for_decryption(provider.crypto(), LeafNodeIndex::new(1), SecretType::ApplicationSecret, gb, configuration)
            .unwrap(),
        kb
    );
    assert_eq!(
        device_b
            .secret_for_decryption(provider.crypto(), LeafNodeIndex::new(1), SecretType::ApplicationSecret, ga, configuration)
            .unwrap(),
        ka
    );
    // Another member decrypts both.
    assert_eq!(
        other
            .secret_for_decryption(provider.crypto(), LeafNodeIndex::new(1), SecretType::ApplicationSecret, ga, configuration)
            .unwrap(),
        ka
    );
    assert_eq!(
        other
            .secret_for_decryption(provider.crypto(), LeafNodeIndex::new(1), SecretType::ApplicationSecret, gb, configuration)
            .unwrap(),
        kb
    );
    // The own leaf of a single-device member refuses lanes.
    assert_eq!(
        other.secret_for_application_encryption_in_generation_lane(
            provider.crypto(),
            LeafNodeIndex::new(2),
            lane_a,
            configuration
        ),
        Err(SecretTreeError::RatchetTypeError)
    );
}
