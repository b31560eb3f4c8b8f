use openmls_rust_crypto::OpenMlsRustCrypto;
use openmls_traits::OpenMlsProvider;
use secret_tree::ciphersuite::Ciphersuite;
use secret_tree::config::SenderRatchetConfiguration;
use secret_tree::dual_use::{DualUseRatchet, GenerationLaneContext};
use secret_tree::error::SecretTreeError;
use secret_tree::ratchet::RatchetSecret;
use secret_tree::secret::Secret;
use secret_tree::tree::{LeafNodeIndex, TreeSize};

const CIPHERSUITES: [Ciphersuite; 7] = [
    Ciphersuite::MLS_128_DHKEMX25519_AES128GCM_SHA256_Ed25519,
    Ciphersuite::MLS_128_DHKEMP256_AES128GCM_SHA256_P256,
    Ciphersuite::MLS_128_DHKEMX25519_CHACHA20POLY1305_SHA256_Ed25519,
    Ciphersuite::MLS_256_DHKEMX448_AES256GCM_SHA512_Ed448,
    Ciphersuite::MLS_256_DHKEMP521_AES256GCM_SHA512_P521,
    Ciphersuite::MLS_256_DHKEMX448_CHACHA20POLY1305_SHA512_Ed448,
    Ciphersuite::MLS_256_DHKEMP384_AES256GCM_SHA384_P384,
];

fn fresh_secret(provider: &OpenMlsRustCrypto, ciphersuite: Ciphersuite) -> Secret {
    Secret::random(ciphersuite, provider.rand()).expect("Not enough randomness.")
}

// Encrypting caches the secret, confirming drops it, and a later attempt to
// decrypt that generation fails as `SecretReuseError`.
#[test]
fn dual_use_encrypt_confirm_drops_secret() {
    for ciphersuite in CIPHERSUITES {
        dual_use_encrypt_confirm_drops_secret_in(ciphersuite);
    }
}

fn dual_use_encrypt_confirm_drops_secret_in(ciphersuite: Ciphersuite) {
    let provider = OpenMlsRustCrypto::default();
    let configuration = &SenderRatchetConfiguration::default();
    let mut ratchet = DualUseRatchet::new(fresh_secret(&provider, ciphersuite));

    let (generation, _) = ratchet
        .secret_for_encryption(ciphersuite, provider.crypto())
        .expect("Expected encryption secret.");
    assert_eq!(generation, 0);
    assert_eq!(ratchet.generation(), 1);

    ratchet.delete_secret_for_generation(generation);

    let err = ratchet
        .secret_for_decryption(ciphersuite, provider.crypto(), generation, configuration)
        .expect_err("Confirmed secret should be unavailable.");
    assert_eq!(err, SecretTreeError::SecretReuseError);
}

// Without confirming, the local sender can decrypt their own message once.
#[test]
fn dual_use_encrypt_then_decrypt_own() {
    for ciphersuite in CIPHERSUITES {
        dual_use_encrypt_then_decrypt_own_in(ciphersuite);
    }
}

fn dual_use_encrypt_then_decrypt_own_in(ciphersuite: Ciphersuite) {
    let provider = OpenMlsRustCrypto::default();
    let configuration = &SenderRatchetConfiguration::default();
    let mut ratchet = DualUseRatchet::new(fresh_secret(&provider, ciphersuite));

    let (generation, sent) = ratchet
        .secret_for_encryption(ciphersuite, provider.crypto())
        .expect("Expected encryption secret.");

    let decrypted = ratchet
        .secret_for_decryption(ciphersuite, provider.crypto(), generation, configuration)
        .expect("Expected to decrypt own message.");
    assert_eq!(decrypted, sent);

    let err = ratchet
        .secret_for_decryption(ciphersuite, provider.crypto(), generation, configuration)
        .expect_err("Reusing the same generation should fail.");
    assert_eq!(err, SecretTreeError::SecretReuseError);
}

#[test]
fn dual_use_delete_secret_edge_cases() {
    for ciphersuite in CIPHERSUITES {
        dual_use_delete_secret_edge_cases_in(ciphersuite);
    }
}

fn dual_use_delete_secret_edge_cases_in(ciphersuite: Ciphersuite) {
    let provider = OpenMlsRustCrypto::default();
    let configuration = &SenderRatchetConfiguration::default();
    let mut ratchet = DualUseRatchet::new(fresh_secret(&provider, ciphersuite));

    ratchet.delete_secret_for_generation(ratchet.generation());
    assert_eq!(ratchet.generation(), 0);

    ratchet.delete_secret_for_generation(42);
    assert_eq!(ratchet.generation(), 0);

    let (gen0, _) = ratchet
        .secret_for_encryption(ciphersuite, provider.crypto())
        .expect("Expected encryption secret.");
    let (_gen1, _) = ratchet
        .secret_for_encryption(ciphersuite, provider.crypto())
        .expect("Expected encryption secret.");

    ratchet.delete_secret_for_generation(gen0);
    ratchet.delete_secret_for_generation(gen0);

    let err = ratchet
        .secret_for_decryption(ciphersuite, provider.crypto(), gen0, configuration)
        .expect_err("Deleted secret should be unavailable.");
    assert_eq!(err, SecretTreeError::SecretReuseError);
}

#[test]
fn dual_use_decrypts_past_out_of_order_tolerance() {
    for ciphersuite in CIPHERSUITES {
        dual_use_decrypts_past_out_of_order_tolerance_in(ciphersuite);
    }
}

fn dual_use_decrypts_past_out_of_order_tolerance_in(ciphersuite: Ciphersuite) {
    let provider = OpenMlsRustCrypto::default();
    let configuration = &SenderRatchetConfiguration::default();
    let mut ratchet = DualUseRatchet::new(fresh_secret(&provider, ciphersuite));

    let send_count = configuration.out_of_order_tolerance() + 2;
    let mut first_generation = None;
    for _ in 0..send_count {
        let (generation, _) = ratchet
            .secret_for_encryption(ciphersuite, provider.crypto())
            .expect("Expected encryption secret.");
        first_generation.get_or_insert(generation);
    }
    let first_generation = first_generation.unwrap();
    assert!(ratchet.generation() - first_generation > configuration.out_of_order_tolerance());

    let _decrypted = ratchet
        .secret_for_decryption(ciphersuite, provider.crypto(), first_generation, configuration)
        .expect("Old encryption secret should still be retrievable for own decryption.");
}

#[test]
fn dual_use_confirming_later_messages_keeps_old_unconfirmed_secret() {
    for ciphersuite in CIPHERSUITES {
        dual_use_confirming_later_messages_keeps_old_unconfirmed_secret_in(ciphersuite);
    }
}

fn dual_use_confirming_later_messages_keeps_old_unconfirmed_secret_in(ciphersuite: Ciphersuite) {
    let provider = OpenMlsRustCrypto::default();
    let configuration = &SenderRatchetConfiguration::default();
    let mut ratchet = DualUseRatchet::new(fresh_secret(&provider, ciphersuite));

    let (first_generation, _) = ratchet
        .secret_for_encryption(ciphersuite, provider.crypto())
        .expect("Expected encryption secret.");

    for _ in 0..configuration.out_of_order_tolerance() + 2 {
        let (generation, _) = ratchet
            .secret_for_encryption(ciphersuite, provider.crypto())
            .expect("Expected encryption secret.");
        ratchet.delete_secret_for_generation(generation);
    }

    assert!(ratchet.generation() - first_generation > configuration.out_of_order_tolerance());

    let _decrypted = ratchet
        .secret_for_decryption(ciphersuite, provider.crypto(), first_generation, configuration)
        .expect("Old unconfirmed secret should still be retrievable for own decryption.");
}

#[test]
fn dual_use_decryption_moves_receive_window() {
    for ciphersuite in CIPHERSUITES {
        dual_use_decryption_moves_receive_window_in(ciphersuite);
    }
}

fn dual_use_decryption_moves_receive_window_in(ciphersuite: Ciphersuite) {
    let provider = OpenMlsRustCrypto::default();
    let configuration = &SenderRatchetConfiguration::default();
    let mut ratchet = DualUseRatchet::new(fresh_secret(&provider, ciphersuite));

    let target_generation = configuration.out_of_order_tolerance() * 2;
    let _decrypted = ratchet
        .secret_for_decryption(ciphersuite, provider.crypto(), target_generation, configuration)
        .expect("Expected decryption secret.");

    let too_old_generation = target_generation - configuration.out_of_order_tolerance();
    let err = ratchet
        .secret_for_decryption(ciphersuite, provider.crypto(), too_old_generation, configuration)
        .expect_err("Expected the receive window to reject old generations.");
    assert_eq!(err, SecretTreeError::TooDistantInThePast);

    let retained_generation = target_generation - configuration.out_of_order_tolerance() + 1;
    let _decrypted = ratchet
        .secret_for_decryption(ciphersuite, provider.crypto(), retained_generation, configuration)
        .expect("Expected retained out-of-order secret.");
}

#[test]
fn dual_use_local_sends_do_not_advance_receive_window() {
    for ciphersuite in CIPHERSUITES {
        dual_use_local_sends_do_not_advance_receive_window_in(ciphersuite);
    }
}

fn dual_use_local_sends_do_not_advance_receive_window_in(ciphersuite: Ciphersuite) {
    let provider = OpenMlsRustCrypto::default();
    let configuration = &SenderRatchetConfiguration::default();
    let mut ratchet = DualUseRatchet::new(fresh_secret(&provider, ciphersuite));

    let first_received_generation = configuration.out_of_order_tolerance();
    let _decrypted = ratchet
        .secret_for_decryption(ciphersuite, provider.crypto(), first_received_generation, configuration)
        .expect("Expected first decryption secret.");

    for _ in 0..configuration.out_of_order_tolerance() {
        let (generation, _) = ratchet
            .secret_for_encryption(ciphersuite, provider.crypto())
            .expect("Expected encryption secret.");
        ratchet.delete_secret_for_generation(generation);
    }

    let later_received_generation = ratchet.generation();
    let _decrypted = ratchet
        .secret_for_decryption(ciphersuite, provider.crypto(), later_received_generation, configuration)
        .expect("Expected later decryption secret.");

    let pruned_by_later_decryption =
        first_received_generation.saturating_sub(configuration.out_of_order_tolerance()) + 1;
    let err = ratchet
        .secret_for_decryption(ciphersuite, provider.crypto(), pruned_by_later_decryption, configuration)
        .expect_err("One old generation should be pruned by the later decryption.");
    assert_eq!(err, SecretTreeError::TooDistantInThePast);

    let retained_across_local_sends = pruned_by_later_decryption + 1;
    let _decrypted = ratchet
        .secret_for_decryption(ciphersuite, provider.crypto(), retained_across_local_sends, configuration)
        .expect("Local sends should not prune the receive window.");
}

#[test]
fn dual_use_generation_lane_retains_skipped_generations() {
    for ciphersuite in CIPHERSUITES {
        dual_use_generation_lane_retains_skipped_generations_in(ciphersuite);
    }
}

fn dual_use_generation_lane_retains_skipped_generations_in(ciphersuite: Ciphersuite) {
    let provider = OpenMlsRustCrypto::default();
    let configuration = &SenderRatchetConfiguration::default();
    let mut ratchet = DualUseRatchet::new(fresh_secret(&provider, ciphersuite));
    let lane = GenerationLaneContext::new(TreeSize::new(2), LeafNodeIndex::new(1));

    let (generation, _) = ratchet
        .secret_for_encryption_in_generation_lane(ciphersuite, provider.crypto(), lane, configuration)
        .expect("Expected the leaf-1 lane to select generation 1.");

    assert_eq!(generation, 1);
    assert_eq!(ratchet.generation(), 2);

    ratchet
        .secret_for_decryption(ciphersuite, provider.crypto(), 0, configuration)
        .expect("Skipped generation must be retained for decryption.");
    ratchet
        .secret_for_decryption(ciphersuite, provider.crypto(), 1, configuration)
        .expect("Selected generation must remain available until confirmation.");
}

#[test]
fn dual_use_generation_lane_rejects_stride_larger_than_sender_windows() {
    for ciphersuite in CIPHERSUITES {
        dual_use_generation_lane_rejects_stride_larger_than_sender_windows_in(ciphersuite);
    }
}

fn dual_use_generation_lane_rejects_stride_larger_than_sender_windows_in(ciphersuite: Ciphersuite) {
    let provider = OpenMlsRustCrypto::default();
    let configuration = SenderRatchetConfiguration::new(1, 10);
    let mut ratchet = DualUseRatchet::new(fresh_secret(&provider, ciphersuite));
    let lane = GenerationLaneContext::new(TreeSize::from_leaf_count(3), LeafNodeIndex::new(0));

    let err = ratchet
        .secret_for_encryption_in_generation_lane(ciphersuite, provider.crypto(), lane, &configuration)
        .expect_err("A stride of three must exceed the configured tolerance of one.");

    assert_eq!(err, SecretTreeError::GenerationLaneTooWide);
    assert_eq!(ratchet.generation(), 0);
}

#[test]
fn dual_use_generation_lane_rejects_stride_larger_than_forward_distance() {
    for ciphersuite in CIPHERSUITES {
        dual_use_generation_lane_rejects_stride_larger_than_forward_distance_in(ciphersuite);
    }
}

fn dual_use_generation_lane_rejects_stride_larger_than_forward_distance_in(ciphersuite: Ciphersuite) {
    let provider = OpenMlsRustCrypto::default();
    let configuration = SenderRatchetConfiguration::new(10, 2);
    let mut ratchet = DualUseRatchet::new(fresh_secret(&provider, ciphersuite));
    let lane = GenerationLaneContext::new(TreeSize::from_leaf_count(3), LeafNodeIndex::new(0));

    let err = ratchet
        .secret_for_encryption_in_generation_lane(ciphersuite, provider.crypto(), lane, &configuration)
        .expect_err("A stride of three must exceed the maximum forward distance of two.");

    assert_eq!(err, SecretTreeError::GenerationLaneTooWide);
    assert_eq!(ratchet.generation(), 0);
}

#[test]
fn dual_use_generation_lane_rejects_invalid_residue() {
    for ciphersuite in CIPHERSUITES {
        dual_use_generation_lane_rejects_invalid_residue_in(ciphersuite);
    }
}

fn dual_use_generation_lane_rejects_invalid_residue_in(ciphersuite: Ciphersuite) {
    let provider = OpenMlsRustCrypto::default();
    let configuration = &SenderRatchetConfiguration::default();
    let mut ratchet = DualUseRatchet::new(fresh_secret(&provider, ciphersuite));
    let lane = GenerationLaneContext::new(TreeSize::from_leaf_count(1), LeafNodeIndex::new(2));

    let err = ratchet
        .secret_for_encryption_in_generation_lane(ciphersuite, provider.crypto(), lane, configuration)
        .expect_err("A residue equal to the lane size must be rejected.");

    assert_eq!(err, SecretTreeError::GenerationLaneInvalidResidue);
    assert_eq!(ratchet.generation(), 0);
}

#[test]
fn dual_use_generation_lane_rejects_max_target_before_mutation() {
    for ciphersuite in CIPHERSUITES {
        dual_use_generation_lane_rejects_max_target_before_mutation_in(ciphersuite);
    }
}

fn dual_use_generation_lane_rejects_max_target_before_mutation_in(ciphersuite: Ciphersuite) {
    let provider = OpenMlsRustCrypto::default();
    let configuration = &SenderRatchetConfiguration::default();
    let mut ratchet = DualUseRatchet::new(fresh_secret(&provider, ciphersuite));
    ratchet.set_generation(u32::MAX - 1);
    let lane = GenerationLaneContext::new(TreeSize::new(2), LeafNodeIndex::new(1));

    let err = ratchet
        .secret_for_encryption_in_generation_lane(ciphersuite, provider.crypto(), lane, configuration)
        .expect_err("A lane target at u32::MAX must be rejected before ratcheting.");

    assert_eq!(err, SecretTreeError::RatchetTooLong);
    assert_eq!(ratchet.generation(), u32::MAX - 1);
}

#[test]
fn dual_use_generation_lane_prunes_only_skipped_generations() {
    for ciphersuite in CIPHERSUITES {
        dual_use_generation_lane_prunes_only_skipped_generations_in(ciphersuite);
    }
}

fn dual_use_generation_lane_prunes_only_skipped_generations_in(ciphersuite: Ciphersuite) {
    let provider = OpenMlsRustCrypto::default();
    let configuration = SenderRatchetConfiguration::new(1, 10);
    let mut ratchet = DualUseRatchet::new(fresh_secret(&provider, ciphersuite));
    let lane = GenerationLaneContext::new(TreeSize::from_leaf_count(1), LeafNodeIndex::new(0));

    let first = ratchet
        .secret_for_encryption_in_generation_lane(ciphersuite, provider.crypto(), lane, &configuration)
        .expect("Expected first lane generation.");
    let second = ratchet
        .secret_for_encryption_in_generation_lane(ciphersuite, provider.crypto(), lane, &configuration)
        .expect("Expected second lane generation.");
    let third = ratchet
        .secret_for_encryption_in_generation_lane(ciphersuite, provider.crypto(), lane, &configuration)
        .expect("Expected third lane generation.");
    assert_eq!((first.0, second.0, third.0), (0, 2, 4));

    assert_eq!(
        ratchet
            .secret_for_decryption(ciphersuite, provider.crypto(), 1, &configuration)
            .expect_err("Old skipped generation must be pruned"),
        SecretTreeError::TooDistantInThePast
    );
    ratchet
        .secret_for_decryption(ciphersuite, provider.crypto(), 3, &configuration)
        .expect("Newest skipped generation must remain available.");

    for generation in [first.0, second.0, third.0] {
        ratchet
            .secret_for_decryption(ciphersuite, provider.crypto(), generation, &configuration)
            .expect("Actual lane generation must remain until confirmation.");
    }
}

#[test]
fn dual_use_generation_lane_maps_width_four_residues_and_capacity() {
    for ciphersuite in CIPHERSUITES {
        dual_use_generation_lane_maps_width_four_residues_and_capacity_in(ciphersuite);
    }
}

fn dual_use_generation_lane_maps_width_four_residues_and_capacity_in(ciphersuite: Ciphersuite) {
    let provider = OpenMlsRustCrypto::default();
    let configuration = &SenderRatchetConfiguration::default();
    let secret = fresh_secret(&provider, ciphersuite);
    let width_four = TreeSize::new(4);

    assert_eq!(width_four.leaf_count(), 4);
    for residue in 0..4 {
        let mut ratchet = DualUseRatchet::new(secret.clone());
        let lane = GenerationLaneContext::new(width_four, LeafNodeIndex::new(residue));
        let (generation, _) = ratchet
            .secret_for_encryption_in_generation_lane(ciphersuite, provider.crypto(), lane, configuration)
            .expect("every width-four residue must select a generation");

        assert_eq!(generation, residue);
        assert_eq!(ratchet.generation(), residue + 1);
    }

    let capacity_four = TreeSize::from_leaf_count(3);
    assert_eq!(capacity_four.leaf_count(), 4);
    let mut ratchet = DualUseRatchet::new(secret);
    let active_generations = (0..3)
        .map(|residue| {
            let lane = GenerationLaneContext::new(capacity_four, LeafNodeIndex::new(residue));
            ratchet
                .secret_for_encryption_in_generation_lane(ciphersuite, provider.crypto(), lane, configuration)
                .expect("active width-four residue must send")
                .0
        })
        .collect::<Vec<_>>();
    assert_eq!(active_generations, vec![0, 1, 2]);
    assert_eq!(ratchet.generation(), 3);
}

// Lane sends and the plain chain agree on every generation's key material.
#[test]
fn dual_use_lane_keys_match_the_chain() {
    for ciphersuite in CIPHERSUITES {
        dual_use_lane_keys_match_the_chain_in(ciphersuite);
    }
}

fn dual_use_lane_keys_match_the_chain_in(ciphersuite: Ciphersuite) {
    let provider = OpenMlsRustCrypto::default();
    let configuration = &SenderRatchetConfiguration::default();
    let secret = Secret::from_slice(&[9u8; 64]);
    let mut chain = RatchetSecret::initial_ratchet_secret(secret.clone());
    let mut expected = Vec::new();
    for _ in 0..8 {
        expected.push(chain.ratchet_forward(provider.crypto(), ciphersuite).unwrap().1);
    }
    let mut ratchet = DualUseRatchet::new(secret);
    let lane = GenerationLaneContext::new(TreeSize::new(4), LeafNodeIndex::new(2));
    let (g1, m1) = ratchet
        .secret_for_encryption_in_generation_lane(ciphersuite, provider.crypto(), lane, configuration)
        .unwrap();
    let (g2, m2) = ratchet
        .secret_for_encryption_in_generation_lane(ciphersuite, provider.crypto(), lane, configuration)
        .unwrap();
    assert_eq!((g1, g2), (2, 6));
    assert_eq!(m1, expected[2]);
    assert_eq!(m2, expected[6]);
    for g in [0u32, 1, 3, 4, 5] {
        let m = ratchet
            .secret_for_decryption(ciphersuite, provider.crypto(), g, configuration)
            .unwrap();
        assert_eq!(m, expected[g as usize]);
    }
    let m = ratchet
        .secret_for_decryption(ciphersuite, provider.crypto(), 7, configuration)
        .unwrap();
    assert_eq!(m, expected[7]);
}

// Moving the head back drops what was kept at or above the new head and
// keeps what lies below it.
#[test]
fn dual_use_set_generation_back_drops_later_entries() {
    let provider = OpenMlsRustCrypto::default();
    let ciphersuite = CIPHERSUITES[0];
    let configuration = &SenderRatchetConfiguration::default();
    let mut ratchet = DualUseRatchet::new(fresh_secret(&provider, ciphersuite));
    let (g0, sent0) = ratchet.secret_for_encryption(ciphersuite, provider.crypto()).unwrap();
    let (g1, _) = ratchet.secret_for_encryption(ciphersuite, provider.crypto()).unwrap();
    let (g2, _) = ratchet.secret_for_encryption(ciphersuite, provider.crypto()).unwrap();
    assert_eq!((g0, g1, g2), (0, 1, 2));
    ratchet.set_generation(1);
    assert_eq!(ratchet.generation(), 1);
    // Generation 0 still awaits confirmation and decrypts with its key.
    assert_eq!(
        ratchet.secret_for_decryption(ciphersuite, provider.crypto(), g0, configuration).unwrap(),
        sent0
    );
    // The head lies at 1 again: the next own message is sent at generation 1.
    let (again, _) = ratchet.secret_for_encryption(ciphersuite, provider.crypto()).unwrap();
    assert_eq!(again, 1);
    // Generation 2 is no longer kept: it lies at the head and is derived anew.
    assert!(ratchet.secret_for_decryption(ciphersuite, provider.crypto(), g2, configuration).is_ok());
}

// The ratchet's state, stored as plain values and read back, keeps the
// skipped, used and awaiting generations and the lane position.
#[test]
fn dual_use_generation_lane_serde_preserves_state_and_continues_lane() {
    for ciphersuite in CIPHERSUITES {
        dual_use_generation_lane_serde_preserves_state_and_continues_lane_in(ciphersuite);
    }
}

fn dual_use_generation_lane_serde_preserves_state_and_continues_lane_in(ciphersuite: Ciphersuite) {
    let provider = OpenMlsRustCrypto::default();
    let configuration = &SenderRatchetConfiguration::default();
    let lane = GenerationLaneContext::new(TreeSize::new(2), LeafNodeIndex::new(1));
    let mut ratchet = DualUseRatchet::new(fresh_secret(&provider, ciphersuite));

    let (generation, _) = ratchet
        .secret_for_encryption_in_generation_lane(ciphersuite, provider.crypto(), lane, configuration)
        .expect("initial lane send");
    assert_eq!(generation, 1);
    assert_eq!(ratchet.generation(), 2);

    let stored = ratchet.to_state();
    let mut restored = DualUseRatchet::from_state(&stored).expect("restore dual-use ratchet");
    assert_eq!(restored, ratchet);
    assert_eq!(restored.generation(), 2);

    restored
        .secret_for_decryption(ciphersuite, provider.crypto(), 0, configuration)
        .expect("restored skipped generation must decrypt");
    assert_eq!(
        restored
            .secret_for_decryption(ciphersuite, provider.crypto(), 0, configuration)
            .expect_err("consumed skipped generation must reject replay"),
        SecretTreeError::SecretReuseError
    );

    restored.delete_secret_for_generation(1);
    assert_eq!(
        restored
            .secret_for_decryption(ciphersuite, provider.crypto(), 1, configuration)
            .expect_err("confirmed lane generation must reject own echo"),
        SecretTreeError::SecretReuseError
    );

    let (next_generation, _) = restored
        .secret_for_encryption_in_generation_lane(ciphersuite, provider.crypto(), lane, configuration)
        .expect("restored ratchet must continue lane assignment");
    assert_eq!(next_generation, 3);
    restored
        .secret_for_decryption(ciphersuite, provider.crypto(), 2, configuration)
        .expect("restored skipped generation must remain available");
    restored
        .secret_for_decryption(ciphersuite, provider.crypto(), 3, configuration)
        .expect("restored awaiting-confirmation generation must remain available");
}

// A stored state that no ratchet can be in is refused.
#[test]
fn dual_use_state_out_of_order_is_refused() {
    let provider = OpenMlsRustCrypto::default();
    let ciphersuite = CIPHERSUITES[0];
    let mut ratchet = DualUseRatchet::new(fresh_secret(&provider, ciphersuite));
    ratchet.secret_for_encryption(ciphersuite, provider.crypto()).unwrap();
    ratchet.secret_for_encryption(ciphersuite, provider.crypto()).unwrap();
    let mut stored = ratchet.to_state();
    assert_eq!(stored.awaiting.len(), 2);
    stored.awaiting.swap(0, 1);
    assert!(DualUseRatchet::from_state(&stored).is_none());
    let mut stored = ratchet.to_state();
    stored.generation = 1;
    assert!(DualUseRatchet::from_state(&stored).is_none());
    let mut stored = ratchet.to_state();
    let entry = (stored.awaiting[0].0, Some(stored.awaiting[0].1.clone()));
    stored.window.push(entry);
    assert!(DualUseRatchet::from_state(&stored).is_none());
}
