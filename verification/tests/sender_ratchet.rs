use openmls_rust_crypto::OpenMlsRustCrypto;
use openmls_traits::OpenMlsProvider;
use secret_tree::ciphersuite::Ciphersuite;
use secret_tree::config::SenderRatchetConfiguration;
use secret_tree::decryption::DecryptionRatchet;
use secret_tree::error::SecretTreeError;
use secret_tree::ratchet::RatchetSecret;
use secret_tree::secret::Secret;

const CIPHERSUITES: [Ciphersuite; 7] = [
    Ciphersuite::MLS_128_DHKEMX25519_AES128GCM_SHA256_Ed25519,
    Ciphersuite::MLS_128_DHKEMP256_AES128GCM_SHA256_P256,
    Ciphersuite::MLS_128_DHKEMX25519_CHACHA20POLY1305_SHA256_Ed25519,
    Ciphersuite::MLS_256_DHKEMX448_AES256GCM_SHA512_Ed448,
    Ciphersuite::MLS_256_DHKEMP521_AES256GCM_SHA512_P521,
    Ciphersuite::MLS_256_DHKEMX448_CHACHA20POLY1305_SHA512_Ed448,
    Ciphersuite::MLS_256_DHKEMP384_AES256GCM_SHA384_P384,
];

// Test if a sender ratchet overflow is caught
#[test]
fn sender_ratchet_generation_overflow() {
    let provider = OpenMlsRustCrypto::default();
    let ciphersuite = Ciphersuite::MLS_128_DHKEMX25519_AES128GCM_SHA256_Ed25519;
    let secret = Secret::random(ciphersuite, provider.rand()).expect("Not enough randomness.");
    let mut ratchet = RatchetSecret::initial_ratchet_secret(secret);
    ratchet.set_generation(u32::MAX - 1);
    let _ = ratchet
        .ratchet_forward(provider.crypto(), ciphersuite)
        .expect("error ratcheting forward");
    let err = ratchet
        .ratchet_forward(provider.crypto(), ciphersuite)
        .expect_err("no error exceeding generation u32::MAX");
    assert_eq!(err, SecretTreeError::RatchetTooLong)
}

// Test the maximum forward ratcheting
#[test]
fn test_max_forward_distance() {
    let provider = OpenMlsRustCrypto::default();
    for ciphersuite in CIPHERSUITES {
        let configuration = &SenderRatchetConfiguration::default();
        let secret = Secret::random(ciphersuite, provider.rand()).expect("Not enough randomness.");
        let mut ratchet1 = DecryptionRatchet::new(secret.clone());
        let mut ratchet2 = DecryptionRatchet::new(secret);

        // We expect this to still work
        let _secret = ratchet1
            .secret_for_decryption(
                ciphersuite,
                provider.crypto(),
                configuration.maximum_forward_distance(),
                configuration,
            )
            .expect("Expected decryption secret.");

        // We expect this to return an error
        let err = ratchet2
            .secret_for_decryption(
                ciphersuite,
                provider.crypto(),
                configuration.maximum_forward_distance() + 1,
                configuration,
            )
            .expect_err("Expected error.");

        assert_eq!(err, SecretTreeError::TooDistantInTheFuture);

        // Test if there's an overflow in the maximum forward distance check.
        ratchet1.set_generation(u32::MAX - 5);
        ratchet1
            .secret_for_decryption(ciphersuite, provider.crypto(), u32::MAX - 1, configuration)
            .expect("Error ratcheting to very high generation");
    }
}

// Test out-of-order generations
#[test]
fn test_out_of_order_generations() {
    let provider = OpenMlsRustCrypto::default();
    for ciphersuite in CIPHERSUITES {
        let configuration = &SenderRatchetConfiguration::default();
        let secret = Secret::random(ciphersuite, provider.rand()).expect("Not enough randomness.");
        let mut ratchet1 = DecryptionRatchet::new(secret);

        // Ratchet forward twice the size of the window
        for i in 0..configuration.out_of_order_tolerance() * 2 {
            let _secret = ratchet1
                .secret_for_decryption(ciphersuite, provider.crypto(), i, configuration)
                .expect("Expected decryption secret.");
        }

        // Check that secrets from before the window are not accessible anymore
        let err = ratchet1
            .secret_for_decryption(
                ciphersuite,
                provider.crypto(),
                configuration.out_of_order_tolerance() - 1,
                configuration,
            )
            .expect_err("Expected error.");

        assert_eq!(err, SecretTreeError::TooDistantInThePast);

        // All secrets within the window should have been deleted because of FS.
        for i in configuration.out_of_order_tolerance()..configuration.out_of_order_tolerance() * 2 {
            assert_eq!(
                ratchet1
                    .secret_for_decryption(ciphersuite, provider.crypto(), i, configuration)
                    .expect_err("Expected decryption secret."),
                SecretTreeError::SecretReuseError
            );
        }
    }
}

// Test forward secrecy
#[test]
fn test_forward_secrecy() {
    let provider = OpenMlsRustCrypto::default();
    for ciphersuite in CIPHERSUITES {
        let configuration = &SenderRatchetConfiguration::default();
        let secret = Secret::random(ciphersuite, provider.rand()).expect("Not enough randomness.");
        let mut ratchet = DecryptionRatchet::new(secret);

        let _ratchet_secrets = ratchet
            .secret_for_decryption(ciphersuite, provider.crypto(), 0, configuration)
            .expect("Error ratcheting forward.");

        assert_eq!(ratchet.generation(), 1);

        let err = ratchet
            .secret_for_decryption(ciphersuite, provider.crypto(), 0, configuration)
            .expect_err("No error when trying to retrieve key outside of tolerance window.");
        assert_eq!(err, SecretTreeError::SecretReuseError);

        let _ratchet_secrets = ratchet
            .secret_for_decryption(ciphersuite, provider.crypto(), 10, configuration)
            .expect("Error ratcheting forward.");

        let err = ratchet
            .secret_for_decryption(ciphersuite, provider.crypto(), 5, configuration)
            .expect_err("No error when trying to retrieve key outside of tolerance window.");
        assert_eq!(err, SecretTreeError::TooDistantInThePast);

        for generation in 10 - configuration.out_of_order_tolerance() + 1..10 {
            let keys =
                ratchet.secret_for_decryption(ciphersuite, provider.crypto(), generation, configuration);
            assert!(keys.is_ok());

            let err = ratchet
                .secret_for_decryption(ciphersuite, provider.crypto(), generation, configuration)
                .expect_err("No error when trying to retrieve deleted key.");
            assert_eq!(err, SecretTreeError::SecretReuseError);
        }
    }
}

// The key of a generation does not depend on the order in which generations are requested.
#[test]
fn out_of_order_keys_match_in_order_keys() {
    let provider = OpenMlsRustCrypto::default();
    let ciphersuite = Ciphersuite::MLS_128_DHKEMX25519_AES128GCM_SHA256_Ed25519;
    let configuration = &SenderRatchetConfiguration::default();
    let secret = Secret::from_slice(&[7u8; 32]);
    let mut in_order = DecryptionRatchet::new(secret.clone());
    let mut out_of_order = DecryptionRatchet::new(secret.clone());
    let mut chain = RatchetSecret::initial_ratchet_secret(secret);
    let mut expected = Vec::new();
    for g in 0..5u32 {
        let (generation, material) = chain.ratchet_forward(provider.crypto(), ciphersuite).unwrap();
        assert_eq!(generation, g);
        let got = in_order
            .secret_for_decryption(ciphersuite, provider.crypto(), g, configuration)
            .unwrap();
        assert_eq!(got, material);
        expected.push(material);
    }
    for g in [4u32, 1, 3, 0, 2] {
        let got = out_of_order
            .secret_for_decryption(ciphersuite, provider.crypto(), g, configuration)
            .unwrap();
        assert_eq!(got, expected[g as usize]);
    }
    assert_eq!(out_of_order.generation(), 5);
}

// A generation handed out once stays refused after any later requests: as a
// reuse while it lies within the tolerance, as too old once it lies further
// below the head. A skipped generation stays available meanwhile.
#[test]
fn handed_out_generation_stays_refused() {
    let provider = OpenMlsRustCrypto::default();
    let ciphersuite = Ciphersuite::MLS_128_DHKEMX25519_AES128GCM_SHA256_Ed25519;
    let configuration = &SenderRatchetConfiguration::default();
    let mut ratchet = DecryptionRatchet::new(Secret::from_slice(&[7u8; 32]));
    ratchet.secret_for_decryption(ciphersuite, provider.crypto(), 3, configuration).unwrap();
    for generation in [6u32, 4, 5] {
        ratchet.secret_for_decryption(ciphersuite, provider.crypto(), generation, configuration).unwrap();
        assert_eq!(
            ratchet.secret_for_decryption(ciphersuite, provider.crypto(), 3, configuration),
            Err(SecretTreeError::SecretReuseError)
        );
    }
    // Generation 2 was skipped and never asked for: it is still served.
    assert!(ratchet.secret_for_decryption(ciphersuite, provider.crypto(), 2, configuration).is_ok());
    ratchet.secret_for_decryption(ciphersuite, provider.crypto(), 3 + 6, configuration).unwrap();
    assert_eq!(
        ratchet.secret_for_decryption(ciphersuite, provider.crypto(), 3, configuration),
        Err(SecretTreeError::TooDistantInThePast)
    );
}
