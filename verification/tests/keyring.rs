use unidpp_signatif::keyring::{KeyId, KeyPair, PublicKey};
use unidpp_signatif::sign::Suite;
use unidpp_signatif::text::hex;
use unidpp_signatif::SignatifError;

#[test]
fn seeded_keys_are_deterministic_and_distinct() {
    let a = KeyPair::seeded(Suite::Ed25519, b"root-seed").ok().unwrap();
    let b = KeyPair::seeded(Suite::Ed25519, b"root-seed").ok().unwrap();
    let c = KeyPair::seeded(Suite::Ed25519, b"other-seed").ok().unwrap();
    assert_eq!(a.key_id(), b.key_id());
    assert_eq!(a.public(), b.public());
    assert_ne!(a.key_id(), c.key_id());

    let p = KeyPair::seeded(Suite::EcdsaP256, b"root-seed").ok().unwrap();
    // Same seed, different suite: different key id.
    assert_ne!(a.key_id(), p.key_id());
    // Deterministic signature values (RFC 6979 / Ed25519).
    let s1 = a.sign_raw(b"m").unwrap();
    let s2 = b.sign_raw(b"m").unwrap();
    assert_eq!(s1, s2);
    let ps1 = p.sign_raw(b"m").unwrap();
    let ps2 = KeyPair::seeded(Suite::EcdsaP256, b"root-seed")
        .ok()
        .unwrap()
        .sign_raw(b"m")
        .unwrap();
    assert_eq!(ps1, ps2);
    assert_eq!(ps1.len(), Suite::EcdsaP256.signature_len());
    assert_eq!(s1.len(), Suite::Ed25519.signature_len());
}

#[test]
fn raw_verify_round_trip_and_reject() {
    for suite in [Suite::Ed25519, Suite::EcdsaP256] {
        let sk = KeyPair::seeded(suite, b"k").ok().unwrap();
        let sig = sk.sign_raw(b"message").unwrap();
        assert!(KeyPair::verify_raw(sk.public(), b"message", &sig).is_ok());
        assert!(KeyPair::verify_raw(sk.public(), b"other", &sig).is_err());
        let mut bad = sig.clone();
        bad[0] ^= 0x01;
        assert!(KeyPair::verify_raw(sk.public(), b"message", &bad).is_err());
        let other = KeyPair::seeded(suite, b"j").ok().unwrap();
        assert!(KeyPair::verify_raw(other.public(), b"message", &sig).is_err());
    }
}

#[test]
fn public_key_encoding_round_trip() {
    for suite in [Suite::Ed25519, Suite::EcdsaP256] {
        let sk = KeyPair::seeded(suite, b"k").ok().unwrap();
        let pk = sk.public();
        assert_eq!(PublicKey::from_bytes(pk.as_bytes()).unwrap(), *pk);
    }
    assert!(PublicKey::from_bytes(&[0u8; 7]).is_err());
    // Compressed point is rejected: only uncompressed SEC1 is taken.
    let sk = KeyPair::seeded(Suite::EcdsaP256, b"k").ok().unwrap();
    let mut compressed = sk.public().as_bytes()[..33].to_vec();
    compressed[0] = 2;
    assert!(PublicKey::from_bytes(&compressed).is_err());
}

#[test]
fn deferred_suites_refuse_keygen() {
    let err = KeyPair::seeded(Suite::Sm2, b"k").err().unwrap();
    assert!(matches!(err, SignatifError::SuiteDeferred { .. }));
    let err = KeyPair::seeded(Suite::MlDsa65, b"k").err().unwrap();
    assert!(matches!(err, SignatifError::SuiteDeferred { .. }));
}

#[test]
fn key_id_pins_suite_and_key() {
    let a = KeyPair::seeded(Suite::Ed25519, b"k").ok().unwrap();
    let id = KeyId::of(a.public());
    assert_eq!(id.as_str().len(), 18);
    assert!(id.as_str().starts_with("k-"));
    assert_eq!(id, *a.key_id());
    assert!(KeyId::new("has space").is_err());
}

#[test]
fn bad_keys_and_signatures_are_named() {
    let sk = KeyPair::seeded(Suite::Ed25519, b"k").ok().unwrap();
    let err = KeyPair::verify_raw(sk.public(), b"m", &[0u8; 63]).unwrap_err();
    assert_eq!(
        err.to_string(),
        "cryptographic error: bad Ed25519 signature length: signature error"
    );
    // The encoding of no point.
    let mut off_curve = [0u8; 32];
    off_curve[0] = 2;
    let err = KeyPair::verify_raw(&PublicKey::Ed25519(off_curve), b"m", &[0u8; 64]).unwrap_err();
    assert_eq!(
        err.to_string(),
        "cryptographic error: bad Ed25519 key: signature error: Cannot decompress Edwards point"
    );
    let p = KeyPair::seeded(Suite::EcdsaP256, b"k").ok().unwrap();
    let err = KeyPair::verify_raw(p.public(), b"m", &[0u8; 64]).unwrap_err();
    assert_eq!(
        err.to_string(),
        "cryptographic error: bad ECDSA-P256 signature: signature error"
    );
    let mut point = [7u8; 65];
    point[0] = 4;
    let err = KeyPair::verify_raw(&PublicKey::EcdsaP256Uncompressed(point), b"m", &[1u8; 64])
        .unwrap_err();
    assert_eq!(
        err.to_string(),
        "cryptographic error: bad P-256 point: signature error"
    );
}

#[test]
fn public_keys_read_from_text() {
    for suite in [Suite::Ed25519, Suite::EcdsaP256] {
        let sk = KeyPair::seeded(suite, b"text").ok().unwrap();
        let text = format!("{}:{}", suite.as_str(), hex(sk.public().as_bytes()));
        assert_eq!(PublicKey::from_text(&text).unwrap(), *sk.public());
    }
    assert_eq!(
        PublicKey::from_text("nothing").unwrap_err(),
        "bad public key `nothing`"
    );
    assert_eq!(
        PublicKey::from_text("rsa:00").unwrap_err(),
        "validation error: unknown suite `rsa`"
    );
    assert_eq!(
        PublicKey::from_text("ed25519:0").unwrap_err(),
        "bad public key bytes `ed25519:0`"
    );
    assert_eq!(
        PublicKey::from_text("ed25519:00").unwrap_err(),
        "cryptographic error: not a SIGNATIF public key encoding (len 1)"
    );
    let ed = KeyPair::seeded(Suite::Ed25519, b"text").ok().unwrap();
    let wrong = format!("ecdsa-p256:{}", hex(ed.public().as_bytes()));
    assert_eq!(
        PublicKey::from_text(&wrong).unwrap_err(),
        "key claims suite ecdsa-p256 but bytes are ed25519"
    );
}

// RFC 8032, section 7.1, test 2: signing runs the outside suite.
#[test]
fn ed25519_verifies_a_known_signature() {
    let key = unidpp_signatif::text::unhex(
        "3d4017c3e843895a92b70aa74d1b7ebc9c982ccf2ec4968cc0cd55f12af4660c",
    )
    .unwrap();
    let signature = unidpp_signatif::text::unhex(
        "92a009a9f0d4cab8720e820b5f642540a2b27b5416503f8fb3762223ebdb69da\
         085ac1e43e15996e458f3613d0f11d8c387b2eaeb4302aeeb00d291612bb0c00",
    )
    .unwrap();
    let public = PublicKey::from_bytes(&key).unwrap();
    assert!(KeyPair::verify_raw(&public, &[0x72], &signature).is_ok());
    assert!(KeyPair::verify_raw(&public, &[0x73], &signature).is_err());
}

#[test]
fn descriptions_show_no_secret() {
    let k = KeyPair::seeded(Suite::EcdsaP256, b"quiet").unwrap();
    assert_eq!(
        k.describe(),
        format!(
            "KeyPair {{ suite: EcdsaP256, key_id: KeyId(\"{}\"), .. }}",
            k.key_id().as_str()
        )
    );
}
