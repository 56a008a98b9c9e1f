use unidpp_signatif::digest::sha256;
use unidpp_signatif::envelope::{
    envelope_encrypt, envelope_open, EnvelopeSeed, KemKeyPair, KemSuite,
};
use unidpp_signatif::text::{hex, unhex};

fn seed(tag: &str) -> EnvelopeSeed {
    EnvelopeSeed::from_bytes(&sha256(tag.as_bytes()).0).unwrap()
}

fn recipient(suite: KemSuite, tag: &str) -> KemKeyPair {
    KemKeyPair::seeded(suite, &[tag.as_bytes(), b"/recipient"].concat()).unwrap()
}

#[test]
fn x25519_envelope_round_trips_and_is_deterministic() {
    let eu = recipient(KemSuite::X25519, "eu");
    let a = envelope_encrypt(
        b"battery chemistry: LFP",
        b"ctx-1",
        &[*eu.public()],
        &seed("s1"),
    )
    .unwrap();
    let b = envelope_encrypt(
        b"battery chemistry: LFP",
        b"ctx-1",
        &[*eu.public()],
        &seed("s1"),
    )
    .unwrap();
    assert_eq!(a, b, "same seed + inputs => the same envelope");
    let opened = envelope_open(&a, &eu).unwrap();
    assert_eq!(opened, b"battery chemistry: LFP");
    assert_eq!(a.cipher, "aes-256-gcm");
    assert_eq!(a.recipients.len(), 1);
    assert_eq!(a.recipients[0].kem, "x25519");
    assert_eq!(a.recipients[0].key_id, eu.public().key_id());
}

#[test]
fn distinct_seeds_never_reuse_payload_keys_or_nonces() {
    let eu = recipient(KemSuite::X25519, "eu");
    let a = envelope_encrypt(b"m", b"a", &[*eu.public()], &seed("s1")).unwrap();
    let b = envelope_encrypt(b"m", b"a", &[*eu.public()], &seed("s2")).unwrap();
    assert_ne!(a.nonce, b.nonce, "content nonces must differ");
    assert_ne!(a.ciphertext, b.ciphertext);
    assert_ne!(
        a.recipients[0].encapsulated_key, b.recipients[0].encapsulated_key,
        "ephemeral keys must differ"
    );
    assert_ne!(a.recipients[0].wrapped_key, b.recipients[0].wrapped_key);
}

#[test]
fn tampering_is_detected_at_every_layer() {
    let eu = recipient(KemSuite::X25519, "eu");
    let envelope =
        envelope_encrypt(b"secret payload", b"aad-1", &[*eu.public()], &seed("s")).unwrap();
    // Tamper the ciphertext.
    let mut tampered = envelope.clone();
    let mut bytes = unhex(&tampered.ciphertext).unwrap();
    bytes[0] ^= 0x01;
    tampered.ciphertext = hex(&bytes);
    assert!(envelope_open(&tampered, &eu).is_err());
    // Tamper the wrapped key.
    let mut tampered = envelope.clone();
    let mut bytes = unhex(&tampered.recipients[0].wrapped_key).unwrap();
    bytes[0] ^= 0x01;
    tampered.recipients[0].wrapped_key = hex(&bytes);
    assert!(envelope_open(&tampered, &eu).is_err());
    // Tamper the ephemeral key (wrong ECDH => wrong KEK).
    let mut tampered = envelope.clone();
    let mut bytes = unhex(&tampered.recipients[0].encapsulated_key).unwrap();
    bytes[0] ^= 0x01;
    tampered.recipients[0].encapsulated_key = hex(&bytes);
    assert!(envelope_open(&tampered, &eu).is_err());
    // Tamper the AAD (authenticated routing context).
    let mut tampered = envelope.clone();
    tampered.aad = hex(b"other");
    assert!(envelope_open(&tampered, &eu).is_err());
    // The untampered envelope still opens.
    assert_eq!(envelope_open(&envelope, &eu).unwrap(), b"secret payload");
}

#[test]
fn a_stranger_cannot_open() {
    let eu = recipient(KemSuite::X25519, "eu");
    let envelope = envelope_encrypt(b"m", b"a", &[*eu.public()], &seed("s")).unwrap();
    let stranger = recipient(KemSuite::X25519, "stranger");
    let err = envelope_open(&envelope, &stranger).unwrap_err();
    assert!(err.to_string().contains("no wrap for recipient"));
}

#[test]
fn multi_recipient_envelope_opens_under_each_independently() {
    // The sovereign doctrine: EU (X25519) and CN (X25519, different
    // key) recipients plus a second wrap for the same holder — one
    // ciphertext, one wrap each, each opens alone.
    let eu = recipient(KemSuite::X25519, "eu");
    let cn = recipient(KemSuite::X25519, "cn");
    let payload = b"shared but jurisdictionally wrapped";
    let envelope = envelope_encrypt(
        payload,
        b"route:eu+cn",
        &[*eu.public(), *cn.public()],
        &seed("multi"),
    )
    .unwrap();
    assert_eq!(envelope.recipients.len(), 2);
    assert_ne!(
        envelope.recipients[0].encapsulated_key, envelope.recipients[1].encapsulated_key,
        "per-recipient ephemerals must not be reused"
    );
    assert_eq!(envelope_open(&envelope, &eu).unwrap(), payload);
    assert_eq!(envelope_open(&envelope, &cn).unwrap(), payload);
}

#[test]
fn suite_tokens_parse_and_gate() {
    assert_eq!(KemSuite::parse_token("x25519").unwrap(), KemSuite::X25519);
    assert_eq!(
        KemSuite::parse_token("ML-KEM-768").unwrap(),
        KemSuite::MlKem768
    );
    assert!(KemSuite::parse_token("rsa").is_err());
    assert!(KemSuite::X25519.is_computed());
    assert!(KemSuite::MlKem768.is_computed());
}

#[test]
fn ml_kem_envelope_round_trips_alone_and_alongside_x25519() {
    let pq = recipient(KemSuite::MlKem768, "pq");
    let classical = recipient(KemSuite::X25519, "classical");
    // The hybrid migration shape: one payload, classical + PQ wraps.
    let envelope = envelope_encrypt(
        b"hybrid payload",
        b"hybrid",
        &[*classical.public(), *pq.public()],
        &seed("hybrid"),
    )
    .unwrap();
    assert_eq!(envelope.recipients.len(), 2);
    assert_eq!(envelope.recipients[1].kem, "ml-kem-768");
    assert_eq!(
        envelope.recipients[1].encapsulated_key.len(),
        1088 * 2,
        "ML-KEM-768 ciphertext is 1088 bytes (hex-doubled)"
    );
    assert_eq!(
        envelope_open(&envelope, &classical).unwrap(),
        b"hybrid payload"
    );
    assert_eq!(envelope_open(&envelope, &pq).unwrap(), b"hybrid payload");
    // PQ-only envelope.
    let envelope = envelope_encrypt(b"pq only", b"pq", &[*pq.public()], &seed("pq")).unwrap();
    assert_eq!(envelope_open(&envelope, &pq).unwrap(), b"pq only");
    // A tampered KEM ciphertext fails the wrap authentication.
    let mut tampered = envelope.clone();
    let mut bytes = unhex(&tampered.recipients[0].encapsulated_key).unwrap();
    bytes[10] ^= 0x01;
    tampered.recipients[0].encapsulated_key = hex(&bytes);
    assert!(envelope_open(&tampered, &pq).is_err());
}

#[test]
fn empty_recipient_list_is_refused() {
    let err = envelope_encrypt(b"m", b"a", &[], &seed("s")).unwrap_err();
    assert!(err.to_string().contains("at least one recipient"));
}

#[test]
fn recipient_descriptions_show_no_secret() {
    let r = recipient(KemSuite::X25519, "quiet");
    assert_eq!(
        r.describe(),
        format!(
            "KemKeyPair {{ suite: \"x25519\", public: \"{}\", .. }}",
            r.public().key_id()
        )
    );
}
