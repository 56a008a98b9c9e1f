use unidpp_signatif::graph::KeyDirectory;
use unidpp_signatif::keyring::KeyPair;
use unidpp_signatif::sign::{
    canonical_field_reader, canonical_fields, AcceptancePolicy, CoSignature, CompositeSignature,
    SigSlot, SignatureSlot, SignatureSuite, SigningDomain, SlotVerdict, Suite,
};
use unidpp_signatif::SignatifError;

fn seeded(suite: Suite, seed: &[u8]) -> KeyPair {
    KeyPair::seeded(suite, seed).ok().unwrap()
}

#[test]
fn suite_table_round_trips() {
    for suite in Suite::ALL {
        assert_eq!(Suite::parse_token(suite.as_str()).unwrap(), suite);
        let mangled = suite.as_str().to_ascii_uppercase().replace('-', "_");
        assert_eq!(Suite::parse_token(&mangled).unwrap(), suite);
    }
    assert!(Suite::parse_token("rsa-2048").is_err());
    // Core mapping: total except Ed25519.
    for core in SignatureSuite::ALL {
        let s = Suite::from_core(core);
        assert_eq!(s.to_core(), Some(core));
    }
    assert_eq!(Suite::Ed25519.to_core(), None);
    assert_eq!(Suite::Ed25519.signature_len(), 64);
    assert_eq!(Suite::Sm2.signature_len(), 64);
    assert_eq!(Suite::MlDsa87.signature_len(), 4627);
}

#[test]
fn domain_separation_blocks_cross_replay() {
    let k = seeded(Suite::Ed25519, b"d");
    let slot = SignatureSlot::sign(&k, SigningDomain::TreeHead, b"sth").unwrap();
    assert!(slot
        .verify(SigningDomain::TreeHead, b"sth", k.public())
        .is_ok());
    assert!(slot
        .verify(SigningDomain::Delegation, b"sth", k.public())
        .is_err());
    assert!(slot
        .verify(SigningDomain::TreeHead, b"other", k.public())
        .is_err());
}

#[test]
fn slot_interop_with_core_framing() {
    let k = seeded(Suite::EcdsaP256, b"d");
    let slot = SignatureSlot::sign(&k, SigningDomain::ArtifactEvent, b"body").unwrap();
    let core_slot = slot.to_sig_slot().unwrap();
    assert_eq!(core_slot.suite, SignatureSuite::EcdsaP256);
    assert_eq!(core_slot.signature.as_ref().unwrap().len(), 64);
    let back = SignatureSlot::from_sig_slot(&core_slot).unwrap();
    assert_eq!(back, slot);
    // Ed25519 does not map onto the core carrier table.
    let k2 = seeded(Suite::Ed25519, b"d");
    let slot2 = SignatureSlot::sign(&k2, SigningDomain::ArtifactEvent, b"body").unwrap();
    assert!(slot2.to_sig_slot().is_none());
    // A core placeholder converts to a framed-only slot.
    let ph = SigSlot::placeholder(SignatureSuite::Sm2, "k-sm2x");
    let conv = SignatureSlot::from_sig_slot(&ph).unwrap();
    assert!(conv.is_framed_only());
    assert_eq!(conv.suite, Suite::Sm2);
    assert!(conv
        .verify(SigningDomain::ArtifactEvent, b"body", k.public())
        .is_err());
}

#[test]
fn cosignature_acceptance_is_policy_scoped() {
    let ed = seeded(Suite::Ed25519, b"co-1");
    let p256 = seeded(Suite::EcdsaP256, b"co-2");
    let mut dir = KeyDirectory::new();
    dir.register(ed.public());
    dir.register(p256.public());

    let payload = b"canonical artifact body";
    let mut co = CoSignature::new(SigningDomain::ArtifactEvent, payload);
    co.sign_by(&ed).unwrap();
    co.sign_by(&p256).unwrap();

    let report = co.verify(&dir);
    assert_eq!(report.verified_count(), 2);
    assert_eq!(report.distinct_verified_suites(), 2);
    assert!(AcceptancePolicy::any_computed()
        .evaluate(&report)
        .is_accepted());
    assert!(AcceptancePolicy::multi_signed()
        .evaluate(&report)
        .is_accepted());

    // An SM2-only jurisdiction policy rejects: no computed suite allowed.
    let sm2_only = AcceptancePolicy::only(&[Suite::Sm2]);
    assert!(!sm2_only.evaluate(&report).is_accepted());

    // One broken slot: any-allowed still accepts via the other suite.
    let mut tampered = co.clone();
    tampered.slots[0].signature.as_mut().unwrap()[0] ^= 0x01;
    let rep2 = tampered.verify(&dir);
    assert_eq!(rep2.verified_count(), 1);
    assert!(AcceptancePolicy::any_computed()
        .evaluate(&rep2)
        .is_accepted());
    // ...but the multi-suite policy no longer does.
    assert!(!AcceptancePolicy::multi_signed()
        .evaluate(&rep2)
        .is_accepted());
}

#[test]
fn deferred_slots_are_reported_not_faked() {
    let ed = seeded(Suite::Ed25519, b"co-3");
    let mut dir = KeyDirectory::new();
    dir.register(ed.public());
    // A fake value in a framing-only suite: must NOT verify and must NOT be
    // reported Invalid — it is Deferred.
    let mut co = CoSignature::new(SigningDomain::ArtifactEvent, b"payload");
    co.frame_by(Suite::MlDsa44, ed.key_id());
    co.slots[0].signature = Some(vec![0u8; 2420]);
    let report = co.verify(&dir);
    assert!(matches!(
        &report.slots[0],
        SlotVerdict::Deferred { suite, .. } if suite == "ml-dsa-44"
    ));
    // The same fake value in SM2.
    let mut sm2 = CoSignature::new(SigningDomain::ArtifactEvent, b"payload");
    sm2.frame_by(Suite::Sm2, ed.key_id());
    sm2.slots[0].signature = Some(vec![0u8; 64]);
    let report2 = sm2.verify(&dir);
    assert!(matches!(&report2.slots[0], SlotVerdict::Deferred { .. }));
    assert!(!report.any_verified());
    assert!(!AcceptancePolicy::any_computed()
        .evaluate(&report)
        .is_accepted());
}

#[test]
fn canonical_fields_round_trip() {
    let fields: Vec<Vec<u8>> = vec![b"a".to_vec(), vec![], b"longer-field".to_vec()];
    let refs: Vec<&[u8]> = fields.iter().map(|f| f.as_slice()).collect();
    let bytes = canonical_fields(&refs);
    assert_eq!(canonical_field_reader(&bytes).unwrap(), fields);
}

#[test]
fn truncated_canonical_fields_are_refused() {
    let bytes = canonical_fields(&[b"abc"]);
    assert!(canonical_field_reader(&bytes[..bytes.len() - 1]).is_err());
    assert!(canonical_field_reader(&bytes[..2]).is_err());
    assert_eq!(canonical_field_reader(&[]).unwrap(), Vec::<Vec<u8>>::new());
}

#[test]
fn composite_signatures_verify_under_and_composition() {
    let ed = seeded(Suite::Ed25519, b"comp-1");
    let p256 = seeded(Suite::EcdsaP256, b"comp-2");
    let mut dir = KeyDirectory::new();
    dir.register(ed.public());
    dir.register(p256.public());

    let mut composite = CompositeSignature::new(SigningDomain::ArtifactEvent, b"canonical body");
    composite.sign_member(&ed).unwrap();
    composite.sign_member(&p256).unwrap();
    let verdict = composite.verify(&dir);
    assert!(verdict.verified, "all members verify: composite holds");
    assert_eq!(verdict.members.len(), 2);
    assert!(verdict.first_failing_member().is_none());
    assert_eq!(composite.member_suites().len(), 2);

    // AND-composition: tamper ONE member — the composite fails even
    // though the other member still verifies.
    let mut broken = composite.clone();
    broken.members[0].signature.as_mut().unwrap()[0] ^= 0x01;
    let verdict = broken.verify(&dir);
    assert!(!verdict.verified);
    assert!(verdict.first_failing_member().is_some());

    // An unregistered member key fails the composite (fails closed).
    let stranger = seeded(Suite::Ed25519, b"comp-3");
    let mut unknown = composite.clone();
    unknown.sign_member(&stranger).unwrap();
    assert!(!unknown.verify(&dir).verified);

    // A framed-only member fails the composite.
    let mut framed = CompositeSignature::new(SigningDomain::ArtifactEvent, b"canonical body");
    framed.sign_member(&ed).unwrap();
    framed.frame_member(Suite::MlDsa87, p256.key_id());
    let verdict = framed.verify(&dir);
    assert!(!verdict.verified);
    assert!(matches!(
        verdict.first_failing_member(),
        Some(SlotVerdict::Deferred { .. })
    ));

    // An empty composite never verifies.
    let empty = CompositeSignature::new(SigningDomain::ArtifactEvent, b"x");
    assert!(!empty.verify(&dir).verified);
}

#[test]
fn composite_slot_form_counts_toward_acceptance() {
    let ed = seeded(Suite::Ed25519, b"cs-1");
    let p256 = seeded(Suite::EcdsaP256, b"cs-2");
    let mut dir = KeyDirectory::new();
    dir.register(ed.public());
    dir.register(p256.public());

    // A co-signature carrying ONLY a composite (no plain slots).
    let mut co = CoSignature::new(SigningDomain::ArtifactEvent, b"body");
    co.sign_composite_by(&[&ed, &p256]).unwrap();
    assert!(co.slots.is_empty());
    assert_eq!(co.composites.len(), 1);
    let report = co.verify(&dir);
    assert!(report.all_composites_verified());
    // The verifying composite contributes both member suites.
    assert_eq!(report.distinct_verified_suites(), 2);
    // One composite satisfies the two-distinct-suite policy.
    assert!(AcceptancePolicy::multi_signed()
        .evaluate(&report)
        .is_accepted());

    // Tampering one member drops BOTH suites: the composite
    // contributes nothing when it fails as a whole.
    let mut tampered = co.clone();
    tampered.composites[0].members[1]
        .signature
        .as_mut()
        .unwrap()[0] ^= 0x01;
    let report = tampered.verify(&dir);
    assert!(!report.all_composites_verified());
    assert!(!report.any_verified());
    assert!(!AcceptancePolicy::any_computed()
        .evaluate(&report)
        .is_accepted());

    // A composite over different bytes cannot be attached.
    let mut foreign = CompositeSignature::new(SigningDomain::TreeHead, b"body");
    foreign.sign_member(&ed).unwrap();
    let mut co2 = CoSignature::new(SigningDomain::ArtifactEvent, b"body");
    assert!(co2.attach_composite(foreign).is_err());
}

#[test]
fn slh_dsa_suites_frame_refusing_computation() {
    // Tokens parse and round-trip; the suites are in the table.
    for (suite, token, len, code) in [
        (Suite::SlhDsa128s, "slh-dsa-128s", 7856usize, 7u8),
        (Suite::SlhDsa192s, "slh-dsa-192s", 16224, 8),
    ] {
        assert!(Suite::ALL.contains(&suite));
        assert_eq!(suite.as_str(), token);
        assert_eq!(Suite::parse_token(token).unwrap(), suite);
        assert_eq!(Suite::parse_token(&token.to_uppercase()).unwrap(), suite);
        assert_eq!(suite.signature_len(), len);
        assert_eq!(suite.code(), code);
        assert_eq!(suite.to_core(), None, "no core carrier slot");
        assert!(suite.is_post_quantum());
        assert!(!suite.is_computed());
        // Deferral vs unsupported: SLH-DSA is unsupported (feature
        // seam), not deferred (binding seam).
        assert!(suite.unsupported().is_some());
        assert_eq!(suite.deferral(), None);
        // Keygen refuses with the explicit Unsupported error.
        let err = KeyPair::seeded(suite, b"seed").err().unwrap();
        assert!(matches!(err, SignatifError::Unsupported { .. }));
        assert!(err.to_string().contains("slh-dsa"));
    }
    // Framing-only slots in a co-signature report as Deferred with
    // the unsupported detail — never faked, never fatal.
    let ed = seeded(Suite::Ed25519, b"slh");
    let mut dir = KeyDirectory::new();
    dir.register(ed.public());
    let mut co = CoSignature::new(SigningDomain::ArtifactEvent, b"body");
    co.frame_by(Suite::SlhDsa128s, ed.key_id());
    let report = co.verify(&dir);
    match &report.slots[0] {
        SlotVerdict::Deferred { suite, detail, .. } => {
            assert_eq!(suite, "slh-dsa-128s");
            assert!(detail.contains("slh-dsa"), "{detail}");
        }
        other => panic!("expected Deferred, got {other:?}"),
    }
}

#[test]
fn unknown_keys_are_reported() {
    let ed = seeded(Suite::Ed25519, b"stranger");
    let mut co = CoSignature::new(SigningDomain::ArtifactEvent, b"body");
    co.sign_by(&ed).unwrap();
    let report = co.verify(&KeyDirectory::new());
    assert!(matches!(&report.slots[0], SlotVerdict::UnknownKey { .. }));
    assert_eq!(report.verified_count(), 0);
}

#[test]
fn suites_parse_from_strings() {
    assert_eq!("ECDSA-P256".parse::<Suite>(), Ok(Suite::EcdsaP256));
    assert_eq!(
        "rsa".parse::<Suite>().unwrap_err().to_string(),
        "validation error: unknown suite `rsa`"
    );
}
