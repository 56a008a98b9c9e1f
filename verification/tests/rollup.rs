use unidpp_signatif::digest::sha256;
use unidpp_signatif::keyring::KeyPair;
use unidpp_signatif::rollup::{check_rollup_signature, sign_rollup, RollupAttestation};
use unidpp_signatif::sign::{SigSlot, SignatureSuite, Suite};

fn attestation() -> RollupAttestation {
    RollupAttestation {
        subject: "urn:unidpp:passport:pack".into(),
        set_root: sha256(b"cell-a"),
        aggregates: vec!["recycled-content-mass=120 g".into()],
        method_ref: "urn:unidpp:transform:recycled-content-sum".into(),
        attester: "urn:unidpp:passport:recycler".into(),
        signature: SigSlot::placeholder(SignatureSuite::EcdsaP256, "k-none"),
    }
}

#[test]
fn signed_rollup_round_trips_and_tampering_breaks_it() {
    let mut attestation = attestation();
    let key = KeyPair::seeded(Suite::EcdsaP256, b"rollup-attester").unwrap();
    sign_rollup(&key, &mut attestation).unwrap();
    assert!(attestation.signature.signature.is_some());

    // Verified against the pinned anchor.
    assert_eq!(
        check_rollup_signature(
            &attestation.signature,
            &attestation.canonical_body(),
            key.public()
        ),
        Ok(())
    );

    // A different anchor: the slot is rejected, reported by reason.
    let stranger = KeyPair::seeded(Suite::EcdsaP256, b"stranger").unwrap();
    assert!(check_rollup_signature(
        &attestation.signature,
        &attestation.canonical_body(),
        stranger.public()
    )
    .is_err());

    // A tampered body no longer matches the installed signature.
    let mut tampered = attestation.clone();
    tampered.method_ref = "urn:unidpp:transform:someone-elses-method".to_string();
    assert!(check_rollup_signature(
        &tampered.signature,
        &tampered.canonical_body(),
        key.public()
    )
    .is_err());
}

#[test]
fn rollups_need_a_suite_of_the_carrier() {
    let mut attestation = attestation();
    let key = KeyPair::seeded(Suite::Ed25519, b"rollup-attester").unwrap();
    assert!(sign_rollup(&key, &mut attestation).is_err());
    assert!(attestation.signature.signature.is_none());
}
