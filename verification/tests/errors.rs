use unidpp_signatif::SignatifError;

#[test]
fn errors_display() {
    let e = SignatifError::SuiteDeferred {
        suite: "sm2".into(),
        detail: "binding deferred".into(),
    };
    assert!(e.to_string().contains("framing-only"));
    assert_eq!(
        SignatifError::invalid("bad").to_string(),
        "validation error: bad"
    );
}

#[test]
fn every_error_has_words() {
    assert_eq!(
        SignatifError::crypto("no").to_string(),
        "cryptographic error: no"
    );
    assert_eq!(
        SignatifError::NoTrustPath {
            key_id: "k-1".into()
        }
        .to_string(),
        "no delegation path from any anchored root to key `k-1`"
    );
    assert_eq!(
        SignatifError::Unknown {
            kind: "node",
            id: "x".into()
        }
        .to_string(),
        "unknown node `x`"
    );
    assert_eq!(
        SignatifError::Trust("t".into()).to_string(),
        "trust anchoring failed: t"
    );
    assert_eq!(
        SignatifError::Transparency("t".into()).to_string(),
        "transparency error: t"
    );
    assert_eq!(
        SignatifError::CredentialSignatureInvalid {
            parent: "a".into(),
            child: "b".into()
        }
        .to_string(),
        "delegation credential a -> b failed signature verification"
    );
}
