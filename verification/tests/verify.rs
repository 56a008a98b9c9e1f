use unidpp_signatif::verify::{outcome_token, Degradation, Failure, Outcome};

#[test]
fn outcome_tokens_are_distinct() {
    assert_eq!(outcome_token(&Outcome::Pass), "pass");
    assert_ne!(
        outcome_token(&Outcome::Fail(Failure::BrokenChain)),
        outcome_token(&Outcome::Fail(Failure::AnchorMismatch))
    );
    assert_ne!(
        outcome_token(&Outcome::Degraded(Degradation::OfflineNoAnchor)),
        outcome_token(&Outcome::Degraded(Degradation::SignaturesFramedOnly))
    );
}
