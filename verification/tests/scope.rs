use unidpp_signatif::scope::{
    DelegationScope, LayerConstraint, ScopeCondition, ScopeRequest, WindowConstraint,
};
use unidpp_signatif::sets::StringSet;
use unidpp_signatif::time::{Interval, Timestamp};
use unidpp_signatif::SignatifError;

fn t(secs: i64) -> Timestamp {
    Timestamp::from_secs(secs)
}

#[test]
fn narrowing_algebra() {
    let wide = DelegationScope::unconstrained()
        .authority(&["eu"])
        .product_group(&["batteries", "electronics"]);
    let narrow = wide
        .clone()
        .product_group(&["batteries"])
        .within(Interval::between(t(100), t(200)).unwrap());
    assert!(wide.admits(&narrow));
    let eff = wide.narrow(&narrow).unwrap();
    assert_eq!(eff, narrow);
    // Widening the product group is refused.
    let widened = DelegationScope::unconstrained().product_group(&["textiles"]);
    assert!(matches!(
        wide.narrow(&widened),
        Err(SignatifError::ScopeViolation(_))
    ));
    // Disjoint product groups make an empty intersection.
    let disjoint = wide
        .clone()
        .product_group(&["batteries"])
        .narrow(&DelegationScope::unconstrained().product_group(&["textiles"]))
        .unwrap_err();
    assert!(matches!(disjoint, SignatifError::ScopeViolation(_)));
}

#[test]
fn window_intersect_and_entail() {
    let a = WindowConstraint::Within(Interval::between(t(0), t(100)).unwrap());
    let b = WindowConstraint::Within(Interval::between(t(50), t(150)).unwrap());
    assert!(a.entails(&WindowConstraint::Within(
        Interval::between(t(10), t(90)).unwrap()
    )));
    assert!(!a.entails(&b));
    let c = a.intersect(&b).unwrap();
    match c {
        WindowConstraint::Within(iv) => {
            assert_eq!(iv.from, t(50));
            assert_eq!(iv.to, Some(t(100)));
        }
        WindowConstraint::Anytime => panic!("bounded ∩ bounded must be bounded"),
    }
    let disjoint = WindowConstraint::Within(Interval::between(t(200), t(300)).unwrap());
    assert!(matches!(
        a.intersect(&disjoint),
        Err(SignatifError::ScopeViolation(_))
    ));
}

#[test]
fn request_matching_names_rejecting_layer() {
    let scope = DelegationScope::unconstrained()
        .authority(&["eu"])
        .profile_version(&["urn:unidpp:profile:eu-batt@3"])
        .product_group(&["batteries"])
        .within(Interval::between(t(0), t(1000)).unwrap());
    let ok = ScopeRequest::new("eu", "urn:unidpp:profile:eu-batt@3", "batteries", t(500));
    assert!(scope.matches(&ok));
    assert_eq!(scope.rejecting_layer(&ok), None);
    let wrong_group = ScopeRequest::new("eu", "urn:unidpp:profile:eu-batt@3", "textiles", t(500));
    assert!(!scope.matches(&wrong_group));
    assert_eq!(scope.rejecting_layer(&wrong_group), Some("product-group"));
    let too_late = ScopeRequest::new("eu", "urn:unidpp:profile:eu-batt@3", "batteries", t(5000));
    assert_eq!(scope.rejecting_layer(&too_late), Some("window"));
}

#[test]
fn conditions_are_joined_and_checked() {
    let lfp = ScopeCondition::Attribute {
        key: "chemistry".to_string(),
        allowed_values: StringSet::of(&["lfp", "lfp", "nmc"]),
    };
    let audit = ScopeCondition::Predicate {
        expression_ref: "urn:rule:audit".to_string(),
    };
    let parent = DelegationScope::unconstrained().condition(lfp.clone());
    let child = DelegationScope::unconstrained()
        .condition(audit.clone())
        .condition(lfp.clone());
    let both = parent.narrow(&child).unwrap();
    assert_eq!(both.conditions, vec![lfp.clone(), audit.clone()]);
    let bare = ScopeRequest::new("eu", "p@1", "batteries", t(1));
    assert_eq!(both.first_failed_condition(&bare), Some(&lfp));
    let half = bare.with_attribute("chemistry", "nmc");
    assert_eq!(both.check_conditions(&half), Err(&audit));
    let full = half.with_predicate("urn:rule:audit", true);
    assert_eq!(both.check_conditions(&full), Ok(()));
    assert_eq!(lfp.label(), "attribute");
    assert_eq!(audit.label(), "predicate");
}

#[test]
fn contradictions_and_defaults() {
    assert!(LayerConstraint::only(&[]).is_contradiction());
    assert!(!LayerConstraint::default().is_contradiction());
    assert!(DelegationScope::default()
        .authority(&[])
        .is_contradiction());
    assert!(LayerConstraint::Any.entails(&LayerConstraint::only(&["eu"])));
    assert!(!LayerConstraint::only(&["eu"]).entails(&LayerConstraint::Any));
    assert!(WindowConstraint::default().is_any());
    let open = WindowConstraint::Within(Interval::starting(t(5)));
    assert!(!open.contains(t(4)));
    assert!(open.contains(t(5)));
    assert!(Interval::between(t(2), t(1)).is_none());
}

#[test]
fn canonical_bytes_of_a_scope_do_not_depend_on_the_order_of_values() {
    let a = DelegationScope::unconstrained().authority(&["eu", "us"]);
    let b = DelegationScope::unconstrained().authority(&["us", "eu", "us"]);
    assert_eq!(a.canonical_bytes(), b.canonical_bytes());
    let c = DelegationScope::unconstrained().authority(&["us"]);
    assert_ne!(a.canonical_bytes(), c.canonical_bytes());
}

#[test]
fn values_are_quoted_in_messages() {
    let condition = ScopeCondition::Attribute {
        key: "chemistry".to_string(),
        allowed_values: StringSet::of(&["nmc", "l\"fp"]),
    };
    assert_eq!(
        condition.to_string(),
        "chemistry in {\"l\\\"fp\", \"nmc\"}"
    );
    let parent = DelegationScope::unconstrained().authority(&["eu"]);
    let child = DelegationScope::unconstrained().authority(&["us"]);
    let why = parent.narrow(&child).unwrap_err().to_string();
    assert!(why.contains("{\"eu\"}") && why.contains("{\"us\"}"), "{}", why);
}

#[test]
fn intersections_are_never_empty() {
    let none = LayerConstraint::only(&[]);
    let some = LayerConstraint::only(&["eu", "us"]);
    for (a, b) in [
        (&LayerConstraint::Any, &none),
        (&none, &LayerConstraint::Any),
        (&some, &none),
        (&none, &none),
    ] {
        assert!(matches!(
            a.intersect(b),
            Err(SignatifError::ScopeViolation(_))
        ));
    }
    assert_eq!(LayerConstraint::Any.intersect(&some), Ok(some.clone()));
    assert_eq!(
        some.intersect(&LayerConstraint::only(&["us", "jp"])),
        Ok(LayerConstraint::only(&["us"]))
    );
    let child = DelegationScope::unconstrained().authority(&[]);
    assert!(DelegationScope::unconstrained().narrow(&child).is_err());
}
