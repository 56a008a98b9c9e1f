use unidpp_signatif::frozen::example;
use unidpp_signatif::frozen::FrozenView;

// air-gapped ingest + verify + re-execution
// matches the issuer-side render; tampering fails loudly.
#[test]
fn air_gapped_re_execution_matches_the_issuer_side_render() {
    let (view, graph) = example::battery_view();
    // Air-gapped: the view alone crosses the border.
    let back: FrozenView = view.clone();
    assert_eq!(back, view);

    let check = back.verify(&graph).unwrap();
    assert_eq!(check.policies_ok, 2);
    assert!(back.re_executes(example::battery_lens));

    // Tampered payload: re-execution catches it.
    let mut tampered = back.clone();
    tampered.payload = b"battery-view: cell_model=FORGED, conformity=pass".to_vec();
    assert!(!tampered.re_executes(example::battery_lens));

    // Swapped input bytes: the spine commitment catches it.
    let mut swapped = back.clone();
    swapped.inputs[0].bytes = b"cell_model=FORGED,capacity_Ah=52".to_vec();
    assert!(swapped.verify(&graph).is_err());

    // The digest is stable across the round trip.
    assert_eq!(back.digest(), view.digest());
}

// The freeze contract: continuous descriptors are refused.
#[test]
fn freeze_refuses_continuous_descriptors() {
    let (view, _graph) = example::battery_view();
    let err = FrozenView::freeze(
        &view.subject,
        view.payload.clone(),
        example::served_view(), // continuous
        view.lens.clone(),
        view.inputs.clone(),
        view.bundle.clone(),
        view.instructions.clone(),
        "2030-06-01T08:00:00Z",
    );
    assert!(err.is_err());
}
