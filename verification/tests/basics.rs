use unidpp_signatif::canon::{CanonicalReader, CanonicalWriter};
use unidpp_signatif::digest::sha256;
use unidpp_signatif::lineage::{PassportId, ProvenanceGraph};
use unidpp_signatif::maps::TextMap;
use unidpp_signatif::sets::{sort_texts, StringSet};
use unidpp_signatif::text::{hex, unhex};
use unidpp_signatif::time::Timestamp;

#[test]
fn times_are_read() {
    assert_eq!(
        Timestamp::parse("1970-01-01T00:00:00Z"),
        Some(Timestamp::from_secs(0))
    );
    assert_eq!(
        Timestamp::parse("2000-02-29T12:00:00Z"),
        Some(Timestamp::from_secs(951_825_600))
    );
    assert_eq!(
        Timestamp::parse("2000-03-01T00:00:00+01:00"),
        Some(Timestamp::from_secs(951_865_200))
    );
    assert_eq!(Timestamp::parse("1900-02-29T12:00:00Z"), None);
    assert_eq!(Timestamp::parse("2030-13-01T00:00:00Z"), None);
    assert_eq!(Timestamp::parse("2030-01-01T24:00:00Z"), None);
    assert_eq!(Timestamp::parse("2030-01-01"), None);
    assert_eq!(
        Timestamp::from_secs(10).signed_secs_since(Timestamp::from_secs(25)),
        -15
    );
}

#[test]
fn digests_are_sha256() {
    assert_eq!(
        sha256(b"abc").hex(),
        "ba7816bf8f01cfea414140de5dae2223b00361a396177a9cb410ff61f20015ad"
    );
}

#[test]
fn hexadecimal_reads_back() {
    let bytes: Vec<u8> = (0..=255).collect();
    assert_eq!(unhex(&hex(&bytes)), Some(bytes));
    assert_eq!(hex(&[0x0f, 0xa0]), "0fa0");
}

#[test]
fn canonical_fields_are_read_back() {
    let mut w = CanonicalWriter::new();
    w.write_str("ab");
    w.write_bytes(&[]);
    let bytes = w.into_bytes();
    let mut r = CanonicalReader::new(&bytes);
    assert_eq!(r.read_bytes(), Some(b"ab".to_vec()));
    assert_eq!(r.read_bytes(), Some(vec![]));
    assert_eq!(r.remaining(), 0);
    assert_eq!(r.read_bytes(), None);
}

#[test]
fn maps_keep_their_keys_in_order() {
    let mut m = TextMap::new();
    m.insert("b", 2);
    m.insert("a", 1);
    m.insert("b", 3);
    assert_eq!(m.len(), 2);
    assert_eq!(m.key_at(0), "a");
    assert_eq!(m.get("b"), Some(&3));
    assert_eq!(m.clone(), m);
    assert_eq!(m.remove("a"), Some(1));
    assert_eq!(m.get("a"), None);
}

#[test]
fn sets_and_sorting() {
    let s = StringSet::of(&["c", "a", "c"]);
    assert_eq!(s.len(), 2);
    assert_eq!(s.get(0), "a");
    assert!(StringSet::of(&["a"]).is_subset(&s));
    let sorted = sort_texts(&vec!["b".to_string(), "a".to_string(), "b".to_string()]);
    assert_eq!(sorted, vec!["a", "b", "b"]);
}

#[test]
fn ancestors_are_transitive() {
    let p = |n: &str| PassportId::new(&format!("urn:unidpp:passport:{n}")).unwrap();
    let mut g = ProvenanceGraph::new();
    g.record_combine(p("pack"), &[p("cell-a"), p("cell-b")]);
    g.record_combine(p("module"), &[p("pack")]);
    let up = g.ancestors(&p("module"));
    assert_eq!(up.len(), 3);
    assert!(up.contains("urn:unidpp:passport:cell-a"));
    assert!(!up.contains("urn:unidpp:passport:module"));
}
