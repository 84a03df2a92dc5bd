//! Tests of the scope store: the record, its on-disk form, and the load and
//! save semantics.

use asset_scope::codec::decode_record;
use asset_scope::record::ScopeRecord;
use asset_scope::store::{load_record, save_record, LoadStatus};

fn b(s: &str) -> Vec<u8> {
    s.as_bytes().to_vec()
}

fn sorted(mut l: Vec<Vec<u8>>) -> Vec<Vec<u8>> {
    l.sort();
    l
}

#[test]
fn round_trip_save_load() {
    let allowed = vec![b("/a"), b("/b/c"), b("odd \"quoted\" \\ name")];
    let forbidden = vec![b("/x"), b("/y z")];
    let bytes = save_record(&allowed, &forbidden);
    let (rec, st) = load_record(Some(&bytes));
    assert_eq!(st, LoadStatus::Loaded);
    assert_eq!(sorted(rec.allowed_paths), sorted(allowed));
    assert_eq!(sorted(rec.forbidden_paths), sorted(forbidden));
}

#[test]
fn round_trip_control_bytes() {
    let allowed = vec![vec![b'a', 0x01, b'\n', b'\t', 0x1f, b'b'], b("/plain")];
    let forbidden = vec![];
    let bytes = save_record(&allowed, &forbidden);
    let (rec, st) = load_record(Some(&bytes));
    assert_eq!(st, LoadStatus::Loaded);
    assert_eq!(sorted(rec.allowed_paths), sorted(allowed));
    assert!(rec.forbidden_paths.is_empty());
}

#[test]
fn missing_file_default() {
    let (rec, st) = load_record(None);
    assert_eq!(st, LoadStatus::Missing);
    assert!(rec.allowed_paths.is_empty());
    assert!(rec.forbidden_paths.is_empty());
}

#[test]
fn corrupt_file_default() {
    let (rec, st) = load_record(Some(&b("not json")));
    assert_eq!(st, LoadStatus::Corrupt);
    assert!(rec.allowed_paths.is_empty());
    assert!(rec.forbidden_paths.is_empty());
}

#[test]
fn corrupt_variants_default() {
    let cases = vec![
        b(""),
        b("{}"),
        b("{\"allowed_paths\":[\"/a\"]}"),
        b("{\"allowed_paths\":[\"/a\"],\"forbidden_paths\":[\"/b\"]} "),
        b("{\"allowed_paths\":[\"/a\",],\"forbidden_paths\":[]}"),
        b("{\"allowed_paths\":[\"/a\"],\"forbidden_paths\":[\"/b\"]"),
        b("{\"allowed_paths\":[123],\"forbidden_paths\":[]}"),
    ];
    for c in &cases {
        let (rec, st) = load_record(Some(c));
        assert_eq!(st, LoadStatus::Corrupt);
        assert!(rec.allowed_paths.is_empty());
        assert!(rec.forbidden_paths.is_empty());
    }
}

#[test]
fn concrete_scenario_duplicates_collapse() {
    let bytes = b("{\"allowed_paths\":[\"/a\",\"/a\",\"/b\"],\"forbidden_paths\":[]}");
    let (rec, st) = load_record(Some(&bytes));
    assert_eq!(st, LoadStatus::Loaded);
    assert_eq!(sorted(rec.allowed_paths), vec![b("/a"), b("/b")]);
    assert!(rec.forbidden_paths.is_empty());
}

#[test]
fn save_exact_bytes() {
    let bytes = save_record(&vec![b("/a")], &vec![]);
    assert_eq!(bytes, b("{\"allowed_paths\":[\"/a\"],\"forbidden_paths\":[]}"));
}

#[test]
fn save_escapes_exact_bytes() {
    let bytes = save_record(&vec![b("a\"b\\c")], &vec![vec![0x1f]]);
    assert_eq!(
        bytes,
        b("{\"allowed_paths\":[\"a\\\"b\\\\c\"],\"forbidden_paths\":[\"\\u001f\"]}")
    );
}

#[test]
fn decode_accepts_short_escapes() {
    let bytes = b("{\"allowed_paths\":[\"a\\nb\\tc\\/d\"],\"forbidden_paths\":[\"\\u0041\"]}");
    let (a, f) = decode_record(&bytes).expect("decodes");
    assert_eq!(a, vec![b("a\nb\tc/d")]);
    assert_eq!(f, vec![b("A")]);
}

#[test]
fn decode_keeps_duplicates() {
    let bytes = b("{\"allowed_paths\":[\"/a\",\"/a\"],\"forbidden_paths\":[]}");
    let (a, f) = decode_record(&bytes).expect("decodes");
    assert_eq!(a, vec![b("/a"), b("/a")]);
    assert!(f.is_empty());
}

#[test]
fn decode_rejects_bad_escape() {
    assert!(decode_record(&b("{\"allowed_paths\":[\"a\\qb\"],\"forbidden_paths\":[]}")).is_none());
    assert!(
        decode_record(&b("{\"allowed_paths\":[\"a\\u00zz\"],\"forbidden_paths\":[]}")).is_none()
    );
    assert!(
        decode_record(&b("{\"allowed_paths\":[\"a\\u0080\"],\"forbidden_paths\":[]}")).is_none()
    );
}

#[test]
fn record_from_lists_collapses() {
    let rec = ScopeRecord::from_lists(&vec![b("/a"), b("/b"), b("/a")], &vec![b("/a")]);
    assert_eq!(sorted(rec.allowed_paths), vec![b("/a"), b("/b")]);
    assert_eq!(rec.forbidden_paths, vec![b("/a")]);
}

#[test]
fn record_to_json_matches_save() {
    let rec = ScopeRecord::from_lists(&vec![b("/a")], &vec![b("/f")]);
    assert_eq!(
        rec.to_json(),
        b("{\"allowed_paths\":[\"/a\"],\"forbidden_paths\":[\"/f\"]}")
    );
}

#[test]
fn empty_record_round_trip() {
    let bytes = save_record(&vec![], &vec![]);
    assert_eq!(bytes, b("{\"allowed_paths\":[],\"forbidden_paths\":[]}"));
    let (rec, st) = load_record(Some(&bytes));
    assert_eq!(st, LoadStatus::Loaded);
    assert!(rec.allowed_paths.is_empty());
    assert!(rec.forbidden_paths.is_empty());
}
