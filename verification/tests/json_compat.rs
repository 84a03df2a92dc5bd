//! Cross-checks of the on-disk format against a general-purpose JSON
//! implementation: what the store writes is plain JSON, and what a plain
//! JSON writer produces for the same shape is read back identically.

use asset_scope::codec::decode_record;
use asset_scope::store::{load_record, save_record, LoadStatus};

fn b(s: &str) -> Vec<u8> {
    s.as_bytes().to_vec()
}

#[test]
fn saved_bytes_are_valid_json() {
    let allowed = vec![b("/a/b"), b("sp ace"), b("q\"uote\\back\nline")];
    let forbidden = vec![b("/f")];
    let bytes = save_record(&allowed, &forbidden);
    let v: serde_json::Value = serde_json::from_slice(&bytes).expect("parses as JSON");
    let obj = v.as_object().expect("an object");
    assert_eq!(obj.len(), 2);
    let a: Vec<Vec<u8>> = obj["allowed_paths"]
        .as_array()
        .expect("an array")
        .iter()
        .map(|s| s.as_str().expect("a string").as_bytes().to_vec())
        .collect();
    let f: Vec<Vec<u8>> = obj["forbidden_paths"]
        .as_array()
        .expect("an array")
        .iter()
        .map(|s| s.as_str().expect("a string").as_bytes().to_vec())
        .collect();
    assert_eq!(a, allowed);
    assert_eq!(f, forbidden);
}

#[test]
fn json_writer_output_loads_back() {
    let mut obj = serde_json::Map::new();
    obj.insert(
        "allowed_paths".to_string(),
        serde_json::Value::Array(vec![
            serde_json::Value::String("/a".to_string()),
            serde_json::Value::String("tab\there".to_string()),
        ]),
    );
    obj.insert(
        "forbidden_paths".to_string(),
        serde_json::Value::Array(vec![serde_json::Value::String("/f".to_string())]),
    );
    let text = serde_json::to_string(&serde_json::Value::Object(obj)).expect("writes");
    let bytes = text.into_bytes();
    let (rec, st) = load_record(Some(&bytes));
    assert_eq!(st, LoadStatus::Loaded);
    let mut a = rec.allowed_paths.clone();
    a.sort();
    assert_eq!(a, vec![b("/a"), b("tab\there")]);
    assert_eq!(rec.forbidden_paths, vec![b("/f")]);
}

#[test]
fn escaped_round_trip_agrees_with_json_parser() {
    let allowed = vec![vec![b'x', 0x01, 0x1f, b'"', b'\\', b'y']];
    let bytes = save_record(&allowed, &vec![]);
    // The general-purpose parser and this crate's decoder read the same path.
    let v: serde_json::Value = serde_json::from_slice(&bytes).expect("parses as JSON");
    let from_serde = v["allowed_paths"][0].as_str().expect("a string").as_bytes().to_vec();
    let (a, _) = decode_record(&bytes).expect("decodes");
    assert_eq!(a[0], from_serde);
    assert_eq!(a[0], allowed[0]);
}
