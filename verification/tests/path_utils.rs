//! Tests of the path byte-string helpers.

use asset_scope::paths::{contains_path, copy_bytes, copy_paths, dedup_paths, eq_bytes};

fn b(s: &str) -> Vec<u8> {
    s.as_bytes().to_vec()
}

#[test]
fn eq_bytes_cases() {
    assert!(eq_bytes(&b(""), &b("")));
    assert!(eq_bytes(&b("/a"), &b("/a")));
    assert!(!eq_bytes(&b("/a"), &b("/b")));
    assert!(!eq_bytes(&b("/a"), &b("/a/")));
}

#[test]
fn contains_path_cases() {
    let l = vec![b("/a"), b("/b")];
    assert!(contains_path(&l, &b("/a")));
    assert!(contains_path(&l, &b("/b")));
    assert!(!contains_path(&l, &b("/c")));
    assert!(!contains_path(&Vec::new(), &b("/a")));
}

#[test]
fn dedup_keeps_one_of_each() {
    let l = vec![b("/a"), b("/b"), b("/a"), b("/a"), b("/c"), b("/b")];
    let mut d = dedup_paths(&l);
    d.sort();
    assert_eq!(d, vec![b("/a"), b("/b"), b("/c")]);
}

#[test]
fn copies_are_equal() {
    let p = b("/some/path");
    assert_eq!(copy_bytes(&p), p);
    let l = vec![b("/a"), b("")];
    assert_eq!(copy_paths(&l), l);
}
