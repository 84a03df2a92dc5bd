//! Tests of the authority model and the reconciler: startup apply, event
//! driven persistence, idempotence, and the independence of the two sets.

use asset_scope::authority::Authority;
use asset_scope::reconciler::{apply_record, Reconciler, ReconcilerPhase};
use asset_scope::record::ScopeRecord;
use asset_scope::store::{load_record, LoadStatus};

fn b(s: &str) -> Vec<u8> {
    s.as_bytes().to_vec()
}

fn sorted(mut l: Vec<Vec<u8>>) -> Vec<Vec<u8>> {
    l.sort();
    l
}

#[test]
fn authority_starts_empty() {
    let auth = Authority::new();
    assert!(auth.allowed().is_empty());
    assert!(auth.forbidden().is_empty());
    assert!(!auth.is_allowed(&b("/a")));
    assert!(!auth.is_forbidden(&b("/a")));
}

#[test]
fn allow_and_forbid_are_set_inserts() {
    let mut auth = Authority::new();
    auth.allow_file(b("/a"));
    auth.allow_file(b("/b"));
    auth.allow_file(b("/a"));
    assert_eq!(sorted(auth.allowed()), vec![b("/a"), b("/b")]);
    auth.forbid_file(b("/c"));
    auth.forbid_file(b("/c"));
    assert_eq!(auth.forbidden(), vec![b("/c")]);
}

#[test]
fn both_sets_independence() {
    let mut auth = Authority::new();
    auth.allow_file(b("/tmp/x"));
    assert!(auth.is_allowed(&b("/tmp/x")));
    assert!(!auth.is_forbidden(&b("/tmp/x")));
    auth.forbid_file(b("/tmp/x"));
    // Still allowed, and now also forbidden: two separate calls may put a
    // path in both sets.
    assert!(auth.is_allowed(&b("/tmp/x")));
    assert!(auth.is_forbidden(&b("/tmp/x")));
    auth.forbid_file(b("/tmp/y"));
    assert!(!auth.is_allowed(&b("/tmp/y")));
    assert!(auth.is_forbidden(&b("/tmp/y")));
}

#[test]
fn idempotent_apply() {
    let mut auth = Authority::new();
    auth.allow_file(b("/pre"));
    let rec = ScopeRecord::from_lists(&vec![b("/a"), b("/b")], &vec![b("/f")]);
    apply_record(&mut auth, &rec);
    let allowed_once = sorted(auth.allowed());
    let forbidden_once = sorted(auth.forbidden());
    apply_record(&mut auth, &rec);
    assert_eq!(sorted(auth.allowed()), allowed_once);
    assert_eq!(sorted(auth.forbidden()), forbidden_once);
    assert_eq!(allowed_once, vec![b("/a"), b("/b"), b("/pre")]);
    assert_eq!(forbidden_once, vec![b("/f")]);
}

#[test]
fn bootstrap_missing_goes_listening() {
    let mut auth = Authority::new();
    let mut rc = Reconciler::new();
    assert_eq!(rc.phase, ReconcilerPhase::Bootstrapping);
    let st = rc.bootstrap(&mut auth, None);
    assert_eq!(st, LoadStatus::Missing);
    assert_eq!(rc.phase, ReconcilerPhase::Listening);
    assert!(auth.allowed().is_empty());
    assert!(auth.forbidden().is_empty());
}

#[test]
fn bootstrap_corrupt_goes_listening_with_empty_scope() {
    let mut auth = Authority::new();
    let mut rc = Reconciler::new();
    let st = rc.bootstrap(&mut auth, Some(&b("not json")));
    assert_eq!(st, LoadStatus::Corrupt);
    assert_eq!(rc.phase, ReconcilerPhase::Listening);
    assert!(auth.allowed().is_empty());
    assert!(auth.forbidden().is_empty());
}

#[test]
fn bootstrap_applies_saved_record() {
    let mut auth = Authority::new();
    let mut rc = Reconciler::new();
    let content = b("{\"allowed_paths\":[\"/a\",\"/a\",\"/b\"],\"forbidden_paths\":[\"/f\"]}");
    let st = rc.bootstrap(&mut auth, Some(&content));
    assert_eq!(st, LoadStatus::Loaded);
    assert_eq!(sorted(auth.allowed()), vec![b("/a"), b("/b")]);
    assert_eq!(auth.forbidden(), vec![b("/f")]);
}

#[test]
fn event_driven_persistence() {
    let mut auth = Authority::new();
    let mut rc = Reconciler::new();
    let st = rc.bootstrap(&mut auth, None);
    assert_eq!(st, LoadStatus::Missing);
    auth.allow_file(b("/tmp/a"));
    let out = rc.observe_mutation(&auth);
    let (rec, st2) = load_record(Some(&out));
    assert_eq!(st2, LoadStatus::Loaded);
    assert_eq!(rec.allowed_paths, vec![b("/tmp/a")]);
    assert!(rec.forbidden_paths.is_empty());
}

#[test]
fn request_allow_passes_through() {
    let mut auth = Authority::new();
    let mut rc = Reconciler::new();
    rc.bootstrap(&mut auth, None);
    rc.request_allow(&mut auth, b("/granted"));
    assert!(auth.is_allowed(&b("/granted")));
    assert!(!auth.is_forbidden(&b("/granted")));
    let out = rc.observe_mutation(&auth);
    let (rec, _) = load_record(Some(&out));
    assert_eq!(rec.allowed_paths, vec![b("/granted")]);
}

#[test]
fn persisted_state_survives_restart() {
    // First run: grant two paths, forbid one, persist on each event.
    let mut auth = Authority::new();
    let mut rc = Reconciler::new();
    rc.bootstrap(&mut auth, None);
    auth.allow_file(b("/a"));
    let _ = rc.observe_mutation(&auth);
    auth.forbid_file(b("/f"));
    let _ = rc.observe_mutation(&auth);
    auth.allow_file(b("/b"));
    let file = rc.observe_mutation(&auth);
    // Second run: bootstrap from the last persisted bytes.
    let mut auth2 = Authority::new();
    let mut rc2 = Reconciler::new();
    let st = rc2.bootstrap(&mut auth2, Some(&file));
    assert_eq!(st, LoadStatus::Loaded);
    assert_eq!(sorted(auth2.allowed()), vec![b("/a"), b("/b")]);
    assert_eq!(auth2.forbidden(), vec![b("/f")]);
}
