//! Tests of going back to a revision.
use miniswe_tools::fast::feedback::build_feedback;
use miniswe_tools::fast::revert::{
    make_revert_request, plan_revert, read_revert_request, record_revert, report_revert,
};
use miniswe_tools::fast::revisions::{RecordArgs, RevisionStore};
use miniswe_tools::tool::ToolResult;
use serde_json::Value;

fn json(s: &str) -> Value {
    serde_json::from_str(s).unwrap()
}

/// One call of the tool on a file whose text is `disk`.
fn run(args: Value, disk: &mut String, store: &mut RevisionStore) -> ToolResult {
    let req = match read_revert_request(&args) {
        Ok(req) => req,
        Err(e) => return ToolResult::err(e),
    };
    let restored = match plan_revert(store, &req) {
        Ok(text) => text,
        Err(e) => return ToolResult::err(e),
    };
    *disk = restored;
    if let Err(e) = record_revert(store, &req) {
        return ToolResult::err(e);
    }
    let fb = build_feedback(&req.path, disk, &[], 0, 0, &store.list(&req.path));
    report_revert(&req, &fb.text)
}

fn rec_args<'a>(op: &'a str, label: &'a str) -> RecordArgs<'a> {
    RecordArgs {
        operation: op,
        label,
        range: None,
        payload: None,
        added: 1,
        removed: 1,
        ast_ok: true,
        ast_error: None,
        file_errors: 0,
        project_errors: 0,
    }
}

#[test]
fn revert_to_pristine_restores_rev0_and_tombstones_rest() {
    let mut disk = String::from("a\nb\n");
    let mut store = RevisionStore::with_cap(20);

    // Seed pristine and two edits
    store.ensure_pristine("f.rs", "a\nb\n").unwrap();
    store
        .record(
            "f.rs",
            "A\nb\n",
            rec_args("replace_range", "replace_range L1-1"),
        )
        .unwrap();
    store
        .record(
            "f.rs",
            "A\nB\n",
            rec_args("replace_range", "replace_range L2-2"),
        )
        .unwrap();
    disk = String::from("A\nB\n");

    let r = run(
        json(r#"{ "path": "f.rs", "rev": 0 }"#),
        &mut disk,
        &mut store,
    );
    assert!(r.success, "{}", r.content);
    let disk = disk.clone();
    assert_eq!(disk, "a\nb\n", "disk should be rev_0 content");
    let rows: Vec<(usize, bool)> = store
        .list("f.rs")
        .iter()
        .map(|x| (x.number, x.reverted))
        .collect();
    assert_eq!(
        rows,
        vec![(0, false), (1, true), (2, true)],
        "reverted revs should remain as tombstones"
    );
    assert_eq!(store.current("f.rs"), Some(0));
}

#[test]
fn revert_to_middle_rev_keeps_that_rev() {
    let mut disk = String::from("a\n");
    let mut store = RevisionStore::with_cap(20);

    store.ensure_pristine("f.rs", "a\n").unwrap();
    store
        .record("f.rs", "v1\n", rec_args("replace_range", "r1"))
        .unwrap();
    store
        .record("f.rs", "v2\n", rec_args("replace_range", "r2"))
        .unwrap();
    store
        .record("f.rs", "v3\n", rec_args("replace_range", "r3"))
        .unwrap();
    disk = String::from("v3\n");

    let r = run(
        json(r#"{ "path": "f.rs", "rev": 1 }"#),
        &mut disk,
        &mut store,
    );
    assert!(r.success, "{}", r.content);
    let disk = disk.clone();
    assert_eq!(disk, "v1\n");
    let rows: Vec<(usize, bool)> = store
        .list("f.rs")
        .iter()
        .map(|x| (x.number, x.reverted))
        .collect();
    assert_eq!(
        rows,
        vec![(0, false), (1, false), (2, true), (3, true)],
        "rev_2 and rev_3 should be tombstones after revert"
    );
    assert_eq!(store.current("f.rs"), Some(1));
}

#[test]
fn revert_unknown_rev_errors_and_disk_unchanged() {
    let mut disk = String::from("current\n");
    let mut store = RevisionStore::with_cap(20);

    store.ensure_pristine("f.rs", "pristine\n").unwrap();

    let r = run(
        json(r#"{ "path": "f.rs", "rev": 99 }"#),
        &mut disk,
        &mut store,
    );
    assert!(!r.success);
    let disk = disk.clone();
    assert_eq!(disk, "current\n", "disk should be untouched on failure");
}

#[test]
fn revert_with_missing_rev_arg_errors() {
    let mut disk = String::new();
    let mut store = RevisionStore::with_cap(20);

    let r = run(
        json(r#"{ "path": "f.rs" }"#),
        &mut disk,
        &mut store,
    );
    assert!(!r.success);
    assert!(r.content.contains("rev"));
}

#[test]
fn next_edit_after_revert_uses_monotonic_number() {
    let mut disk = String::from("a\n");
    let mut store = RevisionStore::with_cap(20);

    store.ensure_pristine("f.rs", "a\n").unwrap();
    store
        .record("f.rs", "b\n", rec_args("replace_range", "r1"))
        .unwrap();
    store
        .record("f.rs", "c\n", rec_args("replace_range", "r2"))
        .unwrap();

    let _ = run(
        json(r#"{ "path": "f.rs", "rev": 1 }"#),
        &mut disk,
        &mut store,
    );
    // After reverting to rev_1, rev_2 is now a tombstone. The next
    // record must NOT recycle number 2 — it should assign rev_3
    // (monotonic across the full history).
    let n = store
        .record("f.rs", "d\n", rec_args("replace_range", "next"))
        .unwrap();
    assert_eq!(n, 3);
}

#[test]
fn revert_requests_are_checked() {
    assert_eq!(
        make_revert_request(String::new(), 0).unwrap_err(),
        "revert: 'path' is required"
    );
    assert_eq!(
        make_revert_request("f".to_string(), u64::MAX).unwrap_err(),
        "revert: 'rev' is required (the numeric revision to restore, e.g. 0 for pristine)"
    );
    assert_eq!(make_revert_request("f".to_string(), 7).unwrap().rev, 7);
}

#[test]
fn what_can_be_read_can_be_gone_back_to() {
    let mut store = RevisionStore::with_cap(20);
    store.ensure_pristine("f", "a").unwrap();
    store.record("f", "b", rec_args("replace_range", "r")).unwrap();
    for rev in [1, 0] {
        let req = make_revert_request("f".to_string(), rev).unwrap();
        assert!(plan_revert(&store, &req).is_ok());
        assert!(record_revert(&mut store, &req).is_ok());
    }
    let gone = make_revert_request("f".to_string(), 1).unwrap();
    assert!(plan_revert(&store, &gone).unwrap_err().starts_with("revert: "));
    assert!(record_revert(&mut store, &gone).unwrap_err().contains("tombstone"));
    assert_eq!(store.current("f"), Some(0));
}

#[test]
fn reverts_are_reported_with_the_revision() {
    let mut disk = String::from("b");
    let mut store = RevisionStore::with_cap(20);
    store.ensure_pristine("f", "a").unwrap();
    store.record("f", "b", rec_args("replace_range", "r")).unwrap();
    let r = run(json(r#"{ "path": "f", "rev": 0 }"#), &mut disk, &mut store);
    assert!(r.content.starts_with("revert f → rev_0: restored"), "{}", r.content);
    assert_eq!(disk, "a");
}
