//! Tests of showing a revision.
use miniswe_tools::args::ArgValue;
use miniswe_tools::fast::revisions::{RecordArgs, RevisionStore};
use miniswe_tools::fast::show_rev::{
    cap_for_display, make_show_request, read_show_request, render, show_revision,
    SHOW_REV_PAYLOAD_CAP,
};
use miniswe_tools::tool::ToolResult;
use serde_json::Value;

fn json(s: &str) -> Value {
    serde_json::from_str(s).unwrap()
}

/// One call of the tool.
fn execute(args: &Value, store: &RevisionStore) -> ToolResult {
    match read_show_request(args) {
        Ok(req) => show_revision(store, &req),
        Err(e) => ToolResult::err(e),
    }
}

fn args(op: &str, label: &str, payload: Option<&str>) -> RecordArgs<'static> {
    // Build with 'static strs so we don't fight lifetimes in tests.
    let op: &'static str = Box::leak(op.to_string().into_boxed_str());
    let label: &'static str = Box::leak(label.to_string().into_boxed_str());
    RecordArgs {
        operation: op,
        label,
        range: None,
        payload: payload.map(String::from),
        added: 1,
        removed: 1,
        ast_ok: true,
        ast_error: None,
        file_errors: 0,
        project_errors: 0,
    }
}

#[test]
fn shows_live_replace_range_with_payload() {
    let mut store = RevisionStore::with_cap(20);
    store.ensure_pristine("f.rs", "x").unwrap();
    let mut a = args(
        "replace_range",
        "replace_range L1-1",
        Some("println!(\"hi\");"),
    );
    a.range = Some((1, 1));
    store.record("f.rs", "y", a).unwrap();

    let r = execute(
        &json(r#"{ "path": "f.rs", "rev": 1 }"#),
            &store,
    );
    assert!(r.success, "{}", r.content);
    assert!(r.content.contains("rev_1"));
    assert!(r.content.contains("replace_range"));
    assert!(r.content.contains("range: L1-1"));
    assert!(r.content.contains("ast: ok"));
    assert!(r.content.contains("new_text: |"));
    assert!(r.content.contains("println!(\"hi\");"));
    assert!(!r.content.contains("(reverted"));
}

#[test]
fn shows_tombstone_with_reverted_marker() {
    let mut store = RevisionStore::with_cap(20);
    store.ensure_pristine("f.rs", "x").unwrap();
    store
        .record(
            "f.rs",
            "y",
            args("replace_range", "replace_range L1-1", Some("BROKEN")),
        )
        .unwrap();
    store.mark_reverted_to("f.rs", 0).unwrap(); // rev_1 becomes tombstone

    let r = execute(
        &json(r#"{ "path": "f.rs", "rev": 1 }"#),
            &store,
    );
    assert!(r.success, "{}", r.content);
    assert!(
        r.content.contains("(reverted — tombstone)"),
        "expected tombstone marker: {}",
        r.content
    );
    assert!(r.content.contains("BROKEN"));
}

#[test]
fn large_payload_is_capped_with_marker() {
    let mut store = RevisionStore::with_cap(20);
    store.ensure_pristine("f.rs", "x").unwrap();
    let big = "a".repeat(SHOW_REV_PAYLOAD_CAP + 500);
    store
        .record(
            "f.rs",
            "y",
            args("replace_range", "replace_range L1-1", Some(&big)),
        )
        .unwrap();

    let r = execute(
        &json(r#"{ "path": "f.rs", "rev": 1 }"#),
            &store,
    );
    assert!(r.success);
    assert!(
        r.content.contains("truncated"),
        "should mention truncation: {}",
        r.content
    );
    // Should contain at least SHOW_REV_PAYLOAD_CAP bytes of the payload.
    assert!(r.content.len() >= SHOW_REV_PAYLOAD_CAP);
}

#[test]
fn unknown_rev_reports_available_list() {
    let mut store = RevisionStore::with_cap(20);
    store.ensure_pristine("f.rs", "x").unwrap();
    store
        .record(
            "f.rs",
            "y",
            args("replace_range", "replace_range L1-1", Some("foo")),
        )
        .unwrap();

    let r = execute(
        &json(r#"{ "path": "f.rs", "rev": 99 }"#),
            &store,
    );
    assert!(!r.success);
    assert!(r.content.contains("rev_99"));
    assert!(r.content.contains("rev_0"));
    assert!(r.content.contains("rev_1"));
}

#[test]
fn missing_rev_arg_errors() {
    let mut store = RevisionStore::with_cap(20);
    let r = execute(&json(r#"{ "path": "f.rs" }"#), &store);
    assert!(!r.success);
    assert!(r.content.contains("rev"));
}

#[test]
fn no_revisions_for_file_errors_helpfully() {
    let mut store = RevisionStore::with_cap(20);
    let r = execute(
        &json(r#"{ "path": "never_seen.rs", "rev": 0 }"#),
            &store,
    );
    assert!(!r.success);
    assert!(r.content.contains("no revisions recorded"));
}

#[test]
fn insert_at_uses_text_key_not_new_text() {
    let mut store = RevisionStore::with_cap(20);
    store.ensure_pristine("f.rs", "x").unwrap();
    store
        .record(
            "f.rs",
            "y",
            args("insert_at", "insert_at after L0", Some("HELLO")),
        )
        .unwrap();
    let r = execute(
        &json(r#"{ "path": "f.rs", "rev": 1 }"#),
            &store,
    );
    assert!(r.content.contains("text: |"));
    assert!(!r.content.contains("new_text: |"));
    assert!(r.content.contains("HELLO"));
}

#[test]
fn shown_payloads_end_between_characters() {
    assert_eq!(cap_for_display("abc", 3), ("abc".to_string(), 0));
    assert_eq!(cap_for_display("aéb", 2), ("a".to_string(), 3));
    assert_eq!(cap_for_display("aéb", 3), ("aé".to_string(), 1));
    assert_eq!(cap_for_display("é", 0), (String::new(), 2));
}

#[test]
fn show_requests_are_checked() {
    assert!(make_show_request(ArgValue::Null, ArgValue::Null).unwrap_err().contains("'path'"));
    assert!(make_show_request(ArgValue::Text("f".to_string()), ArgValue::Bool(true))
        .unwrap_err()
        .contains("'rev'"));
}

#[test]
fn a_shown_revision_is_its_rendering() {
    let mut store = RevisionStore::with_cap(20);
    store.ensure_pristine("f", "x").unwrap();
    store.record("f", "y", args("replace_range", "r", Some("p"))).unwrap();
    let shown = execute(&json(r#"{ "path": "f", "rev": 1 }"#), &store);
    assert_eq!(shown.content, render("f", &store.get("f", 1).unwrap()));
    assert!(shown.content.contains("p"));
}
