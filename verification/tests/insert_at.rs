//! Tests of the insertion of lines.
use miniswe_tools::args::ArgValue;
use miniswe_tools::fast::feedback::build_feedback;
use miniswe_tools::fast::insert_at::{
    insert_label, make_insert_request, plan_insert, read_insert_request, report_insert,
};
use miniswe_tools::fast::replace_range::record_edit;
use miniswe_tools::fast::revisions::RevisionStore;
use miniswe_tools::tool::ToolResult;
use serde_json::Value;

fn line(n: u64) -> ArgValue {
    ArgValue::Number { text: n.to_string(), unsigned: Some(n) }
}

fn json(s: &str) -> Value {
    serde_json::from_str(s).unwrap()
}

/// One call of the tool on a file whose text is `disk`.
fn run(args: Value, disk: &mut String, store: &mut RevisionStore) -> ToolResult {
    let req = match read_insert_request(&args) {
        Ok(req) => req,
        Err(e) => return ToolResult::err(e),
    };
    let original = disk.clone();
    let edit = match plan_insert(&original, &req) {
        Ok(edit) => edit,
        Err(e) => return ToolResult::err(e),
    };
    *disk = edit.new_content.clone();
    let fb = build_feedback(&req.path, disk, &[], 0, 0, &store.list(&req.path));
    let rev = record_edit(
        store,
        &req.path,
        &original,
        "insert_at",
        &insert_label(req.after_line),
        None,
        &req.content,
        &edit,
        &fb,
    )
    .unwrap();
    let fb = build_feedback(&req.path, disk, &[], 0, 0, &store.list(&req.path));
    report_insert(&req, rev, edit.added, &fb.text)
}

#[test]
fn insert_after_middle_line() {
    let mut disk = String::from("a\nb\nc\n");
    let mut store = RevisionStore::with_cap(20);

    let r = run(
        json(r#"{ "path": "f.rs", "after_line": 2, "content": "NEW" }"#),
        &mut disk,
        &mut store,
    );
    assert!(r.success, "{}", r.content);
    let disk = disk.clone();
    assert_eq!(disk, "a\nb\nNEW\nc\n");
}

#[test]
fn insert_at_top_uses_after_line_zero() {
    let mut disk = String::from("a\nb\n");
    let mut store = RevisionStore::with_cap(20);

    let r = run(
        json(r#"{ "path": "f.rs", "after_line": 0, "content": "TOP" }"#),
        &mut disk,
        &mut store,
    );
    assert!(r.success, "{}", r.content);
    let disk = disk.clone();
    assert_eq!(disk, "TOP\na\nb\n");
}

#[test]
fn insert_at_end_appends() {
    let mut disk = String::from("a\nb\n");
    let mut store = RevisionStore::with_cap(20);

    let r = run(
        json(r#"{ "path": "f.rs", "after_line": 2, "content": "END" }"#),
        &mut disk,
        &mut store,
    );
    assert!(r.success);
    let disk = disk.clone();
    assert_eq!(disk, "a\nb\nEND\n");
}

#[test]
fn multi_line_content_inserted_verbatim() {
    let mut disk = String::from("a\nb\n");
    let mut store = RevisionStore::with_cap(20);

    let r = run(
        json(r#"{ "path": "f.rs", "after_line": 1, "content": "X\nY\nZ" }"#),
        &mut disk,
        &mut store,
    );
    assert!(r.success);
    let disk = disk.clone();
    assert_eq!(disk, "a\nX\nY\nZ\nb\n");
}

#[test]
fn anchor_past_end_rejected_and_disk_unchanged() {
    let mut disk = String::from("a\n");
    let mut store = RevisionStore::with_cap(20);

    let r = run(
        json(r#"{ "path": "f.rs", "after_line": 99, "content": "X" }"#),
        &mut disk,
        &mut store,
    );
    assert!(!r.success);
    let disk = disk.clone();
    assert_eq!(disk, "a\n");
    assert_eq!(store.current("f.rs"), None);
}

#[test]
fn empty_content_rejected() {
    let mut disk = String::from("a\n");
    let mut store = RevisionStore::with_cap(20);

    let r = run(
        json(r#"{ "path": "f.rs", "after_line": 1, "content": "" }"#),
        &mut disk,
        &mut store,
    );
    assert!(!r.success);
}

#[test]
fn insert_requests_are_checked() {
    assert!(make_insert_request(String::new(), line(0), "x".to_string()).is_err());
    assert!(make_insert_request("f".to_string(), line(0), String::new()).is_err());
    let req = make_insert_request("f".to_string(), line(4), "x".to_string()).unwrap();
    assert_eq!((req.path.as_str(), req.after_line, req.content.as_str()), ("f", 4, "x"));
    assert_eq!(
        read_insert_request(&json(r#"{ "path": "f", "content": "x" }"#)).unwrap_err(),
        "insert_at: Missing required parameter: 'after_line' (expected integer)"
    );
    assert_eq!(
        read_insert_request(&json(r#"{ "path": "f", "after_line": "2", "content": "x" }"#))
            .unwrap_err(),
        "insert_at: Parameter 'after_line' must be an integer, got string"
    );
    let top = read_insert_request(&json(r#"{ "path": "f", "after_line": 0, "content": "x" }"#));
    assert_eq!(top.unwrap().after_line, 0);
}

#[test]
fn an_insertion_without_a_line_leaves_the_file() {
    let mut disk = String::from("a\n");
    let mut store = RevisionStore::with_cap(20);
    let r = run(json(r#"{ "path": "f.rs", "content": "X" }"#), &mut disk, &mut store);
    assert!(!r.success);
    assert!(r.content.contains("after_line"), "{}", r.content);
    assert_eq!(disk, "a\n");
    assert!(store.list("f.rs").is_empty());
}

#[test]
fn all_lines_are_kept_in_order() {
    let req = make_insert_request("f".to_string(), line(1), "x\n\ny\n".to_string()).unwrap();
    let edit = plan_insert("1\n2", &req).unwrap();
    assert_eq!(edit.new_content, "1\nx\n\ny\n2");
    assert_eq!((edit.added, edit.removed), (3, 0));
    let past = make_insert_request("f".to_string(), line(3), "x".to_string()).unwrap();
    assert_eq!(
        plan_insert("1\n2", &past).unwrap_err(),
        "insert_at: after_line (3) is past end of file (2 line(s)); use after_line = 2 to append"
    );
}

#[test]
fn insertions_are_recorded_with_what_they_wrote() {
    let mut disk = String::from("a\n");
    let mut store = RevisionStore::with_cap(20);
    let r = run(
        json(r#"{ "path": "f.txt", "after_line": 1, "content": "b\nc" }"#),
        &mut disk,
        &mut store,
    );
    assert!(
        r.content.starts_with("insert_at f.txt after L1: rev_1 applied (+2 -0)"),
        "{}",
        r.content
    );
    let rev = store.get("f.txt", 1).unwrap();
    assert_eq!(rev.label, "insert_at after L1");
    assert_eq!(rev.payload, Some("b\nc".to_string()));
    assert_eq!(store.read_content("f.txt", 0), Ok("a\n".to_string()));
}
