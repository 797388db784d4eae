//! Tests of the replacement of lines by number.
use miniswe_tools::args::ArgValue;
use miniswe_tools::fast::feedback::build_feedback;
use miniswe_tools::fast::replace_range::{
    copy_lines, make_range_request, plan_replace, read_range_request, rebuild, record_edit,
    render_applied_diff, replace_label, report_replace,
};
use miniswe_tools::fast::revisions::RevisionStore;
use miniswe_tools::tool::ToolResult;
use serde_json::Value;

fn json(s: &str) -> Value {
    serde_json::from_str(s).unwrap()
}

/// One call of the tool on a file whose text is `disk`.
fn run(args: Value, disk: &mut String, store: &mut RevisionStore) -> ToolResult {
    let req = match read_range_request(&args) {
        Ok(req) => req,
        Err(e) => return ToolResult::err(e),
    };
    let original = disk.clone();
    let edit = match plan_replace(&original, &req) {
        Ok(edit) => edit,
        Err(e) => return ToolResult::err(e),
    };
    *disk = edit.new_content.clone();
    let fb = build_feedback(&req.path, disk, &[], 0, 0, &store.list(&req.path));
    let rev = record_edit(
        store,
        &req.path,
        &original,
        "replace_range",
        &replace_label(req.start, req.end),
        Some((req.start, req.end)),
        &req.content,
        &edit,
        &fb,
    )
    .unwrap();
    let fb = build_feedback(&req.path, disk, &[], 0, 0, &store.list(&req.path));
    report_replace(&req, rev, &edit, &fb.text)
}

#[test]
fn replaces_single_line() {
    let mut disk = String::from("a\nb\nc\n");
    let mut store = RevisionStore::with_cap(20);

    let r = run(
        json(r#"{ "path": "f.rs", "start": 2, "end": 2, "content": "B" }"#),
        &mut disk,
        &mut store,
    );
    assert!(r.success, "{}", r.content);
    let disk = disk.clone();
    assert_eq!(disk, "a\nB\nc\n");
    assert_eq!(store.current("f.rs"), Some(1));
}

#[test]
fn replaces_multi_line_with_multi_line() {
    let mut disk = String::from("1\n2\n3\n4\n");
    let mut store = RevisionStore::with_cap(20);

    let r = run(
        json(r#"{
            "path": "f.rs", "start": 2, "end": 3, "content": "X\nY\nZ"
        }"#),
        &mut disk,
        &mut store,
    );
    assert!(r.success);
    let disk = disk.clone();
    assert_eq!(disk, "1\nX\nY\nZ\n4\n");
}

#[test]
fn empty_content_deletes_range() {
    let mut disk = String::from("1\n2\n3\n4\n");
    let mut store = RevisionStore::with_cap(20);

    let r = run(
        json(r#"{ "path": "f.rs", "start": 2, "end": 3, "content": "" }"#),
        &mut disk,
        &mut store,
    );
    assert!(r.success, "{}", r.content);
    let disk = disk.clone();
    assert_eq!(disk, "1\n4\n");
}

#[test]
fn noop_replacement_is_flagged_not_recorded() {
    let mut disk = String::from("a\nb\nc\n");
    let mut store = RevisionStore::with_cap(20);

    // Replace line 2 ("b") with "b" — a no-op.
    let r = run(
        json(r#"{ "path": "f.rs", "start": 2, "end": 2, "content": "b" }"#),
        &mut disk,
        &mut store,
    );
    assert!(!r.success, "no-op should be flagged: {}", r.content);
    assert!(r.content.contains("already match"));
    // No revision recorded for a no-op.
    assert_eq!(store.current("f.rs"), None);
    // Disk unchanged.
    assert_eq!( disk.clone(),
        "a\nb\nc\n"
    );
}

#[test]
fn out_of_range_errors_and_does_not_touch_disk() {
    let mut disk = String::from("a\nb\n");
    let mut store = RevisionStore::with_cap(20);

    let r = run(
        json(r#"{ "path": "f.rs", "start": 5, "end": 5, "content": "X" }"#),
        &mut disk,
        &mut store,
    );
    assert!(!r.success);
    let disk = disk.clone();
    assert_eq!(disk, "a\nb\n");
    assert_eq!(
        store.current("f.rs"),
        None,
        "no rev should be recorded on failure"
    );
}

#[test]
fn wide_range_is_allowed_and_diffed() {
    let original: String = (1..=40).map(|i| format!("line{i}\n")).collect();
    let mut disk = String::from(original);
    let mut store = RevisionStore::with_cap(20);

    let r = run(
        json(r#"{ "path": "f.rs", "start": 1, "end": 35, "content": "X" }"#),
        &mut disk,
        &mut store,
    );
    assert!(r.success, "35-line range must apply: {}", r.content);
    assert!(r.content.contains("Applied diff"), "{}", r.content);
    assert!(r.content.contains("-line35"), "{}", r.content);
}

#[test]
fn result_echoes_applied_diff_with_revert_hint() {
    let mut disk = String::from("keep1\nold\nkeep2\n");
    let mut store = RevisionStore::with_cap(20);

    let r = run(
        json(r#"{ "path": "f.rs", "start": 1, "end": 3, "content": "keep1\nnew\nkeep2" }"#),
        &mut disk,
        &mut store,
    );
    assert!(r.success, "{}", r.content);
    assert!(r.content.contains("Applied diff"), "{}", r.content);
    assert!(r.content.contains("-old"), "{}", r.content);
    assert!(r.content.contains("+new"), "{}", r.content);
    // unchanged lines inside the range are NOT echoed
    assert!(!r.content.contains("-keep1"), "{}", r.content);
    assert!(!r.content.contains("+keep2"), "{}", r.content);
    assert!(r.content.contains("call revert"), "{}", r.content);
}

#[test]
fn deletion_diff_shows_all_removed_lines() {
    let mut disk = String::from("a\nb\nc\n");
    let mut store = RevisionStore::with_cap(20);

    let r = run(
        json(r#"{ "path": "f.rs", "start": 2, "end": 3, "content": "" }"#),
        &mut disk,
        &mut store,
    );
    assert!(r.success, "{}", r.content);
    assert!(r.content.contains("-b"), "{}", r.content);
    assert!(r.content.contains("-c"), "{}", r.content);
    // no spurious "+" blank from the deletion placeholder
    assert!(!r.content.contains("\n+\n"), "{}", r.content);
}

#[test]
fn second_edit_records_rev_2() {
    let mut disk = String::from("a\nb\n");
    let mut store = RevisionStore::with_cap(20);

    run(
        json(r#"{ "path": "f.rs", "start": 1, "end": 1, "content": "A" }"#),
        &mut disk,
        &mut store,
    );
    run(
        json(r#"{ "path": "f.rs", "start": 2, "end": 2, "content": "B" }"#),
        &mut disk,
        &mut store,
    );
    assert_eq!(store.current("f.rs"), Some(2));
    // rev_0 should still be the pristine original
    assert_eq!(store.read_content("f.rs", 0).unwrap(), "a\nb\n");
}

fn texts(v: &[&str]) -> Vec<String> {
    v.iter().map(|s| s.to_string()).collect()
}

#[test]
fn requests_name_the_first_argument_that_is_wrong() {
    let err = |s: &str| read_range_request(&json(s)).unwrap_err();
    assert_eq!(err("{}"), "Missing required parameter: 'path' (expected string)");
    assert!(err(r#"{ "path": "a", "start": "1" }"#).contains("'start'"));
    assert!(err(r#"{ "path": "a", "start": 1 }"#).contains("'end'"));
    assert!(err(r#"{ "path": "a", "start": 1, "end": 1, "content": 3 }"#).contains("'content'"));
    let req = make_range_request(
        ArgValue::Text("a".to_string()),
        ArgValue::Number { text: "2".to_string(), unsigned: Some(2) },
        ArgValue::Number { text: "3".to_string(), unsigned: Some(3) },
        ArgValue::Text("x".to_string()),
    )
    .unwrap();
    assert_eq!((req.path.as_str(), req.start, req.end, req.content.as_str()), ("a", 2, 3, "x"));
}

#[test]
fn diffs_keep_common_lines_and_show_the_others() {
    assert_eq!(
        render_applied_diff(&texts(&["a", "b", "c"]), &texts(&["a", "x", "c", "d"])),
        "+x\n-b\n+d\n"
    );
    assert_eq!(render_applied_diff(&texts(&["a"]), &texts(&["a"])), "");
    assert_eq!(render_applied_diff(&[], &texts(&["a"])), "+a\n");
}

#[test]
fn lines_outside_the_range_stay() {
    let req = read_range_request(&json(
        r#"{ "path": "f", "start": 2, "end": 3, "content": "x\ny\nz\n" }"#,
    ))
    .unwrap();
    let edit = plan_replace("1\n2\n3\n4\n5", &req).unwrap();
    assert_eq!(edit.new_content, "1\nx\ny\nz\n4\n5");
    assert_eq!((edit.added, edit.removed), (3, 2));
    assert_eq!(edit.diff, "+x\n+y\n+z\n-2\n-3\n");
}

#[test]
fn a_file_that_loses_all_lines_is_empty() {
    let req = read_range_request(&json(
        r#"{ "path": "f", "start": 1, "end": 2, "content": "" }"#,
    ))
    .unwrap();
    let edit = plan_replace("1\n2\n", &req).unwrap();
    assert_eq!(edit.new_content, "");
    assert_eq!(rebuild(&Vec::new(), true), "");
    assert_eq!(copy_lines(&texts(&["a", "b", "c"]), 1, 3), texts(&["b", "c"]));
}

#[test]
fn reports_count_what_came_and_went() {
    let mut disk = String::from("a\nb\n");
    let mut store = RevisionStore::with_cap(20);
    let r = run(
        json(r#"{ "path": "f.txt", "start": 2, "end": 2, "content": "c" }"#),
        &mut disk,
        &mut store,
    );
    assert!(
        r.content.starts_with("replace_range f.txt L2-2: rev_1 applied (+1 -1)"),
        "{}",
        r.content
    );
    let rev = store.get("f.txt", 1).unwrap();
    assert_eq!(rev.label, "replace_range L2-2");
    assert_eq!(rev.range, Some((2, 2)));
    assert_eq!(rev.payload, Some("c".to_string()));
    assert_eq!(rev.content, "a\nc\n");
}

#[test]
fn a_deletion_adds_no_lines() {
    let mut disk = String::from("1\n2\n3\n4\n");
    let mut store = RevisionStore::with_cap(20);
    let r = run(
        json(r#"{ "path": "f.rs", "start": 2, "end": 3, "content": "" }"#),
        &mut disk,
        &mut store,
    );
    assert!(r.content.starts_with("replace_range f.rs L2-3: rev_1 applied (+0 -2)"), "{}", r.content);
    assert_eq!(disk, "1\n4\n");
    let rev = store.get("f.rs", 1).unwrap();
    assert_eq!((rev.added, rev.removed), (0, 2));
}

#[test]
fn diffs_keep_the_longest_common_lines() {
    let old = texts(&["a", "b", "c", "d"]);
    let new = texts(&["c", "d", "a"]);
    assert_eq!(render_applied_diff(&old, &new), "-a\n-b\n+a\n");
}
