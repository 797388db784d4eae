//! Tests of files as lists of lines, of the syntax check, and of the revision store.
use miniswe_tools::fast::ast::{
    yaml_check_dup_keys, check_syntax, yaml_check, extension, first_error, has_missing, judge_tree,
    language_for, parse_check, parse_check_ext, parse_tree, Grammar, SyntaxNode,
};
use miniswe_tools::fast::lines::{
    join_with_trailing_nl, split_preserving_trailing_nl, split_replacement,
    validate_insertion_anchor, validate_range,
};
use miniswe_tools::fast::revisions::{
    cap_payload, RecordArgs, RevisionStore, MAX_STORED_PAYLOAD_BYTES,
};

#[test]
fn split_preserves_trailing_newline() {
    let (lines, had) = split_preserving_trailing_nl("a\nb\nc\n");
    assert_eq!(lines, vec!["a", "b", "c"]);
    assert!(had);

    let (lines, had) = split_preserving_trailing_nl("a\nb\nc");
    assert_eq!(lines, vec!["a", "b", "c"]);
    assert!(!had);
}

#[test]
fn split_empty_is_one_empty_line() {
    let (lines, had) = split_preserving_trailing_nl("");
    assert_eq!(lines, vec![""]);
    assert!(!had);
}

#[test]
fn join_reinstates_trailing_newline() {
    let v: Vec<String> = vec!["a".into(), "b".into()];
    assert_eq!(join_with_trailing_nl(&v, true), "a\nb\n");
    assert_eq!(join_with_trailing_nl(&v, false), "a\nb");
}

#[test]
fn split_replacement_empty_is_single_empty_line() {
    assert_eq!(split_replacement(""), vec![""]);
}

#[test]
fn split_replacement_trailing_newline_not_duplicated() {
    assert_eq!(split_replacement("x\n"), vec!["x"]);
    assert_eq!(split_replacement("x\ny\n"), vec!["x", "y"]);
}

#[test]
fn validate_range_accepts_valid() {
    assert!(validate_range(1, 1, 10).is_ok());
    assert!(validate_range(1, 10, 10).is_ok());
    assert!(validate_range(5, 7, 10).is_ok());
}

#[test]
fn validate_range_rejects_bad() {
    assert!(validate_range(0, 1, 10).is_err());
    assert!(validate_range(5, 4, 10).is_err());
    assert!(validate_range(11, 11, 10).is_err());
    assert!(validate_range(1, 11, 10).is_err());
}

#[test]
fn validate_insertion_anchor_accepts_zero_through_line_count() {
    assert!(validate_insertion_anchor(0, 10).is_ok());
    assert!(validate_insertion_anchor(5, 10).is_ok());
    assert!(validate_insertion_anchor(10, 10).is_ok());
}

#[test]
fn validate_insertion_anchor_rejects_past_end() {
    assert!(validate_insertion_anchor(11, 10).is_err());
}

#[test]
fn unsupported_language_returns_ok() {
    assert!(parse_check("README.md", "## heading\n\nbody").is_ok());
    assert!(parse_check("data.xml", "<root>").is_ok());
}

#[test]
fn clean_rust_parses() {
    let src = "fn main() { println!(\"hi\"); }\n";
    assert!(parse_check("m.rs", src).is_ok());
}

#[test]
fn unclosed_brace_flagged() {
    let src = "fn main() { let x = 1;\n";
    let err = parse_check("m.rs", src).unwrap_err();
    assert!(
        err.contains(':'),
        "error should carry a line:col prefix: {err}"
    );
}

#[test]
fn missing_semicolon_in_fn_body_flagged() {
    // tree-sitter reports this as a missing node / error
    let src = "fn f() -> i32 { let x = 1 x }\n";
    let err = parse_check("m.rs", src).unwrap_err();
    assert!(err.contains(':'));
}

#[test]
fn clean_python_parses() {
    assert!(parse_check("m.py", "def f():\n    return 1\n").is_ok());
}

#[test]
fn clean_yaml_parses() {
    let src = "key: value\nother: 123\nnested:\n  a: 1\n  b: 2\n";
    assert!(parse_check("zarf.yaml", src).is_ok());
}

#[test]
fn yaml_duplicate_key_caught() {
    let src = "charts:\n  - name: podinfo\n    valuesFiles:\n      - a.yaml\n    valuesFiles:\n      - b.yaml\n";
    let err = parse_check("common/zarf.yaml", src).unwrap_err();
    assert!(err.contains("duplicate key 'valuesFiles'"), "got: {err}");
    assert!(err.contains("first defined at"), "got: {err}");
}

#[test]
fn yaml_top_level_duplicate_key_caught() {
    let src = "name: foo\nversion: 1\nname: bar\n";
    let err = parse_check("config.yml", src).unwrap_err();
    assert!(err.contains("duplicate key 'name'"), "got: {err}");
}

#[test]
fn yaml_syntax_error_caught() {
    let src = "key: :\n  bad indent\n";
    assert!(parse_check("bad.yaml", src).is_err());
}

fn store() -> RevisionStore {
    RevisionStore::new("/tmp/_unused").unwrap()
}

fn args<'a>(op: &'a str, label: &'a str) -> RecordArgs<'a> {
    RecordArgs {
        operation: op,
        label,
        range: None,
        payload: None,
        added: 0,
        removed: 0,
        ast_ok: true,
        ast_error: None,
        file_errors: 0,
        project_errors: 0,
    }
}

#[test]
fn pristine_is_idempotent_and_sets_rev_0() {
    let mut s = store();
    s.ensure_pristine("a.rs", "v0").unwrap();
    s.ensure_pristine("a.rs", "SHOULD_BE_IGNORED").unwrap();
    assert_eq!(s.current("a.rs"), Some(0));
    assert_eq!(s.read_content("a.rs", 0).unwrap(), "v0");
}

#[test]
fn record_assigns_monotonic_numbers_starting_at_1() {
    let mut s = store();
    s.ensure_pristine("a.rs", "v0").unwrap();
    let n1 = s
        .record("a.rs", "v1", args("insert_at", "insert_at L1"))
        .unwrap();
    let n2 = s
        .record("a.rs", "v2", args("replace_range", "replace_range L1-1"))
        .unwrap();
    assert_eq!((n1, n2), (1, 2));
    assert_eq!(s.current("a.rs"), Some(2));
}

#[test]
fn record_without_pristine_is_an_error() {
    let mut s = store();
    let err = s
        .record("a.rs", "v1", args("replace_range", "rr"))
        .unwrap_err();
    assert!(err.to_string().contains("pristine"));
}

#[test]
fn live_cap_evicts_oldest_non_pristine() {
    // live_cap=2 → rev_0 + 2 live non-pristine max. rev_0 is never dropped.
    let mut s = RevisionStore::with_caps(2, 20);
    s.ensure_pristine("a.rs", "v0").unwrap();
    s.record("a.rs", "v1", args("replace_range", "r1")).unwrap();
    s.record("a.rs", "v2", args("replace_range", "r2")).unwrap();
    s.record("a.rs", "v3", args("replace_range", "r3")).unwrap();

    let revs: Vec<usize> = s.list("a.rs").iter().map(|r| r.number).collect();
    assert_eq!(revs, vec![0, 2, 3]); // rev_0 preserved, rev_1 evicted
    assert!(s.read_content("a.rs", 1).is_err());
    assert_eq!(s.read_content("a.rs", 0).unwrap(), "v0");
}

#[test]
fn mark_reverted_keeps_later_revs_as_tombstones() {
    let mut s = store();
    s.ensure_pristine("a.rs", "v0").unwrap();
    s.record("a.rs", "v1", args("replace_range", "r1")).unwrap();
    s.record("a.rs", "v2", args("replace_range", "r2")).unwrap();
    s.record("a.rs", "v3", args("replace_range", "r3")).unwrap();

    s.mark_reverted_to("a.rs", 1).unwrap();
    let rows: Vec<(usize, bool)> = s
        .list("a.rs")
        .iter()
        .map(|r| (r.number, r.reverted))
        .collect();
    assert_eq!(
        rows,
        vec![(0, false), (1, false), (2, true), (3, true)],
        "rev_2 and rev_3 should remain as tombstones"
    );
    // current() skips tombstones
    assert_eq!(s.current("a.rs"), Some(1));
    // read_content refuses tombstones
    assert!(s.read_content("a.rs", 2).is_err());
    // read_content on live target works
    assert_eq!(s.read_content("a.rs", 1).unwrap(), "v1");
}

#[test]
fn next_record_after_revert_uses_monotonic_number() {
    let mut s = store();
    s.ensure_pristine("a.rs", "v0").unwrap();
    s.record("a.rs", "v1", args("replace_range", "r1")).unwrap();
    s.record("a.rs", "v2", args("replace_range", "r2")).unwrap();
    s.record("a.rs", "v3", args("replace_range", "r3")).unwrap();
    s.mark_reverted_to("a.rs", 1).unwrap();

    // Next record should be rev_4, NOT rev_2 (2 and 3 are tombstones)
    let n = s.record("a.rs", "v4", args("replace_range", "r4")).unwrap();
    assert_eq!(n, 4);
    assert_eq!(s.current("a.rs"), Some(4));

    let rows: Vec<(usize, bool)> = s
        .list("a.rs")
        .iter()
        .map(|r| (r.number, r.reverted))
        .collect();
    assert_eq!(
        rows,
        vec![(0, false), (1, false), (2, true), (3, true), (4, false)]
    );
}

#[test]
fn mark_reverted_unknown_rev_errors() {
    let mut s = store();
    s.ensure_pristine("a.rs", "v0").unwrap();
    let err = s.mark_reverted_to("a.rs", 99).unwrap_err();
    assert!(err.to_string().contains("rev_99"));
}

#[test]
fn cannot_revert_onto_tombstone() {
    let mut s = store();
    s.ensure_pristine("a.rs", "v0").unwrap();
    s.record("a.rs", "v1", args("replace_range", "r1")).unwrap();
    s.record("a.rs", "v2", args("replace_range", "r2")).unwrap();
    s.mark_reverted_to("a.rs", 1).unwrap(); // rev_2 is now a tombstone

    let err = s.mark_reverted_to("a.rs", 2).unwrap_err();
    assert!(
        err.to_string().contains("tombstone"),
        "error should mention tombstone: {err}"
    );
}

#[test]
fn tombstone_cap_evicts_oldest() {
    // tombstone_cap=2
    let mut s = RevisionStore::with_caps(20, 2);
    s.ensure_pristine("a.rs", "v0").unwrap();
    for i in 0..5 {
        s.record("a.rs", &format!("v{i}"), args("replace_range", "r"))
            .unwrap();
    }
    // Revert to rev_0 → all 5 live entries become tombstones. Cap=2,
    // so only the 2 newest tombstones survive.
    s.mark_reverted_to("a.rs", 0).unwrap();
    let rows: Vec<usize> = s.list("a.rs").iter().map(|r| r.number).collect();
    assert_eq!(rows, vec![0, 4, 5]);
}

#[test]
fn per_file_isolation() {
    let mut s = store();
    s.ensure_pristine("a.rs", "a_v0").unwrap();
    s.ensure_pristine("b.rs", "b_v0").unwrap();
    s.record("a.rs", "a_v1", args("replace_range", "r1"))
        .unwrap();

    assert_eq!(s.current("a.rs"), Some(1));
    assert_eq!(s.current("b.rs"), Some(0));
    assert_eq!(s.read_content("b.rs", 0).unwrap(), "b_v0");
}

#[test]
fn current_none_for_untouched_file() {
    let s = store();
    assert_eq!(s.current("untouched.rs"), None);
    assert!(s.list("untouched.rs").is_empty());
}

#[test]
fn payload_over_cap_is_truncated_with_marker() {
    let mut s = store();
    s.ensure_pristine("a.rs", "").unwrap();
    let big = "x".repeat(MAX_STORED_PAYLOAD_BYTES + 1000);
    let n = s
        .record(
            "a.rs",
            "",
            RecordArgs {
                operation: "replace_range",
                label: "r",
                range: None,
                payload: Some(big),
                added: 0,
                removed: 0,
                ast_ok: true,
                ast_error: None,
                file_errors: 0,
                project_errors: 0,
            },
        )
        .unwrap();
    let rev = s.get("a.rs", n).unwrap();
    let payload = rev.payload.unwrap();
    assert!(payload.len() < MAX_STORED_PAYLOAD_BYTES + 200);
    assert!(payload.contains("truncated at store time"));
}

#[test]
fn get_returns_live_and_tombstoned_revs() {
    let mut s = store();
    s.ensure_pristine("a.rs", "v0").unwrap();
    s.record("a.rs", "v1", args("replace_range", "r1")).unwrap();
    s.record("a.rs", "v2", args("replace_range", "r2")).unwrap();
    s.mark_reverted_to("a.rs", 1).unwrap();

    let live = s.get("a.rs", 1).unwrap();
    assert!(!live.reverted);
    let tomb = s.get("a.rs", 2).unwrap();
    assert!(tomb.reverted);
}

fn leaf(kind: &str, row: usize, column: usize) -> SyntaxNode {
    SyntaxNode {
        kind: kind.to_string(),
        error: false,
        missing: false,
        has_error: false,
        row,
        column,
        start_byte: 0,
        end_byte: 0,
        children: Vec::new(),
    }
}

#[test]
fn splitting_and_joining_undo_each_other() {
    for text in ["", "\n", "a", "a\n", "a\n\nb\n", "\n\n", "ä\r\nb"] {
        let (lines, nl) = split_preserving_trailing_nl(text);
        assert_eq!(join_with_trailing_nl(&lines, nl), text);
        assert!(lines.iter().all(|l| !l.contains('\n')));
    }
    let lines = vec!["a".to_string(), String::new()];
    assert_eq!(
        split_preserving_trailing_nl(&join_with_trailing_nl(&lines, true)),
        (lines, true)
    );
}

#[test]
fn ranges_are_refused_with_their_reason() {
    assert_eq!(
        validate_range(0, 1, 10).unwrap_err(),
        "start must be >= 1 (line numbers are 1-based)"
    );
    assert_eq!(validate_range(5, 4, 10).unwrap_err(), "end (4) < start (5)");
    assert_eq!(
        validate_range(11, 12, 10).unwrap_err(),
        "start (11) is past end of file (10 line(s))"
    );
    assert_eq!(
        validate_range(1, 11, 10).unwrap_err(),
        "end (11) is past end of file (10 line(s))"
    );
    assert_eq!(
        validate_insertion_anchor(11, 10).unwrap_err(),
        "after_line (11) is past end of file (10 line(s)); use after_line = 10 to append"
    );
}

#[test]
fn error_places_count_from_one() {
    let tree = parse_tree(Grammar::Rust, "fn a() {}\n\nfn b( {}\n").unwrap().unwrap();
    assert_eq!(tree.kind, "source_file");
    assert!(tree.has_error);
    let bad = first_error(&tree).unwrap();
    assert!(bad.error || bad.missing);
    assert_eq!(bad.row, 2);
    let err = check_syntax(&tree).unwrap_err();
    assert!(err.starts_with("3:"), "{err}");
    assert_eq!(parse_check("x.rs", "fn a() {}\n\nfn b( {}\n").unwrap_err(), err);
}

#[test]
fn each_grammar_is_told_from_the_others() {
    assert!(parse_check_ext("py", "def f():\n    return 1\n").is_ok());
    assert!(parse_check_ext("rs", "def f():\n    return 1\n").is_err());
    assert!(parse_check_ext("go", "package main\n\nfunc main() {}\n").is_ok());
    assert!(parse_check_ext("go", "package main\n\nfunc main() {\n").is_err());
    assert!(parse_check_ext("js", "const a = () => 1;\n").is_ok());
    assert!(parse_check_ext("js", "const a = ;\n").is_err());
    assert!(parse_check_ext("ts", "const a: number = 1;\n").is_ok());
    assert!(parse_check_ext("tsx", "const a = <div>x</div>;\n").is_ok());
    assert!(parse_check_ext("ts", "const a = <div>x</div>;\n").is_err());
    assert!(parse_check_ext("unknown", "{{{{").is_ok());
    assert_eq!(language_for("rs"), Some(Grammar::Rust));
    assert_eq!(language_for("txt"), None);
}

#[test]
fn extensions_follow_the_last_dot_of_the_name() {
    assert_eq!(extension("src/a.rs"), "rs");
    assert_eq!(extension("a.tar.gz"), "gz");
    assert_eq!(extension(".gitignore"), "");
    assert_eq!(extension("dir.d/name"), "");
}

#[test]
fn trees_are_judged_by_their_nodes() {
    let mut root = leaf("source_file", 0, 0);
    assert!(check_syntax(&root).is_ok());
    assert!(!has_missing(&root));
    let mut hole = leaf(";", 4, 6);
    hole.missing = true;
    root.children.push(leaf("item", 1, 0));
    root.children.push(hole);
    assert!(has_missing(&root));
    assert_eq!(first_error(&root).unwrap().kind, ";");
    assert_eq!(check_syntax(&root).unwrap_err(), "5:7: missing ;");
    root.children[0].error = true;
    assert_eq!(check_syntax(&root).unwrap_err(), "2:1: syntax error");
    root.children.clear();
    root.has_error = true;
    assert_eq!(check_syntax(&root).unwrap_err(), "1:1: syntax error");
    assert_eq!(
        judge_tree(Grammar::Rust, &Some(Some(root)), "").unwrap_err(),
        "1:1: syntax error"
    );
    assert!(judge_tree(Grammar::Rust, &None, "x").is_ok());
}

#[test]
fn repeated_keys_are_named_with_both_places() {
    let src = "a: 1\nb:\n  c: 1\n  c: 2\n";
    let tree = parse_tree(Grammar::Yaml, src).unwrap().unwrap();
    let chars: Vec<char> = src.chars().collect();
    let found = yaml_check_dup_keys(&tree, &chars).unwrap();
    assert!(found.contains("duplicate key 'c'"), "{found}");
    assert!(found.starts_with("4:3"), "{found}");
    assert!(found.contains("first defined at 3:3"), "{found}");
    assert_eq!(yaml_check(&tree, src).unwrap_err(), found);
    assert!(yaml_check(&tree, src).is_err());
    let fine = "a:\n  k: 1\nb:\n  k: 2\n";
    let tree = parse_tree(Grammar::Yaml, fine).unwrap().unwrap();
    assert!(yaml_check(&tree, fine).is_ok());
}

#[test]
fn payloads_are_kept_whole_up_to_the_limit() {
    let fits = "é".repeat(MAX_STORED_PAYLOAD_BYTES / 2);
    assert_eq!(cap_payload(fits.clone()), fits);
    let over = format!("{fits}x");
    let kept = cap_payload(over.clone());
    assert_eq!(
        kept,
        format!(
            "{fits}\n… (truncated at store time — original was {} bytes)",
            over.len()
        )
    );
}

#[test]
fn a_store_without_live_room_keeps_the_first_revision() {
    let mut s = RevisionStore::with_cap(0);
    s.ensure_pristine("a", "v0").unwrap();
    assert_eq!(s.record("a", "v1", args("insert_at", "i")), Ok(1));
    assert_eq!(s.current("a"), Some(0));
    assert_eq!(s.read_content("a", 0), Ok("v0".to_string()));
    assert!(s.read_content("a", 1).is_err());
}

#[test]
fn going_back_keeps_the_content_and_shuts_off_what_came_later() {
    let mut s = store();
    s.ensure_pristine("a", "v0").unwrap();
    for i in 1..4 {
        s.record("a", &format!("v{i}"), args("replace_range", "r")).unwrap();
    }
    s.mark_reverted_to("a", 2).unwrap();
    assert_eq!(s.read_content("a", 2), Ok("v2".to_string()));
    assert!(s.mark_reverted_to("a", 3).is_err());
    assert!(s.mark_reverted_to("b", 0).unwrap_err().contains("no revisions recorded for b"));
    assert_eq!(s.get("a", 3).unwrap().content, "v3");
    assert!(s.get("a", 9).is_none());
}

#[test]
fn numbers_are_never_given_twice() {
    let mut s = RevisionStore::with_caps(20, 0);
    s.ensure_pristine("a.rs", "v0").unwrap();
    assert_eq!(s.record("a.rs", "v1", args("replace_range", "r")), Ok(1));
    assert_eq!(s.mark_reverted_to("a.rs", 0), Ok(()));
    assert_eq!(s.list("a.rs").len(), 1);
    assert_eq!(s.last_given("a.rs"), 1);
    assert_eq!(s.record("a.rs", "v2", args("replace_range", "r")), Ok(2));
    assert_eq!(s.current("a.rs"), Some(2));
    assert_eq!(s.read_content("a.rs", 2), Ok("v2".to_string()));

    let mut none = RevisionStore::with_cap(0);
    none.ensure_pristine("a.rs", "v0").unwrap();
    for n in 1..5 {
        assert_eq!(none.record("a.rs", "v", args("insert_at", "i")), Ok(n));
    }
    assert_eq!(none.last_given("b.rs"), 0);
}
