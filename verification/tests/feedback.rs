//! Tests of what is told behind every edit.
use miniswe_tools::edit_file::validate::{Diagnostic, Severity};
use miniswe_tools::fast::feedback::{
    build_feedback, choose_revisions, compose_feedback, count_project_errors, outcome_tag,
    render_file_diagnostics, render_label, render_live_row, render_revision_table,
    render_tombstone_expanded, render_tombstone_oneliner, truncate_preview,
};
use miniswe_tools::fast::revisions::Revision;

fn diagnostic(line: u32, character: u32, message: &str) -> Diagnostic {
    Diagnostic {
        line,
        character,
        severity: Some(Severity::Error),
        message: message.to_string(),
    }
}

fn rev(n: usize, label: &str, added: usize, removed: usize, fe: usize, pe: usize) -> Revision {
    Revision {
        number: n,
        operation: if n == 0 {
            "initial".into()
        } else {
            "replace_range".into()
        },
        label: label.into(),
        range: None,
        payload: None,
        added,
        removed,
        ast_ok: true,
        ast_error: None,
        file_errors: fe,
        project_errors: pe,
        reverted: false,
        content: String::new(),
    }
}

#[test]
fn revision_table_marks_current_row() {
    let revs = vec![
        rev(0, "initial", 0, 0, 0, 0),
        rev(1, "write_file", 12, 0, 0, 0),
        rev(2, "replace_range L42", 1, 1, 0, 0),
    ];
    let table = render_revision_table("src/x.rs", &revs);
    assert!(table.contains("[revisions] src/x.rs"));
    let last = table.lines().last().unwrap();
    assert!(
        last.starts_with('*'),
        "last row should be marked current: {last}"
    );
    assert!(last.contains("<- current"));
    // Earlier rows unmarked
    for l in table.lines().skip(1).take(2) {
        assert!(
            l.starts_with(' '),
            "non-current row should not be marked: {l}"
        );
    }
}

#[test]
fn revision_table_shows_line_deltas() {
    let revs = vec![
        rev(0, "initial", 0, 0, 0, 0),
        rev(1, "replace_range L42", 3, 2, 0, 0),
    ];
    let table = render_revision_table("a.rs", &revs);
    assert!(table.contains("(+3 -2)"), "table missing delta: {table}");
}

#[test]
fn file_diagnostics_empty_shows_zero() {
    let out = render_file_diagnostics(&[]);
    assert_eq!(out, "[lsp file] 0 errors");
}

#[test]
fn file_diagnostics_under_cap_show_inline() {
    let diags = vec![diagnostic(4, 2, "bad thing")];
    let out = render_file_diagnostics(&diags);
    assert!(out.contains("1 error(s)"));
    assert!(out.contains("L5:3: bad thing"));
}

#[test]
fn file_diagnostics_over_cap_truncate() {
    let many: Vec<_> = (0..15)
        .map(|i| diagnostic(i, 0, &format!("err {i}")))
        .collect();
    let out = render_file_diagnostics(&many);
    assert!(out.contains("15 error(s)"));
    assert!(out.contains("showing top 3"));
    assert!(out.contains("… and 12 more"));
}

fn tomb(n: usize, label: &str, payload: &str, ast_error: Option<&str>) -> Revision {
    Revision {
        number: n,
        operation: "replace_range".into(),
        label: label.into(),
        range: Some((1, 1)),
        payload: Some(payload.into()),
        added: 1,
        removed: 1,
        ast_ok: ast_error.is_none(),
        ast_error: ast_error.map(String::from),
        file_errors: if ast_error.is_some() { 0 } else { 3 },
        project_errors: 0,
        reverted: true,
        content: String::new(),
    }
}

#[test]
fn tombstone_row_shows_reverted_tag_and_ast_error() {
    let revs = vec![
        rev(0, "initial", 0, 0, 0, 0),
        tomb(
            1,
            "replace_range L42-42",
            "bad()",
            Some("L42:5: syntax error"),
        ),
    ];
    let table = render_revision_table("a.rs", &revs);
    assert!(
        table.contains("[reverted, ast=broken at L42:5: syntax error]"),
        "table missing reverted tag with ast error:\n{table}"
    );
    // Tombstone should show current marker on rev_0 (only live rev)
    let lines: Vec<&str> = table.lines().collect();
    let rev0_line = lines.iter().find(|l| l.contains("rev_0")).unwrap();
    assert!(rev0_line.contains("<- current"));
}

#[test]
fn last_three_tombstones_expanded_older_one_liners() {
    // 5 tombstones; only the last 3 should have `new_text: |` blocks.
    let mut revs = vec![rev(0, "initial", 0, 0, 0, 0)];
    for i in 1..=5 {
        revs.push(tomb(
            i,
            &format!("replace_range L{i}-{i}"),
            &format!("payload_{i}"),
            Some(&format!("L{i}:1: syntax error")),
        ));
    }
    let table = render_revision_table("a.rs", &revs);

    // Last 3 (rev_3, rev_4, rev_5) should have expanded payload
    assert!(
        table.contains("payload_3"),
        "rev_3 should be expanded:\n{table}"
    );
    assert!(table.contains("payload_4"));
    assert!(table.contains("payload_5"));
    // First 2 (rev_1, rev_2) should NOT show payload
    assert!(
        !table.contains("payload_1"),
        "rev_1 should be one-liner only:\n{table}"
    );
    assert!(!table.contains("payload_2"));

    // Expanded rows should have the `new_text: |` yaml marker
    assert!(table.contains("new_text: |"));
}

#[test]
fn tombstone_payload_truncated_past_five_lines() {
    let big_payload = (1..=10)
        .map(|i| format!("line_{i}"))
        .collect::<Vec<_>>()
        .join("\n");
    let revs = vec![
        rev(0, "initial", 0, 0, 0, 0),
        tomb(1, "replace_range L1-1", &big_payload, None),
    ];
    let table = render_revision_table("a.rs", &revs);
    assert!(table.contains("line_1"));
    assert!(table.contains("line_5"));
    assert!(
        !table.contains("line_6"),
        "payload should stop at 5 lines:\n{table}"
    );
    assert!(table.contains("5 more line(s)"));
    assert!(table.contains("use show_rev"));
}

#[test]
fn insert_at_tombstone_uses_text_label_not_new_text() {
    let mut t = tomb(1, "insert_at after L1", "hi\n", None);
    t.operation = "insert_at".into();
    t.range = None;
    let revs = vec![rev(0, "initial", 0, 0, 0, 0), t];
    let table = render_revision_table("a.rs", &revs);
    assert!(
        table.contains("text: |"),
        "insert_at should use 'text:' key:\n{table}"
    );
    assert!(!table.contains("new_text: |"));
}

#[test]
fn write_file_tombstone_shows_rewrite_summary_not_content() {
    let mut t = tomb(1, "write_file", "irrelevant_payload", None);
    t.operation = "write_file".into();
    t.payload = None;
    t.content = "a\nb\nc\nd\n".into();
    let revs = vec![rev(0, "initial", 0, 0, 0, 0), t];
    let table = render_revision_table("a.rs", &revs);
    assert!(table.contains("full rewrite"));
    assert!(table.contains("4 line(s)"));
    assert!(!table.contains("irrelevant_payload"));
}

#[test]
fn live_chain_renders_before_tombstones() {
    let mut t = tomb(2, "replace_range L1-1", "bad", Some("L1:1: err"));
    let revs = vec![
        rev(0, "initial", 0, 0, 0, 0),
        rev(1, "replace_range L1-1", 1, 1, 0, 0),
        {
            t.reverted = true;
            t
        },
    ];
    let table = render_revision_table("a.rs", &revs);
    let lines: Vec<&str> = table.lines().collect();
    let rev1_idx = lines.iter().position(|l| l.contains("rev_1 ")).unwrap();
    let rev2_idx = lines.iter().position(|l| l.contains("rev_2 ")).unwrap();
    assert!(
        rev1_idx < rev2_idx,
        "live rev_1 must appear before tombstoned rev_2:\n{table}"
    );
}

#[test]
fn current_marker_tracks_last_live_rev_when_later_are_tombstones() {
    let mut t = tomb(2, "replace_range L1-1", "oops", Some("L1:1: err"));
    t.reverted = true;
    let revs = vec![
        rev(0, "initial", 0, 0, 0, 0),
        rev(1, "replace_range L1-1", 1, 1, 0, 0),
        t,
    ];
    let table = render_revision_table("a.rs", &revs);
    // rev_1 (last live) should be current, rev_2 should NOT be.
    let lines: Vec<&str> = table.lines().collect();
    let rev1_line = lines.iter().find(|l| l.contains("rev_1 ")).unwrap();
    assert!(
        rev1_line.contains("<- current"),
        "rev_1 should be current:\n{table}"
    );
    let rev2_line = lines.iter().find(|l| l.contains("rev_2 ")).unwrap();
    assert!(!rev2_line.contains("<- current"));
}

#[test]
fn only_errors_count_for_the_project() {
    let mut warning = diagnostic(1, 1, "w");
    warning.severity = Some(Severity::Warning);
    let mut bare = diagnostic(1, 1, "none");
    bare.severity = None;
    assert_eq!(count_project_errors(&[diagnostic(0, 0, "a"), warning, bare]), 1);
    assert_eq!(count_project_errors(&[]), 0);
}

#[test]
fn previews_keep_to_lines_and_bytes() {
    assert_eq!(truncate_preview("a\nb\nc", 2, 100), ("a\nb".to_string(), 1, 0));
    assert_eq!(truncate_preview("abcdef", 5, 4), ("abcd".to_string(), 0, 2));
    assert_eq!(truncate_preview("aé", 5, 2), ("a".to_string(), 0, 2));
    assert_eq!(truncate_preview("a\nb\n", 5, 100), ("a\nb".to_string(), 0, 0));
}

#[test]
fn rows_hold_label_counts_and_outcome() {
    let live = rev(2, "replace_range L1-1", 3, 1, 4, 5);
    assert_eq!(render_label(&live), "replace_range L1-1 (+3 -1)");
    assert_eq!(render_label(&rev(0, "initial", 3, 1, 0, 0)), "initial");
    let row = render_live_row(&live, 2, 20);
    assert!(row.starts_with("* "), "{row}");
    assert!(row.contains("(+3 -1)"), "{row}");
    assert!(row.contains("file_errors=4"), "{row}");
    assert!(row.contains("project_errors=5"), "{row}");
    assert!(row.ends_with("  <- current"), "{row}");
    assert!(render_live_row(&live, 1, 20).starts_with("  "));
    let dead = tomb(3, "replace_range L1-1", "p", Some("1:1: missing ;"));
    assert_eq!(outcome_tag(&dead), "ast=broken at 1:1: missing ;");
    let line = render_tombstone_oneliner(&dead, 0);
    assert!(line.ends_with("[reverted, ast=broken at 1:1: missing ;]"), "{line}");
    let block = render_tombstone_expanded(&dead, 0);
    assert!(block.starts_with(&line), "{block}");
    assert!(block.contains("p"), "{block}");
}

#[test]
fn the_table_has_a_row_for_each_revision() {
    let revs = vec![
        rev(0, "initial", 0, 0, 0, 0),
        tomb(1, "replace_range L1-1", "x", None),
        rev(2, "replace_range L2-2", 1, 1, 0, 0),
    ];
    let live = choose_revisions(&revs, false);
    let dead = choose_revisions(&revs, true);
    assert_eq!(live.iter().map(|r| r.number).collect::<Vec<_>>(), vec![0, 2]);
    assert_eq!(dead.iter().map(|r| r.number).collect::<Vec<_>>(), vec![1]);
    let table = render_revision_table("a", &revs);
    assert_eq!(table.matches("<- current").count(), 1);
    for n in 0..3 {
        assert!(table.contains(&format!("rev_{n}")), "{table}");
    }
    assert_eq!(render_revision_table("a", &[]), "");
}

#[test]
fn feedback_follows_the_syntax_check() {
    let bad = build_feedback("a.rs", "fn f( {}", &[], 0, 0, &[]);
    assert!(!bad.ast_ok);
    let why = bad.ast_error.unwrap();
    assert!(why.starts_with("L1:"), "{why}");
    assert!(bad.text.contains(&format!("[ast] broken: {}", &why[1..])), "{}", bad.text);
    let fine = build_feedback("a.rs", "fn f() {}\n", &[diagnostic(0, 0, "e")], 7, 5, &[]);
    assert!(fine.ast_ok);
    assert_eq!(fine.ast_error, None);
    assert_eq!((fine.file_errors, fine.project_errors), (1, 7));
    let same = compose_feedback("a.rs", Ok(()), &[diagnostic(0, 0, "e")], 7, 5, &[]);
    assert_eq!(same.text, fine.text);
    let failed = compose_feedback("a.rs", Err("1:2: syntax error".to_string()), &[], 0, 0, &[]);
    assert_eq!(failed.ast_error, Some("L1:2: syntax error".to_string()));
    let none = "tree-sitter parse returned no tree".to_string();
    let unparsed = compose_feedback("a.rs", Err(none.clone()), &[], 0, 0, &[]);
    assert_eq!(unparsed.ast_error, Some(none));
    assert!(!failed.ast_ok);
}
