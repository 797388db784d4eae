//! Tests of a planned edit from its request to its report.
use miniswe_tools::edit_file::apply::{apply_patch_dry_run, apply_patch_dry_run_in_region};
use miniswe_tools::edit_file::inspect::InspectionCommand;
use miniswe_tools::edit_file::literal::{
    apply_literal_replace_in_scope, find_whitespace_tolerant_match, ws_tolerant_candidate,
};
use miniswe_tools::edit_file::overlap::{partition_overlapping_steps, reject_overlapping_regions};
use miniswe_tools::edit_file::parse::{
    format_edit_plan_steps, format_preplan_log, parse_edit_plan, parse_failed, strip_code_fences, truncate_multiline,
    EditPlanStep, EditRegion, PatchOp, MAX_FAILED_REASON_CHARS,
};
use miniswe_tools::edit_file::preplan::{
    history_can_show, take_verdict, validate_steps_in_file, PlanScan, PreplanOutcome, ScanStep,
};
use miniswe_tools::edit_file::prompts::{
    bullet_list, patch_prompt, region_prompt, take_region_reply, verdict_prompt, window_prompt,
    PatchResponse,
};
use miniswe_tools::edit_file::relocate::{
    edit_distance, find_relocation, fuzzy_line_scores, is_yes, pick_best_candidate,
    relocation_needs_similarity, relocation_prompt, settle_relocation, settle_whitespace,
    whitespace_prompt, RelocateOutcome, Strategy, WhitespaceOutcome,
};
use miniswe_tools::edit_file::repair::{
    format_repair_steps_for_window, window_can_show, RepairContext,
};
use miniswe_tools::edit_file::retry::{
    closing, make_request, read_request, report, AttemptStep, Attempts, PreplanResult,
    MAX_EXTRA_ATTEMPTS, MAX_PLAN_ATTEMPTS,
};
use miniswe_tools::edit_file::run::{
    apply_smart_step, check_candidate, copy_steps, sort_bottom_up, NextStep,
    PlannedExecutionFailure, SplitResult, StepRun,
};
use miniswe_tools::edit_file::validate::{
    begin_lsp_check, build_lsp_regression, build_retry_feedback, check_can_finish, error_diagnostics,
    finish_lsp_check, gate_truncation, max_literal_replace_lines, take_lsp_baseline,
    truncation_question, validate_candidate, Diagnostic, LspClientState, LspStep,
    LspValidationMode, Severity, ValidationError,
};
use miniswe_tools::edit_file::windows::build_windows;
use serde_json::Value;

fn json(s: &str) -> Value {
    serde_json::from_str(s).unwrap()
}

fn texts(v: &[&str]) -> Vec<String> {
    v.iter().map(|s| s.to_string()).collect()
}

fn smart(start: usize, end: usize, task: &str) -> EditPlanStep {
    EditPlanStep::SmartEdit(EditRegion { start, end, task: task.to_string() })
}

fn literal(start: usize, end: usize, old: &[&str], new: &[&str]) -> EditPlanStep {
    EditPlanStep::LiteralReplace {
        scope_start: start,
        scope_end: end,
        all: false,
        old: texts(old),
        new: texts(new),
    }
}

fn error(line: u32) -> Diagnostic {
    Diagnostic {
        line,
        character: 0,
        severity: Some(Severity::Error),
        message: format!("e{line}"),
    }
}

#[test]
fn a_written_plan_reads_back() {
    let plan = vec![
        smart(3, 9, "rework: the loop"),
        literal(1, 2, &["a", "", "  b"], &[""]),
        EditPlanStep::LiteralReplace {
            scope_start: 10,
            scope_end: 10,
            all: true,
            old: texts(&["x"]),
            new: texts(&["y", "END"]),
        },
    ];
    assert_eq!(parse_edit_plan(&format_edit_plan_steps(&plan)), Ok(plan));
    assert_eq!(parse_edit_plan(&format_edit_plan_steps(&Vec::new())), Ok(Vec::new()));
    let bare = vec![literal(1, 1, &["a"], &[])];
    assert_eq!(
        parse_edit_plan(&format_edit_plan_steps(&bare)),
        Ok(vec![literal(1, 1, &["a"], &[""])])
    );
}

#[test]
fn a_literal_replacement_keeps_all_other_text() {
    let file = "a\nx\nb\r\nx\nc";
    let (out, count) =
        apply_literal_replace_in_scope(file, 2, 3, &texts(&["x"]), &texts(&["1", "2"]), false)
            .unwrap();
    assert_eq!((out.as_str(), count), ("a\n1\n2\nb\r\nx\nc", 1));
    let (all, count) =
        apply_literal_replace_in_scope(file, 1, 5, &texts(&["x"]), &texts(&["y"]), true).unwrap();
    assert_eq!((all.as_str(), count), ("a\ny\nb\r\ny\nc", 2));
    assert_eq!(
        apply_literal_replace_in_scope(file, 1, 5, &texts(&["x"]), &texts(&["y"]), false)
            .unwrap_err(),
        "literal OLD block matched 2 occurrence(s) in scope L1-L5; expected exactly 1"
    );
    assert_eq!(
        apply_literal_replace_in_scope(file, 0, 5, &texts(&["x"]), &[], false).unwrap_err(),
        "invalid literal scope L0-L5"
    );
    assert_eq!(
        apply_literal_replace_in_scope(file, 1, 6, &texts(&["x"]), &[], false).unwrap_err(),
        "literal scope L1-L6 outside 5 line file"
    );
}

#[test]
fn a_region_patch_keeps_the_lines_outside() {
    let file = "1\n2\n3\n4\n5\n";
    let ops = vec![
        PatchOp::InsertAfter { line: 4, content: texts(&["new"]) },
        PatchOp::DeleteAt { start: 2, old: texts(&["2"]) },
    ];
    assert_eq!(apply_patch_dry_run_in_region(file, &ops, 2, 4), Ok("1\n3\n4\nnew\n5\n".to_string()));
    assert!(apply_patch_dry_run_in_region(file, &ops, 3, 4).unwrap_err().contains("outside allowed region L3-L4"));
    assert_eq!(apply_patch_dry_run(file, &[]), Ok(file.to_string()));
    let clash = vec![
        PatchOp::DeleteAt { start: 2, old: texts(&["2", "3"]) },
        PatchOp::ReplaceAt { start: 3, old: texts(&["3"]), new: texts(&["x"]) },
    ];
    assert!(apply_patch_dry_run(file, &clash)
        .unwrap_err()
        .starts_with("patch operations have overlapping replacement/delete spans"));
}

#[test]
fn reasons_and_texts_are_cut() {
    let long = "é".repeat(MAX_FAILED_REASON_CHARS + 10);
    let reason = parse_failed(&format!("FAILED: {long}")).unwrap();
    assert_eq!(reason.chars().count(), MAX_FAILED_REASON_CHARS + 1);
    assert!(reason.ends_with('…'));
    assert_eq!(truncate_multiline("abcdef", 3), "abc\n...(6 chars total, truncated)\n");
    assert_eq!(truncate_multiline("abc", 3), "abc");
    assert_eq!(strip_code_fences("  text ``` x"), "  text ``` x");
}

#[test]
fn windows_cover_every_line() {
    for total in [0usize, 1, 7, 20, 45] {
        let windows = build_windows(total, 10, 3);
        for line in 0..total {
            assert!(windows.iter().any(|w| w.0 <= line && line < w.1), "{total} {line}");
        }
        assert!(windows.iter().all(|w| w.1 <= total));
    }
}

#[test]
fn overlapping_steps_are_dropped_and_none_is_lost() {
    let steps = vec![smart(5, 9, "b"), smart(1, 5, "a"), smart(10, 12, "c")];
    let (kept, dropped) = partition_overlapping_steps(steps);
    assert_eq!(kept.len() + dropped.len(), 3);
    assert_eq!(dropped.len(), 1);
    let ordered = sort_bottom_up(&kept);
    assert_eq!(ordered[0], smart(10, 12, "c"));
    assert_eq!(copy_steps(&ordered, 1), vec![smart(10, 12, "c")]);
}

#[test]
fn edits_are_measured_by_distance() {
    assert_eq!(edit_distance("kitten", "sitting"), 3);
    assert_eq!(edit_distance("", "abc"), 3);
    assert_eq!(edit_distance("äb", "äb"), 0);
    assert_eq!(edit_distance("ab", "ba"), edit_distance("ba", "ab"));
    assert_eq!(pick_best_candidate(&[(1, 2), (8, 9), (5, 6)], 6, 7), Some((5, 6)));
    assert_eq!(pick_best_candidate(&[(1, 2), (12, 13)], 6, 7), Some((1, 2)));
    assert_eq!(pick_best_candidate(&[], 1, 1), None);
}

#[test]
fn a_block_is_found_where_it_moved() {
    let file = "a\nb\nfoo(1)\nbar(2)\nc\n";
    let old = texts(&["foo(1)", "bar(2)"]);
    assert!(!relocation_needs_similarity(file, &old));
    let found = find_relocation(file, 1, 2, &old, &[]).unwrap();
    assert_eq!((found.located_at, found.strategy), ((3, 4), Strategy::ByteExact));
    let ask = relocation_prompt("a.rs", 1, 2, "foo(1)\nbar(2)", &found);
    assert!(ask.contains("L3"), "{ask}");
    match settle_relocation(file, &found, &texts(&["z"]), false, Some("YES")) {
        RelocateOutcome::Applied { new_content, located_at } => {
            assert_eq!((new_content.as_str(), located_at), ("a\nb\nz\nc\n", (3, 4)))
        }
        other => panic!("{other:?}"),
    }
    assert!(matches!(
        settle_relocation(file, &found, &[], false, Some("no")),
        RelocateOutcome::Rejected
    ));
    assert!(matches!(
        settle_relocation(file, &found, &[], false, None),
        RelocateOutcome::NoCandidate
    ));
    let indented = texts(&["  foo(1)", "  bar(2)"]);
    let loose = find_relocation(file, 1, 2, &indented, &[]).unwrap();
    assert_eq!(loose.strategy, Strategy::WhitespaceNormalized);
    let near = texts(&["foo(9)", "bar(2)"]);
    assert!(relocation_needs_similarity(file, &near));
    let scores = fuzzy_line_scores(file, &near, &[]);
    assert!(scores.iter().any(|s| s.range == (3, 4)));
    let fuzzy = find_relocation(file, 1, 2, &near, &[(3, 4)]).unwrap();
    assert_eq!(fuzzy.strategy, Strategy::FuzzySimilarity);
    assert_eq!(fuzzy.strategy.as_str(), Strategy::FuzzySimilarity.as_str());
    assert!(find_relocation(file, 1, 2, &near, &[]).is_none());
    assert!(is_yes(" yes."));
    assert!(!is_yes("yesterday"));
}

#[test]
fn white_space_may_drift() {
    let file = "fn f() {\n    g( 1,\n       2 );\n}\n";
    let c = ws_tolerant_candidate(file, 1, 4, &texts(&["g( 1, 2 );"]), &texts(&["h();"])).unwrap();
    assert_eq!(c.actual, "g( 1,\n       2 );");
    assert_eq!(c.new_content, "fn f() {\n    h();\n}\n");
    assert!(whitespace_prompt("a.rs", 1, 4, "g( 1, 2 );", &c.actual).contains("g( 1, 2 );"));
    assert!(ws_tolerant_candidate(file, 4, 4, &texts(&["g( 1, 2 );"]), &[]).is_none());
    assert_eq!(find_whitespace_tolerant_match("é a  b", "a b"), Some((3, 7)));
    match settle_whitespace(Some(c), Some("YES")) {
        WhitespaceOutcome::Applied(s) => assert!(s.contains("h();")),
        other => panic!("{other:?}"),
    }
    assert!(matches!(settle_whitespace(None, Some("YES")), WhitespaceOutcome::NoCandidate));
}

#[test]
fn modes_are_read_from_the_arguments() {
    let mode = |s: &str| LspValidationMode::from_args(&json(s));
    assert_eq!(mode("{}").unwrap().as_str(), "auto");
    assert_eq!(mode(r#"{ "lsp_validation": "require" }"#).unwrap().as_str(), "require");
    assert_eq!(mode(r#"{ "lsp_validation": "off" }"#).unwrap().as_str(), "off");
    assert!(mode(r#"{ "lsp_validation": "maybe" }"#).is_err());
}

#[test]
fn required_checks_block_and_others_do_not() {
    let begin = |mode, client| begin_lsp_check(mode, client, Some(2));
    assert!(matches!(begin(LspValidationMode::Require, LspClientState::Absent), LspStep::Failed(_)));
    assert!(matches!(begin(LspValidationMode::Require, LspClientState::NotReady), LspStep::Failed(_)));
    assert!(matches!(begin(LspValidationMode::Auto, LspClientState::Absent), LspStep::Passed(None)));
    assert!(matches!(begin(LspValidationMode::Auto, LspClientState::Ready), LspStep::Check(Some(2))));
    match begin(LspValidationMode::Off, LspClientState::Ready) {
        LspStep::Passed(note) => assert_eq!(note.unwrap(), "[lsp] skipped (off)"),
        other => panic!("{other:?}"),
    }
    let lost = || Err("gone".to_string());
    assert!(matches!(take_lsp_baseline(LspValidationMode::Auto, lost()), LspStep::Passed(None)));
    match take_lsp_baseline(LspValidationMode::Require, lost()) {
        LspStep::Failed(e) => assert_eq!(e, "LSP baseline diagnostics failed: gone"),
        other => panic!("{other:?}"),
    }
    assert!(matches!(
        take_lsp_baseline(LspValidationMode::Auto, Ok(vec![error(1)])),
        LspStep::Check(Some(1))
    ));
}

#[test]
fn an_edit_passes_with_no_more_errors_than_before() {
    let same = finish_lsp_check(LspValidationMode::Auto, 1, Ok(vec![error(0)]), "c");
    assert!(same.result.is_ok() && !same.restore);
    let worse = finish_lsp_check(LspValidationMode::Auto, 1, Ok(vec![error(0), error(8)]), "c");
    assert!(worse.restore);
    match worse.result {
        Err(ValidationError::LspRegression(reg)) => {
            assert_eq!(reg.baseline_count, 1);
            assert_eq!((reg.errors[1].line, reg.errors[1].column), (9, 1));
            assert!(reg.summary().contains('1'));
        }
        other => panic!("{other:?}"),
    }
    let lost = finish_lsp_check(LspValidationMode::Auto, 1, Err("x".to_string()), "c");
    assert!(lost.result.is_ok() && lost.restore);
    match finish_lsp_check(LspValidationMode::Require, 1, Err("x".to_string()), "c").result {
        Err(e) => assert_eq!(e.summary(), "LSP candidate diagnostics failed: x"),
        other => panic!("{other:?}"),
    }
    let many: Vec<Diagnostic> = (0..8).map(error).collect();
    let reg = build_lsp_regression(0, &many, "c");
    assert_eq!((reg.errors.len(), reg.extra_error_count), (5, 3));
    let mixed = vec![Diagnostic { severity: None, ..error(1) }, error(2)];
    assert_eq!(error_diagnostics(&mixed).len(), 1);
}

#[test]
fn candidates_are_guarded() {
    assert_eq!(
        validate_candidate("x", "").unwrap_err(),
        "candidate output is empty for a non-empty file"
    );
    assert!(validate_candidate("", "").is_ok());
    let big: String = (0..60).map(|i| format!("{i}\n")).collect();
    assert!(truncation_question("a", &big, "x\n").unwrap().contains("a from 60 to 1 lines"));
    assert_eq!(truncation_question("a", "x\n", ""), None);
    assert_eq!(
        gate_truncation("a", &big, "x\n", false).unwrap_err(),
        "candidate truncates a from 60 to 1 lines"
    );
    assert!(gate_truncation("a", &big, "x\n", true).is_ok());
    assert!(check_candidate("a", &big, "", true).is_err());
    assert!(check_candidate("a", &big, "x\n", false).is_err());
    assert!(check_candidate("a", &big, &big, false).is_ok());
    assert!(max_literal_replace_lines(usize::MAX) >= max_literal_replace_lines(0));
    assert_eq!(build_retry_feedback("plain", None), "plain");
}

#[test]
fn a_scan_asks_window_by_window() {
    let file: String = (1..=3).map(|i| format!("line {i}\n")).collect();
    let scan = PlanScan::start(&file);
    let mut scan = scan;
    let mut asked = 0;
    while let Some(prompt) = scan.next_prompt("a.rs", "do it", None) {
        assert!(prompt.contains("do it"), "{prompt}");
        asked += 1;
        scan = match scan.take_window("NOTE seen\nREAD: 1-2\n") {
            ScanStep::Seen(next) => next,
            ScanStep::Asked(q) => panic!("{q}"),
        };
    }
    assert_eq!(asked, scan.windows.len());
    let verdict = scan.finish("a.rs", "do it", &file, None, 20);
    assert!(verdict.contains("do it"), "{verdict}");
}

#[test]
fn a_scan_stops_at_a_question() {
    let file: String = (1..=4000).map(|i| format!("line {i}\n")).collect();
    let scan = PlanScan::start(&file);
    assert!(scan.next_prompt("a.rs", "t", None).is_some());
    match scan.take_window("NEEDS_CLARIFICATION: which one?\n") {
        ScanStep::Asked(q) => assert_eq!(q, "which one?"),
        other => panic!("{other:?}"),
    }
}

#[test]
fn verdicts_are_told_apart() {
    assert!(matches!(take_verdict("COMPLETE", 5), Ok(PreplanOutcome::Complete)));
    match take_verdict("FAILED: no", 5) {
        Ok(PreplanOutcome::Failed(r)) => assert_eq!(r, "no"),
        other => panic!("{other:?}"),
    }
    match take_verdict("NEEDS_CLARIFICATION: what?", 5) {
        Ok(PreplanOutcome::NeedsClarification(q)) => assert_eq!(q, "what?"),
        other => panic!("{other:?}"),
    }
    assert!(matches!(take_verdict("  \n", 5), Ok(PreplanOutcome::EmptyResponse)));
    assert!(matches!(take_verdict("garbage", 5), Ok(PreplanOutcome::ParseError(_))));
    match take_verdict("SMART_EDIT\nREGION 1 3\nTASK: a\nSMART_EDIT\nREGION 3 5\nTASK: b\n", 5) {
        Ok(PreplanOutcome::Continue { steps, dropped }) => {
            assert_eq!((steps.len(), dropped.len()), (1, 1));
        }
        other => panic!("{other:?}"),
    }
    assert!(validate_steps_in_file(&[smart(1, 5, "a")], 5).is_ok());
    assert!(validate_steps_in_file(&[smart(1, 6, "a")], 5).is_err());
}

#[test]
fn prompts_hold_what_they_are_made_from() {
    assert_eq!(bullet_list(&texts(&["a", "b"])), "- a\n- b");
    let lines = texts(&["one", "two", "three"]);
    let commands = vec![InspectionCommand::Search("q".to_string())];
    let window = window_prompt("p.rs", "TASK", "HIST", &texts(&["n1"]), &commands, &lines, (0, 2), 0, 2);
    for part in ["p.rs", "TASK", "HIST", "n1", "two"] {
        assert!(window.contains(part), "{part}: {window}");
    }
    assert!(!window.contains("three"), "{window}");
    let small = verdict_prompt("p.rs", "TASK", "FB", true, &lines, &texts(&["n1"]), "RES", 9);
    assert!(small.contains("three") && small.contains("FB"), "{small}");
    let large = verdict_prompt("p.rs", "TASK", "", false, &lines, &texts(&["n1"]), "RES", 9);
    assert!(large.contains("n1") && large.contains("RES"), "{large}");
    assert!(!large.contains("three"), "{large}");
    let patch = patch_prompt(
        "p.rs",
        "TASK",
        &lines,
        (1, 3),
        0,
        1,
        Some("REPAIR"),
        Some("SIG"),
        LspValidationMode::Auto,
    );
    assert!(patch.contains("three") && patch.contains("REPAIR"), "{patch}");
    let region = EditRegion { start: 2, end: 3, task: "R".to_string() };
    let asked = region_prompt("p.rs", "TASK", "one\ntwo\nthree\n", &region, LspValidationMode::Off).unwrap();
    assert!(asked.contains("two") && asked.contains('R'), "{asked}");
    let outside = EditRegion { start: 2, end: 9, task: "R".to_string() };
    assert_eq!(
        region_prompt("p.rs", "T", "one\n", &outside, LspValidationMode::Off).unwrap_err(),
        "invalid edit region L2-L9 for 1 line file"
    );
}

#[test]
fn patch_replies_are_collected() {
    let delete = "DELETE_AT 1\nOLD:\nx\nEND_OLD\n";
    let first = PatchResponse::new().take_reply(0, "NO_CHANGES").unwrap();
    assert_eq!(first.ops.len(), 0);
    let second = first.take_reply(1, delete).unwrap();
    assert_eq!(second.ops, vec![PatchOp::DeleteAt { start: 1, old: texts(&["x"]) }]);
    assert!(second.raw_text().contains("DELETE_AT 1"));
    assert!(PatchResponse::new().take_reply(0, "garbage").is_err());
    let region = EditRegion { start: 1, end: 1, task: "R".to_string() };
    assert!(take_region_reply("garbage", &region).is_err());
    let (ops, _) = take_region_reply(delete, &region).unwrap();
    assert_eq!(ops.len(), 1);
}

#[test]
fn steps_run_from_the_bottom_up() {
    let steps = vec![literal(1, 1, &["a"], &["A"]), literal(3, 3, &["c"], &["C", "D"])];
    let mut run = StepRun::start(&steps, Vec::new(), 2, "a\nb\nc\n", "");
    loop {
        run = match run.advance() {
            NextStep::Applied(next) => next,
            NextStep::Check(done) => {
                run = done;
                break;
            }
            other => panic!("{other:?}"),
        };
    }
    assert_eq!(run.current, "A\nb\nC\nD\n");
    let end = run.conclude("a.rs", "via pre-plan", Ok(Some("[lsp] OK".to_string()))).unwrap();
    assert_eq!(end.content, "A\nb\nC\nD\n");
    assert_eq!(
        end.message,
        "✓ via pre-plan: applied 2 step(s) to a.rs (4 lines)\n[lsp] OK\n"
    );
}

#[test]
fn a_step_that_fails_ends_the_run() {
    let steps = vec![literal(1, 1, &["zzz"], &["A"]), smart(2, 2, "t")];
    let run = StepRun::start(&steps, Vec::new(), 2, "a\nb\n", "");
    let run = match run.advance() {
        NextStep::Patch(run) => run,
        other => panic!("{other:?}"),
    };
    let run = run.take_patch(Ok(("a\nB\n".to_string(), 1))).unwrap();
    let (run, why) = match run.advance() {
        NextStep::Relocate(run, why) => (run, why),
        other => panic!("{other:?}"),
    };
    let failure = run.take_relocation(&why, RelocateOutcome::NoCandidate).unwrap_err();
    assert_eq!(failure.current_content, "a\nB\n");
    assert_eq!(failure.completed_steps, vec![smart(2, 2, "t")]);
    assert_eq!(failure.failed_step, Some(literal(1, 1, &["zzz"], &["A"])));
    assert_eq!(
        failure.error,
        format!("step 2 literal replace failed: {why}; no relocation candidate found in file")
    );
    assert_eq!(
        failure.message,
        format!(
            "Pre-plan step 2 literal L1-L1 failed after 1 completed step(s): {why}; no relocation candidate found in file\n"
        )
    );
}

#[test]
fn smart_steps_patch_their_region() {
    let region = EditRegion { start: 2, end: 2, task: "t".to_string() };
    let ops = vec![PatchOp::ReplaceAt { start: 2, old: texts(&["b"]), new: texts(&["B", "C"]) }];
    let (out, _) = apply_smart_step("a\nb\nc\n", &ops, &region, false).unwrap();
    assert_eq!(out, "a\nB\nC\nc\n");
    assert!(apply_smart_step("a\nb\nc\n", &Vec::new(), &region, false).is_err());
    assert!(apply_smart_step("a\nb\nc\n", &Vec::new(), &region, true).is_ok());
}

#[test]
fn attempts_end_within_their_budget() {
    let mut attempts = Attempts::start("a");
    let mut count = 0;
    let end = loop {
        attempts = match attempts.next() {
            Ok(next) => next,
            Err(end) => break end,
        };
        count += 1;
        attempts = match attempts.take_plan("a", PreplanOutcome::EmptyResponse) {
            AttemptStep::Again(next) => next,
            other => panic!("{other:?}"),
        };
    };
    assert_eq!(count, MAX_PLAN_ATTEMPTS);
    match end {
        PreplanResult::Failed(why) => assert!(
            why.starts_with(
                "could not complete after 4 attempts. Last obstacle: The previous attempt returned an empty response"
            ),
            "{why}"
        ),
        other => panic!("{other:?}"),
    }
}

#[test]
fn progress_earns_a_few_more_attempts() {
    let mut attempts = Attempts::start("a");
    let mut count = 0;
    let mut errors = 20u32;
    loop {
        attempts = match attempts.next() {
            Ok(next) => next,
            Err(_) => break,
        };
        count += 1;
        errors -= 1;
        let all: Vec<Diagnostic> = (0..errors).map(error).collect();
        let failure = PlannedExecutionFailure {
            current_content: "a".to_string(),
            message: String::new(),
            error: "worse".to_string(),
            completed_steps: Vec::new(),
            failed_step: None,
            lsp_regression: Some(build_lsp_regression(0, &all, "b")),
        };
        attempts = attempts.take_run(vec![smart(1, 1, "t")], Err(failure));
    }
    assert_eq!(count, MAX_PLAN_ATTEMPTS + MAX_EXTRA_ATTEMPTS);
}

#[test]
fn a_finished_task_is_checked_and_applied() {
    let attempts = Attempts::start("a").next().unwrap();
    let (attempts, steps) = match attempts.take_plan(
        "a",
        PreplanOutcome::Continue { steps: vec![smart(1, 1, "t")], dropped: Vec::new() },
    ) {
        AttemptStep::Run { attempts, steps, .. } => (attempts, steps),
        other => panic!("{other:?}"),
    };
    let done = SplitResult { content: "b".to_string(), message: "m".to_string() };
    let attempts = attempts.take_run(steps, Ok(done)).next().unwrap();
    let attempts = match attempts.take_plan("a", PreplanOutcome::Complete) {
        AttemptStep::Check(attempts) => attempts,
        other => panic!("{other:?}"),
    };
    match attempts.take_check(Ok(None)) {
        Ok(AttemptStep::Done(PreplanResult::Applied(text))) => assert_eq!(text, "b"),
        other => panic!("{other:?}"),
    }
    match Attempts::start("a").next().unwrap().take_plan("a", PreplanOutcome::Complete) {
        AttemptStep::Done(PreplanResult::NothingToDo) => {}
        other => panic!("{other:?}"),
    }
}

#[test]
fn a_turned_down_relocation_and_a_failed_patch_are_told() {
    let steps = vec![literal(1, 1, &["zzz"], &["A"])];
    let run = StepRun::start(&steps, Vec::new(), 1, "a\n", "");
    let (run, why) = match run.advance() {
        NextStep::Relocate(run, why) => (run, why),
        other => panic!("{other:?}"),
    };
    let failure = run.take_relocation(&why, RelocateOutcome::Rejected).unwrap_err();
    assert_eq!(
        failure.error,
        format!("step 1 literal replace failed: {why}; relocated candidate rejected by planner")
    );
    let run = StepRun::start(&vec![smart(1, 1, "t")], Vec::new(), 1, "a\n", "");
    let run = match run.advance() {
        NextStep::Patch(run) => run,
        other => panic!("{other:?}"),
    };
    let failure = run.take_patch(Err("bad".to_string())).unwrap_err();
    assert_eq!(failure.error, "step 1 smart L1-L1 failed: bad");
    assert_eq!(
        failure.message,
        "Pre-plan step 1 smart L1-L1 failed after 0 completed step(s): bad\n"
    );
    let run = StepRun::start(&vec![smart(1, 1, "t")], Vec::new(), 1, "a\n", "");
    let run = match run.advance() {
        NextStep::Patch(run) => run,
        other => panic!("{other:?}"),
    };
    let run = run.take_patch(Ok(("a\n".to_string(), 0))).unwrap();
    assert_eq!(run.message, "smart-edit L1-L1: no changes\n");
    let run = match run.advance() {
        NextStep::Check(run) => run,
        other => panic!("{other:?}"),
    };
    let failure = run
        .conclude("a.rs", "via pre-plan", Err(ValidationError::Other("no".to_string())))
        .unwrap_err();
    assert_eq!(failure.error, "no");
    assert_eq!(
        failure.message,
        "smart-edit L1-L1: no changes\nPre-plan validation failed after 1/1 completed step(s): no\n"
    );
    assert_eq!(failure.failed_step, None);
}

#[test]
fn plans_are_logged_and_regions_kept_apart() {
    assert_eq!(
        format_preplan_log("plan", &vec![smart(1, 2, "t")]),
        "Raw plan (1 step(s), parsed):\nSMART_EDIT\nREGION 1 2\nTASK: t\n\n\n"
    );
    let region = |start, end| EditRegion { start, end, task: "t".to_string() };
    assert!(reject_overlapping_regions(&vec![region(1, 2), region(3, 4)]).is_ok());
    assert!(reject_overlapping_regions(&vec![region(1, 3), region(3, 4)]).is_err());
}

#[test]
fn requests_need_path_and_task() {
    assert!(read_request(&json("{}")).is_err());
    assert!(read_request(&json(r#"{ "path": "a" }"#)).is_err());
    let req = read_request(&json(r#"{ "path": "a", "task": "t", "lsp_validation": "off" }"#)).unwrap();
    assert_eq!((req.path.as_str(), req.task.as_str(), req.mode.as_str()), ("a", "t", "off"));
    assert!(make_request("a".to_string(), "t".to_string(), Err("bad".to_string())).is_err());
    let told = |result: Result<PreplanResult, String>| {
        let t = report("a", "t", &result);
        (t.content, t.success)
    };
    assert_eq!(
        told(Ok(PreplanResult::Applied("x".to_string()))),
        ("✓ edit_file(a): done".to_string(), true)
    );
    assert_eq!(
        told(Ok(PreplanResult::NothingToDo)),
        ("✓ edit_file(a): already satisfied".to_string(), true)
    );
    assert_eq!(
        told(Ok(PreplanResult::Failed("why".to_string()))),
        ("✗ edit_file(a): why".to_string(), false)
    );
    assert_eq!(told(Err("io".to_string())), ("✗ edit_file(a): io".to_string(), false));
    let (asked, success) = told(Ok(PreplanResult::NeedsClarification(String::new())));
    assert!(!success);
    assert!(
        asked.contains("Original task: t\nQuestion: no question provided\n\nRe-run edit_file"),
        "{asked}"
    );
}

#[test]
fn a_call_that_fails_leaves_the_file_as_it_was() {
    let left = |result: Result<PreplanResult, String>| {
        let (told, text) = closing("a", "t", "old\n", &result);
        assert_eq!(told.content, report("a", "t", &result).content);
        (told.success, text)
    };
    assert_eq!(left(Ok(PreplanResult::Applied("new\n".to_string()))), (true, "new\n".to_string()));
    assert_eq!(left(Ok(PreplanResult::NothingToDo)), (true, "old\n".to_string()));
    assert_eq!(left(Ok(PreplanResult::Failed("why".to_string()))), (false, "old\n".to_string()));
    assert_eq!(
        left(Ok(PreplanResult::NeedsClarification("q".to_string()))),
        (false, "old\n".to_string())
    );
    assert_eq!(left(Err("io".to_string())), (false, "old\n".to_string()));
}

#[test]
fn a_round_that_passed_is_taken_back_by_a_later_failure() {
    let steps = vec![smart(1, 1, "t")];
    let attempts = match Attempts::start("old\n").next() {
        Ok(next) => next,
        Err(end) => panic!("{end:?}"),
    };
    let outcome = PreplanOutcome::Continue { steps, dropped: Vec::new() };
    let (attempts, steps) = match attempts.take_plan("old\n", outcome) {
        AttemptStep::Run { attempts, steps, .. } => (attempts, steps),
        other => panic!("{other:?}"),
    };
    let passed = SplitResult { content: "new\n".to_string(), message: String::new() };
    let attempts = attempts.take_run(steps, Ok(passed));
    assert_eq!(attempts.current, "new\n");
    let end = match attempts.next().unwrap().take_plan("old\n", PreplanOutcome::Failed("no".to_string())) {
        AttemptStep::Done(end) => end,
        other => panic!("{other:?}"),
    };
    let (told, text) = closing("a", "t", "old\n", &Ok(end));
    assert!(!told.success);
    assert_eq!(text, "old\n");
}

#[test]
fn a_patch_of_a_region_keeps_the_lines_around_it() {
    let ops = vec![PatchOp::ReplaceAt {
        start: 2,
        old: vec!["b".to_string()],
        new: vec!["x".to_string(), "".to_string(), "y".to_string()],
    }];
    let out = apply_patch_dry_run_in_region("a\r\nb\r\nc\r\n", &ops, 2, 2).unwrap();
    assert_eq!(out.lines().collect::<Vec<_>>(), vec!["a", "x", "", "y", "c"]);
    assert_eq!(apply_patch_dry_run("a\r\nb\r\nc\r\n", &ops).unwrap(), out);
    assert!(apply_patch_dry_run_in_region("a\nb\nc\n", &ops, 3, 3).is_err());
    let gone = vec![PatchOp::DeleteAt { start: 3, old: vec!["b".to_string()] }];
    let lost = apply_patch_dry_run_in_region("a\n\nb\n", &gone, 3, 3).unwrap();
    assert_eq!(lost, "a\n");
}

/// Goes through a file window by window and returns every prompt.
fn all_prompts(file: &str, repair: Option<&RepairContext>) -> Vec<String> {
    let mut prompts = Vec::new();
    let mut scan = PlanScan::start(file);
    loop {
        assert!(scan.next_can_show(repair));
        let Some(prompt) = scan.next_prompt("a.rs", "t", repair) else {
            break;
        };
        prompts.push(prompt);
        scan = match scan.take_window("") {
            ScanStep::Seen(next) => next,
            ScanStep::Asked(q) => panic!("{q}"),
        };
    }
    assert!(history_can_show(repair));
    prompts.push(scan.finish("a.rs", "t", file, repair, 20));
    prompts
}

#[test]
fn an_answer_that_is_no_plan_is_told_whole() {
    let reply = "Here is the edit plan — it renames the function.";
    let attempts = Attempts::start("old\n").next().unwrap();
    let outcome = take_verdict(reply, 1).unwrap();
    assert!(matches!(outcome, PreplanOutcome::ParseError(_)));
    let next = match attempts.take_plan("old\n", outcome) {
        AttemptStep::Again(next) => next,
        other => panic!("{other:?}"),
    };
    let ctx = next.repair.unwrap();
    assert!(ctx.failed_step.is_none());
    assert!(ctx.failure_reason.len() > 120);
    assert!(!ctx.failure_reason.is_char_boundary(117));
    let large: String = (1..=2000).map(|i| format!("line {i}\n")).collect();
    for file in ["old\n", large.as_str()] {
        let prompts = all_prompts(file, Some(&ctx));
        assert_eq!(prompts.len(), PlanScan::start(file).windows.len() + 1);
        for prompt in prompts {
            assert!(prompt.contains(&ctx.failure_reason), "{prompt}");
        }
    }
}

#[test]
fn a_reason_is_cut_only_in_the_window_of_the_failed_step() {
    let file: String = (1..=2000).map(|i| format!("line {i}\n")).collect();
    let reason = format!("{}—{}", "x".repeat(116), "y".repeat(20));
    let mut ctx = RepairContext {
        previous_plan: Vec::new(),
        completed_steps: Vec::new(),
        failed_step: Some(smart(1990, 1995, "t")),
        failure_reason: reason,
        lsp_regression: None,
        cleanly_applied: false,
    };
    assert!(window_can_show(&ctx, 1, 800));
    assert!(!window_can_show(&ctx, 1900, 2000));
    assert_eq!(format_repair_steps_for_window(&ctx, 1, 800), "");
    let first = PlanScan::start(&file);
    assert!(first.windows.len() > 1);
    assert!(first.next_can_show(Some(&ctx)));
    assert!(first.next_prompt("a.rs", "t", Some(&ctx)).unwrap().contains(&ctx.failure_reason));
    let mut last = first;
    while last.seen + 1 < last.windows.len() {
        last = match last.take_window("") {
            ScanStep::Seen(next) => next,
            ScanStep::Asked(q) => panic!("{q}"),
        };
    }
    assert!(!last.next_can_show(Some(&ctx)));
    assert!(history_can_show(Some(&ctx)));
    let small = PlanScan::start("old\n").finish("a.rs", "t", "old\n", Some(&ctx), 20);
    assert!(small.contains(&ctx.failure_reason), "{small}");

    ctx.failure_reason = format!("{}—{}", "x".repeat(117), "y".repeat(20));
    assert!(last.next_can_show(Some(&ctx)));
    assert!(format_repair_steps_for_window(&ctx, 1900, 2000)
        .contains(&format!("FAILED ({}…)", "x".repeat(117))));

    let task = format!("{}—{}", "x".repeat(76), "y".repeat(20));
    ctx.completed_steps = vec![smart(5, 6, &task)];
    assert!(!history_can_show(Some(&ctx)));
    assert!(!window_can_show(&ctx, 1, 800));
    assert!(window_can_show(&ctx, 1900, 2000));
    assert!(history_can_show(None));
}

#[test]
fn only_the_errors_that_are_shown_need_a_place() {
    let far = || error(u32::MAX);
    let one_less = Diagnostic { severity: None, ..far() };
    assert!(check_can_finish(0, &Ok(vec![one_less, error(1)])));
    assert!(check_can_finish(1, &Ok(vec![far()])));
    assert!(check_can_finish(0, &Err("x".to_string())));
    let many: Vec<Diagnostic> = (0..5).map(error).chain([far()]).collect();
    assert!(check_can_finish(0, &Ok(many)));
    let same = finish_lsp_check(LspValidationMode::Auto, 1, Ok(vec![far()]), "c");
    assert!(same.result.is_ok());
}
