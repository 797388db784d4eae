//! Tests of the tools around a project: text edits, checks, code intelligence and
//! the choice of what a call asks for.
use miniswe_tools::args::ArgValue;
use miniswe_tools::cargo_check::{
    count_errors, extract_error_locations, render_source_context, MAX_LOCATIONS,
};
use miniswe_tools::code_intel::{
    map_keywords, reference_line, report_definitions, report_diagnostics, report_map,
    report_project, report_references, report_server_error, FileDiagnostics, Site,
    MAX_DIAGNOSTIC_LINES,
};
use miniswe_tools::definitions::{code_help, file_help, plan_help, EditMode};
use miniswe_tools::delete_file::{delete_refusal, report_deleted, PathKind};
use miniswe_tools::describe_code::{
    describe_file, extract_doc_comment, extract_param_info, make_describe_request,
    read_describe_request, report_unreadable, Symbol,
};
use miniswe_tools::dispatch::{
    code_step, diagnostics_command, file_step, read_action, read_code_step, read_web_step,
    tool_step, web_step, CodeStep, FileStep, ToolStep, WebStep,
};
use miniswe_tools::edit::{
    apply_normalized, extract_fn_name, find_trimmed_match, line_similarity,
    make_replace_request, places_can_be_named, read_replace_request, report_not_found,
    score_window, try_edit, EditStep,
};
use miniswe_tools::edit_file::validate::{Diagnostic, Severity};
use miniswe_tools::edit_orchestration::{
    accepts_regression, action_hints, choose_fallback, judge_diagnostics, note_standing,
    regression_prompt, report_checked, settle_regression, EditBaseline, LspJudgement,
    MAX_NEW_FILE_ERRORS, MAX_REPORTED_ERRORS,
};
use miniswe_tools::fast::check::Markers;
use miniswe_tools::tool::ToolResult;
use miniswe_tools::unicode::to_upper_chars;
use serde_json::Value;

fn json(s: &str) -> Value {
    serde_json::from_str(s).unwrap()
}

fn baseline(lsp_errors: usize, fallback_errors: usize) -> EditBaseline {
    EditBaseline { lsp_errors, fallback_errors, existed_before: true, original_content: None }
}

fn texts(v: &[&str]) -> Vec<String> {
    v.iter().map(|s| s.to_string()).collect()
}

fn error(line: u32, message: &str) -> Diagnostic {
    Diagnostic {
        line,
        character: 0,
        severity: Some(Severity::Error),
        message: message.to_string(),
    }
}

fn no_markers() -> Markers {
    Markers {
        cargo_toml: false,
        tsconfig_json: false,
        go_mod: false,
        pom_xml: false,
        build_gradle: false,
    }
}

#[test]
fn error_places_are_few_and_distinct() {
    let out = "src/a.rs:3:5: error[E1]: x\n\
               src/a.rs:3:9: error[E2]: y\n\
               note: nothing at src/b.rs:1\n\
               error: --> no place\n\
               src/b.rs:7: error: z\n\
               src/c.rs:1: Error\n\
               src/d.rs:2: error\n";
    let found = extract_error_locations(out);
    assert_eq!(found.len(), MAX_LOCATIONS);
    assert_eq!(
        found,
        vec![
            ("src/a.rs".to_string(), 3),
            ("src/b.rs".to_string(), 7),
            ("src/c.rs".to_string(), 1)
        ]
    );
    assert!(extract_error_locations("error: a:b:c\n// x.rs:1: error\n").is_empty());
}

#[test]
fn source_context_marks_its_line() {
    let file: String = (1..=20).map(|i| format!("l{i}\n")).collect();
    let shown = render_source_context("a.rs", 10, &file).unwrap();
    assert!(shown.starts_with("  a.rs:10:\n      5│l5\n"), "{shown}");
    assert!(shown.contains("  >  10│l10\n"), "{shown}");
    assert!(shown.ends_with("     15│l15\n"), "{shown}");
    assert_eq!(render_source_context("a.rs", 0, &file), None);
    assert_eq!(render_source_context("a.rs", 21, &file), None);
    assert!(render_source_context("a.rs", 1, &file).unwrap().contains("  >   1│l1\n"));
}

#[test]
fn only_files_are_deleted() {
    assert!(delete_refusal("a", PathKind::File).is_none());
    assert_eq!(
        delete_refusal("d", PathKind::Directory).unwrap().content,
        "d is a directory. file(action='delete') only deletes regular files."
    );
    let missing = delete_refusal("n", PathKind::Nothing).unwrap();
    assert!(!missing.success);
    assert!(missing.content.starts_with("File not found: n."));
    assert_eq!(report_deleted("a").content, "Deleted a");
}

#[test]
fn doc_comments_are_read_in_order() {
    let rust = texts(&["/// One.", "///", "/// Two.", "fn f() {}"]);
    assert_eq!(extract_doc_comment(&rust, 4), Some("One. Two.".to_string()));
    let python = texts(&["x = 1", "# Adds.", "def f():"]);
    assert_eq!(extract_doc_comment(&python, 3), Some("Adds.".to_string()));
    let block = texts(&["/** First", " * second", " * @param x", "function f() {}"]);
    assert_eq!(extract_doc_comment(&block, 4), Some("First second".to_string()));
    let closed = texts(&["/**", " * Adds two numbers.", " */", "function add(a, b) {"]);
    assert_eq!(extract_doc_comment(&closed, 4), Some("Adds two numbers.".to_string()));
    let one_line = texts(&["/** Adds. */", "int add();"]);
    assert_eq!(extract_doc_comment(&one_line, 2), Some("Adds.".to_string()));
    let bare = texts(&["x();", "/*", "  Adds", "", "  @param a", "  numbers. */", "int add();"]);
    assert_eq!(extract_doc_comment(&bare, 7), Some("Adds numbers.".to_string()));
    let code = texts(&["int a; /* note */", "int add();"]);
    assert_eq!(extract_doc_comment(&code, 2), None);
    assert_eq!(extract_doc_comment(&texts(&["/**/", "int add();"]), 2), None);
    let go = texts(&["// Add adds.", "func Add() {"]);
    assert_eq!(extract_doc_comment(&go, 2), Some("Add adds.".to_string()));
    assert_eq!(extract_doc_comment(&rust, 1), None);
    assert_eq!(extract_doc_comment(&rust, 9), None);
    assert_eq!(extract_doc_comment(&texts(&["x", "y"]), 2), None);
}

#[test]
fn parameters_leave_out_the_receiver() {
    assert_eq!(
        extract_param_info("fn f(&self, a: u32, b: Vec<u8>) -> u32", "function"),
        "a: u32, b: Vec<u8>"
    );
    assert_eq!(extract_param_info("fn f(g: fn(u8) -> u8)", "function"), "g: fn(u8) -> u8");
    assert_eq!(extract_param_info("fn f()", "function"), "");
    assert_eq!(extract_param_info("struct S(u8)", "struct"), "");
}

#[test]
fn symbols_are_described_in_the_order_of_their_lines() {
    let symbol = |name: &str, kind: &str, line: usize| Symbol {
        name: name.to_string(),
        kind: kind.to_string(),
        line,
        signature: format!("fn {name}(x: u8)"),
        doc: if line == 2 { Some("Doc.".to_string()) } else { None },
    };
    let symbols = vec![
        symbol("b", "function", 9),
        symbol("a", "function", 2),
        symbol("T", "impl", 1),
    ];
    assert_eq!(
        describe_file("a.rs", "Sum.", &symbols, None).content,
        "a.rs: Sum.\n\na:2 [function] fn a(x: u8)\n  Doc.\n  params: x: u8\n\nb:9 [function] fn b(x: u8)\n  params: x: u8\n\n"
    );
    let some = describe_file("a.rs", "Sum.", &symbols, Some(" b , c")).content;
    assert!(some.contains("b:9"), "{some}");
    assert!(!some.contains("a:2"), "{some}");
    assert_eq!(
        describe_file("a.rs", "Sum.", &Vec::new(), None).content,
        "a.rs: Sum.\nNo indexed symbols in this file."
    );
}

#[test]
fn project_diagnostics_are_counted_and_cut() {
    let quiet = report_diagnostics(&vec![FileDiagnostics {
        uri: "file:///a.rs".to_string(),
        diagnostics: vec![Diagnostic { severity: Some(Severity::Hint), ..error(0, "h") }],
    }]);
    assert_eq!((quiet.content.as_str(), quiet.success), ("[lsp] No errors or warnings", true));
    let warned = report_diagnostics(&vec![FileDiagnostics {
        uri: "file:///a.rs".to_string(),
        diagnostics: vec![Diagnostic { severity: Some(Severity::Warning), ..error(2, "w") }],
    }]);
    assert_eq!(warned.content, "[lsp] 0 error(s), 1 warning(s)\n/a.rs:3:1: warning: w");
    assert!(warned.success);
    let many = report_diagnostics(&vec![FileDiagnostics {
        uri: "x:y".to_string(),
        diagnostics: (0..12).map(|i| error(i, "e")).collect(),
    }]);
    assert!(!many.success);
    assert!(
        many.content.starts_with("[lsp] 12 error(s), 0 warning(s) (showing first 10)\nx:y:1:1: error: e"),
        "{}",
        many.content
    );
    assert_eq!(many.content.lines().count(), MAX_DIAGNOSTIC_LINES + 1);
}

#[test]
fn sites_are_listed_with_what_is_known_of_them() {
    let site = |has_path: bool, context: Option<&str>| Site {
        shown: "a.rs".to_string(),
        has_path,
        line: 4,
        character: 2,
        context: context.map(String::from),
    };
    assert_eq!(
        report_definitions(&vec![site(true, Some("ctx\n")), site(false, Some("no\n"))]).content,
        "Definition: a.rs:5:3\nctx\nDefinition: a.rs:5:3\n"
    );
    assert_eq!(report_definitions(&Vec::new()).content, "No definition found at this location.");
    assert_eq!(
        report_references(&vec![site(true, Some("use a;")), site(true, None), site(false, None)])
            .content,
        "3 reference(s) found:\n  a.rs:5: use a;\n  a.rs:5: \n  a.rs:5\n"
    );
    assert_eq!(report_references(&Vec::new()).content, "No references found.");
    assert_eq!(reference_line("a\n  b \n", 1), Some("b".to_string()));
    assert_eq!(reference_line("a\n", 1), None);
    let failed = report_server_error("down");
    assert_eq!((failed.content.as_str(), failed.success), ("LSP error: down", false));
}

#[test]
fn project_documents_count_when_they_were_filled_in() {
    assert_eq!(
        report_project(None, None, None).content,
        "No project info available. Run `miniswe init` to generate."
    );
    let template = "<!-- Add project-specific instructions -->";
    assert_eq!(report_project(Some("p"), Some(template), None).content, "[PROFILE]\np\n");
    assert_eq!(
        report_project(None, Some("g"), Some("l")).content,
        "\n[GUIDE]\ng\n\n[LESSONS]\nl\n"
    );
    let long = format!("{template}\n1\n2\n3\n4\n5");
    assert!(report_project(None, Some(&long), None).content.contains("[GUIDE]"));
    assert_eq!(map_keywords(" a  b\tc "), texts(&["a", "b", "c"]));
    assert_eq!(report_map("m", 2, 3).content, "Repo map (2 files indexed, 3 symbols):\nm");
    assert_eq!(report_map("", 2, 3).content, "Repo map is empty (no indexed symbols).");
}

#[test]
fn calls_are_told_apart_by_name_and_action() {
    assert!(matches!(tool_step("file", "read"), Ok(ToolStep::File)));
    assert!(matches!(tool_step("code", "x"), Ok(ToolStep::Code)));
    assert!(matches!(tool_step("web", "x"), Ok(ToolStep::Web)));
    assert!(matches!(tool_step("write_file", ""), Ok(ToolStep::WriteFile)));
    assert!(matches!(tool_step("plan", "scratchpad"), Ok(ToolStep::Scratchpad)));
    match tool_step("plan", "help") {
        Ok(ToolStep::Answer(t)) => assert_eq!(t.content, plan_help()),
        other => panic!("{other:?}"),
    }
    assert_eq!(tool_step("nope", "").unwrap_err(), "Unknown tool: nope");
    assert_eq!(read_action(&json(r#"{ "action": "read" }"#)), "read");
}

#[test]
fn file_actions_answer_or_act() {
    assert!(matches!(file_step("read", EditMode::Smart), FileStep::Read));
    assert!(matches!(file_step("delete", EditMode::Smart), FileStep::Delete));
    assert!(matches!(file_step("search", EditMode::Fast), FileStep::Search));
    assert!(matches!(file_step("shell", EditMode::Fast), FileStep::Shell));
    let answer = |action: &str, mode: EditMode| match file_step(action, mode) {
        FileStep::Answer(t) => t,
        other => panic!("{other:?}"),
    };
    assert_eq!(answer("help", EditMode::Fast).content, file_help(EditMode::Fast));
    assert!(!answer("write", EditMode::Smart).success);
    assert!(!answer("revert", EditMode::Smart).success);
    assert!(answer("replace", EditMode::Smart).content.contains("edit_file"));
    assert!(answer("replace", EditMode::Fast).content.contains("replace_range"));
    assert!(answer("zzz", EditMode::Smart).content.starts_with("Unknown file action: 'zzz'"));
}

#[test]
fn code_actions_carry_their_place() {
    match read_code_step(&json(
        r#"{ "action": "goto_definition", "path": "a.rs", "line": 5, "column": 9 }"#,
    )) {
        CodeStep::GotoDefinition { path, line, column } => {
            assert_eq!((path.as_str(), line, column), ("a.rs", 4, 8))
        }
        other => panic!("{other:?}"),
    }
    match code_step("repo_map", ArgValue::Null, ArgValue::Null, ArgValue::Null, "k".to_string()) {
        CodeStep::RepoMap { keywords } => assert_eq!(keywords, "k"),
        other => panic!("{other:?}"),
    }
    match code_step("help", ArgValue::Null, ArgValue::Null, ArgValue::Null, String::new()) {
        CodeStep::Answer(t) => assert_eq!(t.content, code_help()),
        other => panic!("{other:?}"),
    }
    assert!(matches!(
        code_step("diagnostics", ArgValue::Null, ArgValue::Null, ArgValue::Null, String::new()),
        CodeStep::Diagnostics
    ));
    assert_eq!(
        diagnostics_command("/p"),
        "cd /p && cargo check --message-format=short 2>&1 | head -50"
    );
}

#[test]
fn code_actions_need_their_place() {
    let answer = |args: &str| match read_code_step(&json(args)) {
        CodeStep::Answer(t) => t,
        other => panic!("{other:?}"),
    };
    let told = answer(r#"{ "action": "goto_definition", "path": "a.rs", "column": 9 }"#);
    assert!(!told.success);
    assert_eq!(told.content, "Missing required parameter: 'line' (expected integer)");
    let told = answer(r#"{ "action": "find_references", "path": "a.rs", "line": 1 }"#);
    assert_eq!(told.content, "Missing required parameter: 'column' (expected integer)");
    let told = answer(r#"{ "action": "find_references", "line": 1, "column": 1 }"#);
    assert_eq!(told.content, "Missing required parameter: 'path' (expected string)");
}

#[test]
fn web_actions_carry_query_or_address() {
    match read_web_step(&json(r#"{ "action": "search", "query": "q" }"#)) {
        WebStep::Search { query } => assert_eq!(query, "q"),
        other => panic!("{other:?}"),
    }
    match web_step("fetch", String::new(), "u".to_string()) {
        WebStep::Fetch { url } => assert_eq!(url, "u"),
        other => panic!("{other:?}"),
    }
    assert!(matches!(web_step("zzz", String::new(), String::new()), WebStep::Answer(_)));
}

#[test]
fn a_text_that_stands_once_is_replaced() {
    let req = make_replace_request("a".to_string(), "two".to_string(), "2".to_string()).unwrap();
    match try_edit("one\ntwo\nthree\n", &req) {
        EditStep::Replaced(text, told) => {
            assert_eq!(text, "one\n2\nthree\n");
            assert!(told.success);
            assert!(told.content.starts_with("✓ Edited a (1 replacement, showing L1-3)\n"), "{}", told.content);
        }
        other => panic!("{other:?}"),
    }
    let twice = "x two\ny two\n";
    assert!(places_can_be_named(twice, "two"));
    match try_edit(twice, &req) {
        EditStep::Ambiguous(told) => assert!(
            told.content.starts_with("old_content matches 2 locations in a (at L1, L2)."),
            "{}",
            told.content
        ),
        other => panic!("{other:?}"),
    }
    assert!(matches!(try_edit("none", &req), EditStep::NotFound));
}

#[test]
fn replace_requests_need_path_and_text() {
    let err = |s: &str| read_replace_request(&json(s)).unwrap_err();
    assert_eq!(err("{}"), "Missing required parameter: path");
    assert_eq!(err(r#"{ "path": "a" }"#), "Missing required parameter: old");
    let req = read_replace_request(&json(r#"{ "path": "a", "old": "b" }"#)).unwrap();
    assert_eq!(req.new, "");
}

#[test]
fn lines_are_matched_without_their_indentation() {
    let lines = texts(&["fn f() {", "    let x = 1;", "    x", "}"]);
    assert_eq!(find_trimmed_match(&lines, &texts(&["let x = 1;", "x"])), Some(1));
    assert_eq!(find_trimmed_match(&lines, &texts(&["let y = 1;"])), None);
    assert_eq!(line_similarity("abc", "abc"), (1, 1));
    assert_eq!(line_similarity("", ""), (1, 1));
    assert_eq!(line_similarity("x", "y"), (0, 1));
    assert_eq!(line_similarity("", "ab"), (0, 1));
    assert_eq!(line_similarity("abab", "abc"), (2, 5));
    assert_eq!(line_similarity("let x = 1;", "let x = 2;"), (14, 18));
    let scores = score_window(&lines, &texts(&["let x = 1;", "x"]), 1);
    assert_eq!(scores.len(), 2);
    let req = make_replace_request("a".to_string(), "let x = 1;\nx".to_string(), "    7".to_string())
        .unwrap();
    let (text, told) = apply_normalized("fn f() {\n    let x = 1;\n    x\n}\n", &req, 1);
    assert_eq!(text, "fn f() {\n    7\n}\n");
    assert!(told.content.contains("fuzzy/normalized matching"), "{}", told.content);
    let missed = report_not_found("fn f() {\n    let x = 1;\n}\n", &req);
    assert!(!missed.success);
    assert!(missed.content.starts_with("old_content not found in a."), "{}", missed.content);
    assert!(missed.content.contains("[a: 3 lines total]"), "{}", missed.content);
}

#[test]
fn function_names_are_found_behind_their_keywords() {
    assert_eq!(extract_fn_name("pub async fn run(x: u8) {"), Some("run".to_string()));
    assert_eq!(extract_fn_name("  fn inner<T>()"), Some("inner".to_string()));
    assert_eq!(extract_fn_name("struct S;"), None);
}

#[test]
fn new_errors_are_put_to_the_question() {
    let known = baseline(1, 0);
    assert_eq!(known.known_errors(), Some(1));
    assert_eq!(EditBaseline::new_unknown().known_errors(), None);
    match judge_diagnostics("a", &[], &known) {
        LspJudgement::Stands(t) => assert_eq!(t, "\n[lsp] OK"),
        other => panic!("{other:?}"),
    }
    match judge_diagnostics("a", &[error(0, "e")], &known) {
        LspJudgement::Stands(t) => assert_eq!(
            t,
            "\n[lsp] OK (1 pre-existing error(s) in a, unchanged by this edit)"
        ),
        other => panic!("{other:?}"),
    }
    match judge_diagnostics("a", &[error(0, "e"), error(4, "f")], &known) {
        LspJudgement::Ask(t) => assert_eq!(
            t,
            "2 error(s) in a (was 1 before this edit):\n  a:1:1: error: e\n  a:5:1: error: f\n"
        ),
        other => panic!("{other:?}"),
    }
    let many: Vec<Diagnostic> = (0..30).map(|i| error(i, "e")).collect();
    match judge_diagnostics("a", &many, &EditBaseline::new_unknown()) {
        LspJudgement::Stands(t) => {
            assert!(t.contains(&format!("... and {} more errors", 30 - MAX_NEW_FILE_ERRORS)), "{t}")
        }
        other => panic!("{other:?}"),
    }
    match judge_diagnostics("a", &many, &known) {
        LspJudgement::Ask(t) => {
            assert!(t.contains(&format!("... and {} more errors", 30 - MAX_REPORTED_ERRORS)), "{t}")
        }
        other => panic!("{other:?}"),
    }
}

#[test]
fn an_answer_keeps_or_takes_back_the_edit() {
    assert!(accepts_regression("yes, keep it"));
    assert!(accepts_regression("  Yes\nno"));
    assert!(!accepts_regression("no\nyes"));
    assert!(!accepts_regression(""));
    assert!(regression_prompt("a", "R").contains("a.\nLSP diagnostics show new errors:\nR\n"));
    let base = || ToolResult::ok("done".to_string());
    assert_eq!(note_standing(base(), "!").content, "done!");
    let kept = settle_regression(base(), "R\n", true);
    assert!(kept.success && kept.content.contains("Changes kept"));
    let back = settle_regression(base(), "R\n", false);
    assert_eq!((back.content.as_str(), back.success), ("done\n[lsp] R\nEdit reverted.", false));
    let upper: String = to_upper_chars(&"straße ä".chars().collect()).into_iter().collect();
    assert_eq!(upper, "STRASSE Ä");
}

#[test]
fn files_are_checked_by_their_extension() {
    let mut m = no_markers();
    assert!(choose_fallback("a.rs", m).is_none());
    assert_eq!(choose_fallback("a.py", m).unwrap().arguments, texts(&["-m", "py_compile", "a.py"]));
    m.cargo_toml = true;
    let cargo = choose_fallback("a.rs", m).unwrap();
    assert_eq!((cargo.command.as_str(), cargo.name.as_str()), ("cargo", "cargo check"));
    assert!(choose_fallback("a.ts", m).is_none());
    m.tsconfig_json = true;
    assert_eq!(choose_fallback("a.tsx", m).unwrap().command, "npx");
    m.build_gradle = true;
    assert_eq!(choose_fallback("A.java", m).unwrap().command, "gradle");
    m.pom_xml = true;
    assert_eq!(choose_fallback("A.java", m).unwrap().command, "mvn");
}

#[test]
fn compiler_output_decides_the_answer() {
    let base = || ToolResult::ok("done".to_string());
    let none: Vec<String> = Vec::new();
    let fine = report_checked(base(), "tsc", "a.ts", &baseline(0, 0), true, "", &none, EditMode::Smart);
    assert_eq!((fine.content.as_str(), fine.success), ("done\n[tsc] OK", true));
    let bare = report_checked(base(), "tsc", "a.ts", &baseline(0, 0), false, "", &none, EditMode::Smart);
    assert_eq!(bare.content, "done\n[tsc] failed (no details captured)");
    assert!(!bare.success);
    let stderr = "a.rs:1:1: error: mismatched types\nnoise\n";
    let new = report_checked(base(), "c", "a.rs", &EditBaseline::new_unknown(), false, stderr, &none, EditMode::Smart);
    assert!(new.success);
    assert!(new.content.contains("WARNING: 1 line(s) reported for newly-created a.rs"));
    let context = vec!["CTX\n".to_string()];
    let old = report_checked(base(), "c", "a.rs", &baseline(0, 0), false, stderr, &context, EditMode::Fast);
    assert!(!old.success);
    assert!(old.content.contains("\n[source context]\nCTX\n"), "{}", old.content);
    assert!(old.content.contains("\n[action needed]\nACTION: Type mismatch."), "{}", old.content);
    assert!(!old.content.contains("noise"), "{}", old.content);
}

#[test]
fn errors_that_were_there_do_not_fail_an_edit() {
    let base = || ToolResult::ok("done".to_string());
    let none: Vec<String> = Vec::new();
    let two = "a.rs:1:1: error: x\na.rs:2:1: error: y\na.rs:3:1: warning: z\n";
    assert_eq!(count_errors(false, two), 2);
    for before in [2, 3] {
        let known = baseline(0, before);
        let r = report_checked(base(), "c", "a.rs", &known, false, two, &none, EditMode::Smart);
        assert!(r.success, "{}", r.content);
        assert!(
            r.content.starts_with(
                "done\n[c] OK (2 pre-existing error(s) in a.rs, unchanged by this edit)\na.rs:1:1"
            ),
            "{}",
            r.content
        );
    }
    let fewer = baseline(0, 1);
    let r = report_checked(base(), "c", "a.rs", &fewer, false, two, &none, EditMode::Smart);
    assert!(!r.success);
    assert_eq!(count_errors(true, two), 0);
    assert_eq!(count_errors(false, ""), 1);
    assert_eq!(count_errors(false, "Check timed out"), 1);
    assert_eq!(count_errors(false, "# m\n./a.go:3:2: undefined: x\n./b.go:1:1: y\n"), 2);
    assert_eq!(count_errors(false, "[ERROR] A.java:[3,5] x\nwarning: unused `error`\n"), 1);
}

#[test]
fn places_are_read_from_every_checker() {
    let place = |file: &str, line: usize| (file.to_string(), line);
    let python = "  File \"m.py\", line 1\n    def f(:\n          ^\nSyntaxError: invalid syntax\n";
    assert_eq!(extract_error_locations(python), vec![place("m.py", 1)]);
    let frames = "Traceback:\n  File \"a/b.py\", line 12, in <module>\n  File \"<string>\", line 1\n";
    assert_eq!(extract_error_locations(frames), vec![place("a/b.py", 12)]);
    let indent = "Sorry: IndentationError: unexpected indent (m.py, line 2)\n";
    assert_eq!(extract_error_locations(indent), vec![place("m.py", 2)]);
    let tsc = "src/a.ts(12,5): error TS2304: Cannot find name 'x'.\n";
    assert_eq!(extract_error_locations(tsc), vec![place("src/a.ts", 12)]);
    let vet = "# example.com/m\n./main.go:5:2: fmt.Printf format %d has arg of wrong type\n\
               vet: ./a.go:3:9: undefined: x\n";
    assert_eq!(extract_error_locations(vet), vec![place("./main.go", 5), place("./a.go", 3)]);
    let cargo = "warning: unused\n --> src/w.rs:1:1\nerror[E0425]: cannot find\n --> src/m.rs:2:5\n";
    assert_eq!(extract_error_locations(cargo), vec![place("src/m.rs", 2)]);
    assert!(extract_error_locations("a.rs:1:1: warning: w\nlog.error(5,2)\n").is_empty());
}

#[test]
fn hints_follow_the_errors() {
    assert_eq!(action_hints("all fine", EditMode::Smart), "");
    assert!(action_hints("cannot find value", EditMode::Smart).contains("renamed/removed"));
    assert!(action_hints("unclosed delimiter", EditMode::Smart).contains("edit_file"));
    assert!(action_hints("unclosed delimiter", EditMode::Fast).contains("replace_range"));
    assert!(action_hints("expected 2 arguments, found 1", EditMode::Fast)
        .contains("call sites not updated"));
}

#[test]
fn describing_needs_a_path() {
    assert_eq!(read_describe_request(&json("{}")).unwrap_err(), "path is required");
    let req = read_describe_request(&json(r#"{ "path": "a", "symbols": "b, c" }"#)).unwrap();
    assert_eq!((req.path.as_str(), req.symbols.as_deref()), ("a", Some("b, c")));
    let all = make_describe_request("a".to_string(), ArgValue::Null).unwrap();
    assert_eq!(all.symbols, None);
    assert_eq!(report_unreadable("a").content, "Cannot read file: a");
}
