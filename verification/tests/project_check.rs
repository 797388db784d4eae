//! Tests of the project check.
use miniswe_tools::fast::check::{
    detect_checker, report_check, report_no_checker, CheckEnd, Checker, Markers, MAX_SHOWN_LINES,
};
use miniswe_tools::fast::dispatch::{fast_tool, FastTool};
use miniswe_tools::tool::ToolResult;

fn none() -> Markers {
    Markers {
        cargo_toml: false,
        tsconfig_json: false,
        go_mod: false,
        pom_xml: false,
        build_gradle: false,
    }
}

/// One call of the tool, where the command passes.
fn execute(markers: Markers) -> ToolResult {
    match detect_checker(markers) {
        None => report_no_checker(),
        Some(checker) => report_check(
            checker,
            &CheckEnd::Ran { success: true, stderr: String::new() },
        ),
    }
}

#[test]
fn reports_unknown_toolchain_gracefully() {
    let r = execute(none());
    assert!(r.success, "unknown toolchain is not a failure");
    assert!(r.content.contains("no recognized project toolchain"));
}

#[test]
fn detects_cargo_project() {
    let mut found = none();
    found.cargo_toml = true;
    let checker = detect_checker(found).unwrap();
    let (cmd, name) = (checker.command(), checker.name());
    assert_eq!(cmd, "cargo");
    assert_eq!(name, "cargo check");
}

#[test]
fn detects_ts_project() {
    let mut found = none();
    found.tsconfig_json = true;
    let checker = detect_checker(found).unwrap();
    let (cmd, name) = (checker.command(), checker.name());
    assert_eq!(cmd, "npx");
    assert_eq!(name, "tsc");
}

#[test]
fn detects_go_project() {
    let mut found = none();
    found.go_mod = true;
    let checker = detect_checker(found).unwrap();
    let (cmd, name) = (checker.command(), checker.name());
    assert_eq!(cmd, "go");
    assert_eq!(name, "go vet");
}

#[test]
fn returns_none_for_empty_dir() {
    assert!(detect_checker(none()).is_none());
}

#[test]
fn each_toolchain_has_its_command() {
    let all = Markers {
        cargo_toml: true,
        tsconfig_json: true,
        go_mod: true,
        pom_xml: true,
        build_gradle: true,
    };
    assert_eq!(detect_checker(all), Some(Checker::Cargo));
    let mut found = none();
    found.build_gradle = true;
    assert_eq!(detect_checker(found), Some(Checker::Gradle));
    found.pom_xml = true;
    assert_eq!(detect_checker(found), Some(Checker::Maven));
    assert_eq!(Checker::Maven.command(), "mvn");
    assert_eq!(Checker::Cargo.arguments()[0], "check");
    assert!(Checker::Tsc.arguments().contains(&"tsc".to_string()));
    assert_eq!(Checker::Gradle.name(), "gradle compileJava");
    assert_eq!(Checker::GoVet.arguments()[0], "vet");
}

#[test]
fn a_check_ends_in_one_of_four_ways() {
    let passed = report_check(
        Checker::Cargo,
        &CheckEnd::Ran { success: true, stderr: "noise".to_string() },
    );
    assert!(passed.success);
    assert!(passed.content.contains("cargo check"), "{}", passed.content);
    let long: String = (0..MAX_SHOWN_LINES + 5).map(|i| format!("error: e{i}\n")).collect();
    let failed = report_check(Checker::Cargo, &CheckEnd::Ran { success: false, stderr: long });
    assert!(failed.content.contains("error: e0"), "{}", failed.content);
    assert!(!failed.content.contains(&format!("e{}", MAX_SHOWN_LINES + 4)));
    let absent = report_check(Checker::Tsc, &CheckEnd::NotStarted);
    assert_ne!(absent.content, passed.content);
    let broken = report_check(Checker::Tsc, &CheckEnd::Broken("boom".to_string()));
    assert!(broken.content.contains("boom"), "{}", broken.content);
}

#[test]
fn tools_are_found_by_name() {
    assert_eq!(fast_tool("replace_range"), Ok(FastTool::ReplaceRange));
    assert_eq!(fast_tool("insert_at"), Ok(FastTool::InsertAt));
    assert_eq!(fast_tool("revert"), Ok(FastTool::Revert));
    assert_eq!(fast_tool("show_rev"), Ok(FastTool::ShowRev));
    assert_eq!(fast_tool("check"), Ok(FastTool::Check));
    assert!(fast_tool("nope").unwrap_err().contains("nope"));
    assert!(FastTool::Revert.changes_file());
    assert!(!FastTool::ShowRev.changes_file());
    assert!(!FastTool::Check.changes_file());
}
