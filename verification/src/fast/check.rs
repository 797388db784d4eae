//! The check of a whole project by its own tools.
use vstd::prelude::*;

use crate::text;
use crate::text::{contains_text, has_prefix, joined, split_lines};
use crate::tool;
use crate::tool::{ToolResult, ToolView};

verus! {

/// The most lines of an output that are shown.
pub const MAX_SHOWN_LINES: usize = 40;

/// Which files at the root of a project tell what it is built with.
#[derive(Debug, Clone, Copy, PartialEq, Eq, Structural)]
pub struct Markers {
    pub cargo_toml: bool,
    pub tsconfig_json: bool,
    pub go_mod: bool,
    pub pom_xml: bool,
    pub build_gradle: bool,
}

/// What a project is checked with.
#[derive(Debug, Clone, Copy, PartialEq, Eq, Structural)]
pub enum Checker {
    Cargo,
    Tsc,
    GoVet,
    Maven,
    Gradle,
}

/// What a project with these files is checked with.
pub open spec fn checker_of(m: Markers) -> Option<Checker> {
    if m.cargo_toml {
        Some(Checker::Cargo)
    } else if m.tsconfig_json {
        Some(Checker::Tsc)
    } else if m.go_mod {
        Some(Checker::GoVet)
    } else if m.pom_xml {
        Some(Checker::Maven)
    } else if m.build_gradle {
        Some(Checker::Gradle)
    } else {
        None
    }
}

/// Finds out what a project with these files is checked with.
pub fn detect_checker(markers: Markers) -> (r: Option<Checker>)
    ensures
        r == checker_of(markers),
{
    if markers.cargo_toml {
        Some(Checker::Cargo)
    } else if markers.tsconfig_json {
        Some(Checker::Tsc)
    } else if markers.go_mod {
        Some(Checker::GoVet)
    } else if markers.pom_xml {
        Some(Checker::Maven)
    } else if markers.build_gradle {
        Some(Checker::Gradle)
    } else {
        None
    }
}

/// The command that runs a check.
pub open spec fn command_of(c: Checker) -> Seq<char> {
    match c {
        Checker::Cargo => "cargo"@,
        Checker::Tsc => "npx"@,
        Checker::GoVet => "go"@,
        Checker::Maven => "mvn"@,
        Checker::Gradle => "gradle"@,
    }
}

/// The arguments of the command that runs a check.
pub open spec fn args_of(c: Checker) -> Seq<Seq<char>> {
    match c {
        Checker::Cargo => seq!["check"@, "--message-format=short"@],
        Checker::Tsc => seq!["tsc"@, "--noEmit"@, "--pretty"@, "false"@],
        Checker::GoVet => seq!["vet"@, "./..."@],
        Checker::Maven => seq!["compile"@, "-q"@],
        Checker::Gradle => seq!["compileJava"@, "-q"@],
    }
}

/// What a check is called.
pub open spec fn name_of(c: Checker) -> Seq<char> {
    match c {
        Checker::Cargo => "cargo check"@,
        Checker::Tsc => "tsc"@,
        Checker::GoVet => "go vet"@,
        Checker::Maven => "mvn compile"@,
        Checker::Gradle => "gradle compileJava"@,
    }
}

impl Checker {
    /// The command that runs the check.
    pub fn command(self) -> (r: &'static str)
        ensures
            r@ == command_of(self),
    {
        match self {
            Checker::Cargo => "cargo",
            Checker::Tsc => "npx",
            Checker::GoVet => "go",
            Checker::Maven => "mvn",
            Checker::Gradle => "gradle",
        }
    }

    /// The arguments of the command.
    pub fn arguments(self) -> (r: Vec<String>)
        ensures
            r.deep_view() == args_of(self),
    {
        let mut out: Vec<String> = Vec::new();
        match self {
            Checker::Cargo => {
                out.push("check".to_owned());
                out.push("--message-format=short".to_owned());
            },
            Checker::Tsc => {
                out.push("tsc".to_owned());
                out.push("--noEmit".to_owned());
                out.push("--pretty".to_owned());
                out.push("false".to_owned());
            },
            Checker::GoVet => {
                out.push("vet".to_owned());
                out.push("./...".to_owned());
            },
            Checker::Maven => {
                out.push("compile".to_owned());
                out.push("-q".to_owned());
            },
            Checker::Gradle => {
                out.push("compileJava".to_owned());
                out.push("-q".to_owned());
            },
        }
        proof {
            assert(out.deep_view() =~= args_of(self));
        }
        out
    }

    /// What the check is called.
    pub fn name(self) -> (r: &'static str)
        ensures
            r@ == name_of(self),
    {
        match self {
            Checker::Cargo => "cargo check",
            Checker::Tsc => "tsc",
            Checker::GoVet => "go vet",
            Checker::Maven => "mvn compile",
            Checker::Gradle => "gradle compileJava",
        }
    }
}

/// Whether a line of an output is worth showing.
pub open spec fn is_telling(line: Seq<char>) -> bool {
    text::has_text(line, "error"@) || text::has_text(line, "Error"@) || text::has_text(
        line,
        "warning"@,
    ) || text::starts_with(line, "  "@) || text::starts_with(line, "-->"@)
}

/// The first lines worth showing among the first `n`, at most `limit` of them.
pub open spec fn telling(ls: Seq<Seq<char>>, limit: nat, n: int) -> Seq<Seq<char>>
    decreases n,
{
    if n <= 0 {
        Seq::empty()
    } else {
        let before = telling(ls, limit, n - 1);
        if before.len() < limit && is_telling(ls[n - 1]) {
            before.push(ls[n - 1])
        } else {
            before
        }
    }
}

fn pick_telling(lines: &Vec<String>, limit: usize) -> (r: Vec<String>)
    ensures
        r.deep_view() == telling(lines.deep_view(), limit as nat, lines@.len() as int),
{
    let ghost lv = lines.deep_view();
    let mut out: Vec<String> = Vec::new();
    let mut i: usize = 0;
    proof {
        assert(out.deep_view() =~= Seq::<Seq<char>>::empty());
    }
    while i < lines.len()
        invariant
            i <= lines@.len() == lv.len(),
            lv == lines.deep_view(),
            out.deep_view() == telling(lv, limit as nat, i as int),
        decreases lines.len() - i,
    {
        let line = &lines[i];
        proof {
            assert(lv[i as int] == line@);
            assert(out@.len() == out.deep_view().len());
        }
        if out.len() < limit && (contains_text(line, "error") || contains_text(line, "Error")
            || contains_text(line, "warning") || has_prefix(line, "  ") || has_prefix(
            line,
            "-->",
        )) {
            let ghost o = out.deep_view();
            out.push(line.clone());
            proof {
                assert(out.deep_view() =~= o.push(lv[i as int]));
            }
        }
        i += 1;
    }
    out
}

/// How a check ended.
#[derive(Debug)]
pub enum CheckEnd {
    /// It could not be started.
    NotStarted,
    /// The task that ran it broke off, with an error.
    Broken(String),
    /// It ran: whether it passed, and what it wrote.
    Ran { success: bool, stderr: String },
}

/// How a check ended, over texts.
pub enum EndView {
    NotStarted,
    Broken(Seq<char>),
    Ran { success: bool, stderr: Seq<char> },
}

impl DeepView for CheckEnd {
    type V = EndView;

    open spec fn deep_view(&self) -> EndView {
        match *self {
            CheckEnd::NotStarted => EndView::NotStarted,
            CheckEnd::Broken(e) => EndView::Broken(e@),
            CheckEnd::Ran { success, stderr } => EndView::Ran { success, stderr: stderr@ },
        }
    }
}

/// What is answered to a check.
pub open spec fn check_report(c: Checker, end: EndView) -> ToolView {
    let head = "["@ + name_of(c);
    match end {
        EndView::NotStarted => tool::err_view(
            head + "] failed to spawn — is `"@ + command_of(c) + "` on PATH?"@,
        ),
        EndView::Broken(e) => tool::err_view(head + "] task panicked: "@ + e),
        EndView::Ran { success, stderr } => if success {
            tool::ok_view(head + "] OK — no errors"@)
        } else {
            let ls = text::lines(stderr);
            let shown = telling(ls, MAX_SHOWN_LINES as nat, ls.len() as int);
            tool::ok_view(
                head + "] FAILED\n"@ + (if shown.len() == 0 {
                    "(no error details captured)"@
                } else {
                    text::join(shown, "\n"@)
                }),
            )
        },
    }
}

/// Answers a check. A failed check shows the telling lines of its output.
pub fn report_check(checker: Checker, end: &CheckEnd) -> (r: ToolResult)
    ensures
        r.deep_view() == check_report(checker, end.deep_view()),
{
    let head = "[".to_owned().concat(checker.name());
    match end {
        CheckEnd::NotStarted => ToolResult::err(
            head.concat("] failed to spawn — is `").concat(checker.command()).concat(
                "` on PATH?",
            ),
        ),
        CheckEnd::Broken(e) => ToolResult::err(head.concat("] task panicked: ").concat(e)),
        CheckEnd::Ran { success, stderr } => {
            if *success {
                return ToolResult::ok(head.concat("] OK — no errors"));
            }
            let lines = split_lines(stderr);
            proof {
                assert(lines@.len() == lines.deep_view().len());
            }
            let shown = pick_telling(&lines, MAX_SHOWN_LINES);
            proof {
                assert(shown@.len() == shown.deep_view().len());
            }
            let body = if shown.len() == 0 {
                "(no error details captured)".to_owned()
            } else {
                joined(&shown, "\n")
            };
            ToolResult::ok(head.concat("] FAILED\n").concat(&body))
        },
    }
}

/// What is answered where a project has none of the known tools.
pub fn report_no_checker() -> (r: ToolResult)
    ensures
        r.deep_view() == tool::ok_view(
            "[check] no recognized project toolchain (looked for Cargo.toml, tsconfig.json, go.mod, pom.xml, build.gradle)"@,
        ),
{
    ToolResult::ok(
        "[check] no recognized project toolchain (looked for Cargo.toml, tsconfig.json, go.mod, pom.xml, build.gradle)".to_owned(),
    )
}

/// The answer tells how the check ended: it begins with `OK` behind the name of the
/// check exactly where the check ran and passed, with `FAILED` exactly where it ran
/// and did not pass, and the call fails exactly where the check did not run.
pub proof fn check_verdict_is_told(c: Checker, end: EndView)
    ensures
        text::starts_with(check_report(c, end).content, "["@ + name_of(c) + "] OK"@) <==> (end
            matches EndView::Ran { success, .. } && success),
        text::starts_with(check_report(c, end).content, "["@ + name_of(c) + "] FAILED"@) <==> (end
            matches EndView::Ran { success, .. } && !success),
        check_report(c, end).success <==> end is Ran,
{
    reveal_strlit("] OK");
    reveal_strlit("] FAILED");
    reveal_strlit("] OK — no errors");
    reveal_strlit("] FAILED\n");
    reveal_strlit("] failed to spawn — is `");
    reveal_strlit("] task panicked: ");
    let head = "["@ + name_of(c);
    let n = head.len() as int;
    let s = check_report(c, end).content;
    let ok = head + "] OK"@;
    let failed = head + "] FAILED"@;
    assert(ok[n + 2] == 'O' && failed[n + 2] == 'F');
    if text::starts_with(s, ok) {
        assert(s[n + 2] == s.subrange(0, ok.len() as int)[n + 2]);
    }
    if text::starts_with(s, failed) {
        assert(s[n + 2] == s.subrange(0, failed.len() as int)[n + 2]);
    }
    match end {
        EndView::NotStarted => {
            assert(s[n + 2] == "] failed to spawn — is `"@[2]);
        },
        EndView::Broken(e) => {
            assert(s[n + 2] == "] task panicked: "@[2]);
        },
        EndView::Ran { success, stderr } => {
            if success {
                assert(s[n + 2] == "] OK — no errors"@[2]);
                assert(s.subrange(0, ok.len() as int) =~= ok);
            } else {
                assert(s[n + 2] == "] FAILED\n"@[2]);
                assert(s.subrange(0, failed.len() as int) =~= failed);
            }
        },
    }
}

proof fn lemma_telling(ls: Seq<Seq<char>>, limit: nat, n: int)
    requires
        0 <= n <= ls.len(),
    ensures
        telling(ls, limit, n).len() <= limit,
        forall|i: int|
            0 <= i < telling(ls, limit, n).len() ==> is_telling(
                #[trigger] telling(ls, limit, n)[i],
            ) && ls.contains(telling(ls, limit, n)[i]),
        telling(ls, limit, n).len() < limit ==> forall|k: int|
            0 <= k < n && is_telling(#[trigger] ls[k]) ==> telling(ls, limit, n).contains(ls[k]),
    decreases n,
{
    if n > 0 {
        lemma_telling(ls, limit, n - 1);
        let before = telling(ls, limit, n - 1);
        let now = telling(ls, limit, n);
        if before.len() < limit && is_telling(ls[n - 1]) {
            assert(now == before.push(ls[n - 1]));
            assert forall|i: int| 0 <= i < now.len() implies is_telling(#[trigger] now[i])
                && ls.contains(now[i]) by {
                if i < before.len() {
                    assert(now[i] == before[i]);
                } else {
                    assert(now[i] == ls[n - 1]);
                }
            }
            assert forall|k: int| 0 <= k < n && is_telling(#[trigger] ls[k]) && now.len()
                < limit implies now.contains(ls[k]) by {
                if k < n - 1 {
                    let i = choose|i: int| 0 <= i < before.len() && before[i] == ls[k];
                    assert(now[i] == ls[k]);
                } else {
                    assert(now[before.len() as int] == ls[k]);
                }
            }
        }
    }
}

/// What a failed check shows behind its verdict are lines of the output that are
/// worth showing, at most 40, and all of them where there are fewer; a notice stands
/// there where there is none.
pub proof fn failed_check_shows_its_errors(c: Checker, stderr: Seq<char>)
    ensures
        exists|shown: Seq<Seq<char>>|
            {
                &&& shown.len() <= 40
                &&& forall|i: int|
                    0 <= i < shown.len() ==> is_telling(#[trigger] shown[i]) && text::lines(
                        stderr,
                    ).contains(shown[i])
                &&& shown.len() < 40 ==> forall|k: int|
                    0 <= k < text::lines(stderr).len() && is_telling(
                        #[trigger] text::lines(stderr)[k],
                    ) ==> shown.contains(text::lines(stderr)[k])
                &&& check_report(c, (EndView::Ran { success: false, stderr })).content == "["@
                    + name_of(c) + "] FAILED\n"@ + (if shown.len() == 0 {
                    "(no error details captured)"@
                } else {
                    #[trigger] text::join(shown, "\n"@)
                })
            },
{
    let ls = text::lines(stderr);
    lemma_telling(ls, MAX_SHOWN_LINES as nat, ls.len() as int);
    let shown = telling(ls, MAX_SHOWN_LINES as nat, ls.len() as int);
    let joined_text = text::join(shown, "\n"@);
    assert(shown.len() <= 40);
}

/// A line is worth showing exactly where it speaks of an error or a warning, is set
/// in by two spaces, or begins with an arrow.
pub proof fn telling_lines_speak_of_errors(line: Seq<char>)
    ensures
        is_telling(line) <==> {
            ||| exists|k: int|
                0 <= k <= line.len() - 5 && (#[trigger] line.subrange(k, k + 5) == "error"@
                    || line.subrange(k, k + 5) == "Error"@)
            ||| exists|k: int|
                0 <= k <= line.len() - 7 && #[trigger] line.subrange(k, k + 7) == "warning"@
            ||| line.len() >= 2 && line[0] == ' ' && line[1] == ' '
            ||| line.len() >= 3 && line[0] == '-' && line[1] == '-' && line[2] == '>'
        },
{
    reveal_strlit("error");
    reveal_strlit("Error");
    reveal_strlit("warning");
    reveal_strlit("  ");
    reveal_strlit("-->");
    if is_telling(line) {
        if text::has_text(line, "error"@) {
            let k = choose|k: int| text::occurs_at(line, "error"@, k);
            assert(line.subrange(k, k + 5) == "error"@);
        } else if text::has_text(line, "Error"@) {
            let k = choose|k: int| text::occurs_at(line, "Error"@, k);
            assert(line.subrange(k, k + 5) == "Error"@);
        } else if text::has_text(line, "warning"@) {
            let k = choose|k: int| text::occurs_at(line, "warning"@, k);
            assert(line.subrange(k, k + 7) == "warning"@);
        } else if text::starts_with(line, "  "@) {
            assert(line[0] == line.subrange(0, 2)[0] && line[1] == line.subrange(0, 2)[1]);
        } else {
            assert(line[0] == line.subrange(0, 3)[0] && line[1] == line.subrange(0, 3)[1]
                && line[2] == line.subrange(0, 3)[2]);
        }
    }
    assert forall|k: int| 0 <= k <= line.len() - 5 && (#[trigger] line.subrange(k, k + 5)
        == "error"@ || line.subrange(k, k + 5) == "Error"@) implies is_telling(line) by {
        assert(text::occurs_at(line, "error"@, k) || text::occurs_at(line, "Error"@, k));
    }
    assert forall|k: int| 0 <= k <= line.len() - 7 && #[trigger] line.subrange(k, k + 7)
        == "warning"@ implies is_telling(line) by {
        assert(text::occurs_at(line, "warning"@, k));
    }
    if line.len() >= 2 && line[0] == ' ' && line[1] == ' ' {
        assert(line.subrange(0, 2) =~= "  "@);
    }
    if line.len() >= 3 && line[0] == '-' && line[1] == '-' && line[2] == '>' {
        assert(line.subrange(0, 3) =~= "-->"@);
    }
}

/// A project is checked with a tool only where the file that tells of it is there,
/// and with none only where no such file is; Cargo comes before all others.
pub proof fn checker_fits_the_project(m: Markers)
    ensures
        checker_of(m) == Some(Checker::Cargo) <==> m.cargo_toml,
        checker_of(m) == Some(Checker::Tsc) ==> m.tsconfig_json,
        checker_of(m) == Some(Checker::GoVet) ==> m.go_mod && !m.tsconfig_json,
        checker_of(m) == Some(Checker::Maven) ==> m.pom_xml && !m.tsconfig_json && !m.go_mod,
        checker_of(m) == Some(Checker::Gradle) ==> m.build_gradle && !m.tsconfig_json && !m.go_mod
            && !m.pom_xml,
        checker_of(m) is None <==> !m.cargo_toml && !m.tsconfig_json && !m.go_mod && !m.pom_xml
            && !m.build_gradle,
{
}

} // verus!
