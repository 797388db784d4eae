//! The check of a file behind an edit.
use vstd::prelude::*;

use crate::cargo_check;
use crate::cargo_check::{count_errors, extract_error_locations};
use crate::definitions::EditMode;
use crate::edit_file::validate;
use crate::edit_file::validate::{error_diagnostics, Diagnostic, DiagnosticView};
use crate::fast::check::Markers;
use crate::fast::revisions::copy_option;
use crate::number;
use crate::number::{dec_text, dec_text_u128};
use crate::text;
use crate::text::{
    contains_text, find_from, first_line_of, has_prefix, has_suffix, joined, split_lines, to_chars,
    trimmed,
};
use crate::tool::{ToolResult, ToolView};
use crate::unicode;
use crate::unicode::to_upper_chars;

verus! {

/// The most errors of a new file that are shown.
pub const MAX_NEW_FILE_ERRORS: usize = 5;

/// The most new errors of a file that are shown.
pub const MAX_REPORTED_ERRORS: usize = 20;

/// The most lines of a compiler that are shown.
pub const MAX_COMPILER_LINES: usize = 30;

/// The standing instruction for the question whether new errors are meant.
pub const REVIEW_SYSTEM: &'static str = "You are reviewing an edit. Answer YES or NO only. YES means the errors are expected and the edit should be kept. NO means the errors are unexpected and the edit should be reverted.";

/// A file before an edit.
#[derive(Debug)]
pub struct EditBaseline {
    /// The errors that a language server saw in it.
    pub lsp_errors: usize,
    /// The errors that the command which checks it told of.
    pub fallback_errors: usize,
    /// Whether it was there.
    pub existed_before: bool,
    /// Its content.
    pub original_content: Option<String>,
}

impl Clone for EditBaseline {
    fn clone(&self) -> (r: EditBaseline)
        ensures
            r.lsp_errors == self.lsp_errors,
            r.fallback_errors == self.fallback_errors,
            r.existed_before == self.existed_before,
            r.original_content.deep_view() == self.original_content.deep_view(),
    {
        EditBaseline {
            lsp_errors: self.lsp_errors,
            fallback_errors: self.fallback_errors,
            existed_before: self.existed_before,
            original_content: copy_option(&self.original_content),
        }
    }
}

impl EditBaseline {
    /// A file of which nothing is known.
    pub fn new_unknown() -> (r: EditBaseline)
        ensures
            r.lsp_errors == 0,
            r.fallback_errors == 0,
            !r.existed_before,
            r.original_content is None,
    {
        EditBaseline {
            lsp_errors: 0,
            fallback_errors: 0,
            existed_before: false,
            original_content: None,
        }
    }

    /// The errors that an edit is held against, where the file was there.
    pub fn known_errors(&self) -> (r: Option<usize>)
        ensures
            r == (if self.existed_before {
                Some(self.lsp_errors)
            } else {
                None
            }),
    {
        if self.existed_before {
            Some(self.lsp_errors)
        } else {
            None
        }
    }
}

/// The errors that the check of an edit by a command is held against: none are known
/// of a new file.
pub open spec fn errors_before(baseline: EditBaseline) -> Option<usize> {
    if baseline.existed_before {
        Some(baseline.fallback_errors)
    } else {
        None
    }
}

/// The first `n` errors of a file, one on a line behind `indent`.
pub open spec fn error_lines(
    indent: Seq<char>,
    path: Seq<char>,
    ds: Seq<DiagnosticView>,
    n: int,
) -> Seq<char>
    decreases n,
{
    if n <= 0 {
        Seq::empty()
    } else {
        error_lines(indent, path, ds, n - 1) + (indent + path + ":"@ + number::dec(
            (ds[n - 1].line + 1) as nat,
        ) + ":"@ + number::dec((ds[n - 1].character + 1) as nat) + ": error: "@
            + ds[n - 1].message + "\n"@)
    }
}

/// The errors of a file, at most `cap` of them, and how many more there are.
pub open spec fn capped_errors(
    indent: Seq<char>,
    path: Seq<char>,
    ds: Seq<DiagnosticView>,
    cap: nat,
) -> Seq<char> {
    if ds.len() > cap {
        error_lines(indent, path, ds, cap as int) + (indent + "... and "@ + number::dec(
            (ds.len() - cap) as nat,
        ) + " more errors\n"@)
    } else {
        error_lines(indent, path, ds, ds.len() as int)
    }
}

fn render_errors(indent: &str, path: &str, ds: &Vec<Diagnostic>, cap: usize) -> (r: String)
    ensures
        r@ == capped_errors(indent@, path@, ds.deep_view(), cap as nat),
{
    let ghost dv = ds.deep_view();
    let n: usize = ds.len();
    proof {
        assert(n == dv.len());
    }
    let shown: usize = if n > cap {
        cap
    } else {
        n
    };
    let mut out = String::new();
    let mut i: usize = 0;
    while i < shown
        invariant
            i <= shown <= n == ds@.len() == dv.len(),
            dv == ds.deep_view(),
            out@ == error_lines(indent@, path@, dv, i as int),
        decreases shown - i,
    {
        let d = &ds[i];
        proof {
            assert(dv[i as int] == d.deep_view());
        }
        out.append(
            &indent.to_owned().concat(path).concat(":").concat(
                &dec_text_u128(d.line as u128 + 1),
            ).concat(":").concat(&dec_text_u128(d.character as u128 + 1)).concat(
                ": error: ",
            ).concat(&d.message).concat("\n"),
        );
        i += 1;
    }
    if n > cap {
        out.append(
            &indent.to_owned().concat("... and ").concat(&dec_text(n - cap)).concat(
                " more errors\n",
            ),
        );
    }
    out
}

/// What a language server's errors mean for an edit.
#[derive(Debug)]
pub enum LspJudgement {
    /// The edit stands; this is told.
    Stands(String),
    /// The file has more errors than before: whether it stands is to be asked, with
    /// this report.
    Ask(String),
}

/// What a language server's errors mean, over texts.
pub enum JudgementView {
    Stands(Seq<char>),
    Ask(Seq<char>),
}

impl DeepView for LspJudgement {
    type V = JudgementView;

    open spec fn deep_view(&self) -> JudgementView {
        match *self {
            LspJudgement::Stands(s) => JudgementView::Stands(s@),
            LspJudgement::Ask(s) => JudgementView::Ask(s@),
        }
    }
}

/// What the errors of a file mean for an edit. A new file stands with its errors,
/// and so does one that has no more of them than before.
pub open spec fn judgement(path: Seq<char>, errors: Seq<DiagnosticView>, before: Option<usize>) -> JudgementView {
    let count = number::dec(errors.len());
    if errors.len() == 0 {
        JudgementView::Stands("\n[lsp] OK"@)
    } else {
        match before {
            None => JudgementView::Stands(
                "\n[lsp] WARNING: "@ + count + " error(s) introduced by newly-created "@ + path
                    + " — fix before relying on this file:\n"@ + capped_errors(
                    Seq::empty(),
                    path,
                    errors,
                    MAX_NEW_FILE_ERRORS as nat,
                ),
            ),
            Some(n) => if errors.len() <= n {
                JudgementView::Stands(
                    "\n[lsp] OK ("@ + count + " pre-existing error(s) in "@ + path
                        + ", unchanged by this edit)"@,
                )
            } else {
                JudgementView::Ask(
                    count + " error(s) in "@ + path + " (was "@ + number::dec(n as nat)
                        + " before this edit):\n"@ + capped_errors(
                        "  "@,
                        path,
                        errors,
                        MAX_REPORTED_ERRORS as nat,
                    ),
                )
            },
        }
    }
}

/// Judges an edit by the diagnostics of its file.
pub fn judge_diagnostics(path: &str, diags: &[Diagnostic], baseline: &EditBaseline) -> (r:
    LspJudgement)
    ensures
        r.deep_view() == judgement(
            path@,
            validate::errors_of(diags.deep_view()),
            if baseline.existed_before {
                Some(baseline.lsp_errors)
            } else {
                None
            },
        ),
{
    let errors = error_diagnostics(diags);
    proof {
        assert(errors@.len() == errors.deep_view().len());
    }
    let count = dec_text(errors.len());
    if errors.len() == 0 {
        return LspJudgement::Stands("\n[lsp] OK".to_owned());
    }
    if !baseline.existed_before {
        let none = String::new();
        return LspJudgement::Stands(
            "\n[lsp] WARNING: ".to_owned().concat(&count).concat(
                " error(s) introduced by newly-created ",
            ).concat(path).concat(" — fix before relying on this file:\n").concat(
                &render_errors(&none, path, &errors, MAX_NEW_FILE_ERRORS),
            ),
        );
    }
    if errors.len() <= baseline.lsp_errors {
        return LspJudgement::Stands(
            "\n[lsp] OK (".to_owned().concat(&count).concat(" pre-existing error(s) in ").concat(
                path,
            ).concat(", unchanged by this edit)"),
        );
    }
    LspJudgement::Ask(
        count.concat(" error(s) in ").concat(path).concat(" (was ").concat(
            &dec_text(baseline.lsp_errors),
        ).concat(" before this edit):\n").concat(
            &render_errors("  ", path, &errors, MAX_REPORTED_ERRORS),
        ),
    )
}

/// The question whether new errors are meant.
pub open spec fn regression_question(path: Seq<char>, report: Seq<char>) -> Seq<char> {
    "edit_file wrote changes to "@ + path + ".\nLSP diagnostics show new errors:\n"@ + report
        + "\nAre these errors expected (e.g. a callee/dependency updated in a later step), or are they mistakes in the edit?\nAnswer YES to keep the changes, NO to revert them."@
}

/// Asks whether new errors are meant.
pub fn regression_prompt(path: &str, error_report: &str) -> (r: String)
    ensures
        r@ == regression_question(path@, error_report@),
{
    "edit_file wrote changes to ".to_owned().concat(path).concat(
        ".\nLSP diagnostics show new errors:\n",
    ).concat(error_report).concat(
        "\nAre these errors expected (e.g. a callee/dependency updated in a later step), or are they mistakes in the edit?\nAnswer YES to keep the changes, NO to revert them.",
    )
}

/// Whether a reply keeps the changes: its first line holds a yes, the case aside.
pub open spec fn keeps_changes(reply: Seq<char>) -> bool {
    text::has_text(unicode::upper_text(text::trim(text::first_line(reply))), "YES"@)
}

/// Tests whether a reply keeps the changes.
pub fn accepts_regression(reply: &str) -> (r: bool)
    ensures
        r == keeps_changes(reply@),
{
    let v = to_upper_chars(&to_chars(&trimmed(&first_line_of(reply))));
    let p = to_chars("YES");
    proof {
        text::lemma_text_from(v@, p@, 0);
    }
    match find_from(&v, &p, 0) {
        Some(_) => true,
        None => {
            proof {
                assert forall|k: int| !text::occurs_at(v@, p@, k) by {
                    if text::occurs_at(v@, p@, k) {
                        assert(k < text::text_from(v@, p@, 0));
                    }
                }
            }
            false
        },
    }
}

/// An answer with more behind it.
pub open spec fn with_more(r: ToolView, more: Seq<char>) -> ToolView {
    ToolView { content: r.content + more, ..r }
}

/// A failed answer with more behind it.
pub open spec fn failed_with(r: ToolView, more: Seq<char>) -> ToolView {
    ToolView { content: r.content + more, success: false }
}

fn append(result: ToolResult, more: &str) -> (r: ToolResult)
    ensures
        r.deep_view() == with_more(result.deep_view(), more@),
{
    ToolResult { content: result.content.concat(more), success: result.success }
}

fn fail(result: ToolResult, more: &str) -> (r: ToolResult)
    ensures
        r.deep_view() == failed_with(result.deep_view(), more@),
{
    ToolResult { content: result.content.concat(more), success: false }
}

/// Tells that an edit stands.
pub fn note_standing(result: ToolResult, told: &str) -> (r: ToolResult)
    ensures
        r.deep_view() == with_more(result.deep_view(), told@),
{
    append(result, told)
}

/// What is answered where an edit brought new errors: it is kept, or taken back and
/// failed.
pub open spec fn settled(r: ToolView, report: Seq<char>, accepted: bool) -> ToolView {
    if accepted {
        with_more(r, "\n[lsp] WARNING: "@ + report + "Changes kept (accepted by model)."@)
    } else {
        failed_with(r, "\n[lsp] "@ + report + "Edit reverted."@)
    }
}

/// Answers where an edit brought new errors.
pub fn settle_regression(result: ToolResult, error_report: &str, accepted: bool) -> (r: ToolResult)
    ensures
        r.deep_view() == settled(result.deep_view(), error_report@, accepted),
{
    if accepted {
        append(
            result,
            &"\n[lsp] WARNING: ".to_owned().concat(error_report).concat(
                "Changes kept (accepted by model).",
            ),
        )
    } else {
        fail(result, &"\n[lsp] ".to_owned().concat(error_report).concat("Edit reverted."))
    }
}

/// A command that checks a file where no language server does.
#[derive(Debug)]
pub struct Fallback {
    pub command: String,
    pub arguments: Vec<String>,
    /// What the check is called.
    pub name: String,
}

/// A command over texts.
pub struct FallbackView {
    pub command: Seq<char>,
    pub arguments: Seq<Seq<char>>,
    pub name: Seq<char>,
}

impl DeepView for Fallback {
    type V = FallbackView;

    open spec fn deep_view(&self) -> FallbackView {
        FallbackView {
            command: self.command@,
            arguments: self.arguments.deep_view(),
            name: self.name@,
        }
    }
}

/// The command that checks a file, by its extension and by what its project is
/// built with.
pub open spec fn fallback_of(path: Seq<char>, m: Markers) -> Option<FallbackView> {
    let java = text::ends_with(path, ".java"@);
    if text::ends_with(path, ".rs"@) && m.cargo_toml {
        Some(
            FallbackView {
                command: "cargo"@,
                arguments: seq!["check"@, "--message-format=short"@],
                name: "cargo check"@,
            },
        )
    } else if (text::ends_with(path, ".ts"@) || text::ends_with(path, ".tsx"@))
        && m.tsconfig_json {
        Some(
            FallbackView {
                command: "npx"@,
                arguments: seq!["tsc"@, "--noEmit"@, "--pretty"@, "false"@],
                name: "tsc"@,
            },
        )
    } else if text::ends_with(path, ".go"@) && m.go_mod {
        Some(
            FallbackView {
                command: "go"@,
                arguments: seq!["vet"@, "./..."@],
                name: "go vet"@,
            },
        )
    } else if text::ends_with(path, ".py"@) {
        Some(
            FallbackView {
                command: "python3"@,
                arguments: seq!["-m"@, "py_compile"@, path],
                name: "py_compile"@,
            },
        )
    } else if java && m.pom_xml {
        Some(
            FallbackView {
                command: "mvn"@,
                arguments: seq!["compile"@, "-q"@],
                name: "mvn compile"@,
            },
        )
    } else if java && m.build_gradle {
        Some(
            FallbackView {
                command: "gradle"@,
                arguments: seq!["compileJava"@, "-q"@],
                name: "mvn compile"@,
            },
        )
    } else {
        None
    }
}

fn make_fallback(command: &str, arguments: Vec<String>, name: &str) -> (r: Fallback)
    ensures
        r.deep_view() == (FallbackView {
            command: command@,
            arguments: arguments.deep_view(),
            name: name@,
        }),
{
    Fallback { command: command.to_owned(), arguments, name: name.to_owned() }
}

fn two(a: &str, b: &str) -> (r: Vec<String>)
    ensures
        r.deep_view() == seq![a@, b@],
{
    let mut v: Vec<String> = Vec::new();
    v.push(a.to_owned());
    v.push(b.to_owned());
    proof {
        assert(v.deep_view() =~= seq![a@, b@]);
    }
    v
}

/// Finds the command that checks a file.
pub fn choose_fallback(path: &str, markers: Markers) -> (r: Option<Fallback>)
    ensures
        r.deep_view() == fallback_of(path@, markers),
{
    if has_suffix(path, ".rs") && markers.cargo_toml {
        return Some(make_fallback("cargo", two("check", "--message-format=short"), "cargo check"));
    }
    if (has_suffix(path, ".ts") || has_suffix(path, ".tsx")) && markers.tsconfig_json {
        let mut v = two("tsc", "--noEmit");
        let ghost head = v.deep_view();
        v.push("--pretty".to_owned());
        v.push("false".to_owned());
        proof {
            assert(v.deep_view() =~= head.push("--pretty"@).push("false"@));
            assert(v.deep_view() =~= seq!["tsc"@, "--noEmit"@, "--pretty"@, "false"@]);
        }
        return Some(make_fallback("npx", v, "tsc"));
    }
    if has_suffix(path, ".go") && markers.go_mod {
        return Some(make_fallback("go", two("vet", "./..."), "go vet"));
    }
    if has_suffix(path, ".py") {
        let mut v = two("-m", "py_compile");
        let ghost head = v.deep_view();
        v.push(path.to_owned());
        proof {
            assert(v.deep_view() =~= head.push(path@));
            assert(v.deep_view() =~= seq!["-m"@, "py_compile"@, path@]);
        }
        return Some(make_fallback("python3", v, "py_compile"));
    }
    if has_suffix(path, ".java") && markers.pom_xml {
        return Some(make_fallback("mvn", two("compile", "-q"), "mvn compile"));
    }
    if has_suffix(path, ".java") && markers.build_gradle {
        return Some(make_fallback("gradle", two("compileJava", "-q"), "mvn compile"));
    }
    None
}

/// Whether a line of a compiler is worth showing.
pub open spec fn is_relevant(line: Seq<char>) -> bool {
    text::has_text(line, "error"@) || text::has_text(line, "warning"@) || text::starts_with(
        line,
        "  "@,
    )
}

/// The first lines worth showing among the first `n`, at most `limit` of them.
pub open spec fn relevant(ls: Seq<Seq<char>>, limit: nat, n: int) -> Seq<Seq<char>>
    decreases n,
{
    if n <= 0 {
        Seq::empty()
    } else {
        let before = relevant(ls, limit, n - 1);
        if before.len() < limit && is_relevant(ls[n - 1]) {
            before.push(ls[n - 1])
        } else {
            before
        }
    }
}

/// The lines of a compiler's output that are worth showing.
pub open spec fn relevant_lines(stderr: Seq<char>) -> Seq<Seq<char>> {
    let ls = text::lines(stderr);
    relevant(ls, MAX_COMPILER_LINES as nat, ls.len() as int)
}

fn pick_relevant(stderr: &str) -> (r: Vec<String>)
    ensures
        r.deep_view() == relevant_lines(stderr@),
{
    let lines = split_lines(stderr);
    let ghost lv = lines.deep_view();
    let mut out: Vec<String> = Vec::new();
    let mut i: usize = 0;
    proof {
        assert(lines@.len() == lv.len());
        assert(out.deep_view() =~= Seq::<Seq<char>>::empty());
    }
    while i < lines.len()
        invariant
            i <= lines@.len() == lv.len(),
            lv == lines.deep_view(),
            out.deep_view() == relevant(lv, MAX_COMPILER_LINES as nat, i as int),
        decreases lines.len() - i,
    {
        let line = &lines[i];
        proof {
            assert(lv[i as int] == line@);
            assert(out@.len() == out.deep_view().len());
        }
        if out.len() < MAX_COMPILER_LINES && (contains_text(line, "error") || contains_text(
            line,
            "warning",
        ) || has_prefix(line, "  ")) {
            let ghost o = out.deep_view();
            out.push(line.clone());
            proof {
                assert(out.deep_view() =~= o.push(lv[i as int]));
            }
        }
        i += 1;
    }
    out
}

/// What to do about a changed signature.
pub const HINT_CALLERS: &'static str = "ACTION: Function signature changed but call sites not updated. Use file(action='search', query='function_name') to find ALL callers and update them.";

/// What to do about a missing symbol.
pub const HINT_SYMBOL: &'static str = "ACTION: A symbol was renamed/removed but references remain. Search for the old name and update.";

/// What to do about broken syntax, where plans are made.
pub const HINT_SYNTAX_SMART: &'static str = "ACTION: Broken syntax (missing/extra bracket). Use edit_file for the structural repair; replace is unreliable for structural fixes.";

/// What to do about broken syntax, where edits are direct.
pub const HINT_SYNTAX_FAST: &'static str = "ACTION: Broken syntax (missing/extra bracket). Revert the offending rev and land the structural repair as a tighter replace_range over the enclosing block.";

/// What to do about mismatched types.
pub const HINT_TYPES: &'static str = "ACTION: Type mismatch. Check the function signature and update the caller to pass the correct type.";

/// A hint on a line of its own, where it is given.
pub open spec fn hint_if(given: bool, hint: Seq<char>) -> Seq<char> {
    if given {
        hint + "\n"@
    } else {
        Seq::empty()
    }
}

/// What to do about errors.
pub open spec fn hints(shown: Seq<char>, mode: EditMode) -> Seq<char> {
    hint_if(
        text::has_text(shown, "expected"@) && text::has_text(shown, "argument"@)
            && text::has_text(shown, "found"@),
        HINT_CALLERS@,
    ) + hint_if(text::has_text(shown, "cannot find"@), HINT_SYMBOL@) + hint_if(
        text::has_text(shown, "unclosed delimiter"@) || text::has_text(
            shown,
            "unexpected closing"@,
        ),
        match mode {
            EditMode::Smart => HINT_SYNTAX_SMART@,
            EditMode::Fast => HINT_SYNTAX_FAST@,
        },
    ) + hint_if(text::has_text(shown, "mismatched types"@), HINT_TYPES@)
}

fn give_hint(given: bool, hint: &str) -> (r: String)
    ensures
        r@ == hint_if(given, hint@),
{
    if given {
        hint.to_owned().concat("\n")
    } else {
        String::new()
    }
}

/// Says what to do about errors.
pub fn action_hints(shown: &str, mode: EditMode) -> (r: String)
    ensures
        r@ == hints(shown@, mode),
{
    let callers = contains_text(shown, "expected") && contains_text(shown, "argument")
        && contains_text(shown, "found");
    let syntax = contains_text(shown, "unclosed delimiter") || contains_text(
        shown,
        "unexpected closing",
    );
    let syntax_hint = match mode {
        EditMode::Smart => HINT_SYNTAX_SMART,
        EditMode::Fast => HINT_SYNTAX_FAST,
    };
    give_hint(callers, HINT_CALLERS).concat(
        &give_hint(contains_text(shown, "cannot find"), HINT_SYMBOL),
    ).concat(&give_hint(syntax, syntax_hint)).concat(
        &give_hint(contains_text(shown, "mismatched types"), HINT_TYPES),
    )
}

/// The first `n` texts one behind the other.
pub open spec fn concatenated(v: Seq<Seq<char>>, n: int) -> Seq<char>
    decreases n,
{
    if n <= 0 {
        Seq::empty()
    } else {
        concatenated(v, n - 1) + v[n - 1]
    }
}

fn concatenate(v: &Vec<String>) -> (r: String)
    ensures
        r@ == concatenated(v.deep_view(), v@.len() as int),
{
    let ghost vv = v.deep_view();
    let mut out = String::new();
    let mut i: usize = 0;
    while i < v.len()
        invariant
            i <= v@.len() == vv.len(),
            vv == v.deep_view(),
            out@ == concatenated(vv, i as int),
        decreases v.len() - i,
    {
        out.append(&v[i]);
        i += 1;
    }
    out
}

/// What is told of the places of errors: the lines around those that could be
/// read.
pub open spec fn context_part(stderr: Seq<char>, contexts: Seq<Seq<char>>) -> Seq<char> {
    if cargo_check::locations(text::lines(stderr), text::lines(stderr).len() as int).len() == 0 {
        Seq::empty()
    } else {
        "\n[source context]\n"@ + concatenated(contexts, contexts.len() as int)
    }
}

/// What is told of what to do.
pub open spec fn action_part(shown: Seq<char>, mode: EditMode) -> Seq<char> {
    if hints(shown, mode).len() == 0 {
        Seq::empty()
    } else {
        "\n[action needed]\n"@ + hints(shown, mode)
    }
}

/// What is answered where a command checked the file. A new file stands with its
/// errors, and so does another one that had `before` errors and has no more; one with
/// more errors fails.
pub open spec fn checked(
    r: ToolView,
    name: Seq<char>,
    path: Seq<char>,
    before: Option<usize>,
    success: bool,
    stderr: Seq<char>,
    contexts: Seq<Seq<char>>,
    mode: EditMode,
) -> ToolView {
    let head = "\n["@ + name + "]"@;
    let lines = relevant_lines(stderr);
    let shown = text::join(lines, "\n"@);
    let errors = cargo_check::error_count(success, stderr);
    if success {
        with_more(r, head + " OK"@)
    } else {
        match before {
            None => if lines.len() == 0 {
                with_more(
                    r,
                    head + " WARNING: errors reported for newly-created "@ + path
                        + " but no details were captured — fix before relying on this file"@,
                )
            } else {
                with_more(
                    r,
                    head + " WARNING: "@ + number::dec(lines.len())
                        + " line(s) reported for newly-created "@ + path
                        + " — fix before relying on this file\n"@ + shown,
                )
            },
            Some(n) => if errors <= n {
                with_more(
                    r,
                    head + " OK ("@ + number::dec(errors) + " pre-existing error(s) in "@ + path
                        + ", unchanged by this edit)\n"@ + shown + context_part(stderr, contexts),
                )
            } else if lines.len() == 0 {
                failed_with(r, head + " failed (no details captured)"@)
            } else {
                failed_with(
                    r,
                    head + "\n"@ + shown + context_part(stderr, contexts) + action_part(
                        shown,
                        mode,
                    ),
                )
            },
        }
    }
}

fn render_context(stderr: &str, contexts: &Vec<String>) -> (r: String)
    ensures
        r@ == context_part(stderr@, contexts.deep_view()),
{
    let places = extract_error_locations(stderr);
    proof {
        assert(places@.len() == cargo_check::places_view(places@).len());
        assert(contexts@.len() == contexts.deep_view().len());
    }
    if places.len() == 0 {
        String::new()
    } else {
        "\n[source context]\n".to_owned().concat(&concatenate(contexts))
    }
}

fn render_action(shown: &str, mode: EditMode) -> (r: String)
    ensures
        r@ == action_part(shown@, mode),
{
    let todo = action_hints(shown, mode);
    if todo.as_str().is_empty() {
        String::new()
    } else {
        "\n[action needed]\n".to_owned().concat(&todo)
    }
}

/// Answers where a command checked the file. `contexts` holds the lines around the
/// places of errors, as far as they could be read.
pub fn report_checked(
    result: ToolResult,
    name: &str,
    path: &str,
    baseline: &EditBaseline,
    success: bool,
    stderr: &str,
    contexts: &Vec<String>,
    mode: EditMode,
) -> (r: ToolResult)
    ensures
        r.deep_view() == checked(
            result.deep_view(),
            name@,
            path@,
            errors_before(*baseline),
            success,
            stderr@,
            contexts.deep_view(),
            mode,
        ),
        baseline.existed_before && cargo_check::error_count(success, stderr@)
            <= baseline.fallback_errors ==> r.success == result.success,
{
    let head = "\n[".to_owned().concat(name).concat("]");
    if success {
        return append(result, &head.concat(" OK"));
    }
    let lines = pick_relevant(stderr);
    proof {
        assert(lines@.len() == lines.deep_view().len());
    }
    let shown = joined(&lines, "\n");
    if !baseline.existed_before {
        if lines.len() == 0 {
            return append(
                result,
                &head.concat(" WARNING: errors reported for newly-created ").concat(path).concat(
                    " but no details were captured — fix before relying on this file",
                ),
            );
        }
        return append(
            result,
            &head.concat(" WARNING: ").concat(&dec_text(lines.len())).concat(
                " line(s) reported for newly-created ",
            ).concat(path).concat(" — fix before relying on this file\n").concat(&shown),
        );
    }
    let errors = count_errors(success, stderr);
    if errors <= baseline.fallback_errors {
        return append(
            result,
            &head.concat(" OK (").concat(&dec_text(errors)).concat(
                " pre-existing error(s) in ",
            ).concat(path).concat(", unchanged by this edit)\n").concat(&shown).concat(
                &render_context(stderr, contexts),
            ),
        );
    }
    if lines.len() == 0 {
        return fail(result, &head.concat(" failed (no details captured)"));
    }
    fail(
        result,
        &head.concat("\n").concat(&shown).concat(&render_context(stderr, contexts)).concat(
            &render_action(&shown, mode),
        ),
    )
}

/// No check of a new file makes its edit fail.
pub proof fn new_files_stand(
    r: ToolView,
    name: Seq<char>,
    path: Seq<char>,
    success: bool,
    stderr: Seq<char>,
    contexts: Seq<Seq<char>>,
    mode: EditMode,
    errors: Seq<DiagnosticView>,
)
    ensures
        checked(r, name, path, None, success, stderr, contexts, mode).success == r.success,
        judgement(path, errors, None) is Stands,
{
}

/// Errors that were there before do not make an edit fail: neither those that a
/// language server sees nor those that a command tells of. Only more errors do.
pub proof fn old_errors_are_forgiven(
    path: Seq<char>,
    errors: Seq<DiagnosticView>,
    before: usize,
    r: ToolView,
    name: Seq<char>,
    success: bool,
    stderr: Seq<char>,
    contexts: Seq<Seq<char>>,
    mode: EditMode,
)
    ensures
        judgement(path, errors, Some(before)) is Ask <==> errors.len() > before,
        checked(r, name, path, Some(before), success, stderr, contexts, mode).success == (r.success
            && cargo_check::error_count(success, stderr) <= before),
{
}

/// Checks add to an answer and take nothing back from it: what was told stays at its
/// start, whatever a check finds.
pub proof fn answers_only_grow(
    r: ToolView,
    report: Seq<char>,
    accepted: bool,
    name: Seq<char>,
    path: Seq<char>,
    before: Option<usize>,
    success: bool,
    stderr: Seq<char>,
    contexts: Seq<Seq<char>>,
    mode: EditMode,
)
    ensures
        text::starts_with(settled(r, report, accepted).content, r.content),
        text::starts_with(
            checked(r, name, path, before, success, stderr, contexts, mode).content,
            r.content + "\n["@ + name + "]"@,
        ),
{
    let s = settled(r, report, accepted).content;
    assert(s.subrange(0, r.content.len() as int) =~= r.content);
    lemma_checked_head(r, name, path, before, success, stderr, contexts, mode);
}

proof fn lemma_longer(x: Seq<char>, y: Seq<char>, p: Seq<char>)
    requires
        text::starts_with(x, p),
    ensures
        text::starts_with(x + y, p),
{
    assert((x + y).subrange(0, p.len() as int) =~= x.subrange(0, p.len() as int));
}

proof fn lemma_behind_base(base: Seq<char>, more: Seq<char>, head: Seq<char>)
    requires
        text::starts_with(more, head),
    ensures
        text::starts_with(base + more, base + head),
{
    assert((base + more).subrange(0, (base + head).len() as int) =~= base + more.subrange(
        0,
        head.len() as int,
    ));
}

proof fn lemma_checked_head(
    r: ToolView,
    name: Seq<char>,
    path: Seq<char>,
    before: Option<usize>,
    success: bool,
    stderr: Seq<char>,
    contexts: Seq<Seq<char>>,
    mode: EditMode,
)
    ensures
        text::starts_with(
            checked(r, name, path, before, success, stderr, contexts, mode).content,
            r.content + "\n["@ + name + "]"@,
        ),
{
    let head = "\n["@ + name + "]"@;
    let lines = relevant_lines(stderr);
    let shown = text::join(lines, "\n"@);
    let errors = cargo_check::error_count(success, stderr);
    assert(r.content + "\n["@ + name + "]"@ =~= r.content + head);
    assert(head.subrange(0, head.len() as int) =~= head);
    let context = context_part(stderr, contexts);
    if success {
        lemma_longer(head, " OK"@, head);
        lemma_behind_base(r.content, head + " OK"@, head);
    } else {
        match before {
            None => {
                if lines.len() == 0 {
                    let a = head + " WARNING: errors reported for newly-created "@;
                    let z =
                        " but no details were captured — fix before relying on this file"@;
                    lemma_longer(head, " WARNING: errors reported for newly-created "@, head);
                    lemma_longer(a, path, head);
                    lemma_longer(a + path, z, head);
                    lemma_behind_base(r.content, a + path + z, head);
                } else {
                    let a = head + " WARNING: "@;
                    let b = a + number::dec(lines.len());
                    let c = b + " line(s) reported for newly-created "@;
                    let d = c + path;
                    let e = d + " — fix before relying on this file\n"@;
                    lemma_longer(head, " WARNING: "@, head);
                    lemma_longer(a, number::dec(lines.len()), head);
                    lemma_longer(b, " line(s) reported for newly-created "@, head);
                    lemma_longer(c, path, head);
                    lemma_longer(d, " — fix before relying on this file\n"@, head);
                    lemma_longer(e, shown, head);
                    lemma_behind_base(r.content, e + shown, head);
                }
            },
            Some(n) => {
                if errors <= n {
                    let a = head + " OK ("@;
                    let b = a + number::dec(errors);
                    let c = b + " pre-existing error(s) in "@;
                    let d = c + path;
                    let e = d + ", unchanged by this edit)\n"@;
                    lemma_longer(head, " OK ("@, head);
                    lemma_longer(a, number::dec(errors), head);
                    lemma_longer(b, " pre-existing error(s) in "@, head);
                    lemma_longer(c, path, head);
                    lemma_longer(d, ", unchanged by this edit)\n"@, head);
                    lemma_longer(e, shown, head);
                    lemma_longer(e + shown, context, head);
                    lemma_behind_base(r.content, e + shown + context, head);
                } else if lines.len() == 0 {
                    lemma_longer(head, " failed (no details captured)"@, head);
                    lemma_behind_base(r.content, head + " failed (no details captured)"@, head);
                } else {
                    let todo = action_part(shown, mode);
                    let a = head + "\n"@;
                    lemma_longer(head, "\n"@, head);
                    lemma_longer(a, shown, head);
                    lemma_longer(a + shown, context, head);
                    lemma_longer(a + shown + context, todo, head);
                    lemma_behind_base(r.content, a + shown + context + todo, head);
                }
            },
        }
    }
}

/// New errors that are accepted leave the answer as successful as it was; those that are
/// not make it a failure. Either way they are shown.
pub proof fn refused_errors_fail(r: ToolView, report: Seq<char>, accepted: bool)
    ensures
        settled(r, report, accepted).success == (r.success && accepted),
        text::has_text(settled(r, report, accepted).content, report),
        text::ends_with(settled(r, report, accepted).content, "Edit reverted."@) <==> !accepted,
{
    reveal_strlit("Edit reverted.");
    reveal_strlit("Changes kept (accepted by model).");
    let a = "Changes kept (accepted by model)."@;
    let b = "Edit reverted."@;
    let x = "\n[lsp] WARNING: "@;
    let y = "\n[lsp] "@;
    let s = settled(r, report, accepted).content;
    text::found_in_either(x, report, report);
    text::found_in_either(x + report, a, report);
    text::found_in_either(r.content, x + report + a, report);
    text::found_in_either(y, report, report);
    text::found_in_either(y + report, b, report);
    text::found_in_either(r.content, y + report + b, report);
    if accepted {
        let n = s.len() as int;
        assert(s[n - 2] == a[a.len() - 2]);
        if text::ends_with(s, b) {
            assert(s.subrange(n - 14, n)[12] == s[n - 2]);
        }
    } else {
        let n = s.len() as int;
        assert(s.subrange(n - 14, n) =~= b);
    }
}

/// The answer of a check is `OK` exactly where it passed, or where the file was there and
/// has no more errors than before.
pub proof fn passed_checks_are_ok(
    r: ToolView,
    name: Seq<char>,
    path: Seq<char>,
    before: Option<usize>,
    success: bool,
    stderr: Seq<char>,
    contexts: Seq<Seq<char>>,
    mode: EditMode,
)
    ensures
        text::starts_with(
            checked(r, name, path, before, success, stderr, contexts, mode).content,
            r.content + "\n["@ + name + "] OK"@,
        ) <==> success || (before matches Some(n) && cargo_check::error_count(success, stderr)
            <= n),
{
    let head = r.content + ("\n["@ + name + "]"@);
    let p = r.content + "\n["@ + name + "] OK"@;
    let c = checked(r, name, path, before, success, stderr, contexts, mode).content;
    let n = head.len() as int;
    reveal_strlit("]");
    reveal_strlit("] OK");
    assert(p.len() == n + 3 && p[n] == ' ' && p[n + 1] == 'O' && p[n + 2] == 'K');
    assert(c.take(n) =~= head);
    assert(p.take(n) =~= head);
    if c.len() >= n + 3 && c[n] == ' ' && c[n + 1] == 'O' && c[n + 2] == 'K' {
        assert forall|i: int| 0 <= i < p.len() implies p[i] == c[i] by {
            if i < n {
                assert(p.take(n)[i] == p[i] && c.take(n)[i] == c[i]);
            }
        }
        assert(c.subrange(0, p.len() as int) =~= p);
    }
    if text::starts_with(c, p) {
        let t = c.subrange(0, p.len() as int);
        assert(t[n] == c[n] && t[n + 1] == c[n + 1]);
    }
    lemma_check_marks();
    if success {
        assert(c[n] == " OK"@[0] && c[n + 1] == " OK"@[1] && c[n + 2] == " OK"@[2]);
    } else {
        match before {
            None => {
                if relevant_lines(stderr).len() == 0 {
                    let m = " WARNING: errors reported for newly-created "@;
                    assert(c[n + 1] == m[1]);
                } else {
                    assert(c[n + 1] == " WARNING: "@[1]);
                }
            },
            Some(b) => {
                if cargo_check::error_count(success, stderr) <= b {
                    let m = " OK ("@;
                    assert(c[n] == m[0] && c[n + 1] == m[1] && c[n + 2] == m[2]);
                } else if relevant_lines(stderr).len() == 0 {
                    assert(c[n + 1] == " failed (no details captured)"@[1]);
                } else {
                    assert(c[n] == "\n"@[0]);
                }
            },
        }
    }
}

proof fn lemma_check_marks()
    ensures
        " OK"@.len() == 3 && " OK"@[0] == ' ' && " OK"@[1] == 'O' && " OK"@[2] == 'K',
        " OK ("@.len() == 5 && " OK ("@[0] == ' ' && " OK ("@[1] == 'O' && " OK ("@[2] == 'K',
        " WARNING: "@.len() == 10 && " WARNING: "@[1] == 'W',
        " WARNING: errors reported for newly-created "@.len() > 2
            && " WARNING: errors reported for newly-created "@[1] == 'W',
        " failed (no details captured)"@.len() > 2 && " failed (no details captured)"@[1] == 'f',
        "\n"@.len() == 1 && "\n"@[0] == '\n',
{
    reveal_strlit(" OK");
    reveal_strlit(" OK (");
    reveal_strlit(" WARNING: ");
    reveal_strlit(" WARNING: errors reported for newly-created ");
    reveal_strlit(" failed (no details captured)");
    reveal_strlit("\n");
}

proof fn lemma_error_line(indent: Seq<char>, path: Seq<char>, ds: Seq<DiagnosticView>, n: int, i: int)
    requires
        0 <= i < n <= ds.len(),
    ensures
        text::has_text(
            error_lines(indent, path, ds, n),
            indent + path + ":"@ + number::dec((ds[i].line + 1) as nat) + ":"@ + number::dec(
                (ds[i].character + 1) as nat,
            ) + ": error: "@ + ds[i].message + "\n"@,
        ),
    decreases n,
{
    let p = indent + path + ":"@ + number::dec((ds[i].line + 1) as nat) + ":"@ + number::dec(
        (ds[i].character + 1) as nat,
    ) + ": error: "@ + ds[i].message + "\n"@;
    if i < n - 1 {
        lemma_error_line(indent, path, ds, n - 1, i);
    }
    text::found_in_either(
        error_lines(indent, path, ds, n - 1),
        indent + path + ":"@ + number::dec((ds[n - 1].line + 1) as nat) + ":"@ + number::dec(
            (ds[n - 1].character + 1) as nat,
        ) + ": error: "@ + ds[n - 1].message + "\n"@,
        p,
    );
}

/// The question on new errors shows the first twenty of them, each with its line and
/// column numbered from 1 and its message, and tells how many there are and were.
pub proof fn new_errors_are_shown(
    path: Seq<char>,
    errors: Seq<DiagnosticView>,
    before: usize,
    i: int,
)
    requires
        errors.len() > before,
        0 <= i < errors.len(),
        i < 20,
    ensures
        judgement(path, errors, Some(before)) matches JudgementView::Ask(s) && text::has_text(
            s,
            "  "@ + path + ":"@ + number::dec((errors[i].line + 1) as nat) + ":"@ + number::dec(
                (errors[i].character + 1) as nat,
            ) + ": error: "@ + errors[i].message + "\n"@,
        ) && text::starts_with(
            s,
            number::dec(errors.len()) + " error(s) in "@ + path + " (was "@ + number::dec(
                before as nat,
            ) + " before this edit)"@,
        ),
{
    let p = "  "@ + path + ":"@ + number::dec((errors[i].line + 1) as nat) + ":"@ + number::dec(
        (errors[i].character + 1) as nat,
    ) + ": error: "@ + errors[i].message + "\n"@;
    let cap = MAX_REPORTED_ERRORS as int;
    if errors.len() > cap {
        lemma_error_line("  "@, path, errors, cap, i);
        text::found_in_either(
            error_lines("  "@, path, errors, cap),
            "  "@ + "... and "@ + number::dec((errors.len() - cap) as nat) + " more errors\n"@,
            p,
        );
    } else {
        lemma_error_line("  "@, path, errors, errors.len() as int, i);
    }
    let h = number::dec(errors.len()) + " error(s) in "@ + path + " (was "@ + number::dec(
        before as nat,
    );
    let head = h + " before this edit):\n"@;
    let body = capped_errors("  "@, path, errors, MAX_REPORTED_ERRORS as nat);
    text::found_in_either(head, body, p);
    reveal_strlit(" before this edit):\n");
    reveal_strlit(" before this edit)");
    let q = h + " before this edit)"@;
    assert((head + body).subrange(0, q.len() as int) =~= q);
}

/// A hint is given exactly where the errors call for it.
pub proof fn hints_fit_the_errors(shown: Seq<char>, mode: EditMode)
    ensures
        text::has_text(shown, "cannot find"@) ==> text::has_text(hints(shown, mode), HINT_SYMBOL@),
        text::has_text(shown, "mismatched types"@) ==> text::has_text(
            hints(shown, mode),
            HINT_TYPES@,
        ),
        text::has_text(shown, "expected"@) && text::has_text(shown, "argument"@)
            && text::has_text(shown, "found"@) ==> text::has_text(
            hints(shown, mode),
            HINT_CALLERS@,
        ),
        text::has_text(shown, "unclosed delimiter"@) || text::has_text(
            shown,
            "unexpected closing"@,
        ) ==> text::has_text(
            hints(shown, mode),
            match mode {
                EditMode::Smart => HINT_SYNTAX_SMART@,
                EditMode::Fast => HINT_SYNTAX_FAST@,
            },
        ),
        !text::has_text(shown, "cannot find"@) && !text::has_text(shown, "mismatched types"@) && !(
        text::has_text(shown, "expected"@) && text::has_text(shown, "argument"@)
            && text::has_text(shown, "found"@)) && !text::has_text(shown, "unclosed delimiter"@)
            && !text::has_text(shown, "unexpected closing"@) ==> hints(shown, mode).len() == 0,
{
    let syntax = match mode {
        EditMode::Smart => HINT_SYNTAX_SMART@,
        EditMode::Fast => HINT_SYNTAX_FAST@,
    };
    let a = hint_if(
        text::has_text(shown, "expected"@) && text::has_text(shown, "argument"@)
            && text::has_text(shown, "found"@),
        HINT_CALLERS@,
    );
    let b = hint_if(text::has_text(shown, "cannot find"@), HINT_SYMBOL@);
    let c = hint_if(
        text::has_text(shown, "unclosed delimiter"@) || text::has_text(
            shown,
            "unexpected closing"@,
        ),
        syntax,
    );
    let d = hint_if(text::has_text(shown, "mismatched types"@), HINT_TYPES@);
    text::found_in_either(HINT_CALLERS@, "\n"@, HINT_CALLERS@);
    text::found_in_either(HINT_SYMBOL@, "\n"@, HINT_SYMBOL@);
    text::found_in_either(syntax, "\n"@, syntax);
    text::found_in_either(HINT_TYPES@, "\n"@, HINT_TYPES@);
    text::found_in_either(a, b, HINT_CALLERS@);
    text::found_in_either(a + b, c, HINT_CALLERS@);
    text::found_in_either(a + b + c, d, HINT_CALLERS@);
    text::found_in_either(a, b, HINT_SYMBOL@);
    text::found_in_either(a + b, c, HINT_SYMBOL@);
    text::found_in_either(a + b + c, d, HINT_SYMBOL@);
    text::found_in_either(a + b, c, syntax);
    text::found_in_either(a + b + c, d, syntax);
    text::found_in_either(a + b + c, d, HINT_TYPES@);
}

proof fn lemma_suffix(stem: Seq<char>, e: Seq<char>, q: Seq<char>)
    ensures
        text::ends_with(stem + e, e),
        e.len() >= 1 && q.len() >= 1 && e.last() != q.last() ==> !text::ends_with(stem + e, q),
        e.len() >= 3 && q.len() >= 3 && e[e.len() - 2] != q[q.len() - 2] ==> !text::ends_with(
            stem + e,
            q,
        ),
        e.len() >= 3 && q.len() >= 3 && e[e.len() - 3] != q[q.len() - 3] ==> !text::ends_with(
            stem + e,
            q,
        ),
{
    let s = stem + e;
    let n = s.len() as int;
    assert(s.subrange(n - e.len(), n) =~= e);
    if text::ends_with(s, q) {
        let t = s.subrange(n - q.len(), n);
        if q.len() >= 1 && e.len() >= 1 {
            assert(t[q.len() - 1] == s[n - 1]);
            assert(s[n - 1] == e[e.len() - 1]);
        }
        if q.len() >= 3 && e.len() >= 3 {
            assert(t[q.len() - 2] == s[n - 2] && t[q.len() - 3] == s[n - 3]);
            assert(s[n - 2] == e[e.len() - 2] && s[n - 3] == e[e.len() - 3]);
        }
    }
}

/// A file is checked by the tool of its language, and only where the project is built with
/// it; a Python file is checked by itself, whatever the project is.
pub proof fn fallback_fits_the_file(stem: Seq<char>, m: Markers)
    ensures
        match fallback_of(stem + ".rs"@, m) {
            Some(f) => m.cargo_toml && f.command == "cargo"@,
            None => !m.cargo_toml,
        },
        match fallback_of(stem + ".ts"@, m) {
            Some(f) => m.tsconfig_json && f.command == "npx"@,
            None => !m.tsconfig_json,
        },
        match fallback_of(stem + ".tsx"@, m) {
            Some(f) => m.tsconfig_json && f.command == "npx"@,
            None => !m.tsconfig_json,
        },
        match fallback_of(stem + ".go"@, m) {
            Some(f) => m.go_mod && f.command == "go"@,
            None => !m.go_mod,
        },
        fallback_of(stem + ".py"@, m) matches Some(f) && f.command == "python3"@
            && f.arguments.last() == stem + ".py"@,
        match fallback_of(stem + ".java"@, m) {
            Some(f) => (m.pom_xml && f.command == "mvn"@) || (!m.pom_xml && m.build_gradle
                && f.command == "gradle"@),
            None => !m.pom_xml && !m.build_gradle,
        },
{
    lemma_endings(stem);
}

proof fn lemma_endings(s: Seq<char>)
    ensures
        text::ends_with(s + ".rs"@, ".rs"@),
        text::ends_with(s + ".ts"@, ".ts"@),
        text::ends_with(s + ".tsx"@, ".tsx"@),
        text::ends_with(s + ".go"@, ".go"@),
        text::ends_with(s + ".py"@, ".py"@),
        text::ends_with(s + ".java"@, ".java"@),
        !text::ends_with(s + ".rs"@, ".ts"@) && !text::ends_with(s + ".rs"@, ".tsx"@)
            && !text::ends_with(s + ".rs"@, ".go"@) && !text::ends_with(s + ".rs"@, ".py"@)
            && !text::ends_with(s + ".rs"@, ".java"@),
        !text::ends_with(s + ".ts"@, ".rs"@) && !text::ends_with(s + ".ts"@, ".go"@)
            && !text::ends_with(s + ".ts"@, ".py"@) && !text::ends_with(s + ".ts"@, ".java"@),
        !text::ends_with(s + ".tsx"@, ".rs"@) && !text::ends_with(s + ".tsx"@, ".go"@)
            && !text::ends_with(s + ".tsx"@, ".py"@) && !text::ends_with(s + ".tsx"@, ".java"@),
        !text::ends_with(s + ".go"@, ".rs"@) && !text::ends_with(s + ".go"@, ".ts"@)
            && !text::ends_with(s + ".go"@, ".tsx"@) && !text::ends_with(s + ".go"@, ".py"@)
            && !text::ends_with(s + ".go"@, ".java"@),
        !text::ends_with(s + ".py"@, ".rs"@) && !text::ends_with(s + ".py"@, ".ts"@)
            && !text::ends_with(s + ".py"@, ".tsx"@) && !text::ends_with(s + ".py"@, ".go"@),
        !text::ends_with(s + ".java"@, ".rs"@) && !text::ends_with(s + ".java"@, ".ts"@)
            && !text::ends_with(s + ".java"@, ".tsx"@) && !text::ends_with(s + ".java"@, ".go"@)
            && !text::ends_with(s + ".java"@, ".py"@),
{
    reveal_strlit(".rs");
    reveal_strlit(".ts");
    reveal_strlit(".tsx");
    reveal_strlit(".go");
    reveal_strlit(".py");
    reveal_strlit(".java");
    let rs = ".rs"@;
    let ts = ".ts"@;
    let tsx = ".tsx"@;
    let go = ".go"@;
    let py = ".py"@;
    let java = ".java"@;
    lemma_suffix(s, rs, ts);
    lemma_suffix(s, rs, tsx);
    lemma_suffix(s, rs, go);
    lemma_suffix(s, rs, py);
    lemma_suffix(s, rs, java);
    lemma_suffix(s, ts, rs);
    lemma_suffix(s, ts, go);
    lemma_suffix(s, ts, py);
    lemma_suffix(s, ts, java);
    lemma_suffix(s, tsx, rs);
    lemma_suffix(s, tsx, go);
    lemma_suffix(s, tsx, py);
    lemma_suffix(s, tsx, java);
    lemma_suffix(s, go, rs);
    lemma_suffix(s, go, ts);
    lemma_suffix(s, go, tsx);
    lemma_suffix(s, go, py);
    lemma_suffix(s, go, java);
    lemma_suffix(s, py, rs);
    lemma_suffix(s, py, ts);
    lemma_suffix(s, py, tsx);
    lemma_suffix(s, py, go);
    lemma_suffix(s, java, rs);
    lemma_suffix(s, java, ts);
    lemma_suffix(s, java, tsx);
    lemma_suffix(s, java, go);
    lemma_suffix(s, java, py);
}

/// Only the first line of a reply decides whether changes are kept.
pub proof fn first_line_decides(a: Seq<char>, b: Seq<char>, c: Seq<char>)
    requires
        !a.contains('\n'),
        a.len() == 0 || a.last() != '\r',
    ensures
        keeps_changes(a + seq!['\n'] + b) == keeps_changes(a + seq!['\n'] + c),
        a.len() > 0 ==> keeps_changes(a + seq!['\n'] + b) == keeps_changes(a),
{
    text::lines_end_at_newlines(a, b);
    text::lines_end_at_newlines(a, c);
    text::first_line_is_a_line(a + seq!['\n'] + b);
    text::first_line_is_a_line(a + seq!['\n'] + c);
    text::first_line_is_a_line(a);
}

proof fn lemma_concatenated(v: Seq<Seq<char>>, n: int, i: int)
    requires
        0 <= i < n <= v.len(),
    ensures
        text::has_text(concatenated(v, n), v[i]),
    decreases n,
{
    if i < n - 1 {
        lemma_concatenated(v, n - 1, i);
    }
    text::found_in_either(concatenated(v, n - 1), v[n - 1], v[i]);
    if i == n - 1 {
        text::found_in_either(concatenated(v, n - 1), v[i], v[i]);
    }
}

/// Where a check fails, each line of its output that matters is told behind what was answered
/// already. Where errors came, the answer is a failure that tells what to do about them, and
/// what stands around each place that could be read.
#[verifier::spinoff_prover]
#[verifier::rlimit(60)]
pub proof fn failed_checks_are_told(
    r: ToolView,
    name: Seq<char>,
    path: Seq<char>,
    before: Option<usize>,
    stderr: Seq<char>,
    contexts: Seq<Seq<char>>,
    mode: EditMode,
    i: int,
    j: int,
)
    requires
        0 <= i < relevant_lines(stderr).len(),
    ensures
        ({
            let out = checked(r, name, path, before, false, stderr, contexts, mode);
            let shown = text::join(relevant_lines(stderr), "\n"@);
            let worse = before matches Some(n) && cargo_check::error_count(false, stderr) > n;
            &&& text::starts_with(out.content, r.content)
            &&& text::has_text(out.content, relevant_lines(stderr)[i])
            &&& worse ==> !out.success && text::has_text(out.content, hints(shown, mode))
            &&& !worse ==> out.success == r.success
            &&& before is Some && 0 <= j < contexts.len() && cargo_check::locations(
                text::lines(stderr),
                text::lines(stderr).len() as int,
            ).len() > 0 ==> text::has_text(out.content, contexts[j])
        }),
{
    let lines = relevant_lines(stderr);
    let shown = text::join(lines, "\n"@);
    let out = checked(r, name, path, before, false, stderr, contexts, mode);
    let context = context_part(stderr, contexts);
    let todo = action_part(shown, mode);
    let errors = cargo_check::error_count(false, stderr);
    let head = "\n["@ + name + "]"@;
    text::parts_are_found(lines, "\n"@, i);
    assert(out.content.subrange(0, r.content.len() as int) =~= r.content);
    match before {
        None => {
            let front = head + " WARNING: "@ + number::dec(lines.len())
                + " line(s) reported for newly-created "@ + path
                + " — fix before relying on this file\n"@;
            text::found_in_either(front, shown, lines[i]);
            text::found_in_either(r.content, front + shown, lines[i]);
        },
        Some(n) => {
            let front = if errors <= n {
                head + " OK ("@ + number::dec(errors) + " pre-existing error(s) in "@ + path
                    + ", unchanged by this edit)\n"@
            } else {
                head + "\n"@
            };
            let end = if errors <= n {
                Seq::empty()
            } else {
                todo
            };
            let body = front + shown + context + end;
            assert(out.content =~= r.content + body);
            text::found_in_either(front, shown, lines[i]);
            text::found_in_either(front + shown, context, lines[i]);
            text::found_in_either(front + shown + context, end, lines[i]);
            text::found_in_either(r.content, body, lines[i]);
            if 0 <= j < contexts.len() && cargo_check::locations(
                text::lines(stderr),
                text::lines(stderr).len() as int,
            ).len() > 0 {
                let all = concatenated(contexts, contexts.len() as int);
                lemma_concatenated(contexts, contexts.len() as int, j);
                text::found_in_either("\n[source context]\n"@, all, contexts[j]);
                text::found_in_either(front + shown, context, contexts[j]);
                text::found_in_either(front + shown + context, end, contexts[j]);
                text::found_in_either(r.content, body, contexts[j]);
            }
            if errors > n {
                let h = hints(shown, mode);
                if h.len() > 0 {
                    text::found_in_either("\n[action needed]\n"@, h, h);
                    text::found_in_either(front + shown + context, end, h);
                    text::found_in_either(r.content, body, h);
                } else {
                    assert(out.content.subrange(0, 0) =~= h);
                    assert(text::occurs_at(out.content, h, 0));
                }
            }
        },
    }
}

} // verus!
