//! What is told of definitions, references, diagnostics and the project.
use vstd::prelude::*;

use crate::edit_file::validate::{Diagnostic, DiagnosticView, Severity};
use crate::number;
use crate::number::{dec_text, dec_text_u128};
use crate::text;
use crate::text::{
    contains_text, count_lines, joined, split_lines, split_words, trimmed, without_prefix,
};
use crate::tool;
use crate::tool::{ToolResult, ToolView};

verus! {

/// The most lines of diagnostics that are shown.
pub const MAX_DIAGNOSTIC_LINES: usize = 10;

/// What is answered where no language server can be asked.
pub const NO_SERVER: &'static str = "LSP not available. Use file(action='search') instead.";

/// What is answered where the project has no index.
pub const NO_INDEX: &'static str = "No project index. Run `miniswe init` first.";

/// What is answered where the project has no architecture notes.
pub const NO_NOTES: &'static str = "No architecture notes found (.ai/README.md does not exist).";

/// The diagnostics of a file.
#[derive(Debug)]
pub struct FileDiagnostics {
    pub uri: String,
    pub diagnostics: Vec<Diagnostic>,
}

/// The diagnostics of a file over texts.
pub struct FileDiagnosticsView {
    pub uri: Seq<char>,
    pub diagnostics: Seq<DiagnosticView>,
}

impl DeepView for FileDiagnostics {
    type V = FileDiagnosticsView;

    open spec fn deep_view(&self) -> FileDiagnosticsView {
        FileDiagnosticsView { uri: self.uri@, diagnostics: self.diagnostics.deep_view() }
    }
}

/// What a serious diagnostic is called.
pub open spec fn severity_name(s: Option<Severity>) -> Option<Seq<char>> {
    match s {
        Some(Severity::Error) => Some("error"@),
        Some(Severity::Warning) => Some("warning"@),
        _ => None,
    }
}

/// A file's address as it is shown.
pub open spec fn shown_path(uri: Seq<char>) -> Seq<char> {
    match text::strip_prefix(uri, "file://"@) {
        Some(p) => p,
        None => uri,
    }
}

/// One diagnostic, if it is serious enough to be shown.
pub open spec fn diagnostic_line(uri: Seq<char>, d: DiagnosticView) -> Seq<char> {
    match severity_name(d.severity) {
        None => Seq::empty(),
        Some(name) => shown_path(uri) + ":"@ + number::dec((d.line + 1) as nat) + ":"@
            + number::dec((d.character + 1) as nat) + ": "@ + name + ": "@ + d.message + "\n"@,
    }
}

/// The first `n` diagnostics of a file.
pub open spec fn file_lines(f: FileDiagnosticsView, n: int) -> Seq<char>
    decreases n,
{
    if n <= 0 {
        Seq::empty()
    } else {
        file_lines(f, n - 1) + diagnostic_line(f.uri, f.diagnostics[n - 1])
    }
}

/// The diagnostics of the first `n` files.
pub open spec fn project_lines(fs: Seq<FileDiagnosticsView>, n: int) -> Seq<char>
    decreases n,
{
    if n <= 0 {
        Seq::empty()
    } else {
        project_lines(fs, n - 1) + file_lines(fs[n - 1], fs[n - 1].diagnostics.len() as int)
    }
}

/// How many of the first `n` diagnostics have a severity.
pub open spec fn severity_count(ds: Seq<DiagnosticView>, s: Severity, n: int) -> nat
    decreases n,
{
    if n <= 0 {
        0
    } else {
        severity_count(ds, s, n - 1) + (if ds[n - 1].severity == Some(s) {
            1nat
        } else {
            0nat
        })
    }
}

/// How many diagnostics of the first `n` files have a severity.
pub open spec fn project_count(fs: Seq<FileDiagnosticsView>, s: Severity, n: int) -> nat
    decreases n,
{
    if n <= 0 {
        0
    } else {
        project_count(fs, s, n - 1) + severity_count(
            fs[n - 1].diagnostics,
            s,
            fs[n - 1].diagnostics.len() as int,
        )
    }
}

/// The first lines of a text, at most `limit` of them.
pub open spec fn first_lines(s: Seq<char>, limit: nat) -> Seq<char> {
    let ls = text::lines(s);
    text::join(
        if ls.len() <= limit {
            ls
        } else {
            ls.take(limit as int)
        },
        "\n"@,
    )
}

/// What is answered on the diagnostics of a project. It went well where there is
/// no error.
pub open spec fn diagnostics_report(fs: Seq<FileDiagnosticsView>) -> ToolView {
    let all = project_lines(fs, fs.len() as int);
    let errors = project_count(fs, Severity::Error, fs.len() as int);
    let warnings = project_count(fs, Severity::Warning, fs.len() as int);
    if all.len() == 0 {
        tool::ok_view("[lsp] No errors or warnings"@)
    } else {
        let shown = first_lines(all, MAX_DIAGNOSTIC_LINES as nat);
        ToolView {
            content: "[lsp] "@ + number::dec(errors) + " error(s), "@ + number::dec(warnings)
                + " warning(s)"@ + (if text::lines(all).len() > text::lines(shown).len() {
                " (showing first "@ + number::dec(text::lines(shown).len()) + ")"@
            } else {
                Seq::empty()
            }) + "\n"@ + shown,
            success: errors == 0,
        }
    }
}

fn render_diagnostic(uri: &str, d: &Diagnostic) -> (r: String)
    ensures
        r@ == diagnostic_line(uri@, d.deep_view()),
{
    let name = match d.severity {
        Some(Severity::Error) => "error",
        Some(Severity::Warning) => "warning",
        _ => {
            return String::new();
        },
    };
    let path = match without_prefix(uri, "file://") {
        Some(p) => p,
        None => uri.to_owned(),
    };
    path.concat(":").concat(&dec_text_u128(d.line as u128 + 1)).concat(":").concat(
        &dec_text_u128(d.character as u128 + 1),
    ).concat(": ").concat(name).concat(": ").concat(&d.message).concat("\n")
}

fn render_file(f: &FileDiagnostics) -> (r: String)
    ensures
        r@ == file_lines(f.deep_view(), f.diagnostics@.len() as int),
{
    let ghost fv = f.deep_view();
    let mut out = String::new();
    let mut i: usize = 0;
    while i < f.diagnostics.len()
        invariant
            i <= f.diagnostics@.len() == fv.diagnostics.len(),
            fv == f.deep_view(),
            out@ == file_lines(fv, i as int),
        decreases f.diagnostics.len() - i,
    {
        proof {
            assert(fv.diagnostics[i as int] == f.diagnostics@[i as int].deep_view());
        }
        out.append(&render_diagnostic(&f.uri, &f.diagnostics[i]));
        i += 1;
    }
    out
}

fn count_severity(ds: &Vec<Diagnostic>, s: Severity) -> (r: usize)
    ensures
        r == severity_count(ds.deep_view(), s, ds@.len() as int),
        r <= ds@.len(),
{
    let ghost dv = ds.deep_view();
    let mut count: usize = 0;
    let mut i: usize = 0;
    while i < ds.len()
        invariant
            i <= ds@.len() == dv.len(),
            dv == ds.deep_view(),
            count <= i,
            count == severity_count(dv, s, i as int),
        decreases ds.len() - i,
    {
        proof {
            assert(dv[i as int] == ds@[i as int].deep_view());
        }
        match ds[i].severity {
            Some(x) => {
                if x == s {
                    count += 1;
                }
            },
            None => {},
        }
        i += 1;
    }
    count
}

/// Answers with the diagnostics of a project.
pub fn report_diagnostics(files: &Vec<FileDiagnostics>) -> (r: ToolResult)
    ensures
        r.deep_view() == diagnostics_report(files.deep_view()),
{
    let ghost fv = files.deep_view();
    let mut out = String::new();
    let mut errors: u128 = 0;
    let mut warnings: u128 = 0;
    let mut i: usize = 0;
    proof {
        assert(files@.len() == fv.len());
    }
    while i < files.len()
        invariant
            i <= files@.len() == fv.len(),
            fv == files.deep_view(),
            out@ == project_lines(fv, i as int),
            errors == project_count(fv, Severity::Error, i as int),
            warnings == project_count(fv, Severity::Warning, i as int),
            errors <= i * usize::MAX,
            warnings <= i * usize::MAX,
        decreases files.len() - i,
    {
        let f = &files[i];
        proof {
            assert(fv[i as int] == f.deep_view());
            assert(f.diagnostics@.len() == f.diagnostics.deep_view().len());
            assert((i + 1) * usize::MAX == i * usize::MAX + usize::MAX) by (nonlinear_arith);
            assert((i + 1) * usize::MAX <= usize::MAX * usize::MAX) by (nonlinear_arith)
                requires
                    i + 1 <= usize::MAX,
            ;
            assert(usize::MAX * usize::MAX < u128::MAX) by (nonlinear_arith)
                requires
                    usize::MAX <= 0xffff_ffff_ffff_ffff,
            ;
        }
        out.append(&render_file(f));
        errors += count_severity(&f.diagnostics, Severity::Error) as u128;
        warnings += count_severity(&f.diagnostics, Severity::Warning) as u128;
        i += 1;
    }
    if out.as_str().is_empty() {
        return ToolResult::ok("[lsp] No errors or warnings".to_owned());
    }
    let mut lines = split_lines(&out);
    let ghost ls = lines.deep_view();
    let total: usize = lines.len();
    proof {
        assert(total == ls.len());
    }
    if total > MAX_DIAGNOSTIC_LINES {
        lines.truncate(MAX_DIAGNOSTIC_LINES);
        proof {
            assert(lines.deep_view() =~= ls.take(MAX_DIAGNOSTIC_LINES as int));
        }
    }
    let shown = joined(&lines, "\n");
    let shown_count: usize = count_lines(&shown);
    let hint = if total > shown_count {
        " (showing first ".to_owned().concat(&dec_text(shown_count)).concat(")")
    } else {
        String::new()
    };
    ToolResult {
        content: "[lsp] ".to_owned().concat(&dec_text_u128(errors)).concat(
            " error(s), ",
        ).concat(&dec_text_u128(warnings)).concat(" warning(s)").concat(&hint).concat("\n").concat(
            &shown,
        ),
        success: errors == 0,
    }
}

/// A place that a language server names. Line and character are numbered from 0.
#[derive(Debug)]
pub struct Site {
    /// The file as it is shown: its path, or its address where it has no path.
    pub shown: String,
    pub has_path: bool,
    pub line: u32,
    pub character: u32,
    /// What is shown of the file: the lines around a definition, or the line of a
    /// reference.
    pub context: Option<String>,
}

/// A place over texts.
pub struct SiteView {
    pub shown: Seq<char>,
    pub has_path: bool,
    pub line: u32,
    pub character: u32,
    pub context: Option<Seq<char>>,
}

impl DeepView for Site {
    type V = SiteView;

    open spec fn deep_view(&self) -> SiteView {
        SiteView {
            shown: self.shown@,
            has_path: self.has_path,
            line: self.line,
            character: self.character,
            context: self.context.deep_view(),
        }
    }
}

/// A definition, with the lines around it where its file has a path.
pub open spec fn definition_text(s: SiteView) -> Seq<char> {
    "Definition: "@ + s.shown + ":"@ + number::dec((s.line + 1) as nat) + ":"@ + number::dec(
        (s.character + 1) as nat,
    ) + "\n"@ + (match s.context {
        Some(c) => if s.has_path {
            c
        } else {
            Seq::empty()
        },
        None => Seq::empty(),
    })
}

/// The first `n` definitions.
pub open spec fn definitions_text(sites: Seq<SiteView>, n: int) -> Seq<char>
    decreases n,
{
    if n <= 0 {
        Seq::empty()
    } else {
        definitions_text(sites, n - 1) + definition_text(sites[n - 1])
    }
}

/// What is answered on the definition of a symbol.
pub open spec fn definition_report(sites: Seq<SiteView>) -> ToolView {
    if sites.len() == 0 {
        tool::ok_view("No definition found at this location."@)
    } else {
        tool::ok_view(definitions_text(sites, sites.len() as int))
    }
}

/// Answers with the definition of a symbol.
pub fn report_definitions(sites: &Vec<Site>) -> (r: ToolResult)
    ensures
        r.deep_view() == definition_report(sites.deep_view()),
{
    let ghost sv = sites.deep_view();
    proof {
        assert(sites@.len() == sv.len());
    }
    if sites.len() == 0 {
        return ToolResult::ok("No definition found at this location.".to_owned());
    }
    let mut out = String::new();
    let mut i: usize = 0;
    while i < sites.len()
        invariant
            i <= sites@.len() == sv.len(),
            sv == sites.deep_view(),
            out@ == definitions_text(sv, i as int),
        decreases sites.len() - i,
    {
        let s = &sites[i];
        proof {
            assert(sv[i as int] == s.deep_view());
        }
        let context = match &s.context {
            Some(c) => if s.has_path {
                c.clone()
            } else {
                String::new()
            },
            None => String::new(),
        };
        out.append(
            &"Definition: ".to_owned().concat(&s.shown).concat(":").concat(
                &dec_text_u128(s.line as u128 + 1),
            ).concat(":").concat(&dec_text_u128(s.character as u128 + 1)).concat("\n").concat(
                &context,
            ),
        );
        i += 1;
    }
    ToolResult::ok(out)
}

/// A reference, with its line where its file has a path.
pub open spec fn reference_text(s: SiteView) -> Seq<char> {
    "  "@ + s.shown + ":"@ + number::dec((s.line + 1) as nat) + (if s.has_path {
        ": "@ + (match s.context {
            Some(c) => c,
            None => Seq::empty(),
        })
    } else {
        Seq::empty()
    }) + "\n"@
}

/// The first `n` references.
pub open spec fn references_text(sites: Seq<SiteView>, n: int) -> Seq<char>
    decreases n,
{
    if n <= 0 {
        Seq::empty()
    } else {
        references_text(sites, n - 1) + reference_text(sites[n - 1])
    }
}

/// What is answered on the references to a symbol.
pub open spec fn reference_report(sites: Seq<SiteView>) -> ToolView {
    if sites.len() == 0 {
        tool::ok_view("No references found."@)
    } else {
        tool::ok_view(
            number::dec(sites.len()) + " reference(s) found:\n"@ + references_text(
                sites,
                sites.len() as int,
            ),
        )
    }
}

/// Answers with the references to a symbol.
pub fn report_references(sites: &Vec<Site>) -> (r: ToolResult)
    ensures
        r.deep_view() == reference_report(sites.deep_view()),
{
    let ghost sv = sites.deep_view();
    proof {
        assert(sites@.len() == sv.len());
    }
    if sites.len() == 0 {
        return ToolResult::ok("No references found.".to_owned());
    }
    let mut out = dec_text(sites.len()).concat(" reference(s) found:\n");
    let ghost head = out@;
    let mut i: usize = 0;
    proof {
        assert(out@ =~= head + references_text(sv, 0));
    }
    while i < sites.len()
        invariant
            i <= sites@.len() == sv.len(),
            sv == sites.deep_view(),
            out@ == head + references_text(sv, i as int),
        decreases sites.len() - i,
    {
        let s = &sites[i];
        proof {
            assert(sv[i as int] == s.deep_view());
        }
        let tail = if s.has_path {
            let line = match &s.context {
                Some(c) => c.clone(),
                None => String::new(),
            };
            ": ".to_owned().concat(&line)
        } else {
            String::new()
        };
        out.append(
            &"  ".to_owned().concat(&s.shown).concat(":").concat(
                &dec_text_u128(s.line as u128 + 1),
            ).concat(&tail).concat("\n"),
        );
        i += 1;
        proof {
            assert(out@ =~= head + references_text(sv, i as int));
        }
    }
    ToolResult::ok(out)
}

/// The line with index `line` of a file, without white space around it.
pub open spec fn line_of(content: Seq<char>, line: u32) -> Option<Seq<char>> {
    let ls = text::lines(content);
    if line < ls.len() {
        Some(text::trim(ls[line as int]))
    } else {
        None
    }
}

/// Reads the line of a reference.
pub fn reference_line(content: &str, line: u32) -> (r: Option<String>)
    ensures
        r.deep_view() == line_of(content@, line),
{
    let lines = split_lines(content);
    proof {
        assert(lines@.len() == lines.deep_view().len());
    }
    if (line as u64) < (lines.len() as u64) {
        proof {
            assert(lines.deep_view()[line as int] == lines@[line as int]@);
        }
        Some(trimmed(&lines[line as usize]))
    } else {
        None
    }
}

/// Answers with an error of the language server.
pub fn report_server_error(error: &str) -> (r: ToolResult)
    ensures
        r.deep_view() == tool::err_view("LSP error: "@ + error@),
{
    ToolResult::err("LSP error: ".to_owned().concat(error))
}

/// The words that a map of the project is made for.
pub fn map_keywords(keywords_str: &str) -> (r: Vec<String>)
    ensures
        r.deep_view() == text::words(keywords_str@),
{
    split_words(keywords_str)
}

/// What is answered with a map of the project.
pub open spec fn map_report(map: Seq<char>, files: usize, symbols: usize) -> ToolView {
    if map.len() == 0 {
        tool::ok_view("Repo map is empty (no indexed symbols)."@)
    } else {
        tool::ok_view(
            "Repo map ("@ + number::dec(files as nat) + " files indexed, "@ + number::dec(
                symbols as nat,
            ) + " symbols):\n"@ + map,
        )
    }
}

/// Answers with a map of the project.
pub fn report_map(map: &str, total_files: usize, total_symbols: usize) -> (r: ToolResult)
    ensures
        r.deep_view() == map_report(map@, total_files, total_symbols),
{
    if map.is_empty() {
        return ToolResult::ok("Repo map is empty (no indexed symbols).".to_owned());
    }
    ToolResult::ok(
        "Repo map (".to_owned().concat(&dec_text(total_files)).concat(
            " files indexed, ",
        ).concat(&dec_text(total_symbols)).concat(" symbols):\n").concat(map),
    )
}

/// Whether a document says more than the template that it began as.
pub open spec fn is_filled_in(content: Seq<char>, template: Seq<char>) -> bool {
    !text::has_text(content, template) || text::lines(content).len() > 5
}

/// A part of what is known of a project.
pub open spec fn section(head: Seq<char>, content: Option<Seq<char>>, template: Seq<char>) -> Seq<char> {
    match content {
        Some(c) => if is_filled_in(c, template) {
            head + c + "\n"@
        } else {
            Seq::empty()
        },
        None => Seq::empty(),
    }
}

/// What is answered on a project: its profile, its guide and its lessons, as far
/// as they are there and say more than their templates.
pub open spec fn project_report(
    profile: Option<Seq<char>>,
    guide: Option<Seq<char>>,
    lessons: Option<Seq<char>>,
) -> ToolView {
    let all = (match profile {
        Some(p) => "[PROFILE]\n"@ + p + "\n"@,
        None => Seq::empty(),
    }) + section("\n[GUIDE]\n"@, guide, "<!-- Add project-specific instructions"@) + section(
        "\n[LESSONS]\n"@,
        lessons,
        "<!-- Accumulated tips"@,
    );
    if all.len() == 0 {
        tool::ok_view("No project info available. Run `miniswe init` to generate."@)
    } else {
        tool::ok_view(all)
    }
}

/// A text that may be there, by its view.
pub open spec fn maybe_text(o: Option<&str>) -> Option<Seq<char>> {
    match o {
        Some(s) => Some(s@),
        None => None,
    }
}

fn render_section(head: &str, content: Option<&str>, template: &str) -> (r: String)
    ensures
        r@ == section(head@, maybe_text(content), template@),
{
    match content {
        Some(c) => {
            if !contains_text(c, template) || count_lines(c) > 5 {
                head.to_owned().concat(c).concat("\n")
            } else {
                String::new()
            }
        },
        None => String::new(),
    }
}

/// Answers with what is known of a project. The profile is given in its short
/// form.
pub fn report_project(profile: Option<&str>, guide: Option<&str>, lessons: Option<&str>) -> (r:
    ToolResult)
    ensures
        r.deep_view() == project_report(
            maybe_text(profile),
            maybe_text(guide),
            maybe_text(lessons),
        ),
{
    let first = match profile {
        Some(p) => "[PROFILE]\n".to_owned().concat(p).concat("\n"),
        None => String::new(),
    };
    let all = first.concat(
        &render_section("\n[GUIDE]\n", guide, "<!-- Add project-specific instructions"),
    ).concat(&render_section("\n[LESSONS]\n", lessons, "<!-- Accumulated tips"));
    if all.as_str().is_empty() {
        ToolResult::ok("No project info available. Run `miniswe init` to generate.".to_owned())
    } else {
        ToolResult::ok(all)
    }
}

/// Whether a project has a diagnostic of a severity.
pub open spec fn has_severity(fs: Seq<FileDiagnosticsView>, s: Severity) -> bool {
    exists|i: int, j: int|
        0 <= i < fs.len() && 0 <= j < fs[i].diagnostics.len()
            && #[trigger] fs[i].diagnostics[j].severity == Some(s)
}

proof fn lemma_severity_count(ds: Seq<DiagnosticView>, s: Severity, n: int)
    requires
        0 <= n <= ds.len(),
    ensures
        severity_count(ds, s, n) > 0 <==> exists|j: int|
            0 <= j < n && (#[trigger] ds[j]).severity == Some(s),
    decreases n,
{
    if n > 0 {
        lemma_severity_count(ds, s, n - 1);
        if ds[n - 1].severity == Some(s) {
            assert(severity_count(ds, s, n) > 0);
        }
    }
}

proof fn lemma_project_count(fs: Seq<FileDiagnosticsView>, s: Severity, n: int)
    requires
        0 <= n <= fs.len(),
    ensures
        project_count(fs, s, n) > 0 <==> exists|i: int, j: int|
            0 <= i < n && 0 <= j < fs[i].diagnostics.len()
                && #[trigger] fs[i].diagnostics[j].severity == Some(s),
    decreases n,
{
    if n > 0 {
        lemma_project_count(fs, s, n - 1);
        let ds = fs[n - 1].diagnostics;
        lemma_severity_count(ds, s, ds.len() as int);
        if severity_count(ds, s, ds.len() as int) > 0 {
            let j = choose|j: int| 0 <= j < ds.len() && (#[trigger] ds[j]).severity == Some(s);
            assert(fs[n - 1].diagnostics[j].severity == Some(s));
        }
        if project_count(fs, s, n - 1) > 0 {
            let (i, j) = choose|i: int, j: int|
                0 <= i < n - 1 && 0 <= j < fs[i].diagnostics.len()
                    && #[trigger] fs[i].diagnostics[j].severity == Some(s);
            assert(fs[i].diagnostics[j].severity == Some(s));
        }
        if exists|i: int, j: int|
            0 <= i < n && 0 <= j < fs[i].diagnostics.len()
                && #[trigger] fs[i].diagnostics[j].severity == Some(s) {
            let (i, j) = choose|i: int, j: int|
                0 <= i < n && 0 <= j < fs[i].diagnostics.len()
                    && #[trigger] fs[i].diagnostics[j].severity == Some(s);
            if i == n - 1 {
                assert(ds[j].severity == Some(s));
            } else {
                assert(fs[i].diagnostics[j].severity == Some(s));
            }
        }
    }
}

proof fn lemma_no_file_lines(f: FileDiagnosticsView, n: int)
    requires
        0 <= n <= f.diagnostics.len(),
    ensures
        file_lines(f, n).len() == 0 <==> forall|j: int|
            0 <= j < n ==> (#[trigger] f.diagnostics[j]).severity != Some(Severity::Error)
                && f.diagnostics[j].severity != Some(Severity::Warning),
    decreases n,
{
    if n > 0 {
        lemma_no_file_lines(f, n - 1);
        let d = f.diagnostics[n - 1];
        reveal_strlit("\n");
        assert(diagnostic_line(f.uri, d).len() == 0 <==> severity_name(d.severity) is None);
    }
}

proof fn lemma_no_lines(fs: Seq<FileDiagnosticsView>, n: int)
    requires
        0 <= n <= fs.len(),
    ensures
        project_lines(fs, n).len() == 0 <==> forall|i: int, j: int|
            0 <= i < n && 0 <= j < fs[i].diagnostics.len() ==> (
            #[trigger] fs[i].diagnostics[j]).severity != Some(Severity::Error)
                && fs[i].diagnostics[j].severity != Some(Severity::Warning),
    decreases n,
{
    if n > 0 {
        lemma_no_lines(fs, n - 1);
        let f = fs[n - 1];
        lemma_no_file_lines(f, f.diagnostics.len() as int);
        if project_lines(fs, n).len() == 0 {
            assert forall|i: int, j: int| 0 <= i < n && 0 <= j < fs[i].diagnostics.len() implies (
            #[trigger] fs[i].diagnostics[j]).severity != Some(Severity::Error)
                && fs[i].diagnostics[j].severity != Some(Severity::Warning) by {
                if i == n - 1 {
                    assert(f.diagnostics[j].severity != Some(Severity::Error));
                }
            }
        }
        if forall|i: int, j: int|
            0 <= i < n && 0 <= j < fs[i].diagnostics.len() ==> (
            #[trigger] fs[i].diagnostics[j]).severity != Some(Severity::Error)
                && fs[i].diagnostics[j].severity != Some(Severity::Warning) {
            assert forall|j: int| 0 <= j < f.diagnostics.len() implies (
            #[trigger] f.diagnostics[j]).severity != Some(Severity::Error)
                && f.diagnostics[j].severity != Some(Severity::Warning) by {
                assert(fs[n - 1].diagnostics[j].severity != Some(Severity::Error));
            }
        }
    }
}

/// The diagnostics of a project are a success exactly where none of them is an error, and
/// there is nothing to tell exactly where none is an error or a warning.
pub proof fn errors_make_diagnostics_fail(fs: Seq<FileDiagnosticsView>)
    ensures
        diagnostics_report(fs).success <==> !has_severity(fs, Severity::Error),
        !has_severity(fs, Severity::Error) && !has_severity(fs, Severity::Warning)
            ==> diagnostics_report(fs).content == "[lsp] No errors or warnings"@,
{
    let n = fs.len() as int;
    lemma_project_count(fs, Severity::Error, n);
    lemma_no_lines(fs, n);
    if has_severity(fs, Severity::Error) {
        let (i, j) = choose|i: int, j: int|
            0 <= i < fs.len() && 0 <= j < fs[i].diagnostics.len()
                && #[trigger] fs[i].diagnostics[j].severity == Some(Severity::Error);
        assert(fs[i].diagnostics[j].severity == Some(Severity::Error));
    }
    if !has_severity(fs, Severity::Error) && !has_severity(fs, Severity::Warning) {
        assert forall|i: int, j: int| 0 <= i < n && 0 <= j < fs[i].diagnostics.len() implies (
        #[trigger] fs[i].diagnostics[j]).severity != Some(Severity::Error)
            && fs[i].diagnostics[j].severity != Some(Severity::Warning) by {
            assert(fs[i].diagnostics[j].severity != Some(Severity::Error));
        }
    }
}

/// A diagnostic is shown where it is an error or a warning, with its line and column
/// numbered from 1, what it is called, and its message.
pub proof fn serious_diagnostics_are_shown(path: Seq<char>, d: DiagnosticView)
    ensures
        d.severity == Some(Severity::Error) ==> diagnostic_line("file://"@ + path, d) == path
            + ":"@ + number::dec((d.line + 1) as nat) + ":"@ + number::dec(
            (d.character + 1) as nat,
        ) + ": error: "@ + d.message + "\n"@,
        d.severity == Some(Severity::Warning) ==> diagnostic_line("file://"@ + path, d) == path
            + ":"@ + number::dec((d.line + 1) as nat) + ":"@ + number::dec(
            (d.character + 1) as nat,
        ) + ": warning: "@ + d.message + "\n"@,
        d.severity != Some(Severity::Error) && d.severity != Some(Severity::Warning)
            ==> diagnostic_line("file://"@ + path, d).len() == 0,
{
    let uri = "file://"@ + path;
    let n = "file://"@.len() as int;
    assert(uri.subrange(0, n) =~= "file://"@);
    assert(uri.subrange(n, uri.len() as int) =~= path);
    reveal_strlit(": ");
    reveal_strlit("error");
    reveal_strlit("warning");
    reveal_strlit(": error: ");
    reveal_strlit(": warning: ");
    let head = path + ":"@ + number::dec((d.line + 1) as nat) + ":"@ + number::dec(
        (d.character + 1) as nat,
    );
    assert(": "@ + "error"@ + ": "@ =~= ": error: "@);
    assert(": "@ + "warning"@ + ": "@ =~= ": warning: "@);
    assert(head + ": "@ + "error"@ + ": "@ =~= head + (": "@ + "error"@ + ": "@));
    assert(head + ": "@ + "warning"@ + ": "@ =~= head + (": "@ + "warning"@ + ": "@));
}

proof fn lemma_definitions(sites: Seq<SiteView>, n: int, i: int)
    requires
        0 <= i < n <= sites.len(),
    ensures
        text::has_text(definitions_text(sites, n), definition_text(sites[i])),
    decreases n,
{
    if i < n - 1 {
        lemma_definitions(sites, n - 1, i);
    }
    text::found_in_either(
        definitions_text(sites, n - 1),
        definition_text(sites[n - 1]),
        definition_text(sites[i]),
    );
}

/// The answer on a definition names the place of each, with line and column numbered from
/// 1, and where its file has a path goes on with the lines around it.
pub proof fn definitions_are_named(sites: Seq<SiteView>, i: int)
    requires
        0 <= i < sites.len(),
    ensures
        text::has_text(
            definition_report(sites).content,
            "Definition: "@ + sites[i].shown + ":"@ + number::dec((sites[i].line + 1) as nat)
                + ":"@ + number::dec((sites[i].character + 1) as nat) + "\n"@ + (match (
                sites[i].context,
                sites[i].has_path,
            ) {
                (Some(c), true) => c,
                _ => Seq::empty(),
            }),
        ),
        definition_report(sites).success,
{
    lemma_definitions(sites, sites.len() as int, i);
}

proof fn lemma_references(sites: Seq<SiteView>, n: int, i: int)
    requires
        0 <= i < n <= sites.len(),
    ensures
        text::has_text(references_text(sites, n), reference_text(sites[i])),
    decreases n,
{
    if i < n - 1 {
        lemma_references(sites, n - 1, i);
    }
    text::found_in_either(
        references_text(sites, n - 1),
        reference_text(sites[n - 1]),
        reference_text(sites[i]),
    );
}

/// The answer on references tells how many there are and names the place of each, with its
/// line numbered from 1, and its text where its file has a path.
pub proof fn references_are_named(sites: Seq<SiteView>, i: int)
    requires
        0 <= i < sites.len(),
    ensures
        text::has_text(
            reference_report(sites).content,
            "  "@ + sites[i].shown + ":"@ + number::dec((sites[i].line + 1) as nat) + (match (
                sites[i].context,
                sites[i].has_path,
            ) {
                (Some(c), true) => ": "@ + c,
                (None, true) => ": "@ + Seq::empty(),
                _ => Seq::empty(),
            }) + "\n"@,
        ),
        text::starts_with(
            reference_report(sites).content,
            number::dec(sites.len()) + " reference(s) found:\n"@,
        ),
        reference_report(sites).success,
{
    let n = sites.len() as int;
    let head = number::dec(sites.len()) + " reference(s) found:\n"@;
    lemma_references(sites, n, i);
    text::found_in_either(head, references_text(sites, n), reference_text(sites[i]));
    assert((head + references_text(sites, n)).subrange(0, head.len() as int) =~= head);
}

/// A map of the project is shown whole behind the numbers of files and symbols; a map
/// without text is told to be empty.
pub proof fn map_is_shown(map: Seq<char>, files: usize, symbols: usize)
    ensures
        map_report(map, files, symbols).success,
        map.len() > 0 ==> map_report(map, files, symbols).content == "Repo map ("@ + number::dec(
            files as nat,
        ) + " files indexed, "@ + number::dec(symbols as nat) + " symbols):\n"@ + map,
        map.len() == 0 ==> !text::has_text(map_report(map, files, symbols).content, "files"@),
{
    reveal_strlit("files");
    reveal_strlit("Repo map is empty (no indexed symbols).");
    let e = "Repo map is empty (no indexed symbols)."@;
    if text::has_text(e, "files"@) {
        let k = choose|k: int| text::occurs_at(e, "files"@, k);
        let t = e.subrange(k, k + 5);
        assert(t[0] == e[k] && t[1] == e[k + 1]);
        assert(t[0] == 'f');
    }
}

/// What is known of a project is shown: the profile as it is, the guide and the lessons as
/// they are where they do not hold their template or are longer than five lines, and not
/// at all where they are short and hold it.
pub proof fn project_parts_are_shown(
    profile: Option<Seq<char>>,
    guide: Option<Seq<char>>,
    lessons: Option<Seq<char>>,
)
    ensures
        project_report(profile, guide, lessons).success,
        profile matches Some(p) ==> text::has_text(
            project_report(profile, guide, lessons).content,
            "[PROFILE]\n"@ + p + "\n"@,
        ),
        guide matches Some(g) ==> (!text::has_text(g, "<!-- Add project-specific instructions"@)
            || text::lines(g).len() > 5 ==> text::has_text(
            project_report(profile, guide, lessons).content,
            "\n[GUIDE]\n"@ + g + "\n"@,
        )),
        lessons matches Some(l) ==> (!text::has_text(l, "<!-- Accumulated tips"@) || text::lines(
            l,
        ).len() > 5 ==> text::has_text(
            project_report(profile, guide, lessons).content,
            "\n[LESSONS]\n"@ + l + "\n"@,
        )),
        (guide matches Some(g) ==> text::has_text(g, "<!-- Add project-specific instructions"@)
            && text::lines(g).len() <= 5) && (lessons matches Some(l) ==> text::has_text(
            l,
            "<!-- Accumulated tips"@,
        ) && text::lines(l).len() <= 5) ==> project_report(profile, guide, lessons).content == (
        match profile {
            Some(p) => "[PROFILE]\n"@ + p + "\n"@,
            None => "No project info available. Run `miniswe init` to generate."@,
        }),
{
    reveal_strlit("\n");
    let a = match profile {
        Some(p) => "[PROFILE]\n"@ + p + "\n"@,
        None => Seq::empty(),
    };
    let b = section("\n[GUIDE]\n"@, guide, "<!-- Add project-specific instructions"@);
    let c = section("\n[LESSONS]\n"@, lessons, "<!-- Accumulated tips"@);
    text::found_in_either(a, b, a);
    text::found_in_either(a + b, c, a);
    text::found_in_either(a, b, b);
    text::found_in_either(a + b, c, b);
    text::found_in_either(a + b, c, c);
    if b.len() == 0 && c.len() == 0 {
        assert(a + b + c =~= a);
    }
}

/// The line of a reference is that line of the file without the white space around it, and
/// there is none behind the end of the file.
pub proof fn reference_lines_are_lines(content: Seq<char>, line: u32)
    ensures
        line_of(content, line) is Some <==> (line as int) < text::lines(content).len(),
        line_of(content, line) matches Some(s) ==> s == text::trim(
            text::lines(content)[line as int],
        ),
{
}

} // verus!
