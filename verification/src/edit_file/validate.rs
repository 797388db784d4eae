//! Gates that an edited file passes before it is written.
use vstd::prelude::*;

use super::repair::{ErrorView, LspErrorLocation, LspRegression, RegressionView, MAX_REGRESSION_ERRORS};
use crate::args;
use crate::args::read_field;
use crate::args::{ArgValue, ArgView};
use crate::number;
use crate::number::{dec_text, dec_text_u128};
use crate::text;
use crate::text::{contains_text, count_lines, same_text};

verus! {

/// Files of more lines than this are guarded against being cut short.
pub const LARGE_TRUNCATION_MIN_LINES: usize = 50;

/// How many lines a literal replacement may have, given how much the model can
/// hold.
pub open spec fn literal_limit(context_window: usize) -> usize {
    if context_window <= 32_000 {
        8
    } else if context_window <= 64_000 {
        12
    } else if context_window <= 128_000 {
        20
    } else if context_window <= 256_000 {
        32
    } else {
        48
    }
}

/// How many lines a literal replacement may have.
pub fn max_literal_replace_lines(context_window: usize) -> (r: usize)
    ensures
        r == literal_limit(context_window),
{
    if context_window <= 32_000 {
        8
    } else if context_window <= 64_000 {
        12
    } else if context_window <= 128_000 {
        20
    } else if context_window <= 256_000 {
        32
    } else {
        48
    }
}

/// Whether an edit is checked for errors.
#[derive(Debug, Clone, Copy, PartialEq, Eq, Structural)]
pub enum LspValidationMode {
    /// Where a checker is at hand.
    Auto,
    /// Always; without a checker the edit fails.
    Require,
    /// Never.
    Off,
}

/// The name of a mode.
pub open spec fn mode_name(mode: LspValidationMode) -> Seq<char> {
    match mode {
        LspValidationMode::Auto => "auto"@,
        LspValidationMode::Require => "require"@,
        LspValidationMode::Off => "off"@,
    }
}

/// The mode that a value asks for; without a text it is `auto`.
pub open spec fn mode_of(v: ArgView) -> Result<LspValidationMode, Seq<char>> {
    let name = args::text_or(v, "auto"@);
    if name == "auto"@ {
        Ok(LspValidationMode::Auto)
    } else if name == "require"@ {
        Ok(LspValidationMode::Require)
    } else if name == "off"@ {
        Ok(LspValidationMode::Off)
    } else {
        Err("Invalid lsp_validation: "@ + name + ". Expected one of: auto, require, off"@)
    }
}

/// A mode with its message taken by its view.
pub open spec fn mode_view(r: Result<LspValidationMode, String>) -> Result<
    LspValidationMode,
    Seq<char>,
> {
    match r {
        Ok(m) => Ok(m),
        Err(e) => Err(e@),
    }
}

impl LspValidationMode {
    /// The mode that a value asks for, as it was read.
    pub fn from_value(v: ArgValue) -> (r: Result<LspValidationMode, String>)
        ensures
            mode_view(r) == mode_of(v.deep_view()),
    {
        let name = match v {
            ArgValue::Text(s) => s,
            _ => "auto".to_owned(),
        };
        if same_text(&name, "auto") {
            Ok(LspValidationMode::Auto)
        } else if same_text(&name, "require") {
            Ok(LspValidationMode::Require)
        } else if same_text(&name, "off") {
            Ok(LspValidationMode::Off)
        } else {
            Err(
                "Invalid lsp_validation: ".to_owned().concat(&name).concat(
                    ". Expected one of: auto, require, off",
                ),
            )
        }
    }

    /// The mode that the argument `lsp_validation` asks for.
    pub fn from_args(args: &serde_json::Value) -> (r: Result<LspValidationMode, String>)
        ensures
            mode_view(r) == mode_of(args::field(*args, "lsp_validation"@)),
    {
        LspValidationMode::from_value(read_field(args, "lsp_validation"))
    }

    /// The name of the mode.
    pub fn as_str(self) -> (r: &'static str)
        ensures
            r@ == mode_name(self),
    {
        match self {
            LspValidationMode::Auto => "auto",
            LspValidationMode::Require => "require",
            LspValidationMode::Off => "off",
        }
    }
}

/// Whether an edit empties a file.
pub fn validate_candidate(original: &str, candidate: &str) -> (r: Result<(), String>)
    ensures
        text::result_view(r) == candidate_verdict(original@, candidate@),
{
    if !original.is_empty() && candidate.is_empty() {
        return Err("candidate output is empty for a non-empty file".to_owned());
    }
    Ok(())
}

/// An edit must not empty a file.
pub open spec fn candidate_verdict(original: Seq<char>, candidate: Seq<char>) -> Result<
    (),
    Seq<char>,
> {
    if original.len() > 0 && candidate.len() == 0 {
        Err("candidate output is empty for a non-empty file"@)
    } else {
        Ok(())
    }
}

/// Whether an edit cuts a large file to less than half its lines.
pub open spec fn cuts_short(original: Seq<char>, candidate: Seq<char>) -> bool {
    let before = text::lines(original).len();
    before > LARGE_TRUNCATION_MIN_LINES && text::lines(candidate).len() < before / 2
}

/// The file and how many lines it had and would have.
pub open spec fn shrink_text(path: Seq<char>, original: Seq<char>, candidate: Seq<char>) -> Seq<char> {
    path + " from "@ + number::dec(text::lines(original).len()) + " to "@ + number::dec(
        text::lines(candidate).len(),
    ) + " lines"@
}

fn shrink_message(path: &str, original: &str, candidate: &str) -> (r: String)
    ensures
        r@ == shrink_text(path@, original@, candidate@),
{
    path.to_owned().concat(" from ").concat(&dec_text(count_lines(original))).concat(" to ").concat(
        &dec_text(count_lines(candidate)),
    ).concat(" lines")
}

fn is_cut_short(original: &str, candidate: &str) -> (r: bool)
    ensures
        r == cuts_short(original@, candidate@),
{
    let before: usize = count_lines(original);
    before > LARGE_TRUNCATION_MIN_LINES && count_lines(candidate) < before / 2
}

/// The question to put to the user before a large file is cut short; `None`
/// where nothing is to be asked.
pub fn truncation_question(path_str: &str, original: &str, candidate: &str) -> (r: Option<String>)
    ensures
        r.deep_view() == (if cuts_short(original@, candidate@) {
            Some(
                "\x1b[1;33medit_file wants to shrink "@ + shrink_text(
                    path_str@,
                    original@,
                    candidate@,
                ) + ".\x1b[0m\n  Is this intentional? [y]es / [n]o: "@,
            )
        } else {
            None
        }),
{
    if is_cut_short(original, candidate) {
        Some(
            "\x1b[1;33medit_file wants to shrink ".to_owned().concat(
                &shrink_message(path_str, original, candidate),
            ).concat(".\x1b[0m\n  Is this intentional? [y]es / [n]o: "),
        )
    } else {
        None
    }
}

/// Whether an edit passes the guard against being cut short; `confirmed` is
/// what the user said, where there was one to ask.
pub open spec fn truncation_verdict(
    path: Seq<char>,
    original: Seq<char>,
    candidate: Seq<char>,
    confirmed: bool,
) -> Result<(), Seq<char>> {
    if cuts_short(original, candidate) && !confirmed {
        Err("candidate truncates "@ + shrink_text(path, original, candidate))
    } else {
        Ok(())
    }
}

/// Guards a large file against being cut short.
pub fn gate_truncation(path_str: &str, original: &str, candidate: &str, confirmed: bool) -> (r:
    Result<(), String>)
    ensures
        text::result_view(r) == truncation_verdict(path_str@, original@, candidate@, confirmed),
{
    if is_cut_short(original, candidate) && !confirmed {
        return Err(
            "candidate truncates ".to_owned().concat(
                &shrink_message(path_str, original, candidate),
            ),
        );
    }
    Ok(())
}

/// How serious a diagnostic is.
#[derive(Debug, Clone, Copy, PartialEq, Eq, Structural)]
pub enum Severity {
    Error,
    Warning,
    Information,
    Hint,
}

/// One diagnostic. Line and character are numbered from 0.
#[derive(Debug)]
pub struct Diagnostic {
    pub line: u32,
    pub character: u32,
    pub severity: Option<Severity>,
    pub message: String,
}

/// A diagnostic over texts.
pub struct DiagnosticView {
    pub line: u32,
    pub character: u32,
    pub severity: Option<Severity>,
    pub message: Seq<char>,
}

impl DeepView for Diagnostic {
    type V = DiagnosticView;

    open spec fn deep_view(&self) -> DiagnosticView {
        DiagnosticView {
            line: self.line,
            character: self.character,
            severity: self.severity,
            message: self.message@,
        }
    }
}

impl Clone for Diagnostic {
    fn clone(&self) -> (r: Diagnostic)
        ensures
            r.deep_view() == self.deep_view(),
    {
        Diagnostic {
            line: self.line,
            character: self.character,
            severity: self.severity,
            message: self.message.clone(),
        }
    }
}

/// The errors among the first `n` diagnostics.
pub open spec fn errors_among(ds: Seq<DiagnosticView>, n: int) -> Seq<DiagnosticView>
    decreases n,
{
    if n <= 0 {
        Seq::empty()
    } else if ds[n - 1].severity == Some(Severity::Error) {
        errors_among(ds, n - 1).push(ds[n - 1])
    } else {
        errors_among(ds, n - 1)
    }
}

/// The errors among some diagnostics.
pub open spec fn errors_of(ds: Seq<DiagnosticView>) -> Seq<DiagnosticView> {
    errors_among(ds, ds.len() as int)
}

/// Picks the errors.
pub fn error_diagnostics(diagnostics: &[Diagnostic]) -> (r: Vec<Diagnostic>)
    ensures
        r.deep_view() == errors_of(diagnostics.deep_view()),
{
    let ghost dv = diagnostics.deep_view();
    let mut out: Vec<Diagnostic> = Vec::new();
    let mut i: usize = 0;
    proof {
        assert(out.deep_view() =~= Seq::<DiagnosticView>::empty());
    }
    while i < diagnostics.len()
        invariant
            i <= diagnostics@.len() == dv.len(),
            dv == diagnostics.deep_view(),
            out.deep_view() == errors_among(dv, i as int),
        decreases diagnostics.len() - i,
    {
        let ghost o = out.deep_view();
        proof {
            assert(dv[i as int] == diagnostics@[i as int].deep_view());
        }
        let is_error = match diagnostics[i].severity {
            Some(s) => s == Severity::Error,
            None => false,
        };
        if is_error {
            out.push(diagnostics[i].clone());
            proof {
                assert(out.deep_view() =~= o.push(dv[i as int]));
            }
        }
        i += 1;
    }
    out
}

/// Where an error stands, numbered from 1.
pub open spec fn error_location(d: DiagnosticView) -> ErrorView {
    ErrorView {
        line: (d.line + 1) as usize,
        column: (d.character + 1) as usize,
        message: d.message,
    }
}

/// The regression that errors make: the first ones by name, the others by
/// number.
pub open spec fn regression_of(
    baseline_count: usize,
    errors: Seq<DiagnosticView>,
    candidate: Seq<char>,
) -> RegressionView {
    let n = if errors.len() > MAX_REGRESSION_ERRORS {
        MAX_REGRESSION_ERRORS as nat
    } else {
        errors.len()
    };
    RegressionView {
        baseline_count,
        errors: Seq::new(n, |i: int| error_location(errors[i])),
        extra_error_count: (errors.len() - n) as usize,
        candidate_content: candidate,
    }
}

/// Whether the places of the errors that are shown can be numbered from 1: on a machine
/// with small numbers, the last place cannot.
pub open spec fn places_fit(errors: Seq<DiagnosticView>) -> bool {
    forall|i: int|
        0 <= i < errors.len() && i < MAX_REGRESSION_ERRORS ==> (#[trigger] errors[i]).line
            < usize::MAX && errors[i].character < usize::MAX
}

/// Makes the regression of the errors of a candidate.
pub fn build_lsp_regression(
    baseline_count: usize,
    candidate_errors: &[Diagnostic],
    candidate_content: &str,
) -> (r: LspRegression)
    requires
        places_fit(candidate_errors.deep_view()),
    ensures
        r.deep_view() == regression_of(
            baseline_count,
            candidate_errors.deep_view(),
            candidate_content@,
        ),
{
    let ghost ev = candidate_errors.deep_view();
    let total: usize = candidate_errors.len();
    proof {
        assert(total == ev.len());
    }
    let n: usize = if total > MAX_REGRESSION_ERRORS {
        MAX_REGRESSION_ERRORS
    } else {
        total
    };
    let ghost wanted = Seq::new(n as nat, |i: int| error_location(ev[i]));
    let mut errors: Vec<LspErrorLocation> = Vec::new();
    let mut i: usize = 0;
    proof {
        assert(errors.deep_view() =~= wanted.take(0));
    }
    while i < n
        invariant
            i <= n <= candidate_errors@.len() == ev.len(),
            n <= MAX_REGRESSION_ERRORS,
            ev == candidate_errors.deep_view(),
            places_fit(ev),
            wanted == Seq::new(n as nat, |i: int| error_location(ev[i])),
            errors.deep_view() == wanted.take(i as int),
        decreases n - i,
    {
        let ghost o = errors.deep_view();
        let d = &candidate_errors[i];
        proof {
            assert(ev[i as int] == d.deep_view());
        }
        errors.push(
            LspErrorLocation {
                line: d.line as usize + 1,
                column: d.character as usize + 1,
                message: d.message.clone(),
            },
        );
        proof {
            assert(errors.deep_view() =~= o.push(wanted[i as int]));
            assert(wanted.take(i + 1) =~= o.push(wanted[i as int]));
        }
        i += 1;
    }
    proof {
        assert(wanted.take(n as int) =~= wanted);
    }
    LspRegression {
        baseline_count,
        errors,
        extra_error_count: total - n,
        candidate_content: candidate_content.to_owned(),
    }
}

/// Why an edit was turned down.
#[derive(Debug)]
pub enum ValidationError {
    /// There are more errors than before.
    LspRegression(LspRegression),
    /// Another reason.
    Other(String),
}

/// A validation error over texts.
pub enum ValidationView {
    LspRegression(RegressionView),
    Other(Seq<char>),
}

impl DeepView for ValidationError {
    type V = ValidationView;

    open spec fn deep_view(&self) -> ValidationView {
        match *self {
            ValidationError::LspRegression(reg) => ValidationView::LspRegression(reg.deep_view()),
            ValidationError::Other(e) => ValidationView::Other(e@),
        }
    }
}

/// The first `n` errors, one on a line.
pub open spec fn error_list(errors: Seq<ErrorView>, n: int) -> Seq<char>
    decreases n,
{
    if n <= 0 {
        Seq::empty()
    } else {
        error_list(errors, n - 1) + ("\nL"@ + number::dec(errors[n - 1].line as nat) + ":"@
            + number::dec(errors[n - 1].column as nat) + ": error: "@ + errors[n - 1].message)
    }
}

/// A regression in a few lines.
pub open spec fn regression_summary(reg: RegressionView) -> Seq<char> {
    let n = if reg.errors.len() > MAX_REGRESSION_ERRORS {
        MAX_REGRESSION_ERRORS as int
    } else {
        reg.errors.len() as int
    };
    let head = "LSP diagnostics worsened: "@ + number::dec(reg.baseline_count as nat) + " -> "@
        + number::dec(reg.total() as nat) + " error(s)"@ + error_list(reg.errors, n);
    if reg.extra_error_count > 0 {
        head + ("\n... and "@ + number::dec(reg.extra_error_count as nat) + " more error(s)"@)
    } else {
        head
    }
}

/// What a validation error says.
pub open spec fn validation_summary(e: ValidationView) -> Seq<char> {
    match e {
        ValidationView::LspRegression(reg) => regression_summary(reg),
        ValidationView::Other(e) => e,
    }
}

impl LspRegression {
    /// The regression in a few lines.
    pub fn summary(&self) -> (r: String)
        ensures
            r@ == regression_summary(self.deep_view()),
    {
        let ghost ev = self.errors.deep_view();
        proof {
            assert(self.errors@.len() == ev.len());
        }
        let total: u128 = self.errors.len() as u128 + self.extra_error_count as u128;
        let mut out = "LSP diagnostics worsened: ".to_owned().concat(
            &dec_text(self.baseline_count),
        ).concat(" -> ").concat(&dec_text_u128(total)).concat(" error(s)");
        let ghost head = out@;
        let n: usize = if self.errors.len() > MAX_REGRESSION_ERRORS {
            MAX_REGRESSION_ERRORS
        } else {
            self.errors.len()
        };
        let mut i: usize = 0;
        proof {
            assert(out@ =~= head + error_list(ev, 0));
        }
        while i < n
            invariant
                i <= n <= self.errors@.len() == ev.len(),
                ev == self.errors.deep_view(),
                out@ == head + error_list(ev, i as int),
            decreases n - i,
        {
            let e = &self.errors[i];
            proof {
                assert(ev[i as int] == e.deep_view());
            }
            out.append(
                &"\nL".to_owned().concat(&dec_text(e.line)).concat(":").concat(
                    &dec_text(e.column),
                ).concat(": error: ").concat(&e.message),
            );
            i += 1;
            proof {
                assert(out@ =~= head + error_list(ev, i as int));
            }
        }
        if self.extra_error_count > 0 {
            out.append(
                &"\n... and ".to_owned().concat(&dec_text(self.extra_error_count)).concat(
                    " more error(s)",
                ),
            );
        }
        out
    }
}

impl ValidationError {
    /// What the error says.
    pub fn summary(&self) -> (r: String)
        ensures
            r@ == validation_summary(self.deep_view()),
    {
        match self {
            ValidationError::LspRegression(reg) => reg.summary(),
            ValidationError::Other(e) => e.clone(),
        }
    }
}

/// Whether a checker is at hand.
#[derive(Debug, Clone, Copy, PartialEq, Eq, Structural)]
pub enum LspClientState {
    Absent,
    NotReady,
    Ready,
}

/// How a check for errors goes on.
#[derive(Debug)]
pub enum LspStep {
    /// It is over: with a note, or without.
    Passed(Option<String>),
    /// It is over, and the edit is turned down.
    Failed(String),
    /// The file is to be checked; this many errors it had before, where that is
    /// known.
    Check(Option<usize>),
}

/// A step of the check over texts.
pub enum LspStepView {
    Passed(Option<Seq<char>>),
    Failed(Seq<char>),
    Check(Option<usize>),
}

impl DeepView for LspStep {
    type V = LspStepView;

    open spec fn deep_view(&self) -> LspStepView {
        match *self {
            LspStep::Passed(note) => LspStepView::Passed(note.deep_view()),
            LspStep::Failed(e) => LspStepView::Failed(e@),
            LspStep::Check(n) => LspStepView::Check(n),
        }
    }
}

/// What follows where the check cannot be made: the edit fails where the check
/// is required, else it passes.
pub open spec fn without_check(mode: LspValidationMode, why: Seq<char>) -> LspStepView {
    if mode == LspValidationMode::Require {
        LspStepView::Failed(why)
    } else {
        LspStepView::Passed(None)
    }
}

/// How the check for errors begins.
pub open spec fn first_lsp_step(
    mode: LspValidationMode,
    client: LspClientState,
    baseline: Option<usize>,
) -> LspStepView {
    if mode == LspValidationMode::Off {
        LspStepView::Passed(Some("[lsp] skipped (off)"@))
    } else {
        match client {
            LspClientState::Absent => without_check(
                mode,
                "LSP validation required but no LSP client is available"@,
            ),
            LspClientState::NotReady => without_check(
                mode,
                "LSP validation required but LSP is not ready"@,
            ),
            LspClientState::Ready => LspStepView::Check(baseline),
        }
    }
}

/// Passes without a check, or fails where one is required.
fn skip_check(mode: LspValidationMode, why: String) -> (r: LspStep)
    ensures
        r.deep_view() == without_check(mode, why@),
{
    match mode {
        LspValidationMode::Require => LspStep::Failed(why),
        _ => LspStep::Passed(None),
    }
}

/// Begins the check for errors. `baseline` is how many errors the file had
/// before, where that was counted.
pub fn begin_lsp_check(
    mode: LspValidationMode,
    client: LspClientState,
    baseline: Option<usize>,
) -> (r: LspStep)
    ensures
        r.deep_view() == first_lsp_step(mode, client, baseline),
{
    match mode {
        LspValidationMode::Off => LspStep::Passed(Some("[lsp] skipped (off)".to_owned())),
        _ => match client {
            LspClientState::Absent => skip_check(
                mode,
                "LSP validation required but no LSP client is available".to_owned(),
            ),
            LspClientState::NotReady => skip_check(
                mode,
                "LSP validation required but LSP is not ready".to_owned(),
            ),
            LspClientState::Ready => LspStep::Check(baseline),
        },
    }
}

/// What follows the count of the errors before the edit.
pub open spec fn baseline_step(
    mode: LspValidationMode,
    measured: Result<Seq<DiagnosticView>, Seq<char>>,
) -> LspStepView {
    match measured {
        Ok(ds) => LspStepView::Check(Some(errors_of(ds).len() as usize)),
        Err(e) => without_check(mode, "LSP baseline diagnostics failed: "@ + e),
    }
}

/// Takes the diagnostics of the file before the edit.
pub fn take_lsp_baseline(mode: LspValidationMode, measured: Result<Vec<Diagnostic>, String>) -> (r:
    LspStep)
    ensures
        r.deep_view() == baseline_step(mode, text::result_view(measured)),
{
    match measured {
        Ok(ds) => {
            let errors = error_diagnostics(&ds);
            proof {
                assert(errors@.len() == errors.deep_view().len());
            }
            LspStep::Check(Some(errors.len()))
        },
        Err(e) => skip_check(mode, "LSP baseline diagnostics failed: ".to_owned().concat(&e)),
    }
}

/// The end of a check: whether the edit passes, and whether the file is to be
/// put back as it was.
#[derive(Debug)]
pub struct LspVerdict {
    pub result: Result<Option<String>, ValidationError>,
    pub restore: bool,
}

/// The end of a check over texts.
pub struct VerdictView {
    pub result: Result<Option<Seq<char>>, ValidationView>,
    pub restore: bool,
}

impl DeepView for LspVerdict {
    type V = VerdictView;

    open spec fn deep_view(&self) -> VerdictView {
        VerdictView {
            result: match self.result {
                Ok(note) => Ok(note.deep_view()),
                Err(e) => Err(e.deep_view()),
            },
            restore: self.restore,
        }
    }
}

/// How the check ends: an edit passes where it leaves no more errors than there
/// were. Where it does not, or could not be checked, the file is put back.
pub open spec fn lsp_verdict(
    mode: LspValidationMode,
    baseline: usize,
    measured: Result<Seq<DiagnosticView>, Seq<char>>,
    candidate: Seq<char>,
) -> VerdictView {
    match measured {
        Err(e) => VerdictView {
            result: if mode == LspValidationMode::Require {
                Err(ValidationView::Other("LSP candidate diagnostics failed: "@ + e))
            } else {
                Ok(None)
            },
            restore: true,
        },
        Ok(ds) => {
            let errors = errors_of(ds);
            if errors.len() > baseline {
                VerdictView {
                    result: Err(
                        ValidationView::LspRegression(regression_of(baseline, errors, candidate)),
                    ),
                    restore: true,
                }
            } else {
                VerdictView {
                    result: Ok(
                        Some(
                            "[lsp] OK ("@ + number::dec(baseline as nat) + " -> "@ + number::dec(
                                errors.len(),
                            ) + " error(s), mode="@ + mode_name(mode) + ")"@,
                        ),
                    ),
                    restore: false,
                }
            }
        },
    }
}

/// Whether the check can end with what was measured: where there are more errors than
/// there were, the places of those that are shown can be numbered from 1.
pub open spec fn can_finish(
    baseline: usize,
    measured: Result<Seq<DiagnosticView>, Seq<char>>,
) -> bool {
    measured matches Ok(ds) ==> errors_of(ds).len() > baseline ==> places_fit(errors_of(ds))
}

/// Tests whether the check can end with what was measured.
pub fn check_can_finish(baseline: usize, measured: &Result<Vec<Diagnostic>, String>) -> (r: bool)
    ensures
        r == can_finish(baseline, text::result_view(*measured)),
{
    let ds = match measured {
        Err(_) => {
            return true;
        },
        Ok(ds) => ds,
    };
    let errors = error_diagnostics(ds);
    let ghost ev = errors.deep_view();
    proof {
        assert(errors@.len() == ev.len());
    }
    if errors.len() <= baseline {
        return true;
    }
    let mut i: usize = 0;
    while i < errors.len() && i < MAX_REGRESSION_ERRORS
        invariant
            i <= errors@.len() == ev.len(),
            ev == errors.deep_view(),
            ev == errors_of(ds.deep_view()),
            text::result_view(*measured) == Ok::<Seq<DiagnosticView>, Seq<char>>(ds.deep_view()),
            ev.len() > baseline,
            forall|k: int|
                0 <= k < i ==> (#[trigger] ev[k]).line < usize::MAX && ev[k].character
                    < usize::MAX,
        decreases errors.len() - i,
    {
        proof {
            assert(ev[i as int] == errors@[i as int].deep_view());
        }
        if errors[i].line as usize == usize::MAX || errors[i].character as usize == usize::MAX {
            proof {
                assert(!places_fit(ev));
            }
            return false;
        }
        i += 1;
    }
    true
}

/// Takes the diagnostics of the edited file and ends the check.
pub fn finish_lsp_check(
    mode: LspValidationMode,
    baseline: usize,
    measured: Result<Vec<Diagnostic>, String>,
    candidate: &str,
) -> (r: LspVerdict)
    requires
        can_finish(baseline, text::result_view(measured)),
    ensures
        r.deep_view() == lsp_verdict(mode, baseline, text::result_view(measured), candidate@),
{
    match measured {
        Err(e) => {
            let result = match mode {
                LspValidationMode::Require => Err(
                    ValidationError::Other(
                        "LSP candidate diagnostics failed: ".to_owned().concat(&e),
                    ),
                ),
                _ => Ok(None),
            };
            LspVerdict { result, restore: true }
        },
        Ok(ds) => {
            let errors = error_diagnostics(&ds);
            proof {
                assert(errors@.len() == errors.deep_view().len());
            }
            if errors.len() > baseline {
                let regression = build_lsp_regression(baseline, &errors, candidate);
                return LspVerdict {
                    result: Err(ValidationError::LspRegression(regression)),
                    restore: true,
                };
            }
            let note = "[lsp] OK (".to_owned().concat(&dec_text(baseline)).concat(" -> ").concat(
                &dec_text(errors.len()),
            ).concat(" error(s), mode=").concat(mode.as_str()).concat(")");
            LspVerdict { result: Ok(Some(note)), restore: false }
        },
    }
}

/// Added to the feedback on a patch that does not fit the functions it calls.
pub const SIGNATURE_HINT: &'static str = "\nDo not repeat the same patch shape on the same lines. Re-check the current code before retrying and narrow the edit to only the lines that clearly need to change.";

/// Whether an error says that a call does not fit the function.
pub open spec fn is_mismatch(error: Seq<char>) -> bool {
    text::has_text(error, "expected "@) && (text::has_text(error, "arguments, found"@)
        || text::has_text(error, "mismatched types"@))
}

/// Tests whether an error says that a call does not fit the function.
pub fn is_signature_mismatch_error(error: &str) -> (r: bool)
    ensures
        r == is_mismatch(error@),
{
    contains_text(error, "expected ") && (contains_text(error, "arguments, found")
        || contains_text(error, "mismatched types"))
}

/// The feedback for another attempt.
pub fn build_retry_feedback(last_error: &str, _signature_grounding: Option<&str>) -> (r: String)
    ensures
        r@ == (if is_mismatch(last_error@) {
            last_error@ + SIGNATURE_HINT@
        } else {
            last_error@
        }),
{
    if is_signature_mismatch_error(last_error) {
        last_error.to_owned().concat(SIGNATURE_HINT)
    } else {
        last_error.to_owned()
    }
}

/// An edit that was checked and passed left no more errors than there were; the check
/// takes back one that fails, and only that. What the file is left with is decided
/// when the call is closed.
pub proof fn passing_edits_add_no_errors(
    mode: LspValidationMode,
    baseline: usize,
    measured: Result<Seq<DiagnosticView>, Seq<char>>,
    candidate: Seq<char>,
)
    ensures
        lsp_verdict(mode, baseline, measured, candidate).result is Err ==> lsp_verdict(
            mode,
            baseline,
            measured,
            candidate,
        ).restore,
        measured matches Ok(ds) ==> {
            &&& lsp_verdict(mode, baseline, measured, candidate).result is Ok <==> errors_of(
                ds,
            ).len() <= baseline
            &&& lsp_verdict(mode, baseline, measured, candidate).restore <==> errors_of(ds).len()
                > baseline
        },
{
}

/// Where the check is not required, an edit never fails because the check could
/// not be made.
pub proof fn optional_checks_never_block(
    mode: LspValidationMode,
    client: LspClientState,
    counted: Option<usize>,
    baseline: usize,
    measured: Result<Seq<DiagnosticView>, Seq<char>>,
    candidate: Seq<char>,
)
    requires
        mode != LspValidationMode::Require,
    ensures
        !(first_lsp_step(mode, client, counted) is Failed),
        !(baseline_step(mode, measured) is Failed),
        measured is Err ==> lsp_verdict(mode, baseline, measured, candidate).result is Ok,
{
}

/// A larger context window never allows fewer lines; the limit rises above 8 behind 32000,
/// above 12 behind 64000, above 20 behind 128000 and above 32 behind 256000.
pub proof fn literal_limit_grows(a: usize, b: usize)
    requires
        a <= b,
    ensures
        8 <= literal_limit(a) <= literal_limit(b) <= 48,
        literal_limit(a) > 8 <==> a > 32_000,
        literal_limit(a) > 12 <==> a > 64_000,
        literal_limit(a) > 20 <==> a > 128_000,
        literal_limit(a) > 32 <==> a > 256_000,
{
}

proof fn lemma_mode_names()
    ensures
        "auto"@ != "require"@,
        "auto"@ != "off"@,
        "require"@ != "off"@,
{
    reveal_strlit("auto");
    reveal_strlit("require");
    reveal_strlit("off");
    assert("auto"@.len() == 4 && "require"@.len() == 7 && "off"@.len() == 3);
}

/// The name of a mode reads back as that mode; without a name the check is made where it
/// can be; any other name is refused and told.
pub proof fn mode_names_read_back(mode: LspValidationMode, name: Seq<char>)
    ensures
        mode_of(ArgView::Text(mode_name(mode))) == Ok::<LspValidationMode, Seq<char>>(mode),
        mode_of(ArgView::Null) == Ok::<LspValidationMode, Seq<char>>(LspValidationMode::Auto),
        name != "auto"@ && name != "require"@ && name != "off"@ ==> (mode_of(
            ArgView::Text(name),
        ) matches Err(e) && text::has_text(e, name)),
{
    lemma_mode_names();
    let a = "Invalid lsp_validation: "@;
    let b = ". Expected one of: auto, require, off"@;
    text::found_in_either(a, name, name);
    text::found_in_either(a + name, b, name);
}

/// Only a candidate that empties a file is refused outright.
pub proof fn emptied_files_are_refused(original: Seq<char>, candidate: Seq<char>)
    ensures
        candidate_verdict(original, candidate) is Err <==> candidate.len() == 0 && original.len()
            > 0,
{
}

/// A candidate that leaves less than half of the lines of a file of more than fifty must be
/// confirmed; no other needs to be.
pub proof fn large_cuts_must_be_confirmed(
    path: Seq<char>,
    original: Seq<char>,
    candidate: Seq<char>,
    confirmed: bool,
)
    ensures
        truncation_verdict(path, original, candidate, confirmed) is Err <==> {
            &&& text::lines(original).len() > 50
            &&& 2 * text::lines(candidate).len() + 2 <= text::lines(original).len()
            &&& !confirmed
        },
        truncation_verdict(path, original, candidate, confirmed) matches Err(e) ==> text::has_text(
            e,
            path + " from "@ + number::dec(text::lines(original).len()) + " to "@ + number::dec(
                text::lines(candidate).len(),
            ) + " lines"@,
        ),
{
    let p = shrink_text(path, original, candidate);
    text::found_in_either("candidate truncates "@, p, p);
}

proof fn lemma_errors_push(ds: Seq<DiagnosticView>, d: DiagnosticView, n: int)
    requires
        0 <= n <= ds.len(),
    ensures
        errors_among(ds.push(d), n) == errors_among(ds, n),
    decreases n,
{
    if n > 0 {
        lemma_errors_push(ds, d, n - 1);
        assert(ds.push(d)[n - 1] == ds[n - 1]);
    }
}

/// The errors among diagnostics are those with the severity of an error, in their order.
pub proof fn errors_are_picked(ds: Seq<DiagnosticView>, d: DiagnosticView)
    ensures
        errors_of(ds.push(d)) == (if d.severity == Some(Severity::Error) {
            errors_of(ds).push(d)
        } else {
            errors_of(ds)
        }),
        errors_of(Seq::empty()) == Seq::<DiagnosticView>::empty(),
{
    lemma_errors_push(ds, d, ds.len() as int);
}

/// What is kept of new errors: the first five, with line and column numbered from 1 and the
/// message, how many more there are, how many there were before, and the content that has
/// them.
pub proof fn regressions_hold_the_first_errors(
    baseline: usize,
    errors: Seq<DiagnosticView>,
    candidate: Seq<char>,
    i: int,
)
    requires
        0 <= i < errors.len(),
        i < 5,
        errors[i].line < usize::MAX,
        errors[i].character < usize::MAX,
        errors.len() <= usize::MAX,
    ensures
        ({
            let r = regression_of(baseline, errors, candidate);
            &&& i < r.errors.len() <= 5
            &&& r.errors[i].line == errors[i].line + 1
            &&& r.errors[i].column == errors[i].character + 1
            &&& r.errors[i].message == errors[i].message
            &&& r.errors.len() + r.extra_error_count == errors.len()
            &&& r.baseline_count == baseline
            &&& r.candidate_content == candidate
        }),
{
}

proof fn lemma_listed(errors: Seq<ErrorView>, n: int, i: int)
    requires
        0 <= i < n <= errors.len(),
    ensures
        text::has_text(
            error_list(errors, n),
            "\nL"@ + number::dec(errors[i].line as nat) + ":"@ + number::dec(
                errors[i].column as nat,
            ) + ": error: "@ + errors[i].message,
        ),
    decreases n,
{
    let p = "\nL"@ + number::dec(errors[i].line as nat) + ":"@ + number::dec(
        errors[i].column as nat,
    ) + ": error: "@ + errors[i].message;
    if i < n - 1 {
        lemma_listed(errors, n - 1, i);
    }
    text::found_in_either(
        error_list(errors, n - 1),
        "\nL"@ + number::dec(errors[n - 1].line as nat) + ":"@ + number::dec(
            errors[n - 1].column as nat,
        ) + ": error: "@ + errors[n - 1].message,
        p,
    );
}

/// The summary of new errors tells how many there were and are, and names each of the first
/// five with its place and message.
pub proof fn regressions_are_told(reg: RegressionView, i: int)
    requires
        0 <= i < reg.errors.len(),
        i < 5,
    ensures
        text::has_text(
            regression_summary(reg),
            "\nL"@ + number::dec(reg.errors[i].line as nat) + ":"@ + number::dec(
                reg.errors[i].column as nat,
            ) + ": error: "@ + reg.errors[i].message,
        ),
        text::starts_with(
            regression_summary(reg),
            "LSP diagnostics worsened: "@ + number::dec(reg.baseline_count as nat) + " -> "@
                + number::dec(reg.total() as nat) + " error(s)"@,
        ),
{
    let n = if reg.errors.len() > MAX_REGRESSION_ERRORS {
        MAX_REGRESSION_ERRORS as int
    } else {
        reg.errors.len() as int
    };
    let p = "\nL"@ + number::dec(reg.errors[i].line as nat) + ":"@ + number::dec(
        reg.errors[i].column as nat,
    ) + ": error: "@ + reg.errors[i].message;
    let h = "LSP diagnostics worsened: "@ + number::dec(reg.baseline_count as nat) + " -> "@
        + number::dec(reg.total() as nat) + " error(s)"@;
    lemma_listed(reg.errors, n, i);
    text::found_in_either(h, error_list(reg.errors, n), p);
    text::found_in_either(
        h + error_list(reg.errors, n),
        "\n... and "@ + number::dec(reg.extra_error_count as nat) + " more error(s)"@,
        p,
    );
    assert(regression_summary(reg).subrange(0, h.len() as int) =~= h);
}

/// A check begins only where it is not switched off and a server is ready; where it is
/// required, it fails without one.
pub proof fn required_checks_need_a_server(
    mode: LspValidationMode,
    client: LspClientState,
    baseline: Option<usize>,
)
    ensures
        first_lsp_step(mode, client, baseline) is Check <==> mode != LspValidationMode::Off
            && client == LspClientState::Ready,
        first_lsp_step(mode, client, baseline) matches LspStepView::Check(b) ==> b == baseline,
        first_lsp_step(mode, client, baseline) is Failed <==> mode == LspValidationMode::Require
            && client != LspClientState::Ready,
{
}

/// A baseline is the number of errors that were measured.
pub proof fn baselines_count_errors(
    mode: LspValidationMode,
    measured: Result<Seq<DiagnosticView>, Seq<char>>,
)
    ensures
        measured matches Ok(ds) ==> (errors_of(ds).len() <= usize::MAX ==> (baseline_step(
            mode,
            measured,
        ) matches LspStepView::Check(Some(n)) && n == errors_of(ds).len())),
        measured is Err ==> (baseline_step(mode, measured) is Failed <==> mode
            == LspValidationMode::Require),
{
}

/// A candidate is turned down for its errors exactly where it has more of them than before,
/// and then the file is restored; where it is not turned down and was measured, it stays.
pub proof fn more_errors_turn_down(
    mode: LspValidationMode,
    baseline: usize,
    ds: Seq<DiagnosticView>,
    candidate: Seq<char>,
)
    ensures
        ({
            let v = lsp_verdict(
                mode,
                baseline,
                Ok::<Seq<DiagnosticView>, Seq<char>>(ds),
                candidate,
            );
            &&& v.result is Err <==> errors_of(ds).len() > baseline
            &&& v.restore <==> errors_of(ds).len() > baseline
            &&& v.result is Err ==> v.result->Err_0 is LspRegression
        }),
{
}

/// An error is a misfit where it tells what was expected, and that arguments or types do not
/// fit; one that does not tell what was expected is none.
pub proof fn misfits_are_told(a: Seq<char>, b: Seq<char>, c: Seq<char>)
    ensures
        is_mismatch(a + "expected "@ + b + "arguments, found"@ + c),
        is_mismatch(a + "mismatched types"@ + b + "expected "@ + c),
        !text::has_text(a, "expected "@) ==> !is_mismatch(a),
        !text::has_text(a, "arguments, found"@) && !text::has_text(a, "mismatched types"@)
            ==> !is_mismatch(a),
{
    lemma_both(a, "expected "@, b, "arguments, found"@, c);
    lemma_both(a, "mismatched types"@, b, "expected "@, c);
}

proof fn lemma_both(a: Seq<char>, p: Seq<char>, b: Seq<char>, q: Seq<char>, c: Seq<char>)
    ensures
        text::has_text(a + p + b + q + c, p),
        text::has_text(a + p + b + q + c, q),
{
    text::found_in_either(a, p, p);
    text::found_in_either(a + p, b, p);
    text::found_in_either(a + p + b, q, p);
    text::found_in_either(a + p + b + q, c, p);
    text::found_in_either(a + p + b, q, q);
    text::found_in_either(a + p + b + q, c, q);
}

} // verus!
