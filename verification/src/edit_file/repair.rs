//! What the planner is told of an earlier attempt.
use vstd::prelude::*;

use super::parse;
use super::parse::{format_edit_plan_steps, EditPlanStep, StepView};
use crate::bytes;
use crate::bytes::{longer_than, prefix_within, text_bytes};
use crate::number;
use crate::number::{dec_text, dec_text_u128, padded_dec_text};
use crate::text;
use crate::text::{split_lines, trimmed};

verus! {

/// The most errors that a regression names.
pub const MAX_REGRESSION_ERRORS: usize = 5;

/// How many lines are shown before and behind an error.
pub const CONTEXT_RADIUS: usize = 5;

/// One reported error. Line and column are numbered from 1.
#[derive(Debug)]
pub struct LspErrorLocation {
    pub line: usize,
    pub column: usize,
    pub message: String,
}

/// An error location over texts.
pub struct ErrorView {
    pub line: usize,
    pub column: usize,
    pub message: Seq<char>,
}

impl DeepView for LspErrorLocation {
    type V = ErrorView;

    open spec fn deep_view(&self) -> ErrorView {
        ErrorView { line: self.line, column: self.column, message: self.message@ }
    }
}

impl Clone for LspErrorLocation {
    fn clone(&self) -> (r: LspErrorLocation)
        ensures
            r.deep_view() == self.deep_view(),
    {
        LspErrorLocation {
            line: self.line,
            column: self.column,
            message: self.message.clone(),
        }
    }
}

/// The errors of an edited file where they are more than before.
#[derive(Debug)]
pub struct LspRegression {
    pub baseline_count: usize,
    pub errors: Vec<LspErrorLocation>,
    /// How many errors are not named.
    pub extra_error_count: usize,
    /// The file that was checked.
    pub candidate_content: String,
}

/// A regression over texts.
pub struct RegressionView {
    pub baseline_count: usize,
    pub errors: Seq<ErrorView>,
    pub extra_error_count: usize,
    pub candidate_content: Seq<char>,
}

impl DeepView for LspRegression {
    type V = RegressionView;

    open spec fn deep_view(&self) -> RegressionView {
        RegressionView {
            baseline_count: self.baseline_count,
            errors: self.errors.deep_view(),
            extra_error_count: self.extra_error_count,
            candidate_content: self.candidate_content@,
        }
    }
}

impl RegressionView {
    /// How many errors there are.
    pub open spec fn total(self) -> int {
        self.errors.len() + self.extra_error_count
    }
}

fn copy_errors(errors: &Vec<LspErrorLocation>) -> (r: Vec<LspErrorLocation>)
    ensures
        r.deep_view() == errors.deep_view(),
{
    let ghost ev = errors.deep_view();
    let mut out: Vec<LspErrorLocation> = Vec::new();
    let mut i: usize = 0;
    while i < errors.len()
        invariant
            i <= errors@.len() == ev.len(),
            ev == errors.deep_view(),
            out.deep_view() == ev.take(i as int),
        decreases errors.len() - i,
    {
        let ghost o = out.deep_view();
        out.push(errors[i].clone());
        proof {
            assert(out.deep_view() =~= o.push(ev[i as int]));
            assert(ev.take(i + 1) =~= o.push(ev[i as int]));
        }
        i += 1;
    }
    proof {
        assert(ev.take(i as int) =~= ev);
    }
    out
}

impl Clone for LspRegression {
    fn clone(&self) -> (r: LspRegression)
        ensures
            r.deep_view() == self.deep_view(),
    {
        LspRegression {
            baseline_count: self.baseline_count,
            errors: copy_errors(&self.errors),
            extra_error_count: self.extra_error_count,
            candidate_content: self.candidate_content.clone(),
        }
    }
}

/// What became of the previous attempt.
#[derive(Debug)]
pub struct RepairContext {
    pub previous_plan: Vec<EditPlanStep>,
    pub completed_steps: Vec<EditPlanStep>,
    pub failed_step: Option<EditPlanStep>,
    pub failure_reason: String,
    /// The errors, where the attempt was turned down for them.
    pub lsp_regression: Option<LspRegression>,
    /// Whether all steps were applied and nothing was turned down.
    pub cleanly_applied: bool,
}

/// A repair context over texts.
pub struct RepairView {
    pub previous_plan: Seq<StepView>,
    pub completed_steps: Seq<StepView>,
    pub failed_step: Option<StepView>,
    pub failure_reason: Seq<char>,
    pub lsp_regression: Option<RegressionView>,
    pub cleanly_applied: bool,
}

impl DeepView for RepairContext {
    type V = RepairView;

    open spec fn deep_view(&self) -> RepairView {
        RepairView {
            previous_plan: self.previous_plan.deep_view(),
            completed_steps: self.completed_steps.deep_view(),
            failed_step: self.failed_step.deep_view(),
            failure_reason: self.failure_reason@,
            lsp_regression: self.lsp_regression.deep_view(),
            cleanly_applied: self.cleanly_applied,
        }
    }
}

/// `s`, or its first `keep` bytes and an ellipsis where it takes more than
/// `limit`.
pub open spec fn shortened(s: Seq<char>, limit: nat, keep: nat) -> Seq<char> {
    if bytes::utf8_len(s) > limit {
        bytes::byte_prefix(s, keep) + "…"@
    } else {
        s
    }
}

/// Whether a text that is shortened can be cut behind `keep` bytes.
pub open spec fn can_shorten(s: Seq<char>, limit: nat, keep: nat) -> bool {
    bytes::utf8_len(s) > limit ==> bytes::is_boundary(s, keep)
}

fn shorten(s: &str, limit: usize, keep: usize) -> (r: String)
    requires
        limit <= 1000,
        keep <= 1000,
        can_shorten(s@, limit as nat, keep as nat),
    ensures
        r@ == shortened(s@, limit as nat, keep as nat),
{
    if longer_than(s, limit) {
        prefix_within(s, keep).concat("…")
    } else {
        s.to_owned()
    }
}

fn shortens(s: &str, limit: usize, keep: usize) -> (r: bool)
    requires
        limit <= 1000,
        keep <= 1000,
    ensures
        r == can_shorten(s@, limit as nat, keep as nat),
{
    if !longer_than(s, limit) {
        return true;
    }
    let cut = prefix_within(s, keep);
    text_bytes(&cut) == keep as u128
}

/// The first line of a block, trimmed.
pub open spec fn block_head(old: Seq<Seq<char>>) -> Seq<char> {
    if old.len() == 0 {
        Seq::empty()
    } else {
        text::trim(old[0])
    }
}

/// How many lines a replacement adds or takes away.
pub open spec fn line_delta(old: nat, new: nat) -> Seq<char> {
    if new > old {
        "+"@ + number::dec((new - old) as nat) + " lines"@
    } else if new < old {
        "-"@ + number::dec((old - new) as nat) + " lines"@
    } else {
        "same line count"@
    }
}

/// An applied step on one line.
pub open spec fn applied_line(step: StepView) -> Seq<char> {
    match step {
        StepView::SmartEdit(region) => "  ✓ L"@ + number::dec(region.start as nat) + "-L"@
            + number::dec(region.end as nat) + ": SMART_EDIT applied ("@ + shortened(
            region.task,
            80,
            77,
        ) + ")\n"@,
        StepView::LiteralReplace { scope_start, scope_end, all, old, new } => "  ✓ L"@
            + number::dec(scope_start as nat) + "-L"@ + number::dec(scope_end as nat)
            + ": LITERAL_REPLACE applied ("@ + line_delta(old.len(), new.len()) + "): "@
            + shortened(block_head(old), 60, 57) + "\n"@,
    }
}

/// Whether the texts in the line on an applied step can be shortened.
pub open spec fn can_show(step: StepView) -> bool {
    match step {
        StepView::SmartEdit(region) => can_shorten(region.task, 80, 77),
        StepView::LiteralReplace { old, .. } => can_shorten(block_head(old), 60, 57),
    }
}

/// Whether this holds of all steps.
pub open spec fn can_show_all(steps: Seq<StepView>) -> bool {
    forall|i: int| 0 <= i < steps.len() ==> can_show(#[trigger] steps[i])
}

/// Tests whether the line on an applied step can be rendered.
pub fn step_can_show(step: &EditPlanStep) -> (r: bool)
    ensures
        r == can_show(step.deep_view()),
{
    match step {
        EditPlanStep::SmartEdit(region) => shortens(&region.task, 80, 77),
        EditPlanStep::LiteralReplace { old, .. } => {
            let ghost ov = old.deep_view();
            proof {
                assert(old@.len() == ov.len());
            }
            if old.len() == 0 {
                shortens(&String::new(), 60, 57)
            } else {
                shortens(&trimmed(&old[0]), 60, 57)
            }
        },
    }
}

/// Tests whether the lines on applied steps can be rendered.
pub fn steps_can_show(steps: &Vec<EditPlanStep>) -> (r: bool)
    ensures
        r == can_show_all(steps.deep_view()),
{
    let ghost sv = steps.deep_view();
    let mut i: usize = 0;
    while i < steps.len()
        invariant
            i <= steps@.len() == sv.len(),
            sv == steps.deep_view(),
            forall|k: int| 0 <= k < i ==> can_show(#[trigger] sv[k]),
        decreases steps.len() - i,
    {
        proof {
            assert(sv[i as int] == steps@[i as int].deep_view());
        }
        if !step_can_show(&steps[i]) {
            return false;
        }
        i += 1;
    }
    true
}

/// Applied steps, one on a line.
pub open spec fn applied_lines(steps: Seq<StepView>) -> Seq<char>
    decreases steps.len(),
{
    if steps.len() == 0 {
        Seq::empty()
    } else {
        applied_lines(steps.drop_last()) + applied_line(steps.last())
    }
}

/// Renders an applied step on one line.
pub fn format_applied_step(step: &EditPlanStep) -> (r: String)
    requires
        can_show(step.deep_view()),
    ensures
        r@ == applied_line(step.deep_view()),
{
    match step {
        EditPlanStep::SmartEdit(region) => "  ✓ L".to_owned().concat(
            &dec_text(region.start),
        ).concat("-L").concat(&dec_text(region.end)).concat(": SMART_EDIT applied (").concat(
            &shorten(&region.task, 80, 77),
        ).concat(")\n"),
        EditPlanStep::LiteralReplace { scope_start, scope_end, all, old, new } => {
            let ghost ov = old.deep_view();
            proof {
                assert(old@.len() == ov.len());
                assert(new@.len() == new.deep_view().len());
            }
            let head = if old.len() == 0 {
                String::new()
            } else {
                trimmed(&old[0])
            };
            let delta = if new.len() > old.len() {
                "+".to_owned().concat(&dec_text(new.len() - old.len())).concat(" lines")
            } else if new.len() < old.len() {
                "-".to_owned().concat(&dec_text(old.len() - new.len())).concat(" lines")
            } else {
                "same line count".to_owned()
            };
            "  ✓ L".to_owned().concat(&dec_text(*scope_start)).concat("-L").concat(
                &dec_text(*scope_end),
            ).concat(": LITERAL_REPLACE applied (").concat(&delta).concat("): ").concat(
                &shorten(&head, 60, 57),
            ).concat("\n")
        },
    }
}

/// Renders applied steps, one on a line.
pub fn format_completed_steps_compact(steps: &Vec<EditPlanStep>) -> (r: String)
    requires
        can_show_all(steps.deep_view()),
    ensures
        r@ == applied_lines(steps.deep_view()),
{
    let ghost sv = steps.deep_view();
    let mut out = String::new();
    let mut i: usize = 0;
    while i < steps.len()
        invariant
            i <= steps@.len() == sv.len(),
            sv == steps.deep_view(),
            can_show_all(sv),
            out@ == applied_lines(sv.take(i as int)),
        decreases steps.len() - i,
    {
        proof {
            assert(sv[i as int] == steps@[i as int].deep_view());
            assert(sv.take(i + 1).drop_last() =~= sv.take(i as int));
        }
        out.append(&format_applied_step(&steps[i]));
        i += 1;
    }
    proof {
        assert(sv.take(i as int) =~= sv);
    }
    out
}

/// The previous attempt, where all of it was applied.
pub open spec fn prior_applied(ctx: RepairView) -> Seq<char> {
    let applied = if ctx.completed_steps.len() == 0 {
        "(no steps — the previous round was a no-op)\n"@
    } else {
        applied_lines(ctx.completed_steps)
    };
    PRIOR_APPLIED_HEAD@ + applied + PRIOR_APPLIED_TAIL@
}

/// Introduces the steps of an attempt that was applied.
pub const PRIOR_APPLIED_HEAD: &'static str = "The previous iteration applied the following steps cleanly (they are ALREADY reflected in the file content below):\n";

/// Asks for a verdict behind an attempt that was applied.
pub const PRIOR_APPLIED_TAIL: &'static str = "\nDecide the next verdict against the current file state. If those steps already accomplished the task, return `COMPLETE`. If more edits are still needed to finish the task, emit `LITERAL_REPLACE`/`SMART_EDIT` blocks for the remaining work. If the task cannot be completed even with more edits (e.g. it needs cross-file changes), return `FAILED: <reason>`.\n\n";

/// Introduces an attempt that failed.
pub const PRIOR_FAILED_HEAD: &'static str = "The previous iteration failed. Use the structured information below to decide the next verdict.\n\nPrevious edit plan (as tried):\n";

/// Asks for a verdict behind an attempt that failed.
pub const PRIOR_FAILED_TAIL: &'static str = "\n\nDecide against the current file state: plan recovery edits if you can, return `COMPLETE` if the task is already done despite the failure, or return `FAILED: <reason>` if the obstacle is unrecoverable in this file.\n\n";

/// Renders the previous attempt, where all of it was applied.
pub fn format_prior_applied(ctx: &RepairContext) -> (r: String)
    requires
        can_show_all(ctx.completed_steps.deep_view()),
    ensures
        r@ == prior_applied(ctx.deep_view()),
{
    proof {
        assert(ctx.completed_steps@.len() == ctx.completed_steps.deep_view().len());
    }
    let applied = if ctx.completed_steps.len() == 0 {
        "(no steps — the previous round was a no-op)\n".to_owned()
    } else {
        format_completed_steps_compact(&ctx.completed_steps)
    };
    PRIOR_APPLIED_HEAD.to_owned().concat(&applied).concat(PRIOR_APPLIED_TAIL)
}

/// The mark in front of a shown line: the line of the error has one.
pub open spec fn error_mark(n: int, line: usize) -> Seq<char> {
    if n == line {
        ">>"@
    } else {
        "  "@
    }
}

/// One line around an error on line `line`; `n` is its number.
pub open spec fn error_line(shown: Seq<char>, n: int, line: usize) -> Seq<char> {
    "    "@ + error_mark(n, line) + " "@ + number::padded_dec(n as nat, 5) + " │ "@ + shown + "\n"@
}

/// The lines with indices `start..n` around an error on line `line`.
pub open spec fn error_lines(ls: Seq<Seq<char>>, line: usize, start: int, n: int) -> Seq<char>
    decreases n - start,
{
    if n <= start {
        Seq::empty()
    } else {
        error_lines(ls, line, start, n - 1) + error_line(ls[n - 1], n, line)
    }
}

/// An error with the lines around it. `n` is its number.
pub open spec fn error_entry(err: ErrorView, n: nat, ls: Seq<Seq<char>>) -> Seq<char> {
    let head = "\n["@ + number::dec(n) + "] L"@ + number::dec(err.line as nat) + ":"@ + number::dec(
        err.column as nat,
    ) + ": "@ + err.message + "\n"@;
    if err.line == 0 || err.line > ls.len() {
        head + "    (line out of range for post-edit content)\n"@
    } else {
        let start = if err.line > CONTEXT_RADIUS + 1 {
            err.line - 1 - CONTEXT_RADIUS
        } else {
            0
        };
        let end = if err.line + CONTEXT_RADIUS < ls.len() {
            err.line + CONTEXT_RADIUS
        } else {
            ls.len() as int
        };
        head + "    post-edit context:\n"@ + error_lines(ls, err.line, start, end)
    }
}

/// The first `n` errors of a regression with the lines around them.
pub open spec fn error_entries(errors: Seq<ErrorView>, ls: Seq<Seq<char>>, n: int) -> Seq<char>
    decreases n,
{
    if n <= 0 {
        Seq::empty()
    } else {
        error_entries(errors, ls, n - 1) + error_entry(errors[n - 1], n as nat, ls)
    }
}

/// Introduces the errors of a regression.
pub const REGRESSION_INTRO: &'static str = " error(s)\nThe following errors were introduced by the previous attempt's patch. Each entry shows the post-edit source around the error so you can see exactly what your patch produced.\n";

/// A regression as the planner is told of it.
pub open spec fn regression_text(reg: RegressionView) -> Seq<char> {
    let head = "LSP diagnostics worsened: "@ + number::dec(reg.baseline_count as nat) + " -> "@
        + number::dec(reg.total() as nat) + REGRESSION_INTRO@;
    let body = error_entries(
        reg.errors,
        text::lines(reg.candidate_content),
        reg.errors.len() as int,
    );
    if reg.extra_error_count > 0 {
        head + body + ("\n... and "@ + number::dec(reg.extra_error_count as nat)
            + " more error(s) not shown\n"@)
    } else {
        head + body
    }
}

fn format_error_line(shown: &str, n: usize, line: usize) -> (r: String)
    ensures
        r@ == error_line(shown@, n as int, line),
{
    let mark = if n == line {
        ">>"
    } else {
        "  "
    };
    "    ".to_owned().concat(mark).concat(" ").concat(&padded_dec_text(n, 5)).concat(
        " │ ",
    ).concat(shown).concat("\n")
}

fn format_error_entry(err: &LspErrorLocation, n: usize, lines: &Vec<String>) -> (r: String)
    ensures
        r@ == error_entry(err.deep_view(), n as nat, lines.deep_view()),
{
    let ghost ls = lines.deep_view();
    let total: usize = lines.len();
    proof {
        assert(total == ls.len());
    }
    let mut out = "\n[".to_owned().concat(&dec_text(n)).concat("] L").concat(
        &dec_text(err.line),
    ).concat(":").concat(&dec_text(err.column)).concat(": ").concat(&err.message).concat("\n");
    if err.line == 0 || err.line > total {
        return out.concat("    (line out of range for post-edit content)\n");
    }
    let start: usize = if err.line > CONTEXT_RADIUS + 1 {
        err.line - 1 - CONTEXT_RADIUS
    } else {
        0
    };
    let end: usize = if CONTEXT_RADIUS < total - err.line {
        err.line + CONTEXT_RADIUS
    } else {
        total
    };
    out.append("    post-edit context:\n");
    let ghost head = out@;
    proof {
        assert(out@ =~= head + error_lines(ls, err.line, start as int, start as int));
    }
    let mut i: usize = start;
    while i < end
        invariant
            start <= i <= end <= lines@.len() == ls.len(),
            ls == lines.deep_view(),
            out@ == head + error_lines(ls, err.line, start as int, i as int),
        decreases end - i,
    {
        out.append(&format_error_line(&lines[i], i + 1, err.line));
        i += 1;
        proof {
            assert(out@ =~= head + error_lines(ls, err.line, start as int, i as int));
        }
    }
    out
}

/// Renders a regression with the lines around each error.
pub fn format_lsp_regression_for_planner(reg: &LspRegression) -> (r: String)
    ensures
        r@ == regression_text(reg.deep_view()),
{
    let ghost ev = reg.errors.deep_view();
    let ghost ls = text::lines(reg.candidate_content@);
    proof {
        assert(reg.errors@.len() == ev.len());
    }
    let total: u128 = reg.errors.len() as u128 + reg.extra_error_count as u128;
    let mut out = "LSP diagnostics worsened: ".to_owned().concat(
        &dec_text(reg.baseline_count),
    ).concat(" -> ").concat(&dec_text_u128(total)).concat(REGRESSION_INTRO);
    let ghost head = out@;
    let lines = split_lines(&reg.candidate_content);
    proof {
        assert(lines@.len() == ls.len());
        assert(out@ =~= head + error_entries(ev, ls, 0));
    }
    let mut i: usize = 0;
    while i < reg.errors.len()
        invariant
            i <= reg.errors@.len() == ev.len(),
            ev == reg.errors.deep_view(),
            ls == lines.deep_view(),
            out@ == head + error_entries(ev, ls, i as int),
        decreases reg.errors.len() - i,
    {
        out.append(&format_error_entry(&reg.errors[i], i + 1, &lines));
        i += 1;
        proof {
            assert(ev[i - 1] == reg.errors@[i - 1].deep_view());
            assert(out@ =~= head + error_entries(ev, ls, i as int));
        }
    }
    if reg.extra_error_count > 0 {
        out.append(
            &"\n... and ".to_owned().concat(&dec_text(reg.extra_error_count)).concat(
                " more error(s) not shown\n",
            ),
        );
    }
    out
}

/// The previous attempt, where it failed.
pub open spec fn prior_failed(ctx: RepairView) -> Seq<char> {
    let plan = if ctx.previous_plan.len() == 0 {
        "(empty)\n"@
    } else {
        parse::plan_text(ctx.previous_plan)
    };
    let completed = if ctx.completed_steps.len() == 0 {
        "(none — the first step failed, file is unchanged from the initial state)\n"@
    } else {
        applied_lines(ctx.completed_steps)
    };
    let failed = match ctx.failed_step {
        Some(step) => parse::step_text(step),
        None => "(no individual step failed; the plan executed in full but post-validation rejected the result — see failure reason below)\n"@,
    };
    let reason = match ctx.lsp_regression {
        Some(reg) => regression_text(reg),
        None => ctx.failure_reason,
    };
    PRIOR_FAILED_HEAD@ + plan
        + "\nSteps that succeeded and have ALREADY been applied to the file shown below:\n"@
        + completed + "\nStep that FAILED:\n"@ + failed + "\nFailure reason:\n"@ + reason
        + PRIOR_FAILED_TAIL@
}

/// Renders the previous attempt, where it failed.
pub fn format_prior_failed(ctx: &RepairContext) -> (r: String)
    requires
        can_show_all(ctx.completed_steps.deep_view()),
    ensures
        r@ == prior_failed(ctx.deep_view()),
{
    proof {
        assert(ctx.completed_steps@.len() == ctx.completed_steps.deep_view().len());
        assert(ctx.previous_plan@.len() == ctx.previous_plan.deep_view().len());
    }
    let plan = if ctx.previous_plan.len() == 0 {
        "(empty)\n".to_owned()
    } else {
        format_edit_plan_steps(&ctx.previous_plan)
    };
    let completed = if ctx.completed_steps.len() == 0 {
        "(none — the first step failed, file is unchanged from the initial state)\n".to_owned()
    } else {
        format_completed_steps_compact(&ctx.completed_steps)
    };
    let failed = match &ctx.failed_step {
        Some(step) => parse::format_step(step),
        None => "(no individual step failed; the plan executed in full but post-validation rejected the result — see failure reason below)\n".to_owned(),
    };
    let reason = match &ctx.lsp_regression {
        Some(reg) => format_lsp_regression_for_planner(reg),
        None => ctx.failure_reason.clone(),
    };
    PRIOR_FAILED_HEAD.to_owned().concat(&plan).concat(
        "\nSteps that succeeded and have ALREADY been applied to the file shown below:\n",
    ).concat(&completed).concat("\nStep that FAILED:\n").concat(&failed).concat(
        "\nFailure reason:\n",
    ).concat(&reason).concat(PRIOR_FAILED_TAIL)
}

/// What the planner is told of the previous attempt.
pub open spec fn repair_text(ctx: RepairView) -> Seq<char> {
    if ctx.cleanly_applied {
        prior_applied(ctx)
    } else {
        prior_failed(ctx)
    }
}

/// Renders the previous attempt for the planner.
pub fn format_repair_context(ctx: &RepairContext) -> (r: String)
    requires
        can_show_all(ctx.completed_steps.deep_view()),
    ensures
        r@ == repair_text(ctx.deep_view()),
{
    if ctx.cleanly_applied {
        format_prior_applied(ctx)
    } else {
        format_prior_failed(ctx)
    }
}

/// Whether a step has lines in the window `first..=last`.
pub open spec fn in_window(step: StepView, first: usize, last: usize) -> bool {
    step.start_line() <= last && step.end_line() >= first
}

/// Those of the first `n` steps that have lines in a window, one on a line.
pub open spec fn window_applied(steps: Seq<StepView>, first: usize, last: usize, n: int) -> Seq<char>
    decreases n,
{
    if n <= 0 {
        Seq::empty()
    } else if in_window(steps[n - 1], first, last) {
        window_applied(steps, first, last, n - 1) + applied_line(steps[n - 1])
    } else {
        window_applied(steps, first, last, n - 1)
    }
}

/// Whether one of the first `n` steps has lines in a window.
pub open spec fn any_in_window(steps: Seq<StepView>, first: usize, last: usize, n: int) -> bool {
    exists|i: int| 0 <= i < n && in_window(#[trigger] steps[i], first, last)
}

/// A failed step on one line.
pub open spec fn failed_line(step: StepView, reason: Seq<char>) -> Seq<char> {
    "  ✗ L"@ + number::dec(step.start_line() as nat) + "-L"@ + number::dec(
        step.end_line() as nat,
    ) + ": FAILED ("@ + shortened(reason, 120, 117) + ")\n"@
}

/// What became of the steps in a window.
pub open spec fn window_outcomes(ctx: RepairView, first: usize, last: usize) -> Seq<char> {
    let n = ctx.completed_steps.len() as int;
    let done = window_applied(ctx.completed_steps, first, last, n);
    let failed = match ctx.failed_step {
        Some(step) => if in_window(step, first, last) {
            failed_line(step, ctx.failure_reason)
        } else {
            Seq::empty()
        },
        None => Seq::empty(),
    };
    if any_in_window(ctx.completed_steps, first, last, n) || (ctx.failed_step matches Some(
        step,
    ) && in_window(step, first, last)) {
        "Previous edit attempt — steps in this slice:\n"@ + done + failed + "\n"@
    } else {
        Seq::empty()
    }
}

/// Whether what became of the steps in a window can be rendered: no text that is cut
/// short there ends inside a character. The reason of the failure is cut only where the
/// failed step has lines in the window.
pub open spec fn can_show_window(ctx: RepairView, first: usize, last: usize) -> bool {
    &&& forall|i: int|
        0 <= i < ctx.completed_steps.len() && in_window(
            #[trigger] ctx.completed_steps[i],
            first,
            last,
        ) ==> can_show(ctx.completed_steps[i])
    &&& ctx.failed_step matches Some(step) ==> in_window(step, first, last) ==> can_shorten(
        ctx.failure_reason,
        120,
        117,
    )
}

/// Tests whether what became of the steps in the window `win_start..=win_end` can be
/// rendered.
pub fn window_can_show(ctx: &RepairContext, win_start: usize, win_end: usize) -> (r: bool)
    ensures
        r == can_show_window(ctx.deep_view(), win_start, win_end),
{
    let steps = &ctx.completed_steps;
    let ghost sv = steps.deep_view();
    let mut i: usize = 0;
    while i < steps.len()
        invariant
            i <= steps@.len() == sv.len(),
            sv == steps.deep_view(),
            sv == ctx.deep_view().completed_steps,
            forall|k: int|
                0 <= k < i && in_window(#[trigger] sv[k], win_start, win_end) ==> can_show(sv[k]),
        decreases steps.len() - i,
    {
        proof {
            assert(sv[i as int] == steps@[i as int].deep_view());
        }
        if steps[i].start_line() <= win_end && steps[i].end_line() >= win_start && !step_can_show(
            &steps[i],
        ) {
            proof {
                assert(in_window(ctx.deep_view().completed_steps[i as int], win_start, win_end));
            }
            return false;
        }
        i += 1;
    }
    match &ctx.failed_step {
        None => true,
        Some(step) => {
            if step.start_line() <= win_end && step.end_line() >= win_start {
                shortens(&ctx.failure_reason, 120, 117)
            } else {
                true
            }
        },
    }
}

/// Renders what became of the steps in the window `win_start..=win_end`.
pub fn format_repair_steps_for_window(ctx: &RepairContext, win_start: usize, win_end: usize) -> (r:
    String)
    requires
        can_show_window(ctx.deep_view(), win_start, win_end),
    ensures
        r@ == window_outcomes(ctx.deep_view(), win_start, win_end),
{
    let steps = &ctx.completed_steps;
    let ghost sv = steps.deep_view();
    let mut done = String::new();
    let mut any: bool = false;
    let mut i: usize = 0;
    while i < steps.len()
        invariant
            i <= steps@.len() == sv.len(),
            sv == steps.deep_view(),
            sv == ctx.deep_view().completed_steps,
            can_show_window(ctx.deep_view(), win_start, win_end),
            any == any_in_window(sv, win_start, win_end, i as int),
            done@ == window_applied(sv, win_start, win_end, i as int),
        decreases steps.len() - i,
    {
        proof {
            assert(sv[i as int] == steps@[i as int].deep_view());
        }
        if steps[i].start_line() <= win_end && steps[i].end_line() >= win_start {
            proof {
                assert(in_window(sv[i as int], win_start, win_end));
            }
            any = true;
            done.append(&format_applied_step(&steps[i]));
        }
        i += 1;
    }
    let mut failed = String::new();
    if let Some(step) = &ctx.failed_step {
        if step.start_line() <= win_end && step.end_line() >= win_start {
            any = true;
            failed = "  ✗ L".to_owned().concat(&dec_text(step.start_line())).concat("-L").concat(
                &dec_text(step.end_line()),
            ).concat(": FAILED (").concat(&shorten(&ctx.failure_reason, 120, 117)).concat(")\n");
        }
    }
    if any {
        "Previous edit attempt — steps in this slice:\n".to_owned().concat(&done).concat(
            &failed,
        ).concat("\n")
    } else {
        String::new()
    }
}

/// Tests whether the account of the previous attempt can be rendered.
pub fn repair_can_show(ctx: &RepairContext) -> (r: bool)
    ensures
        r == can_show_all(ctx.deep_view().completed_steps),
{
    steps_can_show(&ctx.completed_steps)
}

/// A shortened text is its start and an ellipsis where it is too long, and itself where it is
/// not.
pub proof fn shortened_texts_are_starts(s: Seq<char>, limit: nat, keep: nat)
    ensures
        bytes::utf8_len(s) <= limit ==> shortened(s, limit, keep) == s,
        bytes::utf8_len(s) > limit ==> exists|k: int|
            0 <= k <= s.len() && shortened(s, limit, keep) == #[trigger] s.take(k) + "…"@
                && bytes::utf8_len(s.take(k)) <= keep,
{
    bytes::byte_prefix_is_the_longest(s, keep, 0);
}

/// The change in lines is told with its sign.
pub proof fn line_changes_are_signed(old: nat, new: nat)
    ensures
        new > old ==> line_delta(old, new) == "+"@ + number::dec((new - old) as nat) + " lines"@,
        new < old ==> line_delta(old, new) == "-"@ + number::dec((old - new) as nat) + " lines"@,
        new == old ==> line_delta(old, new) == "same line count"@,
{
}

/// The line on an applied step begins with the lines that it was planned for.
pub proof fn applied_steps_name_their_lines(step: StepView)
    ensures
        text::starts_with(
            applied_line(step),
            "  ✓ L"@ + number::dec(step.start_line() as nat) + "-L"@ + number::dec(
                step.end_line() as nat,
            ) + ": "@,
        ),
{
    let h = "  ✓ L"@ + number::dec(step.start_line() as nat) + "-L"@ + number::dec(
        step.end_line() as nat,
    );
    let p = h + ": "@;
    let s = applied_line(step);
    reveal_strlit(": ");
    reveal_strlit(": SMART_EDIT applied (");
    reveal_strlit(": LITERAL_REPLACE applied (");
    assert(s.subrange(0, p.len() as int) =~= p) by {
        assert forall|i: int| 0 <= i < p.len() implies s[i] == p[i] by {
            if i < h.len() {
            } else if i == h.len() {
                assert(p[i] == ": "@[0]);
            } else {
                assert(p[i] == ": "@[1]);
            }
        }
    }
}

proof fn lemma_applied(steps: Seq<StepView>, i: int)
    requires
        0 <= i < steps.len(),
    ensures
        text::has_text(applied_lines(steps), applied_line(steps[i])),
    decreases steps.len(),
{
    let front = steps.drop_last();
    if i < front.len() {
        lemma_applied(front, i);
        assert(front[i] == steps[i]);
    }
    text::found_in_either(applied_lines(front), applied_line(steps.last()), applied_line(steps[i]));
}

/// Behind a clean attempt the model is told every step that was applied.
pub proof fn clean_attempts_are_told(ctx: RepairView, i: int)
    requires
        ctx.cleanly_applied,
        0 <= i < ctx.completed_steps.len(),
    ensures
        text::has_text(repair_text(ctx), applied_line(ctx.completed_steps[i])),
        text::starts_with(repair_text(ctx), PRIOR_APPLIED_HEAD@),
{
    let p = applied_line(ctx.completed_steps[i]);
    let a = applied_lines(ctx.completed_steps);
    lemma_applied(ctx.completed_steps, i);
    text::found_in_either(PRIOR_APPLIED_HEAD@, a, p);
    text::found_in_either(PRIOR_APPLIED_HEAD@ + a, PRIOR_APPLIED_TAIL@, p);
    let s = repair_text(ctx);
    assert(s.subrange(0, PRIOR_APPLIED_HEAD@.len() as int) =~= PRIOR_APPLIED_HEAD@);
}

/// Behind a failed attempt the model is told the plan, every step that was applied, the step
/// that failed, and why.
pub proof fn failed_attempts_are_told(ctx: RepairView, i: int)
    requires
        !ctx.cleanly_applied,
    ensures
        ctx.previous_plan.len() > 0 ==> text::has_text(
            repair_text(ctx),
            parse::plan_text(ctx.previous_plan),
        ),
        0 <= i < ctx.completed_steps.len() ==> text::has_text(
            repair_text(ctx),
            applied_line(ctx.completed_steps[i]),
        ),
        ctx.failed_step matches Some(step) ==> text::has_text(
            repair_text(ctx),
            parse::step_text(step),
        ),
        ctx.lsp_regression is None ==> text::has_text(repair_text(ctx), ctx.failure_reason),
        ctx.lsp_regression matches Some(reg) ==> text::has_text(
            repair_text(ctx),
            regression_text(reg),
        ),
{
    let plan = if ctx.previous_plan.len() == 0 {
        "(empty)\n"@
    } else {
        parse::plan_text(ctx.previous_plan)
    };
    let completed = if ctx.completed_steps.len() == 0 {
        "(none — the first step failed, file is unchanged from the initial state)\n"@
    } else {
        applied_lines(ctx.completed_steps)
    };
    let failed = match ctx.failed_step {
        Some(step) => parse::step_text(step),
        None => "(no individual step failed; the plan executed in full but post-validation rejected the result — see failure reason below)\n"@,
    };
    let reason = match ctx.lsp_regression {
        Some(reg) => regression_text(reg),
        None => ctx.failure_reason,
    };
    let m1 = "\nSteps that succeeded and have ALREADY been applied to the file shown below:\n"@;
    let m2 = "\nStep that FAILED:\n"@;
    let m3 = "\nFailure reason:\n"@;
    lemma_in_seven(PRIOR_FAILED_HEAD@, plan, m1, completed, m2, failed, m3, reason, PRIOR_FAILED_TAIL@);
    if 0 <= i < ctx.completed_steps.len() {
        lemma_applied(ctx.completed_steps, i);
        text::found_through(repair_text(ctx), completed, applied_line(ctx.completed_steps[i]));
    }
}

proof fn lemma_in_seven(
    a: Seq<char>,
    b: Seq<char>,
    c: Seq<char>,
    d: Seq<char>,
    e: Seq<char>,
    f: Seq<char>,
    g: Seq<char>,
    h: Seq<char>,
    i: Seq<char>,
)
    ensures
        text::has_text(a + b + c + d + e + f + g + h + i, b),
        text::has_text(a + b + c + d + e + f + g + h + i, d),
        text::has_text(a + b + c + d + e + f + g + h + i, f),
        text::has_text(a + b + c + d + e + f + g + h + i, h),
{
    text::found_in_either(a, b, b);
    text::found_in_either(a + b, c, b);
    text::found_in_either(a + b + c, d, b);
    text::found_in_either(a + b + c + d, e, b);
    text::found_in_either(a + b + c + d + e, f, b);
    text::found_in_either(a + b + c + d + e + f, g, b);
    text::found_in_either(a + b + c + d + e + f + g, h, b);
    text::found_in_either(a + b + c + d + e + f + g + h, i, b);
    text::found_in_either(a + b + c, d, d);
    text::found_in_either(a + b + c + d, e, d);
    text::found_in_either(a + b + c + d + e, f, d);
    text::found_in_either(a + b + c + d + e + f, g, d);
    text::found_in_either(a + b + c + d + e + f + g, h, d);
    text::found_in_either(a + b + c + d + e + f + g + h, i, d);
    text::found_in_either(a + b + c + d + e, f, f);
    text::found_in_either(a + b + c + d + e + f, g, f);
    text::found_in_either(a + b + c + d + e + f + g, h, f);
    text::found_in_either(a + b + c + d + e + f + g + h, i, f);
    text::found_in_either(a + b + c + d + e + f + g, h, h);
    text::found_in_either(a + b + c + d + e + f + g + h, i, h);
}

proof fn lemma_error_line(ls: Seq<Seq<char>>, line: usize, start: int, n: int, k: int)
    requires
        start <= k < n,
    ensures
        text::has_text(error_lines(ls, line, start, n), error_line(ls[k], k + 1, line)),
    decreases n - start,
{
    if k < n - 1 {
        lemma_error_line(ls, line, start, n - 1, k);
    }
    text::found_in_either(
        error_lines(ls, line, start, n - 1),
        error_line(ls[n - 1], n, line),
        error_line(ls[k], k + 1, line),
    );
}

/// An error is shown with its place and message, and with each line of the edited file that
/// is at most five lines away from it, the line itself behind two arrows.
pub proof fn errors_are_shown_in_place(err: ErrorView, n: nat, ls: Seq<Seq<char>>, k: int)
    requires
        1 <= err.line <= ls.len(),
        1 <= k <= ls.len(),
        err.line - 5 <= k <= err.line + 5,
    ensures
        text::has_text(
            error_entry(err, n, ls),
            "    "@ + (if k == err.line {
                ">>"@
            } else {
                "  "@
            }) + " "@ + number::padded_dec(k as nat, 5) + " │ "@ + ls[k - 1] + "\n"@,
        ),
        text::starts_with(
            error_entry(err, n, ls),
            "\n["@ + number::dec(n) + "] L"@ + number::dec(err.line as nat) + ":"@ + number::dec(
                err.column as nat,
            ) + ": "@ + err.message + "\n"@,
        ),
{
    let head = "\n["@ + number::dec(n) + "] L"@ + number::dec(err.line as nat) + ":"@
        + number::dec(err.column as nat) + ": "@ + err.message + "\n"@;
    let start = if err.line > CONTEXT_RADIUS + 1 {
        err.line - 1 - CONTEXT_RADIUS
    } else {
        0
    };
    let end = if err.line + CONTEXT_RADIUS < ls.len() {
        err.line + CONTEXT_RADIUS
    } else {
        ls.len() as int
    };
    let body = error_lines(ls, err.line, start, end);
    let p = error_line(ls[k - 1], k, err.line);
    lemma_error_line(ls, err.line, start, end, k - 1);
    let h2 = head + "    post-edit context:\n"@;
    text::found_in_either(h2, body, p);
    let s = error_entry(err, n, ls);
    assert(s.subrange(0, head.len() as int) =~= head);
}

proof fn lemma_entries(errors: Seq<ErrorView>, ls: Seq<Seq<char>>, n: int, i: int)
    requires
        0 <= i < n <= errors.len(),
    ensures
        text::has_text(error_entries(errors, ls, n), error_entry(errors[i], (i + 1) as nat, ls)),
    decreases n,
{
    if i < n - 1 {
        lemma_entries(errors, ls, n - 1, i);
    }
    text::found_in_either(
        error_entries(errors, ls, n - 1),
        error_entry(errors[n - 1], n as nat, ls),
        error_entry(errors[i], (i + 1) as nat, ls),
    );
}

/// Errors that turned an attempt down are all told, in their order and numbered, with the
/// lines of the content that has them, and how many there were and are.
pub proof fn turned_down_errors_are_told(reg: RegressionView, i: int)
    requires
        0 <= i < reg.errors.len(),
    ensures
        text::has_text(
            regression_text(reg),
            error_entry(reg.errors[i], (i + 1) as nat, text::lines(reg.candidate_content)),
        ),
        text::starts_with(
            regression_text(reg),
            "LSP diagnostics worsened: "@ + number::dec(reg.baseline_count as nat) + " -> "@
                + number::dec(reg.total() as nat),
        ),
{
    let ls = text::lines(reg.candidate_content);
    let p = error_entry(reg.errors[i], (i + 1) as nat, ls);
    let h = "LSP diagnostics worsened: "@ + number::dec(reg.baseline_count as nat) + " -> "@
        + number::dec(reg.total() as nat);
    let head = h + REGRESSION_INTRO@;
    let body = error_entries(reg.errors, ls, reg.errors.len() as int);
    lemma_entries(reg.errors, ls, reg.errors.len() as int, i);
    text::found_in_either(head, body, p);
    text::found_in_either(
        head + body,
        "\n... and "@ + number::dec(reg.extra_error_count as nat) + " more error(s) not shown\n"@,
        p,
    );
    assert(regression_text(reg).subrange(0, h.len() as int) =~= h);
}

proof fn lemma_window_applied(steps: Seq<StepView>, first: usize, last: usize, n: int, i: int)
    requires
        0 <= i < n <= steps.len(),
        in_window(steps[i], first, last),
    ensures
        text::has_text(window_applied(steps, first, last, n), applied_line(steps[i])),
    decreases n,
{
    if i < n - 1 {
        lemma_window_applied(steps, first, last, n - 1, i);
    }
    text::found_in_either(
        window_applied(steps, first, last, n - 1),
        applied_line(steps[n - 1]),
        applied_line(steps[i]),
    );
}

/// With a window the model is told the outcome of every step that has a line in it: of those
/// that were applied, and of the one that failed; and nothing where no step has one.
pub proof fn window_outcomes_are_told(ctx: RepairView, first: usize, last: usize, i: int)
    ensures
        0 <= i < ctx.completed_steps.len() && ctx.completed_steps[i].start_line() <= last && first
            <= ctx.completed_steps[i].end_line() ==> text::has_text(
            window_outcomes(ctx, first, last),
            applied_line(ctx.completed_steps[i]),
        ),
        ctx.failed_step matches Some(step) ==> (step.start_line() <= last && first
            <= step.end_line() ==> text::has_text(
            window_outcomes(ctx, first, last),
            "  ✗ L"@ + number::dec(step.start_line() as nat) + "-L"@ + number::dec(
                step.end_line() as nat,
            ) + ": FAILED ("@ + shortened(ctx.failure_reason, 120, 117) + ")\n"@,
        )),
        (forall|k: int|
            0 <= k < ctx.completed_steps.len() ==> !((
            #[trigger] ctx.completed_steps[k]).start_line() <= last && first
                <= ctx.completed_steps[k].end_line())) && (ctx.failed_step matches Some(step)
            ==> !(step.start_line() <= last && first <= step.end_line())) ==> window_outcomes(
            ctx,
            first,
            last,
        ).len() == 0,
{
    let n = ctx.completed_steps.len() as int;
    let title = "Previous edit attempt — steps in this slice:\n"@;
    let done = window_applied(ctx.completed_steps, first, last, n);
    let failed = match ctx.failed_step {
        Some(step) => if in_window(step, first, last) {
            failed_line(step, ctx.failure_reason)
        } else {
            Seq::empty()
        },
        None => Seq::empty(),
    };
    if 0 <= i < n && in_window(ctx.completed_steps[i], first, last) {
        let p = applied_line(ctx.completed_steps[i]);
        assert(any_in_window(ctx.completed_steps, first, last, n));
        lemma_window_applied(ctx.completed_steps, first, last, n, i);
        text::found_in_either(title, done, p);
        text::found_in_either(title + done, failed, p);
        text::found_in_either(title + done + failed, "\n"@, p);
    }
    text::found_in_either(title + done, failed, failed);
    text::found_in_either(title + done + failed, "\n"@, failed);
}

} // verus!
