//! Running a plan, from the bottom of the file to its top.
use vstd::prelude::*;

use super::apply;
use super::apply::apply_patch_dry_run_in_region;
use super::literal;
use super::literal::{apply_literal_replace_in_scope, line_range_text};
use super::overlap::{DroppedStep, DroppedView};
use super::parse::{EditPlanStep, EditRegion, EditRegionView, PatchOp, PatchOpView, StepView};
use super::relocate::{OutcomeView, RelocateOutcome};
use super::repair::{LspRegression, RegressionView};
use super::validate;
use super::validate::{gate_truncation, validate_candidate, ValidationError, ValidationView};
use crate::number;
use crate::number::dec_text;
use crate::order;
use crate::order::sorted_positions;
use crate::text;
use crate::text::{count_lines, has_suffix};

verus! {

/// Keys by which steps are in order where the last start line comes first.
pub open spec fn bottom_keys(steps: Seq<StepView>) -> Seq<(usize, usize)> {
    Seq::new(steps.len(), |i: int| ((usize::MAX - steps[i].start_line()) as usize, 0usize))
}

/// The steps with the last start line first; those with the same one keep their
/// order.
pub open spec fn bottom_up(steps: Seq<StepView>) -> Seq<StepView> {
    let order = order::sorted(bottom_keys(steps));
    Seq::new(order.len(), |a: int| steps[order[a] as int])
}

/// Puts the step with the last start line first. Steps with the same one keep
/// their order.
pub fn sort_bottom_up(steps: &Vec<EditPlanStep>) -> (r: Vec<EditPlanStep>)
    ensures
        r.deep_view() == bottom_up(steps.deep_view()),
        r@.len() == steps@.len(),
{
    let ghost sv = steps.deep_view();
    let mut keys: Vec<(usize, usize)> = Vec::new();
    let mut i: usize = 0;
    while i < steps.len()
        invariant
            i <= steps@.len() == sv.len(),
            sv == steps.deep_view(),
            keys@ == bottom_keys(sv).take(i as int),
        decreases steps.len() - i,
    {
        proof {
            assert(sv[i as int] == steps@[i as int].deep_view());
        }
        keys.push((usize::MAX - steps[i].start_line(), 0));
        i += 1;
        proof {
            assert(keys@ =~= bottom_keys(sv).take(i as int));
        }
    }
    proof {
        assert(keys@ =~= bottom_keys(sv));
    }
    let order = sorted_positions(&keys);
    let mut out: Vec<EditPlanStep> = Vec::new();
    let mut a: usize = 0;
    proof {
        assert(out.deep_view() =~= bottom_up(sv).take(0));
    }
    while a < order.len()
        invariant
            a <= order@.len() == steps@.len() == sv.len(),
            sv == steps.deep_view(),
            order@ == order::sorted(bottom_keys(sv)),
            order::is_order(bottom_keys(sv), order@, sv.len() as int),
            out.deep_view() == bottom_up(sv).take(a as int),
            out@.len() == a,
        decreases order.len() - a,
    {
        let ghost o = out.deep_view();
        let at: usize = order[a];
        let step = steps[at].clone();
        proof {
            assert(step.deep_view() == sv[at as int]);
        }
        out.push(step);
        proof {
            assert(out.deep_view() =~= o.push(sv[at as int]));
            assert(bottom_up(sv).take(a + 1) =~= o.push(sv[at as int]));
        }
        a += 1;
    }
    proof {
        assert(bottom_up(sv).take(a as int) =~= bottom_up(sv));
    }
    out
}

/// The first `n` of the steps once more.
pub fn copy_steps(steps: &Vec<EditPlanStep>, n: usize) -> (r: Vec<EditPlanStep>)
    requires
        n <= steps@.len(),
    ensures
        r.deep_view() == steps.deep_view().take(n as int),
{
    let ghost sv = steps.deep_view();
    let mut out: Vec<EditPlanStep> = Vec::new();
    let mut i: usize = 0;
    proof {
        assert(out.deep_view() =~= sv.take(0));
    }
    while i < n
        invariant
            i <= n <= steps@.len() == sv.len(),
            sv == steps.deep_view(),
            out.deep_view() == sv.take(i as int),
        decreases n - i,
    {
        let ghost o = out.deep_view();
        let step = steps[i].clone();
        proof {
            assert(step.deep_view() == sv[i as int]);
        }
        out.push(step);
        proof {
            assert(out.deep_view() =~= o.push(sv[i as int]));
            assert(sv.take(i + 1) =~= o.push(sv[i as int]));
        }
        i += 1;
    }
    out
}

/// A plan as far as it has been run: the first `done` of its steps are in
/// `current`.
#[derive(Debug)]
pub struct StepRun {
    pub steps: Vec<EditPlanStep>,
    pub done: usize,
    pub current: String,
    pub message: String,
    /// Steps that are not run, for an overlap.
    pub dropped: Vec<DroppedStep>,
    pub planned_count: usize,
}

/// A run over texts.
pub struct RunView {
    pub steps: Seq<StepView>,
    pub done: int,
    pub current: Seq<char>,
    pub message: Seq<char>,
    pub dropped: Seq<DroppedView>,
    pub planned_count: int,
}

impl DeepView for StepRun {
    type V = RunView;

    open spec fn deep_view(&self) -> RunView {
        RunView {
            steps: self.steps.deep_view(),
            done: self.done as int,
            current: self.current@,
            message: self.message@,
            dropped: self.dropped.deep_view(),
            planned_count: self.planned_count as int,
        }
    }
}

impl RunView {
    /// No more steps are done than there are.
    pub open spec fn wf(self) -> bool {
        0 <= self.done <= self.steps.len()
    }
}

/// Why a run ended early, and how far it had come.
#[derive(Debug)]
pub struct PlannedExecutionFailure {
    pub current_content: String,
    pub message: String,
    pub error: String,
    /// The steps that were applied, in the order in which they were run.
    pub completed_steps: Vec<EditPlanStep>,
    /// The step that failed; none where all were applied and the result was
    /// turned down.
    pub failed_step: Option<EditPlanStep>,
    /// The errors, where the result was turned down for them.
    pub lsp_regression: Option<LspRegression>,
}

/// A failure over texts.
pub struct FailureView {
    pub current_content: Seq<char>,
    pub message: Seq<char>,
    pub error: Seq<char>,
    pub completed_steps: Seq<StepView>,
    pub failed_step: Option<StepView>,
    pub lsp_regression: Option<RegressionView>,
}

impl DeepView for PlannedExecutionFailure {
    type V = FailureView;

    open spec fn deep_view(&self) -> FailureView {
        FailureView {
            current_content: self.current_content@,
            message: self.message@,
            error: self.error@,
            completed_steps: self.completed_steps.deep_view(),
            failed_step: self.failed_step.deep_view(),
            lsp_regression: self.lsp_regression.deep_view(),
        }
    }
}

/// What a run produced.
#[derive(Debug)]
pub struct SplitResult {
    pub content: String,
    pub message: String,
}

/// What a step leads to, by its view.
pub open spec fn step_view(r: Result<StepRun, PlannedExecutionFailure>) -> Result<
    RunView,
    FailureView,
> {
    match r {
        Ok(run) => Ok(run.deep_view()),
        Err(e) => Err(e.deep_view()),
    }
}

/// What a run leads to, by its view: content and message, or a failure.
pub open spec fn end_view(r: Result<SplitResult, PlannedExecutionFailure>) -> Result<
    (Seq<char>, Seq<char>),
    FailureView,
> {
    match r {
        Ok(s) => Ok((s.content@, s.message@)),
        Err(e) => Err(e.deep_view()),
    }
}

/// A text that ends a line, where it is not empty.
pub open spec fn line_ended(s: Seq<char>) -> Seq<char> {
    if s.len() > 0 && !text::ends_with(s, "\n"@) {
        s + "\n"@
    } else {
        s
    }
}

/// A run that has not begun.
pub open spec fn fresh_run(
    steps: Seq<StepView>,
    dropped: Seq<DroppedView>,
    planned_count: int,
    content: Seq<char>,
    message: Seq<char>,
) -> RunView {
    RunView {
        steps: bottom_up(steps),
        done: 0,
        current: content,
        message: line_ended(message),
        dropped,
        planned_count,
    }
}

/// The run behind one more step, which gave `content` and the line `note`.
pub open spec fn behind_step(run: RunView, content: Seq<char>, note: Seq<char>) -> RunView {
    RunView { done: run.done + 1, current: content, message: run.message + note, ..run }
}

/// The failure of the next step.
pub open spec fn step_failure(run: RunView, told: Seq<char>, error: Seq<char>) -> FailureView {
    FailureView {
        current_content: run.current,
        message: run.message + told,
        error,
        completed_steps: run.steps.take(run.done),
        failed_step: Some(run.steps[run.done]),
        lsp_regression: None,
    }
}

/// What the next step of a run needs.
#[derive(Debug)]
pub enum NextStep {
    /// Nothing is left: the result is to be checked.
    Check(StepRun),
    /// The step was applied.
    Applied(StepRun),
    /// The text to be replaced was not found in place, with the error: it is to
    /// be looked for elsewhere.
    Relocate(StepRun, String),
    /// A patch of a region is to be asked for.
    Patch(StepRun),
}

/// What the next step of a run needs, over texts.
pub enum NextView {
    Check(RunView),
    Applied(RunView),
    Relocate(RunView, Seq<char>),
    Patch(RunView),
}

impl DeepView for NextStep {
    type V = NextView;

    open spec fn deep_view(&self) -> NextView {
        match *self {
            NextStep::Check(run) => NextView::Check(run.deep_view()),
            NextStep::Applied(run) => NextView::Applied(run.deep_view()),
            NextStep::Relocate(run, e) => NextView::Relocate(run.deep_view(), e@),
            NextStep::Patch(run) => NextView::Patch(run.deep_view()),
        }
    }
}

/// One line for each of the first `n` steps that were left out.
pub open spec fn dropped_lines(dropped: Seq<DroppedView>, n: int) -> Seq<char>
    decreases n,
{
    if n <= 0 {
        Seq::empty()
    } else {
        dropped_lines(dropped, n - 1) + ("dropped step "@ + literal::lines_text(
            dropped[n - 1].step.start_line(),
            dropped[n - 1].step.end_line(),
        ) + " (overlap): "@ + dropped[n - 1].reason + "\n"@)
    }
}

/// What comes next: a literal replacement is tried at once, a region needs a
/// patch, and behind the last step the steps that were left out are told of.
pub open spec fn next_of(run: RunView) -> NextView {
    if run.done >= run.steps.len() {
        NextView::Check(
            RunView {
                message: run.message + dropped_lines(run.dropped, run.dropped.len() as int),
                ..run
            },
        )
    } else {
        match run.steps[run.done] {
            StepView::SmartEdit(_) => NextView::Patch(run),
            StepView::LiteralReplace { scope_start, scope_end, all, old, new } => {
                match literal::literal_result(
                    run.current,
                    scope_start,
                    scope_end,
                    old,
                    new,
                    all,
                ) {
                    Ok((content, _)) => NextView::Applied(
                        behind_step(run, content, Seq::empty()),
                    ),
                    Err(e) => NextView::Relocate(run, e),
                }
            },
        }
    }
}

/// Where the text was not found: what came of looking for it elsewhere.
pub open spec fn after_relocation(run: RunView, error: Seq<char>, outcome: OutcomeView) -> Result<
    RunView,
    FailureView,
> {
    let step = run.steps[run.done];
    let scope = literal::lines_text(step.start_line(), step.end_line());
    let number = number::dec((run.done + 1) as nat);
    match outcome {
        OutcomeView::Applied { new_content, located_at } => Ok(
            behind_step(
                run,
                new_content,
                "literal-replace "@ + scope + " relocated to "@ + literal::lines_text(
                    located_at.0,
                    located_at.1,
                ) + " after planner confirmation\n"@,
            ),
        ),
        _ => {
            let why = if outcome is Rejected {
                "; relocated candidate rejected by planner"@
            } else {
                "; no relocation candidate found in file"@
            };
            Err(
                step_failure(
                    run,
                    "Pre-plan step "@ + number + " literal "@ + scope + " failed after "@
                        + number::dec(run.done as nat) + " completed step(s): "@ + error + why
                        + "\n"@,
                    "step "@ + number + " literal replace failed: "@ + error + why,
                ),
            )
        },
    }
}

/// What came of a patch of a region: the new content and the number of
/// operations.
pub open spec fn after_patch(run: RunView, patched: Result<(Seq<char>, int), Seq<char>>) -> Result<
    RunView,
    FailureView,
> {
    let step = run.steps[run.done];
    let scope = literal::lines_text(step.start_line(), step.end_line());
    match patched {
        Err(e) => {
            let label = "step "@ + number::dec((run.done + 1) as nat) + " smart "@ + scope;
            Err(
                step_failure(
                    run,
                    "Pre-plan "@ + label + " failed after "@ + number::dec(run.done as nat)
                        + " completed step(s): "@ + e + "\n"@,
                    label + " failed: "@ + e,
                ),
            )
        },
        Ok((content, count)) => if count == 0 {
            Ok(behind_step(run, run.current, "smart-edit "@ + scope + ": no changes\n"@))
        } else {
            Ok(behind_step(run, content, Seq::empty()))
        },
    }
}

/// The verdict on a result by its view: a note or none, or an error.
pub open spec fn verdict_view(v: Result<Option<String>, ValidationError>) -> Result<
    Option<Seq<char>>,
    ValidationView,
> {
    match v {
        Ok(note) => Ok(note.deep_view()),
        Err(e) => Err(e.deep_view()),
    }
}

/// The end of a run, with the verdict on its result.
pub open spec fn end_of(
    run: RunView,
    path: Seq<char>,
    label: Seq<char>,
    verdict: Result<Option<Seq<char>>, ValidationView>,
) -> Result<(Seq<char>, Seq<char>), FailureView> {
    let done = number::dec(run.done as nat);
    let planned = number::dec(run.planned_count as nat);
    match verdict {
        Err(e) => {
            let told = validate::validation_summary(e);
            Err(
                FailureView {
                    current_content: run.current,
                    message: run.message + ("Pre-plan validation failed after "@ + done + "/"@
                        + planned + " completed step(s): "@ + told + "\n"@),
                    error: told,
                    completed_steps: run.steps.take(run.done),
                    failed_step: None,
                    lsp_regression: match e {
                        ValidationView::LspRegression(reg) => Some(reg),
                        ValidationView::Other(_) => None,
                    },
                },
            )
        },
        Ok(note) => {
            let noted = match note {
                Some(n) => run.message + n + "\n"@,
                None => run.message,
            };
            let counted = if run.done == run.planned_count && run.dropped.len() == 0 {
                done
            } else {
                done + "/"@ + planned
            };
            Ok(
                (
                    run.current,
                    "✓ "@ + label + ": applied "@ + counted + " step(s) to "@ + path + " ("@
                        + number::dec(text::lines(run.current).len()) + " lines)\n"@ + noted,
                ),
            )
        },
    }
}

fn dropped_report(dropped: &Vec<DroppedStep>) -> (r: String)
    ensures
        r@ == dropped_lines(dropped.deep_view(), dropped@.len() as int),
{
    let ghost dv = dropped.deep_view();
    let mut out = String::new();
    let mut i: usize = 0;
    while i < dropped.len()
        invariant
            i <= dropped@.len() == dv.len(),
            dv == dropped.deep_view(),
            out@ == dropped_lines(dv, i as int),
        decreases dropped.len() - i,
    {
        let d = &dropped[i];
        proof {
            assert(dv[i as int] == d.deep_view());
        }
        out.append(
            &"dropped step ".to_owned().concat(
                &line_range_text(d.step.start_line(), d.step.end_line()),
            ).concat(" (overlap): ").concat(&d.reason).concat("\n"),
        );
        i += 1;
    }
    out
}

impl StepRun {
    /// Begins the run of a plan. `message` is what was told before.
    pub fn start(
        steps: &Vec<EditPlanStep>,
        dropped: Vec<DroppedStep>,
        planned_count: usize,
        content: &str,
        message: &str,
    ) -> (r: StepRun)
        ensures
            r.deep_view() == fresh_run(
                steps.deep_view(),
                dropped.deep_view(),
                planned_count as int,
                content@,
                message@,
            ),
            r.deep_view().wf(),
    {
        let told = if !message.is_empty() && !has_suffix(message, "\n") {
            message.to_owned().concat("\n")
        } else {
            message.to_owned()
        };
        StepRun {
            steps: sort_bottom_up(steps),
            done: 0,
            current: content.to_owned(),
            message: told,
            dropped,
            planned_count,
        }
    }

    fn behind(self, content: String, note: String) -> (r: StepRun)
        requires
            self.done < self.steps@.len(),
        ensures
            r.deep_view() == behind_step(self.deep_view(), content@, note@),
    {
        proof {
            assert(self.done < self.steps.len());
        }
        let message = self.message.concat(&note);
        StepRun {
            steps: self.steps,
            done: self.done + 1,
            current: content,
            message,
            dropped: self.dropped,
            planned_count: self.planned_count,
        }
    }

    fn fail(self, told: String, error: String) -> (r: PlannedExecutionFailure)
        requires
            self.done < self.steps@.len(),
        ensures
            r.deep_view() == step_failure(self.deep_view(), told@, error@),
    {
        let completed_steps = copy_steps(&self.steps, self.done);
        let failed = self.steps[self.done].clone();
        proof {
            assert(failed.deep_view() == self.steps.deep_view()[self.done as int]);
        }
        let message = self.message.concat(&told);
        PlannedExecutionFailure {
            current_content: self.current,
            message,
            error,
            completed_steps,
            failed_step: Some(failed),
            lsp_regression: None,
        }
    }

    /// Takes the next step, as far as it needs nothing from outside.
    pub fn advance(self) -> (r: NextStep)
        requires
            self.deep_view().wf(),
            self.current@.len() < usize::MAX,
        ensures
            r.deep_view() == next_of(self.deep_view()),
            match r.deep_view() {
                NextView::Check(run) => run.wf() && run.done == run.steps.len(),
                NextView::Applied(run) => run.wf(),
                NextView::Relocate(run, _) => run.wf() && run.done < run.steps.len(),
                NextView::Patch(run) => run.wf() && run.done < run.steps.len(),
            },
    {
        let ghost sv = self.steps.deep_view();
        proof {
            assert(self.steps@.len() == sv.len());
            assert(self.dropped@.len() == self.dropped.deep_view().len());
        }
        if self.done >= self.steps.len() {
            let message = self.message.concat(&dropped_report(&self.dropped));
            return NextStep::Check(
                StepRun {
                    steps: self.steps,
                    done: self.done,
                    current: self.current,
                    message,
                    dropped: self.dropped,
                    planned_count: self.planned_count,
                },
            );
        }
        proof {
            assert(sv[self.done as int] == self.steps@[self.done as int].deep_view());
        }
        let tried = match &self.steps[self.done] {
            EditPlanStep::SmartEdit(_) => None,
            EditPlanStep::LiteralReplace { scope_start, scope_end, all, old, new } => Some(
                apply_literal_replace_in_scope(
                    &self.current,
                    *scope_start,
                    *scope_end,
                    old.as_slice(),
                    new.as_slice(),
                    *all,
                ),
            ),
        };
        match tried {
            None => NextStep::Patch(self),
            Some(Ok((content, _))) => NextStep::Applied(self.behind(content, String::new())),
            Some(Err(e)) => NextStep::Relocate(self, e),
        }
    }

    /// Goes on behind a search for the text elsewhere. `literal_error` tells why it
    /// was not replaced in place.
    pub fn take_relocation(self, literal_error: &str, outcome: RelocateOutcome) -> (r: Result<
        StepRun,
        PlannedExecutionFailure,
    >)
        requires
            self.deep_view().wf(),
            self.done < self.steps@.len(),
        ensures
            step_view(r) == after_relocation(
                self.deep_view(),
                literal_error@,
                outcome.deep_view(),
            ),
            r matches Ok(run) ==> run.deep_view().wf(),
    {
        proof {
            assert(self.steps.deep_view()[self.done as int]
                == self.steps@[self.done as int].deep_view());
            assert(self.done < self.steps.len());
        }
        let step = &self.steps[self.done];
        let scope = line_range_text(step.start_line(), step.end_line());
        let number = dec_text(self.done + 1);
        let why = match outcome {
            RelocateOutcome::Applied { new_content, located_at } => {
                return Ok(
                    self.behind(
                        new_content,
                        "literal-replace ".to_owned().concat(&scope).concat(
                            " relocated to ",
                        ).concat(&line_range_text(located_at.0, located_at.1)).concat(
                            " after planner confirmation\n",
                        ),
                    ),
                );
            },
            RelocateOutcome::Rejected => "; relocated candidate rejected by planner",
            RelocateOutcome::NoCandidate => "; no relocation candidate found in file",
        };
        let told = "Pre-plan step ".to_owned().concat(&number).concat(" literal ").concat(
            &scope,
        ).concat(" failed after ").concat(&dec_text(self.done)).concat(
            " completed step(s): ",
        ).concat(literal_error).concat(why).concat("\n");
        let error = "step ".to_owned().concat(&number).concat(" literal replace failed: ").concat(
            literal_error,
        ).concat(why);
        Err(self.fail(told, error))
    }

    /// Goes on behind a patch of the region of the next step.
    pub fn take_patch(self, patched: Result<(String, usize), String>) -> (r: Result<
        StepRun,
        PlannedExecutionFailure,
    >)
        requires
            self.deep_view().wf(),
            self.done < self.steps@.len(),
        ensures
            step_view(r) == after_patch(self.deep_view(), text::result_at(patched)),
            r matches Ok(run) ==> run.deep_view().wf(),
    {
        proof {
            assert(self.steps.deep_view()[self.done as int]
                == self.steps@[self.done as int].deep_view());
            assert(self.done < self.steps.len());
        }
        let step = &self.steps[self.done];
        let scope = line_range_text(step.start_line(), step.end_line());
        match patched {
            Err(e) => {
                let label = "step ".to_owned().concat(&dec_text(self.done + 1)).concat(
                    " smart ",
                ).concat(&scope);
                let told = "Pre-plan ".to_owned().concat(&label).concat(" failed after ").concat(
                    &dec_text(self.done),
                ).concat(" completed step(s): ").concat(&e).concat("\n");
                Err(self.fail(told, label.concat(" failed: ").concat(&e)))
            },
            Ok((content, count)) => {
                if count == 0 {
                    let same = self.current.clone();
                    Ok(
                        self.behind(
                            same,
                            "smart-edit ".to_owned().concat(&scope).concat(": no changes\n"),
                        ),
                    )
                } else {
                    Ok(self.behind(content, String::new()))
                }
            },
        }
    }

    /// Ends the run with the verdict on its result.
    pub fn conclude(
        self,
        path_str: &str,
        success_label: &str,
        verdict: Result<Option<String>, ValidationError>,
    ) -> (r: Result<SplitResult, PlannedExecutionFailure>)
        requires
            self.deep_view().wf(),
        ensures
            end_view(r) == end_of(
                self.deep_view(),
                path_str@,
                success_label@,
                verdict_view(verdict),
            ),
    {
        let done = dec_text(self.done);
        let planned = dec_text(self.planned_count);
        proof {
            assert(self.dropped@.len() == self.dropped.deep_view().len());
            assert(self.steps@.len() == self.steps.deep_view().len());
        }
        match verdict {
            Err(e) => {
                let error = e.summary();
                let lsp_regression = match e {
                    ValidationError::LspRegression(reg) => Some(reg),
                    ValidationError::Other(_) => None,
                };
                let completed_steps = copy_steps(&self.steps, self.done);
                let message = self.message.concat(
                    &"Pre-plan validation failed after ".to_owned().concat(&done).concat(
                        "/",
                    ).concat(&planned).concat(" completed step(s): ").concat(&error).concat("\n"),
                );
                Err(
                    PlannedExecutionFailure {
                        current_content: self.current,
                        message,
                        error,
                        completed_steps,
                        failed_step: None,
                        lsp_regression,
                    },
                )
            },
            Ok(note) => {
                let noted = match note {
                    Some(n) => self.message.concat(&n).concat("\n"),
                    None => self.message,
                };
                let counted = if self.done == self.planned_count && self.dropped.len() == 0 {
                    done
                } else {
                    done.concat("/").concat(&planned)
                };
                let message = "✓ ".to_owned().concat(success_label).concat(": applied ").concat(
                    &counted,
                ).concat(" step(s) to ").concat(path_str).concat(" (").concat(
                    &dec_text(count_lines(&self.current)),
                ).concat(" lines)\n").concat(&noted);
                Ok(SplitResult { content: self.current, message })
            },
        }
    }
}

/// What a patch makes of a region: content and number of operations. Without
/// operations nothing changes, if that is allowed.
pub open spec fn smart_result(
    current: Seq<char>,
    ops: Seq<PatchOpView>,
    region: EditRegionView,
    allow_no_changes: bool,
) -> Result<(Seq<char>, int), Seq<char>> {
    if ops.len() == 0 {
        if allow_no_changes {
            Ok((current, 0))
        } else {
            Err("smart edit returned NO_CHANGES"@)
        }
    } else {
        match apply::region_patch_result(current, ops, region.start, region.end) {
            Err(e) => Err(e),
            Ok(candidate) => match validate::candidate_verdict(current, candidate) {
                Err(e) => Err(e),
                Ok(_) => Ok((candidate, ops.len() as int)),
            },
        }
    }
}

/// Applies the patch of a region.
pub fn apply_smart_step(
    current: &str,
    ops: &Vec<PatchOp>,
    region: &EditRegion,
    allow_no_changes: bool,
) -> (r: Result<(String, usize), String>)
    requires
        text::lines(current@).len() < usize::MAX,
    ensures
        text::result_at(r) == smart_result(
            current@,
            ops.deep_view(),
            region.deep_view(),
            allow_no_changes,
        ),
{
    proof {
        assert(ops@.len() == ops.deep_view().len());
    }
    if ops.len() == 0 {
        if allow_no_changes {
            return Ok((current.to_owned(), 0));
        }
        return Err("smart edit returned NO_CHANGES".to_owned());
    }
    match apply_patch_dry_run_in_region(current, ops.as_slice(), region.start, region.end) {
        Err(e) => Err(e),
        Ok(candidate) => match validate_candidate(current, &candidate) {
            Err(e) => Err(e),
            Ok(()) => Ok((candidate, ops.len())),
        },
    }
}

/// What speaks against writing a candidate before it is checked for errors: that
/// it is empty, or that it cuts a large file short without consent.
pub open spec fn write_verdict(
    path: Seq<char>,
    original: Seq<char>,
    candidate: Seq<char>,
    confirmed: bool,
) -> Result<(), Seq<char>> {
    match validate::candidate_verdict(original, candidate) {
        Err(e) => Err(e),
        Ok(_) => validate::truncation_verdict(path, original, candidate, confirmed),
    }
}

/// Tests a candidate before it is checked for errors.
pub fn check_candidate(path_str: &str, original: &str, candidate: &str, confirmed: bool) -> (r:
    Result<(), String>)
    ensures
        text::result_view(r) == write_verdict(path_str@, original@, candidate@, confirmed),
{
    match validate_candidate(original, candidate) {
        Err(e) => Err(e),
        Ok(()) => gate_truncation(path_str, original, candidate, confirmed),
    }
}

/// Every step of a plan is run once: the steps in the order in which they are run
/// are those of the plan, and none starts behind an earlier one.
pub proof fn bottom_up_is_a_reordering(steps: Seq<StepView>)
    requires
        steps.len() <= usize::MAX,
    ensures
        bottom_up(steps).len() == steps.len(),
        forall|a: int, b: int|
            0 <= a < b < steps.len() ==> (#[trigger] bottom_up(steps)[a]).start_line() >= (
            #[trigger] bottom_up(steps)[b]).start_line(),
        forall|i: int| 0 <= i < steps.len() ==> bottom_up(steps).contains(#[trigger] steps[i]),
{
    let keys = bottom_keys(steps);
    let o = order::sorted(keys);
    order::lemma_sorted(keys);
    assert forall|a: int, b: int| 0 <= a < b < steps.len() implies (#[trigger] bottom_up(
        steps,
    )[a]).start_line() >= (#[trigger] bottom_up(steps)[b]).start_line() by {
        assert(order::precedes(keys, o[a] as int, o[b] as int));
    }
    assert forall|i: int| 0 <= i < steps.len() implies bottom_up(steps).contains(
        #[trigger] steps[i],
    ) by {
        assert(o.contains(i as usize));
        let a = choose|a: int| 0 <= a < o.len() && o[a] == i as usize;
        assert(bottom_up(steps)[a] == steps[i]);
    }
}

/// A literal step leaves the lines above its own as they were: the steps that are
/// run behind it, which lie above it, find their lines under the planned numbers.
pub proof fn applied_step_keeps_lines_above(run: RunView, later: StepView)
    requires
        0 <= run.done < run.steps.len(),
        1 <= later.start_line() <= later.end_line() < run.steps[run.done].start_line(),
    ensures
        next_of(run) matches NextView::Applied(next) ==> {
            &&& next.steps == run.steps
            &&& next.done == run.done + 1
            &&& text::lines(next.current).len() >= later.end_line()
            &&& text::lines(next.current).subrange(
                later.start_line() - 1,
                later.end_line() as int,
            ) == text::lines(run.current).subrange(
                later.start_line() - 1,
                later.end_line() as int,
            )
        },
{
    match run.steps[run.done] {
        StepView::LiteralReplace { scope_start, scope_end, all, old, new } => {
            literal::literal_keeps_the_rest(run.current, scope_start, scope_end, old, new, all);
            match next_of(run) {
                NextView::Applied(next) => {
                    let k = scope_start - 1;
                    let a = text::lines(run.current);
                    let b = text::lines(next.current);
                    let from = later.start_line() - 1;
                    let to = later.end_line() as int;
                    assert(a.take(k) == b.take(k));
                    assert(a.take(k).len() == k);
                    assert(a.subrange(from, to) =~= a.take(k).subrange(from, to));
                    assert(b.subrange(from, to) =~= b.take(k).subrange(from, to));
                },
                _ => {},
            }
        },
        StepView::SmartEdit(_) => {},
    }
}

/// A patched step leaves the lines above its region as they were too. Left out is a
/// patch that leaves nothing but those lines, the last of them empty: it does not
/// count as a line any more.
pub proof fn patched_step_keeps_lines_above(
    run: RunView,
    ops: Seq<PatchOpView>,
    region: EditRegionView,
    allow_no_changes: bool,
    later: StepView,
)
    requires
        0 <= run.done < run.steps.len(),
        run.steps[run.done] == StepView::SmartEdit(region),
        1 <= later.start_line() <= later.end_line() < region.start,
        region.start <= text::lines(run.current).len() <= usize::MAX,
        ops.len() <= usize::MAX,
        forall|k: int|
            0 <= k < region.start - 1 ==> text::is_line(#[trigger] text::lines(run.current)[k]),
        ({
            let ls = text::lines(run.current);
            apply::resolve_all(ls, ops) matches Ok(v) ==> (text::loses_last_line(
                apply::patched_lines(ls, v),
                text::ends_with(run.current, "\n"@),
            ) ==> apply::patched_lines(ls, v).len() > region.start - 1)
        }),
    ensures
        after_patch(run, smart_result(run.current, ops, region, allow_no_changes)) matches Ok(next)
            ==> {
            &&& next.steps == run.steps
            &&& next.done == run.done + 1
            &&& text::lines(next.current).len() >= later.end_line()
            &&& text::lines(next.current).subrange(
                later.start_line() - 1,
                later.end_line() as int,
            ) == text::lines(run.current).subrange(
                later.start_line() - 1,
                later.end_line() as int,
            )
        },
{
    let patched = smart_result(run.current, ops, region, allow_no_changes);
    if patched is Ok && ops.len() > 0 {
        apply::region_patch_keeps_lines_above(run.current, ops, region.start, region.end);
        let k = region.start - 1;
        let a = text::lines(run.current);
        let b = text::lines(patched->Ok_0.0);
        let from = later.start_line() - 1;
        let to = later.end_line() as int;
        assert(a.take(k) == b.take(k));
        assert(a.subrange(from, to) =~= a.take(k).subrange(from, to));
        assert(b.subrange(from, to) =~= b.take(k).subrange(from, to));
    }
}

/// A literal step whose text stands in one place of its scope is applied there: exactly
/// those characters give way to the new lines, and the run goes on with the next step.
pub proof fn literal_step_is_applied(
    run: RunView,
    scope_start: usize,
    scope_end: usize,
    all: bool,
    old: Seq<Seq<char>>,
    new: Seq<Seq<char>>,
    k: int,
)
    requires
        0 <= run.done < run.steps.len(),
        run.steps[run.done] == (StepView::LiteralReplace { scope_start, scope_end, all, old, new }),
        literal::is_scope(run.current, scope_start, scope_end),
        old.len() > 0,
        ({
            let p = text::join(old, "\n"@);
            let lo = text::line_offset(run.current, scope_start - 1);
            let hi = text::line_offset(run.current, scope_end as int);
            &&& p.len() > 0
            &&& lo <= k <= hi - p.len()
            &&& run.current.subrange(k, k + p.len()) == p
            &&& forall|j: int|
                lo <= j <= hi - p.len() && (j < k || k + p.len() <= j)
                    ==> #[trigger] run.current.subrange(j, j + p.len()) != p
        }),
    ensures
        next_of(run) matches NextView::Applied(next) && {
            &&& next.current == run.current.take(k) + text::join(new, "\n"@) + run.current.skip(
                k + text::join(old, "\n"@).len(),
            )
            &&& next.done == run.done + 1
            &&& next.steps == run.steps
            &&& next.message == run.message
            &&& next.dropped == run.dropped
        },
{
    literal::literal_replaces_the_one_place(
        run.current,
        scope_start,
        scope_end,
        old,
        new,
        all,
        k,
    );
    assert(run.message + Seq::<char>::empty() =~= run.message);
}

/// No step is passed over: the run asks for a check exactly where all steps are done, and
/// for a patch exactly where the next step is one; asking changes neither the file nor
/// what is done.
pub proof fn steps_are_taken_in_turn(run: RunView)
    requires
        run.wf(),
    ensures
        next_of(run) is Check <==> run.done == run.steps.len(),
        run.done < run.steps.len() ==> (next_of(run) is Patch <==> run.steps[run.done] is SmartEdit),
        match next_of(run) {
            NextView::Check(r) => r.current == run.current && r.done == run.done && r.steps
                == run.steps,
            NextView::Patch(r) => r == run,
            NextView::Relocate(r, _) => r == run,
            NextView::Applied(r) => r.done == run.done + 1 && r.steps == run.steps,
        },
{
}

/// A step that fails changes nothing: the failure holds the file as the steps before left
/// it, those steps, and the step that failed. One that is applied goes on with its new
/// content.
pub proof fn failed_steps_change_nothing(
    run: RunView,
    error: Seq<char>,
    outcome: OutcomeView,
    patched: Result<(Seq<char>, int), Seq<char>>,
)
    requires
        run.wf(),
        run.done < run.steps.len(),
    ensures
        match after_relocation(run, error, outcome) {
            Ok(next) => (outcome matches OutcomeView::Applied { new_content, .. }
                && next.current == new_content) && next.done == run.done + 1 && next.steps
                == run.steps,
            Err(f) => outcome !is Applied && f.current_content == run.current && f.completed_steps
                == run.steps.take(run.done) && f.failed_step == Some(run.steps[run.done])
                && text::has_text(f.error, error) && text::has_text(f.message, error),
        },
        match after_patch(run, patched) {
            Ok(next) => (patched matches Ok(p) && next.current == (if p.1 == 0 {
                run.current
            } else {
                p.0
            })) && next.done == run.done + 1 && next.steps == run.steps,
            Err(f) => (patched matches Err(e) && text::has_text(f.error, e)) && f.current_content
                == run.current && f.completed_steps == run.steps.take(run.done) && f.failed_step
                == Some(run.steps[run.done]),
        },
{
    let step = run.steps[run.done];
    let scope = literal::lines_text(step.start_line(), step.end_line());
    let number = number::dec((run.done + 1) as nat);
    let why = if outcome is Rejected {
        "; relocated candidate rejected by planner"@
    } else {
        "; no relocation candidate found in file"@
    };
    let h = "step "@ + number + " literal replace failed: "@;
    text::found_in_either(h, error, error);
    text::found_in_either(h + error, why, error);
    let g = "Pre-plan step "@ + number + " literal "@ + scope + " failed after "@ + number::dec(
        run.done as nat,
    ) + " completed step(s): "@;
    text::found_in_either(g, error, error);
    text::found_in_either(g + error, why, error);
    text::found_in_either(g + error + why, "\n"@, error);
    text::found_in_either(run.message, g + error + why + "\n"@, error);
    match patched {
        Err(e) => {
            let label = "step "@ + number + " smart "@ + scope;
            text::found_in_either(label + " failed: "@, e, e);
        },
        Ok(_) => {},
    }
}

/// What a run ends with is the file as its steps left it: as the result where the check
/// passes, and in the failure where it does not.
pub proof fn run_ends_with_its_content(
    run: RunView,
    path: Seq<char>,
    label: Seq<char>,
    verdict: Result<Option<Seq<char>>, ValidationView>,
)
    ensures
        end_of(run, path, label, verdict) is Ok <==> verdict is Ok,
        match end_of(run, path, label, verdict) {
            Ok(r) => r.0 == run.current && text::starts_with(r.1, "✓ "@ + label + ": applied "@)
                && text::ends_with(
                r.1,
                match verdict->Ok_0 {
                    Some(n) => run.message + n + "\n"@,
                    None => run.message,
                },
            ),
            Err(f) => f.current_content == run.current && f.completed_steps == run.steps.take(
                run.done,
            ) && f.failed_step is None && (f.lsp_regression is Some <==> (verdict matches Err(
                ValidationView::LspRegression(_),
            ))),
        },
{
    match end_of(run, path, label, verdict) {
        Ok(r) => {
            let p = "✓ "@ + label + ": applied "@;
            assert(r.1.subrange(0, p.len() as int) =~= p);
            let e = match verdict->Ok_0 {
                Some(n) => run.message + n + "\n"@,
                None => run.message,
            };
            assert(r.1.subrange(r.1.len() - e.len(), r.1.len() as int) =~= e);
        },
        Err(_) => {},
    }
}

/// A patch without operations is accepted only where no changes are allowed, and then
/// changes nothing; any other is the patch of its region, checked.
pub proof fn patches_stay_in_their_region(
    current: Seq<char>,
    ops: Seq<PatchOpView>,
    region: EditRegionView,
    allow_no_changes: bool,
)
    ensures
        smart_result(current, ops, region, allow_no_changes) matches Ok((out, n)) ==> {
            &&& n == ops.len()
            &&& n == 0 ==> allow_no_changes && out == current
            &&& n > 0 ==> apply::region_patch_result(current, ops, region.start, region.end) == Ok::<
                Seq<char>,
                Seq<char>,
            >(out)
        },
        ops.len() == 0 ==> (smart_result(current, ops, region, allow_no_changes) is Ok
            <==> allow_no_changes),
{
}

proof fn lemma_dropped_line(dropped: Seq<DroppedView>, n: int, i: int)
    requires
        0 <= i < n <= dropped.len(),
    ensures
        text::has_text(
            dropped_lines(dropped, n),
            "dropped step "@ + literal::lines_text(
                dropped[i].step.start_line(),
                dropped[i].step.end_line(),
            ) + " (overlap): "@ + dropped[i].reason + "\n"@,
        ),
    decreases n,
{
    if i < n - 1 {
        lemma_dropped_line(dropped, n - 1, i);
    }
    text::found_in_either(
        dropped_lines(dropped, n - 1),
        "dropped step "@ + literal::lines_text(
            dropped[n - 1].step.start_line(),
            dropped[n - 1].step.end_line(),
        ) + " (overlap): "@ + dropped[n - 1].reason + "\n"@,
        "dropped step "@ + literal::lines_text(
            dropped[i].step.start_line(),
            dropped[i].step.end_line(),
        ) + " (overlap): "@ + dropped[i].reason + "\n"@,
    );
}

/// Behind the last step the content stays, and each step that was left out is told of with
/// its lines and the reason.
pub proof fn dropped_steps_are_told(run: RunView, i: int)
    requires
        run.done >= run.steps.len(),
        0 <= i < run.dropped.len(),
    ensures
        next_of(run) matches NextView::Check(r) && r.current == run.current && text::starts_with(
            r.message,
            run.message,
        ) && text::has_text(
            r.message,
            "dropped step "@ + literal::lines_text(
                run.dropped[i].step.start_line(),
                run.dropped[i].step.end_line(),
            ) + " (overlap): "@ + run.dropped[i].reason + "\n"@,
        ),
{
    let n = run.dropped.len() as int;
    let more = dropped_lines(run.dropped, n);
    lemma_dropped_line(run.dropped, n, i);
    text::found_in_either(
        run.message,
        more,
        "dropped step "@ + literal::lines_text(
            run.dropped[i].step.start_line(),
            run.dropped[i].step.end_line(),
        ) + " (overlap): "@ + run.dropped[i].reason + "\n"@,
    );
    assert((run.message + more).subrange(0, run.message.len() as int) =~= run.message);
}

/// A candidate is turned down before it is checked where it empties the file, or where it
/// leaves less than half of a file of more than fifty lines and nobody agreed to that.
pub proof fn bad_candidates_are_turned_down(
    path: Seq<char>,
    original: Seq<char>,
    candidate: Seq<char>,
    confirmed: bool,
)
    ensures
        write_verdict(path, original, candidate, confirmed) is Err <==> (original.len() > 0
            && candidate.len() == 0) || (text::lines(original).len() > 50 && 2 * text::lines(
            candidate,
        ).len() + 2 <= text::lines(original).len() && !confirmed),
{
    validate::emptied_files_are_refused(original, candidate);
    validate::large_cuts_must_be_confirmed(path, original, candidate, confirmed);
}

/// A run begins with no step done, with the content and the message it is given, and with the
/// steps of the plan from the bottom of the file up.
pub proof fn runs_begin_with_nothing_done(
    steps: Seq<StepView>,
    dropped: Seq<DroppedView>,
    planned_count: int,
    content: Seq<char>,
    message: Seq<char>,
    i: int,
)
    requires
        steps.len() <= usize::MAX,
    ensures
        ({
            let run = fresh_run(steps, dropped, planned_count, content, message);
            &&& run.done == 0 && run.current == content && run.dropped == dropped
            &&& run.planned_count == planned_count && run.steps.len() == steps.len()
            &&& 0 <= i < steps.len() ==> run.steps.contains(steps[i])
            &&& forall|a: int, b: int|
                0 <= a < b < steps.len() ==> (#[trigger] run.steps[a]).start_line() >= (
                #[trigger] run.steps[b]).start_line()
            &&& message.len() == 0 ==> run.message.len() == 0
            &&& message.len() > 0 ==> run.message.last() == '\n' && (run.message == message
                || run.message == message.push('\n'))
            &&& message.len() > 0 && message.last() == '\n' ==> run.message == message
        }),
{
    bottom_up_is_a_reordering(steps);
    reveal_strlit("\n");
    if message.len() > 0 {
        let n = message.len() as int;
        if message.last() == '\n' {
            assert(message.subrange(n - 1, n) =~= "\n"@);
        } else if text::ends_with(message, "\n"@) {
            assert(message.subrange(n - 1, n)[0] == message[n - 1]);
        }
        assert(message + "\n"@ =~= message.push('\n'));
    }
}

/// What was told of a run stays told; a text that was found elsewhere is told of with the
/// lines it was planned for and those it was found at, and a patch without changes as such.
pub proof fn steps_are_told(
    run: RunView,
    error: Seq<char>,
    outcome: OutcomeView,
    patched: Result<(Seq<char>, int), Seq<char>>,
)
    ensures
        match after_relocation(run, error, outcome) {
            Ok(next) => text::starts_with(next.message, run.message) && (outcome matches
                OutcomeView::Applied { located_at, .. } && text::has_text(
                next.message,
                literal::lines_text(
                    run.steps[run.done].start_line(),
                    run.steps[run.done].end_line(),
                ) + " relocated to "@ + literal::lines_text(located_at.0, located_at.1),
            )) && next.dropped == run.dropped && next.planned_count == run.planned_count,
            Err(f) => text::starts_with(f.message, run.message),
        },
        match after_patch(run, patched) {
            Ok(next) => text::starts_with(next.message, run.message) && (patched matches Ok(p)
                && (p.1 == 0 ==> text::has_text(
                next.message,
                literal::lines_text(
                    run.steps[run.done].start_line(),
                    run.steps[run.done].end_line(),
                ) + ": no changes"@,
            )) && (p.1 != 0 ==> next.message == run.message)) && next.dropped == run.dropped
                && next.planned_count == run.planned_count,
            Err(f) => text::starts_with(f.message, run.message),
        },
{
    let m = run.message;
    let scope = literal::lines_text(
        run.steps[run.done].start_line(),
        run.steps[run.done].end_line(),
    );
    match after_relocation(run, error, outcome) {
        Ok(next) => {
            assert(next.message.subrange(0, m.len() as int) =~= m);
            match outcome {
                OutcomeView::Applied { new_content, located_at } => {
                    let p = scope + " relocated to "@ + literal::lines_text(
                        located_at.0,
                        located_at.1,
                    );
                    let a = m + "literal-replace "@;
                    let b = " after planner confirmation\n"@;
                    assert(next.message =~= a + p + b);
                    text::found_between(a, p, b);
                },
                _ => {},
            }
        },
        Err(f) => {
            assert(f.message.subrange(0, m.len() as int) =~= m);
        },
    }
    match after_patch(run, patched) {
        Ok(next) => {
            assert(next.message.subrange(0, m.len() as int) =~= m);
            match patched {
                Ok(q) => {
                    if q.1 == 0 {
                        let p = scope + ": no changes"@;
                        assert(": no changes\n"@ =~= ": no changes"@ + "\n"@) by {
                            reveal_strlit(": no changes\n");
                            reveal_strlit(": no changes");
                            reveal_strlit("\n");
                        }
                        let a = m + "smart-edit "@;
                        assert(next.message =~= a + p + "\n"@);
                        text::found_between(a, p, "\n"@);
                    } else {
                        assert(next.message =~= m);
                    }
                },
                Err(_) => {},
            }
        },
        Err(f) => {
            assert(f.message.subrange(0, m.len() as int) =~= m);
        },
    }
}

/// The message of a run that ends well tells how many steps were applied, to which file, and
/// how many lines it has.
pub proof fn run_tells_its_count(
    run: RunView,
    path: Seq<char>,
    label: Seq<char>,
    note: Option<Seq<char>>,
)
    ensures
        end_of(run, path, label, Ok(note)) matches Ok(r) && text::starts_with(
            r.1,
            "✓ "@ + label + ": applied "@ + number::dec(run.done as nat) + (if run.done
                == run.planned_count && run.dropped.len() == 0 {
                Seq::empty()
            } else {
                "/"@ + number::dec(run.planned_count as nat)
            }) + " step(s) to "@ + path + " ("@ + number::dec(text::lines(run.current).len())
                + " lines)"@,
        ),
{
    let done = number::dec(run.done as nat);
    let more = if run.done == run.planned_count && run.dropped.len() == 0 {
        Seq::empty()
    } else {
        "/"@ + number::dec(run.planned_count as nat)
    };
    let h = "✓ "@ + label + ": applied "@ + done + more + " step(s) to "@ + path + " ("@
        + number::dec(text::lines(run.current).len()) + " lines)"@;
    assert(" lines)\n"@ =~= " lines)"@ + "\n"@) by {
        reveal_strlit(" lines)\n");
        reveal_strlit(" lines)");
        reveal_strlit("\n");
    }
    let s = (end_of(run, path, label, Ok(note))->Ok_0).1;
    let noted = match note {
        Some(n) => run.message + n + "\n"@,
        None => run.message,
    };
    assert(s =~= h + "\n"@ + noted);
    assert(s.subrange(0, h.len() as int) =~= h);
}

} // verus!
