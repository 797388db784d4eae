//! Planning and running again until the task is done, or the attempts are used up.
use vstd::prelude::*;

use super::overlap::{DroppedStep, DroppedView};
use super::parse;
use super::parse::{truncate_multiline, EditPlanStep, StepView, MAX_FAILED_REASON_CHARS};
use super::preplan;
use super::preplan::{PreplanOutcome, PreplanView, ScanView};
use super::repair::{LspRegression, RegressionView, RepairContext, RepairView};
use super::run;
use super::run::{copy_steps, FailureView, PlannedExecutionFailure, SplitResult};
use super::validate;
use super::validate::{LspValidationMode, ValidationError, ValidationView};
use crate::args;
use crate::args::get_str_or;
use crate::number;
use crate::number::dec_text;
use crate::text;
use crate::text::same_text;
use crate::tool;
use crate::tool::{ToolResult, ToolView};

verus! {

/// How many attempts a task has at first.
pub const MAX_PLAN_ATTEMPTS: usize = 4;

/// How many attempts are added at most, each for an attempt with fewer errors
/// than any before.
pub const MAX_EXTRA_ATTEMPTS: usize = 2;

/// What is said of an attempt that brought no answer.
pub const EMPTY_RESPONSE: &'static str = "The previous attempt returned an empty response, which is not a valid output. Emit one of: `LITERAL_REPLACE`/`SMART_EDIT` blocks, `COMPLETE`, `FAILED: <reason>`, or `NEEDS_CLARIFICATION: <question>`. Do not return an empty response.";

/// What is said of an attempt whose plan holds no step.
pub const EMPTY_PLAN: &'static str = "The previous attempt used the plan syntax but produced zero steps. Either emit concrete LITERAL_REPLACE/SMART_EDIT blocks, or emit exactly `COMPLETE` on its own line if the task is already satisfied.";

/// What is said of an attempt whose answer is no plan, before the error.
pub const BAD_PLAN_HEAD: &'static str = "The previous attempt emitted an edit plan that failed to parse:\n";

/// What is said of an attempt whose answer is no plan, behind the error.
pub const BAD_PLAN_TAIL: &'static str = "\n\nRe-emit a valid plan. Every LITERAL_REPLACE block must include an OLD: section whose contents are copied verbatim from the file view above. If you cannot echo OLD verbatim, use SMART_EDIT for that region instead.";

/// What came of a task.
#[derive(Debug)]
pub enum PreplanResult {
    /// It is done: this is the new content of the file.
    Applied(String),
    /// The file is as it should be already.
    NothingToDo,
    /// It was not done, with a reason.
    Failed(String),
    /// It is too vague to act on, with a question.
    NeedsClarification(String),
}

/// What came of a task, over texts.
pub enum ResultView {
    Applied(Seq<char>),
    NothingToDo,
    Failed(Seq<char>),
    NeedsClarification(Seq<char>),
}

impl DeepView for PreplanResult {
    type V = ResultView;

    open spec fn deep_view(&self) -> ResultView {
        match *self {
            PreplanResult::Applied(s) => ResultView::Applied(s@),
            PreplanResult::NothingToDo => ResultView::NothingToDo,
            PreplanResult::Failed(s) => ResultView::Failed(s@),
            PreplanResult::NeedsClarification(s) => ResultView::NeedsClarification(s@),
        }
    }
}

/// The attempts at a task, as far as they have come.
#[derive(Debug)]
pub struct Attempts {
    /// The content of the file behind the steps that were applied.
    pub current: String,
    /// What is told of the last attempt.
    pub repair: Option<RepairContext>,
    /// The least number of errors that an attempt was turned down for.
    pub best_error_count: Option<u128>,
    pub extra_granted: usize,
    pub budget: usize,
    pub attempt: usize,
}

/// Attempts over texts.
pub struct AttemptsView {
    pub current: Seq<char>,
    pub repair: Option<RepairView>,
    pub best_error_count: Option<int>,
    pub extra_granted: int,
    pub budget: int,
    pub attempt: int,
}

impl DeepView for Attempts {
    type V = AttemptsView;

    open spec fn deep_view(&self) -> AttemptsView {
        AttemptsView {
            current: self.current@,
            repair: self.repair.deep_view(),
            best_error_count: match self.best_error_count {
                Some(n) => Some(n as int),
                None => None,
            },
            extra_granted: self.extra_granted as int,
            budget: self.budget as int,
            attempt: self.attempt as int,
        }
    }
}

impl AttemptsView {
    /// No more attempts are made than there are, and no more are added than may
    /// be.
    pub open spec fn wf(self) -> bool {
        &&& 0 <= self.extra_granted <= MAX_EXTRA_ATTEMPTS
        &&& self.budget == MAX_PLAN_ATTEMPTS + self.extra_granted
        &&& 0 <= self.attempt <= self.budget
    }
}

/// No attempt was made yet.
pub open spec fn fresh(original: Seq<char>) -> AttemptsView {
    AttemptsView {
        current: original,
        repair: None,
        best_error_count: None,
        extra_granted: 0,
        budget: MAX_PLAN_ATTEMPTS as int,
        attempt: 0,
    }
}

/// The reason that is given when the attempts are used up.
pub open spec fn last_obstacle(ctx: Option<RepairView>) -> Seq<char> {
    match ctx {
        None => "planner did not converge"@,
        Some(c) => if c.failure_reason.len() == 0 {
            "planner did not converge"@
        } else {
            parse::truncated(c.failure_reason, MAX_FAILED_REASON_CHARS as nat)
        },
    }
}

/// The next attempt, or the end where none is left.
pub open spec fn next_attempt(a: AttemptsView) -> Result<AttemptsView, ResultView> {
    if a.attempt < a.budget {
        Ok(AttemptsView { attempt: a.attempt + 1, ..a })
    } else {
        Err(
            ResultView::Failed(
                "could not complete after "@ + number::dec(a.budget as nat)
                    + " attempts. Last obstacle: "@ + last_obstacle(a.repair),
            ),
        )
    }
}

/// The next attempt by its view.
pub open spec fn next_view(r: Result<Attempts, PreplanResult>) -> Result<AttemptsView, ResultView> {
    match r {
        Ok(a) => Ok(a.deep_view()),
        Err(e) => Err(e.deep_view()),
    }
}

/// An account of an attempt that ran no step.
pub open spec fn no_steps(reason: Seq<char>, regression: Option<RegressionView>) -> RepairView {
    RepairView {
        previous_plan: Seq::empty(),
        completed_steps: Seq::empty(),
        failed_step: None,
        failure_reason: reason,
        lsp_regression: regression,
        cleanly_applied: false,
    }
}

/// How many errors a regression has.
pub open spec fn error_count(reg: RegressionView) -> int {
    reg.errors.len() + reg.extra_error_count
}

/// Counts the errors of an attempt that was turned down: fewer than ever before
/// earn another attempt, as long as any may be added.
pub open spec fn counted(a: AttemptsView, errors: int) -> AttemptsView {
    let earned = match a.best_error_count {
        Some(best) => errors < best && a.extra_granted < MAX_EXTRA_ATTEMPTS,
        None => false,
    };
    AttemptsView {
        best_error_count: match a.best_error_count {
            Some(best) => Some(
                if errors < best {
                    errors
                } else {
                    best
                },
            ),
            None => Some(errors),
        },
        budget: if earned {
            a.budget + 1
        } else {
            a.budget
        },
        extra_granted: if earned {
            a.extra_granted + 1
        } else {
            a.extra_granted
        },
        ..a
    }
}

/// What a plan leads to.
#[derive(Debug)]
pub enum AttemptStep {
    /// The task is over.
    Done(PreplanResult),
    /// The next attempt is to be made.
    Again(Attempts),
    /// The content is said to be complete: it is to be checked.
    Check(Attempts),
    /// The steps are to be run.
    Run { attempts: Attempts, steps: Vec<EditPlanStep>, dropped: Vec<DroppedStep> },
}

/// What a plan leads to, over texts.
pub enum AttemptStepView {
    Done(ResultView),
    Again(AttemptsView),
    Check(AttemptsView),
    Run { attempts: AttemptsView, steps: Seq<StepView>, dropped: Seq<DroppedView> },
}

impl DeepView for AttemptStep {
    type V = AttemptStepView;

    open spec fn deep_view(&self) -> AttemptStepView {
        match *self {
            AttemptStep::Done(r) => AttemptStepView::Done(r.deep_view()),
            AttemptStep::Again(a) => AttemptStepView::Again(a.deep_view()),
            AttemptStep::Check(a) => AttemptStepView::Check(a.deep_view()),
            AttemptStep::Run { attempts, steps, dropped } => AttemptStepView::Run {
                attempts: attempts.deep_view(),
                steps: steps.deep_view(),
                dropped: dropped.deep_view(),
            },
        }
    }
}

/// What an outcome of planning leads to. An answer that is empty, no plan or a
/// plan without steps is told of in the next attempt.
pub open spec fn after_plan(a: AttemptsView, original: Seq<char>, outcome: PreplanView) -> AttemptStepView {
    match outcome {
        PreplanView::Complete => if a.current == original {
            AttemptStepView::Done(ResultView::NothingToDo)
        } else {
            AttemptStepView::Check(a)
        },
        PreplanView::Failed(reason) => AttemptStepView::Done(ResultView::Failed(reason)),
        PreplanView::NeedsClarification(q) => AttemptStepView::Done(
            ResultView::NeedsClarification(q),
        ),
        PreplanView::EmptyResponse => AttemptStepView::Again(
            AttemptsView { repair: Some(no_steps(EMPTY_RESPONSE@, None)), ..a },
        ),
        PreplanView::ParseError(e) => AttemptStepView::Again(
            AttemptsView {
                repair: Some(no_steps(BAD_PLAN_HEAD@ + e + BAD_PLAN_TAIL@, None)),
                ..a
            },
        ),
        PreplanView::Continue { steps, dropped } => if steps.len() == 0 && dropped.len() == 0 {
            AttemptStepView::Again(
                AttemptsView { repair: Some(no_steps(EMPTY_PLAN@, None)), ..a },
            )
        } else {
            AttemptStepView::Run { attempts: a, steps, dropped }
        },
    }
}

/// What the verdict on content that is said to be complete leads to: it stands,
/// or its errors are told of in the next attempt; another error ends the task.
pub open spec fn after_check(
    a: AttemptsView,
    verdict: Result<Option<Seq<char>>, ValidationView>,
) -> Result<AttemptStepView, Seq<char>> {
    match verdict {
        Ok(_) => Ok(AttemptStepView::Done(ResultView::Applied(a.current))),
        Err(ValidationView::Other(e)) => Err(e),
        Err(ValidationView::LspRegression(reg)) => Ok(
            AttemptStepView::Again(
                AttemptsView {
                    repair: Some(no_steps(validate::regression_summary(reg), Some(reg))),
                    ..counted(a, error_count(reg))
                },
            ),
        ),
    }
}

/// What a run of the steps leads to: another attempt, which is told what was
/// applied and what failed.
pub open spec fn after_run(
    a: AttemptsView,
    steps: Seq<StepView>,
    result: Result<(Seq<char>, Seq<char>), FailureView>,
) -> AttemptsView {
    match result {
        Ok((content, _)) => AttemptsView {
            current: content,
            repair: Some(
                RepairView {
                    previous_plan: steps,
                    completed_steps: steps,
                    failed_step: None,
                    failure_reason: Seq::empty(),
                    lsp_regression: None,
                    cleanly_applied: true,
                },
            ),
            ..a
        },
        Err(e) => AttemptsView {
            current: e.current_content,
            repair: Some(
                RepairView {
                    previous_plan: steps,
                    completed_steps: e.completed_steps,
                    failed_step: e.failed_step,
                    failure_reason: e.error,
                    lsp_regression: e.lsp_regression,
                    cleanly_applied: false,
                },
            ),
            ..(match e.lsp_regression {
                Some(reg) => counted(a, error_count(reg)),
                None => a,
            })
        },
    }
}

fn stepless(reason: String, lsp_regression: Option<LspRegression>) -> (r: RepairContext)
    ensures
        r.deep_view() == no_steps(reason@, lsp_regression.deep_view()),
{
    let r = RepairContext {
        previous_plan: Vec::new(),
        completed_steps: Vec::new(),
        failed_step: None,
        failure_reason: reason,
        lsp_regression,
        cleanly_applied: false,
    };
    proof {
        assert(r.previous_plan.deep_view() =~= Seq::<StepView>::empty());
        assert(r.completed_steps.deep_view() =~= Seq::<StepView>::empty());
    }
    r
}

fn count_errors(reg: &LspRegression) -> (r: u128)
    ensures
        r == error_count(reg.deep_view()),
{
    proof {
        assert(reg.errors@.len() == reg.errors.deep_view().len());
    }
    reg.errors.len() as u128 + reg.extra_error_count as u128
}

impl Attempts {
    /// Begins the attempts at a task.
    pub fn start(original: &str) -> (r: Attempts)
        ensures
            r.deep_view() == fresh(original@),
            r.deep_view().wf(),
    {
        Attempts {
            current: original.to_owned(),
            repair: None,
            best_error_count: None,
            extra_granted: 0,
            budget: MAX_PLAN_ATTEMPTS,
            attempt: 0,
        }
    }

    /// Begins the next attempt, if one is left.
    pub fn next(self) -> (r: Result<Attempts, PreplanResult>)
        requires
            self.deep_view().wf(),
        ensures
            next_view(r) == next_attempt(self.deep_view()),
            r matches Ok(a) ==> a.deep_view().wf(),
    {
        if self.attempt < self.budget {
            return Ok(
                Attempts {
                    current: self.current,
                    repair: self.repair,
                    best_error_count: self.best_error_count,
                    extra_granted: self.extra_granted,
                    budget: self.budget,
                    attempt: self.attempt + 1,
                },
            );
        }
        let obstacle = match &self.repair {
            None => "planner did not converge".to_owned(),
            Some(c) => if c.failure_reason.as_str().is_empty() {
                "planner did not converge".to_owned()
            } else {
                truncate_multiline(&c.failure_reason, MAX_FAILED_REASON_CHARS)
            },
        };
        Err(
            PreplanResult::Failed(
                "could not complete after ".to_owned().concat(&dec_text(self.budget)).concat(
                    " attempts. Last obstacle: ",
                ).concat(&obstacle),
            ),
        )
    }

    fn told(self, ctx: RepairContext) -> (r: Attempts)
        ensures
            r.deep_view() == (AttemptsView { repair: Some(ctx.deep_view()), ..self.deep_view() }),
    {
        Attempts {
            current: self.current,
            repair: Some(ctx),
            best_error_count: self.best_error_count,
            extra_granted: self.extra_granted,
            budget: self.budget,
            attempt: self.attempt,
        }
    }

    fn count(self, errors: u128) -> (r: Attempts)
        requires
            self.deep_view().wf(),
        ensures
            r.deep_view() == counted(self.deep_view(), errors as int),
            r.deep_view().wf(),
    {
        let earned = match self.best_error_count {
            Some(best) => errors < best && self.extra_granted < MAX_EXTRA_ATTEMPTS,
            None => false,
        };
        let best: u128 = match self.best_error_count {
            Some(best) => if errors < best {
                errors
            } else {
                best
            },
            None => errors,
        };
        Attempts {
            current: self.current,
            repair: self.repair,
            best_error_count: Some(best),
            extra_granted: if earned {
                self.extra_granted + 1
            } else {
                self.extra_granted
            },
            budget: if earned {
                self.budget + 1
            } else {
                self.budget
            },
            attempt: self.attempt,
        }
    }

    /// Takes the outcome of planning.
    pub fn take_plan(self, original: &str, outcome: PreplanOutcome) -> (r: AttemptStep)
        requires
            self.deep_view().wf(),
        ensures
            r.deep_view() == after_plan(self.deep_view(), original@, outcome.deep_view()),
            match r.deep_view() {
                AttemptStepView::Done(_) => true,
                AttemptStepView::Again(a) => a.wf(),
                AttemptStepView::Check(a) => a.wf(),
                AttemptStepView::Run { attempts, .. } => attempts.wf(),
            },
    {
        match outcome {
            PreplanOutcome::Complete => {
                if same_text(&self.current, original) {
                    AttemptStep::Done(PreplanResult::NothingToDo)
                } else {
                    AttemptStep::Check(self)
                }
            },
            PreplanOutcome::Failed(reason) => AttemptStep::Done(PreplanResult::Failed(reason)),
            PreplanOutcome::NeedsClarification(question) => AttemptStep::Done(
                PreplanResult::NeedsClarification(question),
            ),
            PreplanOutcome::EmptyResponse => AttemptStep::Again(
                self.told(stepless(EMPTY_RESPONSE.to_owned(), None)),
            ),
            PreplanOutcome::ParseError(e) => AttemptStep::Again(
                self.told(
                    stepless(BAD_PLAN_HEAD.to_owned().concat(&e).concat(BAD_PLAN_TAIL), None),
                ),
            ),
            PreplanOutcome::Continue { steps, dropped } => {
                proof {
                    assert(steps@.len() == steps.deep_view().len());
                    assert(dropped@.len() == dropped.deep_view().len());
                }
                if steps.len() == 0 && dropped.len() == 0 {
                    AttemptStep::Again(self.told(stepless(EMPTY_PLAN.to_owned(), None)))
                } else {
                    AttemptStep::Run { attempts: self, steps, dropped }
                }
            },
        }
    }

    /// Takes the verdict on content that is said to be complete.
    pub fn take_check(self, verdict: Result<Option<String>, ValidationError>) -> (r: Result<
        AttemptStep,
        String,
    >)
        requires
            self.deep_view().wf(),
        ensures
            text::result_view(r) == after_check(self.deep_view(), run::verdict_view(verdict)),
            r matches Ok(step) ==> (step.deep_view() matches AttemptStepView::Again(a) ==> a.wf()),
    {
        match verdict {
            Ok(_) => Ok(AttemptStep::Done(PreplanResult::Applied(self.current))),
            Err(ValidationError::Other(e)) => Err(e),
            Err(ValidationError::LspRegression(reg)) => {
                let summary = reg.summary();
                let counted = self.count(count_errors(&reg));
                Ok(AttemptStep::Again(counted.told(stepless(summary, Some(reg)))))
            },
        }
    }

    /// Takes the result of a run of the steps.
    pub fn take_run(
        self,
        steps: Vec<EditPlanStep>,
        result: Result<SplitResult, PlannedExecutionFailure>,
    ) -> (r: Attempts)
        requires
            self.deep_view().wf(),
        ensures
            r.deep_view() == after_run(
                self.deep_view(),
                steps.deep_view(),
                run::end_view(result),
            ),
            r.deep_view().wf(),
    {
        match result {
            Ok(done) => {
                let completed_steps = copy_steps(&steps, steps.len());
                proof {
                    assert(steps.deep_view().take(steps@.len() as int) =~= steps.deep_view());
                }
                Attempts {
                    current: done.content,
                    repair: Some(
                        RepairContext {
                            previous_plan: steps,
                            completed_steps,
                            failed_step: None,
                            failure_reason: String::new(),
                            lsp_regression: None,
                            cleanly_applied: true,
                        },
                    ),
                    best_error_count: self.best_error_count,
                    extra_granted: self.extra_granted,
                    budget: self.budget,
                    attempt: self.attempt,
                }
            },
            Err(e) => {
                let counted = match &e.lsp_regression {
                    Some(reg) => self.count(count_errors(reg)),
                    None => self,
                };
                Attempts {
                    current: e.current_content,
                    repair: Some(
                        RepairContext {
                            previous_plan: steps,
                            completed_steps: e.completed_steps,
                            failed_step: e.failed_step,
                            failure_reason: e.error,
                            lsp_regression: e.lsp_regression,
                            cleanly_applied: false,
                        },
                    ),
                    best_error_count: counted.best_error_count,
                    extra_granted: counted.extra_granted,
                    budget: counted.budget,
                    attempt: counted.attempt,
                }
            },
        }
    }
}

/// Whatever the attempts bring, no more are made than the first ones and those
/// that may be added.
pub proof fn attempts_are_bounded(a: AttemptsView)
    requires
        a.wf(),
    ensures
        a.attempt <= MAX_PLAN_ATTEMPTS + MAX_EXTRA_ATTEMPTS,
        a.attempt == MAX_PLAN_ATTEMPTS + MAX_EXTRA_ATTEMPTS ==> next_attempt(a) is Err,
        next_attempt(a) matches Ok(b) ==> b.wf() && b.attempt == a.attempt + 1,
{
}

/// An attempt is added only for fewer errors than ever before.
pub proof fn only_progress_earns_attempts(a: AttemptsView, errors: int)
    ensures
        counted(a, errors).budget > a.budget ==> (a.best_error_count matches Some(best) && errors
            < best),
        counted(a, errors).budget <= a.budget + 1,
        counted(a, errors).attempt == a.attempt,
{
}

/// New content comes out of the attempts only where it passed its check: a plan
/// alone, a failed check or the end of the attempts never give any.
pub proof fn only_checked_content_is_applied(
    a: AttemptsView,
    original: Seq<char>,
    outcome: PreplanView,
    verdict: Result<Option<Seq<char>>, ValidationView>,
    content: Seq<char>,
)
    ensures
        after_plan(a, original, outcome) != AttemptStepView::Done(ResultView::Applied(content)),
        next_attempt(a) != Err::<AttemptsView, ResultView>(ResultView::Applied(content)),
        after_check(a, verdict) == Ok::<AttemptStepView, Seq<char>>(
            AttemptStepView::Done(ResultView::Applied(content)),
        ) <==> verdict is Ok && content == a.current,
{
}

/// Where an answer brings no steps, or content that is said to be complete has errors,
/// the next attempt can always be told of it, in every window and in the verdict
/// prompt: no text is cut.
pub proof fn attempts_without_steps_can_be_told(
    a: AttemptsView,
    original: Seq<char>,
    outcome: PreplanView,
    verdict: Result<Option<Seq<char>>, ValidationView>,
    scan: ScanView,
)
    ensures
        after_plan(a, original, outcome) matches AttemptStepView::Again(next) ==> {
            &&& preplan::can_show_history(next.repair)
            &&& preplan::can_show_next(scan, next.repair)
        },
        after_check(a, verdict) matches Ok(AttemptStepView::Again(next)) ==> {
            &&& preplan::can_show_history(next.repair)
            &&& preplan::can_show_next(scan, next.repair)
        },
{
}

/// What is asked for: a file, a task, and how the result is checked.
#[derive(Debug)]
pub struct EditRequest {
    pub path: String,
    pub task: String,
    pub mode: LspValidationMode,
}

/// A request over texts.
pub struct RequestView {
    pub path: Seq<char>,
    pub task: Seq<char>,
    pub mode: LspValidationMode,
}

impl DeepView for EditRequest {
    type V = RequestView;

    open spec fn deep_view(&self) -> RequestView {
        RequestView { path: self.path@, task: self.task@, mode: self.mode }
    }
}

/// The request that the arguments make: a file and a task must be named.
pub open spec fn request_of(
    path: Seq<char>,
    task: Seq<char>,
    mode: Result<LspValidationMode, Seq<char>>,
) -> Result<RequestView, Seq<char>> {
    match mode {
        Err(e) => Err(e),
        Ok(m) => if path.len() == 0 {
            Err("Missing required parameter: path"@)
        } else if task.len() == 0 {
            Err("Missing required parameter: task"@)
        } else {
            Ok(RequestView { path, task, mode: m })
        },
    }
}

/// Reads a request from its parts.
pub fn make_request(path: String, task: String, mode: Result<LspValidationMode, String>) -> (r:
    Result<EditRequest, String>)
    ensures
        text::result_view(r) == request_of(path@, task@, validate::mode_view(mode)),
{
    match mode {
        Err(e) => Err(e),
        Ok(m) => {
            if path.as_str().is_empty() {
                return Err("Missing required parameter: path".to_owned());
            }
            if task.as_str().is_empty() {
                return Err("Missing required parameter: task".to_owned());
            }
            Ok(EditRequest { path, task, mode: m })
        },
    }
}

/// Reads a request from the arguments of a call.
pub fn read_request(args: &serde_json::Value) -> (r: Result<EditRequest, String>)
    ensures
        text::result_view(r) == request_of(
            args::text_or(args::field(*args, "path"@), Seq::empty()),
            args::text_or(args::field(*args, "task"@), Seq::empty()),
            validate::mode_of(args::field(*args, "lsp_validation"@)),
        ),
{
    let none = String::new();
    let path = get_str_or(args, "path", &none);
    let task = get_str_or(args, "task", &none);
    make_request(path, task, LspValidationMode::from_args(args))
}

/// What is answered: the task is done, was done before, failed, or needs a word
/// more. An error is answered like a failure.
pub open spec fn answer(
    path: Seq<char>,
    task: Seq<char>,
    result: Result<ResultView, Seq<char>>,
) -> ToolView {
    match result {
        Ok(ResultView::Applied(_)) => tool::ok_view("✓ edit_file("@ + path + "): done"@),
        Ok(ResultView::NothingToDo) => tool::ok_view(
            "✓ edit_file("@ + path + "): already satisfied"@,
        ),
        Ok(ResultView::Failed(reason)) => tool::err_view(
            "✗ edit_file("@ + path + "): "@ + reason,
        ),
        Ok(ResultView::NeedsClarification(q)) => tool::err_view(
            "edit_file needs clarification before it can apply edits.\n\nOriginal task: "@ + task
                + "\nQuestion: "@ + (if q.len() == 0 {
                "no question provided"@
            } else {
                q
            })
                + "\n\nRe-run edit_file with a task that addresses the question, or split the work into more specific steps. The file was not modified."@,
        ),
        Err(e) => tool::err_view("✗ edit_file("@ + path + "): "@ + e),
    }
}

/// Answers a call with what came of its task.
pub fn report(path_str: &str, task: &str, result: &Result<PreplanResult, String>) -> (r: ToolResult)
    ensures
        r.deep_view() == answer(path_str@, task@, text::result_view(*result)),
{
    match result {
        Ok(PreplanResult::Applied(_)) => ToolResult::ok(
            "✓ edit_file(".to_owned().concat(path_str).concat("): done"),
        ),
        Ok(PreplanResult::NothingToDo) => ToolResult::ok(
            "✓ edit_file(".to_owned().concat(path_str).concat("): already satisfied"),
        ),
        Ok(PreplanResult::Failed(reason)) => ToolResult::err(
            "✗ edit_file(".to_owned().concat(path_str).concat("): ").concat(reason),
        ),
        Ok(PreplanResult::NeedsClarification(q)) => {
            let question = if q.as_str().is_empty() {
                "no question provided".to_owned()
            } else {
                q.clone()
            };
            ToolResult::err(
                "edit_file needs clarification before it can apply edits.\n\nOriginal task: ".to_owned().concat(
                    task,
                ).concat("\nQuestion: ").concat(&question).concat(
                    "\n\nRe-run edit_file with a task that addresses the question, or split the work into more specific steps. The file was not modified.",
                ),
            )
        },
        Err(e) => ToolResult::err(
            "✗ edit_file(".to_owned().concat(path_str).concat("): ").concat(e),
        ),
    }
}

/// The text that the file is left with: the new content where the task is done, else
/// the text that it had, whatever was written for a check in between.
pub open spec fn content_left(original: Seq<char>, result: Result<ResultView, Seq<char>>) -> Seq<
    char,
> {
    match result {
        Ok(ResultView::Applied(content)) => content,
        _ => original,
    }
}

/// Closes a call: what is answered, and the text that the file is to be left with.
pub fn closing(
    path_str: &str,
    task: &str,
    original: &str,
    result: &Result<PreplanResult, String>,
) -> (r: (ToolResult, String))
    ensures
        r.0.deep_view() == answer(path_str@, task@, text::result_view(*result)),
        r.1@ == content_left(original@, text::result_view(*result)),
{
    let left = match result {
        Ok(PreplanResult::Applied(content)) => content.clone(),
        _ => original.to_owned(),
    };
    (report(path_str, task, result), left)
}

/// Edits are atomic: a call that is answered with a failure leaves the file as it was,
/// and so does one that finds nothing to do. A file is left with another text only
/// where the task is done with that text.
pub proof fn edits_are_atomic(
    path: Seq<char>,
    task: Seq<char>,
    original: Seq<char>,
    result: Result<ResultView, Seq<char>>,
)
    ensures
        !answer(path, task, result).success ==> content_left(original, result) == original,
        result == Ok::<ResultView, Seq<char>>(ResultView::NothingToDo) ==> content_left(
            original,
            result,
        ) == original,
        content_left(original, result) != original ==> result == Ok::<ResultView, Seq<char>>(
            ResultView::Applied(content_left(original, result)),
        ),
{
}

/// There are four attempts at least and six at most, each begun with what the one before
/// left.
pub proof fn four_to_six_attempts(a: AttemptsView, original: Seq<char>)
    requires
        a.wf(),
    ensures
        a.attempt < 4 ==> next_attempt(a) is Ok,
        a.attempt <= 6,
        a.attempt == 6 ==> next_attempt(a) is Err,
        next_attempt(a) matches Ok(b) ==> b.attempt == a.attempt + 1 && b.current == a.current
            && b.repair == a.repair && b.best_error_count == a.best_error_count,
        next_attempt(a) matches Err(r) ==> r is Failed,
        fresh(original).wf() && fresh(original).current == original && fresh(original).attempt == 0
            && fresh(original).repair is None,
{
}

/// What a plan comes to: a finished task is over where nothing changed, and is checked where
/// something did; a reason or a question ends the task with it; a plan with steps is run as
/// it is; all else is tried again. None of this changes the file.
pub proof fn plans_lead_on(a: AttemptsView, original: Seq<char>, outcome: PreplanView)
    ensures
        match after_plan(a, original, outcome) {
            AttemptStepView::Done(ResultView::NothingToDo) => outcome is Complete && a.current
                == original,
            AttemptStepView::Done(ResultView::Failed(r)) => outcome == PreplanView::Failed(r),
            AttemptStepView::Done(ResultView::NeedsClarification(q)) => outcome
                == PreplanView::NeedsClarification(q),
            AttemptStepView::Done(ResultView::Applied(_)) => false,
            AttemptStepView::Check(b) => outcome is Complete && a.current != original && b == a,
            AttemptStepView::Run { attempts, steps, dropped } => attempts == a && outcome
                == (PreplanView::Continue { steps, dropped }) && steps.len() + dropped.len() > 0,
            AttemptStepView::Again(b) => {
                &&& b.current == a.current
                &&& b.attempt == a.attempt
                &&& b.budget == a.budget
                &&& b.repair is Some
                &&& match outcome {
                    PreplanView::EmptyResponse => true,
                    PreplanView::ParseError(e) => text::has_text(
                        b.repair->Some_0.failure_reason,
                        e,
                    ),
                    PreplanView::Continue { steps, dropped } => steps.len() == 0 && dropped.len()
                        == 0,
                    _ => false,
                }
            },
        },
{
    match outcome {
        PreplanView::ParseError(e) => {
            text::found_between(BAD_PLAN_HEAD@, e, BAD_PLAN_TAIL@);
        },
        _ => {},
    }
}

/// What a run comes to: the file is as the run left it, and the next attempt is told which
/// steps were applied, which failed and why, and which errors turned it down.
pub proof fn runs_are_remembered(
    a: AttemptsView,
    steps: Seq<StepView>,
    result: Result<(Seq<char>, Seq<char>), FailureView>,
)
    ensures
        after_run(a, steps, result).attempt == a.attempt,
        after_run(a, steps, result).repair matches Some(c) && c.previous_plan == steps && match result {
            Ok(r) => after_run(a, steps, result).current == r.0 && c.completed_steps == steps
                && c.failed_step is None && c.lsp_regression is None && c.cleanly_applied,
            Err(e) => after_run(a, steps, result).current == e.current_content
                && c.completed_steps == e.completed_steps && c.failed_step == e.failed_step
                && c.failure_reason == e.error && c.lsp_regression == e.lsp_regression
                && !c.cleanly_applied,
        },
{
}

/// A check that passes ends the task with the content that was checked; one that finds more
/// errors leaves the file as it is and tells the next attempt of them.
pub proof fn checks_end_or_go_on(
    a: AttemptsView,
    verdict: Result<Option<Seq<char>>, ValidationView>,
)
    ensures
        match verdict {
            Ok(_) => after_check(a, verdict) == Ok::<AttemptStepView, Seq<char>>(
                AttemptStepView::Done(ResultView::Applied(a.current)),
            ),
            Err(ValidationView::Other(e)) => after_check(a, verdict) == Err::<
                AttemptStepView,
                Seq<char>,
            >(e),
            Err(ValidationView::LspRegression(reg)) => after_check(a, verdict) matches Ok(
                AttemptStepView::Again(b),
            ) && b.current == a.current && b.attempt == a.attempt && (b.repair matches Some(c)
                && c.lsp_regression == Some(reg)),
        },
{
}

/// The least number of errors is remembered.
pub proof fn least_errors_are_remembered(a: AttemptsView, errors: int)
    ensures
        counted(a, errors).best_error_count matches Some(n) && n <= errors && (a.best_error_count
            matches Some(best) ==> n <= best) && (n == errors || a.best_error_count == Some(n)),
        counted(a, errors).current == a.current,
        a.wf() ==> counted(a, errors).wf(),
{
}

/// A request holds the file, the task and the mode as they were given, and is made exactly
/// where all three are in order.
pub proof fn requests_hold_their_arguments(
    path: Seq<char>,
    task: Seq<char>,
    mode: Result<LspValidationMode, Seq<char>>,
)
    ensures
        request_of(path, task, mode) is Ok <==> mode is Ok && path.len() > 0 && task.len() > 0,
        request_of(path, task, mode) matches Ok(r) ==> r.path == path && r.task == task && mode
            == Ok::<LspValidationMode, Seq<char>>(r.mode),
{
}

proof fn lemma_answer_heads(path: Seq<char>)
    ensures
        text::has_text("✓ edit_file("@ + path + "): done"@, "edit_file("@ + path + "): "@),
        text::has_text(
            "✓ edit_file("@ + path + "): already satisfied"@,
            "edit_file("@ + path + "): "@,
        ),
        text::has_text("✗ edit_file("@ + path + "): "@, "edit_file("@ + path + "): "@),
{
    reveal_strlit("✓ edit_file(");
    reveal_strlit("✗ edit_file(");
    reveal_strlit("edit_file(");
    reveal_strlit("): ");
    reveal_strlit("): done");
    reveal_strlit("): already satisfied");
    let p = "edit_file("@ + path + "): "@;
    let n = p.len() as int;
    let a = "✓ edit_file("@ + path + "): done"@;
    let b = "✓ edit_file("@ + path + "): already satisfied"@;
    let c = "✗ edit_file("@ + path + "): "@;
    assert(a.subrange(2, 2 + n) =~= p);
    assert(b.subrange(2, 2 + n) =~= p);
    assert(c.subrange(2, 2 + n) =~= p);
    assert(text::occurs_at(a, p, 2));
    assert(text::occurs_at(b, p, 2));
    assert(text::occurs_at(c, p, 2));
}

/// The answer is a success exactly where the task is done or was done already, and names
/// the file unless it asks; a failure tells its reason.
pub proof fn answers_tell_the_result(
    path: Seq<char>,
    task: Seq<char>,
    result: Result<ResultView, Seq<char>>,
)
    ensures
        answer(path, task, result).success <==> (result matches Ok(r) && (r is Applied
            || r is NothingToDo)),
        !(result matches Ok(ResultView::NeedsClarification(_))) ==> text::has_text(
            answer(path, task, result).content,
            "edit_file("@ + path + "): "@,
        ),
        result matches Ok(ResultView::Failed(reason)) ==> text::has_text(
            answer(path, task, result).content,
            reason,
        ),
        result matches Err(e) ==> text::has_text(answer(path, task, result).content, e),
{
    let bad = "✗ edit_file("@ + path + "): "@;
    let p = "edit_file("@ + path + "): "@;
    lemma_answer_heads(path);
    match result {
        Ok(ResultView::Failed(reason)) => {
            text::found_in_either(bad, reason, p);
            text::found_in_either(bad, reason, reason);
        },
        Err(e) => {
            text::found_in_either(bad, e, p);
            text::found_in_either(bad, e, e);
        },
        _ => {},
    }
}

/// An answer that asks holds the task and the question.
pub proof fn questions_are_handed_on(path: Seq<char>, task: Seq<char>, question: Seq<char>)
    ensures
        ({
            let r = answer(
                path,
                task,
                Ok::<ResultView, Seq<char>>(ResultView::NeedsClarification(question)),
            );
            &&& !r.success
            &&& text::has_text(r.content, task)
            &&& question.len() > 0 ==> text::has_text(r.content, question)
        }),
{
    let shown = if question.len() == 0 {
        "no question provided"@
    } else {
        question
    };
    let head = "edit_file needs clarification before it can apply edits.\n\nOriginal task: "@;
    let mid = "\nQuestion: "@;
    let tail =
        "\n\nRe-run edit_file with a task that addresses the question, or split the work into more specific steps. The file was not modified."@;
    text::found_in_either(head, task, task);
    text::found_in_either(head + task, mid, task);
    text::found_in_either(head + task + mid, shown, task);
    text::found_in_either(head + task + mid + shown, tail, task);
    text::found_in_either(head + task + mid, shown, shown);
    text::found_in_either(head + task + mid + shown, tail, shown);
}

/// Where the attempts are used up, the failure tells how many there were and what stood in the
/// way of the last.
pub proof fn last_failure_is_told(a: AttemptsView)
    requires
        a.attempt >= a.budget,
    ensures
        next_attempt(a) matches Err(ResultView::Failed(e)) && text::has_text(
            e,
            "after "@ + number::dec(a.budget as nat) + " attempts"@,
        ) && (a.repair matches Some(c) ==> c.failure_reason.len() > 0 ==> text::ends_with(
            e,
            parse::truncated(c.failure_reason, MAX_FAILED_REASON_CHARS as nat),
        )),
{
    let head = "could not complete after "@ + number::dec(a.budget as nat)
        + " attempts. Last obstacle: "@;
    let last = last_obstacle(a.repair);
    let e = head + last;
    assert(e.subrange(e.len() - last.len(), e.len() as int) =~= last);
    lemma_after_attempts(number::dec(a.budget as nat));
    text::found_in_either(head, last, "after "@ + number::dec(a.budget as nat) + " attempts"@);
}

proof fn lemma_after_attempts(d: Seq<char>)
    ensures
        text::has_text(
            "could not complete after "@ + d + " attempts. Last obstacle: "@,
            "after "@ + d + " attempts"@,
        ),
{
    reveal_strlit("could not complete after ");
    reveal_strlit("after ");
    reveal_strlit(" attempts. Last obstacle: ");
    reveal_strlit(" attempts");
    let s = "could not complete after "@ + d + " attempts. Last obstacle: "@;
    let p = "after "@ + d + " attempts"@;
    let k = "could not complete after "@.len() - "after "@.len();
    assert(s.subrange(k, k + p.len() as int) =~= p);
    assert(text::occurs_at(s, p, k));
}

} // verus!
