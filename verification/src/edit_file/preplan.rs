//! Making a plan: the look through a large file, and the verdict.
use vstd::prelude::*;

use super::inspect;
use super::inspect::{
    execute_inspection_commands, extend_unique_commands, extend_unique_notes,
    parse_preplan_window_response, queue_note_reads, CommandView, InspectionCommand,
    InspectionCounters, MAX_PREPLAN_READS_INITIAL, MAX_PREPLAN_READS_REPAIR,
};
use super::overlap;
use super::overlap::{partition_overlapping_steps, DroppedStep, DroppedView};
use super::parse;
use super::parse::{
    looks_like_complete, parse_edit_plan, parse_failed, parse_needs_clarification, EditPlanStep,
    StepView, MAX_PREPLAN_STEPS,
};
use super::prompts;
use super::prompts::{verdict_prompt, window_prompt};
use super::repair;
use super::repair::{
    format_repair_context, format_repair_steps_for_window, repair_can_show, window_can_show,
    RepairContext, RepairView,
};
use super::windows;
use super::windows::{build_windows, PREPLAN_READ_OVERLAP, SMALL_FILE_THRESHOLD, WINDOW_SIZE};
use crate::number;
use crate::number::dec_text;
use crate::text;
use crate::text::{blank, split_lines};

verus! {

/// What one planning attempt produced.
#[derive(Debug)]
pub enum PreplanOutcome {
    /// More edits are needed: steps to run, and steps left out for an overlap.
    Continue { steps: Vec<EditPlanStep>, dropped: Vec<DroppedStep> },
    /// The file as it is satisfies the task.
    Complete,
    /// The task cannot be completed, with a reason.
    Failed(String),
    /// The task is too vague to act on, with a question.
    NeedsClarification(String),
    /// Nothing came back.
    EmptyResponse,
    /// What came back is no plan, with the error.
    ParseError(String),
}

/// A planning outcome over texts.
pub enum PreplanView {
    Continue { steps: Seq<StepView>, dropped: Seq<DroppedView> },
    Complete,
    Failed(Seq<char>),
    NeedsClarification(Seq<char>),
    EmptyResponse,
    ParseError(Seq<char>),
}

impl DeepView for PreplanOutcome {
    type V = PreplanView;

    open spec fn deep_view(&self) -> PreplanView {
        match *self {
            PreplanOutcome::Continue { steps, dropped } => PreplanView::Continue {
                steps: steps.deep_view(),
                dropped: dropped.deep_view(),
            },
            PreplanOutcome::Complete => PreplanView::Complete,
            PreplanOutcome::Failed(s) => PreplanView::Failed(s@),
            PreplanOutcome::NeedsClarification(s) => PreplanView::NeedsClarification(s@),
            PreplanOutcome::EmptyResponse => PreplanView::EmptyResponse,
            PreplanOutcome::ParseError(s) => PreplanView::ParseError(s@),
        }
    }
}

/// The first of the steps, from step `n` on, that ends behind the last line.
pub open spec fn first_outside(steps: Seq<StepView>, total: nat, n: int) -> int
    decreases steps.len() - n,
{
    if n < 0 || n >= steps.len() {
        steps.len() as int
    } else if steps[n].end_line() > total {
        n
    } else {
        first_outside(steps, total, n + 1)
    }
}

/// Whether the steps lie in a file of `total` lines: an error names the first
/// that does not.
pub open spec fn steps_verdict(steps: Seq<StepView>, total: nat) -> Result<(), Seq<char>> {
    let i = first_outside(steps, total, 0);
    if i == steps.len() {
        Ok(())
    } else {
        Err(
            "planned step L"@ + number::dec(steps[i].start_line() as nat) + "-L"@ + number::dec(
                steps[i].end_line() as nat,
            ) + " falls outside file with "@ + number::dec(total) + " lines"@,
        )
    }
}

/// Tests that the steps lie in a file of `total_lines` lines.
pub fn validate_steps_in_file(steps: &[EditPlanStep], total_lines: usize) -> (r: Result<
    (),
    String,
>)
    ensures
        text::result_view(r) == steps_verdict(steps.deep_view(), total_lines as nat),
{
    let ghost sv = steps.deep_view();
    let mut i: usize = 0;
    while i < steps.len()
        invariant
            i <= steps@.len() == sv.len(),
            sv == steps.deep_view(),
            first_outside(sv, total_lines as nat, 0) == first_outside(
                sv,
                total_lines as nat,
                i as int,
            ),
        decreases steps.len() - i,
    {
        proof {
            assert(sv[i as int] == steps@[i as int].deep_view());
        }
        if steps[i].end_line() > total_lines {
            return Err(
                "planned step L".to_owned().concat(&dec_text(steps[i].start_line())).concat(
                    "-L",
                ).concat(&dec_text(steps[i].end_line())).concat(
                    " falls outside file with ",
                ).concat(&dec_text(total_lines)).concat(" lines"),
            );
        }
        i += 1;
    }
    Ok(())
}

/// The look through a file, as far as it has come. A small file is not looked
/// through: the verdict sees it whole.
#[derive(Debug)]
pub struct PlanScan {
    /// The lines of the file.
    pub lines: Vec<String>,
    /// The windows to look at, as half-open ranges of line indices.
    pub windows: Vec<(usize, usize)>,
    /// How many windows were looked at.
    pub seen: usize,
    pub notes: Vec<String>,
    pub commands: Vec<InspectionCommand>,
}

/// A look through a file over texts.
pub struct ScanView {
    pub lines: Seq<Seq<char>>,
    pub windows: Seq<(usize, usize)>,
    pub seen: int,
    pub notes: Seq<Seq<char>>,
    pub commands: Seq<CommandView>,
}

impl DeepView for PlanScan {
    type V = ScanView;

    open spec fn deep_view(&self) -> ScanView {
        ScanView {
            lines: self.lines.deep_view(),
            windows: self.windows@,
            seen: self.seen as int,
            notes: self.notes.deep_view(),
            commands: self.commands.deep_view(),
        }
    }
}

/// Whether a file of `total` lines is shown whole.
pub open spec fn is_small(total: nat) -> bool {
    total <= SMALL_FILE_THRESHOLD
}

/// The windows through which a file of `total` lines is looked at.
pub open spec fn scan_windows(total: nat) -> Seq<(usize, usize)> {
    if is_small(total) {
        Seq::empty()
    } else {
        windows::windows(total, WINDOW_SIZE as nat, PREPLAN_READ_OVERLAP as nat)
    }
}

/// A look that has not begun.
pub open spec fn fresh_scan(content: Seq<char>) -> ScanView {
    ScanView {
        lines: text::lines(content),
        windows: scan_windows(text::lines(content).len()),
        seen: 0,
        notes: Seq::empty(),
        commands: Seq::empty(),
    }
}

impl ScanView {
    /// The windows are those of the file, and reads start at line 1 or behind it.
    pub open spec fn wf(self) -> bool {
        &&& self.windows == scan_windows(self.lines.len())
        &&& 0 <= self.seen <= self.windows.len()
        &&& inspect::reads_are_one_based(self.commands)
    }
}

proof fn lemma_window_fits(total: nat, k: int)
    requires
        total <= usize::MAX,
        0 <= k < scan_windows(total).len(),
    ensures
        scan_windows(total)[k].0 < scan_windows(total)[k].1 <= total,
{
    if total > WINDOW_SIZE {
        windows::windows_cover_the_file(total, WINDOW_SIZE as nat, PREPLAN_READ_OVERLAP as nat);
    }
}

/// What the window prompt says of the previous attempt.
pub open spec fn window_history(ctx: Option<RepairView>, window: (usize, usize)) -> Seq<char> {
    match ctx {
        Some(c) => repair::repair_text(c) + repair::window_outcomes(
            c,
            (window.0 + 1) as usize,
            window.1,
        ),
        None => Seq::empty(),
    }
}

/// What the verdict prompt says of the previous attempt.
pub open spec fn verdict_history(ctx: Option<RepairView>) -> Seq<char> {
    match ctx {
        Some(c) => repair::repair_text(c),
        None => Seq::empty(),
    }
}

/// The account of the previous attempt by its view.
pub open spec fn repair_view(ctx: Option<&RepairContext>) -> Option<RepairView> {
    match ctx {
        Some(c) => Some(c.deep_view()),
        None => None,
    }
}

/// Whether the account of the previous attempt, where there is one, can be rendered: no
/// text on an applied step ends inside a character. The reason of a failure is told
/// whole.
pub open spec fn can_show_history(ctx: Option<RepairView>) -> bool {
    match ctx {
        Some(c) => repair::can_show_all(c.completed_steps),
        None => true,
    }
}

/// Whether the prompt for the next window, where one is left, can be rendered.
pub open spec fn can_show_next(scan: ScanView, ctx: Option<RepairView>) -> bool {
    scan.seen < scan.windows.len() ==> match ctx {
        Some(c) => {
            let window = scan.windows[scan.seen];
            &&& repair::can_show_all(c.completed_steps)
            &&& repair::can_show_window(c, (window.0 + 1) as usize, window.1)
        },
        None => true,
    }
}

/// Tests whether the account of the previous attempt, where there is one, can be
/// rendered.
pub fn history_can_show(repair: Option<&RepairContext>) -> (r: bool)
    ensures
        r == can_show_history(repair_view(repair)),
{
    match repair {
        Some(c) => repair_can_show(c),
        None => true,
    }
}

/// The prompt for the next window, if one is left.
pub open spec fn next_prompt_text(
    scan: ScanView,
    path: Seq<char>,
    task: Seq<char>,
    ctx: Option<RepairView>,
) -> Option<Seq<char>> {
    if scan.seen >= scan.windows.len() {
        None
    } else {
        let window = scan.windows[scan.seen];
        Some(
            prompts::window_prompt_text(
                path,
                task,
                window_history(ctx, window),
                prompts::gathered(scan.notes, scan.commands),
                scan.lines,
                window,
                scan.seen as nat,
                scan.windows.len(),
            ),
        )
    }
}

/// What a window response leads to: a question, or a look that has come one
/// window further.
#[derive(Debug)]
pub enum ScanStep {
    Asked(String),
    Seen(PlanScan),
}

/// What a window response leads to, over texts.
pub enum ScanStepView {
    Asked(Seq<char>),
    Seen(ScanView),
}

impl DeepView for ScanStep {
    type V = ScanStepView;

    open spec fn deep_view(&self) -> ScanStepView {
        match *self {
            ScanStep::Asked(q) => ScanStepView::Asked(q@),
            ScanStep::Seen(s) => ScanStepView::Seen(s.deep_view()),
        }
    }
}

/// The look behind the response to the prompt for the next window. Notes and
/// commands that are there already are not added again.
pub open spec fn after_window(scan: ScanView, reply: Seq<char>) -> ScanStepView {
    let said = inspect::window_response(text::lines(reply), text::lines(reply).len() as int);
    match said.clarification {
        Some(q) => ScanStepView::Asked(q),
        None => ScanStepView::Seen(
            ScanView {
                seen: scan.seen + 1,
                notes: inspect::with_items(scan.notes, said.notes, said.notes.len() as int),
                commands: inspect::with_items(
                    scan.commands,
                    said.commands,
                    said.commands.len() as int,
                ),
                ..scan
            },
        ),
    }
}

/// The most reads that are run: more of them behind a failed attempt.
pub open spec fn max_reads(repairing: bool) -> usize {
    if repairing {
        MAX_PREPLAN_READS_REPAIR
    } else {
        MAX_PREPLAN_READS_INITIAL
    }
}

/// The commands to run when the look is over: those asked for, and reads of the
/// lines that the notes on a large file name.
pub open spec fn commands_to_run(scan: ScanView) -> Seq<CommandView> {
    if is_small(scan.lines.len()) {
        scan.commands
    } else {
        inspect::with_note_reads(scan.commands, scan.notes, scan.notes.len() as int)
    }
}

/// What the commands found.
pub open spec fn found(scan: ScanView, content: Seq<char>, repairing: bool) -> Seq<char> {
    let commands = commands_to_run(scan);
    inspect::after_commands(
        content,
        commands,
        commands.len() as int,
        InspectionCounters { search_count: 0, read_count: 0, max_reads: max_reads(repairing) },
        Seq::empty(),
    ).1
}

impl PlanScan {
    /// Begins the look through a file.
    pub fn start(content: &str) -> (r: PlanScan)
        ensures
            r.deep_view() == fresh_scan(content@),
            r.deep_view().wf(),
    {
        let lines = split_lines(content);
        let total: usize = lines.len();
        proof {
            assert(total == lines.deep_view().len());
        }
        let windows = if total <= SMALL_FILE_THRESHOLD {
            Vec::new()
        } else {
            build_windows(total, WINDOW_SIZE, PREPLAN_READ_OVERLAP)
        };
        let r = PlanScan { lines, windows, seen: 0, notes: Vec::new(), commands: Vec::new() };
        proof {
            assert(r.notes.deep_view() =~= Seq::<Seq<char>>::empty());
            assert(r.commands.deep_view() =~= Seq::<CommandView>::empty());
            assert(r.windows@ =~= scan_windows(total as nat));
        }
        r
    }

    /// Tests whether the prompt for the next window, where one is left, can be rendered.
    pub fn next_can_show(&self, repair: Option<&RepairContext>) -> (r: bool)
        requires
            self.deep_view().wf(),
        ensures
            r == can_show_next(self.deep_view(), repair_view(repair)),
    {
        if self.seen >= self.windows.len() {
            return true;
        }
        let window = self.windows[self.seen];
        proof {
            assert(self.lines@.len() == self.lines.deep_view().len());
            lemma_window_fits(self.lines.len() as nat, self.seen as int);
        }
        match repair {
            Some(c) => repair_can_show(c) && window_can_show(c, window.0 + 1, window.1),
            None => true,
        }
    }

    /// The prompt for the next window, if one is left.
    pub fn next_prompt(&self, path_str: &str, task: &str, repair: Option<&RepairContext>) -> (r:
        Option<String>)
        requires
            self.deep_view().wf(),
            can_show_next(self.deep_view(), repair_view(repair)),
        ensures
            r.deep_view() == next_prompt_text(
                self.deep_view(),
                path_str@,
                task@,
                repair_view(repair),
            ),
    {
        if self.seen >= self.windows.len() {
            return None;
        }
        let window = self.windows[self.seen];
        proof {
            assert(self.lines@.len() == self.lines.deep_view().len());
            lemma_window_fits(self.lines.len() as nat, self.seen as int);
        }
        let history = match repair {
            Some(c) => format_repair_context(c).concat(
                &format_repair_steps_for_window(c, window.0 + 1, window.1),
            ),
            None => String::new(),
        };
        Some(
            window_prompt(
                path_str,
                task,
                &history,
                &self.notes,
                &self.commands,
                &self.lines,
                window,
                self.seen,
                self.windows.len(),
            ),
        )
    }

    /// Takes the response to the prompt for the next window.
    pub fn take_window(self, reply: &str) -> (r: ScanStep)
        requires
            self.deep_view().wf(),
            self.seen < self.windows@.len(),
        ensures
            r.deep_view() == after_window(self.deep_view(), reply@),
            r.deep_view() matches ScanStepView::Seen(s) ==> s.wf(),
    {
        let said = parse_preplan_window_response(reply);
        proof {
            assert(self.seen < self.windows.len());
            assert(said.notes@.len() == said.notes.deep_view().len());
            assert(said.commands@.len() == said.commands.deep_view().len());
            inspect::asked_reads_are_one_based(
                text::lines(reply@),
                text::lines(reply@).len() as int,
            );
            inspect::added_reads_are_one_based(
                self.commands.deep_view(),
                said.commands.deep_view(),
                said.commands@.len() as int,
            );
        }
        let mut notes = self.notes;
        let mut commands = self.commands;
        match said.clarification {
            Some(q) => ScanStep::Asked(q),
            None => {
                extend_unique_notes(&mut notes, said.notes);
                extend_unique_commands(&mut commands, said.commands);
                ScanStep::Seen(
                    PlanScan {
                        lines: self.lines,
                        windows: self.windows,
                        seen: self.seen + 1,
                        notes,
                        commands,
                    },
                )
            },
        }
    }

    /// Runs the commands on the file and makes the prompt for the verdict.
    pub fn finish(
        self,
        path_str: &str,
        task: &str,
        content: &str,
        repair: Option<&RepairContext>,
        max_literal_lines: usize,
    ) -> (r: String)
        requires
            self.deep_view().wf(),
            can_show_history(repair_view(repair)),
        ensures
            r@ == prompts::verdict_prompt_text(
                path_str@,
                task@,
                verdict_history(repair_view(repair)),
                prompts::file_view(
                    is_small(self.lines@.len()),
                    self.deep_view().lines,
                    self.deep_view().notes,
                    found(self.deep_view(), content@, repair is Some),
                ),
                self.lines@.len(),
                is_small(self.lines@.len()),
                max_literal_lines,
            ),
    {
        let ghost sv = self.deep_view();
        let small = self.lines.len() <= SMALL_FILE_THRESHOLD;
        let limit: usize = match repair {
            Some(_) => MAX_PREPLAN_READS_REPAIR,
            None => MAX_PREPLAN_READS_INITIAL,
        };
        let notes = self.notes;
        let mut commands = self.commands;
        proof {
            assert(self.lines@.len() == self.lines.deep_view().len());
            assert(notes@.len() == notes.deep_view().len());
            inspect::note_reads_are_one_based(sv.commands, sv.notes, sv.notes.len() as int);
        }
        if !small {
            queue_note_reads(&mut commands, &notes);
        }
        proof {
            assert(commands.deep_view() == commands_to_run(sv));
            assert(commands@.len() == commands.deep_view().len());
        }
        let mut counters = InspectionCounters { search_count: 0, read_count: 0, max_reads: limit };
        let mut results = String::new();
        execute_inspection_commands(content, commands.as_slice(), &mut counters, &mut results);
        let feedback = match repair {
            Some(c) => format_repair_context(c),
            None => String::new(),
        };
        verdict_prompt(
            path_str,
            task,
            &feedback,
            small,
            &self.lines,
            &notes,
            &results,
            max_literal_lines,
        )
    }
}

/// At most the first `n` steps.
pub open spec fn at_most(steps: Seq<StepView>, n: nat) -> Seq<StepView> {
    if steps.len() > n {
        steps.take(n as int)
    } else {
        steps
    }
}

/// What the reply to the verdict prompt means for a file of `total` lines. A plan
/// loses the steps that overlap an earlier one and those beyond the limit; the
/// rest must lie in the file.
pub open spec fn verdict_of(reply: Seq<char>, total: nat) -> Result<PreplanView, Seq<char>> {
    if text::is_blank(reply) {
        Ok(PreplanView::EmptyResponse)
    } else if parse::is_complete_verdict(reply) {
        Ok(PreplanView::Complete)
    } else if parse::failed_reason(reply) is Some {
        Ok(PreplanView::Failed(parse::failed_reason(reply)->0))
    } else if parse::after_keyword(reply, "NEEDS_CLARIFICATION"@) is Some {
        Ok(
            PreplanView::NeedsClarification(
                parse::after_keyword(reply, "NEEDS_CLARIFICATION"@)->0,
            ),
        )
    } else {
        match parse::plan_of(reply) {
            Err(e) => Ok(PreplanView::ParseError(e)),
            Ok(planned) => {
                let steps = at_most(
                    overlap::kept_steps(planned, planned.len() as int),
                    MAX_PREPLAN_STEPS as nat,
                );
                match steps_verdict(steps, total) {
                    Err(e) => Err(e),
                    Ok(_) => Ok(
                        PreplanView::Continue {
                            steps,
                            dropped: overlap::dropped_steps(planned, planned.len() as int),
                        },
                    ),
                }
            },
        }
    }
}

/// Takes the reply to the verdict prompt.
pub fn take_verdict(reply: &str, total_lines: usize) -> (r: Result<PreplanOutcome, String>)
    ensures
        text::result_view(r) == verdict_of(reply@, total_lines as nat),
{
    if blank(reply) {
        return Ok(PreplanOutcome::EmptyResponse);
    }
    if looks_like_complete(reply) {
        return Ok(PreplanOutcome::Complete);
    }
    if let Some(reason) = parse_failed(reply) {
        return Ok(PreplanOutcome::Failed(reason));
    }
    if let Some(question) = parse_needs_clarification(reply) {
        return Ok(PreplanOutcome::NeedsClarification(question));
    }
    let planned = match parse_edit_plan(reply) {
        Err(e) => {
            return Ok(PreplanOutcome::ParseError(e));
        },
        Ok(p) => p,
    };
    let ghost pv = planned.deep_view();
    proof {
        assert(planned@.len() == pv.len());
    }
    let (mut steps, dropped) = partition_overlapping_steps(planned);
    let ghost kept = steps.deep_view();
    proof {
        assert(steps@.len() == kept.len());
    }
    if steps.len() > MAX_PREPLAN_STEPS {
        steps.truncate(MAX_PREPLAN_STEPS);
    }
    proof {
        assert(steps.deep_view() =~= at_most(kept, MAX_PREPLAN_STEPS as nat));
    }
    match validate_steps_in_file(steps.as_slice(), total_lines) {
        Err(e) => Err(e),
        Ok(()) => Ok(PreplanOutcome::Continue { steps, dropped }),
    }
}

/// A plan that goes ahead holds at most the allowed number of steps, all of them
/// inside the file, and no two of them share a line.
pub proof fn accepted_plans_are_sound(reply: Seq<char>, total: nat)
    ensures
        verdict_of(reply, total) matches Ok(PreplanView::Continue { steps, dropped }) ==> {
            &&& steps.len() <= MAX_PREPLAN_STEPS
            &&& forall|i: int| 0 <= i < steps.len() ==> (#[trigger] steps[i]).end_line() <= total
            &&& forall|i: int, j: int|
                0 <= i < j < steps.len() ==> !overlap::overlaps(
                    #[trigger] steps[i],
                    #[trigger] steps[j],
                )
        },
{
    if let Ok(PreplanView::Continue { steps, dropped }) = verdict_of(reply, total) {
        let planned = parse::plan_of(reply)->Ok_0;
        let kept = overlap::kept_steps(planned, planned.len() as int);
        overlap::kept_steps_are_disjoint(planned, planned.len() as int);
        assert(steps == at_most(kept, MAX_PREPLAN_STEPS as nat));
        lemma_none_outside(steps, total, 0);
        assert forall|i: int, j: int| 0 <= i < j < steps.len() implies !overlap::overlaps(
            #[trigger] steps[i],
            #[trigger] steps[j],
        ) by {
            assert(steps[i] == kept[i] && steps[j] == kept[j]);
        }
    }
}

proof fn lemma_none_outside(steps: Seq<StepView>, total: nat, n: int)
    requires
        0 <= n <= steps.len(),
        first_outside(steps, total, n) == steps.len(),
    ensures
        forall|i: int| n <= i < steps.len() ==> (#[trigger] steps[i]).end_line() <= total,
    decreases steps.len() - n,
{
    if n < steps.len() {
        lemma_none_outside(steps, total, n + 1);
    }
}

/// Steps are accepted exactly where none of them reaches beyond the file.
pub proof fn steps_must_lie_in_the_file(steps: Seq<StepView>, total: nat)
    ensures
        steps_verdict(steps, total) is Ok <==> forall|i: int|
            0 <= i < steps.len() ==> (#[trigger] steps[i]).end_line() <= total,
{
    lemma_first_outside(steps, total, 0);
    if steps_verdict(steps, total) is Ok {
        lemma_none_outside(steps, total, 0);
    } else {
        let i = first_outside(steps, total, 0);
        assert(steps[i].end_line() > total);
    }
}

proof fn lemma_first_outside(steps: Seq<StepView>, total: nat, n: int)
    requires
        0 <= n <= steps.len(),
    ensures
        n <= first_outside(steps, total, n) <= steps.len(),
        first_outside(steps, total, n) < steps.len() ==> steps[first_outside(
            steps,
            total,
            n,
        )].end_line() > total,
    decreases steps.len() - n,
{
    if n < steps.len() && steps[n].end_line() <= total {
        lemma_first_outside(steps, total, n + 1);
    }
}

/// A file of at most two hundred lines is shown whole and has no windows; of a longer one,
/// every line is in a window.
pub proof fn long_files_are_scanned_whole(content: Seq<char>, line: nat)
    requires
        text::lines(content).len() <= usize::MAX,
        line < text::lines(content).len(),
    ensures
        text::lines(content).len() <= 200 <==> fresh_scan(content).windows.len() == 0,
        text::lines(content).len() > 200 ==> exists|k: int|
            0 <= k < fresh_scan(content).windows.len() && (#[trigger] fresh_scan(
                content,
            ).windows[k]).0 <= line < fresh_scan(content).windows[k].1,
        fresh_scan(content).lines == text::lines(content),
        fresh_scan(content).seen == 0,
        fresh_scan(content).notes.len() == 0,
        fresh_scan(content).commands.len() == 0,
{
    let total = text::lines(content).len();
    if total > 200 {
        windows::every_line_has_a_window(
            total,
            WINDOW_SIZE as nat,
            PREPLAN_READ_OVERLAP as nat,
            line,
        );
        let ws = windows::windows(total, WINDOW_SIZE as nat, PREPLAN_READ_OVERLAP as nat);
        assert(fresh_scan(content).windows == ws);
        let k = choose|k: int| 0 <= k < ws.len() && (#[trigger] ws[k]).0 <= line < ws[k].1;
        assert(fresh_scan(content).windows[k] == ws[k]);
    }
}

/// A reply on a window that asks a question ends the scan with it; any other moves on by one
/// window, keeps all notes and commands, and adds those of the reply.
pub proof fn windows_are_taken_in_turn(scan: ScanView, reply: Seq<char>)
    ensures
        ({
            let said = inspect::window_response(
                text::lines(reply),
                text::lines(reply).len() as int,
            );
            match after_window(scan, reply) {
                ScanStepView::Asked(q) => said.clarification == Some(q),
                ScanStepView::Seen(next) => {
                    &&& said.clarification is None
                    &&& next.seen == scan.seen + 1
                    &&& next.lines == scan.lines
                    &&& next.windows == scan.windows
                    &&& scan.notes.len() <= next.notes.len()
                    &&& next.notes.take(scan.notes.len() as int) == scan.notes
                    &&& forall|k: int|
                        0 <= k < said.notes.len() ==> next.notes.contains(
                            #[trigger] said.notes[k],
                        )
                    &&& scan.commands.len() <= next.commands.len()
                    &&& next.commands.take(scan.commands.len() as int) == scan.commands
                    &&& forall|k: int|
                        0 <= k < said.commands.len() ==> next.commands.contains(
                            #[trigger] said.commands[k],
                        )
                },
            }
        }),
{
    let said = inspect::window_response(text::lines(reply), text::lines(reply).len() as int);
    inspect::items_are_added_once(scan.notes, said.notes, said.notes.len() as int);
    inspect::items_are_added_once(scan.commands, said.commands, said.commands.len() as int);
}

/// A repair may read more than a first attempt.
pub proof fn repairs_may_read_more()
    ensures
        max_reads(false) == 6,
        max_reads(true) == 10,
{
}

/// The replies that are no plan are told apart: one without text, one that says that the
/// task is done, one that gives a reason for failure, and one that asks.
pub proof fn verdicts_are_told_apart(reason: Seq<char>, blank: Seq<char>, total: nat)
    requires
        !reason.contains('\n'),
        reason.len() > 0,
        text::is_blank(blank),
    ensures
        verdict_of(blank, total) == Ok::<PreplanView, Seq<char>>(PreplanView::EmptyResponse),
        verdict_of("COMPLETE"@, total) == Ok::<PreplanView, Seq<char>>(PreplanView::Complete),
        verdict_of("FAILED:"@ + reason, total) == Ok::<PreplanView, Seq<char>>(
            PreplanView::Failed(
                if text::trim(reason).len() > 200 {
                    text::trim(reason).take(200) + "…"@
                } else {
                    text::trim(reason)
                },
            ),
        ),
        verdict_of("NEEDS_CLARIFICATION:"@ + reason, total) == Ok::<PreplanView, Seq<char>>(
            PreplanView::NeedsClarification(text::trim(reason)),
        ),
{
    parse::reasons_are_read(reason);
    assert(verdict_of("COMPLETE"@, total) == Ok::<PreplanView, Seq<char>>(
        PreplanView::Complete,
    )) by {
        reveal_strlit("COMPLETE");
        lemma_plain_start("COMPLETE"@);
        parse::empty_patches_are_refused("COMPLETE"@);
        text::trimmed_text_stays("COMPLETE"@);
    }
    assert(verdict_of("FAILED:"@ + reason, total) is Ok && !parse::is_complete_verdict(
        "FAILED:"@ + reason,
    ) && !text::is_blank("FAILED:"@ + reason)) by {
        reveal_strlit("FAILED:");
        lemma_not_complete("FAILED:"@ + reason);
    }
    let ask = "NEEDS_CLARIFICATION:"@ + reason;
    assert(!text::is_blank(ask) && parse::failed_reason(ask) is None
        && !parse::is_complete_verdict(ask)) by {
        reveal_strlit("NEEDS_CLARIFICATION:");
        reveal_strlit("FAILED");
        reveal_strlit("NO_CHANGES");
        reveal_strlit("COMPLETE");
        assert(ask[0] == 'N' && ask[1] == 'E');
        lemma_plain_start(ask);
        parse::unfenced_text_stays(ask);
        assert(text::trim_start(ask) =~= ask) by {
            assert(text::skip_space(ask, 0) == 0);
        }
        if text::starts_with(ask, "FAILED"@) {
            assert(ask.subrange(0, 6)[0] == ask[0]);
        }
        lemma_trim_keeps_start(ask);
        assert("NO_CHANGES"@[1] == 'O' && "COMPLETE"@[0] == 'C');
    }
}

proof fn lemma_trim_keeps_start(s: Seq<char>)
    requires
        s.len() > 1,
        !text::is_space(s[0]),
        !text::is_space(s[1]),
    ensures
        text::trim(s).len() > 1,
        text::trim(s)[0] == s[0],
        text::trim(s)[1] == s[1],
{
    assert(text::skip_space(s, 0) == 0);
    let n = s.len() as int;
    text::lemma_back_space(s, 0, n);
    let b = text::back_space(s, 0, n);
    assert(b >= 2) by {
        if b < 2 {
            assert(text::is_space(s[1]));
        }
    }
}

proof fn lemma_plain_start(s: Seq<char>)
    requires
        s.len() > 0,
        !text::is_space(s[0]),
        s[0] != '`',
    ensures
        !text::starts_with(text::trim_start(s), "```"@),
        !text::is_blank(s),
{
    reveal_strlit("```");
    assert(text::skip_space(s, 0) == 0);
    assert(text::trim_start(s) =~= s);
    if text::starts_with(s, "```"@) {
        assert(s.subrange(0, 3)[0] == s[0]);
    }
}

proof fn lemma_not_complete(s: Seq<char>)
    requires
        s.len() > 1,
        s[0] == 'F',
        !text::is_space(s[1]),
    ensures
        !parse::is_complete_verdict(s),
        !text::is_blank(s),
{
    reveal_strlit("NO_CHANGES");
    reveal_strlit("COMPLETE");
    lemma_plain_start(s);
    parse::unfenced_text_stays(s);
    lemma_trim_keeps_start(s);
    assert("NO_CHANGES"@[0] == 'N' && "COMPLETE"@[0] == 'C');
}

/// What was asked for in the look through the file is found out: each of the first twenty
/// searches, and each of the first reads, up to as many as are allowed.
pub proof fn asked_questions_are_answered(
    scan: ScanView,
    content: Seq<char>,
    repairing: bool,
    i: int,
)
    requires
        0 <= i < commands_to_run(scan).len(),
    ensures
        commands_to_run(scan)[i] matches CommandView::Search(q) ==> i < 20 ==> text::has_text(
            found(scan, content, repairing),
            inspect::search_report(content, q),
        ),
        commands_to_run(scan)[i] matches CommandView::Read { start, end } ==> i < max_reads(
            repairing,
        ) ==> (inspect::read_report(content, start, end) matches Ok(s) ==> text::has_text(
            found(scan, content, repairing),
            s,
        )),
{
    let commands = commands_to_run(scan);
    let counters = InspectionCounters {
        search_count: 0,
        read_count: 0,
        max_reads: max_reads(repairing),
    };
    match commands[i] {
        CommandView::Search(q) => {
            if i < 20 {
                inspect::searches_are_run(content, commands, i, counters, Seq::empty(), q);
            }
        },
        CommandView::Read { start, end } => {
            if i < max_reads(repairing) {
                inspect::allowed_reads_are_run(
                    content,
                    commands,
                    i,
                    counters,
                    Seq::empty(),
                    start,
                    end,
                );
            }
        },
    }
}

/// What was asked for is run first, in its order; of a file of up to two hundred lines
/// nothing else is, of a longer one the lines that the notes name are read too.
pub proof fn asked_commands_are_run(scan: ScanView, i: int, k: int)
    ensures
        0 <= i < scan.commands.len() ==> i < commands_to_run(scan).len() && commands_to_run(scan)[i]
            == scan.commands[i],
        scan.lines.len() <= 200 ==> commands_to_run(scan) == scan.commands,
        scan.lines.len() > 200 && 0 <= i < scan.notes.len() && 0 <= k < inspect::reads_of(
            inspect::refs_from(scan.notes[i], 0),
        ).len() ==> commands_to_run(scan).contains(
            inspect::reads_of(inspect::refs_from(scan.notes[i], 0))[k],
        ),
{
    let n = scan.notes.len() as int;
    inspect::notes_lead_to_reads(scan.commands, scan.notes, n, i, k);
    let all = inspect::with_note_reads(scan.commands, scan.notes, n);
    if 0 <= i < scan.commands.len() {
        assert(all.take(scan.commands.len() as int)[i] == all[i]);
    }
}

} // verus!
