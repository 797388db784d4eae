//! The edit-plan and patch formats: their types, their parsers, and the
//! rendering of plan steps back into text.
use vstd::prelude::*;

use crate::number;
use crate::number::{dec_text, parse_usize, NumberError};
use crate::text;
use crate::text::{
    blank, char_at_or_after, first_line_of, from_chars, has_prefix, joined, rfind, same_text,
    space, split_lines, split_words, to_chars, trimmed, trimmed_start, without_prefix,
};

verus! {

/// The most steps that a plan may hold.
pub const MAX_PREPLAN_STEPS: usize = 100;

/// The most characters of a rendered plan that a log entry holds.
pub const MAX_PREPLAN_LOG_CHARS: usize = 20000;

/// The most characters kept of the reason of a `FAILED` verdict.
pub const MAX_FAILED_REASON_CHARS: usize = 200;

/// One operation of a patch. Lines are numbered from 1.
#[derive(Debug, PartialEq, Eq)]
pub enum PatchOp {
    /// Insert `content` in front of a line.
    InsertBefore { line: usize, content: Vec<String> },
    /// Insert `content` behind a line.
    InsertAfter { line: usize, content: Vec<String> },
    /// Replace the lines `old`, expected at `start`, by `new`.
    ReplaceAt { start: usize, old: Vec<String>, new: Vec<String> },
    /// Delete the lines `old`, expected at `start`.
    DeleteAt { start: usize, old: Vec<String> },
}

/// A patch operation over texts.
pub enum PatchOpView {
    InsertBefore { line: usize, content: Seq<Seq<char>> },
    InsertAfter { line: usize, content: Seq<Seq<char>> },
    ReplaceAt { start: usize, old: Seq<Seq<char>>, new: Seq<Seq<char>> },
    DeleteAt { start: usize, old: Seq<Seq<char>> },
}

impl DeepView for PatchOp {
    type V = PatchOpView;

    open spec fn deep_view(&self) -> PatchOpView {
        match *self {
            PatchOp::InsertBefore { line, content } => PatchOpView::InsertBefore {
                line,
                content: content.deep_view(),
            },
            PatchOp::InsertAfter { line, content } => PatchOpView::InsertAfter {
                line,
                content: content.deep_view(),
            },
            PatchOp::ReplaceAt { start, old, new } => PatchOpView::ReplaceAt {
                start,
                old: old.deep_view(),
                new: new.deep_view(),
            },
            PatchOp::DeleteAt { start, old } => PatchOpView::DeleteAt {
                start,
                old: old.deep_view(),
            },
        }
    }
}

/// A range of lines and what is to be done there.
#[derive(Debug, PartialEq, Eq)]
pub struct EditRegion {
    pub start: usize,
    pub end: usize,
    pub task: String,
}

/// An edit region over texts.
pub struct EditRegionView {
    pub start: usize,
    pub end: usize,
    pub task: Seq<char>,
}

impl DeepView for EditRegion {
    type V = EditRegionView;

    open spec fn deep_view(&self) -> EditRegionView {
        EditRegionView { start: self.start, end: self.end, task: self.task@ }
    }
}

/// One step of an edit plan.
#[derive(Debug, PartialEq, Eq)]
pub enum EditPlanStep {
    /// Have a region edited.
    SmartEdit(EditRegion),
    /// Replace the text `old` by `new` in a range of lines.
    LiteralReplace {
        scope_start: usize,
        scope_end: usize,
        all: bool,
        old: Vec<String>,
        new: Vec<String>,
    },
}

/// A plan step over texts.
pub enum StepView {
    SmartEdit(EditRegionView),
    LiteralReplace {
        scope_start: usize,
        scope_end: usize,
        all: bool,
        old: Seq<Seq<char>>,
        new: Seq<Seq<char>>,
    },
}

impl DeepView for EditPlanStep {
    type V = StepView;

    open spec fn deep_view(&self) -> StepView {
        match *self {
            EditPlanStep::SmartEdit(region) => StepView::SmartEdit(region.deep_view()),
            EditPlanStep::LiteralReplace { scope_start, scope_end, all, old, new } => {
                StepView::LiteralReplace {
                    scope_start,
                    scope_end,
                    all,
                    old: old.deep_view(),
                    new: new.deep_view(),
                }
            },
        }
    }
}

impl StepView {
    /// The first line of the step.
    pub open spec fn start_line(self) -> usize {
        match self {
            StepView::SmartEdit(region) => region.start,
            StepView::LiteralReplace { scope_start, .. } => scope_start,
        }
    }

    /// The last line of the step.
    pub open spec fn end_line(self) -> usize {
        match self {
            StepView::SmartEdit(region) => region.end,
            StepView::LiteralReplace { scope_end, .. } => scope_end,
        }
    }
}

/// The same texts once more.
pub fn copy_texts(v: &Vec<String>) -> (r: Vec<String>)
    ensures
        r.deep_view() == v.deep_view(),
{
    let mut out: Vec<String> = Vec::new();
    let mut i: usize = 0;
    while i < v.len()
        invariant
            i <= v.len(),
            out.deep_view() == v.deep_view().take(i as int),
        decreases v.len() - i,
    {
        let ghost before = out.deep_view();
        out.push(v[i].clone());
        proof {
            assert(out.deep_view() =~= before.push(v[i as int]@));
            assert(v.deep_view().take(i + 1) =~= v.deep_view().take(i as int).push(v[i as int]@));
        }
        i += 1;
    }
    proof {
        assert(v.deep_view().take(i as int) =~= v.deep_view());
    }
    out
}

impl EditPlanStep {
    /// The first line of the step.
    pub fn start_line(&self) -> (r: usize)
        ensures
            r == self.deep_view().start_line(),
    {
        match self {
            EditPlanStep::SmartEdit(region) => region.start,
            EditPlanStep::LiteralReplace { scope_start, .. } => *scope_start,
        }
    }

    /// The last line of the step.
    pub fn end_line(&self) -> (r: usize)
        ensures
            r == self.deep_view().end_line(),
    {
        match self {
            EditPlanStep::SmartEdit(region) => region.end,
            EditPlanStep::LiteralReplace { scope_end, .. } => *scope_end,
        }
    }
}

impl Clone for EditRegion {
    fn clone(&self) -> (r: EditRegion)
        ensures
            r.deep_view() == self.deep_view(),
    {
        EditRegion { start: self.start, end: self.end, task: self.task.clone() }
    }
}

impl Clone for EditPlanStep {
    fn clone(&self) -> (r: EditPlanStep)
        ensures
            r.deep_view() == self.deep_view(),
    {
        match self {
            EditPlanStep::SmartEdit(region) => EditPlanStep::SmartEdit(region.clone()),
            EditPlanStep::LiteralReplace { scope_start, scope_end, all, old, new } => {
                EditPlanStep::LiteralReplace {
                    scope_start: *scope_start,
                    scope_end: *scope_end,
                    all: *all,
                    old: copy_texts(old),
                    new: copy_texts(new),
                }
            },
        }
    }
}

impl Clone for PatchOp {
    fn clone(&self) -> (r: PatchOp)
        ensures
            r.deep_view() == self.deep_view(),
    {
        match self {
            PatchOp::InsertBefore { line, content } => PatchOp::InsertBefore {
                line: *line,
                content: copy_texts(content),
            },
            PatchOp::InsertAfter { line, content } => PatchOp::InsertAfter {
                line: *line,
                content: copy_texts(content),
            },
            PatchOp::ReplaceAt { start, old, new } => PatchOp::ReplaceAt {
                start: *start,
                old: copy_texts(old),
                new: copy_texts(new),
            },
            PatchOp::DeleteAt { start, old } => PatchOp::DeleteAt {
                start: *start,
                old: copy_texts(old),
            },
        }
    }
}

/// `text` without an outer code fence: where the text opens with three
/// backticks, what follows the fence line, up to the last three backticks where
/// there are any.
pub open spec fn unfenced(text: Seq<char>) -> Seq<char> {
    match text::strip_prefix(text::trim_start(text), "```"@) {
        None => text,
        Some(rest) => {
            let nl = text::char_from(rest, '\n', 0);
            if nl == rest.len() {
                text
            } else {
                let body = rest.subrange(nl + 1, rest.len() as int);
                let close = text::last_text(body, "```"@, body.len() as int);
                if close < 0 {
                    body
                } else {
                    body.take(close)
                }
            }
        },
    }
}

/// Strips one outer code fence from `text`, where it has one.
pub fn strip_code_fences(text: &str) -> (r: String)
    ensures
        r@ == unfenced(text@),
{
    let start = trimmed_start(text);
    match without_prefix(&start, "```") {
        None => text.to_owned(),
        Some(rest) => {
            let v = to_chars(&rest);
            let nl = char_at_or_after(&v, '\n', 0);
            if nl == v.len() {
                return text.to_owned();
            }
            let body = to_chars(&from_chars(&v, nl + 1, v.len()));
            let fence = to_chars("```");
            match rfind(&body, &fence) {
                Some(k) => from_chars(&body, 0, k),
                None => from_chars(&body, 0, body.len()),
            }
        },
    }
}

/// Whether `text` is the verdict that the task is done.
pub open spec fn is_complete_verdict(text: Seq<char>) -> bool {
    let t = text::trim(unfenced(text));
    t == "COMPLETE"@ || t == "NO_CHANGES"@
}

/// Detects the `COMPLETE` verdict, in its older spelling `NO_CHANGES` too.
pub fn looks_like_complete(text: &str) -> (r: bool)
    ensures
        r == is_complete_verdict(text@),
{
    let t = trimmed(&strip_code_fences(text));
    same_text(&t, "COMPLETE") || same_text(&t, "NO_CHANGES")
}

/// Detects the bare `NO_CHANGES` reply.
pub fn looks_like_no_changes(text: &str) -> (r: bool)
    ensures
        r == (text::trim(unfenced(text@)) == "NO_CHANGES"@),
{
    let t = trimmed(&strip_code_fences(text));
    same_text(&t, "NO_CHANGES")
}

/// What follows the keyword `word` at the start of `text`: the trimmed rest of
/// its line. The keyword stands alone: a colon, white space or the end of the
/// text follows it.
pub open spec fn after_keyword(text: Seq<char>, word: Seq<char>) -> Option<Seq<char>> {
    match text::strip_prefix(text::trim_start(text), word) {
        None => None,
        Some(rest) => if rest.len() == 0 {
            Some(Seq::empty())
        } else if rest[0] == ':' {
            Some(text::trim(text::first_line(rest.subrange(1, rest.len() as int))))
        } else if text::is_space(rest[0]) {
            Some(text::trim(text::first_line(rest)))
        } else {
            None
        },
    }
}

fn parse_keyword(text: &str, word: &str) -> (r: Option<String>)
    ensures
        r.deep_view() == after_keyword(text@, word@),
{
    let start = trimmed_start(text);
    match without_prefix(&start, word) {
        None => None,
        Some(rest) => {
            let v = to_chars(&rest);
            if v.len() == 0 {
                Some(String::new())
            } else if v[0] == ':' {
                Some(trimmed(&first_line_of(&from_chars(&v, 1, v.len()))))
            } else if space(v[0]) {
                Some(trimmed(&first_line_of(&rest)))
            } else {
                None
            }
        },
    }
}

/// The reason of a `FAILED` verdict, cut to `MAX_FAILED_REASON_CHARS`
/// characters and an ellipsis.
pub open spec fn failed_reason(text: Seq<char>) -> Option<Seq<char>> {
    match after_keyword(unfenced(text), "FAILED"@) {
        None => None,
        Some(reason) => if reason.len() > MAX_FAILED_REASON_CHARS {
            Some(reason.take(MAX_FAILED_REASON_CHARS as int) + "…"@)
        } else {
            Some(reason)
        },
    }
}

/// Detects a `FAILED: <reason>` verdict.
pub fn parse_failed(text: &str) -> (r: Option<String>)
    ensures
        r.deep_view() == failed_reason(text@),
{
    let body = strip_code_fences(text);
    match parse_keyword(&body, "FAILED") {
        None => None,
        Some(reason) => {
            let v = to_chars(&reason);
            if v.len() > MAX_FAILED_REASON_CHARS {
                Some(from_chars(&v, 0, MAX_FAILED_REASON_CHARS).concat("…"))
            } else {
                Some(reason)
            }
        },
    }
}

/// Detects a `NEEDS_CLARIFICATION: <question>` reply. The question may be
/// empty.
pub fn parse_needs_clarification(text: &str) -> (r: Option<String>)
    ensures
        r.deep_view() == after_keyword(text@, "NEEDS_CLARIFICATION"@),
{
    parse_keyword(text, "NEEDS_CLARIFICATION")
}

/// `text`, or its first `max_chars` characters and a note on its length.
pub open spec fn truncated(text: Seq<char>, max_chars: nat) -> Seq<char> {
    if text.len() <= max_chars {
        text
    } else {
        text.take(max_chars as int) + "\n...("@ + number::dec(text.len()) + " chars total, truncated)\n"@
    }
}

/// Cuts `text` to `max_chars` characters, with a note on its length where that
/// drops anything.
pub fn truncate_multiline(text: &str, max_chars: usize) -> (r: String)
    ensures
        r@ == truncated(text@, max_chars as nat),
{
    let v = to_chars(text);
    if v.len() <= max_chars {
        return text.to_owned();
    }
    from_chars(&v, 0, max_chars).concat("\n...(").concat(&dec_text(v.len())).concat(
        " chars total, truncated)\n",
    )
}

/// The first index at or after `i` of a line equal to `word`, or the length.
pub open spec fn line_from(ls: Seq<Seq<char>>, word: Seq<char>, i: int) -> int
    decreases ls.len() - i,
{
    if 0 <= i < ls.len() && ls[i] != word {
        line_from(ls, word, i + 1)
    } else {
        i
    }
}

/// The first index at or after `i` of a line that is not blank, or the length.
pub open spec fn nonblank_from(ls: Seq<Seq<char>>, i: int) -> int
    decreases ls.len() - i,
{
    if 0 <= i < ls.len() && text::trim(ls[i]).len() == 0 {
        nonblank_from(ls, i + 1)
    } else {
        i
    }
}

/// `line_from` stays in range and finds the first such line.
pub proof fn lemma_line_from(ls: Seq<Seq<char>>, word: Seq<char>, i: int)
    requires
        0 <= i <= ls.len(),
    ensures
        i <= line_from(ls, word, i) <= ls.len(),
        forall|k: int| i <= k < line_from(ls, word, i) ==> #[trigger] ls[k] != word,
        line_from(ls, word, i) < ls.len() ==> ls[line_from(ls, word, i)] == word,
    decreases ls.len() - i,
{
    if i < ls.len() && ls[i] != word {
        lemma_line_from(ls, word, i + 1);
    }
}

/// Whether line `i` is `word`, and what is wrong where it is not.
pub open spec fn expected_line(ls: Seq<Seq<char>>, i: int, word: Seq<char>) -> Result<
    (),
    Seq<char>,
> {
    if i >= ls.len() {
        Err("expected '"@ + word + "' but reached end of patch"@)
    } else if ls[i] == word {
        Ok(())
    } else {
        Err("expected '"@ + word + "' but found '"@ + ls[i] + "'"@)
    }
}

/// Checks that line `idx` is `expected`.
pub fn expect_line(lines: &Vec<String>, idx: usize, expected: &str) -> (r: Result<(), String>)
    ensures
        text::result_view(r) == expected_line(lines.deep_view(), idx as int, expected@),
{
    if idx >= lines.len() {
        return Err("expected '".to_owned().concat(expected).concat("' but reached end of patch"));
    }
    if same_text(&lines[idx], expected) {
        Ok(())
    } else {
        Err(
            "expected '".to_owned().concat(expected).concat("' but found '").concat(
                &lines[idx],
            ).concat("'"),
        )
    }
}

/// The lines from `start` up to the first line equal to `sentinel`, and the
/// index of that line.
pub open spec fn block_until(ls: Seq<Seq<char>>, start: int, sentinel: Seq<char>) -> Result<
    (Seq<Seq<char>>, int),
    Seq<char>,
> {
    let e = line_from(ls, sentinel, start);
    if start <= e < ls.len() {
        Ok((ls.subrange(start, e), e))
    } else {
        Err("missing sentinel '"@ + sentinel + "'"@)
    }
}

/// Collects the lines from `start` up to the first line equal to `sentinel`.
pub fn collect_until(lines: &Vec<String>, start: usize, sentinel: &str) -> (r: Result<
    (Vec<String>, usize),
    String,
>)
    ensures
        text::result_at(r) == block_until(lines.deep_view(), start as int, sentinel@),
        r matches Ok(p) ==> start <= p.1 < lines.len(),
{
    let mut collected: Vec<String> = Vec::new();
    let mut idx: usize = start;
    while idx < lines.len()
        invariant
            start <= idx,
            start < lines.len() ==> idx <= lines.len(),
            start >= lines.len() ==> idx == start,
            line_from(lines.deep_view(), sentinel@, start as int) == line_from(
                lines.deep_view(),
                sentinel@,
                idx as int,
            ),
            start < lines.len() ==> collected.deep_view() == lines.deep_view().subrange(
                start as int,
                idx as int,
            ),
        decreases lines.len() - idx,
    {
        if same_text(&lines[idx], sentinel) {
            return Ok((collected, idx));
        }
        let ghost before = collected.deep_view();
        collected.push(lines[idx].clone());
        proof {
            assert(collected.deep_view() =~= before.push(lines[idx as int]@));
            assert(lines.deep_view().subrange(start as int, idx + 1) =~= before.push(
                lines[idx as int]@,
            ));
        }
        idx += 1;
    }
    Err("missing sentinel '".to_owned().concat(sentinel).concat("'"))
}

/// The line number that `s` writes.
pub open spec fn line_number(s: Seq<char>) -> Result<usize, Seq<char>> {
    let raw = text::trim(s);
    match number::number(raw) {
        Err(e) => Err("invalid line number '"@ + raw + "': "@ + number::number_error_text(e)),
        Ok(n) => if n == 0 {
            Err("line numbers are 1-based"@)
        } else {
            Ok(n)
        },
    }
}

/// Reads a line number, which is at least 1.
pub fn parse_line_number(text: &str) -> (r: Result<usize, String>)
    ensures
        text::result_view(r) == line_number(text@),
{
    let raw = trimmed(text);
    match parse_usize(&raw) {
        Err(e) => Err(
            "invalid line number '".to_owned().concat(&raw).concat("': ").concat(&e.message()),
        ),
        Ok(n) => if n == 0 {
            Err("line numbers are 1-based".to_owned())
        } else {
            Ok(n)
        },
    }
}

/// The message on a token of a header that is no number.
pub open spec fn bad_token(
    what: Seq<char>,
    token: Seq<char>,
    header: Seq<char>,
    e: number::NumberError,
) -> Seq<char> {
    "invalid "@ + what + " '"@ + token + "' in header '"@ + header + "': "@
        + number::number_error_text(e)
}

fn bad_token_text(what: &str, token: &str, header: &str, e: NumberError) -> (r: String)
    ensures
        r@ == bad_token(what@, token@, header@, e),
{
    "invalid ".to_owned().concat(what).concat(" '").concat(token).concat("' in header '").concat(
        header,
    ).concat("': ").concat(&e.message())
}

/// The two line numbers, in order and at least 1, that `rest` writes.
pub open spec fn two_line_numbers(
    rest: Seq<char>,
    header: Seq<char>,
    label: Seq<char>,
) -> Result<(usize, usize), Seq<char>> {
    let parts = text::words(rest);
    if parts.len() == 0 {
        Err("missing "@ + label + " start in header: "@ + header)
    } else {
        match number::number(parts[0]) {
            Err(e) => Err(bad_token(label + " start"@, parts[0], header, e)),
            Ok(start) => if parts.len() == 1 {
                Err("missing "@ + label + " end in header: "@ + header)
            } else {
                match number::number(parts[1]) {
                    Err(e) => Err(bad_token(label + " end"@, parts[1], header, e)),
                    Ok(end) => if parts.len() > 2 {
                        Err("too many fields in "@ + label + " header: "@ + header)
                    } else if start == 0 || end < start {
                        Err(
                            "invalid "@ + label + " L"@ + number::dec(start as nat) + "-L"@
                                + number::dec(end as nat),
                        )
                    } else {
                        Ok((start, end))
                    },
                }
            },
        }
    }
}

/// Reads two line numbers, in order and at least 1.
pub fn parse_two_line_numbers(rest: &str, header: &str, label: &str) -> (r: Result<
    (usize, usize),
    String,
>)
    ensures
        text::result_view(r) == two_line_numbers(rest@, header@, label@),
{
    let parts = split_words(rest);
    let ghost ps = parts.deep_view();
    if parts.len() == 0 {
        return Err(
            "missing ".to_owned().concat(label).concat(" start in header: ").concat(header),
        );
    }
    let start = match parse_usize(&parts[0]) {
        Err(e) => {
            return Err(bad_token_text(&label.to_owned().concat(" start"), &parts[0], header, e));
        },
        Ok(n) => n,
    };
    if parts.len() == 1 {
        return Err("missing ".to_owned().concat(label).concat(" end in header: ").concat(header));
    }
    let end = match parse_usize(&parts[1]) {
        Err(e) => {
            return Err(bad_token_text(&label.to_owned().concat(" end"), &parts[1], header, e));
        },
        Ok(n) => n,
    };
    if parts.len() > 2 {
        return Err(
            "too many fields in ".to_owned().concat(label).concat(" header: ").concat(header),
        );
    }
    if start == 0 || end < start {
        return Err(
            "invalid ".to_owned().concat(label).concat(" L").concat(&dec_text(start)).concat(
                "-L",
            ).concat(&dec_text(end)),
        );
    }
    Ok((start, end))
}

/// The lines that the header of a region names: `a-b`, `a` or `a b`. Only the
/// last form is checked for order.
pub open spec fn region_lines(rest: Seq<char>, header: Seq<char>) -> Result<
    (usize, usize),
    Seq<char>,
> {
    let dash = text::char_from(rest, '-', 0);
    if dash < rest.len() {
        let a = rest.subrange(0, dash);
        let b = rest.subrange(dash + 1, rest.len() as int);
        match number::number(text::trim(a)) {
            Err(e) => Err(bad_token("region start"@, a, header, e)),
            Ok(start) => match number::number(text::trim(b)) {
                Err(e) => Err(bad_token("region end"@, b, header, e)),
                Ok(end) => Ok((start, end)),
            },
        }
    } else {
        let parts = text::words(rest);
        if parts.len() == 1 {
            match number::number(parts[0]) {
                Err(e) => Err(bad_token("region line"@, parts[0], header, e)),
                Ok(n) => Ok((n, n)),
            }
        } else if parts.len() == 2 {
            two_line_numbers(rest, header, "region"@)
        } else {
            Err("invalid REGION header: "@ + header)
        }
    }
}

fn parse_region_lines(rest: &str, header: &str) -> (r: Result<(usize, usize), String>)
    ensures
        text::result_view(r) == region_lines(rest@, header@),
{
    let v = to_chars(rest);
    let dash = char_at_or_after(&v, '-', 0);
    if dash < v.len() {
        let a = from_chars(&v, 0, dash);
        let b = from_chars(&v, dash + 1, v.len());
        match parse_usize(&trimmed(&a)) {
            Err(e) => Err(bad_token_text("region start", &a, header, e)),
            Ok(start) => match parse_usize(&trimmed(&b)) {
                Err(e) => Err(bad_token_text("region end", &b, header, e)),
                Ok(end) => Ok((start, end)),
            },
        }
    } else {
        let parts = split_words(rest);
        let ghost ps = parts.deep_view();
        if parts.len() == 1 {
            match parse_usize(&parts[0]) {
                Err(e) => Err(bad_token_text("region line", &parts[0], header, e)),
                Ok(n) => Ok((n, n)),
            }
        } else if parts.len() == 2 {
            parse_two_line_numbers(rest, header, "region")
        } else {
            Err("invalid REGION header: ".to_owned().concat(header))
        }
    }
}

/// The region that the lines from `idx` on describe, and the index behind it.
pub open spec fn region_at(ls: Seq<Seq<char>>, idx: int) -> Result<
    (EditRegionView, int),
    Seq<char>,
> {
    if idx >= ls.len() {
        Err("missing REGION header"@)
    } else {
        match text::strip_prefix(ls[idx], "REGION "@) {
            None => Err("unexpected text in region plan: "@ + ls[idx]),
            Some(rest) => match region_lines(text::trim(rest), ls[idx]) {
                Err(e) => Err(e),
                Ok((start, end)) => if idx + 1 >= ls.len() {
                    Err("missing TASK line for region"@)
                } else {
                    match text::strip_prefix(ls[idx + 1], "TASK:"@) {
                        None => Err("expected TASK line but found '"@ + ls[idx + 1] + "'"@),
                        Some(t) => if text::trim(t).len() == 0 {
                            Err("region task must not be empty"@)
                        } else {
                            Ok((EditRegionView { start, end, task: text::trim(t) }, idx + 2))
                        },
                    }
                },
            },
        }
    }
}

/// Reads the region that the lines from `idx` on describe.
pub fn parse_region_at(lines: &Vec<String>, idx: usize) -> (r: Result<(EditRegion, usize), String>)
    ensures
        text::result_at(r) == region_at(lines.deep_view(), idx as int),
        r matches Ok(p) ==> p.1 == idx + 2 && idx + 2 <= lines.len(),
{
    let ghost ls = lines.deep_view();
    if idx >= lines.len() {
        return Err("missing REGION header".to_owned());
    }
    let header = &lines[idx];
    let rest = match without_prefix(header, "REGION ") {
        None => {
            return Err("unexpected text in region plan: ".to_owned().concat(header));
        },
        Some(t) => trimmed(&t),
    };
    let (start, end) = match parse_region_lines(&rest, header) {
        Err(e) => {
            return Err(e);
        },
        Ok(p) => p,
    };
    if idx + 1 >= lines.len() {
        return Err("missing TASK line for region".to_owned());
    }
    let task_line = &lines[idx + 1];
    match without_prefix(task_line, "TASK:") {
        None => Err("expected TASK line but found '".to_owned().concat(task_line).concat("'")),
        Some(t) => {
            let task = trimmed(&t);
            if blank(&t) {
                Err("region task must not be empty".to_owned())
            } else {
                Ok((EditRegion { start, end, task }, idx + 2))
            }
        },
    }
}

/// The value of an `ALL` line.
pub open spec fn all_flag(line: Seq<char>) -> Result<bool, Seq<char>> {
    match text::strip_prefix(line, "ALL "@) {
        None => Err("expected ALL line but found '"@ + line + "'"@),
        Some(rest) => if rest == "true"@ {
            Ok(true)
        } else if rest == "false"@ {
            Ok(false)
        } else {
            Err("invalid ALL value '"@ + rest + "' in line '"@ + line + "'"@)
        },
    }
}

fn parse_all_flag(line: &str) -> (r: Result<bool, String>)
    ensures
        text::result_view(r) == all_flag(line@),
{
    match without_prefix(line, "ALL ") {
        None => Err("expected ALL line but found '".to_owned().concat(line).concat("'")),
        Some(rest) => if same_text(&rest, "true") {
            Ok(true)
        } else if same_text(&rest, "false") {
            Ok(false)
        } else {
            Err(
                "invalid ALL value '".to_owned().concat(&rest).concat("' in line '").concat(
                    line,
                ).concat("'"),
            )
        },
    }
}

/// Whether every line of a block is blank.
pub open spec fn all_blank(block: Seq<Seq<char>>) -> bool {
    forall|k: int| 0 <= k < block.len() ==> text::is_blank(#[trigger] block[k])
}

fn block_blank(block: &Vec<String>) -> (r: bool)
    ensures
        r == all_blank(block.deep_view()),
{
    let ghost b = block.deep_view();
    let mut i: usize = 0;
    while i < block.len()
        invariant
            i <= block.len(),
            b == block.deep_view(),
            forall|k: int| 0 <= k < i ==> text::is_blank(#[trigger] b[k]),
        decreases block.len() - i,
    {
        if !blank(&block[i]) {
            proof {
                assert(!text::is_blank(b[i as int]));
            }
            return false;
        }
        i += 1;
    }
    true
}

/// The blocks of a literal replacement whose `OLD:` line is due at `i`, and the
/// index behind them. `start` and `end` are its lines.
pub open spec fn literal_blocks(ls: Seq<Seq<char>>, i: int, start: usize, end: usize) -> Result<
    ((Seq<Seq<char>>, Seq<Seq<char>>), int),
    Seq<char>,
> {
    let peek = nonblank_from(ls, i);
    if peek < ls.len() && ls[peek] == "NEW:"@ {
        Err(
            "LITERAL_REPLACE now requires an OLD: block — copy the exact current text of L"@
                + number::dec(start as nat) + "-L"@ + number::dec(end as nat)
                + " into OLD:, then put the replacement in NEW:. If the region is too large to echo verbatim, use SMART_EDIT instead (its execution phase will see the region content)."@,
        )
    } else {
        match expected_line(ls, i, "OLD:"@) {
            Err(e) => Err(e),
            Ok(_) => match block_until(ls, i + 1, "END_OLD"@) {
                Err(e) => Err(e),
                Ok((old, p)) => if old.len() == 0 {
                    Err("literal OLD block must not be empty"@)
                } else if all_blank(old) {
                    Err("literal OLD block must contain non-whitespace text"@)
                } else {
                    match expected_line(ls, p + 1, "NEW:"@) {
                        Err(e) => Err(e),
                        Ok(_) => match block_until(ls, p + 2, "END_NEW"@) {
                            Err(e) => Err(e),
                            Ok((new, q)) => Ok(((old, new), q + 1)),
                        },
                    }
                },
            },
        }
    }
}

fn parse_literal_blocks(lines: &Vec<String>, i: usize, start: usize, end: usize) -> (r: Result<
    ((Vec<String>, Vec<String>), usize),
    String,
>)
    requires
        i <= lines.len(),
    ensures
        text::result_at(r) == literal_blocks(lines.deep_view(), i as int, start, end),
        r matches Ok(p) ==> i < p.1 <= lines.len(),
{
    let ghost ls = lines.deep_view();
    let mut peek: usize = i;
    while peek < lines.len() && blank(&lines[peek])
        invariant
            i <= peek <= lines.len(),
            ls == lines.deep_view(),
            nonblank_from(ls, i as int) == nonblank_from(ls, peek as int),
        decreases lines.len() - peek,
    {
        peek += 1;
    }
    if peek < lines.len() && same_text(&lines[peek], "NEW:") {
        return Err(
            "LITERAL_REPLACE now requires an OLD: block — copy the exact current text of L".to_owned().concat(
            &dec_text(start)).concat("-L").concat(&dec_text(end)).concat(
                " into OLD:, then put the replacement in NEW:. If the region is too large to echo verbatim, use SMART_EDIT instead (its execution phase will see the region content).",
            ),
        );
    }
    match expect_line(lines, i, "OLD:") {
        Err(e) => {
            return Err(e);
        },
        Ok(_) => {},
    }
    let (old, p) = match collect_until(lines, i + 1, "END_OLD") {
        Err(e) => {
            return Err(e);
        },
        Ok(b) => b,
    };
    if old.len() == 0 {
        return Err("literal OLD block must not be empty".to_owned());
    }
    if block_blank(&old) {
        return Err("literal OLD block must contain non-whitespace text".to_owned());
    }
    match expect_line(lines, p + 1, "NEW:") {
        Err(e) => {
            return Err(e);
        },
        Ok(_) => {},
    }
    match collect_until(lines, p + 2, "END_NEW") {
        Err(e) => Err(e),
        Ok((new, q)) => Ok(((old, new), q + 1)),
    }
}

/// The literal replacement whose `SCOPE` line is due at `i`, and the index
/// behind it.
pub open spec fn literal_at(ls: Seq<Seq<char>>, i: int) -> Result<(StepView, int), Seq<char>> {
    if i >= ls.len() {
        Err("missing SCOPE line for literal replace"@)
    } else {
        match text::strip_prefix(ls[i], "SCOPE "@) {
            None => Err("expected SCOPE line but found '"@ + ls[i] + "'"@),
            Some(rest) => match two_line_numbers(rest, ls[i], "scope"@) {
                Err(e) => Err(e),
                Ok((start, end)) => if i + 1 >= ls.len() {
                    Err("missing ALL line for literal replace"@)
                } else {
                    match all_flag(ls[i + 1]) {
                        Err(e) => Err(e),
                        Ok(all) => match literal_blocks(ls, i + 2, start, end) {
                            Err(e) => Err(e),
                            Ok(((old, new), next)) => Ok(
                                (
                                    StepView::LiteralReplace {
                                        scope_start: start,
                                        scope_end: end,
                                        all,
                                        old,
                                        new,
                                    },
                                    next,
                                ),
                            ),
                        },
                    }
                },
            },
        }
    }
}

fn parse_literal_at(lines: &Vec<String>, i: usize) -> (r: Result<(EditPlanStep, usize), String>)
    ensures
        text::result_at(r) == literal_at(lines.deep_view(), i as int),
        r matches Ok(p) ==> i < p.1 <= lines.len(),
{
    let ghost ls = lines.deep_view();
    if i >= lines.len() {
        return Err("missing SCOPE line for literal replace".to_owned());
    }
    let scope_line = &lines[i];
    let rest = match without_prefix(scope_line, "SCOPE ") {
        None => {
            return Err("expected SCOPE line but found '".to_owned().concat(scope_line).concat("'"));
        },
        Some(t) => t,
    };
    let (scope_start, scope_end) = match parse_two_line_numbers(&rest, scope_line, "scope") {
        Err(e) => {
            return Err(e);
        },
        Ok(p) => p,
    };
    if i + 1 >= lines.len() {
        return Err("missing ALL line for literal replace".to_owned());
    }
    let all = match parse_all_flag(&lines[i + 1]) {
        Err(e) => {
            return Err(e);
        },
        Ok(b) => b,
    };
    match parse_literal_blocks(lines, i + 2, scope_start, scope_end) {
        Err(e) => Err(e),
        Ok(((old, new), next)) => Ok(
            (EditPlanStep::LiteralReplace { scope_start, scope_end, all, old, new }, next),
        ),
    }
}

/// The plan step whose first line is line `i`, and the index behind it.
pub open spec fn step_at(ls: Seq<Seq<char>>, i: int) -> Result<(StepView, int), Seq<char>> {
    let line = ls[i];
    if line == "SMART_EDIT"@ || text::starts_with(line, "REGION "@) {
        match region_at(
            ls,
            if line == "SMART_EDIT"@ {
                i + 1
            } else {
                i
            },
        ) {
            Err(e) => Err(e),
            Ok((region, next)) => Ok((StepView::SmartEdit(region), next)),
        }
    } else if line == "LITERAL_REPLACE"@ {
        literal_at(ls, i + 1)
    } else {
        Err("unexpected text in edit plan: "@ + line)
    }
}

fn parse_step_at(lines: &Vec<String>, i: usize) -> (r: Result<(EditPlanStep, usize), String>)
    requires
        i < lines.len(),
    ensures
        text::result_at(r) == step_at(lines.deep_view(), i as int),
        r matches Ok(p) ==> i < p.1 <= lines.len(),
{
    let ghost ls = lines.deep_view();
    let line = &lines[i];
    if same_text(line, "SMART_EDIT") {
        match parse_region_at(lines, i + 1) {
            Err(e) => Err(e),
            Ok((region, next)) => Ok((EditPlanStep::SmartEdit(region), next)),
        }
    } else if has_prefix(line, "REGION ") {
        match parse_region_at(lines, i) {
            Err(e) => Err(e),
            Ok((region, next)) => Ok((EditPlanStep::SmartEdit(region), next)),
        }
    } else if same_text(line, "LITERAL_REPLACE") {
        parse_literal_at(lines, i + 1)
    } else {
        Err("unexpected text in edit plan: ".to_owned().concat(line))
    }
}

/// Whether a line of a plan is passed over: a blank line, or a stray
/// `NO_CHANGES` or `END`.
pub open spec fn is_plan_filler(line: Seq<char>) -> bool {
    let t = text::trim(line);
    t.len() == 0 || t == "NO_CHANGES"@ || t == "END"@
}

/// The steps of a plan from line `i` on; the first malformed step decides the
/// error.
pub open spec fn plan_from(ls: Seq<Seq<char>>, i: int) -> Result<Seq<StepView>, Seq<char>>
    decreases ls.len() - i,
    via plan_from_decreases
{
    if i < 0 || i >= ls.len() {
        Ok(Seq::empty())
    } else if is_plan_filler(ls[i]) {
        plan_from(ls, i + 1)
    } else {
        match step_at(ls, i) {
            Err(e) => Err(e),
            Ok((step, next)) => after_items(seq![step], plan_from(ls, next)),
        }
    }
}

#[via_fn]
proof fn plan_from_decreases(ls: Seq<Seq<char>>, i: int) {
    if 0 <= i < ls.len() {
        lemma_step_progress(ls, i);
    }
}

/// A step ends behind its first line.
pub proof fn lemma_step_progress(ls: Seq<Seq<char>>, i: int)
    requires
        0 <= i < ls.len(),
    ensures
        step_at(ls, i) matches Ok((step, next)) ==> i < next <= ls.len(),
{
    if i + 1 < ls.len() {
        let scope = ls[i + 1];
        match text::strip_prefix(scope, "SCOPE "@) {
            Some(rest) => match two_line_numbers(rest, scope, "scope"@) {
                Ok((start, end)) => lemma_blocks_progress(ls, i + 3, start, end),
                Err(_) => {},
            },
            None => {},
        }
    }
}

proof fn lemma_blocks_progress(ls: Seq<Seq<char>>, i: int, start: usize, end: usize)
    requires
        0 <= i,
    ensures
        literal_blocks(ls, i, start, end) matches Ok((blocks, next)) ==> i < next <= ls.len(),
{
    if i + 1 <= ls.len() {
        lemma_line_from(ls, "END_OLD"@, i + 1);
        let p = line_from(ls, "END_OLD"@, i + 1);
        if p + 2 <= ls.len() {
            lemma_line_from(ls, "END_NEW"@, p + 2);
        }
    }
}

/// The items `first`, followed by those of `rest`.
pub open spec fn after_items<T>(first: Seq<T>, rest: Result<Seq<T>, Seq<char>>) -> Result<
    Seq<T>,
    Seq<char>,
> {
    match rest {
        Ok(items) => Ok(first + items),
        Err(e) => Err(e),
    }
}

/// The steps of the plan that `text` writes. A plan holds at most
/// `MAX_PREPLAN_STEPS` steps; a blank text holds none.
pub open spec fn plan_of(text: Seq<char>) -> Result<Seq<StepView>, Seq<char>> {
    if text::is_blank(text) {
        Ok(Seq::empty())
    } else {
        match plan_from(text::lines(unfenced(text)), 0) {
            Err(e) => Err(e),
            Ok(steps) => if steps.len() > MAX_PREPLAN_STEPS {
                Err(
                    "edit plan returned "@ + number::dec(steps.len()) + " steps, maximum is "@
                        + number::dec(MAX_PREPLAN_STEPS as nat),
                )
            } else {
                Ok(steps)
            },
        }
    }
}

/// Reads an edit plan.
pub fn parse_edit_plan(text: &str) -> (r: Result<Vec<EditPlanStep>, String>)
    ensures
        text::result_view(r) == plan_of(text@),
{
    let mut steps: Vec<EditPlanStep> = Vec::new();
    if blank(text) {
        proof {
            assert(steps.deep_view() =~= Seq::<StepView>::empty());
        }
        return Ok(steps);
    }
    let lines = split_lines(&strip_code_fences(text));
    let ghost ls = lines.deep_view();
    let mut i: usize = 0;
    proof {
        assert(steps.deep_view() =~= Seq::<StepView>::empty());
        assert(plan_from(ls, 0) == after_items(steps.deep_view(), plan_from(ls, 0))) by {
            match plan_from(ls, 0) {
                Ok(items) => {
                    assert(Seq::<StepView>::empty() + items =~= items);
                },
                Err(e) => {},
            }
        }
    }
    while i < lines.len()
        invariant
            i <= lines.len(),
            ls == lines.deep_view(),
            !text::is_blank(text@),
            ls == text::lines(unfenced(text@)),
            plan_from(ls, 0) == after_items(steps.deep_view(), plan_from(ls, i as int)),
        decreases lines.len() - i,
    {
        let t = trimmed(&lines[i]);
        if t.as_str().is_empty() || same_text(&t, "NO_CHANGES") || same_text(&t, "END") {
            i += 1;
            continue;
        }
        let ghost before = steps.deep_view();
        match parse_step_at(&lines, i) {
            Err(e) => {
                return Err(e);
            },
            Ok((step, next)) => {
                proof {
                    let rest = plan_from(ls, next as int);
                    match rest {
                        Ok(items) => {
                            assert(before + (seq![step.deep_view()] + items) =~= before.push(
                                step.deep_view(),
                            ) + items);
                        },
                        Err(e) => {},
                    }
                }
                steps.push(step);
                proof {
                    assert(steps.deep_view() =~= before.push(step.deep_view()));
                }
                i = next;
            },
        }
    }
    proof {
        assert(steps.deep_view() + Seq::<StepView>::empty() =~= steps.deep_view());
    }
    if steps.len() > MAX_PREPLAN_STEPS {
        return Err(
            "edit plan returned ".to_owned().concat(&dec_text(steps.len())).concat(
                " steps, maximum is ",
            ).concat(&dec_text(MAX_PREPLAN_STEPS)),
        );
    }
    Ok(steps)
}

/// An insertion whose line number `rest` writes and whose content starts
/// behind line `i`, and the index behind it.
pub open spec fn insert_at(ls: Seq<Seq<char>>, i: int, rest: Seq<char>) -> Result<
    ((usize, Seq<Seq<char>>), int),
    Seq<char>,
> {
    match line_number(rest) {
        Err(e) => Err(e),
        Ok(line) => match expected_line(ls, i + 1, "CONTENT:"@) {
            Err(e) => Err(e),
            Ok(_) => match block_until(ls, i + 2, "END"@) {
                Err(e) => Err(e),
                Ok((content, e)) => Ok(((line, content), e + 1)),
            },
        },
    }
}

fn parse_insert_at(lines: &Vec<String>, i: usize, rest: &str) -> (r: Result<
    ((usize, Vec<String>), usize),
    String,
>)
    requires
        i < lines.len(),
    ensures
        text::result_at(r) == insert_at(lines.deep_view(), i as int, rest@),
        r matches Ok(p) ==> i < p.1 <= lines.len(),
{
    let line = match parse_line_number(rest) {
        Err(e) => {
            return Err(e);
        },
        Ok(n) => n,
    };
    match expect_line(lines, i + 1, "CONTENT:") {
        Err(e) => {
            return Err(e);
        },
        Ok(_) => {},
    }
    match collect_until(lines, i + 2, "END") {
        Err(e) => Err(e),
        Ok((content, e)) => Ok(((line, content), e + 1)),
    }
}

/// The anchored block whose line number `rest` writes and whose `OLD:` line is
/// due behind line `i`, and the index behind it.
pub open spec fn old_at(ls: Seq<Seq<char>>, i: int, rest: Seq<char>) -> Result<
    ((usize, Seq<Seq<char>>), int),
    Seq<char>,
> {
    match line_number(rest) {
        Err(e) => Err(e),
        Ok(line) => match expected_line(ls, i + 1, "OLD:"@) {
            Err(e) => Err(e),
            Ok(_) => match block_until(ls, i + 2, "END_OLD"@) {
                Err(e) => Err(e),
                Ok((old, e)) => Ok(((line, old), e + 1)),
            },
        },
    }
}

fn parse_old_at(lines: &Vec<String>, i: usize, rest: &str) -> (r: Result<
    ((usize, Vec<String>), usize),
    String,
>)
    requires
        i < lines.len(),
    ensures
        text::result_at(r) == old_at(lines.deep_view(), i as int, rest@),
        r matches Ok(p) ==> i < p.1 <= lines.len(),
{
    let line = match parse_line_number(rest) {
        Err(e) => {
            return Err(e);
        },
        Ok(n) => n,
    };
    match expect_line(lines, i + 1, "OLD:") {
        Err(e) => {
            return Err(e);
        },
        Ok(_) => {},
    }
    match collect_until(lines, i + 2, "END_OLD") {
        Err(e) => Err(e),
        Ok((old, e)) => Ok(((line, old), e + 1)),
    }
}

/// The patch operation whose first line is line `i`, and the index behind it.
pub open spec fn op_at(ls: Seq<Seq<char>>, i: int) -> Result<(PatchOpView, int), Seq<char>> {
    let line = ls[i];
    if text::starts_with(line, "INSERT_BEFORE "@) {
        match insert_at(ls, i, text::strip_prefix(line, "INSERT_BEFORE "@)->0) {
            Err(e) => Err(e),
            Ok(((line, content), next)) => Ok((PatchOpView::InsertBefore { line, content }, next)),
        }
    } else if text::starts_with(line, "INSERT_AFTER "@) {
        match insert_at(ls, i, text::strip_prefix(line, "INSERT_AFTER "@)->0) {
            Err(e) => Err(e),
            Ok(((line, content), next)) => Ok((PatchOpView::InsertAfter { line, content }, next)),
        }
    } else if text::starts_with(line, "REPLACE_AT "@) {
        match old_at(ls, i, text::strip_prefix(line, "REPLACE_AT "@)->0) {
            Err(e) => Err(e),
            Ok(((start, old), p)) => match expected_line(ls, p, "NEW:"@) {
                Err(e) => Err(e),
                Ok(_) => match block_until(ls, p + 1, "END_NEW"@) {
                    Err(e) => Err(e),
                    Ok((new, q)) => Ok((PatchOpView::ReplaceAt { start, old, new }, q + 1)),
                },
            },
        }
    } else if text::starts_with(line, "DELETE_AT "@) {
        match old_at(ls, i, text::strip_prefix(line, "DELETE_AT "@)->0) {
            Err(e) => Err(e),
            Ok(((start, old), next)) => Ok((PatchOpView::DeleteAt { start, old }, next)),
        }
    } else {
        Err("unexpected text in patch: "@ + line)
    }
}

fn parse_op_at(lines: &Vec<String>, i: usize) -> (r: Result<(PatchOp, usize), String>)
    requires
        i < lines.len(),
    ensures
        text::result_at(r) == op_at(lines.deep_view(), i as int),
        r matches Ok(p) ==> i < p.1 <= lines.len(),
{
    let ghost ls = lines.deep_view();
    let line = &lines[i];
    if let Some(rest) = without_prefix(line, "INSERT_BEFORE ") {
        return match parse_insert_at(lines, i, &rest) {
            Err(e) => Err(e),
            Ok(((line, content), next)) => Ok((PatchOp::InsertBefore { line, content }, next)),
        };
    }
    if let Some(rest) = without_prefix(line, "INSERT_AFTER ") {
        return match parse_insert_at(lines, i, &rest) {
            Err(e) => Err(e),
            Ok(((line, content), next)) => Ok((PatchOp::InsertAfter { line, content }, next)),
        };
    }
    if let Some(rest) = without_prefix(line, "REPLACE_AT ") {
        let ((start, old), p) = match parse_old_at(lines, i, &rest) {
            Err(e) => {
                return Err(e);
            },
            Ok(b) => b,
        };
        match expect_line(lines, p, "NEW:") {
            Err(e) => {
                return Err(e);
            },
            Ok(_) => {},
        }
        return match collect_until(lines, p + 1, "END_NEW") {
            Err(e) => Err(e),
            Ok((new, q)) => Ok((PatchOp::ReplaceAt { start, old, new }, q + 1)),
        };
    }
    if let Some(rest) = without_prefix(line, "DELETE_AT ") {
        return match parse_old_at(lines, i, &rest) {
            Err(e) => Err(e),
            Ok(((start, old), next)) => Ok((PatchOp::DeleteAt { start, old }, next)),
        };
    }
    Err("unexpected text in patch: ".to_owned().concat(line))
}

/// An operation ends behind its first line.
pub proof fn lemma_op_progress(ls: Seq<Seq<char>>, i: int)
    requires
        0 <= i < ls.len(),
    ensures
        op_at(ls, i) matches Ok((op, next)) ==> i < next <= ls.len(),
{
    if i + 2 <= ls.len() {
        lemma_line_from(ls, "END"@, i + 2);
        lemma_line_from(ls, "END_OLD"@, i + 2);
        let p = line_from(ls, "END_OLD"@, i + 2) + 1;
        if p + 1 <= ls.len() {
            lemma_line_from(ls, "END_NEW"@, p + 1);
        }
    }
}

/// The operations of a patch from line `i` on; the first malformed one decides
/// the error.
pub open spec fn patch_from(ls: Seq<Seq<char>>, i: int) -> Result<Seq<PatchOpView>, Seq<char>>
    decreases ls.len() - i,
    via patch_from_decreases
{
    if i < 0 || i >= ls.len() {
        Ok(Seq::empty())
    } else if text::is_blank(ls[i]) {
        patch_from(ls, i + 1)
    } else {
        match op_at(ls, i) {
            Err(e) => Err(e),
            Ok((op, next)) => after_items(seq![op], patch_from(ls, next)),
        }
    }
}

#[via_fn]
proof fn patch_from_decreases(ls: Seq<Seq<char>>, i: int) {
    if 0 <= i < ls.len() {
        lemma_op_progress(ls, i);
    }
}

/// The operations of the patch that `text` writes.
pub open spec fn patch_of(text: Seq<char>) -> Result<Seq<PatchOpView>, Seq<char>> {
    let body = unfenced(text);
    if text::trim(body) == "NO_CHANGES"@ {
        Ok(Seq::empty())
    } else if text::is_blank(body) {
        Err("empty patch"@)
    } else {
        patch_from(text::lines(body), 0)
    }
}

/// Reads a patch.
pub fn parse_patch(text: &str) -> (r: Result<Vec<PatchOp>, String>)
    ensures
        text::result_view(r) == patch_of(text@),
{
    let mut ops: Vec<PatchOp> = Vec::new();
    proof {
        assert(ops.deep_view() =~= Seq::<PatchOpView>::empty());
    }
    let body = strip_code_fences(text);
    if same_text(&trimmed(&body), "NO_CHANGES") {
        return Ok(ops);
    }
    if blank(&body) {
        return Err("empty patch".to_owned());
    }
    let lines = split_lines(&body);
    let ghost ls = lines.deep_view();
    let mut i: usize = 0;
    proof {
        assert(patch_from(ls, 0) == after_items(ops.deep_view(), patch_from(ls, 0))) by {
            match patch_from(ls, 0) {
                Ok(items) => {
                    assert(Seq::<PatchOpView>::empty() + items =~= items);
                },
                Err(e) => {},
            }
        }
    }
    while i < lines.len()
        invariant
            i <= lines.len(),
            ls == lines.deep_view(),
            patch_of(text@) == patch_from(ls, 0),
            patch_from(ls, 0) == after_items(ops.deep_view(), patch_from(ls, i as int)),
        decreases lines.len() - i,
    {
        if blank(&lines[i]) {
            i += 1;
            continue;
        }
        let ghost before = ops.deep_view();
        match parse_op_at(&lines, i) {
            Err(e) => {
                return Err(e);
            },
            Ok((op, next)) => {
                proof {
                    match patch_from(ls, next as int) {
                        Ok(items) => {
                            assert(before + (seq![op.deep_view()] + items) =~= before.push(
                                op.deep_view(),
                            ) + items);
                        },
                        Err(e) => {},
                    }
                }
                ops.push(op);
                proof {
                    assert(ops.deep_view() =~= before.push(op.deep_view()));
                }
                i = next;
            },
        }
    }
    proof {
        assert(ops.deep_view() + Seq::<PatchOpView>::empty() =~= ops.deep_view());
    }
    Ok(ops)
}

/// A plan step in the plan format.
pub open spec fn step_text(step: StepView) -> Seq<char> {
    match step {
        StepView::SmartEdit(region) => "SMART_EDIT\nREGION "@ + number::dec(region.start as nat)
            + " "@ + number::dec(region.end as nat) + "\nTASK: "@ + region.task + "\n\n"@,
        StepView::LiteralReplace { scope_start, scope_end, all, old, new } => {
            "LITERAL_REPLACE\nSCOPE "@ + number::dec(scope_start as nat) + " "@ + number::dec(
                scope_end as nat,
            ) + "\nALL "@ + (if all {
                "true"@
            } else {
                "false"@
            }) + "\nOLD:\n"@ + text::join(old, "\n"@) + "\nEND_OLD\nNEW:\n"@ + text::join(
                new,
                "\n"@,
            ) + "\nEND_NEW\n\n"@
        },
    }
}

/// Plan steps in the plan format, one behind the other.
pub open spec fn plan_text(steps: Seq<StepView>) -> Seq<char>
    decreases steps.len(),
{
    if steps.len() == 0 {
        Seq::empty()
    } else {
        plan_text(steps.drop_last()) + step_text(steps.last())
    }
}

/// Renders one plan step in the plan format.
pub fn format_step(step: &EditPlanStep) -> (r: String)
    ensures
        r@ == step_text(step.deep_view()),
{
    match step {
        EditPlanStep::SmartEdit(region) => "SMART_EDIT\nREGION ".to_owned().concat(
            &dec_text(region.start),
        ).concat(" ").concat(&dec_text(region.end)).concat("\nTASK: ").concat(&region.task).concat(
            "\n\n",
        ),
        EditPlanStep::LiteralReplace { scope_start, scope_end, all, old, new } => {
            let flag = if *all {
                "true"
            } else {
                "false"
            };
            "LITERAL_REPLACE\nSCOPE ".to_owned().concat(&dec_text(*scope_start)).concat(" ").concat(
                &dec_text(*scope_end),
            ).concat("\nALL ").concat(flag).concat("\nOLD:\n").concat(&joined(old, "\n")).concat(
                "\nEND_OLD\nNEW:\n",
            ).concat(&joined(new, "\n")).concat("\nEND_NEW\n\n")
        },
    }
}

/// Renders plan steps in the plan format.
pub fn format_edit_plan_steps(steps: &Vec<EditPlanStep>) -> (r: String)
    ensures
        r@ == plan_text(steps.deep_view()),
{
    let mut out = String::new();
    let mut i: usize = 0;
    while i < steps.len()
        invariant
            i <= steps.len(),
            out@ == plan_text(steps.deep_view().take(i as int)),
        decreases steps.len() - i,
    {
        out.append(&format_step(&steps[i]));
        i += 1;
        proof {
            assert(steps.deep_view().take(i as int).drop_last() =~= steps.deep_view().take(i - 1));
        }
    }
    proof {
        assert(steps.deep_view().take(i as int) =~= steps.deep_view());
    }
    out
}

/// Renders plan steps for a log entry under `label`.
pub fn format_preplan_log(label: &str, steps: &Vec<EditPlanStep>) -> (r: String)
    ensures
        r@ == "Raw "@ + label@ + " ("@ + number::dec(steps@.len()) + " step(s), parsed):\n"@
            + truncated(plan_text(steps.deep_view()), MAX_PREPLAN_LOG_CHARS as nat) + "\n"@,
{
    let plan = truncate_multiline(&format_edit_plan_steps(steps), MAX_PREPLAN_LOG_CHARS);
    "Raw ".to_owned().concat(label).concat(" (").concat(&dec_text(steps.len())).concat(
        " step(s), parsed):\n",
    ).concat(&plan).concat("\n")
}

/// A reported reason is never longer than the limit and its ellipsis.
pub proof fn failed_reason_is_short(text: Seq<char>)
    ensures
        failed_reason(text) matches Some(r) ==> r.len() <= MAX_FAILED_REASON_CHARS + 1,
{
    reveal_strlit("…");
}

/// A text that opens without a code fence is not touched when fences are
/// stripped.
pub proof fn unfenced_text_stays(text: Seq<char>)
    requires
        !text::starts_with(text::trim_start(text), "```"@),
    ensures
        unfenced(text) == text,
{
}

proof fn lemma_block(ls: Seq<Seq<char>>, start: int, block: Seq<Seq<char>>, sentinel: Seq<char>)
    requires
        0 <= start,
        start + block.len() < ls.len(),
        ls.subrange(start, start + block.len()) == block,
        ls[start + block.len()] == sentinel,
        !block.contains(sentinel),
    ensures
        block_until(ls, start, sentinel) == Ok::<(Seq<Seq<char>>, int), Seq<char>>(
            (block, start + block.len()),
        ),
{
    lemma_line_from(ls, sentinel, start);
    let e = line_from(ls, sentinel, start);
    let n = start + block.len();
    if e < n {
        assert(ls.subrange(start, n)[e - start] == ls[e]);
        assert(block.contains(block[e - start]));
    }
    if n < e {
        assert(ls[n] != sentinel);
    }
}

/// A line number is read as it is written, white space around it aside; 0 is none.
pub proof fn line_numbers_are_read(n: usize)
    ensures
        n > 0 ==> line_number(number::dec(n as nat)) == Ok::<usize, Seq<char>>(n),
        n > 0 ==> line_number(" "@ + number::dec(n as nat)) == Ok::<usize, Seq<char>>(n),
        line_number(number::dec(0)) is Err,
{
    let d = number::dec(n as nat);
    let z = number::dec(0);
    number::number_reads_back(n);
    number::number_reads_back(0);
    number::lemma_dec(n as nat);
    number::lemma_dec(0);
    assert(number::is_digit(d[0]) && number::is_digit(d[d.len() - 1]));
    assert(number::is_digit(z[0]) && number::is_digit(z[z.len() - 1]));
    text::trimmed_text_stays(d);
    text::trimmed_text_stays(z);
    reveal_strlit(" ");
    let s = " "@ + d;
    text::lemma_skip_space(s, 0);
    let a = text::skip_space(s, 0);
    assert(s[0] == ' ' && s[1] == d[0]);
    assert(a == 1) by {
        if a == 0 {
            assert(text::is_space(s[0]));
        }
        if a > 1 {
            assert(text::is_space(s[1]));
        }
    }
    text::lemma_back_space(s, a, s.len() as int);
    let b = text::back_space(s, a, s.len() as int);
    assert(s[s.len() - 1] == d[d.len() - 1]);
    assert(b == s.len()) by {
        if b < s.len() {
            assert(text::is_space(s[s.len() - 1]));
        }
    }
    assert(text::trim(s) =~= d);
}

proof fn lemma_op_names()
    ensures
        "INSERT_BEFORE "@.len() == 14 && "INSERT_BEFORE "@[7] == 'B' && "INSERT_BEFORE "@[0] == 'I',
        "INSERT_AFTER "@.len() == 13 && "INSERT_AFTER "@[7] == 'A' && "INSERT_AFTER "@[0] == 'I',
        "REPLACE_AT "@.len() == 11 && "REPLACE_AT "@[0] == 'R',
        "DELETE_AT "@.len() == 10 && "DELETE_AT "@[0] == 'D',
{
    reveal_strlit("INSERT_BEFORE ");
    reveal_strlit("INSERT_AFTER ");
    reveal_strlit("REPLACE_AT ");
    reveal_strlit("DELETE_AT ");
}

proof fn lemma_head(p: Seq<char>, rest: Seq<char>, q: Seq<char>, k: int)
    ensures
        text::starts_with(p + rest, p),
        text::strip_prefix(p + rest, p) == Some(rest),
        0 <= k < p.len() && k < q.len() && p[k] != q[k] ==> !text::starts_with(p + rest, q),
{
    let s = p + rest;
    assert(s.subrange(0, p.len() as int) =~= p);
    assert(s.subrange(p.len() as int, s.len() as int) =~= rest);
    if 0 <= k < p.len() && k < q.len() && p[k] != q[k] && text::starts_with(s, q) {
        assert(s.subrange(0, q.len() as int)[k] == s[k]);
    }
}

/// An insertion is read as it is written: before or after its line, with exactly the lines
/// between its mark and its end.
pub proof fn insertions_are_read(ls: Seq<Seq<char>>, i: int, line: usize, content: Seq<Seq<char>>)
    requires
        0 <= i,
        i + 2 + content.len() < ls.len(),
        line > 0,
        ls[i + 1] == "CONTENT:"@,
        ls.subrange(i + 2, i + 2 + content.len()) == content,
        !content.contains("END"@),
        ls[i + 2 + content.len()] == "END"@,
    ensures
        ls[i] == "INSERT_BEFORE "@ + number::dec(line as nat) ==> op_at(ls, i) == Ok::<
            (PatchOpView, int),
            Seq<char>,
        >((PatchOpView::InsertBefore { line, content }, i + 3 + content.len())),
        ls[i] == "INSERT_AFTER "@ + number::dec(line as nat) ==> op_at(ls, i) == Ok::<
            (PatchOpView, int),
            Seq<char>,
        >((PatchOpView::InsertAfter { line, content }, i + 3 + content.len())),
{
    let d = number::dec(line as nat);
    line_numbers_are_read(line);
    lemma_block(ls, i + 2, content, "END"@);
    lemma_op_names();
    lemma_head("INSERT_BEFORE "@, d, "INSERT_AFTER "@, 7);
    lemma_head("INSERT_AFTER "@, d, "INSERT_BEFORE "@, 7);
}

/// A replacement and a deletion are read as they are written: at their line, with exactly
/// the lines of their blocks, the old ones as old and the new ones as new.
pub proof fn replacements_are_read(
    ls: Seq<Seq<char>>,
    i: int,
    start: usize,
    old: Seq<Seq<char>>,
    new: Seq<Seq<char>>,
)
    requires
        0 <= i,
        i + 2 + old.len() < ls.len(),
        start > 0,
        ls[i + 1] == "OLD:"@,
        ls.subrange(i + 2, i + 2 + old.len()) == old,
        !old.contains("END_OLD"@),
        ls[i + 2 + old.len()] == "END_OLD"@,
    ensures
        ls[i] == "DELETE_AT "@ + number::dec(start as nat) ==> op_at(ls, i) == Ok::<
            (PatchOpView, int),
            Seq<char>,
        >((PatchOpView::DeleteAt { start, old }, i + 3 + old.len())),
        ({
            let p = i + 3 + old.len();
            &&& ls[i] == "REPLACE_AT "@ + number::dec(start as nat)
            &&& p + 1 + new.len() < ls.len()
            &&& ls[p] == "NEW:"@
            &&& ls.subrange(p + 1, p + 1 + new.len()) == new
            &&& !new.contains("END_NEW"@)
            &&& ls[p + 1 + new.len()] == "END_NEW"@
        }) ==> op_at(ls, i) == Ok::<(PatchOpView, int), Seq<char>>(
            (PatchOpView::ReplaceAt { start, old, new }, i + 5 + old.len() + new.len()),
        ),
{
    let d = number::dec(start as nat);
    let p = i + 3 + old.len();
    line_numbers_are_read(start);
    lemma_block(ls, i + 2, old, "END_OLD"@);
    lemma_op_names();
    lemma_head("DELETE_AT "@, d, "INSERT_BEFORE "@, 0);
    lemma_head("DELETE_AT "@, d, "INSERT_AFTER "@, 0);
    lemma_head("DELETE_AT "@, d, "REPLACE_AT "@, 0);
    lemma_head("REPLACE_AT "@, d, "INSERT_BEFORE "@, 0);
    lemma_head("REPLACE_AT "@, d, "INSERT_AFTER "@, 0);
    if p + 1 + new.len() < ls.len() && ls[p] == "NEW:"@ && ls.subrange(p + 1, p + 1 + new.len())
        == new && !new.contains("END_NEW"@) && ls[p + 1 + new.len()] == "END_NEW"@ {
        lemma_block(ls, p + 1, new, "END_NEW"@);
    }
}

/// The operations of a patch come in the order in which they are written: what stands at a
/// line comes before all that follows it, and blank lines do not count.
pub proof fn patches_are_read_in_order(ls: Seq<Seq<char>>, i: int)
    requires
        0 <= i < ls.len(),
    ensures
        text::is_blank(ls[i]) ==> patch_from(ls, i) == patch_from(ls, i + 1),
        !text::is_blank(ls[i]) ==> match op_at(ls, i) {
            Err(e) => patch_from(ls, i) == Err::<Seq<PatchOpView>, Seq<char>>(e),
            Ok((op, next)) => match patch_from(ls, next) {
                Err(e) => patch_from(ls, i) == Err::<Seq<PatchOpView>, Seq<char>>(e),
                Ok(more) => patch_from(ls, i) == Ok::<Seq<PatchOpView>, Seq<char>>(
                    seq![op] + more,
                ),
            },
        },
        patch_from(ls, ls.len() as int) == Ok::<Seq<PatchOpView>, Seq<char>>(Seq::empty()),
{
}

/// A patch without text is refused; one that says that nothing changes has no operation.
pub proof fn empty_patches_are_refused(text: Seq<char>)
    requires
        !text::starts_with(text::trim_start(text), "```"@),
    ensures
        text::is_blank(text) ==> patch_of(text) is Err && plan_of(text) == Ok::<
            Seq<StepView>,
            Seq<char>,
        >(Seq::empty()),
        text::trim(text) == "NO_CHANGES"@ ==> patch_of(text) == Ok::<Seq<PatchOpView>, Seq<char>>(
            Seq::empty(),
        ),
        is_complete_verdict(text) <==> (text::trim(text) == "COMPLETE"@ || text::trim(text)
            == "NO_CHANGES"@),
{
    unfenced_text_stays(text);
    text::lemma_trim_empty(text);
    reveal_strlit("NO_CHANGES");
    assert("NO_CHANGES"@.len() == 10);
}

proof fn lemma_plan_words()
    ensures
        "SMART_EDIT"@.len() == 10 && "SMART_EDIT"@[0] == 'S',
        "LITERAL_REPLACE"@.len() == 15 && "LITERAL_REPLACE"@[0] == 'L',
        "REGION "@.len() == 7 && "REGION "@[0] == 'R',
        "OLD:"@ != "NEW:"@,
        "OLD:"@.len() == 4 && "OLD:"@[0] == 'O',
        "true"@ != "false"@,
{
    reveal_strlit("SMART_EDIT");
    reveal_strlit("LITERAL_REPLACE");
    reveal_strlit("REGION ");
    reveal_strlit("OLD:");
    reveal_strlit("NEW:");
    reveal_strlit("true");
    reveal_strlit("false");
    assert("OLD:"@[0] != "NEW:"@[0]);
    assert("true"@.len() != "false"@.len());
}

/// A literal step is read as it is written: its scope, whether all places are meant, the
/// old lines as old and the new ones as new.
pub proof fn literal_steps_are_read(
    ls: Seq<Seq<char>>,
    i: int,
    range: Seq<char>,
    start: usize,
    end: usize,
    all: bool,
    old: Seq<Seq<char>>,
    new: Seq<Seq<char>>,
)
    requires
        0 <= i,
        i + 7 + old.len() + new.len() - 1 < ls.len(),
        ls[i] == "LITERAL_REPLACE"@,
        ls[i + 1] == "SCOPE "@ + range,
        two_line_numbers(range, ls[i + 1], "scope"@) == Ok::<(usize, usize), Seq<char>>(
            (start, end),
        ),
        ls[i + 2] == "ALL "@ + (if all {
            "true"@
        } else {
            "false"@
        }),
        ls[i + 3] == "OLD:"@,
        ls.subrange(i + 4, i + 4 + old.len()) == old,
        old.len() > 0,
        !all_blank(old),
        !old.contains("END_OLD"@),
        ls[i + 4 + old.len()] == "END_OLD"@,
        ls[i + 5 + old.len()] == "NEW:"@,
        ls.subrange(i + 6 + old.len(), i + 6 + old.len() + new.len()) == new,
        !new.contains("END_NEW"@),
        ls[i + 6 + old.len() + new.len()] == "END_NEW"@,
    ensures
        step_at(ls, i) == Ok::<(StepView, int), Seq<char>>(
            (
                StepView::LiteralReplace { scope_start: start, scope_end: end, all, old, new },
                i + 7 + old.len() + new.len(),
            ),
        ),
{
    let flag = if all {
        "true"@
    } else {
        "false"@
    };
    lemma_plan_words();
    lemma_head("SCOPE "@, range, "SCOPE "@, -1);
    lemma_head("ALL "@, flag, "ALL "@, -1);
    lemma_block(ls, i + 4, old, "END_OLD"@);
    lemma_block(ls, i + 6 + old.len(), new, "END_NEW"@);
    assert(!text::starts_with(ls[i], "REGION "@)) by {
        if text::starts_with(ls[i], "REGION "@) {
            assert(ls[i].subrange(0, 7)[0] == ls[i][0]);
        }
    }
    assert(text::trim("OLD:"@).len() > 0) by {
        text::lemma_trim_empty("OLD:"@);
        assert(!text::is_space("OLD:"@[0]));
    }
    assert(nonblank_from(ls, i + 3) == i + 3);
}

/// A step on a region is read as it is written: its lines and its task, white space around
/// the task aside.
pub proof fn region_steps_are_read(
    ls: Seq<Seq<char>>,
    i: int,
    range: Seq<char>,
    start: usize,
    end: usize,
    task: Seq<char>,
)
    requires
        0 <= i,
        i + 2 < ls.len(),
        ls[i] == "SMART_EDIT"@,
        ls[i + 1] == "REGION "@ + range,
        region_lines(text::trim(range), ls[i + 1]) == Ok::<(usize, usize), Seq<char>>((start, end)),
        ls[i + 2] == "TASK:"@ + task,
        text::trim(task).len() > 0,
    ensures
        step_at(ls, i) == Ok::<(StepView, int), Seq<char>>(
            (
                StepView::SmartEdit(EditRegionView { start, end, task: text::trim(task) }),
                i + 3,
            ),
        ),
{
    lemma_head("REGION "@, range, "REGION "@, -1);
    lemma_head("TASK:"@, task, "TASK:"@, -1);
}

/// The lines of a region are read as they are written: one line, or the first and the last
/// with a dash between them.
pub proof fn region_lines_are_read(a: usize, b: usize, header: Seq<char>)
    ensures
        region_lines(number::dec(a as nat) + "-"@ + number::dec(b as nat), header) == Ok::<
            (usize, usize),
            Seq<char>,
        >((a, b)),
        region_lines(number::dec(a as nat), header) == Ok::<(usize, usize), Seq<char>>((a, a)),
{
    reveal_strlit("-");
    let x = number::dec(a as nat);
    let y = number::dec(b as nat);
    let s = x + "-"@ + y;
    number::lemma_dec(a as nat);
    number::lemma_dec(b as nat);
    number::number_reads_back(a);
    number::number_reads_back(b);
    assert(number::is_digit(x[0]) && number::is_digit(x[x.len() - 1]));
    assert(number::is_digit(y[0]) && number::is_digit(y[y.len() - 1]));
    text::trimmed_text_stays(x);
    text::trimmed_text_stays(y);
    text::lemma_char_from(s, '-', 0);
    let e = text::char_from(s, '-', 0);
    assert(s[x.len() as int] == '-');
    if e < x.len() {
        assert(s[e] == x[e]);
        assert(number::is_digit(x[e]));
    }
    assert(s.subrange(0, x.len() as int) =~= x);
    assert(s.subrange(x.len() as int + 1, s.len() as int) =~= y);
    text::lemma_char_from(x, '-', 0);
    let f = text::char_from(x, '-', 0);
    if f < x.len() {
        assert(number::is_digit(x[f]));
    }
    assert(text::words(x) =~= seq![x]) by {
        assert(text::skip_space(x, 0) == 0);
        text::lemma_word_end(x, 0);
        let w = text::word_end(x, 0);
        if w < x.len() {
            assert(number::is_digit(x[w]));
        }
        assert(x.subrange(0, w) =~= x);
        assert(text::words_from(x, x.len() as int) =~= Seq::<Seq<char>>::empty());
    }
}

/// Code fences are taken off: what stands between the line of the opening fence and the
/// closing one is the text.
pub proof fn fences_are_taken_off(lang: Seq<char>, body: Seq<char>, tail: Seq<char>)
    requires
        !lang.contains('\n'),
        !tail.contains('`'),
    ensures
        unfenced("```"@ + lang + seq!['\n'] + body + "```"@ + tail) == body,
{
    reveal_strlit("```");
    let f = "```"@;
    let s = f + lang + seq!['\n'] + body + f + tail;
    assert(s[0] == '`');
    assert(text::skip_space(s, 0) == 0);
    assert(text::trim_start(s) =~= s);
    assert(s.subrange(0, 3) =~= f);
    let rest = s.subrange(3, s.len() as int);
    let all = body + f + tail;
    assert(rest =~= lang + seq!['\n'] + all);
    text::lemma_char_from(rest, '\n', 0);
    let nl = text::char_from(rest, '\n', 0);
    assert(rest[lang.len() as int] == '\n');
    if nl < lang.len() {
        assert(rest[nl] == lang[nl]);
        assert(lang.contains(lang[nl]));
    }
    let inner = rest.subrange(nl + 1, rest.len() as int);
    assert(inner =~= all);
    let n = all.len() as int;
    text::last_occurrence_is_last(all, f, n);
    let close = text::last_text(all, f, n);
    assert(all.subrange(body.len() as int, body.len() as int + 3) =~= f);
    assert(text::occurs_at(all, f, body.len() as int));
    assert(close == body.len()) by {
        if close > body.len() {
            let k = close + 2;
            assert(all.subrange(close, close + 3)[2] == all[k]);
            assert(all[k] == tail[k - body.len() - 3]);
            assert(tail.contains(tail[k - body.len() - 3]));
        }
    }
    assert(all.take(close) =~= body);
}

/// A reason for failure is what stands behind the keyword on its line, without white space
/// around it; at most two hundred characters of it are kept.
pub proof fn reasons_are_read(reason: Seq<char>)
    requires
        !reason.contains('\n'),
        reason.len() > 0,
    ensures
        failed_reason("FAILED:"@ + reason) == Some(
            if text::trim(reason).len() > 200 {
                text::trim(reason).take(200) + "…"@
            } else {
                text::trim(reason)
            },
        ),
        after_keyword("NEEDS_CLARIFICATION:"@ + reason, "NEEDS_CLARIFICATION"@) == Some(
            text::trim(reason),
        ),
{
    reveal_strlit("FAILED:");
    reveal_strlit("FAILED");
    reveal_strlit("NEEDS_CLARIFICATION:");
    reveal_strlit("NEEDS_CLARIFICATION");
    reveal_strlit("```");
    let s = "FAILED:"@ + reason;
    assert(s[0] == 'F');
    assert(text::trim_start(s) =~= s) by {
        assert(text::skip_space(s, 0) == 0);
    }
    assert(!text::starts_with(s, "```"@)) by {
        if text::starts_with(s, "```"@) {
            assert(s.subrange(0, 3)[0] == s[0]);
        }
    }
    unfenced_text_stays(s);
    assert(s.subrange(0, 6) =~= "FAILED"@);
    let rest = s.subrange(6, s.len() as int);
    assert(rest[0] == ':');
    assert(rest.subrange(1, rest.len() as int) =~= reason);
    let t = "NEEDS_CLARIFICATION:"@ + reason;
    assert(t[0] == 'N');
    assert(text::trim_start(t) =~= t) by {
        assert(text::skip_space(t, 0) == 0);
    }
    assert(t.subrange(0, 19) =~= "NEEDS_CLARIFICATION"@);
    let more = t.subrange(19, t.len() as int);
    assert(more[0] == ':');
    assert(more.subrange(1, more.len() as int) =~= reason);
    text::lines_end_at_newlines(reason, Seq::empty());
    text::first_line_is_a_line(reason);
}

/// A text that is too long is cut: what is left of it is its start, as long as allowed, and
/// its full length is told.
pub proof fn long_texts_are_cut(text: Seq<char>, max: nat)
    ensures
        text.len() <= max ==> truncated(text, max) == text,
        text.len() > max ==> text::starts_with(truncated(text, max), text.take(max as int))
            && text::has_text(truncated(text, max), "("@ + number::dec(text.len()) + " chars total"@),
{
    if text.len() > max {
        let t = truncated(text, max);
        assert(t.subrange(0, max as int) =~= text.take(max as int));
        reveal_strlit("\n...(");
        reveal_strlit("(");
        reveal_strlit(" chars total, truncated)\n");
        reveal_strlit(" chars total");
        let d = number::dec(text.len());
        let p = "("@ + d + " chars total"@;
        let k = max + 4;
        assert(t.subrange(k as int, (k + p.len()) as int) =~= p);
        assert(text::occurs_at(t, p, k as int));
    }
}

} // verus!
