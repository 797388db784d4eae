//! Inspection of a file before a plan is made: notes, searches and reads.
use vstd::prelude::*;

use super::parse;
use super::parse::parse_needs_clarification;
use crate::number;
use crate::number::{dec_text, parse_usize, push_padded_dec};
use crate::text;
use crate::text::{
    char_at_or_after, contains_text, from_chars, joined, same_text, split_lines, to_chars, trimmed,
    trimmed_end,
};
use crate::unicode;
use crate::unicode::{char_alphanumeric, to_ascii_lower};

verus! {

/// The most searches that are run for one plan.
pub const MAX_PREPLAN_SEARCHES: usize = 20;

/// The most reads that are run for a first plan.
pub const MAX_PREPLAN_READS_INITIAL: usize = 6;

/// The most reads that are run for a repaired plan.
pub const MAX_PREPLAN_READS_REPAIR: usize = 10;

/// The most hits that a search shows.
pub const MAX_SEARCH_HITS: usize = 8;

/// A look at the file that was asked for.
#[derive(Debug, PartialEq, Eq)]
pub enum InspectionCommand {
    /// Find the lines that hold a text.
    Search(String),
    /// Show the lines `start..=end`.
    Read { start: usize, end: usize },
}

/// An inspection command over texts.
pub enum CommandView {
    Search(Seq<char>),
    Read { start: usize, end: usize },
}

impl DeepView for InspectionCommand {
    type V = CommandView;

    open spec fn deep_view(&self) -> CommandView {
        match *self {
            InspectionCommand::Search(q) => CommandView::Search(q@),
            InspectionCommand::Read { start, end } => CommandView::Read { start, end },
        }
    }
}

impl Clone for InspectionCommand {
    fn clone(&self) -> (r: InspectionCommand)
        ensures
            r.deep_view() == self.deep_view(),
    {
        match self {
            InspectionCommand::Search(q) => InspectionCommand::Search(q.clone()),
            InspectionCommand::Read { start, end } => InspectionCommand::Read {
                start: *start,
                end: *end,
            },
        }
    }
}

/// What the model said of one window of the file.
#[derive(Debug)]
pub struct PreplanWindowResponse {
    pub notes: Vec<String>,
    pub commands: Vec<InspectionCommand>,
    /// The question, where the model asked one instead.
    pub clarification: Option<String>,
}

/// A window response over texts.
pub struct WindowView {
    pub notes: Seq<Seq<char>>,
    pub commands: Seq<CommandView>,
    pub clarification: Option<Seq<char>>,
}

impl DeepView for PreplanWindowResponse {
    type V = WindowView;

    open spec fn deep_view(&self) -> WindowView {
        WindowView {
            notes: self.notes.deep_view(),
            commands: self.commands.deep_view(),
            clarification: self.clarification.deep_view(),
        }
    }
}

/// Whether `s` begins with `p`, the case of ASCII letters aside.
pub open spec fn has_prefix_ci(s: Seq<char>, p: Seq<char>) -> bool {
    p.len() <= s.len() && forall|i: int|
        0 <= i < p.len() ==> unicode::ascii_lower(#[trigger] s[i]) == unicode::ascii_lower(p[i])
}

/// `s` without the prefix `p`, where it has it, the case of ASCII letters aside.
pub open spec fn strip_prefix_ci(s: Seq<char>, p: Seq<char>) -> Option<Seq<char>> {
    if has_prefix_ci(s, p) {
        Some(s.subrange(p.len() as int, s.len() as int))
    } else {
        None
    }
}

/// Whether `text` begins with `prefix`, the case of ASCII letters aside.
pub fn has_case_insensitive_prefix(text: &str, prefix: &str) -> (r: bool)
    ensures
        r == has_prefix_ci(text@, prefix@),
{
    let v = to_chars(text);
    let p = to_chars(prefix);
    if p.len() > v.len() {
        return false;
    }
    let mut i: usize = 0;
    while i < p.len()
        invariant
            i <= p@.len() <= v@.len(),
            v@ == text@,
            p@ == prefix@,
            forall|k: int|
                0 <= k < i ==> unicode::ascii_lower(#[trigger] v@[k]) == unicode::ascii_lower(p@[k]),
        decreases p.len() - i,
    {
        if to_ascii_lower(v[i]) != to_ascii_lower(p[i]) {
            return false;
        }
        i += 1;
    }
    true
}

/// `text` without `prefix`, where it begins with it, the case of ASCII letters
/// aside.
pub fn strip_case_insensitive_prefix(text: &str, prefix: &str) -> (r: Option<String>)
    ensures
        r.deep_view() == strip_prefix_ci(text@, prefix@),
{
    if has_case_insensitive_prefix(text, prefix) {
        let v = to_chars(text);
        let p = to_chars(prefix);
        Some(from_chars(&v, p.len(), v.len()))
    } else {
        None
    }
}

/// What one line of a window response says.
pub enum LineView {
    Clarification(Seq<char>),
    Note(Seq<char>),
    Command(CommandView),
    Nothing,
}

/// The range that a `READ:` command names: two numbers, at least 1 and in order.
pub open spec fn read_range(s: Seq<char>) -> LineView {
    let rest = text::trim(s);
    let dash = text::char_from(rest, '-', 0);
    if dash == rest.len() {
        LineView::Nothing
    } else {
        match (
            number::number(text::trim(rest.subrange(0, dash))),
            number::number(text::trim(rest.subrange(dash + 1, rest.len() as int))),
        ) {
            (Ok(start), Ok(end)) => if start > 0 && end >= start {
                LineView::Command(CommandView::Read { start, end })
            } else {
                LineView::Nothing
            },
            _ => LineView::Nothing,
        }
    }
}

/// A note, unless it is blank.
pub open spec fn note_of(s: Seq<char>) -> LineView {
    if text::trim(s).len() == 0 {
        LineView::Nothing
    } else {
        LineView::Note(text::trim(s))
    }
}

/// What a line of a window response says. Once a question was asked, a further
/// one is not looked for.
pub open spec fn line_meaning(line: Seq<char>, asked: bool) -> LineView {
    let t = text::trim(line);
    if t.len() == 0 {
        LineView::Nothing
    } else if !asked && parse::after_keyword(t, "NEEDS_CLARIFICATION"@) is Some {
        LineView::Clarification(parse::after_keyword(t, "NEEDS_CLARIFICATION"@)->0)
    } else if has_prefix_ci(t, "NOTE "@) {
        note_of(strip_prefix_ci(t, "NOTE "@)->0)
    } else if has_prefix_ci(t, "NOTE:"@) {
        note_of(strip_prefix_ci(t, "NOTE:"@)->0)
    } else if has_prefix_ci(t, "SEARCH:"@) {
        let query = text::trim(strip_prefix_ci(t, "SEARCH:"@)->0);
        if query.len() == 0 {
            LineView::Nothing
        } else {
            LineView::Command(CommandView::Search(query))
        }
    } else if has_prefix_ci(t, "READ:"@) {
        read_range(strip_prefix_ci(t, "READ:"@)->0)
    } else {
        LineView::Nothing
    }
}

/// What the first `n` lines of a window response say.
pub open spec fn window_response(ls: Seq<Seq<char>>, n: int) -> WindowView
    decreases n,
{
    if n <= 0 {
        WindowView { notes: Seq::empty(), commands: Seq::empty(), clarification: None }
    } else {
        let before = window_response(ls, n - 1);
        match line_meaning(ls[n - 1], before.clarification is Some) {
            LineView::Clarification(q) => WindowView { clarification: Some(q), ..before },
            LineView::Note(note) => WindowView { notes: before.notes.push(note), ..before },
            LineView::Command(c) => WindowView { commands: before.commands.push(c), ..before },
            LineView::Nothing => before,
        }
    }
}

/// What one line of a window response says.
#[derive(Debug)]
pub enum LineMeaning {
    Clarification(String),
    Note(String),
    Command(InspectionCommand),
    Nothing,
}

impl DeepView for LineMeaning {
    type V = LineView;

    open spec fn deep_view(&self) -> LineView {
        match *self {
            LineMeaning::Clarification(q) => LineView::Clarification(q@),
            LineMeaning::Note(n) => LineView::Note(n@),
            LineMeaning::Command(c) => LineView::Command(c.deep_view()),
            LineMeaning::Nothing => LineView::Nothing,
        }
    }
}

fn parse_read_range(s: &str) -> (r: LineMeaning)
    ensures
        r.deep_view() == read_range(s@),
{
    let v = to_chars(&trimmed(s));
    let dash = char_at_or_after(&v, '-', 0);
    if dash == v.len() {
        return LineMeaning::Nothing;
    }
    let a = parse_usize(&trimmed(&from_chars(&v, 0, dash)));
    let b = parse_usize(&trimmed(&from_chars(&v, dash + 1, v.len())));
    match (a, b) {
        (Ok(start), Ok(end)) => if start > 0 && end >= start {
            LineMeaning::Command(InspectionCommand::Read { start, end })
        } else {
            LineMeaning::Nothing
        },
        _ => LineMeaning::Nothing,
    }
}

fn parse_note(s: &str) -> (r: LineMeaning)
    ensures
        r.deep_view() == note_of(s@),
{
    let note = trimmed(s);
    if note.as_str().is_empty() {
        LineMeaning::Nothing
    } else {
        LineMeaning::Note(note)
    }
}

fn parse_window_line(line: &str, asked: bool) -> (r: LineMeaning)
    ensures
        r.deep_view() == line_meaning(line@, asked),
{
    let t = trimmed(line);
    if t.as_str().is_empty() {
        return LineMeaning::Nothing;
    }
    if !asked {
        if let Some(q) = parse_needs_clarification(&t) {
            return LineMeaning::Clarification(q);
        }
    }
    if let Some(rest) = strip_case_insensitive_prefix(&t, "NOTE ") {
        return parse_note(&rest);
    }
    if let Some(rest) = strip_case_insensitive_prefix(&t, "NOTE:") {
        return parse_note(&rest);
    }
    if let Some(rest) = strip_case_insensitive_prefix(&t, "SEARCH:") {
        let query = trimmed(&rest);
        if query.as_str().is_empty() {
            return LineMeaning::Nothing;
        }
        return LineMeaning::Command(InspectionCommand::Search(query));
    }
    if let Some(rest) = strip_case_insensitive_prefix(&t, "READ:") {
        return parse_read_range(&rest);
    }
    LineMeaning::Nothing
}

/// Reads what the model said of one window of the file. Lines that say nothing
/// it knows are passed over.
pub fn parse_preplan_window_response(text: &str) -> (r: PreplanWindowResponse)
    ensures
        r.deep_view() == window_response(text::lines(text@), text::lines(text@).len() as int),
{
    let lines = split_lines(text);
    let ghost ls = lines.deep_view();
    let mut notes: Vec<String> = Vec::new();
    let mut commands: Vec<InspectionCommand> = Vec::new();
    let mut clarification: Option<String> = None;
    let mut i: usize = 0;
    proof {
        assert(notes.deep_view() =~= Seq::<Seq<char>>::empty());
        assert(commands.deep_view() =~= Seq::<CommandView>::empty());
        assert(lines@.len() == ls.len());
    }
    while i < lines.len()
        invariant
            i <= lines@.len() == ls.len(),
            ls == lines.deep_view(),
            window_response(ls, i as int) == (WindowView {
                notes: notes.deep_view(),
                commands: commands.deep_view(),
                clarification: clarification.deep_view(),
            }),
        decreases lines.len() - i,
    {
        let ghost n0 = notes.deep_view();
        let ghost c0 = commands.deep_view();
        match parse_window_line(&lines[i], clarification.is_some()) {
            LineMeaning::Clarification(q) => {
                clarification = Some(q);
            },
            LineMeaning::Note(note) => {
                let ghost nv = note@;
                notes.push(note);
                proof {
                    assert(notes.deep_view() =~= n0.push(nv));
                }
            },
            LineMeaning::Command(c) => {
                let ghost cv = c.deep_view();
                commands.push(c);
                proof {
                    assert(commands.deep_view() =~= c0.push(cv));
                }
            },
            LineMeaning::Nothing => {},
        }
        i += 1;
    }
    PreplanWindowResponse { notes, commands, clarification }
}

/// Whether `c` is an `L`, in either case.
pub open spec fn is_ell(c: char) -> bool {
    c == 'L' || c == 'l'
}

/// Whether the word `line` and a space stand at `i`, the case aside.
pub open spec fn line_word_at(s: Seq<char>, i: int) -> bool {
    &&& i + 4 < s.len()
    &&& is_ell(s[i])
    &&& (s[i + 1] == 'i' || s[i + 1] == 'I')
    &&& (s[i + 2] == 'n' || s[i + 2] == 'N')
    &&& (s[i + 3] == 'e' || s[i + 3] == 'E')
    &&& s[i + 4] == ' '
}

/// Where the digits of a line reference that starts at `i` are due: behind
/// `line `, behind `L`, or at `i` itself.
pub open spec fn ref_digits(s: Seq<char>, i: int) -> int {
    if line_word_at(s, i) {
        i + 5
    } else if is_ell(s[i]) {
        i + 1
    } else {
        i
    }
}

/// Whether a line reference starts at `i`: digits follow, and no word runs into
/// it.
pub open spec fn starts_ref(s: Seq<char>, i: int) -> bool {
    let d = ref_digits(s, i);
    &&& d < s.len()
    &&& number::is_digit(s[d])
    &&& !(i > 0 && (unicode::alphanumeric(s[i - 1]) || s[i - 1] == '_'))
}

/// The position `i`, or the next one where a space stands at `i`.
pub open spec fn past_space(s: Seq<char>, i: int) -> int {
    if i < s.len() && s[i] == ' ' {
        i + 1
    } else {
        i
    }
}

/// Two lines before and behind a line.
pub open spec fn around(line: usize) -> (usize, usize) {
    (
        if line > 3 {
            (line - 2) as usize
        } else {
            1
        },
        if line <= usize::MAX - 2 {
            (line + 2) as usize
        } else {
            usize::MAX
        },
    )
}

/// The lines named by the reference that starts at `i`, and where the search for
/// the next one goes on. A reference to line 0, or to one that is no number, names
/// none; a dash without an end is no range.
pub open spec fn ref_at(s: Seq<char>, i: int) -> (Option<(usize, usize)>, int) {
    let d = ref_digits(s, i);
    let e = number::digit_run(s, d);
    match number::number(s.subrange(d, e)) {
        Err(_) => (None, e),
        Ok(start) => if start == 0 {
            (None, e)
        } else {
            let dash = past_space(s, e);
            if dash < s.len() && s[dash] == '-' {
                let from = past_space(s, dash + 1);
                let to = number::digit_run(s, from);
                match number::number(s.subrange(from, to)) {
                    Ok(end) => if to > from && end >= start {
                        (Some((start, end)), to)
                    } else {
                        (Some(around(start)), e)
                    },
                    Err(_) => (Some(around(start)), e),
                }
            } else {
                (Some(around(start)), dash)
            }
        },
    }
}

/// The ranges of lines named from position `i` on.
pub open spec fn refs_from(s: Seq<char>, i: int) -> Seq<(usize, usize)>
    decreases s.len() - i,
    via refs_from_decreases
{
    if i < 0 || i >= s.len() {
        Seq::empty()
    } else if !starts_ref(s, i) {
        refs_from(s, i + 1)
    } else {
        match ref_at(s, i) {
            (None, next) => refs_from(s, next),
            (Some(range), next) => seq![range] + refs_from(s, next),
        }
    }
}

#[via_fn]
proof fn refs_from_decreases(s: Seq<char>, i: int) {
    if 0 <= i < s.len() && starts_ref(s, i) {
        lemma_ref_progress(s, i);
    }
}

proof fn lemma_ref_progress(s: Seq<char>, i: int)
    requires
        0 <= i < s.len(),
        starts_ref(s, i),
    ensures
        i < ref_at(s, i).1 <= s.len(),
        ref_digits(s, i) < number::digit_run(s, ref_digits(s, i)) <= s.len(),
{
    let d = ref_digits(s, i);
    number::lemma_digit_run(s, d + 1);
    let e = number::digit_run(s, d);
    assert(e == number::digit_run(s, d + 1));
    let dash = past_space(s, e);
    if dash < s.len() && s[dash] == '-' {
        number::lemma_digit_run(s, past_space(s, dash + 1));
    }
}

fn digits_end(v: &Vec<char>, from: usize) -> (r: usize)
    requires
        from <= v@.len(),
    ensures
        r == number::digit_run(v@, from as int),
        from <= r <= v@.len(),
{
    let mut i: usize = from;
    while i < v.len() && '0' <= v[i] && v[i] <= '9'
        invariant
            from <= i <= v@.len(),
            number::digit_run(v@, from as int) == number::digit_run(v@, i as int),
        decreases v.len() - i,
    {
        i += 1;
    }
    i
}

fn skip_one_space(v: &Vec<char>, i: usize) -> (r: usize)
    requires
        i <= v@.len(),
    ensures
        r == past_space(v@, i as int),
        i <= r <= v@.len(),
{
    if i < v.len() && v[i] == ' ' {
        i + 1
    } else {
        i
    }
}

fn lines_around(line: usize) -> (r: (usize, usize))
    ensures
        r == around(line),
{
    let first: usize = if line > 3 {
        line - 2
    } else {
        1
    };
    let last: usize = if line <= usize::MAX - 2 {
        line + 2
    } else {
        usize::MAX
    };
    (first, last)
}

fn find_ref_digits(v: &Vec<char>, i: usize) -> (r: usize)
    requires
        i < v@.len(),
    ensures
        r == ref_digits(v@, i as int),
        i <= r <= v@.len(),
{
    let n: usize = v.len();
    if v[i] == 'L' || v[i] == 'l' {
        if n - i > 4 && (v[i + 1] == 'i' || v[i + 1] == 'I') && (v[i + 2] == 'n' || v[i + 2] == 'N')
            && (v[i + 3] == 'e' || v[i + 3] == 'E') && v[i + 4] == ' ' {
            return i + 5;
        }
        return i + 1;
    }
    i
}

fn read_ref(v: &Vec<char>, i: usize) -> (r: (Option<(usize, usize)>, usize))
    requires
        i < v@.len(),
        starts_ref(v@, i as int),
    ensures
        r.0 == ref_at(v@, i as int).0,
        r.1 == ref_at(v@, i as int).1,
{
    let d = find_ref_digits(v, i);
    let e = digits_end(v, d);
    let start = match parse_usize(&from_chars(v, d, e)) {
        Err(_) => {
            return (None, e);
        },
        Ok(n) => n,
    };
    if start == 0 {
        return (None, e);
    }
    let dash = skip_one_space(v, e);
    if dash < v.len() && v[dash] == '-' {
        let from = skip_one_space(v, dash + 1);
        let to = digits_end(v, from);
        match parse_usize(&from_chars(v, from, to)) {
            Ok(end) => {
                if to > from && end >= start {
                    return (Some((start, end)), to);
                }
                (Some(lines_around(start)), e)
            },
            Err(_) => (Some(lines_around(start)), e),
        }
    } else {
        (Some(lines_around(start)), dash)
    }
}

/// Finds the ranges of lines that a note names: `L283-290`, `283-290`, `L41`,
/// `line 137`. A single line stands for the two lines around it on either side.
pub fn extract_line_ranges_from_note(note: &str) -> (r: Vec<(usize, usize)>)
    ensures
        r@ == refs_from(note@, 0),
{
    let v = to_chars(note);
    let mut out: Vec<(usize, usize)> = Vec::new();
    let mut i: usize = 0;
    while i < v.len()
        invariant
            i <= v@.len(),
            v@ == note@,
            out@ + refs_from(v@, i as int) == refs_from(v@, 0),
        decreases v.len() - i,
    {
        let ghost before = out@;
        let d = find_ref_digits(&v, i);
        let digits = d < v.len() && '0' <= v[d] && v[d] <= '9';
        if !digits || (i > 0 && (char_alphanumeric(v[i - 1]) || v[i - 1] == '_')) {
            i += 1;
            continue;
        }
        proof {
            lemma_ref_progress(v@, i as int);
        }
        let (range, next) = read_ref(&v, i);
        match range {
            None => {},
            Some(p) => {
                out.push(p);
                proof {
                    assert(before + refs_from(v@, i as int) =~= out@ + refs_from(v@, next as int));
                }
            },
        }
        i = next;
    }
    proof {
        assert(out@ + refs_from(v@, i as int) =~= out@);
    }
    out
}

/// A line behind its number.
pub open spec fn numbered(n: nat, line: Seq<char>) -> Seq<char> {
    number::padded_dec(n, 4) + "│"@ + line
}

/// A line behind its number.
pub fn numbered_line(n: usize, line: &str) -> (r: String)
    ensures
        r@ == numbered(n as nat, line@),
{
    let mut out = String::new();
    push_padded_dec(&mut out, n, 4);
    proof {
        assert(out@ =~= number::padded_dec(n as nat, 4));
    }
    out.concat("│").concat(line)
}

/// The numbers of those among the first `n` lines that hold `query`.
pub open spec fn hits(ls: Seq<Seq<char>>, query: Seq<char>, n: int) -> Seq<usize>
    decreases n,
{
    if n <= 0 {
        Seq::empty()
    } else if text::has_text(ls[n - 1], query) {
        hits(ls, query, n - 1).push(n as usize)
    } else {
        hits(ls, query, n - 1)
    }
}

/// The lines with the first `n` of the numbers `found`, each behind its number.
pub open spec fn hit_lines(ls: Seq<Seq<char>>, found: Seq<usize>, n: int) -> Seq<char>
    decreases n,
{
    if n <= 0 {
        Seq::empty()
    } else {
        hit_lines(ls, found, n - 1) + numbered(found[n - 1] as nat, ls[found[n - 1] - 1]) + "\n"@
    }
}

/// The report of a search for `query`.
pub open spec fn search_report(content: Seq<char>, query: Seq<char>) -> Seq<char> {
    let ls = text::lines(content);
    let found = hits(ls, query, ls.len() as int);
    if found.len() == 0 {
        "SEARCH RESULT for `"@ + query + "`: 0 hits"@
    } else {
        let head = "SEARCH RESULT for `"@ + query + "`: "@ + number::dec(found.len())
            + " hit(s)\n"@;
        if found.len() > MAX_SEARCH_HITS {
            text::trim_end(
                head + hit_lines(ls, found, MAX_SEARCH_HITS as int) + "... "@ + number::dec(
                    (found.len() - MAX_SEARCH_HITS) as nat,
                ) + " more hit(s)\n"@,
            )
        } else {
            text::trim_end(head + hit_lines(ls, found, found.len() as int))
        }
    }
}

fn find_hits(lines: &Vec<String>, query: &str) -> (r: Vec<usize>)
    ensures
        r@ == hits(lines.deep_view(), query@, lines@.len() as int),
        forall|k: int| 0 <= k < r@.len() ==> 1 <= #[trigger] r@[k] <= lines@.len(),
{
    let ghost ls = lines.deep_view();
    let mut out: Vec<usize> = Vec::new();
    let mut i: usize = 0;
    while i < lines.len()
        invariant
            i <= lines@.len(),
            ls == lines.deep_view(),
            out@ == hits(ls, query@, i as int),
            forall|k: int| 0 <= k < out@.len() ==> 1 <= #[trigger] out@[k] <= lines@.len(),
        decreases lines.len() - i,
    {
        if contains_text(&lines[i], query) {
            out.push(i + 1);
        }
        i += 1;
    }
    out
}

/// Searches `content` for `query` and reports the lines that hold it.
pub fn search_in_file(content: &str, query: &str) -> (r: String)
    ensures
        r@ == search_report(content@, query@),
{
    let lines = split_lines(content);
    let ghost ls = lines.deep_view();
    proof {
        assert(lines@.len() == ls.len());
    }
    let found = find_hits(&lines, query);
    if found.len() == 0 {
        return "SEARCH RESULT for `".to_owned().concat(query).concat("`: 0 hits");
    }
    let mut out = "SEARCH RESULT for `".to_owned().concat(query).concat("`: ").concat(
        &dec_text(found.len()),
    ).concat(" hit(s)\n");
    let ghost head = out@;
    let shown: usize = if found.len() > MAX_SEARCH_HITS {
        MAX_SEARCH_HITS
    } else {
        found.len()
    };
    let mut i: usize = 0;
    proof {
        assert(out@ =~= head + hit_lines(ls, found@, 0));
    }
    while i < shown
        invariant
            i <= shown <= found@.len(),
            ls == lines.deep_view(),
            lines@.len() == ls.len(),
            forall|k: int| 0 <= k < found@.len() ==> 1 <= #[trigger] found@[k] <= lines@.len(),
            out@ == head + hit_lines(ls, found@, i as int),
        decreases shown - i,
    {
        let n: usize = found[i];
        out.append(&numbered_line(n, &lines[n - 1]));
        out.append("\n");
        i += 1;
        proof {
            assert(out@ =~= head + hit_lines(ls, found@, i as int));
        }
    }
    if found.len() > MAX_SEARCH_HITS {
        out.append("... ");
        out.append(&dec_text(found.len() - MAX_SEARCH_HITS));
        out.append(" more hit(s)\n");
    }
    trimmed_end(&out)
}

/// The lines with numbers `start..n`, each behind its number.
pub open spec fn read_lines(ls: Seq<Seq<char>>, start: int, n: int) -> Seq<char>
    decreases n - start,
{
    if n <= start {
        Seq::empty()
    } else {
        read_lines(ls, start, n - 1) + numbered((n - 1) as nat, ls[n - 2]) + "\n"@
    }
}

/// The report of a read of the lines `start..=end`.
pub open spec fn read_report(content: Seq<char>, start: usize, end: usize) -> Result<
    Seq<char>,
    Seq<char>,
> {
    let ls = text::lines(content);
    if end > ls.len() {
        Err(
            "READ range L"@ + number::dec(start as nat) + "-L"@ + number::dec(end as nat)
                + " outside file with "@ + number::dec(ls.len()) + " lines"@,
        )
    } else {
        Ok(
            text::trim_end(
                "READ RESULT L"@ + number::dec(start as nat) + "-L"@ + number::dec(end as nat)
                    + ":\n"@ + read_lines(ls, start as int, end + 1),
            ),
        )
    }
}

/// Shows the lines `start..=end` of `content`.
pub fn read_in_file(content: &str, start: usize, end: usize) -> (r: Result<String, String>)
    requires
        start >= 1,
    ensures
        text::result_view(r) == read_report(content@, start, end),
{
    let lines = split_lines(content);
    let ghost ls = lines.deep_view();
    proof {
        assert(lines@.len() == ls.len());
    }
    if end > lines.len() {
        return Err(
            "READ range L".to_owned().concat(&dec_text(start)).concat("-L").concat(
                &dec_text(end),
            ).concat(" outside file with ").concat(&dec_text(lines.len())).concat(" lines"),
        );
    }
    let mut out = "READ RESULT L".to_owned().concat(&dec_text(start)).concat("-L").concat(
        &dec_text(end),
    ).concat(":\n");
    let ghost head = out@;
    let mut n: usize = start;
    proof {
        assert(out@ =~= head + read_lines(ls, start as int, start as int));
    }
    while n <= end
        invariant
            1 <= start <= n,
            n <= end || n == start,
            end <= lines@.len() == ls.len(),
            ls == lines.deep_view(),
            ls == text::lines(content@),
            head == "READ RESULT L"@ + number::dec(start as nat) + "-L"@ + number::dec(end as nat)
                + ":\n"@,
            out@ == head + read_lines(ls, start as int, n as int),
        decreases end + 1 - n,
    {
        out.append(&numbered_line(n, &lines[n - 1]));
        out.append("\n");
        proof {
            assert(out@ =~= head + read_lines(ls, start as int, n + 1));
        }
        if n == end {
            return Ok(trimmed_end(&out));
        }
        n += 1;
    }
    Ok(trimmed_end(&out))
}

/// The lines with indices `start..end`, each behind its number.
pub open spec fn numbered_slice(ls: Seq<Seq<char>>, start: int, end: int) -> Seq<Seq<char>> {
    Seq::new((end - start) as nat, |i: int| numbered((start + i + 1) as nat, ls[start + i]))
}

/// The lines with indices `start..end` as one text, each behind its number.
pub open spec fn slice_text(ls: Seq<Seq<char>>, start: int, end: int) -> Seq<char> {
    let stop = if end < ls.len() {
        end
    } else {
        ls.len() as int
    };
    text::join(numbered_slice(ls, start, stop), "\n"@)
}

/// Shows the lines with indices `start..end`, as far as there are any.
pub fn render_numbered_slice(lines: &[String], start: usize, end: usize) -> (r: String)
    requires
        start <= end,
        start <= lines@.len(),
    ensures
        r@ == slice_text(lines.deep_view(), start as int, end as int),
{
    let ghost ls = lines.deep_view();
    let total: usize = lines.len();
    proof {
        assert(total == ls.len());
    }
    let stop: usize = if end < total {
        end
    } else {
        total
    };
    let ghost wanted = numbered_slice(ls, start as int, stop as int);
    let mut parts: Vec<String> = Vec::new();
    let mut i: usize = start;
    proof {
        assert(parts.deep_view() =~= wanted.take(0));
    }
    while i < stop
        invariant
            start <= i <= stop <= lines@.len() == ls.len(),
            ls == lines.deep_view(),
            wanted == numbered_slice(ls, start as int, stop as int),
            parts.deep_view() == wanted.take(i - start),
        decreases stop - i,
    {
        let ghost o = parts.deep_view();
        let part = numbered_line(i + 1, &lines[i]);
        proof {
            assert(part@ == wanted[i - start]);
        }
        parts.push(part);
        proof {
            assert(parts.deep_view() =~= o.push(wanted[i - start]));
            assert(wanted.take(i + 1 - start) =~= o.push(wanted[i - start]));
        }
        i += 1;
    }
    proof {
        assert(wanted.take(stop - start) =~= wanted);
    }
    joined(&parts, "\n")
}

/// `items`, and `x` behind them where it is not among them.
pub open spec fn with_item<T>(items: Seq<T>, x: T) -> Seq<T> {
    if items.contains(x) {
        items
    } else {
        items.push(x)
    }
}

/// `items`, and those of the first `n` of `more` behind them that are new, each
/// once.
pub open spec fn with_items<T>(items: Seq<T>, more: Seq<T>, n: int) -> Seq<T>
    decreases n,
{
    if n <= 0 {
        items
    } else {
        with_item(with_items(items, more, n - 1), more[n - 1])
    }
}

fn holds_text(items: &Vec<String>, x: &str) -> (r: bool)
    ensures
        r == items.deep_view().contains(x@),
{
    let ghost iv = items.deep_view();
    let mut i: usize = 0;
    while i < items.len()
        invariant
            i <= items@.len() == iv.len(),
            iv == items.deep_view(),
            forall|k: int| 0 <= k < i ==> #[trigger] iv[k] != x@,
        decreases items.len() - i,
    {
        proof {
            assert(iv[i as int] == items@[i as int]@);
        }
        if same_text(&items[i], x) {
            return true;
        }
        i += 1;
    }
    false
}

/// Adds those notes that are new, each once.
pub fn extend_unique_notes(existing: &mut Vec<String>, new_notes: Vec<String>)
    ensures
        final(existing).deep_view() == with_items(
            old(existing).deep_view(),
            new_notes.deep_view(),
            new_notes@.len() as int,
        ),
{
    let ghost e0 = existing.deep_view();
    let ghost nv = new_notes.deep_view();
    let mut i: usize = 0;
    while i < new_notes.len()
        invariant
            i <= new_notes@.len() == nv.len(),
            nv == new_notes.deep_view(),
            existing.deep_view() == with_items(e0, nv, i as int),
        decreases new_notes.len() - i,
    {
        let ghost before = existing.deep_view();
        proof {
            assert(nv[i as int] == new_notes@[i as int]@);
        }
        if !holds_text(existing, &new_notes[i]) {
            existing.push(new_notes[i].clone());
            proof {
                assert(existing.deep_view() =~= before.push(nv[i as int]));
            }
        }
        i += 1;
    }
}

fn same_command(a: &InspectionCommand, b: &InspectionCommand) -> (r: bool)
    ensures
        r == (a.deep_view() == b.deep_view()),
{
    match (a, b) {
        (InspectionCommand::Search(p), InspectionCommand::Search(q)) => same_text(p, q),
        (
            InspectionCommand::Read { start: s1, end: e1 },
            InspectionCommand::Read { start: s2, end: e2 },
        ) => *s1 == *s2 && *e1 == *e2,
        _ => false,
    }
}

fn holds_command(items: &Vec<InspectionCommand>, x: &InspectionCommand) -> (r: bool)
    ensures
        r == items.deep_view().contains(x.deep_view()),
{
    let ghost iv = items.deep_view();
    let mut i: usize = 0;
    while i < items.len()
        invariant
            i <= items@.len() == iv.len(),
            iv == items.deep_view(),
            forall|k: int| 0 <= k < i ==> #[trigger] iv[k] != x.deep_view(),
        decreases items.len() - i,
    {
        proof {
            assert(iv[i as int] == items@[i as int].deep_view());
        }
        if same_command(&items[i], x) {
            return true;
        }
        i += 1;
    }
    false
}

/// Adds those commands that are new, each once.
pub fn extend_unique_commands(
    existing: &mut Vec<InspectionCommand>,
    new_commands: Vec<InspectionCommand>,
)
    ensures
        final(existing).deep_view() == with_items(
            old(existing).deep_view(),
            new_commands.deep_view(),
            new_commands@.len() as int,
        ),
{
    let ghost e0 = existing.deep_view();
    let ghost nv = new_commands.deep_view();
    let mut i: usize = 0;
    while i < new_commands.len()
        invariant
            i <= new_commands@.len() == nv.len(),
            nv == new_commands.deep_view(),
            existing.deep_view() == with_items(e0, nv, i as int),
        decreases new_commands.len() - i,
    {
        let ghost before = existing.deep_view();
        proof {
            assert(nv[i as int] == new_commands@[i as int].deep_view());
        }
        if !holds_command(existing, &new_commands[i]) {
            existing.push(new_commands[i].clone());
            proof {
                assert(existing.deep_view() =~= before.push(nv[i as int]));
            }
        }
        i += 1;
    }
}

/// Reads of the given ranges.
pub open spec fn reads_of(ranges: Seq<(usize, usize)>) -> Seq<CommandView> {
    Seq::new(ranges.len(), |i: int| CommandView::Read { start: ranges[i].0, end: ranges[i].1 })
}

/// `commands`, and a read of every range of lines that the first `n` notes
/// name, each once.
pub open spec fn with_note_reads(commands: Seq<CommandView>, notes: Seq<Seq<char>>, n: int) -> Seq<
    CommandView,
>
    decreases n,
{
    if n <= 0 {
        commands
    } else {
        let reads = reads_of(refs_from(notes[n - 1], 0));
        with_items(with_note_reads(commands, notes, n - 1), reads, reads.len() as int)
    }
}

/// Adds a read of every range of lines that the notes name, each once.
pub fn queue_note_reads(commands: &mut Vec<InspectionCommand>, notes: &Vec<String>)
    ensures
        final(commands).deep_view() == with_note_reads(
            old(commands).deep_view(),
            notes.deep_view(),
            notes@.len() as int,
        ),
{
    let ghost c0 = commands.deep_view();
    let ghost nv = notes.deep_view();
    let mut i: usize = 0;
    while i < notes.len()
        invariant
            i <= notes@.len() == nv.len(),
            nv == notes.deep_view(),
            commands.deep_view() == with_note_reads(c0, nv, i as int),
        decreases notes.len() - i,
    {
        let ranges = extract_line_ranges_from_note(&notes[i]);
        let mut reads: Vec<InspectionCommand> = Vec::new();
        let mut k: usize = 0;
        proof {
            assert(nv[i as int] == notes@[i as int]@);
            assert(reads.deep_view() =~= reads_of(ranges@).take(0));
        }
        while k < ranges.len()
            invariant
                k <= ranges@.len(),
                reads@.len() == k,
                reads.deep_view() == reads_of(ranges@).take(k as int),
            decreases ranges.len() - k,
        {
            let ghost o = reads.deep_view();
            let (start, end) = ranges[k];
            reads.push(InspectionCommand::Read { start, end });
            proof {
                assert(reads.deep_view() =~= o.push(reads_of(ranges@)[k as int]));
                assert(reads_of(ranges@).take(k + 1) =~= o.push(reads_of(ranges@)[k as int]));
            }
            k += 1;
        }
        proof {
            assert(reads_of(ranges@).take(k as int) =~= reads_of(ranges@));
        }
        extend_unique_commands(commands, reads);
        i += 1;
    }
}

/// Appends a result under its label.
pub fn append_inspection_result(extra_context: &mut String, label: &str, result: &str)
    ensures
        final(extra_context)@ == old(extra_context)@ + label@ + "\n"@ + result@ + "\n\n"@,
{
    extra_context.append(label);
    extra_context.append("\n");
    extra_context.append(result);
    extra_context.append("\n\n");
}

/// How many searches and reads were run for a plan, and how many reads may be.
#[derive(Debug, Clone, Copy)]
pub struct InspectionCounters {
    pub search_count: usize,
    pub read_count: usize,
    pub max_reads: usize,
}

/// The counters and the text of results behind one command.
pub open spec fn after_command(
    content: Seq<char>,
    command: CommandView,
    counters: InspectionCounters,
    context: Seq<char>,
) -> (InspectionCounters, Seq<char>) {
    match command {
        CommandView::Search(query) => if counters.search_count >= MAX_PREPLAN_SEARCHES {
            (
                counters,
                context + ("(SEARCH `"@ + query + "` skipped: per-edit limit of "@ + number::dec(
                    MAX_PREPLAN_SEARCHES as nat,
                ) + " searches reached)\n\n"@),
            )
        } else {
            (
                InspectionCounters {
                    search_count: (counters.search_count + 1) as usize,
                    ..counters
                },
                context + ("SEARCH_RESULT query=`"@ + query + "`"@) + "\n"@ + search_report(
                    content,
                    query,
                ) + "\n\n"@,
            )
        },
        CommandView::Read { start, end } => {
            let range = number::dec(start as nat) + "-"@ + number::dec(end as nat);
            if counters.read_count >= counters.max_reads {
                (
                    counters,
                    context + ("(READ "@ + range + " skipped: per-edit limit of "@ + number::dec(
                        counters.max_reads as nat,
                    ) + " reads reached)\n\n"@),
                )
            } else {
                let counted = InspectionCounters {
                    read_count: (counters.read_count + 1) as usize,
                    ..counters
                };
                match read_report(content, start, end) {
                    Err(e) => (
                        counted,
                        context + ("(READ "@ + range + " failed: "@ + e + ")\n\n"@),
                    ),
                    Ok(report) => (
                        counted,
                        context + ("READ_RESULT range=L"@ + number::dec(start as nat) + "-L"@
                            + number::dec(end as nat)) + "\n"@ + report + "\n\n"@,
                    ),
                }
            }
        },
    }
}

/// The counters and the text of results behind the first `n` commands.
pub open spec fn after_commands(
    content: Seq<char>,
    commands: Seq<CommandView>,
    n: int,
    counters: InspectionCounters,
    context: Seq<char>,
) -> (InspectionCounters, Seq<char>)
    decreases n,
{
    if n <= 0 {
        (counters, context)
    } else {
        let before = after_commands(content, commands, n - 1, counters, context);
        after_command(content, commands[n - 1], before.0, before.1)
    }
}

/// Whether every read starts at line 1 or behind it.
pub open spec fn reads_are_one_based(commands: Seq<CommandView>) -> bool {
    forall|i: int|
        0 <= i < commands.len() ==> match #[trigger] commands[i] {
            CommandView::Read { start, end } => start >= 1,
            CommandView::Search(_) => true,
        }
}

/// Runs the queued commands and appends their results. A command beyond the
/// limits is noted instead.
pub fn execute_inspection_commands(
    content: &str,
    commands: &[InspectionCommand],
    counters: &mut InspectionCounters,
    extra_context: &mut String,
)
    requires
        reads_are_one_based(commands.deep_view()),
    ensures
        (*final(counters), final(extra_context)@) == after_commands(
            content@,
            commands.deep_view(),
            commands@.len() as int,
            *old(counters),
            old(extra_context)@,
        ),
{
    let ghost cv = commands.deep_view();
    let ghost k0 = *counters;
    let ghost x0 = extra_context@;
    let mut i: usize = 0;
    while i < commands.len()
        invariant
            i <= commands@.len() == cv.len(),
            cv == commands.deep_view(),
            reads_are_one_based(cv),
            (*counters, extra_context@) == after_commands(content@, cv, i as int, k0, x0),
        decreases commands.len() - i,
    {
        proof {
            assert(cv[i as int] == commands@[i as int].deep_view());
        }
        match &commands[i] {
            InspectionCommand::Search(query) => {
                if counters.search_count >= MAX_PREPLAN_SEARCHES {
                    extra_context.append(
                        &"(SEARCH `".to_owned().concat(query).concat(
                            "` skipped: per-edit limit of ",
                        ).concat(&dec_text(MAX_PREPLAN_SEARCHES)).concat(
                            " searches reached)\n\n",
                        ),
                    );
                } else {
                    counters.search_count = counters.search_count + 1;
                    let result = search_in_file(content, query);
                    append_inspection_result(
                        extra_context,
                        &"SEARCH_RESULT query=`".to_owned().concat(query).concat("`"),
                        &result,
                    );
                }
            },
            InspectionCommand::Read { start, end } => {
                let range = dec_text(*start).concat("-").concat(&dec_text(*end));
                if counters.read_count >= counters.max_reads {
                    extra_context.append(
                        &"(READ ".to_owned().concat(&range).concat(
                            " skipped: per-edit limit of ",
                        ).concat(&dec_text(counters.max_reads)).concat(" reads reached)\n\n"),
                    );
                } else {
                    counters.read_count = counters.read_count + 1;
                    match read_in_file(content, *start, *end) {
                        Ok(report) => append_inspection_result(
                            extra_context,
                            &"READ_RESULT range=L".to_owned().concat(&dec_text(*start)).concat(
                                "-L",
                            ).concat(&dec_text(*end)),
                            &report,
                        ),
                        Err(e) => extra_context.append(
                            &"(READ ".to_owned().concat(&range).concat(" failed: ").concat(
                                &e,
                            ).concat(")\n\n"),
                        ),
                    }
                }
            },
        }
        i += 1;
    }
}

/// A window response asks only for reads from line 1 on.
pub proof fn asked_reads_are_one_based(ls: Seq<Seq<char>>, n: int)
    ensures
        reads_are_one_based(window_response(ls, n).commands),
    decreases n,
{
    if n > 0 {
        asked_reads_are_one_based(ls, n - 1);
    }
}

proof fn lemma_refs_are_one_based(s: Seq<char>, i: int)
    ensures
        forall|k: int| 0 <= k < refs_from(s, i).len() ==> (#[trigger] refs_from(s, i)[k]).0 >= 1,
    decreases s.len() - i,
{
    if 0 <= i < s.len() {
        if !starts_ref(s, i) {
            lemma_refs_are_one_based(s, i + 1);
            assert(refs_from(s, i) == refs_from(s, i + 1));
        } else {
            lemma_ref_progress(s, i);
            let next = ref_at(s, i).1;
            lemma_refs_are_one_based(s, next);
            if ref_at(s, i).0 is None {
                assert(refs_from(s, i) == refs_from(s, next));
            } else {
                let all = refs_from(s, i);
                let rest = refs_from(s, next);
                assert(all == seq![ref_at(s, i).0->0] + rest);
                assert forall|k: int| 0 <= k < all.len() implies (#[trigger] all[k]).0 >= 1 by {
                    if k > 0 {
                        assert(all[k] == rest[k - 1]);
                    }
                }
            }
        }
    }
}

/// Adding reads from line 1 on to such reads gives such reads.
pub proof fn added_reads_are_one_based(items: Seq<CommandView>, more: Seq<CommandView>, n: int)
    requires
        reads_are_one_based(items),
        reads_are_one_based(more),
        n <= more.len(),
    ensures
        reads_are_one_based(with_items(items, more, n)),
    decreases n,
{
    if n > 0 {
        added_reads_are_one_based(items, more, n - 1);
    }
}

/// The reads queued for the lines that notes name start at line 1 or behind it.
pub proof fn note_reads_are_one_based(commands: Seq<CommandView>, notes: Seq<Seq<char>>, n: int)
    requires
        reads_are_one_based(commands),
    ensures
        reads_are_one_based(with_note_reads(commands, notes, n)),
    decreases n,
{
    if n > 0 {
        note_reads_are_one_based(commands, notes, n - 1);
        lemma_refs_are_one_based(notes[n - 1], 0);
        let reads = reads_of(refs_from(notes[n - 1], 0));
        added_reads_are_one_based(
            with_note_reads(commands, notes, n - 1),
            reads,
            reads.len() as int,
        );
    }
}

/// However many commands are queued, no more searches and reads are run than the
/// limits allow.
pub proof fn limits_hold(
    content: Seq<char>,
    commands: Seq<CommandView>,
    n: int,
    counters: InspectionCounters,
    context: Seq<char>,
)
    requires
        counters.search_count <= MAX_PREPLAN_SEARCHES,
        counters.read_count <= counters.max_reads,
    ensures
        after_commands(content, commands, n, counters, context).0.search_count
            <= MAX_PREPLAN_SEARCHES,
        after_commands(content, commands, n, counters, context).0.read_count <= counters.max_reads,
        after_commands(content, commands, n, counters, context).0.max_reads == counters.max_reads,
    decreases n,
{
    if n > 0 {
        limits_hold(content, commands, n - 1, counters, context);
    }
}

proof fn lemma_hits(ls: Seq<Seq<char>>, query: Seq<char>, n: int, k: usize)
    requires
        0 <= n <= ls.len() <= usize::MAX,
    ensures
        hits(ls, query, n).contains(k) <==> 1 <= k <= n && text::has_text(ls[k - 1], query),
    decreases n,
{
    if n > 0 {
        lemma_hits(ls, query, n - 1, k);
        let rest = hits(ls, query, n - 1);
        let all = hits(ls, query, n);
        if all.contains(k) {
            let i = all.index_of(k);
            if i < rest.len() {
                assert(rest[i] == k);
                assert(rest.contains(k));
            }
        }
        if rest.contains(k) {
            let i = rest.index_of(k);
            assert(all[i] == k);
        }
        if k == n && text::has_text(ls[n - 1], query) {
            assert(all[rest.len() as int] == k);
        }
    }
}

/// A search finds exactly the lines that hold the text, numbered from 1.
pub proof fn search_finds_the_lines(content: Seq<char>, query: Seq<char>, k: usize)
    requires
        text::lines(content).len() <= usize::MAX,
    ensures
        hits(text::lines(content), query, text::lines(content).len() as int).contains(k) <==> 1 <= k
            <= text::lines(content).len() && text::has_text(text::lines(content)[k - 1], query),
{
    lemma_hits(text::lines(content), query, text::lines(content).len() as int, k);
}

proof fn lemma_kept_by_trim(s: Seq<char>, p: Seq<char>)
    requires
        text::has_text(s, p),
        p.len() > 0,
        !text::is_space(p.last()),
    ensures
        text::has_text(text::trim_end(s), p),
{
    let k = choose|k: int| text::occurs_at(s, p, k);
    let n = s.len() as int;
    text::lemma_back_space(s, 0, n);
    let b = text::back_space(s, 0, n);
    let e = k + p.len();
    assert(s.subrange(k, e)[p.len() - 1] == s[e - 1]);
    assert(e <= b) by {
        if e - 1 >= b {
            assert(text::is_space(s[e - 1]));
        }
    }
    assert(text::trim_end(s).subrange(k, e) =~= p);
    assert(text::occurs_at(text::trim_end(s), p, k));
}

proof fn lemma_hit_lines(ls: Seq<Seq<char>>, found: Seq<usize>, n: int, i: int)
    requires
        0 <= i < n <= found.len(),
    ensures
        text::has_text(hit_lines(ls, found, n), numbered(found[i] as nat, ls[found[i] - 1])),
    decreases n,
{
    let p = numbered(found[i] as nat, ls[found[i] - 1]);
    let a = hit_lines(ls, found, n - 1);
    let b = numbered(found[n - 1] as nat, ls[found[n - 1] - 1]);
    if i < n - 1 {
        lemma_hit_lines(ls, found, n - 1, i);
    }
    text::found_in_either(a, b, p);
    text::found_in_either(a + b, "\n"@, p);
}

proof fn lemma_report_shows(head: Seq<char>, body: Seq<char>, tail: Seq<char>, p: Seq<char>)
    requires
        text::has_text(body, p),
        p.len() > 0,
        !text::is_space(p.last()),
    ensures
        text::has_text(text::trim_end(head + body + tail), p),
        text::has_text(text::trim_end(head + body), p),
{
    text::found_in_either(head, body, p);
    text::found_in_either(head + body, tail, p);
    lemma_kept_by_trim(head + body + tail, p);
    lemma_kept_by_trim(head + body, p);
}

/// The report of a search shows each of the first eight lines that were found, with its
/// number; white space at the end of the report aside.
pub proof fn search_shows_its_hits(content: Seq<char>, query: Seq<char>, i: int)
    requires
        ({
            let ls = text::lines(content);
            let found = hits(ls, query, ls.len() as int);
            &&& 0 <= i < found.len()
            &&& i < 8
            &&& ls[found[i] - 1].len() > 0
            &&& !text::is_space(ls[found[i] - 1].last())
        }),
    ensures
        ({
            let ls = text::lines(content);
            let found = hits(ls, query, ls.len() as int);
            text::has_text(
                search_report(content, query),
                number::padded_dec(found[i] as nat, 4) + "│"@ + ls[found[i] - 1],
            )
        }),
{
    let ls = text::lines(content);
    let found = hits(ls, query, ls.len() as int);
    let p = numbered(found[i] as nat, ls[found[i] - 1]);
    let head = "SEARCH RESULT for `"@ + query + "`: "@ + number::dec(found.len()) + " hit(s)\n"@;
    let n = if found.len() > MAX_SEARCH_HITS {
        MAX_SEARCH_HITS as int
    } else {
        found.len() as int
    };
    let body = hit_lines(ls, found, n);
    let tail = "... "@ + number::dec((found.len() - MAX_SEARCH_HITS) as nat) + " more hit(s)\n"@;
    lemma_hit_lines(ls, found, n, i);
    assert(p.last() == ls[found[i] - 1].last());
    lemma_report_shows(head, body, tail, p);
    if found.len() > MAX_SEARCH_HITS {
        assert(head + body + tail =~= head + body + "... "@ + number::dec(
            (found.len() - MAX_SEARCH_HITS) as nat,
        ) + " more hit(s)\n"@);
        assert(search_report(content, query) == text::trim_end(head + body + tail));
    } else {
        assert(search_report(content, query) == text::trim_end(head + body));
    }
}

proof fn lemma_read_lines(ls: Seq<Seq<char>>, start: int, n: int, k: int)
    requires
        1 <= start <= k < n,
    ensures
        text::has_text(read_lines(ls, start, n), numbered(k as nat, ls[k - 1])),
    decreases n - start,
{
    let p = numbered(k as nat, ls[k - 1]);
    let a = read_lines(ls, start, n - 1);
    let b = numbered((n - 1) as nat, ls[n - 2]);
    if k < n - 1 {
        lemma_read_lines(ls, start, n - 1, k);
    }
    text::found_in_either(a, b, p);
    text::found_in_either(a + b, "\n"@, p);
}

/// A range of lines can be read exactly where it ends within the file, and each of its
/// lines is shown with its number; white space at the end of the report aside.
pub proof fn read_shows_its_lines(content: Seq<char>, start: usize, end: usize, k: int)
    requires
        start >= 1,
    ensures
        read_report(content, start, end) is Ok <==> end <= text::lines(content).len(),
        read_report(content, start, end) matches Ok(s) ==> (start <= k <= end && text::lines(
            content,
        )[k - 1].len() > 0 && !text::is_space(text::lines(content)[k - 1].last()) ==> text::has_text(
            s,
            number::padded_dec(k as nat, 4) + "│"@ + text::lines(content)[k - 1],
        )),
{
    let ls = text::lines(content);
    if end <= ls.len() && start <= k <= end && ls[k - 1].len() > 0 && !text::is_space(
        ls[k - 1].last(),
    ) {
        let head = "READ RESULT L"@ + number::dec(start as nat) + "-L"@ + number::dec(end as nat)
            + ":\n"@;
        let p = numbered(k as nat, ls[k - 1]);
        let body = read_lines(ls, start as int, end + 1);
        lemma_read_lines(ls, start as int, end + 1, k);
        assert(p.last() == ls[k - 1].last());
        lemma_report_shows(head, body, Seq::empty(), p);
        assert(read_report(content, start, end) == Ok::<Seq<char>, Seq<char>>(
            text::trim_end(head + body),
        ));
    }
}

/// A slice of a file shows each of its lines with its number.
pub proof fn slices_show_their_lines(ls: Seq<Seq<char>>, start: int, end: int, k: int)
    requires
        0 <= start <= k < end,
        k < ls.len(),
    ensures
        text::has_text(
            slice_text(ls, start, end),
            number::padded_dec((k + 1) as nat, 4) + "│"@ + ls[k],
        ),
{
    let stop = if end < ls.len() {
        end
    } else {
        ls.len() as int
    };
    let parts = numbered_slice(ls, start, stop);
    text::parts_are_found(parts, "\n"@, k - start);
}

proof fn lemma_ci_prefix(p: Seq<char>, rest: Seq<char>)
    ensures
        has_prefix_ci(p + rest, p),
        strip_prefix_ci(p + rest, p) == Some(rest),
{
    let s = p + rest;
    assert(s.subrange(p.len() as int, s.len() as int) =~= rest);
}

/// The case of a keyword does not matter, what follows it is taken as it is.
pub proof fn keywords_ignore_case(a: Seq<char>, p: Seq<char>, rest: Seq<char>)
    requires
        a.len() == p.len(),
        forall|i: int|
            0 <= i < p.len() ==> unicode::ascii_lower(#[trigger] a[i]) == unicode::ascii_lower(
                p[i],
            ),
    ensures
        strip_prefix_ci(a + rest, p) == Some(rest),
{
    let s = a + rest;
    assert forall|i: int| 0 <= i < p.len() implies unicode::ascii_lower(#[trigger] s[i])
        == unicode::ascii_lower(p[i]) by {
        assert(s[i] == a[i]);
        assert(unicode::ascii_lower(a[i]) == unicode::ascii_lower(p[i]));
    }
    assert(s.subrange(p.len() as int, s.len() as int) =~= rest);
}

proof fn lemma_other_keyword(s: Seq<char>, p: Seq<char>, k: int)
    requires
        0 <= k < s.len(),
        k < p.len(),
        unicode::ascii_lower(s[k]) != unicode::ascii_lower(p[k]),
    ensures
        !has_prefix_ci(s, p),
{
}

proof fn lemma_no_question(s: Seq<char>)
    requires
        s.len() > 0,
        s[0] != 'N',
        !text::is_space(s[0]),
    ensures
        parse::after_keyword(s, "NEEDS_CLARIFICATION"@) is None,
{
    reveal_strlit("NEEDS_CLARIFICATION");
    assert(text::skip_space(s, 0) == 0);
    assert(text::trim_start(s) =~= s);
    if text::starts_with(s, "NEEDS_CLARIFICATION"@) {
        assert(s.subrange(0, 19)[0] == s[0]);
    }
}

proof fn lemma_search(rest: Seq<char>, query: Seq<char>, asked: bool)
    requires
        rest.len() > 0,
        !text::is_space(rest.last()),
        text::trim(rest) == query,
        query.len() > 0,
    ensures
        line_meaning("SEARCH:"@ + rest, asked) == LineView::Command(CommandView::Search(query)),
{
    reveal_strlit("SEARCH:");
    reveal_strlit("NOTE ");
    reveal_strlit("NOTE:");
    let a = "SEARCH:"@ + rest;
    assert(a[0] == 'S');
    assert(a.last() == rest.last());
    assert(text::trim(a) == a) by {
        text::trimmed_text_stays(a);
    }
    lemma_no_question(a);
    lemma_other_keyword(a, "NOTE "@, 0);
    lemma_other_keyword(a, "NOTE:"@, 0);
    lemma_ci_prefix("SEARCH:"@, rest);
}

/// A search is read as it is asked for, white space around the text aside.
pub proof fn searches_are_read(query: Seq<char>, asked: bool)
    requires
        query.len() > 0,
        !text::is_space(query[0]),
        !text::is_space(query.last()),
    ensures
        line_meaning("SEARCH: "@ + query, asked) == LineView::Command(CommandView::Search(query)),
        line_meaning("SEARCH:"@ + query, asked) == LineView::Command(CommandView::Search(query)),
{
    let spaced = seq![' '] + query;
    assert("SEARCH: "@ + query =~= "SEARCH:"@ + spaced) by {
        reveal_strlit("SEARCH: ");
        reveal_strlit("SEARCH:");
    }
    lemma_trim_spaced(query);
    assert(spaced.last() == query.last());
    assert(text::trim(query) == query) by {
        text::trimmed_text_stays(query);
    }
    lemma_search(query, query, asked);
    lemma_search(spaced, query, asked);
}

proof fn lemma_trim_spaced(s: Seq<char>)
    requires
        s.len() > 0,
        !text::is_space(s[0]),
        !text::is_space(s.last()),
    ensures
        text::trim(seq![' '] + s) == s,
{
    let t = seq![' '] + s;
    let n = t.len() as int;
    text::lemma_skip_space(t, 0);
    let a = text::skip_space(t, 0);
    assert(t[0] == ' ' && t[1] == s[0]);
    assert(a == 1) by {
        if a == 0 {
            assert(text::is_space(t[0]));
        }
        if a > 1 {
            assert(text::is_space(t[1]));
        }
    }
    text::lemma_back_space(t, a, n);
    let b = text::back_space(t, a, n);
    assert(t[n - 1] == s.last());
    assert(b == n) by {
        if b < n {
            assert(text::is_space(t[n - 1]));
        }
    }
    assert(text::trim(t) =~= s);
}

/// A range to be read is read as it is asked for, if it begins at a line and does not end
/// before it.
pub proof fn reads_are_read(start: usize, end: usize, asked: bool)
    requires
        1 <= start <= end,
    ensures
        line_meaning(
            "READ: "@ + number::dec(start as nat) + "-"@ + number::dec(end as nat),
            asked,
        ) == LineView::Command(CommandView::Read { start, end }),
{
    reveal_strlit("READ: ");
    reveal_strlit("READ:");
    reveal_strlit("SEARCH:");
    reveal_strlit("NOTE ");
    reveal_strlit("NOTE:");
    reveal_strlit("-");
    let x = number::dec(start as nat);
    let y = number::dec(end as nat);
    let r = x + "-"@ + y;
    let spaced = seq![' '] + r;
    let s = "READ: "@ + x + "-"@ + y;
    number::lemma_dec(start as nat);
    number::lemma_dec(end as nat);
    number::number_reads_back(start);
    number::number_reads_back(end);
    assert(number::is_digit(x[0]) && number::is_digit(x[x.len() - 1]));
    assert(number::is_digit(y[0]) && number::is_digit(y[y.len() - 1]));
    assert(s =~= "READ:"@ + spaced);
    assert(s[0] == 'R' && s.last() == y.last() && r[0] == x[0] && r.last() == y.last());
    text::trimmed_text_stays(s);
    text::trimmed_text_stays(x);
    text::trimmed_text_stays(y);
    lemma_no_question(s);
    lemma_other_keyword(s, "NOTE "@, 0);
    lemma_other_keyword(s, "NOTE:"@, 0);
    lemma_other_keyword(s, "SEARCH:"@, 0);
    lemma_ci_prefix("READ:"@, spaced);
    lemma_trim_spaced(r);
    text::lemma_char_from(r, '-', 0);
    let e = text::char_from(r, '-', 0);
    assert(r[x.len() as int] == '-');
    if e < x.len() {
        assert(r[e] == x[e]);
        assert(number::is_digit(x[e]));
    }
    assert(r.subrange(0, x.len() as int) =~= x);
    assert(r.subrange(x.len() as int + 1, r.len() as int) =~= y);
}

proof fn lemma_note(rest: Seq<char>, note: Seq<char>)
    requires
        rest.len() > 0,
        !text::is_space(rest.last()),
        text::trim(rest) == note,
        note.len() > 0,
    ensures
        line_meaning("NOTE:"@ + rest, true) == LineView::Note(note),
        line_meaning("NOTE "@ + rest, true) == LineView::Note(note),
{
    reveal_strlit("NOTE ");
    reveal_strlit("NOTE:");
    let a = "NOTE "@ + rest;
    let b = "NOTE:"@ + rest;
    assert(a[0] == 'N' && b[0] == 'N' && a.last() == rest.last() && b.last() == rest.last());
    assert(text::trim(a) == a && text::trim(b) == b) by {
        text::trimmed_text_stays(a);
        text::trimmed_text_stays(b);
    }
    lemma_other_keyword(b, "NOTE "@, 4);
    lemma_ci_prefix("NOTE "@, rest);
    lemma_ci_prefix("NOTE:"@, rest);
}

/// A note is taken as it is written, white space around it aside.
pub proof fn notes_are_read(note: Seq<char>)
    requires
        note.len() > 0,
        !text::is_space(note[0]),
        !text::is_space(note.last()),
    ensures
        line_meaning("NOTE: "@ + note, true) == LineView::Note(note),
        line_meaning("NOTE:"@ + note, true) == LineView::Note(note),
        line_meaning("NOTE "@ + note, true) == LineView::Note(note),
{
    let spaced = seq![' '] + note;
    assert("NOTE: "@ + note =~= "NOTE:"@ + spaced) by {
        reveal_strlit("NOTE: ");
        reveal_strlit("NOTE:");
    }
    lemma_trim_spaced(note);
    assert(spaced.last() == note.last());
    assert(text::trim(note) == note) by {
        text::trimmed_text_stays(note);
    }
    lemma_note(note, note);
    lemma_note(spaced, note);
}

/// Adding items keeps those that are there in their place, adds each that is missing, and
/// nothing else, and none twice.
pub proof fn items_are_added_once<T>(items: Seq<T>, more: Seq<T>, n: int)
    requires
        0 <= n <= more.len(),
    ensures
        items.len() <= with_items(items, more, n).len(),
        with_items(items, more, n).take(items.len() as int) == items,
        forall|k: int| 0 <= k < n ==> with_items(items, more, n).contains(#[trigger] more[k]),
        forall|k: int|
            items.len() <= k < with_items(items, more, n).len() ==> more.contains(
                #[trigger] with_items(items, more, n)[k],
            ) && !items.contains(with_items(items, more, n)[k]),
        items.no_duplicates() ==> with_items(items, more, n).no_duplicates(),
    decreases n,
{
    if n > 0 {
        items_are_added_once(items, more, n - 1);
        let before = with_items(items, more, n - 1);
        let now = with_items(items, more, n);
        let x = more[n - 1];
        if before.contains(x) {
            assert(now == before);
        } else {
            assert(now == before.push(x));
            assert(now.take(items.len() as int) =~= before.take(items.len() as int));
            assert(now[before.len() as int] == x);
            assert(!items.contains(x)) by {
                if items.contains(x) {
                    let j = items.index_of(x);
                    assert(before.take(items.len() as int)[j] == before[j]);
                    assert(before.contains(before[j]));
                }
            }
            assert forall|k: int| 0 <= k < n implies now.contains(#[trigger] more[k]) by {
                if k < n - 1 {
                    let j = before.index_of(more[k]);
                    assert(now[j] == more[k]);
                }
            }
            assert forall|k: int| items.len() <= k < now.len() implies more.contains(
                #[trigger] now[k],
            ) && !items.contains(now[k]) by {
                if k < before.len() {
                    assert(now[k] == before[k]);
                } else {
                    assert(more.contains(x));
                }
            }
        }
    } else {
        assert(items.take(items.len() as int) =~= items);
    }
}

/// A command only adds to what is known, and counts: a search counts as a search, a read as
/// a read, and one beyond the limit as neither.
pub proof fn commands_add_and_count(
    content: Seq<char>,
    command: CommandView,
    counters: InspectionCounters,
    context: Seq<char>,
)
    requires
        counters.search_count <= 20,
        counters.read_count <= counters.max_reads,
    ensures
        ({
            let (after, more) = after_command(content, command, counters, context);
            &&& text::starts_with(more, context)
            &&& after.max_reads == counters.max_reads
            &&& match command {
                CommandView::Search(q) => after.read_count == counters.read_count
                    && after.search_count == counters.search_count + (if counters.search_count
                    < 20 {
                    1int
                } else {
                    0int
                }) && (counters.search_count < 20 ==> text::has_text(
                    more,
                    search_report(content, q),
                )),
                CommandView::Read { start, end } => after.search_count == counters.search_count
                    && after.read_count == counters.read_count + (if counters.read_count
                    < counters.max_reads {
                    1int
                } else {
                    0int
                }) && (counters.read_count < counters.max_reads ==> match read_report(
                    content,
                    start,
                    end,
                ) {
                    Ok(s) => text::has_text(more, s),
                    Err(e) => text::has_text(more, e),
                }),
            }
        }),
{
    let (after, more) = after_command(content, command, counters, context);
    assert(more.subrange(0, context.len() as int) =~= context);
    match command {
        CommandView::Search(q) => {
            if counters.search_count < 20 {
                let p = search_report(content, q);
                let head = context + ("SEARCH_RESULT query=`"@ + q + "`"@) + "\n"@;
                text::found_in_either(head, p, p);
                text::found_in_either(head + p, "\n\n"@, p);
            }
        },
        CommandView::Read { start, end } => {
            let range = number::dec(start as nat) + "-"@ + number::dec(end as nat);
            match read_report(content, start, end) {
                Ok(s) => {
                    let head = context + ("READ_RESULT range=L"@ + number::dec(start as nat)
                        + "-L"@ + number::dec(end as nat)) + "\n"@;
                    text::found_in_either(head, s, s);
                    text::found_in_either(head + s, "\n\n"@, s);
                },
                Err(e) => {
                    let head = "(READ "@ + range + " failed: "@;
                    text::found_in_either(head, e, e);
                    text::found_in_either(head + e, ")\n\n"@, e);
                    text::found_in_either(context, head + e + ")\n\n"@, e);
                },
            }
        },
    }
}

proof fn lemma_run_end(s: Seq<char>, i: int, e: int)
    requires
        0 <= i <= e <= s.len(),
        forall|k: int| i <= k < e ==> number::is_digit(#[trigger] s[k]),
        e < s.len() ==> !number::is_digit(s[e]),
    ensures
        number::digit_run(s, i) == e,
    decreases e - i,
{
    if i < e {
        assert(number::is_digit(s[i]));
        lemma_run_end(s, i + 1, e);
    }
}

/// A line that a note names is read with two lines before and behind it, as far as the
/// first line; a range that it names is read as it is.
pub proof fn named_lines_are_read(a: usize, b: usize)
    requires
        1 <= a <= b,
    ensures
        refs_from("L"@ + number::dec(a as nat) + "-"@ + number::dec(b as nat), 0) == seq![(a, b)],
        a <= usize::MAX - 2 ==> refs_from("L"@ + number::dec(a as nat), 0) == seq![
            (
                if a > 2 {
                    (a - 2) as usize
                } else {
                    1usize
                },
                (a + 2) as usize,
            ),
        ],
{
    reveal_strlit("L");
    reveal_strlit("-");
    let x = number::dec(a as nat);
    let y = number::dec(b as nat);
    number::lemma_dec(a as nat);
    number::lemma_dec(b as nat);
    number::number_reads_back(a);
    number::number_reads_back(b);
    assert(number::is_digit(x[0]));
    let s = "L"@ + x;
    let n = s.len() as int;
    assert(s[0] == 'L' && s[1] == x[0]);
    assert(ref_digits(s, 0) == 1);
    assert(starts_ref(s, 0));
    assert forall|k: int| 1 <= k < n implies number::is_digit(#[trigger] s[k]) by {
        assert(s[k] == x[k - 1]);
        assert(number::is_digit(x[k - 1]));
    }
    lemma_run_end(s, 1, n);
    assert(s.subrange(1, n) =~= x);
    assert(refs_from(s, n) =~= Seq::<(usize, usize)>::empty());
    assert(refs_from(s, 0) =~= seq![around(a)]);
    let t = "L"@ + x + "-"@ + y;
    let m = t.len() as int;
    assert(t[0] == 'L' && t[1] == x[0]);
    assert(ref_digits(t, 0) == 1);
    assert(starts_ref(t, 0));
    assert forall|k: int| 1 <= k < n implies number::is_digit(#[trigger] t[k]) by {
        assert(t[k] == x[k - 1]);
        assert(number::is_digit(x[k - 1]));
    }
    assert(t[n] == '-');
    lemma_run_end(t, 1, n);
    assert(t.subrange(1, n) =~= x);
    assert(t[n + 1] == y[0]);
    assert(number::is_digit(y[0]));
    assert forall|k: int| n + 1 <= k < m implies number::is_digit(#[trigger] t[k]) by {
        assert(t[k] == y[k - n - 1]);
        assert(number::is_digit(y[k - n - 1]));
    }
    lemma_run_end(t, n + 1, m);
    assert(t.subrange(n + 1, m) =~= y);
    assert(refs_from(t, m) =~= Seq::<(usize, usize)>::empty());
    assert(refs_from(t, 0) =~= seq![(a, b)]);
}

proof fn lemma_counters(
    content: Seq<char>,
    commands: Seq<CommandView>,
    n: int,
    counters: InspectionCounters,
    context: Seq<char>,
)
    requires
        0 <= n <= commands.len(),
        counters.search_count == 0,
        counters.read_count == 0,
    ensures
        ({
            let (after, more) = after_commands(content, commands, n, counters, context);
            &&& after.search_count <= n && after.search_count <= 20
            &&& after.read_count <= n && after.read_count <= after.max_reads
            &&& after.max_reads == counters.max_reads
        }),
    decreases n,
{
    if n > 0 {
        lemma_counters(content, commands, n - 1, counters, context);
        let (before, more) = after_commands(content, commands, n - 1, counters, context);
        commands_add_and_count(content, commands[n - 1], before, more);
    }
}

proof fn lemma_context_grows(
    content: Seq<char>,
    commands: Seq<CommandView>,
    m: int,
    n: int,
    counters: InspectionCounters,
    context: Seq<char>,
    p: Seq<char>,
)
    requires
        0 <= m <= n <= commands.len(),
        counters.search_count == 0,
        counters.read_count == 0,
        text::has_text(after_commands(content, commands, m, counters, context).1, p),
    ensures
        text::has_text(after_commands(content, commands, n, counters, context).1, p),
    decreases n,
{
    if m < n {
        lemma_context_grows(content, commands, m, n - 1, counters, context, p);
        lemma_counters(content, commands, n - 1, counters, context);
        let (before, more) = after_commands(content, commands, n - 1, counters, context);
        commands_add_and_count(content, commands[n - 1], before, more);
        let all = after_commands(content, commands, n, counters, context).1;
        assert(text::occurs_at(all, more, 0));
        text::found_through(all, more, p);
    }
}

/// Each of the first twenty commands that is a search is run, and what it found is told.
pub proof fn searches_are_run(
    content: Seq<char>,
    commands: Seq<CommandView>,
    i: int,
    counters: InspectionCounters,
    context: Seq<char>,
    q: Seq<char>,
)
    requires
        counters.search_count == 0,
        counters.read_count == 0,
        0 <= i < commands.len(),
        i < 20,
        commands[i] == CommandView::Search(q),
    ensures
        text::has_text(
            after_commands(content, commands, commands.len() as int, counters, context).1,
            search_report(content, q),
        ),
{
    lemma_counters(content, commands, i, counters, context);
    let (before, more) = after_commands(content, commands, i, counters, context);
    commands_add_and_count(content, commands[i], before, more);
    lemma_context_grows(
        content,
        commands,
        i + 1,
        commands.len() as int,
        counters,
        context,
        search_report(content, q),
    );
}

/// Each of the first commands that is a read, up to as many as are allowed, is run, and what
/// it found is told.
pub proof fn allowed_reads_are_run(
    content: Seq<char>,
    commands: Seq<CommandView>,
    i: int,
    counters: InspectionCounters,
    context: Seq<char>,
    start: usize,
    end: usize,
)
    requires
        counters.search_count == 0,
        counters.read_count == 0,
        0 <= i < commands.len(),
        i < counters.max_reads,
        commands[i] == (CommandView::Read { start, end }),
    ensures
        text::has_text(
            after_commands(content, commands, commands.len() as int, counters, context).1,
            match read_report(content, start, end) {
                Ok(s) => s,
                Err(e) => e,
            },
        ),
{
    lemma_counters(content, commands, i, counters, context);
    let (before, more) = after_commands(content, commands, i, counters, context);
    commands_add_and_count(content, commands[i], before, more);
    lemma_context_grows(
        content,
        commands,
        i + 1,
        commands.len() as int,
        counters,
        context,
        match read_report(content, start, end) {
            Ok(s) => s,
            Err(e) => e,
        },
    );
}

/// The commands that were asked for come first; behind them, once each, come the reads of the
/// lines that the notes name.
pub proof fn notes_lead_to_reads(
    commands: Seq<CommandView>,
    notes: Seq<Seq<char>>,
    n: int,
    i: int,
    k: int,
)
    requires
        0 <= n <= notes.len(),
    ensures
        commands.len() <= with_note_reads(commands, notes, n).len(),
        with_note_reads(commands, notes, n).take(commands.len() as int) == commands,
        0 <= i < n && 0 <= k < reads_of(refs_from(notes[i], 0)).len() ==> with_note_reads(
            commands,
            notes,
            n,
        ).contains(reads_of(refs_from(notes[i], 0))[k]),
    decreases n,
{
    let all = with_note_reads(commands, notes, n);
    if n <= 0 {
        assert(commands.take(commands.len() as int) =~= commands);
    } else {
        notes_lead_to_reads(commands, notes, n - 1, i, k);
        let before = with_note_reads(commands, notes, n - 1);
        let reads = reads_of(refs_from(notes[n - 1], 0));
        items_are_added_once(before, reads, reads.len() as int);
        assert(all.take(commands.len() as int) =~= all.take(before.len() as int).take(
            commands.len() as int,
        ));
        if 0 <= i < n - 1 && 0 <= k < reads_of(refs_from(notes[i], 0)).len() {
            let x = reads_of(refs_from(notes[i], 0))[k];
            let j = choose|j: int| 0 <= j < before.len() && before[j] == x;
            assert(all.take(before.len() as int)[j] == all[j]);
        } else if i == n - 1 && 0 <= k < reads.len() {
            assert(all.contains(reads[k]));
        }
    }
}

} // verus!
