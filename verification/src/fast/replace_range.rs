//! Replacing a range of lines.
use vstd::prelude::*;

use super::feedback::EditFeedback;
use super::lines;
use super::lines::{
    join_with_trailing_nl, split_preserving_trailing_nl, split_replacement, validate_range,
};
use super::revisions;
use super::revisions::{copy_option, RecordArgs, RevisionStore};
use crate::args;
use crate::args::{number_required, read_field, text_required, ArgValue, ArgView};
use crate::bytes;
use crate::number;
use crate::number::dec_text;
use crate::text;
use crate::text::same_text;
use crate::tool;
use crate::tool::{ToolResult, ToolView};

verus! {

/// The length of the longest common subsequence of `old` from `i` on and `new`
/// from `j` on.
pub open spec fn lcs(old: Seq<Seq<char>>, new: Seq<Seq<char>>, i: int, j: int) -> nat
    decreases (old.len() - i) + (new.len() - j),
    when i <= old.len() && j <= new.len()
{
    if i >= old.len() || j >= new.len() {
        0
    } else if old[i] == new[j] {
        lcs(old, new, i + 1, j + 1) + 1
    } else {
        let a = lcs(old, new, i + 1, j);
        let b = lcs(old, new, i, j + 1);
        if a >= b {
            a
        } else {
            b
        }
    }
}

proof fn lemma_lcs_bound(old: Seq<Seq<char>>, new: Seq<Seq<char>>, i: int, j: int)
    requires
        0 <= i <= old.len(),
        0 <= j <= new.len(),
    ensures
        lcs(old, new, i, j) <= old.len() - i,
    decreases (old.len() - i) + (new.len() - j),
{
    if i < old.len() && j < new.len() {
        lemma_lcs_bound(old, new, i + 1, j + 1);
        lemma_lcs_bound(old, new, i + 1, j);
        lemma_lcs_bound(old, new, i, j + 1);
    }
}

/// One step of a diff.
pub enum DiffStep {
    Keep(Seq<char>),
    Add(Seq<char>),
    Remove(Seq<char>),
}

/// The steps that turn `old` from `i` on into `new` from `j` on.
pub open spec fn diff_steps(old: Seq<Seq<char>>, new: Seq<Seq<char>>, i: int, j: int) -> Seq<DiffStep>
    decreases (old.len() - i) + (new.len() - j),
    when i <= old.len() && j <= new.len()
{
    if i >= old.len() && j >= new.len() {
        Seq::empty()
    } else if i < old.len() && j < new.len() && old[i] == new[j] {
        seq![DiffStep::Keep(old[i])] + diff_steps(old, new, i + 1, j + 1)
    } else if j < new.len() && (i >= old.len() || lcs(old, new, i, j + 1) >= lcs(
        old,
        new,
        i + 1,
        j,
    )) {
        seq![DiffStep::Add(new[j])] + diff_steps(old, new, i, j + 1)
    } else {
        seq![DiffStep::Remove(old[i])] + diff_steps(old, new, i + 1, j)
    }
}

/// The line that shows a step; one that keeps a line is not shown.
pub open spec fn step_line(step: DiffStep) -> Seq<char> {
    match step {
        DiffStep::Keep(_) => Seq::empty(),
        DiffStep::Add(l) => "+"@ + l + "\n"@,
        DiffStep::Remove(l) => "-"@ + l + "\n"@,
    }
}

/// The lines that show the steps.
pub open spec fn steps_text(steps: Seq<DiffStep>) -> Seq<char>
    decreases steps.len(),
{
    if steps.len() == 0 {
        Seq::empty()
    } else {
        step_line(steps[0]) + steps_text(steps.drop_first())
    }
}

/// The lines by which `new` differs from `old`.
pub open spec fn diff_text(old: Seq<Seq<char>>, new: Seq<Seq<char>>) -> Seq<char> {
    steps_text(diff_steps(old, new, 0, 0))
}

proof fn lemma_steps_text(step: DiffStep, rest: Seq<DiffStep>)
    ensures
        steps_text(seq![step] + rest) == step_line(step) + steps_text(rest),
{
    let all = seq![step] + rest;
    assert(all.drop_first() =~= rest);
    assert(all[0] == step);
}

/// The row of the table of lengths for `old` from `i` on, behind the last column
/// first.
fn lcs_row(old: &[String], new: &[String], i: usize, below: &Vec<usize>) -> (r: Vec<usize>)
    requires
        i < old@.len(),
        below@.len() == new@.len() + 1,
        forall|t: int|
            0 <= t <= new@.len() ==> #[trigger] below@[t] == lcs(
                old.deep_view(),
                new.deep_view(),
                i + 1,
                new@.len() - t,
            ),
    ensures
        r@.len() == new@.len() + 1,
        forall|t: int|
            0 <= t <= new@.len() ==> #[trigger] r@[t] == lcs(
                old.deep_view(),
                new.deep_view(),
                i as int,
                new@.len() - t,
            ),
{
    let ghost ov = old.deep_view();
    let ghost nv = new.deep_view();
    let m: usize = new.len();
    let n: usize = old.len();
    let mut row: Vec<usize> = Vec::new();
    row.push(0);
    let mut j: usize = m;
    proof {
        assert(n == ov.len());
        assert(m == nv.len());
    }
    while j > 0
        invariant
            j <= m == new@.len() == nv.len(),
            i < n == old@.len() == ov.len(),
            ov == old.deep_view(),
            nv == new.deep_view(),
            below@.len() == m + 1,
            forall|t: int|
                0 <= t <= m ==> #[trigger] below@[t] == lcs(ov, nv, i + 1, m - t),
            row@.len() == m - j + 1,
            forall|t: int|
                0 <= t <= m - j ==> #[trigger] row@[t] == lcs(ov, nv, i as int, m - t),
        decreases j,
    {
        let c: usize = j - 1;
        let t: usize = m - j;
        proof {
            assert(row@[t as int] == lcs(ov, nv, i as int, m - t));
            assert(below@[t as int] == lcs(ov, nv, i + 1, m - t));
            assert(below@[t + 1] == lcs(ov, nv, i + 1, m - (t + 1)));
            lemma_lcs_bound(ov, nv, i + 1, j as int);
        }
        let x: usize = if same_text(&old[i], &new[c]) {
            below[t] + 1
        } else if below[t + 1] >= row[t] {
            below[t + 1]
        } else {
            row[t]
        };
        row.push(x);
        j -= 1;
    }
    row
}

/// The table of lengths, behind the last row and the last column first.
fn lcs_table(old: &[String], new: &[String]) -> (r: Vec<Vec<usize>>)
    ensures
        r@.len() == old@.len() + 1,
        forall|k: int| 0 <= k <= old@.len() ==> (#[trigger] r@[k])@.len() == new@.len() + 1,
        forall|k: int, t: int|
            0 <= k <= old@.len() && 0 <= t <= new@.len() ==> #[trigger] r@[k]@[t] == lcs(
                old.deep_view(),
                new.deep_view(),
                old@.len() - k,
                new@.len() - t,
            ),
{
    let ghost ov = old.deep_view();
    let ghost nv = new.deep_view();
    let n: usize = old.len();
    let m: usize = new.len();
    proof {
        assert(n == ov.len());
        assert(m == nv.len());
    }
    let mut last: Vec<usize> = Vec::new();
    let mut t: usize = 0;
    last.push(0);
    while t < m
        invariant
            t <= m,
            last@.len() == t + 1,
            forall|s: int| 0 <= s <= t ==> #[trigger] last@[s] == 0,
        decreases m - t,
    {
        last.push(0);
        t += 1;
    }
    let mut table: Vec<Vec<usize>> = Vec::new();
    table.push(last);
    let mut i: usize = n;
    while i > 0
        invariant
            i <= n == old@.len() == ov.len(),
            m == new@.len() == nv.len(),
            ov == old.deep_view(),
            nv == new.deep_view(),
            table@.len() == n - i + 1,
            forall|k: int| 0 <= k <= n - i ==> (#[trigger] table@[k])@.len() == m + 1,
            forall|k: int, t: int|
                0 <= k <= n - i && 0 <= t <= m ==> #[trigger] table@[k]@[t] == lcs(
                    ov,
                    nv,
                    n - k,
                    m - t,
                ),
        decreases i,
    {
        let k: usize = n - i;
        let row = lcs_row(old, new, i - 1, &table[k]);
        table.push(row);
        i -= 1;
    }
    table
}

/// The lines by which `new` differs from `old`: `-` before those that are gone,
/// `+` before those that came.
pub fn render_applied_diff(old: &[String], new: &[String]) -> (r: String)
    ensures
        r@ == diff_text(old.deep_view(), new.deep_view()),
{
    let ghost ov = old.deep_view();
    let ghost nv = new.deep_view();
    let n: usize = old.len();
    let m: usize = new.len();
    proof {
        assert(n == ov.len());
        assert(m == nv.len());
    }
    let table = lcs_table(old, new);
    let mut out = String::new();
    let mut i: usize = 0;
    let mut j: usize = 0;
    proof {
        assert(out@ + diff_text(ov, nv) =~= diff_text(ov, nv));
    }
    while i < n || j < m
        invariant
            i <= n == old@.len() == ov.len(),
            j <= m == new@.len() == nv.len(),
            ov == old.deep_view(),
            nv == new.deep_view(),
            table@.len() == n + 1,
            forall|k: int| 0 <= k <= n ==> (#[trigger] table@[k])@.len() == m + 1,
            forall|k: int, t: int|
                0 <= k <= n && 0 <= t <= m ==> #[trigger] table@[k]@[t] == lcs(
                    ov,
                    nv,
                    n - k,
                    m - t,
                ),
            out@ + steps_text(diff_steps(ov, nv, i as int, j as int)) == diff_text(ov, nv),
        decreases (n - i) + (m - j),
    {
        let ghost o = out@;
        if i < n && j < m && same_text(&old[i], &new[j]) {
            proof {
                lemma_steps_text(
                    DiffStep::Keep(ov[i as int]),
                    diff_steps(ov, nv, i + 1, j + 1),
                );
                assert(o + steps_text(diff_steps(ov, nv, i as int, j as int)) =~= o + steps_text(
                    diff_steps(ov, nv, i + 1, j + 1),
                ));
            }
            i += 1;
            j += 1;
        } else {
            let adds = if j >= m {
                false
            } else if i == n {
                true
            } else {
                proof {
                    let k = n - i;
                    let t = m - j;
                    assert(table@[k]@[t - 1] == lcs(ov, nv, n - k, m - (t - 1)));
                    assert(table@[k - 1]@[t] == lcs(ov, nv, n - (k - 1), m - t));
                    assert(table@[k]@.len() == m + 1);
                    assert(table@[k - 1]@.len() == m + 1);
                }
                table[n - i][m - j - 1] >= table[n - i - 1][m - j]
            };
            if adds {
                out.append(&"+".to_owned().concat(&new[j]).concat("\n"));
                proof {
                    lemma_steps_text(
                        DiffStep::Add(nv[j as int]),
                        diff_steps(ov, nv, i as int, j + 1),
                    );
                    assert(out@ + steps_text(diff_steps(ov, nv, i as int, j + 1)) =~= o
                        + steps_text(diff_steps(ov, nv, i as int, j as int)));
                }
                j += 1;
            } else {
                out.append(&"-".to_owned().concat(&old[i]).concat("\n"));
                proof {
                    lemma_steps_text(
                        DiffStep::Remove(ov[i as int]),
                        diff_steps(ov, nv, i + 1, j as int),
                    );
                    assert(out@ + steps_text(diff_steps(ov, nv, i + 1, j as int)) =~= o
                        + steps_text(diff_steps(ov, nv, i as int, j as int)));
                }
                i += 1;
            }
        }
    }
    proof {
        assert(diff_steps(ov, nv, i as int, j as int) =~= Seq::<DiffStep>::empty());
        assert(out@ + Seq::<char>::empty() =~= out@);
    }
    out
}

/// The lines that the steps start from.
pub open spec fn old_side(steps: Seq<DiffStep>) -> Seq<Seq<char>>
    decreases steps.len(),
{
    if steps.len() == 0 {
        Seq::empty()
    } else {
        match steps[0] {
            DiffStep::Keep(l) => seq![l] + old_side(steps.drop_first()),
            DiffStep::Remove(l) => seq![l] + old_side(steps.drop_first()),
            DiffStep::Add(_) => old_side(steps.drop_first()),
        }
    }
}

/// The lines that the steps lead to.
pub open spec fn new_side(steps: Seq<DiffStep>) -> Seq<Seq<char>>
    decreases steps.len(),
{
    if steps.len() == 0 {
        Seq::empty()
    } else {
        match steps[0] {
            DiffStep::Keep(l) => seq![l] + new_side(steps.drop_first()),
            DiffStep::Add(l) => seq![l] + new_side(steps.drop_first()),
            DiffStep::Remove(_) => new_side(steps.drop_first()),
        }
    }
}

/// How many lines the steps keep.
pub open spec fn kept(steps: Seq<DiffStep>) -> nat
    decreases steps.len(),
{
    if steps.len() == 0 {
        0
    } else {
        kept(steps.drop_first()) + (if steps[0] is Keep {
            1nat
        } else {
            0nat
        })
    }
}

/// The steps of a diff start from all old lines and lead to all new lines, in
/// their order.
pub proof fn diff_is_complete(old: Seq<Seq<char>>, new: Seq<Seq<char>>, i: int, j: int)
    requires
        0 <= i <= old.len(),
        0 <= j <= new.len(),
    ensures
        old_side(diff_steps(old, new, i, j)) == old.skip(i),
        new_side(diff_steps(old, new, i, j)) == new.skip(j),
        kept(diff_steps(old, new, i, j)) == lcs(old, new, i, j),
    decreases (old.len() - i) + (new.len() - j),
{
    let steps = diff_steps(old, new, i, j);
    if i >= old.len() && j >= new.len() {
        assert(old_side(steps) =~= old.skip(i));
        assert(new_side(steps) =~= new.skip(j));
    } else if i < old.len() && j < new.len() && old[i] == new[j] {
        diff_is_complete(old, new, i + 1, j + 1);
        assert(steps.drop_first() =~= diff_steps(old, new, i + 1, j + 1));
        assert(old_side(steps) =~= old.skip(i));
        assert(new_side(steps) =~= new.skip(j));
    } else if j < new.len() && (i >= old.len() || lcs(old, new, i, j + 1) >= lcs(
        old,
        new,
        i + 1,
        j,
    )) {
        diff_is_complete(old, new, i, j + 1);
        assert(steps.drop_first() =~= diff_steps(old, new, i, j + 1));
        assert(old_side(steps) =~= old.skip(i));
        assert(new_side(steps) =~= new.skip(j));
    } else {
        diff_is_complete(old, new, i + 1, j);
        assert(steps.drop_first() =~= diff_steps(old, new, i + 1, j));
        assert(old_side(steps) =~= old.skip(i));
        assert(new_side(steps) =~= new.skip(j));
    }
}

/// Whether the pairs are indices of equal lines of `old` from `i` on and `new` from
/// `j` on, in ascending order on both sides.
pub open spec fn is_common(
    old: Seq<Seq<char>>,
    new: Seq<Seq<char>>,
    pairs: Seq<(int, int)>,
    i: int,
    j: int,
) -> bool {
    &&& forall|k: int|
        0 <= k < pairs.len() ==> i <= (#[trigger] pairs[k]).0 < old.len() && j <= pairs[k].1
            < new.len() && old[pairs[k].0] == new[pairs[k].1]
    &&& forall|k: int, l: int|
        0 <= k < l < pairs.len() ==> (#[trigger] pairs[k]).0 < (#[trigger] pairs[l]).0
            && pairs[k].1 < pairs[l].1
}

proof fn lemma_lcs_longest(
    old: Seq<Seq<char>>,
    new: Seq<Seq<char>>,
    pairs: Seq<(int, int)>,
    i: int,
    j: int,
)
    requires
        0 <= i <= old.len(),
        0 <= j <= new.len(),
        is_common(old, new, pairs, i, j),
    ensures
        pairs.len() <= lcs(old, new, i, j),
    decreases (old.len() - i) + (new.len() - j),
{
    if pairs.len() > 0 {
        let first = pairs[0];
        if old[i] == new[j] {
            let rest = pairs.drop_first();
            assert forall|k: int| 0 <= k < rest.len() implies i + 1 <= (#[trigger] rest[k]).0
                < old.len() && j + 1 <= rest[k].1 < new.len() && old[rest[k].0]
                == new[rest[k].1] by {
                assert(rest[k] == pairs[k + 1]);
                assert(pairs[0].0 < pairs[k + 1].0);
            }
            lemma_lcs_longest(old, new, rest, i + 1, j + 1);
        } else if first.0 > i {
            assert forall|k: int| 0 <= k < pairs.len() implies i + 1 <= (
            #[trigger] pairs[k]).0 by {
                if k > 0 {
                    assert(pairs[0].0 < pairs[k].0);
                }
            }
            lemma_lcs_longest(old, new, pairs, i + 1, j);
        } else {
            assert forall|k: int| 0 <= k < pairs.len() implies j + 1 <= (
            #[trigger] pairs[k]).1 by {
                if k > 0 {
                    assert(pairs[0].1 < pairs[k].1);
                }
            }
            lemma_lcs_longest(old, new, pairs, i, j + 1);
        }
    }
}

/// A diff keeps as many lines as can be kept: no lines that both sides have in the
/// same order are more.
pub proof fn diff_keeps_the_most(
    old: Seq<Seq<char>>,
    new: Seq<Seq<char>>,
    pairs: Seq<(int, int)>,
)
    requires
        is_common(old, new, pairs, 0, 0),
    ensures
        pairs.len() <= kept(diff_steps(old, new, 0, 0)),
{
    diff_is_complete(old, new, 0, 0);
    lemma_lcs_longest(old, new, pairs, 0, 0);
}

/// What a call asks for: the lines `start..=end` of a file are to be replaced by
/// `content`.
#[derive(Debug)]
pub struct RangeRequest {
    pub path: String,
    pub start: usize,
    pub end: usize,
    pub content: String,
}

/// A request over texts.
pub struct RangeView {
    pub path: Seq<char>,
    pub start: usize,
    pub end: usize,
    pub content: Seq<char>,
}

impl DeepView for RangeRequest {
    type V = RangeView;

    open spec fn deep_view(&self) -> RangeView {
        RangeView {
            path: self.path@,
            start: self.start,
            end: self.end,
            content: self.content@,
        }
    }
}

/// The request that four arguments make; the first that is missing or of another
/// kind is told.
pub open spec fn range_request(path: ArgView, start: ArgView, end: ArgView, content: ArgView) -> Result<
    RangeView,
    Seq<char>,
> {
    match args::required_text(path, "path"@) {
        Err(e) => Err(e),
        Ok(p) => match args::required_number(start, "start"@) {
            Err(e) => Err(e),
            Ok(a) => match args::required_number(end, "end"@) {
                Err(e) => Err(e),
                Ok(b) => match args::required_text(content, "content"@) {
                    Err(e) => Err(e),
                    Ok(c) => Ok(
                        RangeView { path: p, start: a as usize, end: b as usize, content: c },
                    ),
                },
            },
        },
    }
}

/// Makes a request of four arguments.
pub fn make_range_request(path: ArgValue, start: ArgValue, end: ArgValue, content: ArgValue) -> (r:
    Result<RangeRequest, String>)
    ensures
        text::result_view(r) == range_request(
            path.deep_view(),
            start.deep_view(),
            end.deep_view(),
            content.deep_view(),
        ),
{
    match text_required(path, "path") {
        Err(e) => Err(e),
        Ok(p) => match number_required(start, "start") {
            Err(e) => Err(e),
            Ok(a) => match number_required(end, "end") {
                Err(e) => Err(e),
                Ok(b) => match text_required(content, "content") {
                    Err(e) => Err(e),
                    Ok(c) => Ok(
                        RangeRequest { path: p, start: a as usize, end: b as usize, content: c },
                    ),
                },
            },
        },
    }
}

/// Reads a request from the arguments of a call.
pub fn read_range_request(args: &serde_json::Value) -> (r: Result<RangeRequest, String>)
    ensures
        text::result_view(r) == range_request(
            args::field(*args, "path"@),
            args::field(*args, "start"@),
            args::field(*args, "end"@),
            args::field(*args, "content"@),
        ),
{
    make_range_request(
        read_field(args, "path"),
        read_field(args, "start"),
        read_field(args, "end"),
        read_field(args, "content"),
    )
}

/// What an edit makes of a file.
#[derive(Debug)]
pub struct LineEdit {
    pub new_content: String,
    pub added: usize,
    pub removed: usize,
    /// The lines that came and went.
    pub diff: String,
}

/// An edit over texts.
pub struct LineEditView {
    pub new_content: Seq<char>,
    pub added: int,
    pub removed: int,
    pub diff: Seq<char>,
}

impl DeepView for LineEdit {
    type V = LineEditView;

    open spec fn deep_view(&self) -> LineEditView {
        LineEditView {
            new_content: self.new_content@,
            added: self.added as int,
            removed: self.removed as int,
            diff: self.diff@,
        }
    }
}

/// The lines that take the place of others: none for an empty text.
pub open spec fn new_lines(content: Seq<char>) -> Seq<Seq<char>> {
    if content.len() == 0 {
        Seq::empty()
    } else {
        lines::pieces(lines::body(content))
    }
}

/// The lines `ls` with the lines `start..=end` replaced by `new`.
pub open spec fn spliced(ls: Seq<Seq<char>>, start: int, end: int, new: Seq<Seq<char>>) -> Seq<
    Seq<char>,
> {
    ls.take(start - 1) + new + ls.skip(end)
}

/// Whether a text ends in a newline.
pub open spec fn ends_line(s: Seq<char>) -> bool {
    s.len() > 0 && s.last() == '\n'
}

/// A file of the lines `ls`. One that lost all its lines is empty.
pub open spec fn rebuilt(ls: Seq<Seq<char>>, trailing: bool) -> Seq<char> {
    if ls.len() == 0 {
        Seq::empty()
    } else {
        lines::file_text(ls, trailing)
    }
}

/// What the request makes of a file with the text `original`; an edit that
/// changes nothing is refused.
pub open spec fn replace_result(original: Seq<char>, req: RangeView) -> Result<
    LineEditView,
    Seq<char>,
> {
    let ls = lines::pieces(lines::body(original));
    let new = new_lines(req.content);
    match lines::range_verdict(req.start, req.end, ls.len() as usize) {
        Err(e) => Err("replace_range: "@ + e),
        Ok(_) => {
            let text = rebuilt(
                spliced(ls, req.start as int, req.end as int, new),
                ends_line(original),
            );
            if text == original {
                Err(
                    "replace_range: lines L"@ + number::dec(req.start as nat) + "-"@
                        + number::dec(req.end as nat) + " of "@ + req.path
                        + " already match the content you provided — nothing changed. The edit is already in place; re-read the file and look elsewhere if something still isn't right."@,
                )
            } else {
                Ok(
                    LineEditView {
                        new_content: text,
                        added: new.len() as int,
                        removed: req.end - req.start + 1,
                        diff: diff_text(
                            ls.subrange(req.start - 1, req.end as int),
                            new,
                        ),
                    },
                )
            }
        },
    }
}

/// The lines from index `from` up to index `to` once more.
pub fn copy_lines(v: &Vec<String>, from: usize, to: usize) -> (r: Vec<String>)
    requires
        from <= to <= v@.len(),
    ensures
        r.deep_view() == v.deep_view().subrange(from as int, to as int),
{
    let ghost vv = v.deep_view();
    let mut out: Vec<String> = Vec::new();
    let mut i: usize = from;
    proof {
        assert(out.deep_view() =~= vv.subrange(from as int, from as int));
    }
    while i < to
        invariant
            from <= i <= to <= v@.len() == vv.len(),
            vv == v.deep_view(),
            out.deep_view() == vv.subrange(from as int, i as int),
        decreases to - i,
    {
        let ghost o = out.deep_view();
        out.push(v[i].clone());
        proof {
            assert(out.deep_view() =~= o.push(vv[i as int]));
            assert(vv.subrange(from as int, i + 1) =~= o.push(vv[i as int]));
        }
        i += 1;
    }
    out
}

/// Joins lines to a file. One that lost all its lines is empty.
pub fn rebuild(ls: &Vec<String>, trailing: bool) -> (r: String)
    ensures
        r@ == rebuilt(ls.deep_view(), trailing),
{
    proof {
        assert(ls@.len() == ls.deep_view().len());
    }
    if ls.len() == 0 {
        return String::new();
    }
    join_with_trailing_nl(ls.as_slice(), trailing)
}

/// Works out what the request makes of a file.
pub fn plan_replace(original: &str, req: &RangeRequest) -> (r: Result<LineEdit, String>)
    ensures
        text::result_view(r) == replace_result(original@, req.deep_view()),
{
    let (old_lines, had_nl) = split_preserving_trailing_nl(original);
    let ghost ls = old_lines.deep_view();
    let count: usize = old_lines.len();
    proof {
        assert(count == ls.len());
    }
    match validate_range(req.start, req.end, count) {
        Err(e) => {
            return Err("replace_range: ".to_owned().concat(&e));
        },
        Ok(()) => {},
    }
    let mut new = if req.content.as_str().is_empty() {
        Vec::new()
    } else {
        split_replacement(&req.content)
    };
    let added: usize = new.len();
    proof {
        assert(new.deep_view() =~= new_lines(req.content@));
        assert(added == new.deep_view().len());
    }
    let gone = copy_lines(&old_lines, req.start - 1, req.end);
    let diff = render_applied_diff(gone.as_slice(), new.as_slice());
    let mut all = copy_lines(&old_lines, 0, req.start - 1);
    let mut tail = copy_lines(&old_lines, req.end, count);
    let ghost hv = all.deep_view();
    let ghost nv = new.deep_view();
    let ghost tv = tail.deep_view();
    all.append(&mut new);
    all.append(&mut tail);
    proof {
        assert(all.deep_view() =~= hv + nv + tv);
        assert(hv =~= ls.take(req.start - 1));
        assert(tv =~= ls.skip(req.end as int));
    }
    let new_content = rebuild(&all, had_nl);
    if same_text(&new_content, original) {
        return Err(
            "replace_range: lines L".to_owned().concat(&dec_text(req.start)).concat("-").concat(
                &dec_text(req.end),
            ).concat(" of ").concat(&req.path).concat(
                " already match the content you provided — nothing changed. The edit is already in place; re-read the file and look elsewhere if something still isn't right.",
            ),
        );
    }
    Ok(LineEdit { new_content, added, removed: req.end - req.start + 1, diff })
}

/// What is recorded of an edit.
pub open spec fn edit_args(
    number: usize,
    operation: Seq<char>,
    label: Seq<char>,
    range: Option<(usize, usize)>,
    payload: Seq<char>,
    edit: LineEditView,
    feedback: EditFeedback,
) -> revisions::RevisionView {
    revisions::RevisionView {
        number,
        operation,
        label,
        range,
        payload: Some(revisions::stored_payload(payload)),
        added: edit.added as usize,
        removed: edit.removed as usize,
        ast_ok: feedback.ast_ok,
        ast_error: feedback.ast_error.deep_view(),
        file_errors: feedback.file_errors,
        project_errors: feedback.project_errors,
        reverted: false,
        content: edit.new_content,
    }
}

/// A file before an edit: where it has no history, its text is the first revision.
pub open spec fn file_before(store: &RevisionStore, path: Seq<char>, original: Seq<char>) ->
    revisions::FileView {
    if store.knows(path) {
        store.file(path)
    } else {
        revisions::fresh_file(original)
    }
}

/// Records an edit of a file and returns the number of the new revision. Where the
/// file had no revisions, its text before the edit becomes the first.
pub fn record_edit(
    store: &mut RevisionStore,
    path: &str,
    original: &str,
    operation: &str,
    label: &str,
    range: Option<(usize, usize)>,
    payload: &str,
    edit: &LineEdit,
    feedback: &EditFeedback,
) -> (r: Result<usize, String>)
    requires
        old(store).wf(),
        old(store).last_number(path@) < usize::MAX,
    ensures
        r matches Ok(n) && n == file_before(old(store), path@, original@).last + 1
            && final(store).updated(
            old(store),
            path@,
            revisions::with_edit(
                file_before(old(store), path@, original@),
                edit_args(
                    n,
                    operation@,
                    label@,
                    range,
                    payload@,
                    edit.deep_view(),
                    *feedback,
                ),
                old(store).live_limit(),
            ),
        ),
{
    let ghost before = *store;
    match store.ensure_pristine(path, original) {
        Err(e) => {
            return Err(e);
        },
        Ok(()) => {},
    }
    let args = RecordArgs {
        operation,
        label,
        range,
        payload: Some(payload.to_owned()),
        added: edit.added,
        removed: edit.removed,
        ast_ok: feedback.ast_ok,
        ast_error: copy_option(&feedback.ast_error),
        file_errors: feedback.file_errors,
        project_errors: feedback.project_errors,
    };
    store.record(path, &edit.new_content, args)
}

/// What is answered to an edit of a range of lines.
pub open spec fn replace_report(
    req: RangeView,
    rev: usize,
    edit: LineEditView,
    feedback: Seq<char>,
) -> ToolView {
    tool::ok_view(
        "replace_range "@ + req.path + " L"@ + number::dec(req.start as nat) + "-"@ + number::dec(
            req.end as nat,
        ) + ": rev_"@ + number::dec(rev as nat) + " applied (+"@ + number::dec(edit.added as nat)
            + " -"@ + number::dec(edit.removed as nat) + ")"@ + (if edit.diff.len() > 0 {
            "\nApplied diff (every '-' line is now GONE from the file):\n"@ + edit.diff
                + "If this is not exactly the edit you intended, call revert."@
        } else {
            Seq::empty()
        }) + feedback,
    )
}

/// Answers an edit of a range of lines. `feedback` is what is told of the file
/// behind it.
pub fn report_replace(req: &RangeRequest, rev: usize, edit: &LineEdit, feedback: &str) -> (r:
    ToolResult)
    ensures
        r.deep_view() == replace_report(req.deep_view(), rev, edit.deep_view(), feedback@),
{
    let diff = if edit.diff.as_str().is_empty() {
        String::new()
    } else {
        "\nApplied diff (every '-' line is now GONE from the file):\n".to_owned().concat(
            &edit.diff,
        ).concat("If this is not exactly the edit you intended, call revert.")
    };
    ToolResult::ok(
        "replace_range ".to_owned().concat(&req.path).concat(" L").concat(
            &dec_text(req.start),
        ).concat("-").concat(&dec_text(req.end)).concat(": rev_").concat(&dec_text(rev)).concat(
            " applied (+",
        ).concat(&dec_text(edit.added)).concat(" -").concat(&dec_text(edit.removed)).concat(
            ")",
        ).concat(&diff).concat(feedback),
    )
}

/// The label of a replacement.
pub fn replace_label(start: usize, end: usize) -> (r: String)
    ensures
        r@ == "replace_range L"@ + number::dec(start as nat) + "-"@ + number::dec(end as nat),
{
    "replace_range L".to_owned().concat(&dec_text(start)).concat("-").concat(&dec_text(end))
}

/// A replacement leaves every line outside its range as it was, and puts its own
/// lines into the range.
pub proof fn replace_touches_only_its_range(
    ls: Seq<Seq<char>>,
    start: int,
    end: int,
    new: Seq<Seq<char>>,
)
    requires
        1 <= start <= end <= ls.len(),
    ensures
        spliced(ls, start, end, new).len() == ls.len() - (end - start + 1) + new.len(),
        spliced(ls, start, end, new).take(start - 1) == ls.take(start - 1),
        spliced(ls, start, end, new).subrange(start - 1, start - 1 + new.len()) == new,
        spliced(ls, start, end, new).skip(start - 1 + new.len()) == ls.skip(end),
{
    let r = spliced(ls, start, end, new);
    assert(r.take(start - 1) =~= ls.take(start - 1));
    assert(r.subrange(start - 1, start - 1 + new.len()) =~= new);
    assert(r.skip(start - 1 + new.len()) =~= ls.skip(end));
}

/// The file after a replacement reads as the spliced lines, and ends in a newline
/// where the file before it did.
pub proof fn replaced_file_reads_as_spliced(original: Seq<char>, req: RangeView)
    requires
        lines::pieces(lines::body(original)).len() <= usize::MAX,
        replace_result(original, req) is Ok,
        lines::shows_all_lines(
            spliced(
                lines::pieces(lines::body(original)),
                req.start as int,
                req.end as int,
                new_lines(req.content),
            ),
            ends_line(original),
        ),
    ensures
        ({
            let out = replace_result(original, req)->Ok_0.new_content;
            &&& lines::pieces(lines::body(out)) == spliced(
                lines::pieces(lines::body(original)),
                req.start as int,
                req.end as int,
                new_lines(req.content),
            )
            &&& ends_line(out) == ends_line(original)
        }),
{
    let ls = lines::pieces(lines::body(original));
    let new = new_lines(req.content);
    let r = spliced(ls, req.start as int, req.end as int, new);
    lines::lines_hold_no_newline(original);
    lines::lines_hold_no_newline(req.content);
    assert(1 <= req.start <= req.end <= ls.len());
    assert forall|k: int, j: int| 0 <= k < r.len() && 0 <= j < r[k].len() implies #[trigger] r[k][j]
        != '\n' by {
        if k < req.start - 1 {
            assert(r[k] == ls[k]);
            assert(ls[k][j] != '\n');
        } else if k < req.start - 1 + new.len() {
            assert(r[k] == new[k - (req.start - 1)]);
            assert(new[k - (req.start - 1)][j] != '\n');
        } else {
            let m = k - (req.start - 1) - new.len() + req.end;
            assert(r[k] == ls[m]);
            assert(ls[m][j] != '\n');
        }
    }
    lines::join_then_split(r, ends_line(original));
}

/// Replacing lines puts the given content in their place, character for character, and
/// touches nothing else. The file is that of the lines before the range, in it and
/// behind it; the content goes in as the lines that, each with a newline behind it, are
/// the content with a newline at its end, and an empty content as no line at all. An
/// edit that changes nothing is refused; else the file is that of the lines before the
/// range, the new ones and those behind, and as many lines are counted as added and as
/// removed as came and went.
pub proof fn replaced_lines_give_way(
    before: Seq<Seq<char>>,
    gone: Seq<Seq<char>>,
    after: Seq<Seq<char>>,
    trailing: bool,
    req: RangeView,
)
    requires
        gone.len() > 0,
        (before + gone + after).len() <= usize::MAX,
        lines::without_newlines(before + gone + after),
        lines::shows_all_lines(before + gone + after, trailing),
        req.start == before.len() + 1,
        req.end == before.len() + gone.len(),
    ensures
        exists|new: Seq<Seq<char>>|
            {
                let end = if trailing {
                    "\n"@
                } else {
                    Seq::empty()
                };
                let original = text::join(before + gone + after, "\n"@) + end;
                let out = if (before + new + after).len() == 0 {
                    Seq::empty()
                } else {
                    text::join(before + new + after, "\n"@) + end
                };
                &&& lines::without_newlines(new)
                &&& #[trigger] text::with_newlines(new) == (if req.content.len() == 0
                    || req.content.last() == '\n' {
                    req.content
                } else {
                    req.content.push('\n')
                })
                &&& out == original ==> replace_result(original, req) is Err
                &&& out != original ==> replace_result(original, req) == Ok::<
                    LineEditView,
                    Seq<char>,
                >(
                    LineEditView {
                        new_content: out,
                        added: new.len() as int,
                        removed: gone.len() as int,
                        diff: diff_text(gone, new),
                    },
                )
            },
{
    let end = if trailing {
        "\n"@
    } else {
        Seq::empty()
    };
    let all = before + gone + after;
    let original = text::join(all, "\n"@) + end;
    let new = new_lines(req.content);
    lines::content_lines_write_back(req.content);
    lines::lines_hold_no_newline(req.content);
    assert(lines::without_newlines(new));
    assert(text::with_newlines(new) == (if req.content.len() == 0 || req.content.last() == '\n' {
        req.content
    } else {
        req.content.push('\n')
    }));
    lines::join_then_split(all, trailing);
    assert(text::join(all, "\n"@) + Seq::<char>::empty() =~= text::join(all, "\n"@));
    assert(original == lines::file_text(all, trailing));
    assert(lines::pieces(lines::body(original)) == all);
    assert(ends_line(original) == trailing);
    let s = before + new + after;
    assert(spliced(all, req.start as int, req.end as int, new) =~= s);
    assert(all.subrange(req.start - 1, req.end as int) =~= gone);
    assert(text::join(s, "\n"@) + Seq::<char>::empty() =~= text::join(s, "\n"@));
}

/// In a file whose last line ends in a newline, the characters of the replaced lines
/// give way to exactly the content, with a newline at its end.
pub proof fn content_goes_in_verbatim(
    before: Seq<Seq<char>>,
    gone: Seq<Seq<char>>,
    after: Seq<Seq<char>>,
    req: RangeView,
)
    requires
        gone.len() > 0,
        (before + gone + after).len() <= usize::MAX,
        lines::without_newlines(before + gone + after),
        req.start == before.len() + 1,
        req.end == before.len() + gone.len(),
    ensures
        ({
            let c = if req.content.len() == 0 || req.content.last() == '\n' {
                req.content
            } else {
                req.content.push('\n')
            };
            let original = text::with_newlines(before) + text::with_newlines(gone)
                + text::with_newlines(after);
            match replace_result(original, req) {
                Ok(edit) => edit.new_content == text::with_newlines(before) + c
                    + text::with_newlines(after),
                Err(_) => text::with_newlines(gone) == c,
            }
        }),
{
    let all = before + gone + after;
    replaced_lines_give_way(before, gone, after, true, req);
    let c = if req.content.len() == 0 || req.content.last() == '\n' {
        req.content
    } else {
        req.content.push('\n')
    };
    let wb = text::with_newlines(before);
    let wa = text::with_newlines(after);
    let original = wb + text::with_newlines(gone) + wa;
    text::lemma_join_newlines(all);
    text::lemma_with_newlines_append(before + gone, after);
    text::lemma_with_newlines_append(before, gone);
    assert(original == text::join(all, "\n"@) + "\n"@);
    let new = new_lines(req.content);
    lines::content_lines_write_back(req.content);
    let s = before + new + after;
    text::lemma_with_newlines_append(before + new, after);
    text::lemma_with_newlines_append(before, new);
    if s.len() > 0 {
        text::lemma_join_newlines(s);
    }
    assert(text::with_newlines(s) == wb + c + wa);
    lines::join_then_split(all, true);
    assert(lines::pieces(lines::body(original)) == all);
    assert(spliced(all, req.start as int, req.end as int, new) =~= s);
    if wb + c + wa == original {
        assert(c =~= original.subrange(wb.len() as int, original.len() - wa.len()));
        assert(text::with_newlines(gone) =~= original.subrange(
            wb.len() as int,
            original.len() - wa.len(),
        ));
    }
}

/// A range that is not one of the file is refused.
pub proof fn ranges_outside_are_refused(original: Seq<char>, req: RangeView)
    requires
        lines::pieces(lines::body(original)).len() <= usize::MAX,
        req.start == 0 || req.end < req.start || req.end > lines::pieces(
            lines::body(original),
        ).len(),
    ensures
        replace_result(original, req) is Err,
{
}

/// A request holds what the arguments give, each where it belongs.
pub proof fn range_request_holds_its_arguments(
    path: Seq<char>,
    start: u64,
    end: u64,
    content: Seq<char>,
    start_text: Seq<char>,
    end_text: Seq<char>,
)
    requires
        start <= usize::MAX,
        end <= usize::MAX,
    ensures
        range_request(
            ArgView::Text(path),
            (ArgView::Number { text: start_text, unsigned: Some(start) }),
            (ArgView::Number { text: end_text, unsigned: Some(end) }),
            ArgView::Text(content),
        ) matches Ok(r) && r.path == path && r.start == start && r.end == end && r.content
            == content,
{
}

/// A request is made exactly where the file and the content are texts and both ends of
/// the range are non-negative integers.
pub proof fn range_request_needs_its_arguments(
    path: ArgView,
    start: ArgView,
    end: ArgView,
    content: ArgView,
)
    ensures
        range_request(path, start, end, content) is Ok <==> path is Text && content is Text && (
        start matches ArgView::Number { unsigned, .. } && unsigned is Some) && (
        end matches ArgView::Number { unsigned, .. } && unsigned is Some),
{
}

proof fn lemma_step_shown(steps: Seq<DiffStep>, k: int)
    requires
        0 <= k < steps.len(),
    ensures
        text::has_text(steps_text(steps), step_line(steps[k])),
    decreases steps.len(),
{
    let rest = steps.drop_first();
    if k > 0 {
        lemma_step_shown(rest, k - 1);
        assert(rest[k - 1] == steps[k]);
    }
    text::found_in_either(step_line(steps[0]), steps_text(rest), step_line(steps[k]));
}

/// The diff shows each line that came behind a plus and each that went behind a minus, and
/// nothing of a text that did not change.
pub proof fn changes_are_shown(old: Seq<Seq<char>>, new: Seq<Seq<char>>, k: int)
    ensures
        0 <= k < diff_steps(old, new, 0, 0).len() ==> (match diff_steps(old, new, 0, 0)[k] {
            DiffStep::Add(l) => text::has_text(diff_text(old, new), "+"@ + l + "\n"@),
            DiffStep::Remove(l) => text::has_text(diff_text(old, new), "-"@ + l + "\n"@),
            DiffStep::Keep(_) => true,
        }),
        diff_text(old, old).len() == 0,
{
    let steps = diff_steps(old, new, 0, 0);
    if 0 <= k < steps.len() {
        lemma_step_shown(steps, k);
    }
    lemma_same_shows_nothing(old, 0);
}

proof fn lemma_same_shows_nothing(old: Seq<Seq<char>>, i: int)
    requires
        0 <= i <= old.len(),
    ensures
        steps_text(diff_steps(old, old, i, i)).len() == 0,
    decreases old.len() - i,
{
    if i < old.len() {
        lemma_same_shows_nothing(old, i + 1);
        lemma_steps_text(DiffStep::Keep(old[i]), diff_steps(old, old, i + 1, i + 1));
    }
}

/// What is recorded of an edit is its new text, its lines that came and went, and what was
/// told of the file.
pub proof fn edits_are_recorded(
    number: usize,
    operation: Seq<char>,
    label: Seq<char>,
    range: Option<(usize, usize)>,
    payload: Seq<char>,
    edit: LineEditView,
    feedback: EditFeedback,
)
    requires
        0 <= edit.added <= usize::MAX,
        0 <= edit.removed <= usize::MAX,
    ensures
        ({
            let r = edit_args(number, operation, label, range, payload, edit, feedback);
            &&& r.number == number && r.operation == operation && r.label == label
            &&& r.range == range && r.content == edit.new_content && !r.reverted
            &&& r.added == edit.added && r.removed == edit.removed
            &&& r.ast_ok == feedback.ast_ok && r.file_errors == feedback.file_errors
            &&& r.project_errors == feedback.project_errors
            &&& feedback.ast_error matches Some(e) ==> r.ast_error == Some(e@)
            &&& feedback.ast_error is None ==> r.ast_error is None
            &&& bytes::utf8_len(payload) <= 16 * 1024 ==> r.payload == Some(payload)
        }),
{
    revisions::payloads_are_stored(payload);
}

/// The answer to an edit is a success that names the file, the lines and the revision, tells
/// how many lines came and went, shows the diff, and ends with what is told of the file.
pub proof fn replacement_is_told(
    req: RangeView,
    rev: usize,
    edit: LineEditView,
    feedback: Seq<char>,
)
    ensures
        ({
            let r = replace_report(req, rev, edit, feedback);
            &&& r.success
            &&& text::starts_with(
                r.content,
                "replace_range "@ + req.path + " L"@ + number::dec(req.start as nat) + "-"@
                    + number::dec(req.end as nat) + ": rev_"@ + number::dec(rev as nat)
                    + " applied (+"@ + number::dec(edit.added as nat) + " -"@ + number::dec(
                    edit.removed as nat,
                ) + ")"@,
            )
            &&& text::has_text(r.content, edit.diff)
            &&& text::ends_with(r.content, feedback)
        }),
{
    let s = replace_report(req, rev, edit, feedback).content;
    let h = "replace_range "@ + req.path + " L"@ + number::dec(req.start as nat) + "-"@
        + number::dec(req.end as nat) + ": rev_"@ + number::dec(rev as nat) + " applied (+"@
        + number::dec(edit.added as nat) + " -"@ + number::dec(edit.removed as nat) + ")"@;
    let intro = "\nApplied diff (every '-' line is now GONE from the file):\n"@;
    let end = "If this is not exactly the edit you intended, call revert."@;
    let shown = if edit.diff.len() > 0 {
        intro + edit.diff + end
    } else {
        Seq::empty()
    };
    assert(s == h + shown + feedback);
    assert(s.subrange(0, h.len() as int) =~= h);
    assert(s.subrange(s.len() - feedback.len(), s.len() as int) =~= feedback);
    if edit.diff.len() > 0 {
        text::found_between(intro, edit.diff, end);
        text::found_in_either(h, shown, edit.diff);
        text::found_in_either(h + shown, feedback, edit.diff);
    } else {
        assert(s.subrange(0, 0) =~= edit.diff);
        assert(text::occurs_at(s, edit.diff, 0));
    }
}

/// Before the first recorded edit of a file, its text becomes the revision that it can go back
/// to; of a file that has revisions, they stay.
pub proof fn original_is_recorded_first(store: &RevisionStore, path: Seq<char>, original: Seq<char>)
    ensures
        store.knows(path) ==> file_before(store, path, original) == store.file(path),
        !store.knows(path) ==> revisions::content_at(
            true,
            file_before(store, path, original).revs,
            path,
            0,
        ) == Ok::<Seq<char>, Seq<char>>(original) && file_before(store, path, original).last == 0,
{
    revisions::first_revision_is_the_file(original, path);
}

} // verus!
