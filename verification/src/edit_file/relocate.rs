//! Rescue of a literal replacement whose `OLD` block stands elsewhere.
use vstd::prelude::*;

use super::blocks;
use super::blocks::{
    copy_range, find_all_exact_line_matches, find_all_ws_tolerant_line_matches, lists_range,
};
use super::literal;
use super::literal::{apply_literal_replace_in_scope, line_range_text, WsCandidate};
use crate::number;
use crate::number::dec_text;
use crate::text;
use crate::text::{joined, same_chars, split_lines, to_chars, trimmed, ws_squash};
use crate::unicode;
use crate::unicode::{char_alphabetic, char_lower};

verus! {

/// How many characters besides white space a line must hold for a search by
/// similarity.
pub const FUZZY_MIN_CHARS: usize = 5;

/// The edit distance of the first `i` characters of `a` and the first `j` of
/// `b`: the least number of insertions, deletions and exchanges of one character
/// that turn the one into the other.
pub open spec fn prefix_distance(a: Seq<char>, b: Seq<char>, i: int, j: int) -> int
    decreases i + j,
{
    if i <= 0 {
        j
    } else if j <= 0 {
        i
    } else {
        let cost: int = if a[i - 1] == b[j - 1] {
            0
        } else {
            1
        };
        let del = prefix_distance(a, b, i - 1, j) + 1;
        let ins = prefix_distance(a, b, i, j - 1) + 1;
        let sub = prefix_distance(a, b, i - 1, j - 1) + cost;
        let m = if del <= ins {
            del
        } else {
            ins
        };
        if m <= sub {
            m
        } else {
            sub
        }
    }
}

/// The edit distance of two texts.
pub open spec fn distance(a: Seq<char>, b: Seq<char>) -> int {
    prefix_distance(a, b, a.len() as int, b.len() as int)
}

/// The distance is at least the difference in length and at most the greater
/// length.
proof fn lemma_distance_bounds(a: Seq<char>, b: Seq<char>, i: int, j: int)
    requires
        0 <= i,
        0 <= j,
    ensures
        prefix_distance(a, b, i, j) <= if i >= j {
            i
        } else {
            j
        },
        prefix_distance(a, b, i, j) >= i - j,
        prefix_distance(a, b, i, j) >= j - i,
        prefix_distance(a, b, i, j) >= 0,
    decreases i + j,
{
    if i > 0 && j > 0 {
        lemma_distance_bounds(a, b, i - 1, j);
        lemma_distance_bounds(a, b, i, j - 1);
        lemma_distance_bounds(a, b, i - 1, j - 1);
    }
}

/// The edit distance of two texts, computed row by row.
pub fn edit_distance(a: &str, b: &str) -> (r: usize)
    requires
        a@.len() < usize::MAX,
        b@.len() < usize::MAX,
    ensures
        r == distance(a@, b@),
{
    let x = to_chars(a);
    let y = to_chars(b);
    let m: usize = x.len();
    let n: usize = y.len();
    if m == 0 {
        return n;
    }
    if n == 0 {
        return m;
    }
    let mut prev: Vec<usize> = Vec::new();
    let mut j: usize = 0;
    while j <= n
        invariant
            j <= n + 1,
            n < usize::MAX,
            prev@.len() == j,
            forall|k: int| 0 <= k < j ==> #[trigger] prev@[k] == prefix_distance(x@, y@, 0, k),
        decreases n + 1 - j,
    {
        prev.push(j);
        j += 1;
    }
    let mut i: usize = 1;
    while i <= m
        invariant
            1 <= i <= m + 1,
            m == x@.len() < usize::MAX,
            n == y@.len() < usize::MAX,
            prev@.len() == n + 1,
            forall|k: int| 0 <= k <= n ==> #[trigger] prev@[k] == prefix_distance(x@, y@, i - 1, k),
        decreases m + 1 - i,
    {
        let mut curr: Vec<usize> = Vec::new();
        curr.push(i);
        let mut j: usize = 1;
        while j <= n
            invariant
                1 <= j <= n + 1,
                1 <= i <= m,
                m == x@.len() < usize::MAX,
                n == y@.len() < usize::MAX,
                prev@.len() == n + 1,
                curr@.len() == j,
                forall|k: int|
                    0 <= k <= n ==> #[trigger] prev@[k] == prefix_distance(x@, y@, i - 1, k),
                forall|k: int| 0 <= k < j ==> #[trigger] curr@[k] == prefix_distance(
                    x@,
                    y@,
                    i as int,
                    k,
                ),
            decreases n + 1 - j,
        {
            proof {
                lemma_distance_bounds(x@, y@, i - 1, j as int);
                lemma_distance_bounds(x@, y@, i as int, j - 1);
                lemma_distance_bounds(x@, y@, i - 1, j - 1);
                assert(prev@[j as int] == prefix_distance(x@, y@, i - 1, j as int));
                assert(prev@[j - 1] == prefix_distance(x@, y@, i - 1, j - 1));
                assert(curr@[j - 1] == prefix_distance(x@, y@, i as int, j - 1));
            }
            let cost: usize = if x[i - 1] == y[j - 1] {
                0
            } else {
                1
            };
            let del: usize = prev[j] + 1;
            let ins: usize = curr[j - 1] + 1;
            let sub: usize = prev[j - 1] + cost;
            let mut best: usize = if del <= ins {
                del
            } else {
                ins
            };
            if sub < best {
                best = sub;
            }
            curr.push(best);
            j += 1;
        }
        prev = curr;
        i += 1;
    }
    prev[n]
}

/// Texts at distance 0 are equal, and only those.
pub proof fn distance_zero_means_equal(a: Seq<char>, b: Seq<char>)
    ensures
        distance(a, b) == 0 <==> a == b,
{
    lemma_zero(a, b, a.len() as int, b.len() as int);
    if distance(a, b) == 0 {
        assert(a =~= b);
    }
    if a == b {
        lemma_self(a, a.len() as int);
    }
}

proof fn lemma_zero(a: Seq<char>, b: Seq<char>, i: int, j: int)
    requires
        0 <= i <= a.len(),
        0 <= j <= b.len(),
    ensures
        prefix_distance(a, b, i, j) == 0 ==> i == j && forall|k: int|
            0 <= k < i ==> #[trigger] a[k] == b[k],
    decreases i + j,
{
    if i > 0 && j > 0 {
        lemma_zero(a, b, i - 1, j - 1);
        lemma_distance_bounds(a, b, i - 1, j);
        lemma_distance_bounds(a, b, i, j - 1);
        lemma_distance_bounds(a, b, i - 1, j - 1);
    }
}

proof fn lemma_self(a: Seq<char>, i: int)
    requires
        0 <= i <= a.len(),
    ensures
        prefix_distance(a, a, i, i) == 0,
    decreases i,
{
    if i > 0 {
        lemma_self(a, i - 1);
        lemma_distance_bounds(a, a, i - 1, i);
        lemma_distance_bounds(a, a, i, i - 1);
    }
}

proof fn lemma_symmetric(a: Seq<char>, b: Seq<char>, i: int, j: int)
    ensures
        prefix_distance(a, b, i, j) == prefix_distance(b, a, j, i) || (i <= 0 && j <= 0),
    decreases i + j,
{
    if i > 0 && j > 0 {
        lemma_symmetric(a, b, i - 1, j);
        lemma_symmetric(a, b, i, j - 1);
        lemma_symmetric(a, b, i - 1, j - 1);
    }
}

/// The distance does not depend on the order of the texts.
pub proof fn distance_is_symmetric(a: Seq<char>, b: Seq<char>)
    ensures
        distance(a, b) == distance(b, a),
{
    lemma_symmetric(a, b, a.len() as int, b.len() as int);
}

/// The distance is at least the difference in length and at most the greater
/// length.
pub proof fn distance_is_bounded(a: Seq<char>, b: Seq<char>)
    ensures
        distance(a, b) >= a.len() - b.len(),
        distance(a, b) >= b.len() - a.len(),
        distance(a, b) <= if a.len() >= b.len() {
            a.len() as int
        } else {
            b.len() as int
        },
{
    lemma_distance_bounds(a, b, a.len() as int, b.len() as int);
}

/// Whether a range shares a line with the lines `scope_start..=scope_end`.
pub open spec fn meets(c: (usize, usize), scope_start: usize, scope_end: usize) -> bool {
    c.0 <= scope_end && c.1 >= scope_start
}

/// How far a range is from the lines `scope_start..=scope_end`.
pub open spec fn range_distance(c: (usize, usize), scope_start: usize, scope_end: usize) -> int {
    (if c.0 >= scope_start {
        c.0 - scope_start
    } else {
        scope_start - c.0
    }) + (if c.1 >= scope_end {
        c.1 - scope_end
    } else {
        scope_end - c.1
    })
}

/// Whether one of the candidates shares a line with the scope.
pub open spec fn any_meets(cs: Seq<(usize, usize)>, scope_start: usize, scope_end: usize) -> bool {
    exists|k: int| 0 <= k < cs.len() && meets(#[trigger] cs[k], scope_start, scope_end)
}

/// Whether candidate `k` is considered: where one shares a line with the scope,
/// only those that do.
pub open spec fn considered(
    cs: Seq<(usize, usize)>,
    scope_start: usize,
    scope_end: usize,
    k: int,
) -> bool {
    0 <= k < cs.len() && (any_meets(cs, scope_start, scope_end) ==> meets(
        cs[k],
        scope_start,
        scope_end,
    ))
}

/// Whether candidate `k` is the best one: considered, none considered is nearer,
/// and none in front of it is as near.
pub open spec fn is_best(
    cs: Seq<(usize, usize)>,
    scope_start: usize,
    scope_end: usize,
    k: int,
) -> bool {
    &&& considered(cs, scope_start, scope_end, k)
    &&& forall|j: int| #[trigger]
        considered(cs, scope_start, scope_end, j) ==> {
            let dk = range_distance(cs[k], scope_start, scope_end);
            let dj = range_distance(cs[j], scope_start, scope_end);
            dk < dj || (dk == dj && k <= j)
        }
}

/// The best candidate.
pub open spec fn best_of(cs: Seq<(usize, usize)>, scope_start: usize, scope_end: usize) -> Option<
    (usize, usize),
> {
    if cs.len() == 0 {
        None
    } else {
        Some(cs[choose|k: int| is_best(cs, scope_start, scope_end, k)])
    }
}

/// There is one best candidate only.
pub proof fn lemma_one_best(
    cs: Seq<(usize, usize)>,
    scope_start: usize,
    scope_end: usize,
    k: int,
    j: int,
)
    requires
        is_best(cs, scope_start, scope_end, k),
        is_best(cs, scope_start, scope_end, j),
    ensures
        k == j,
{
    assert(considered(cs, scope_start, scope_end, k));
    assert(considered(cs, scope_start, scope_end, j));
}

fn scope_distance(c: (usize, usize), scope_start: usize, scope_end: usize) -> (r: u128)
    ensures
        r == range_distance(c, scope_start, scope_end),
{
    let a: usize = if c.0 >= scope_start {
        c.0 - scope_start
    } else {
        scope_start - c.0
    };
    let b: usize = if c.1 >= scope_end {
        c.1 - scope_end
    } else {
        scope_end - c.1
    };
    a as u128 + b as u128
}

/// Picks the candidate that is nearest to the lines `scope_start..=scope_end`.
/// Where one shares a line with them, only those that do are considered; of two
/// that are as near, the first one wins.
pub fn pick_best_candidate(candidates: &[(usize, usize)], scope_start: usize, scope_end: usize) -> (r:
    Option<(usize, usize)>)
    ensures
        r == best_of(candidates@, scope_start, scope_end),
        r matches Some(c) ==> candidates@.contains(c),
{
    let ghost cs = candidates@;
    let mut overlap: bool = false;
    let mut i: usize = 0;
    while i < candidates.len()
        invariant
            i <= candidates@.len(),
            cs == candidates@,
            overlap == exists|k: int|
                0 <= k < i && meets(#[trigger] cs[k], scope_start, scope_end),
        decreases candidates.len() - i,
    {
        let c = candidates[i];
        if c.0 <= scope_end && c.1 >= scope_start {
            proof {
                assert(meets(cs[i as int], scope_start, scope_end));
            }
            overlap = true;
        }
        i += 1;
    }
    let mut best: Option<usize> = None;
    let mut best_distance: u128 = 0;
    let mut j: usize = 0;
    while j < candidates.len()
        invariant
            j <= candidates@.len(),
            cs == candidates@,
            overlap == any_meets(cs, scope_start, scope_end),
            match best {
                None => forall|k: int| 0 <= k < j ==> !considered(cs, scope_start, scope_end, k),
                Some(b) => {
                    &&& b < j
                    &&& considered(cs, scope_start, scope_end, b as int)
                    &&& best_distance == range_distance(cs[b as int], scope_start, scope_end)
                    &&& forall|k: int|
                        k < j && #[trigger] considered(cs, scope_start, scope_end, k) ==> {
                            let dk = range_distance(cs[k], scope_start, scope_end);
                            best_distance < dk || (best_distance == dk && b <= k)
                        }
                },
            },
        decreases candidates.len() - j,
    {
        let c = candidates[j];
        if !overlap || (c.0 <= scope_end && c.1 >= scope_start) {
            proof {
                assert(considered(cs, scope_start, scope_end, j as int));
            }
            let d = scope_distance(c, scope_start, scope_end);
            match best {
                None => {
                    best = Some(j);
                    best_distance = d;
                },
                Some(_) => {
                    if d < best_distance {
                        best = Some(j);
                        best_distance = d;
                    }
                },
            }
        } else {
            proof {
                assert(!considered(cs, scope_start, scope_end, j as int));
            }
        }
        j += 1;
    }
    match best {
        None => {
            proof {
                if cs.len() > 0 {
                    if any_meets(cs, scope_start, scope_end) {
                        let k = choose|k: int|
                            0 <= k < cs.len() && meets(#[trigger] cs[k], scope_start, scope_end);
                        assert(considered(cs, scope_start, scope_end, k));
                    } else {
                        assert(considered(cs, scope_start, scope_end, 0));
                    }
                }
            }
            None
        },
        Some(b) => {
            proof {
                assert(is_best(cs, scope_start, scope_end, b as int));
                let k = choose|k: int| is_best(cs, scope_start, scope_end, k);
                lemma_one_best(cs, scope_start, scope_end, b as int, k);
            }
            Some(candidates[b])
        },
    }
}

/// A window of the file set against an `OLD` block: for each line, how far it is
/// from the line of the block, and the greater of the two lengths.
#[derive(Debug)]
pub struct LineScores {
    pub range: (usize, usize),
    pub scores: Vec<(usize, usize)>,
}

/// Line scores over their views.
pub struct ScoresView {
    pub range: (usize, usize),
    pub scores: Seq<(usize, usize)>,
}

impl DeepView for LineScores {
    type V = ScoresView;

    open spec fn deep_view(&self) -> ScoresView {
        ScoresView { range: self.range, scores: self.scores@ }
    }
}

/// How far two lines are from each other, and the greater of their lengths.
pub open spec fn line_score(a: Seq<char>, b: Seq<char>) -> (usize, usize) {
    (
        distance(a, b) as usize,
        if a.len() >= b.len() {
            a.len() as usize
        } else {
            b.len() as usize
        },
    )
}

/// The scores of the window that starts at line index `k`.
pub open spec fn window_scores(ls: Seq<Seq<char>>, old: Seq<Seq<char>>, k: int) -> ScoresView {
    ScoresView {
        range: ((k + 1) as usize, (k + old.len()) as usize),
        scores: Seq::new(old.len(), |j: int| line_score(ls[k + j], old[j])),
    }
}

/// The scores of the windows that start at the first `n` lines, but for those in
/// `exclude`.
pub open spec fn scores_before(
    ls: Seq<Seq<char>>,
    old: Seq<Seq<char>>,
    exclude: Seq<(usize, usize)>,
    n: int,
) -> Seq<ScoresView>
    decreases n,
{
    if n <= 0 {
        Seq::empty()
    } else {
        let rest = scores_before(ls, old, exclude, n - 1);
        let w = window_scores(ls, old, n - 1);
        if exclude.contains(w.range) {
            rest
        } else {
            rest.push(w)
        }
    }
}

/// Whether a block is long enough to be searched for by similarity: one of its
/// lines holds `FUZZY_MIN_CHARS` characters besides white space.
pub open spec fn fuzzy_enough(old: Seq<Seq<char>>) -> bool {
    exists|j: int| 0 <= j < old.len() && text::squash(#[trigger] old[j]).len() >= FUZZY_MIN_CHARS
}

/// The scores of all windows of `content` that are set against the block `old`.
pub open spec fn fuzzy_scores(
    content: Seq<char>,
    old: Seq<Seq<char>>,
    exclude: Seq<(usize, usize)>,
) -> Seq<ScoresView> {
    let ls = text::lines(content);
    if old.len() > ls.len() || !fuzzy_enough(old) {
        Seq::empty()
    } else {
        scores_before(ls, old, exclude, ls.len() - old.len() + 1)
    }
}

fn score_lines(a: &str, b: &str) -> (r: (usize, usize))
    requires
        a@.len() < usize::MAX,
        b@.len() < usize::MAX,
    ensures
        r == line_score(a@, b@),
{
    let d = edit_distance(a, b);
    let m: usize = to_chars(a).len();
    let n: usize = to_chars(b).len();
    (
        d,
        if m >= n {
            m
        } else {
            n
        },
    )
}

/// Whether every line is shorter than the greatest number.
pub open spec fn lines_fit(ls: Seq<Seq<char>>) -> bool {
    forall|k: int| 0 <= k < ls.len() ==> (#[trigger] ls[k]).len() < usize::MAX
}

/// Sets every window of `content` against the block `old`, line by line.
pub fn fuzzy_line_scores(content: &str, old: &[String], exclude: &[(usize, usize)]) -> (r: Vec<
    LineScores,
>)
    requires
        lines_fit(text::lines(content@)),
        lines_fit(old.deep_view()),
    ensures
        r.deep_view() == fuzzy_scores(content@, old.deep_view(), exclude@),
{
    let ghost ov = old.deep_view();
    let mut out: Vec<LineScores> = Vec::new();
    proof {
        assert(out.deep_view() =~= Seq::<ScoresView>::empty());
        assert(old@.len() == ov.len());
    }
    let lines = split_lines(content);
    let ghost ls = lines.deep_view();
    let n: usize = old.len();
    let total: usize = lines.len();
    proof {
        assert(total == ls.len());
    }
    let mut enough: bool = false;
    let mut i: usize = 0;
    while i < n
        invariant
            i <= n == old@.len() == ov.len(),
            ov == old.deep_view(),
            enough == exists|j: int|
                0 <= j < i && text::squash(#[trigger] ov[j]).len() >= FUZZY_MIN_CHARS,
        decreases n - i,
    {
        proof {
            assert(ov[i as int] == old@[i as int]@);
        }
        if to_chars(&ws_squash(&old[i])).len() >= FUZZY_MIN_CHARS {
            enough = true;
        }
        i += 1;
    }
    if n > total || !enough {
        return out;
    }
    let mut k: usize = 0;
    while k < total - n + 1
        invariant
            0 < n <= total,
            k <= total - n + 1,
            n == old@.len() == ov.len(),
            total == lines@.len() == ls.len(),
            ov == old.deep_view(),
            ls == lines.deep_view(),
            lines_fit(ls),
            lines_fit(ov),
            out.deep_view() == scores_before(ls, ov, exclude@, k as int),
        decreases total - n + 1 - k,
    {
        let ghost o = out.deep_view();
        let range = (k + 1, k + n);
        if !lists_range(exclude, range) {
            let ghost w = window_scores(ls, ov, k as int);
            let mut scores: Vec<(usize, usize)> = Vec::new();
            let mut j: usize = 0;
            while j < n
                invariant
                    j <= n,
                    k + n <= total,
                    n == old@.len() == ov.len(),
                    total == lines@.len() == ls.len(),
                    ov == old.deep_view(),
                    ls == lines.deep_view(),
                    lines_fit(ls),
                    lines_fit(ov),
                    w == window_scores(ls, ov, k as int),
                    scores@ == w.scores.take(j as int),
                decreases n - j,
            {
                proof {
                    assert(ls[k + j] == lines@[k + j]@);
                    assert(ov[j as int] == old@[j as int]@);
                }
                scores.push(score_lines(&lines[k + j], &old[j]));
                proof {
                    assert(w.scores.take(j + 1) =~= w.scores.take(j as int).push(
                        w.scores[j as int],
                    ));
                }
                j += 1;
            }
            proof {
                assert(w.scores.take(n as int) =~= w.scores);
            }
            out.push(LineScores { range, scores });
            proof {
                assert(out.deep_view() =~= o.push(w));
            }
        }
        k += 1;
    }
    out
}

/// How the place of a relocation was found.
#[derive(Debug, Clone, Copy, PartialEq, Eq, Structural)]
pub enum Strategy {
    ByteExact,
    WhitespaceNormalized,
    FuzzySimilarity,
}

/// The name of a strategy.
pub open spec fn strategy_name(s: Strategy) -> Seq<char> {
    match s {
        Strategy::ByteExact => "byte-exact"@,
        Strategy::WhitespaceNormalized => "whitespace-normalized"@,
        Strategy::FuzzySimilarity => "fuzzy line similarity"@,
    }
}

impl Strategy {
    /// The name of the strategy.
    pub fn as_str(self) -> (r: &'static str)
        ensures
            r@ == strategy_name(self),
    {
        match self {
            Strategy::ByteExact => "byte-exact",
            Strategy::WhitespaceNormalized => "whitespace-normalized",
            Strategy::FuzzySimilarity => "fuzzy line similarity",
        }
    }
}

/// Where an `OLD` block stands instead, and what stands there.
#[derive(Debug)]
pub struct Relocation {
    pub located_at: (usize, usize),
    pub strategy: Strategy,
    pub file_old: Vec<String>,
}

/// A relocation over texts.
pub struct RelocationView {
    pub located_at: (usize, usize),
    pub strategy: Strategy,
    pub file_old: Seq<Seq<char>>,
}

impl DeepView for Relocation {
    type V = RelocationView;

    open spec fn deep_view(&self) -> RelocationView {
        RelocationView {
            located_at: self.located_at,
            strategy: self.strategy,
            file_old: self.file_old.deep_view(),
        }
    }
}

/// Whether similarity decides: the block stands nowhere in the file, white space
/// aside.
pub open spec fn needs_similarity(content: Seq<char>, old: Seq<Seq<char>>) -> bool {
    let exact = blocks::exact_ranges(content, old);
    exact.len() == 0 && blocks::ws_ranges(content, old, exact).len() == 0
}

/// The places where an `OLD` block may stand, the surest first. Those found by
/// similarity count only where there are no others.
pub open spec fn relocation_candidates(
    content: Seq<char>,
    old: Seq<Seq<char>>,
    fuzzy: Seq<(usize, usize)>,
) -> Seq<(usize, usize)> {
    let exact = blocks::exact_ranges(content, old);
    exact + blocks::ws_ranges(content, old, exact) + if needs_similarity(content, old) {
        fuzzy
    } else {
        Seq::empty()
    }
}

/// Where an `OLD` block that failed in the lines `scope_start..=scope_end`
/// stands instead. A block that stands in those very lines is no candidate: it
/// was tried there.
pub open spec fn relocation_of(
    content: Seq<char>,
    scope_start: usize,
    scope_end: usize,
    old: Seq<Seq<char>>,
    fuzzy: Seq<(usize, usize)>,
) -> Option<RelocationView> {
    let exact = blocks::exact_ranges(content, old);
    let ws = blocks::ws_ranges(content, old, exact);
    match best_of(relocation_candidates(content, old, fuzzy), scope_start, scope_end) {
        None => None,
        Some(at) => if at == (scope_start, scope_end) && exact.contains(at) {
            None
        } else {
            Some(
                RelocationView {
                    located_at: at,
                    strategy: if exact.contains(at) {
                        Strategy::ByteExact
                    } else if ws.contains(at) {
                        Strategy::WhitespaceNormalized
                    } else {
                        Strategy::FuzzySimilarity
                    },
                    file_old: text::lines(content).subrange(at.0 - 1, at.1 as int),
                },
            )
        },
    }
}

/// Whether ranges are ranges of lines of a file of `total` lines.
pub open spec fn valid_ranges(ranges: Seq<(usize, usize)>, total: nat) -> bool {
    forall|k: int|
        0 <= k < ranges.len() ==> 1 <= (#[trigger] ranges[k]).0 <= ranges[k].1 <= total
}

proof fn lemma_ranges_valid(
    h: Seq<Seq<char>>,
    d: Seq<Seq<char>>,
    positions: Seq<usize>,
    exclude: Seq<(usize, usize)>,
)
    requires
        d.len() > 0,
        h.len() <= usize::MAX,
        forall|p: int| 0 <= p < positions.len() ==> blocks::block_at(h, d, #[trigger] positions[p] as int),
    ensures
        valid_ranges(blocks::ranges_of(positions, d.len(), exclude), h.len()),
    decreases positions.len(),
{
    if positions.len() > 0 {
        let short = positions.drop_last();
        assert forall|p: int| 0 <= p < short.len() implies blocks::block_at(
            h,
            d,
            #[trigger] short[p] as int,
        ) by {
            assert(positions[p] == short[p]);
        }
        lemma_ranges_valid(h, d, short, exclude);
        assert(blocks::block_at(h, d, positions[positions.len() - 1] as int));
    }
}

proof fn lemma_candidates_valid(
    content: Seq<char>,
    old: Seq<Seq<char>>,
    fuzzy: Seq<(usize, usize)>,
)
    requires
        text::lines(content).len() <= usize::MAX,
        valid_ranges(fuzzy, text::lines(content).len()),
    ensures
        valid_ranges(relocation_candidates(content, old, fuzzy), text::lines(content).len()),
{
    let ls = text::lines(content);
    let exact = blocks::exact_ranges(content, old);
    let ws = blocks::ws_ranges(content, old, exact);
    let sl = blocks::squash_lines(ls);
    let so = blocks::squash_lines(old);
    blocks::lemma_block_positions(ls, old, ls.len() as int);
    blocks::lemma_block_positions(sl, so, sl.len() as int);
    blocks::lemma_no_positions(ls, old, ls.len() as int);
    if old.len() > 0 {
        lemma_ranges_valid(ls, old, blocks::block_matches(ls, old), Seq::empty());
        lemma_ranges_valid(sl, so, blocks::block_matches(sl, so), exact);
    }
    let all = relocation_candidates(content, old, fuzzy);
    assert forall|k: int| 0 <= k < all.len() implies 1 <= (#[trigger] all[k]).0 <= all[k].1
        <= ls.len() by {
        if k < exact.len() {
            assert(all[k] == exact[k]);
        } else if k < exact.len() + ws.len() {
            assert(all[k] == ws[k - exact.len()]);
        } else {
            assert(all[k] == fuzzy[k - exact.len() - ws.len()]);
        }
    }
}

/// Tests whether similarity decides where an `OLD` block stands.
pub fn relocation_needs_similarity(content: &str, old: &[String]) -> (r: bool)
    ensures
        r == needs_similarity(content@, old.deep_view()),
{
    let exact = find_all_exact_line_matches(content, old);
    let ws = find_all_ws_tolerant_line_matches(content, old, &exact);
    exact.len() == 0 && ws.len() == 0
}

fn append_ranges(out: &mut Vec<(usize, usize)>, more: &[(usize, usize)])
    ensures
        final(out)@ == old(out)@ + more@,
{
    let mut i: usize = 0;
    while i < more.len()
        invariant
            i <= more@.len(),
            out@ == old(out)@ + more@.take(i as int),
        decreases more.len() - i,
    {
        out.push(more[i]);
        i += 1;
        proof {
            assert(more@.take(i as int) =~= more@.take(i - 1).push(more@[i - 1]));
        }
    }
    proof {
        assert(more@.take(i as int) =~= more@);
    }
}

/// Finds where an `OLD` block that failed in the lines
/// `scope_start..=scope_end` stands instead. `fuzzy` are the places that a search
/// by similarity found.
pub fn find_relocation(
    content: &str,
    scope_start: usize,
    scope_end: usize,
    old: &[String],
    fuzzy: &[(usize, usize)],
) -> (r: Option<Relocation>)
    requires
        valid_ranges(fuzzy@, text::lines(content@).len()),
    ensures
        r.deep_view() == relocation_of(content@, scope_start, scope_end, old.deep_view(), fuzzy@),
{
    let exact = find_all_exact_line_matches(content, old);
    let ws = find_all_ws_tolerant_line_matches(content, old, &exact);
    let lines = split_lines(content);
    let total: usize = lines.len();
    let ghost ov = old.deep_view();
    proof {
        assert(total == lines.deep_view().len());
        lemma_candidates_valid(content@, ov, fuzzy@);
    }
    let mut candidates: Vec<(usize, usize)> = Vec::new();
    append_ranges(&mut candidates, &exact);
    append_ranges(&mut candidates, &ws);
    if exact.len() == 0 && ws.len() == 0 {
        append_ranges(&mut candidates, fuzzy);
    }
    proof {
        assert(candidates@ =~= relocation_candidates(content@, ov, fuzzy@));
    }
    let at = match pick_best_candidate(&candidates, scope_start, scope_end) {
        None => {
            return None;
        },
        Some(c) => c,
    };
    let is_exact = lists_range(&exact, at);
    if at.0 == scope_start && at.1 == scope_end && is_exact {
        return None;
    }
    let strategy = if is_exact {
        Strategy::ByteExact
    } else if lists_range(&ws, at) {
        Strategy::WhitespaceNormalized
    } else {
        Strategy::FuzzySimilarity
    };
    Some(Relocation { located_at: at, strategy, file_old: copy_range(&lines, at.0 - 1, at.1) })
}

/// The question whether a relocation is meant.
pub open spec fn relocation_question(
    path: Seq<char>,
    declared: (usize, usize),
    planner_old: Seq<char>,
    found: RelocationView,
) -> Seq<char> {
    let scope = literal::lines_text(declared.0, declared.1);
    let at = literal::lines_text(found.located_at.0, found.located_at.1);
    "An edit-plan step for "@ + path + " declared SCOPE "@ + scope
        + ", but the byte-exact LITERAL_REPLACE did not match there. Searching the whole file found a "@
        + strategy_name(found.strategy) + " match at "@ + at
        + ". Confirm whether that new range is the same edit target you intended.\n\nOLD as written by the planner:\n----\n"@
        + planner_old + "\n----\n\nActual file text at "@ + at + ":\n----\n"@ + text::join(
        found.file_old,
        "\n"@,
    ) + "\n----\n\nReply with exactly `YES` if "@ + at
        + " is the intended target, or `NO` if it isn't. Output only the single word, no other text."@
}

/// Asks whether a relocation is meant.
pub fn relocation_prompt(
    path_str: &str,
    declared_start: usize,
    declared_end: usize,
    planner_old: &str,
    found: &Relocation,
) -> (r: String)
    ensures
        r@ == relocation_question(
            path_str@,
            (declared_start, declared_end),
            planner_old@,
            found.deep_view(),
        ),
{
    let scope = line_range_text(declared_start, declared_end);
    let at = line_range_text(found.located_at.0, found.located_at.1);
    "An edit-plan step for ".to_owned().concat(path_str).concat(" declared SCOPE ").concat(
        &scope,
    ).concat(
        ", but the byte-exact LITERAL_REPLACE did not match there. Searching the whole file found a ",
    ).concat(found.strategy.as_str()).concat(" match at ").concat(&at).concat(
        ". Confirm whether that new range is the same edit target you intended.\n\nOLD as written by the planner:\n----\n",
    ).concat(planner_old).concat("\n----\n\nActual file text at ").concat(&at).concat(
        ":\n----\n",
    ).concat(&joined(&found.file_old, "\n")).concat("\n----\n\nReply with exactly `YES` if ").concat(
        &at,
    ).concat(
        " is the intended target, or `NO` if it isn't. Output only the single word, no other text.",
    )
}

/// The letters at the start of `s`, counted from `i` on, in lower case.
pub open spec fn first_word_from(s: Seq<char>, i: int) -> Seq<char>
    decreases s.len() - i,
{
    if 0 <= i < s.len() && unicode::alphabetic(s[i]) {
        unicode::lower(s[i]) + first_word_from(s, i + 1)
    } else {
        Seq::empty()
    }
}

/// Whether a reply says yes: its first word is `yes`, the case aside.
pub open spec fn says_yes(reply: Seq<char>) -> bool {
    first_word_from(text::trim(reply), 0) == "yes"@
}

/// Tests whether a reply says yes.
pub fn is_yes(reply: &str) -> (r: bool)
    ensures
        r == says_yes(reply@),
{
    let v = to_chars(&trimmed(reply));
    let mut word: Vec<char> = Vec::new();
    let mut i: usize = 0;
    while i < v.len() && char_alphabetic(v[i])
        invariant
            i <= v@.len(),
            word@ + first_word_from(v@, i as int) == first_word_from(v@, 0),
        decreases v.len() - i,
    {
        let ghost before = word@;
        let mut l = char_lower(v[i]);
        let ghost lv = l@;
        word.append(&mut l);
        proof {
            assert(before + first_word_from(v@, i as int) =~= word@ + first_word_from(v@, i + 1));
        }
        i += 1;
    }
    proof {
        assert(word@ + first_word_from(v@, i as int) =~= word@);
    }
    same_chars(&word, &to_chars("yes"))
}

/// What came of a relocation.
#[derive(Debug)]
pub enum RelocateOutcome {
    /// It was confirmed and applied.
    Applied { new_content: String, located_at: (usize, usize) },
    /// It was turned down.
    Rejected,
    /// There is none, or the question was not answered.
    NoCandidate,
}

/// A relocation outcome over texts.
pub enum OutcomeView {
    Applied { new_content: Seq<char>, located_at: (usize, usize) },
    Rejected,
    NoCandidate,
}

impl DeepView for RelocateOutcome {
    type V = OutcomeView;

    open spec fn deep_view(&self) -> OutcomeView {
        match *self {
            RelocateOutcome::Applied { new_content, located_at } => OutcomeView::Applied {
                new_content: new_content@,
                located_at,
            },
            RelocateOutcome::Rejected => OutcomeView::Rejected,
            RelocateOutcome::NoCandidate => OutcomeView::NoCandidate,
        }
    }
}

/// What comes of a relocation for a reply; there is none where the question
/// could not be asked.
pub open spec fn relocation_result(
    content: Seq<char>,
    found: RelocationView,
    new: Seq<Seq<char>>,
    all: bool,
    reply: Option<Seq<char>>,
) -> OutcomeView {
    match reply {
        None => OutcomeView::NoCandidate,
        Some(text) => if !says_yes(text) {
            OutcomeView::Rejected
        } else {
            match literal::literal_result(
                content,
                found.located_at.0,
                found.located_at.1,
                found.file_old,
                new,
                all,
            ) {
                Ok((new_content, count)) => OutcomeView::Applied {
                    new_content,
                    located_at: found.located_at,
                },
                Err(_) => OutcomeView::NoCandidate,
            }
        },
    }
}

/// Applies a relocation, where the reply confirms it.
pub fn settle_relocation(
    content: &str,
    found: &Relocation,
    new: &[String],
    all: bool,
    reply: Option<&str>,
) -> (r: RelocateOutcome)
    requires
        content@.len() < usize::MAX,
    ensures
        r.deep_view() == relocation_result(
            content@,
            found.deep_view(),
            new.deep_view(),
            all,
            match reply {
                Some(s) => Some(s@),
                None => None,
            },
        ),
{
    match reply {
        None => RelocateOutcome::NoCandidate,
        Some(text) => {
            if !is_yes(text) {
                return RelocateOutcome::Rejected;
            }
            match apply_literal_replace_in_scope(
                content,
                found.located_at.0,
                found.located_at.1,
                &found.file_old,
                new,
                all,
            ) {
                Ok((new_content, _count)) => RelocateOutcome::Applied {
                    new_content,
                    located_at: found.located_at,
                },
                Err(_) => RelocateOutcome::NoCandidate,
            }
        },
    }
}

/// The question whether text that differs from `OLD` in white space is meant.
pub open spec fn whitespace_question(
    path: Seq<char>,
    scope: (usize, usize),
    planner_old: Seq<char>,
    actual: Seq<char>,
) -> Seq<char> {
    "An edit-plan step for "@ + path + " (lines "@ + number::dec(scope.0 as nat) + "-"@
        + number::dec(scope.1 as nat)
        + ") emitted an OLD block that does not byte-exactly match the file, but after ignoring whitespace differences a near-match was found in the same scope. Confirm whether this near-match is the same edit target you intended.\n\nOLD as written by the planner:\n----\n"@
        + planner_old + "\n----\n\nActual matching text from the file:\n----\n"@ + actual
        + "\n----\n\nReply with exactly `YES` if this is the intended target, or `NO` if it isn't. Output only the single word, no other text."@
}

/// Asks whether text that differs from `OLD` in white space is meant.
pub fn whitespace_prompt(
    path_str: &str,
    scope_start: usize,
    scope_end: usize,
    planner_old: &str,
    actual_match: &str,
) -> (r: String)
    ensures
        r@ == whitespace_question(
            path_str@,
            (scope_start, scope_end),
            planner_old@,
            actual_match@,
        ),
{
    "An edit-plan step for ".to_owned().concat(path_str).concat(" (lines ").concat(
        &dec_text(scope_start),
    ).concat("-").concat(&dec_text(scope_end)).concat(
        ") emitted an OLD block that does not byte-exactly match the file, but after ignoring whitespace differences a near-match was found in the same scope. Confirm whether this near-match is the same edit target you intended.\n\nOLD as written by the planner:\n----\n",
    ).concat(planner_old).concat(
        "\n----\n\nActual matching text from the file:\n----\n",
    ).concat(actual_match).concat(
        "\n----\n\nReply with exactly `YES` if this is the intended target, or `NO` if it isn't. Output only the single word, no other text.",
    )
}

/// What came of a match that differs in white space.
#[derive(Debug)]
pub enum WhitespaceOutcome {
    /// It was confirmed: this is the new content.
    Applied(String),
    /// It was turned down.
    Rejected,
    /// There is none, or the question was not answered.
    NoCandidate,
}

/// Takes the reply to the question whether a match that differs in white space is
/// meant. There is none where the question could not be asked.
pub fn settle_whitespace(candidate: Option<WsCandidate>, reply: Option<&str>) -> (r:
    WhitespaceOutcome)
    ensures
        match (candidate, reply) {
            (Some(c), Some(text)) => if says_yes(text@) {
                r matches WhitespaceOutcome::Applied(s) && s@ == c.new_content@
            } else {
                r is Rejected
            },
            _ => r is NoCandidate,
        },
{
    match (candidate, reply) {
        (Some(c), Some(text)) => {
            if is_yes(text) {
                WhitespaceOutcome::Applied(c.new_content)
            } else {
                WhitespaceOutcome::Rejected
            }
        },
        _ => WhitespaceOutcome::NoCandidate,
    }
}

proof fn lemma_prefix_of(a: Seq<char>, b: Seq<char>, c: Seq<char>, d: Seq<char>, i: int, j: int)
    requires
        0 <= i <= a.len(),
        0 <= j <= b.len(),
        i <= c.len(),
        j <= d.len(),
        forall|k: int| 0 <= k < i ==> a[k] == #[trigger] c[k],
        forall|k: int| 0 <= k < j ==> b[k] == #[trigger] d[k],
    ensures
        prefix_distance(a, b, i, j) == prefix_distance(c, d, i, j),
    decreases i + j,
{
    if i > 0 && j > 0 {
        lemma_prefix_of(a, b, c, d, i - 1, j);
        lemma_prefix_of(a, b, c, d, i, j - 1);
        lemma_prefix_of(a, b, c, d, i - 1, j - 1);
        assert(a[i - 1] == c[i - 1]);
        assert(b[j - 1] == d[j - 1]);
    }
}

/// One more character makes two texts differ by at most one more, and the same one on both
/// by no more than before; no text differs from nothing by more than its characters.
pub proof fn one_character_costs_one(a: Seq<char>, b: Seq<char>, x: char, y: char)
    ensures
        distance(a.push(x), b) <= distance(a, b) + 1,
        distance(a, b.push(y)) <= distance(a, b) + 1,
        distance(a.push(x), b.push(y)) <= distance(a, b) + 1,
        distance(a.push(x), b.push(x)) <= distance(a, b),
        distance(a, Seq::empty()) == a.len(),
{
    let i = a.len() as int;
    let j = b.len() as int;
    lemma_prefix_of(a, b, a.push(x), b, i, j);
    lemma_prefix_of(a, b, a, b.push(y), i, j);
    lemma_prefix_of(a, b, a.push(x), b.push(y), i, j);
    lemma_prefix_of(a, b, a.push(x), b.push(x), i, j);
}

/// Whether candidate `b` is the best of those below `n`.
spec fn best_below(
    cs: Seq<(usize, usize)>,
    scope_start: usize,
    scope_end: usize,
    n: int,
    b: int,
) -> bool {
    &&& 0 <= b < n
    &&& considered(cs, scope_start, scope_end, b)
    &&& forall|k: int|
        k < n && #[trigger] considered(cs, scope_start, scope_end, k) ==> {
            let db = range_distance(cs[b], scope_start, scope_end);
            let dk = range_distance(cs[k], scope_start, scope_end);
            db < dk || (db == dk && b <= k)
        }
}

proof fn lemma_some_best(
    cs: Seq<(usize, usize)>,
    scope_start: usize,
    scope_end: usize,
    n: int,
    k: int,
) -> (b: int)
    requires
        0 <= k < n <= cs.len(),
        considered(cs, scope_start, scope_end, k),
    ensures
        best_below(cs, scope_start, scope_end, n, b),
    decreases n,
{
    let last = n - 1;
    if k == last && !(exists|j: int|
        0 <= j < last && #[trigger] considered(cs, scope_start, scope_end, j)) {
        last
    } else {
        let j = if k == last {
            choose|j: int| 0 <= j < last && #[trigger] considered(cs, scope_start, scope_end, j)
        } else {
            k
        };
        let b = lemma_some_best(cs, scope_start, scope_end, last, j);
        if considered(cs, scope_start, scope_end, last) && range_distance(
            cs[last],
            scope_start,
            scope_end,
        ) < range_distance(cs[b], scope_start, scope_end) {
            last
        } else {
            b
        }
    }
}

/// The place that is picked is one of those that were found; where any of them has a line
/// of the scope, so has the one that is picked; and no other such place lies nearer, start
/// and end taken together.
pub proof fn nearest_place_is_picked(
    cs: Seq<(usize, usize)>,
    scope_start: usize,
    scope_end: usize,
    j: int,
)
    requires
        0 <= j < cs.len(),
    ensures
        best_of(cs, scope_start, scope_end) matches Some(c) && {
            let near = |r: (usize, usize)| r.0 <= scope_end && scope_start <= r.1;
            let away = |r: (usize, usize)|
                (if r.0 >= scope_start {
                    r.0 - scope_start
                } else {
                    scope_start - r.0
                }) + (if r.1 >= scope_end {
                    r.1 - scope_end
                } else {
                    scope_end - r.1
                });
            &&& cs.contains(c)
            &&& near(cs[j]) ==> near(c)
            &&& near(c) == near(cs[j]) ==> away(c) <= away(cs[j])
        },
{
    let k = if any_meets(cs, scope_start, scope_end) {
        choose|k: int| 0 <= k < cs.len() && meets(#[trigger] cs[k], scope_start, scope_end)
    } else {
        j
    };
    let b = lemma_some_best(cs, scope_start, scope_end, cs.len() as int, k);
    assert(is_best(cs, scope_start, scope_end, b));
    let m = choose|k: int| is_best(cs, scope_start, scope_end, k);
    assert(is_best(cs, scope_start, scope_end, m));
    assert(considered(cs, scope_start, scope_end, m));
    assert(cs.contains(cs[m]));
    if meets(cs[j], scope_start, scope_end) {
        assert(any_meets(cs, scope_start, scope_end));
        assert(considered(cs, scope_start, scope_end, j));
    } else if !meets(cs[m], scope_start, scope_end) {
        assert(!any_meets(cs, scope_start, scope_end));
        assert(considered(cs, scope_start, scope_end, j));
    }
}

/// Where there is no place to pick from, none is picked.
pub proof fn nothing_is_picked_of_nothing(scope_start: usize, scope_end: usize)
    ensures
        best_of(Seq::empty(), scope_start, scope_end) is None,
{
}

proof fn lemma_scores(
    ls: Seq<Seq<char>>,
    old: Seq<Seq<char>>,
    exclude: Seq<(usize, usize)>,
    n: int,
    k: int,
)
    requires
        0 <= k < n,
    ensures
        !exclude.contains(((k + 1) as usize, (k + old.len()) as usize)) ==> scores_before(
            ls,
            old,
            exclude,
            n,
        ).contains(window_scores(ls, old, k)),
    decreases n,
{
    let rest = scores_before(ls, old, exclude, n - 1);
    let all = scores_before(ls, old, exclude, n);
    let w = window_scores(ls, old, k);
    if !exclude.contains(w.range) {
        if k < n - 1 {
            lemma_scores(ls, old, exclude, n - 1, k);
            let i = rest.index_of(w);
            assert(all[i] == w);
        } else {
            assert(all[rest.len() as int] == w);
        }
    }
}

proof fn lemma_scored_windows(
    ls: Seq<Seq<char>>,
    old: Seq<Seq<char>>,
    exclude: Seq<(usize, usize)>,
    n: int,
    i: int,
)
    requires
        0 <= i < scores_before(ls, old, exclude, n).len(),
    ensures
        exists|k: int|
            0 <= k < n && scores_before(ls, old, exclude, n)[i] == #[trigger] window_scores(
                ls,
                old,
                k,
            ) && !exclude.contains(window_scores(ls, old, k).range),
    decreases n,
{
    let rest = scores_before(ls, old, exclude, n - 1);
    if i < rest.len() {
        lemma_scored_windows(ls, old, exclude, n - 1, i);
        let k = choose|k: int|
            0 <= k < n - 1 && rest[i] == #[trigger] window_scores(ls, old, k) && !exclude.contains(
                window_scores(ls, old, k).range,
            );
        assert(scores_before(ls, old, exclude, n)[i] == window_scores(ls, old, k));
    } else {
        assert(scores_before(ls, old, exclude, n)[i] == window_scores(ls, old, n - 1));
    }
}

/// Every run of lines as long as the block is scored, but for those that are left out:
/// with its line numbers, and line by line with how much the two lines differ and how long
/// the longer of them is.
pub proof fn every_window_is_scored(
    content: Seq<char>,
    old: Seq<Seq<char>>,
    exclude: Seq<(usize, usize)>,
    k: int,
)
    requires
        exists|j: int| 0 <= j < old.len() && text::squash(#[trigger] old[j]).len() >= 5,
        0 <= k <= text::lines(content).len() - old.len(),
        !exclude.contains(((k + 1) as usize, (k + old.len()) as usize)),
    ensures
        exists|i: int|
            0 <= i < fuzzy_scores(content, old, exclude).len() && {
                let w = #[trigger] fuzzy_scores(content, old, exclude)[i];
                &&& w.range == ((k + 1) as usize, (k + old.len()) as usize)
                &&& w.scores.len() == old.len()
                &&& forall|j: int|
                    0 <= j < old.len() ==> (#[trigger] w.scores[j]).0 == distance(
                        text::lines(content)[k + j],
                        old[j],
                    ) as usize && w.scores[j].1 == (if text::lines(content)[k + j].len()
                        >= old[j].len() {
                        text::lines(content)[k + j].len()
                    } else {
                        old[j].len()
                    }) as usize
            },
{
    let ls = text::lines(content);
    let n = ls.len() - old.len() + 1;
    assert(fuzzy_enough(old));
    lemma_scores(ls, old, exclude, n, k);
    let all = fuzzy_scores(content, old, exclude);
    let i = all.index_of(window_scores(ls, old, k));
    assert(all[i] == window_scores(ls, old, k));
}

/// Nothing is scored where the block is longer than the file or has no line with at least
/// five characters besides white space, and nothing that is left out.
pub proof fn short_blocks_are_not_scored(
    content: Seq<char>,
    old: Seq<Seq<char>>,
    exclude: Seq<(usize, usize)>,
)
    ensures
        old.len() > text::lines(content).len() || (forall|j: int|
            0 <= j < old.len() ==> text::squash(#[trigger] old[j]).len() < 5) ==> fuzzy_scores(
            content,
            old,
            exclude,
        ).len() == 0,
        forall|i: int|
            0 <= i < fuzzy_scores(content, old, exclude).len() ==> !exclude.contains(
                (#[trigger] fuzzy_scores(content, old, exclude)[i]).range,
            ),
{
    let ls = text::lines(content);
    let all = fuzzy_scores(content, old, exclude);
    assert forall|i: int| 0 <= i < all.len() implies !exclude.contains(
        (#[trigger] all[i]).range,
    ) by {
        lemma_scored_windows(ls, old, exclude, ls.len() - old.len() + 1, i);
    }
}

/// A place elsewhere is what the file holds at those lines, and how it was found is told
/// truly: byte for byte only where the lines equal the block, with white space aside only
/// where they equal it without white space.
pub proof fn relocation_is_in_the_file(
    content: Seq<char>,
    scope_start: usize,
    scope_end: usize,
    old: Seq<Seq<char>>,
    fuzzy: Seq<(usize, usize)>,
)
    requires
        old.len() > 0,
        text::lines(content).len() <= usize::MAX,
        valid_ranges(fuzzy, text::lines(content).len()),
    ensures
        relocation_of(content, scope_start, scope_end, old, fuzzy) matches Some(v) ==> {
            let (a, b) = v.located_at;
            &&& 1 <= a <= b <= text::lines(content).len()
            &&& v.file_old == text::lines(content).subrange(a - 1, b as int)
            &&& v.strategy == Strategy::ByteExact <==> v.file_old == old
            &&& v.strategy == Strategy::WhitespaceNormalized ==> v.file_old.len() == old.len()
                && forall|i: int|
                0 <= i < old.len() ==> text::squash(#[trigger] old[i]) == text::squash(
                    v.file_old[i],
                )
            &&& v.strategy == Strategy::FuzzySimilarity ==> fuzzy.contains((a, b))
            &&& !(a == scope_start && b == scope_end && v.file_old == old)
        },
{
    let ls = text::lines(content);
    let exact = blocks::exact_ranges(content, old);
    let ws = blocks::ws_ranges(content, old, exact);
    let cs = relocation_candidates(content, old, fuzzy);
    match relocation_of(content, scope_start, scope_end, old, fuzzy) {
        Some(v) => {
            let (a, b) = v.located_at;
            nearest_place_is_picked(cs, scope_start, scope_end, 0);
            assert(cs.contains((a, b)));
            lemma_candidates_valid(content, old, fuzzy);
            let k = cs.index_of((a, b));
            assert(1 <= cs[k].0 <= cs[k].1 <= ls.len());
            blocks::exact_ranges_are_the_matches(content, old, a, b);
            blocks::ws_ranges_are_the_matches(content, old, exact, a, b);
            if v.strategy == Strategy::WhitespaceNormalized {
                assert forall|i: int| 0 <= i < old.len() implies text::squash(#[trigger] old[i])
                    == text::squash(v.file_old[i]) by {
                    assert(v.file_old[i] == ls[a - 1 + i]);
                }
            }
            if !exact.contains((a, b)) && !ws.contains((a, b)) {
                if k < exact.len() {
                    assert(exact[k] == (a, b));
                } else if k < exact.len() + ws.len() {
                    assert(ws[k - exact.len()] == (a, b));
                } else {
                    assert(fuzzy[k - exact.len() - ws.len()] == (a, b));
                }
            }
        },
        None => {},
    }
}

/// A replacement elsewhere is made only on a reply that says yes, at the place that was
/// asked about, and as the replacement of what the file holds there.
pub proof fn only_confirmed_places_are_changed(
    content: Seq<char>,
    found: RelocationView,
    new: Seq<Seq<char>>,
    all: bool,
    reply: Option<Seq<char>>,
)
    ensures
        relocation_result(content, found, new, all, reply) matches OutcomeView::Applied {
            new_content,
            located_at,
        } ==> {
            &&& located_at == found.located_at
            &&& reply matches Some(t) && says_yes(t)
            &&& literal::literal_result(
                content,
                located_at.0,
                located_at.1,
                found.file_old,
                new,
                all,
            ) matches Ok(r) && r.0 == new_content
        },
        reply is None ==> relocation_result(content, found, new, all, reply) is NoCandidate,
        (reply matches Some(t) && !says_yes(t)) ==> relocation_result(
            content,
            found,
            new,
            all,
            reply,
        ) is Rejected,
{
}

/// White space around a reply does not matter.
pub proof fn replies_are_trimmed(reply: Seq<char>)
    ensures
        says_yes(reply) == says_yes(text::trim(reply)),
{
    text::trimming_twice_is_trimming(reply);
}

/// A reply that begins with no letter says no.
pub proof fn other_replies_say_no(reply: Seq<char>)
    requires
        text::trim(reply).len() == 0 || !unicode::alphabetic(text::trim(reply)[0]),
    ensures
        !says_yes(reply),
{
    reveal_strlit("yes");
    assert("yes"@.len() == 3);
    assert(first_word_from(text::trim(reply), 0).len() == 0);
}

} // verus!
