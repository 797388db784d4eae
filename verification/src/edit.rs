//! Editing a file by searching for a text and replacing it.
use vstd::prelude::*;

use crate::args;
use crate::args::get_str_or;
use crate::bytes;
use crate::number;
use crate::number::{dec_text, dec_text_u128, padded_dec_text};
use crate::text;
use crate::text::{
    contains_text, count_matches, find_from, first_line_of, from_chars, joined, same_text,
    split_lines, to_chars, trimmed, without_prefix,
};
use crate::tool;
use crate::tool::{ToolResult, ToolView};
use crate::unicode;
use crate::unicode::char_alphanumeric;

verus! {

/// How many lines are shown before and behind an edit.
pub const SHOWN_AROUND_EDIT: usize = 10;

/// The most places with a similar line that are shown.
pub const MAX_NEAR_MATCHES: usize = 3;

/// The most places of a text that are named.
pub const MAX_NAMED_PLACES: usize = 5;

/// Files with fewer lines are better written anew.
pub const SMALL_FILE_LINES: usize = 200;

/// What a call asks for: `old` is to be replaced by `new` in a file.
#[derive(Debug)]
pub struct ReplaceRequest {
    pub path: String,
    pub old: String,
    pub new: String,
}

/// A request over texts.
pub struct ReplaceView {
    pub path: Seq<char>,
    pub old: Seq<char>,
    pub new: Seq<char>,
}

impl DeepView for ReplaceRequest {
    type V = ReplaceView;

    open spec fn deep_view(&self) -> ReplaceView {
        ReplaceView { path: self.path@, old: self.old@, new: self.new@ }
    }
}

/// The request that three texts make: a file and a text to look for must be named.
pub open spec fn replace_request(path: Seq<char>, old: Seq<char>, new: Seq<char>) -> Result<
    ReplaceView,
    Seq<char>,
> {
    if path.len() == 0 {
        Err("Missing required parameter: path"@)
    } else if old.len() == 0 {
        Err("Missing required parameter: old"@)
    } else {
        Ok(ReplaceView { path, old, new })
    }
}

/// Makes a request of three texts.
pub fn make_replace_request(path: String, old: String, new: String) -> (r: Result<
    ReplaceRequest,
    String,
>)
    ensures
        text::result_view(r) == replace_request(path@, old@, new@),
{
    if path.as_str().is_empty() {
        return Err("Missing required parameter: path".to_owned());
    }
    if old.as_str().is_empty() {
        return Err("Missing required parameter: old".to_owned());
    }
    Ok(ReplaceRequest { path, old, new })
}

/// Reads a request from the arguments of a call.
pub fn read_replace_request(args: &serde_json::Value) -> (r: Result<ReplaceRequest, String>)
    ensures
        text::result_view(r) == replace_request(
            args::text_or(args::field(*args, "path"@), Seq::empty()),
            args::text_or(args::field(*args, "old"@), Seq::empty()),
            args::text_or(args::field(*args, "new"@), Seq::empty()),
        ),
{
    let none = String::new();
    let path = get_str_or(args, "path", &none);
    let old = get_str_or(args, "old", &none);
    let new = get_str_or(args, "new", &none);
    make_replace_request(path, old, new)
}

/// `s` with the first `p` replaced by `w`, where there is one.
pub open spec fn replace_first(s: Seq<char>, p: Seq<char>, w: Seq<char>) -> Seq<char> {
    let k = text::text_from(s, p, 0);
    if k <= s.len() {
        s.take(k) + w + s.skip(k + p.len())
    } else {
        s
    }
}

fn replace_once(s: &str, p: &str, w: &str) -> (r: String)
    ensures
        r@ == replace_first(s@, p@, w@),
{
    let v = to_chars(s);
    let q = to_chars(p);
    let n: usize = v.len();
    match find_from(&v, &q, 0) {
        None => s.to_owned(),
        Some(k) => {
            let e: usize = k + q.len();
            proof {
                assert(v@.subrange(0, k as int) =~= s@.take(k as int));
                assert(v@.subrange(k + q@.len(), v@.len() as int) =~= s@.skip(k + p@.len()));
            }
            from_chars(&v, 0, k).concat(w).concat(&from_chars(&v, e, n))
        },
    }
}

/// A line with its number behind a mark.
pub open spec fn marked_line(mark: Seq<char>, n: nat, line: Seq<char>) -> Seq<char> {
    mark + number::padded_dec(n, 4) + "│"@ + line + "\n"@
}

fn render_marked(mark: &str, n: usize, line: &str) -> (r: String)
    ensures
        r@ == marked_line(mark@, n as nat, line@),
{
    mark.to_owned().concat(&padded_dec_text(n, 4)).concat("│").concat(line).concat("\n")
}

/// The lines with indices `start..end`; those with indices `a..b` are marked by
/// `mark`.
pub open spec fn marked_lines(
    ls: Seq<Seq<char>>,
    mark: Seq<char>,
    a: int,
    b: int,
    start: int,
    end: int,
) -> Seq<char>
    decreases end - start,
{
    if end <= start {
        Seq::empty()
    } else {
        marked_lines(ls, mark, a, b, start, end - 1) + marked_line(
            if a <= end - 1 < b {
                mark
            } else {
                " "@
            },
            end as nat,
            ls[end - 1],
        )
    }
}

fn render_marked_lines(
    lines: &Vec<String>,
    mark: &str,
    a: u128,
    b: u128,
    start: usize,
    end: usize,
) -> (r: String)
    requires
        end <= lines@.len(),
    ensures
        r@ == marked_lines(
            lines.deep_view(),
            mark@,
            a as int,
            b as int,
            start as int,
            end as int,
        ),
{
    let ghost ls = lines.deep_view();
    let mut out = String::new();
    let mut i: usize = start;
    while i < end
        invariant
            end <= lines@.len() == ls.len(),
            start <= i,
            i <= end || i == start,
            ls == lines.deep_view(),
            out@ == marked_lines(ls, mark@, a as int, b as int, start as int, i as int),
        decreases end - i,
    {
        let m = if a <= i as u128 && (i as u128) < b {
            mark
        } else {
            " "
        };
        out.append(&render_marked(m, i + 1, &lines[i]));
        i += 1;
    }
    out
}

/// Where the lines that are shown around an edit start.
pub open spec fn shown_from(start: int) -> int {
    if start > SHOWN_AROUND_EDIT {
        start - SHOWN_AROUND_EDIT
    } else {
        0
    }
}

/// Where the lines that are shown around an edit of `count` lines end.
pub open spec fn shown_to(start: int, count: int, total: int) -> int {
    if start + count + SHOWN_AROUND_EDIT < total {
        start + count + SHOWN_AROUND_EDIT
    } else {
        total
    }
}

/// The lines around an edit: `count` lines from index `start` on are new.
pub open spec fn edit_view(path: Seq<char>, edited: Seq<char>, start: int, count: int) -> Seq<char> {
    let ls = text::lines(edited);
    let to = shown_to(start, count, ls.len() as int);
    "✓ Edited "@ + path + " (1 replacement, showing L"@ + number::dec(
        (shown_from(start) + 1) as nat,
    ) + "-"@ + number::dec(to as nat) + ")\n"@ + marked_lines(
        ls,
        "+"@,
        start,
        start + count,
        shown_from(start),
        to,
    )
}

fn render_edit(path: &str, edited: &str, start: usize, count: usize) -> (r: String)
    ensures
        r@ == edit_view(path@, edited@, start as int, count as int),
{
    let lines = split_lines(edited);
    let total: usize = lines.len();
    proof {
        assert(total == lines.deep_view().len());
    }
    let from: usize = if start > SHOWN_AROUND_EDIT {
        start - SHOWN_AROUND_EDIT
    } else {
        0
    };
    let reach: u128 = start as u128 + count as u128 + SHOWN_AROUND_EDIT as u128;
    let to: usize = if reach < total as u128 {
        reach as usize
    } else {
        total
    };
    "✓ Edited ".to_owned().concat(path).concat(" (1 replacement, showing L").concat(
        &dec_text_u128(from as u128 + 1),
    ).concat("-").concat(&dec_text(to)).concat(")\n").concat(
        &render_marked_lines(
            &lines,
            "+",
            start as u128,
            start as u128 + count as u128,
            from,
            to,
        ),
    )
}

/// The hint on a small file.
pub open spec fn small_file_note(path: Seq<char>, edited: Seq<char>) -> Seq<char> {
    let total = text::lines(edited).len();
    if total < SMALL_FILE_LINES {
        "Note: "@ + path + " is "@ + number::dec(total)
            + " lines. For multiple changes, use write_file to rewrite the whole file in one call.\n"@
    } else {
        Seq::empty()
    }
}

fn render_small_note(path: &str, edited: &str) -> (r: String)
    ensures
        r@ == small_file_note(path@, edited@),
{
    let lines = split_lines(edited);
    proof {
        assert(lines@.len() == lines.deep_view().len());
    }
    let total: usize = lines.len();
    if total < SMALL_FILE_LINES {
        "Note: ".to_owned().concat(path).concat(" is ").concat(&dec_text(total)).concat(
            " lines. For multiple changes, use write_file to rewrite the whole file in one call.\n",
        )
    } else {
        String::new()
    }
}

/// Whether the lines `old` stand in `ls` from index `i` on, the white space around
/// each line aside.
pub open spec fn trimmed_at(ls: Seq<Seq<char>>, old: Seq<Seq<char>>, i: int) -> bool {
    0 <= i && i + old.len() <= ls.len() && forall|j: int|
        0 <= j < old.len() ==> text::trim(#[trigger] old[j]) == text::trim(ls[i + j])
}

/// The first index from `i` on where the lines `old` stand in `ls`, the white space
/// around each line aside.
pub open spec fn trimmed_from(ls: Seq<Seq<char>>, old: Seq<Seq<char>>, i: int) -> Option<int>
    decreases ls.len() - i,
{
    if old.len() == 0 || i < 0 || i + old.len() > ls.len() {
        None
    } else if trimmed_at(ls, old, i) {
        Some(i)
    } else {
        trimmed_from(ls, old, i + 1)
    }
}

fn stands_at(lines: &Vec<String>, old: &Vec<String>, i: usize) -> (r: bool)
    requires
        i + old@.len() <= lines@.len(),
    ensures
        r == trimmed_at(lines.deep_view(), old.deep_view(), i as int),
{
    let ghost lv = lines.deep_view();
    let ghost ov = old.deep_view();
    let n: usize = lines.len();
    let mut j: usize = 0;
    while j < old.len()
        invariant
            j <= old@.len() == ov.len(),
            i + ov.len() <= n == lines@.len() == lv.len(),
            lv == lines.deep_view(),
            ov == old.deep_view(),
            forall|k: int| 0 <= k < j ==> text::trim(#[trigger] ov[k]) == text::trim(lv[i + k]),
        decreases old.len() - j,
    {
        proof {
            assert(ov[j as int] == old@[j as int]@);
            assert(lv[i + j] == lines@[i + j]@);
        }
        if !same_text(&trimmed(&old[j]), &trimmed(&lines[i + j])) {
            return false;
        }
        j += 1;
    }
    true
}

/// The first index where the lines `old` stand in `lines`, the white space around
/// each line aside.
pub fn find_trimmed_match(lines: &Vec<String>, old: &Vec<String>) -> (r: Option<usize>)
    ensures
        match r {
            Some(i) => trimmed_from(lines.deep_view(), old.deep_view(), 0) == Some(i as int),
            None => trimmed_from(lines.deep_view(), old.deep_view(), 0) is None,
        },
{
    let ghost lv = lines.deep_view();
    let ghost ov = old.deep_view();
    proof {
        assert(lines@.len() == lv.len());
        assert(old@.len() == ov.len());
    }
    let n: usize = lines.len();
    if old.len() == 0 {
        return None;
    }
    let mut i: usize = 0;
    while i < n && old.len() <= n - i
        invariant
            i <= n == lines@.len() == lv.len(),
            old@.len() == ov.len() > 0,
            lv == lines.deep_view(),
            ov == old.deep_view(),
            trimmed_from(lv, ov, 0) == trimmed_from(lv, ov, i as int),
        decreases n - i,
    {
        if stands_at(lines, old, i) {
            return Some(i);
        }
        i += 1;
    }
    None
}

/// The pairs of neighbours in a text.
pub open spec fn bigrams(s: Seq<char>) -> Seq<(char, char)> {
    Seq::new(
        if s.len() > 0 {
            (s.len() - 1) as nat
        } else {
            0
        },
        |i: int| (s[i], s[i + 1]),
    )
}

/// Where a pair first stands among the pairs from `k` on.
pub open spec fn pair_from(v: Seq<(char, char)>, x: (char, char), k: int) -> int
    decreases v.len() - k,
{
    if k < 0 || k >= v.len() || v[k] == x {
        k
    } else {
        pair_from(v, x, k + 1)
    }
}

/// How many of the pairs `a` from `i` on are found in `rest`, where each that is
/// found is taken out.
pub open spec fn shared_pairs(a: Seq<(char, char)>, i: int, rest: Seq<(char, char)>) -> nat
    decreases a.len() - i,
{
    if i < 0 || i >= a.len() {
        0
    } else {
        let k = pair_from(rest, a[i], 0);
        if k < rest.len() {
            shared_pairs(a, i + 1, rest.remove(k)) + 1
        } else {
            shared_pairs(a, i + 1, rest)
        }
    }
}

/// How similar two lines are: a number of pairs out of a number of pairs. A line is
/// wholly similar to itself; one that is empty or takes one byte is similar to no
/// other.
pub open spec fn similarity(a: Seq<char>, b: Seq<char>) -> (nat, nat) {
    if a == b {
        (1, 1)
    } else if a.len() == 0 || b.len() == 0 || bytes::utf8_len(a) == 1 || bytes::utf8_len(b) == 1 {
        (0, 1)
    } else {
        (
            2 * shared_pairs(bigrams(a), 0, bigrams(b)),
            bigrams(a).len() + bigrams(b).len(),
        )
    }
}

fn read_bigrams(s: &str) -> (r: Vec<(char, char)>)
    ensures
        r@ == bigrams(s@),
{
    let v = to_chars(s);
    let mut out: Vec<(char, char)> = Vec::new();
    let mut i: usize = 1;
    while i < v.len()
        invariant
            1 <= i,
            i <= v@.len() || i == 1,
            v@ == s@,
            out@.len() == i - 1,
            forall|k: int| 0 <= k < i - 1 ==> #[trigger] out@[k] == (v@[k], v@[k + 1]),
        decreases v.len() - i,
    {
        out.push((v[i - 1], v[i]));
        i += 1;
    }
    proof {
        assert(out@ =~= bigrams(s@));
    }
    out
}

fn find_pair(v: &Vec<(char, char)>, x: (char, char)) -> (r: usize)
    ensures
        r == pair_from(v@, x, 0),
        r <= v@.len(),
{
    let mut k: usize = 0;
    while k < v.len()
        invariant
            k <= v@.len(),
            pair_from(v@, x, 0) == pair_from(v@, x, k as int),
        decreases v.len() - k,
    {
        if v[k].0 == x.0 && v[k].1 == x.1 {
            return k;
        }
        k += 1;
    }
    k
}

/// Measures how similar two lines are.
pub fn line_similarity(a: &str, b: &str) -> (r: (u128, u128))
    ensures
        r.0 == similarity(a@, b@).0,
        r.1 == similarity(a@, b@).1,
{
    if same_text(a, b) {
        return (1, 1);
    }
    if a.is_empty() || b.is_empty() || bytes::text_bytes(a) == 1 || bytes::text_bytes(b) == 1 {
        return (0, 1);
    }
    let x = read_bigrams(a);
    let mut rest = read_bigrams(b);
    let total: u128 = x.len() as u128 + rest.len() as u128;
    let ghost whole = rest@;
    let mut found: u128 = 0;
    let mut i: usize = 0;
    while i < x.len()
        invariant
            i <= x@.len(),
            found <= i,
            found + shared_pairs(x@, i as int, rest@) == shared_pairs(x@, 0, whole),
        decreases x.len() - i,
    {
        let k = find_pair(&rest, x[i]);
        if k < rest.len() {
            rest.remove(k);
            found += 1;
        }
        i += 1;
    }
    (found * 2, total)
}

/// How each line of `old` compares with the line of `ls` that stands `i` further
/// on: nothing where they are the same, the white space around them aside.
pub open spec fn window_score(ls: Seq<Seq<char>>, old: Seq<Seq<char>>, i: int) -> Seq<
    Option<(nat, nat)>,
> {
    Seq::new(
        old.len(),
        |j: int|
            {
                let a = text::trim(ls[i + j]);
                let b = text::trim(old[j]);
                if a == b {
                    None
                } else {
                    Some(similarity(a, b))
                }
            },
    )
}

/// Scores by their views.
pub open spec fn scores_view(v: Seq<Option<(u128, u128)>>) -> Seq<Option<(nat, nat)>> {
    Seq::new(
        v.len(),
        |j: int|
            match v[j] {
                None => None,
                Some(x) => Some((x.0 as nat, x.1 as nat)),
            },
    )
}

/// Compares the lines `old` with the lines from index `i` on, one by one.
pub fn score_window(lines: &Vec<String>, old: &Vec<String>, i: usize) -> (r: Vec<
    Option<(u128, u128)>,
>)
    requires
        i + old@.len() <= lines@.len(),
    ensures
        scores_view(r@) == window_score(lines.deep_view(), old.deep_view(), i as int),
{
    let ghost lv = lines.deep_view();
    let ghost ov = old.deep_view();
    let ghost wanted = window_score(lv, ov, i as int);
    let mut out: Vec<Option<(u128, u128)>> = Vec::new();
    let n: usize = lines.len();
    let mut j: usize = 0;
    proof {
        assert(scores_view(out@) =~= wanted.take(0));
    }
    while j < old.len()
        invariant
            j <= old@.len() == ov.len(),
            i + ov.len() <= n == lines@.len() == lv.len(),
            lv == lines.deep_view(),
            ov == old.deep_view(),
            wanted == window_score(lv, ov, i as int),
            scores_view(out@) == wanted.take(j as int),
        decreases old.len() - j,
    {
        proof {
            assert(ov[j as int] == old@[j as int]@);
            assert(lv[i + j] == lines@[i + j]@);
        }
        let a = trimmed(&lines[i + j]);
        let b = trimmed(&old[j]);
        let ghost o = scores_view(out@);
        if same_text(&a, &b) {
            out.push(None);
        } else {
            out.push(Some(line_similarity(&a, &b)));
        }
        proof {
            assert(scores_view(out@) =~= o.push(wanted[j as int]));
            assert(wanted.take(j + 1) =~= o.push(wanted[j as int]));
        }
        j += 1;
    }
    proof {
        assert(wanted.take(j as int) =~= wanted);
    }
    out
}

/// The new content and the answer where the lines from index `start` on stand for
/// `old`.
pub open spec fn normalized_edit(content: Seq<char>, req: ReplaceView, start: int) -> (
    Seq<char>,
    Seq<char>,
) {
    let ls = text::lines(content);
    let found = text::join(
        ls.subrange(start, start + text::lines(req.old).len()),
        "\n"@,
    );
    let edited = replace_first(content, found, req.new);
    (
        edited,
        edit_view(req.path, edited, start, text::lines(req.new).len() as int)
            + "Note: matched with fuzzy/normalized matching — your 'old' text didn't match exactly.\n"@
            + small_file_note(req.path, edited),
    )
}

/// Replaces the lines from index `start` on, which stand for `old`.
pub fn apply_normalized(content: &str, req: &ReplaceRequest, start: usize) -> (r: (
    String,
    ToolResult,
))
    requires
        start + text::lines(req.old@).len() <= text::lines(content@).len(),
    ensures
        r.0@ == normalized_edit(content@, req.deep_view(), start as int).0,
        r.1.deep_view() == tool::ok_view(
            normalized_edit(content@, req.deep_view(), start as int).1,
        ),
{
    let lines = split_lines(content);
    let old_lines = split_lines(&req.old);
    let new_lines = split_lines(&req.new);
    let ghost ls = lines.deep_view();
    proof {
        assert(lines@.len() == ls.len());
        assert(old_lines@.len() == old_lines.deep_view().len());
        assert(new_lines@.len() == new_lines.deep_view().len());
    }
    let total: usize = lines.len();
    proof {
        assert(start + old_lines@.len() <= total);
    }
    let end: usize = start + old_lines.len();
    let mut found: Vec<String> = Vec::new();
    let mut i: usize = start;
    proof {
        assert(found.deep_view() =~= ls.subrange(start as int, start as int));
    }
    while i < end
        invariant
            start <= i <= end <= lines@.len() == ls.len(),
            ls == lines.deep_view(),
            found.deep_view() == ls.subrange(start as int, i as int),
        decreases end - i,
    {
        let ghost o = found.deep_view();
        found.push(lines[i].clone());
        proof {
            assert(found.deep_view() =~= o.push(ls[i as int]));
            assert(ls.subrange(start as int, i + 1) =~= o.push(ls[i as int]));
        }
        i += 1;
    }
    let edited = replace_once(content, &joined(&found, "\n"), &req.new);
    let out = render_edit(&req.path, &edited, start, new_lines.len()).concat(
        "Note: matched with fuzzy/normalized matching — your 'old' text didn't match exactly.\n",
    ).concat(&render_small_note(&req.path, &edited));
    (edited, ToolResult::ok(out))
}

/// The lines around the line with index `i`, which is like the text that was
/// looked for.
pub open spec fn near_match(ls: Seq<Seq<char>>, i: int) -> Seq<char> {
    "[near match at L"@ + number::dec((i + 1) as nat) + "]\n"@ + marked_lines(
        ls,
        ">"@,
        i,
        i + 1,
        if i > 5 {
            i - 5
        } else {
            0
        },
        if i + 6 < ls.len() {
            i + 6
        } else {
            ls.len() as int
        },
    )
}

/// The indices of the first lines among the first `n` that hold `p`, at most
/// `limit` of them.
pub open spec fn lines_with(ls: Seq<Seq<char>>, p: Seq<char>, limit: nat, n: int) -> Seq<int>
    decreases n,
{
    if n <= 0 {
        Seq::empty()
    } else {
        let before = lines_with(ls, p, limit, n - 1);
        if before.len() < limit && text::has_text(ls[n - 1], p) {
            before.push(n - 1)
        } else {
            before
        }
    }
}

/// The lines around the first `n` of the given indices.
pub open spec fn near_matches(ls: Seq<Seq<char>>, at: Seq<int>, n: int) -> Seq<char>
    decreases n,
{
    if n <= 0 {
        Seq::empty()
    } else {
        near_matches(ls, at, n - 1) + near_match(ls, at[n - 1])
    }
}

/// What is answered where the text was not found: where its first line stands, if
/// anywhere.
pub open spec fn not_found(content: Seq<char>, req: ReplaceView) -> Seq<char> {
    let ls = text::lines(content);
    let first = text::trim(text::first_line(req.old));
    let at = if first.len() == 0 {
        Seq::empty()
    } else {
        lines_with(ls, first, MAX_NEAR_MATCHES as nat, ls.len() as int)
    };
    "old_content not found in "@ + req.path
        + ". Make sure the text matches exactly (including whitespace).\n"@ + near_matches(
        ls,
        at,
        at.len() as int,
    ) + "["@ + req.path + ": "@ + number::dec(ls.len())
        + " lines total]\nHINT: Copy the exact text from the line numbers shown above into 'old'. Or use write_file to rewrite the whole file.\n"@
}

fn render_near(lines: &Vec<String>, i: usize) -> (r: String)
    requires
        i < lines@.len(),
    ensures
        r@ == near_match(lines.deep_view(), i as int),
{
    let n: usize = lines.len();
    proof {
        assert(n == lines.deep_view().len());
    }
    let from: usize = if i > 5 {
        i - 5
    } else {
        0
    };
    let to: usize = if n - i > 6 {
        i + 6
    } else {
        n
    };
    "[near match at L".to_owned().concat(&dec_text(i + 1)).concat("]\n").concat(
        &render_marked_lines(lines, ">", i as u128, i as u128 + 1, from, to),
    )
}

/// Answers that the text was not found.
pub fn report_not_found(content: &str, req: &ReplaceRequest) -> (r: ToolResult)
    ensures
        r.deep_view() == tool::err_view(not_found(content@, req.deep_view())),
{
    let lines = split_lines(content);
    let ghost ls = lines.deep_view();
    proof {
        assert(lines@.len() == ls.len());
    }
    let first = trimmed(&first_line_of(&req.old));
    let mut out = "old_content not found in ".to_owned().concat(&req.path).concat(
        ". Make sure the text matches exactly (including whitespace).\n",
    );
    let ghost head = out@;
    let ghost mut at: Seq<int> = Seq::empty();
    let mut shown: usize = 0;
    let mut i: usize = 0;
    proof {
        assert(out@ =~= head + near_matches(ls, at, 0));
    }
    if !first.as_str().is_empty() {
        while i < lines.len()
            invariant
                i <= lines@.len() == ls.len(),
                ls == lines.deep_view(),
                shown == at.len(),
                shown <= i,
                at == lines_with(ls, first@, MAX_NEAR_MATCHES as nat, i as int),
                out@ == head + near_matches(ls, at, at.len() as int),
            decreases lines.len() - i,
        {
            proof {
                assert(ls[i as int] == lines@[i as int]@);
            }
            if shown < MAX_NEAR_MATCHES && contains_text(&lines[i], &first) {
                let ghost o = at;
                let ghost before = out@;
                out.append(&render_near(&lines, i));
                proof {
                    at = at.push(i as int);
                    lemma_near_prefix(ls, o, at, o.len() as int);
                    assert(out@ =~= head + near_matches(ls, at, at.len() as int));
                }
                shown += 1;
            }
            i += 1;
        }
    }
    ToolResult::err(
        out.concat("[").concat(&req.path).concat(": ").concat(&dec_text(lines.len())).concat(
            " lines total]\nHINT: Copy the exact text from the line numbers shown above into 'old'. Or use write_file to rewrite the whole file.\n",
        ),
    )
}

proof fn lemma_near_prefix(ls: Seq<Seq<char>>, a: Seq<int>, b: Seq<int>, n: int)
    requires
        n <= a.len() <= b.len(),
        forall|k: int| 0 <= k < a.len() ==> a[k] == #[trigger] b[k],
    ensures
        near_matches(ls, a, n) == near_matches(ls, b, n),
    decreases n,
{
    if n > 0 {
        lemma_near_prefix(ls, a, b, n - 1);
        assert(a[n - 1] == b[n - 1]);
    }
}

/// How many newlines stand in the first `n` characters.
pub open spec fn newlines(s: Seq<char>, n: int) -> nat
    decreases n,
{
    if n <= 0 {
        0
    } else {
        newlines(s, n - 1) + (if s[n - 1] == '\n' {
            1nat
        } else {
            0nat
        })
    }
}

/// The lines of the first `n` places from `from` on where `p` stands in `s`; two
/// places may overlap.
pub open spec fn place_names(s: Seq<char>, p: Seq<char>, from: int, n: int) -> Seq<Seq<char>>
    decreases n,
{
    let k = text::text_from(s, p, from);
    if n <= 0 || k > s.len() {
        Seq::empty()
    } else {
        seq!["L"@ + number::dec(newlines(s, k) + 1)] + place_names(s, p, k + 1, n - 1)
    }
}

/// What is answered where the text stands in several places.
pub open spec fn ambiguous(content: Seq<char>, req: ReplaceView, count: nat) -> Seq<char> {
    "old_content matches "@ + number::dec(count) + " locations in "@ + req.path + " (at "@
        + text::join(
        place_names(
            content,
            req.old,
            0,
            if count < MAX_NAMED_PLACES {
                count as int
            } else {
                MAX_NAMED_PLACES as int
            },
        ),
        ", "@,
    )
        + ").\nInclude more surrounding lines in 'old' to make the match unique, or use write_file to rewrite the whole file."@
}

fn count_newlines(v: &Vec<char>, n: usize) -> (r: usize)
    requires
        n <= v@.len(),
    ensures
        r == newlines(v@, n as int),
        r <= n,
{
    let mut count: usize = 0;
    let mut i: usize = 0;
    while i < n
        invariant
            i <= n <= v@.len(),
            count <= i,
            count == newlines(v@, i as int),
        decreases n - i,
    {
        if v[i] == '\n' {
            count += 1;
        }
        i += 1;
    }
    count
}

fn name_places(v: &Vec<char>, p: &Vec<char>, limit: usize) -> (r: Vec<String>)
    requires
        p@.len() > 0,
    ensures
        r.deep_view() == place_names(v@, p@, 0, limit as int),
{
    let mut out: Vec<String> = Vec::new();
    let n: usize = v.len();
    let mut from: usize = 0;
    let mut left: usize = limit;
    proof {
        assert(out.deep_view() + place_names(v@, p@, 0, limit as int) =~= place_names(
            v@,
            p@,
            0,
            limit as int,
        ));
    }
    while left > 0
        invariant
            from <= n == v@.len(),
            left <= limit,
            p@.len() > 0,
            out.deep_view() + place_names(v@, p@, from as int, left as int) == place_names(
                v@,
                p@,
                0,
                limit as int,
            ),
        decreases left,
    {
        let ghost o = out.deep_view();
        match find_from(v, p, from) {
            None => {
                proof {
                    assert(o + Seq::<Seq<char>>::empty() =~= o);
                }
                return out;
            },
            Some(k) => {
                let line: usize = count_newlines(v, k) + 1;
                out.push("L".to_owned().concat(&dec_text(line)));
                proof {
                    assert(out.deep_view() =~= o.push("L"@ + number::dec(newlines(v@, k as int) + 1)));
                    assert(out.deep_view() + place_names(v@, p@, k + 1, left - 1) =~= o
                        + place_names(v@, p@, from as int, left as int));
                }
                from = k + 1;
                left -= 1;
            },
        }
    }
    proof {
        assert(out.deep_view() + place_names(v@, p@, from as int, 0) =~= out.deep_view());
    }
    out
}

/// The characters that a name is made of, from position `i` on.
pub open spec fn name_end(s: Seq<char>, i: int) -> int
    decreases s.len() - i,
{
    if i < 0 || i >= s.len() || !(unicode::alphanumeric(s[i]) || s[i] == '_') {
        i
    } else {
        name_end(s, i + 1)
    }
}

/// The name behind a prefix, where `t` begins with it and a name follows.
pub open spec fn name_after(t: Seq<char>, prefix: Seq<char>) -> Option<Seq<char>> {
    match text::strip_prefix(t, prefix) {
        None => None,
        Some(rest) => if name_end(rest, 0) > 0 {
            Some(rest.subrange(0, name_end(rest, 0)))
        } else {
            None
        },
    }
}

/// The name of the function that a line declares.
pub open spec fn declared_in(line: Seq<char>) -> Option<Seq<char>> {
    let t = text::trim(line);
    if name_after(t, "pub async fn "@) is Some {
        name_after(t, "pub async fn "@)
    } else if name_after(t, "pub fn "@) is Some {
        name_after(t, "pub fn "@)
    } else if name_after(t, "async fn "@) is Some {
        name_after(t, "async fn "@)
    } else {
        name_after(t, "fn "@)
    }
}

/// The name of the first function that the lines from index `i` on declare.
pub open spec fn first_declared(ls: Seq<Seq<char>>, i: int) -> Option<Seq<char>>
    decreases ls.len() - i,
{
    if i < 0 || i >= ls.len() {
        None
    } else if declared_in(ls[i]) is Some {
        declared_in(ls[i])
    } else {
        first_declared(ls, i + 1)
    }
}

fn read_name_after(t: &str, prefix: &str) -> (r: Option<String>)
    ensures
        r.deep_view() == name_after(t@, prefix@),
{
    match without_prefix(t, prefix) {
        None => None,
        Some(rest) => {
            let v = to_chars(&rest);
            let mut e: usize = 0;
            while e < v.len() && (v[e] == '_' || char_alphanumeric(v[e]))
                invariant
                    e <= v@.len(),
                    name_end(v@, 0) == name_end(v@, e as int),
                decreases v.len() - e,
            {
                e += 1;
            }
            if e > 0 {
                Some(from_chars(&v, 0, e))
            } else {
                None
            }
        },
    }
}

/// The name of the first function that a text declares.
pub fn extract_fn_name(text: &str) -> (r: Option<String>)
    ensures
        r.deep_view() == first_declared(text::lines(text@), 0),
{
    let lines = split_lines(text);
    let ghost ls = lines.deep_view();
    let mut i: usize = 0;
    proof {
        assert(lines@.len() == ls.len());
    }
    while i < lines.len()
        invariant
            i <= lines@.len() == ls.len(),
            ls == lines.deep_view(),
            first_declared(ls, 0) == first_declared(ls, i as int),
            ls == text::lines(text@),
        decreases lines.len() - i,
    {
        proof {
            assert(ls[i as int] == lines@[i as int]@);
        }
        let t = trimmed(&lines[i]);
        if let Some(name) = read_name_after(&t, "pub async fn ") {
            return Some(name);
        }
        if let Some(name) = read_name_after(&t, "pub fn ") {
            return Some(name);
        }
        if let Some(name) = read_name_after(&t, "async fn ") {
            return Some(name);
        }
        if let Some(name) = read_name_after(&t, "fn ") {
            return Some(name);
        }
        i += 1;
    }
    None
}

/// The index of the first line from `i` on that holds `p`, or 0 where none does.
pub open spec fn line_with(ls: Seq<Seq<char>>, p: Seq<char>, i: int) -> int
    decreases ls.len() - i,
{
    if i < 0 || i >= ls.len() {
        0
    } else if text::has_text(ls[i], p) {
        i
    } else {
        line_with(ls, p, i + 1)
    }
}

/// Where the new lines are taken to stand in the edited text: at the first line
/// that holds the first of them.
pub open spec fn edit_start(edited: Seq<char>, new: Seq<char>) -> int {
    let ns = text::lines(new);
    if ns.len() == 0 {
        0
    } else {
        line_with(text::lines(edited), ns[0], 0)
    }
}

/// The hint on the callers of a function whose signature changed.
pub open spec fn signature_note(old: Seq<char>, new: Seq<char>) -> Seq<char> {
    if text::has_text(old, "fn "@) && text::has_text(new, "fn "@) {
        match first_declared(text::lines(new), 0) {
            Some(name) => "\nIMPORTANT: You changed a function signature. Use search(\""@ + name
                + "\") to find ALL call sites and update them.\n"@,
            None => Seq::empty(),
        }
    } else {
        Seq::empty()
    }
}

/// The new content and the answer where the text stands in one place.
pub open spec fn exact_edit(content: Seq<char>, req: ReplaceView) -> (Seq<char>, Seq<char>) {
    let edited = replace_first(content, req.old, req.new);
    let note = small_file_note(req.path, edited);
    (
        edited,
        edit_view(
            req.path,
            edited,
            edit_start(edited, req.new),
            text::lines(req.new).len() as int,
        ) + (if note.len() > 0 {
            "\n"@ + note
        } else {
            Seq::empty()
        }) + signature_note(req.old, req.new),
    )
}

fn find_edit_start(edited: &str, new_lines: &Vec<String>) -> (r: usize)
    ensures
        r == (if new_lines.deep_view().len() == 0 {
            0
        } else {
            line_with(text::lines(edited@), new_lines.deep_view()[0], 0)
        }),
{
    proof {
        assert(new_lines@.len() == new_lines.deep_view().len());
    }
    if new_lines.len() == 0 {
        return 0;
    }
    let lines = split_lines(edited);
    let ghost ls = lines.deep_view();
    let mut i: usize = 0;
    proof {
        assert(lines@.len() == ls.len());
    }
    while i < lines.len()
        invariant
            i <= lines@.len() == ls.len(),
            ls == lines.deep_view(),
            new_lines@.len() > 0,
            line_with(ls, new_lines.deep_view()[0], 0) == line_with(
                ls,
                new_lines.deep_view()[0],
                i as int,
            ),
            ls == text::lines(edited@),
        decreases lines.len() - i,
    {
        proof {
            assert(ls[i as int] == lines@[i as int]@);
        }
        if contains_text(&lines[i], &new_lines[0]) {
            return i;
        }
        i += 1;
    }
    0
}

fn apply_exact(content: &str, req: &ReplaceRequest) -> (r: (String, ToolResult))
    ensures
        r.0@ == exact_edit(content@, req.deep_view()).0,
        r.1.deep_view() == tool::ok_view(exact_edit(content@, req.deep_view()).1),
{
    let edited = replace_once(content, &req.old, &req.new);
    let new_lines = split_lines(&req.new);
    proof {
        assert(new_lines@.len() == new_lines.deep_view().len());
    }
    let start = find_edit_start(&edited, &new_lines);
    let note = render_small_note(&req.path, &edited);
    let shown = if note.as_str().is_empty() {
        String::new()
    } else {
        "\n".to_owned().concat(&note)
    };
    let hint = if contains_text(&req.old, "fn ") && contains_text(&req.new, "fn ") {
        match extract_fn_name(&req.new) {
            Some(name) => "\nIMPORTANT: You changed a function signature. Use search(\"".to_owned().concat(
                &name,
            ).concat("\") to find ALL call sites and update them.\n"),
            None => String::new(),
        }
    } else {
        String::new()
    };
    let out = render_edit(&req.path, &edited, start, new_lines.len()).concat(&shown).concat(&hint);
    (edited, ToolResult::ok(out))
}

/// How a call goes on once the file is read.
#[derive(Debug)]
pub enum EditStep {
    /// The text stands in one place: the new content and the answer.
    Replaced(String, ToolResult),
    /// The text stands in several places.
    Ambiguous(ToolResult),
    /// The text stands nowhere: lines that stand for it are to be looked for.
    NotFound,
}

/// How a call goes on, over texts.
pub enum EditStepView {
    Replaced(Seq<char>, ToolView),
    Ambiguous(ToolView),
    NotFound,
}

impl DeepView for EditStep {
    type V = EditStepView;

    open spec fn deep_view(&self) -> EditStepView {
        match *self {
            EditStep::Replaced(s, t) => EditStepView::Replaced(s@, t.deep_view()),
            EditStep::Ambiguous(t) => EditStepView::Ambiguous(t.deep_view()),
            EditStep::NotFound => EditStepView::NotFound,
        }
    }
}

/// How a call goes on, by how often the text stands in the file.
pub open spec fn edit_step(content: Seq<char>, req: ReplaceView) -> EditStepView {
    let count = text::count_from(content, req.old, 0);
    if count == 0 {
        EditStepView::NotFound
    } else if count > 1 {
        EditStepView::Ambiguous(tool::err_view(ambiguous(content, req, count)))
    } else {
        EditStepView::Replaced(
            exact_edit(content, req).0,
            tool::ok_view(exact_edit(content, req).1),
        )
    }
}

/// Whether the places of a text can be named: it stands in one place at most, or
/// begins with a character of one byte.
pub open spec fn can_name_places(content: Seq<char>, old: Seq<char>) -> bool {
    text::count_from(content, old, 0) <= 1 || bytes::width(old[0]) == 1
}

/// Tests whether the places of a text can be named.
pub fn places_can_be_named(content: &str, old: &str) -> (r: bool)
    requires
        old@.len() > 0,
    ensures
        r == can_name_places(content@, old@),
{
    let v = to_chars(content);
    let p = to_chars(old);
    count_matches(&v, &p) <= 1 || (p[0] as u32) < 0x80
}

/// Replaces the text, where it stands in one place of the file.
pub fn try_edit(content: &str, req: &ReplaceRequest) -> (r: EditStep)
    requires
        req.old@.len() > 0,
        can_name_places(content@, req.old@),
    ensures
        r.deep_view() == edit_step(content@, req.deep_view()),
{
    let v = to_chars(content);
    let p = to_chars(&req.old);
    let count = count_matches(&v, &p);
    if count == 0 {
        return EditStep::NotFound;
    }
    if count > 1 {
        let limit: usize = if count < MAX_NAMED_PLACES {
            count
        } else {
            MAX_NAMED_PLACES
        };
        return EditStep::Ambiguous(
            ToolResult::err(
                "old_content matches ".to_owned().concat(&dec_text(count)).concat(
                    " locations in ",
                ).concat(&req.path).concat(" (at ").concat(
                    &joined(&name_places(&v, &p, limit), ", "),
                ).concat(
                    ").\nInclude more surrounding lines in 'old' to make the match unique, or use write_file to rewrite the whole file.",
                ),
            ),
        );
    }
    let (edited, answer) = apply_exact(content, req);
    EditStep::Replaced(edited, answer)
}

/// Where a text stands in one place, replacing it leaves everything before and
/// behind it as it was.
pub proof fn edit_touches_only_the_text(content: Seq<char>, req: ReplaceView)
    requires
        req.old.len() > 0,
        text::count_from(content, req.old, 0) == 1,
    ensures
        exists|k: int|
            #[trigger] text::occurs_at(content, req.old, k) && exact_edit(content, req).0
                == content.take(k) + req.new + content.skip(k + req.old.len()),
{
    text::lemma_text_from(content, req.old, 0);
    let k = text::text_from(content, req.old, 0);
    assert(k <= content.len());
    assert(text::occurs_at(content, req.old, k));
}

/// What stands in one place is replaced there and nowhere else: where `old` begins
/// at `k`, nowhere before, and nowhere behind that place again, the new content is
/// the old one with `new` in place of those characters, and the call succeeds.
pub proof fn one_place_is_replaced(content: Seq<char>, req: ReplaceView, k: int)
    requires
        req.old.len() > 0,
        0 <= k <= content.len() - req.old.len(),
        content.subrange(k, k + req.old.len()) == req.old,
        forall|j: int|
            0 <= j <= content.len() - req.old.len() && (j < k || k + req.old.len() <= j)
                ==> #[trigger] content.subrange(j, j + req.old.len()) != req.old,
    ensures
        edit_step(content, req) matches EditStepView::Replaced(s, t) && s == content.take(k)
            + req.new + content.skip(k + req.old.len()) && t.success,
{
    let n = req.old.len();
    text::lemma_text_from(content, req.old, 0);
    let first = text::text_from(content, req.old, 0);
    assert(text::occurs_at(content, req.old, k));
    assert(first == k) by {
        if first < k {
            assert(content.subrange(first, first + n) != req.old);
        }
    }
    text::lemma_text_from(content, req.old, k + n);
    let second = text::text_from(content, req.old, k + n);
    assert(second > content.len()) by {
        if second <= content.len() {
            assert(content.subrange(second, second + n) != req.old);
        }
    }
    assert(text::count_from(content, req.old, k + n) == 0);
    assert(text::count_from(content, req.old, 0) == 1);
    assert(exact_edit(content, req).0 =~= content.take(k) + req.new + content.skip(k + n));
}

/// A text that stands in two places apart from one another is replaced in neither:
/// the call fails.
pub proof fn two_places_are_refused(content: Seq<char>, req: ReplaceView, i: int, j: int)
    requires
        req.old.len() > 0,
        0 <= i,
        i + req.old.len() <= j <= content.len() - req.old.len(),
        content.subrange(i, i + req.old.len()) == req.old,
        content.subrange(j, j + req.old.len()) == req.old,
    ensures
        edit_step(content, req) matches EditStepView::Ambiguous(t) && !t.success,
{
    let n = req.old.len();
    assert(text::occurs_at(content, req.old, i));
    assert(text::occurs_at(content, req.old, j));
    text::lemma_text_from(content, req.old, 0);
    let first = text::text_from(content, req.old, 0);
    assert(first <= i);
    text::lemma_text_from(content, req.old, first + n);
    assert(text::text_from(content, req.old, first + n) <= j);
    assert(text::count_from(content, req.old, first + n) >= 1);
}

/// Lines that stand for the text are looked for exactly where it stands nowhere.
pub proof fn only_absent_text_is_not_found(content: Seq<char>, req: ReplaceView)
    requires
        req.old.len() > 0,
    ensures
        edit_step(content, req) is NotFound <==> forall|j: int|
            0 <= j <= content.len() - req.old.len() ==> #[trigger] content.subrange(
                j,
                j + req.old.len(),
            ) != req.old,
{
    let n = req.old.len();
    text::lemma_text_from(content, req.old, 0);
    let first = text::text_from(content, req.old, 0);
    if edit_step(content, req) is NotFound {
        assert forall|j: int| 0 <= j <= content.len() - n implies #[trigger] content.subrange(
            j,
            j + n,
        ) != req.old by {
            assert(!text::occurs_at(content, req.old, j));
        }
    } else {
        assert(text::occurs_at(content, req.old, first));
        assert(content.subrange(first, first + n) == req.old);
    }
}

/// A request holds the file, the old text and the new one as they were given, and is made
/// exactly where a file and an old text are named.
pub proof fn replace_request_holds_its_texts(path: Seq<char>, old: Seq<char>, new: Seq<char>)
    ensures
        replace_request(path, old, new) is Ok <==> path.len() > 0 && old.len() > 0,
        replace_request(path, old, new) matches Ok(r) ==> r.path == path && r.old == old && r.new
            == new,
{
}

/// Lines that stand for a text, white space around each aside, are found at the first
/// place where they stand, and nowhere only where there is none.
pub proof fn trimmed_match_is_the_first(ls: Seq<Seq<char>>, old: Seq<Seq<char>>, i: int)
    requires
        old.len() > 0,
        0 <= i,
    ensures
        trimmed_from(ls, old, i) matches Some(k) ==> i <= k <= ls.len() - old.len() && (forall|j: int|
            0 <= j < old.len() ==> text::trim(#[trigger] old[j]) == text::trim(ls[k + j])),
        forall|m: int|
            i <= m && (trimmed_from(ls, old, i) matches Some(k) ==> m < k) ==> !(
            #[trigger] trimmed_at(ls, old, m)),
    decreases ls.len() - i,
{
    if i + old.len() <= ls.len() && !trimmed_at(ls, old, i) {
        trimmed_match_is_the_first(ls, old, i + 1);
    }
}

proof fn lemma_pair_from(v: Seq<(char, char)>, x: (char, char), k: int)
    requires
        0 <= k <= v.len(),
    ensures
        k <= pair_from(v, x, k) <= v.len(),
        pair_from(v, x, k) < v.len() ==> v[pair_from(v, x, k)] == x,
        forall|j: int| k <= j < pair_from(v, x, k) ==> #[trigger] v[j] != x,
    decreases v.len() - k,
{
    if k < v.len() && v[k] != x {
        lemma_pair_from(v, x, k + 1);
    }
}

proof fn lemma_shared(a: Seq<(char, char)>, i: int, rest: Seq<(char, char)>)
    requires
        0 <= i <= a.len(),
    ensures
        shared_pairs(a, i, rest) <= rest.len(),
        shared_pairs(a, i, rest) <= a.len() - i,
        shared_pairs(a, i, rest) > 0 <==> exists|j: int|
            i <= j < a.len() && rest.contains(#[trigger] a[j]),
    decreases a.len() - i,
{
    if i < a.len() {
        lemma_pair_from(rest, a[i], 0);
        let k = pair_from(rest, a[i], 0);
        if k < rest.len() {
            lemma_shared(a, i + 1, rest.remove(k));
            assert(rest.contains(a[i]));
        } else {
            lemma_shared(a, i + 1, rest);
            assert(!rest.contains(a[i]));
        }
    }
}

/// How similar two lines are lies between nothing and all; equal lines are wholly similar,
/// and others have something in common exactly where two neighbouring characters of one
/// are neighbours in the other, unless one of them takes one byte or none.
pub proof fn similarity_is_a_share(a: Seq<char>, b: Seq<char>)
    ensures
        similarity(a, b).0 <= similarity(a, b).1,
        a == b || a.len() > 1 || b.len() > 1 ==> similarity(a, b).1 > 0,
        a == b ==> similarity(a, b).0 == similarity(a, b).1,
        a != b && bytes::utf8_len(a) > 1 && bytes::utf8_len(b) > 1 && (a.len() > 1 || b.len() > 1)
            ==> (similarity(a, b).0 > 0 <==> exists|i: int, j: int|
            0 <= i < a.len() - 1 && 0 <= j < b.len() - 1 && #[trigger] bigrams(a)[i]
                == #[trigger] bigrams(b)[j]),
{
    let x = bigrams(a);
    let y = bigrams(b);
    lemma_shared(x, 0, y);
    if a != b && a.len() > 0 && b.len() > 0 && bytes::utf8_len(a) != 1 && bytes::utf8_len(b) != 1 {
        if shared_pairs(x, 0, y) > 0 {
            let i = choose|i: int| 0 <= i < x.len() && y.contains(#[trigger] x[i]);
            let j = y.index_of(x[i]);
            assert(x[i] == y[j]);
        }
        if exists|i: int, j: int|
            0 <= i < a.len() - 1 && 0 <= j < b.len() - 1 && #[trigger] bigrams(a)[i]
                == #[trigger] bigrams(b)[j] {
            let (i, j) = choose|i: int, j: int|
                0 <= i < a.len() - 1 && 0 <= j < b.len() - 1 && #[trigger] bigrams(a)[i]
                    == #[trigger] bigrams(b)[j];
            assert(y.contains(x[i]));
        }
    }
}

/// Where lines that stand for the text were found, the first place of the file that holds
/// them as they are gives way to exactly the new text, and nothing else changes.
pub proof fn normalized_edit_replaces_the_lines(
    content: Seq<char>,
    req: ReplaceView,
    start: int,
    k: int,
)
    requires
        0 <= start <= text::lines(content).len() - text::lines(req.old).len(),
        ({
            let found = text::join(
                text::lines(content).subrange(start, start + text::lines(req.old).len()),
                "\n"@,
            );
            &&& 0 <= k <= content.len() - found.len()
            &&& content.subrange(k, k + found.len()) == found
            &&& forall|j: int|
                0 <= j < k ==> #[trigger] content.subrange(j, j + found.len()) != found
        }),
    ensures
        ({
            let found = text::join(
                text::lines(content).subrange(start, start + text::lines(req.old).len()),
                "\n"@,
            );
            normalized_edit(content, req, start).0 == content.take(k) + req.new + content.skip(
                k + found.len(),
            )
        }),
{
    let found = text::join(
        text::lines(content).subrange(start, start + text::lines(req.old).len()),
        "\n"@,
    );
    text::lemma_text_from(content, found, 0);
    let first = text::text_from(content, found, 0);
    assert(text::occurs_at(content, found, k));
    if first < k {
        assert(content.subrange(first, first + found.len()) == found);
    }
}

proof fn lemma_marked(
    ls: Seq<Seq<char>>,
    mark: Seq<char>,
    a: int,
    b: int,
    start: int,
    end: int,
    k: int,
)
    requires
        start <= k < end,
    ensures
        text::has_text(
            marked_lines(ls, mark, a, b, start, end),
            marked_line(
                if a <= k < b {
                    mark
                } else {
                    " "@
                },
                (k + 1) as nat,
                ls[k],
            ),
        ),
    decreases end - start,
{
    let p = marked_line(
        if a <= k < b {
            mark
        } else {
            " "@
        },
        (k + 1) as nat,
        ls[k],
    );
    if k < end - 1 {
        lemma_marked(ls, mark, a, b, start, end - 1, k);
    }
    text::found_in_either(
        marked_lines(ls, mark, a, b, start, end - 1),
        marked_line(
            if a <= end - 1 < b {
                mark
            } else {
                " "@
            },
            end as nat,
            ls[end - 1],
        ),
        p,
    );
}

/// The answer to an edit shows each line of the edited file that is at most ten lines away
/// from the new ones, with its number, and a plus sign before those that are new.
pub proof fn edit_is_shown(path: Seq<char>, edited: Seq<char>, start: int, count: int, k: int)
    requires
        0 <= start,
        0 <= count,
        0 <= k < text::lines(edited).len(),
        start - 10 <= k < start + count + 10,
    ensures
        text::has_text(
            edit_view(path, edited, start, count),
            (if start <= k < start + count {
                "+"@
            } else {
                " "@
            }) + number::padded_dec((k + 1) as nat, 4) + "│"@ + text::lines(edited)[k] + "\n"@,
        ),
        text::starts_with(edit_view(path, edited, start, count), "✓ Edited "@ + path),
{
    let ls = text::lines(edited);
    let to = shown_to(start, count, ls.len() as int);
    let head = "✓ Edited "@ + path + " (1 replacement, showing L"@ + number::dec(
        (shown_from(start) + 1) as nat,
    ) + "-"@ + number::dec(to as nat) + ")\n"@;
    let body = marked_lines(ls, "+"@, start, start + count, shown_from(start), to);
    let p = marked_line(
        if start <= k < start + count {
            "+"@
        } else {
            " "@
        },
        (k + 1) as nat,
        ls[k],
    );
    lemma_marked(ls, "+"@, start, start + count, shown_from(start), to, k);
    text::found_in_either(head, body, p);
    let front = "✓ Edited "@ + path;
    assert((head + body).subrange(0, front.len() as int) =~= front);
}

proof fn lemma_lines_with(ls: Seq<Seq<char>>, p: Seq<char>, limit: nat, n: int, k: int)
    requires
        0 <= k < n <= ls.len(),
        limit > 0,
        text::has_text(ls[k], p),
        forall|j: int| 0 <= j < k ==> !text::has_text(#[trigger] ls[j], p),
    ensures
        lines_with(ls, p, limit, n).len() > 0,
        lines_with(ls, p, limit, n)[0] == k,
        lines_with(ls, p, limit, k).len() == 0,
    decreases n,
{
    lemma_no_lines_with(ls, p, limit, k);
    if n > k + 1 {
        lemma_lines_with(ls, p, limit, n - 1, k);
    }
}

proof fn lemma_no_lines_with(ls: Seq<Seq<char>>, p: Seq<char>, limit: nat, n: int)
    requires
        0 <= n <= ls.len(),
        forall|j: int| 0 <= j < n ==> !text::has_text(#[trigger] ls[j], p),
    ensures
        lines_with(ls, p, limit, n).len() == 0,
    decreases n,
{
    if n > 0 {
        lemma_no_lines_with(ls, p, limit, n - 1);
    }
}

proof fn lemma_first_near(ls: Seq<Seq<char>>, at: Seq<int>, n: int)
    requires
        0 < n <= at.len(),
    ensures
        text::has_text(near_matches(ls, at, n), near_match(ls, at[0])),
    decreases n,
{
    if n > 1 {
        lemma_first_near(ls, at, n - 1);
    }
    text::found_in_either(
        near_matches(ls, at, n - 1),
        near_match(ls, at[n - 1]),
        near_match(ls, at[0]),
    );
}

/// The answer to a text that was not found names the file, and shows the first line that
/// holds the first line of the text, white space around it aside, with its number.
pub proof fn near_match_is_shown(content: Seq<char>, req: ReplaceView, k: int)
    requires
        text::trim(text::first_line(req.old)).len() > 0,
        0 <= k < text::lines(content).len(),
        text::has_text(text::lines(content)[k], text::trim(text::first_line(req.old))),
        forall|j: int|
            0 <= j < k ==> !text::has_text(
                #[trigger] text::lines(content)[j],
                text::trim(text::first_line(req.old)),
            ),
    ensures
        text::has_text(
            not_found(content, req),
            "[near match at L"@ + number::dec((k + 1) as nat) + "]\n"@,
        ),
        text::has_text(
            not_found(content, req),
            ">"@ + number::padded_dec((k + 1) as nat, 4) + "│"@ + text::lines(content)[k] + "\n"@,
        ),
        text::starts_with(not_found(content, req), "old_content not found in "@ + req.path),
{
    let ls = text::lines(content);
    let first = text::trim(text::first_line(req.old));
    let at = lines_with(ls, first, MAX_NEAR_MATCHES as nat, ls.len() as int);
    lemma_lines_with(ls, first, MAX_NEAR_MATCHES as nat, ls.len() as int, k);
    lemma_first_near(ls, at, at.len() as int);
    let from = if k > 5 {
        k - 5
    } else {
        0
    };
    let to = if k + 6 < ls.len() {
        k + 6
    } else {
        ls.len() as int
    };
    let near = near_match(ls, k);
    let title = "[near match at L"@ + number::dec((k + 1) as nat) + "]\n"@;
    let body = marked_lines(ls, ">"@, k, k + 1, from, to);
    let p = ">"@ + number::padded_dec((k + 1) as nat, 4) + "│"@ + ls[k] + "\n"@;
    lemma_marked(ls, ">"@, k, k + 1, from, to, k);
    text::found_in_either(title, body, p);
    text::found_in_either(title, body, title);
    let head = "old_content not found in "@ + req.path;
    let h2 = head + ". Make sure the text matches exactly (including whitespace).\n"@;
    let all = near_matches(ls, at, at.len() as int);
    let rest = "["@ + req.path + ": "@ + number::dec(ls.len())
        + " lines total]\nHINT: Copy the exact text from the line numbers shown above into 'old'. Or use write_file to rewrite the whole file.\n"@;
    text::found_through(all, near, p);
    text::found_through(all, near, title);
    text::found_in_either(h2, all, p);
    text::found_in_either(h2, all, title);
    text::found_in_either(h2 + all, rest, p);
    text::found_in_either(h2 + all, rest, title);
    assert(not_found(content, req) =~= h2 + all + rest);
    assert(not_found(content, req).subrange(0, head.len() as int) =~= head);
}

/// The answer to a text that stands in several places tells how many there are, names the
/// file, and names first the line of the first place.
pub proof fn places_are_counted(content: Seq<char>, req: ReplaceView, count: nat, k: int)
    requires
        req.old.len() > 0,
        count >= 1,
        0 <= k <= content.len() - req.old.len(),
        content.subrange(k, k + req.old.len()) == req.old,
        forall|j: int|
            0 <= j < k ==> #[trigger] content.subrange(j, j + req.old.len()) != req.old,
    ensures
        text::starts_with(
            ambiguous(content, req, count),
            "old_content matches "@ + number::dec(count) + " locations in "@ + req.path
                + " (at L"@ + number::dec(newlines(content, k) + 1),
        ),
{
    let n = if count < MAX_NAMED_PLACES {
        count as int
    } else {
        MAX_NAMED_PLACES as int
    };
    text::lemma_text_from(content, req.old, 0);
    let first = text::text_from(content, req.old, 0);
    assert(text::occurs_at(content, req.old, k));
    if first < k {
        assert(content.subrange(first, first + req.old.len()) == req.old);
    }
    let name = "L"@ + number::dec(newlines(content, k) + 1);
    let rest = place_names(content, req.old, k + 1, n - 1);
    let names = place_names(content, req.old, 0, n);
    assert(names == seq![name] + rest);
    let joined_names = text::join(names, ", "@);
    assert(joined_names.len() >= name.len() && joined_names.take(name.len() as int) =~= name) by {
        if rest.len() > 0 {
            text::joined_parts_follow_one_another(seq![name], rest, ", "@);
        } else {
            assert(names =~= seq![name]);
            text::joined_parts_follow_one_another(names, rest, ", "@);
        }
    }
    reveal_strlit(" (at ");
    reveal_strlit(" (at L");
    reveal_strlit("L");
    let head = "old_content matches "@ + number::dec(count) + " locations in "@ + req.path;
    let p = head + " (at L"@ + number::dec(newlines(content, k) + 1);
    let s = ambiguous(content, req, count);
    assert(" (at L"@ =~= " (at "@ + "L"@);
    assert(p =~= head + " (at "@ + name);
    assert(s.subrange(0, p.len() as int) =~= p) by {
        assert forall|i: int| 0 <= i < p.len() implies s[i] == p[i] by {
            let h = (head + " (at "@).len() as int;
            if i >= h {
                assert(s[i] == joined_names[i - h]);
                assert(joined_names[i - h] == joined_names.take(name.len() as int)[i - h]);
            }
        }
    }
}

proof fn lemma_name_end(s: Seq<char>, i: int)
    requires
        0 <= i <= s.len(),
    ensures
        i <= name_end(s, i) <= s.len(),
        forall|k: int|
            i <= k < name_end(s, i) ==> unicode::alphanumeric(#[trigger] s[k]) || s[k] == '_',
        name_end(s, i) < s.len() ==> !(unicode::alphanumeric(s[name_end(s, i)]) || s[name_end(s, i)]
            == '_'),
    decreases s.len() - i,
{
    if i < s.len() && (unicode::alphanumeric(s[i]) || s[i] == '_') {
        lemma_name_end(s, i + 1);
    }
}

proof fn lemma_name_after(prefix: Seq<char>, name: Seq<char>, rest: Seq<char>)
    requires
        name.len() > 0,
        forall|k: int|
            0 <= k < name.len() ==> unicode::alphanumeric(#[trigger] name[k]) || name[k] == '_',
        rest.len() > 0 ==> !(unicode::alphanumeric(rest[0]) || rest[0] == '_'),
    ensures
        name_after(prefix + name + rest, prefix) == Some(name),
{
    let t = prefix + name + rest;
    let tail = t.subrange(prefix.len() as int, t.len() as int);
    assert(t.subrange(0, prefix.len() as int) =~= prefix);
    assert(tail =~= name + rest);
    lemma_name_end(tail, 0);
    let e = name_end(tail, 0);
    if e < name.len() {
        assert(tail[e] == name[e]);
    }
    if e > name.len() {
        assert(tail[name.len() as int] == rest[0]);
    }
    assert(tail.subrange(0, e) =~= name);
}

/// A line that declares a function, public or not, asynchronous or not, gives the name of
/// that function.
pub proof fn declared_names_are_read(name: Seq<char>, rest: Seq<char>)
    requires
        name.len() > 0,
        forall|k: int|
            0 <= k < name.len() ==> unicode::alphanumeric(#[trigger] name[k]) || name[k] == '_',
        rest.len() > 0,
        !(unicode::alphanumeric(rest[0]) || rest[0] == '_'),
        !text::is_space(rest.last()),
    ensures
        declared_in("fn "@ + name + rest) == Some(name),
        declared_in("pub fn "@ + name + rest) == Some(name),
        declared_in("async fn "@ + name + rest) == Some(name),
        declared_in("pub async fn "@ + name + rest) == Some(name),
{
    reveal_strlit("fn ");
    reveal_strlit("pub fn ");
    reveal_strlit("async fn ");
    reveal_strlit("pub async fn ");
    let a = "fn "@ + name + rest;
    let b = "pub fn "@ + name + rest;
    let c = "async fn "@ + name + rest;
    let d = "pub async fn "@ + name + rest;
    assert(a[0] == 'f' && b[0] == 'p' && c[0] == 'a' && d[0] == 'p' && b[4] == 'f');
    assert(a.last() == rest.last() && b.last() == rest.last() && c.last() == rest.last()
        && d.last() == rest.last());
    text::trimmed_text_stays(a);
    text::trimmed_text_stays(b);
    text::trimmed_text_stays(c);
    text::trimmed_text_stays(d);
    lemma_name_after("fn "@, name, rest);
    lemma_name_after("pub fn "@, name, rest);
    lemma_name_after("async fn "@, name, rest);
    lemma_name_after("pub async fn "@, name, rest);
    lemma_other_start(a, "pub async fn "@, 0);
    lemma_other_start(a, "pub fn "@, 0);
    lemma_other_start(a, "async fn "@, 0);
    lemma_other_start(b, "pub async fn "@, 4);
    lemma_other_start(c, "pub async fn "@, 0);
    lemma_other_start(c, "pub fn "@, 0);
}

proof fn lemma_other_start(s: Seq<char>, p: Seq<char>, k: int)
    requires
        0 <= k < p.len(),
        k < s.len(),
        s[k] != p[k],
    ensures
        name_after(s, p) is None,
{
    if text::starts_with(s, p) {
        assert(s.subrange(0, p.len() as int)[k] == s[k]);
    }
}

/// The function that a text is taken to declare is that of the first line that declares
/// one.
pub proof fn first_declaration_counts(ls: Seq<Seq<char>>, i: int, k: int)
    requires
        0 <= i <= k < ls.len(),
        declared_in(ls[k]) is Some,
        forall|j: int| i <= j < k ==> declared_in(#[trigger] ls[j]) is None,
    ensures
        first_declared(ls, i) == declared_in(ls[k]),
    decreases k - i,
{
    if i < k {
        first_declaration_counts(ls, i + 1, k);
    }
}

/// Where a text that holds a function declaration gives way to another, the answer names
/// the function whose callers are to be looked at.
pub proof fn changed_signatures_are_told(content: Seq<char>, req: ReplaceView, name: Seq<char>)
    requires
        text::count_from(content, req.old, 0) == 1,
        text::has_text(req.old, "fn "@),
        text::has_text(req.new, "fn "@),
        first_declared(text::lines(req.new), 0) == Some(name),
    ensures
        edit_step(content, req) matches EditStepView::Replaced(s, t) && text::has_text(
            t.content,
            "search(\""@ + name + "\")"@,
        ),
{
    reveal_strlit("\nIMPORTANT: You changed a function signature. Use search(\"");
    reveal_strlit("search(\"");
    reveal_strlit("\")");
    reveal_strlit("\") to find ALL call sites and update them.\n");
    let a = "\nIMPORTANT: You changed a function signature. Use search(\""@;
    let b = "\") to find ALL call sites and update them.\n"@;
    let p = "search(\""@ + name + "\")"@;
    let note = a + name + b;
    let k = a.len() - 8;
    assert(note.subrange(k, k + p.len()) =~= p);
    assert(text::occurs_at(note, p, k));
    let t = exact_edit(content, req).1;
    let front = t.take(t.len() - note.len());
    assert(t =~= front + note);
    text::found_in_either(front, note, p);
}

/// Where the lines stand somewhere, white space around each aside, they are found, there or
/// before.
pub proof fn trimmed_places_are_found(ls: Seq<Seq<char>>, old: Seq<Seq<char>>, m: int)
    requires
        old.len() > 0,
        0 <= m <= ls.len() - old.len(),
        forall|j: int| 0 <= j < old.len() ==> text::trim(#[trigger] old[j]) == text::trim(ls[m + j]),
    ensures
        trimmed_from(ls, old, 0) matches Some(k) && 0 <= k <= m,
{
    trimmed_match_is_the_first(ls, old, 0);
    assert(trimmed_at(ls, old, m));
}

/// A file of less than two hundred lines is noted with its name and length, another is not.
pub proof fn small_files_are_noted(path: Seq<char>, edited: Seq<char>)
    ensures
        text::lines(edited).len() < 200 ==> text::starts_with(
            small_file_note(path, edited),
            "Note: "@ + path + " is "@ + number::dec(text::lines(edited).len()),
        ),
        text::lines(edited).len() >= 200 ==> small_file_note(path, edited).len() == 0,
{
    let s = small_file_note(path, edited);
    let h = "Note: "@ + path + " is "@ + number::dec(text::lines(edited).len());
    if text::lines(edited).len() < 200 {
        assert(s.subrange(0, h.len() as int) =~= h);
    }
}

} // verus!
