//! Blocks of lines: where they stand in a file, and short previews of them.
use vstd::prelude::*;

use crate::number;
use crate::number::dec_text;
use crate::text;
use crate::text::{joined, quote, same_text, split_lines, trimmed, ws_squash};

verus! {

/// The most lines that a preview shows.
pub const MAX_PREVIEW_LINES: usize = 6;

/// The most places that a list of lines names.
pub const MAX_LISTED_LINES: usize = 8;

/// Whether the block `needle` stands in `haystack` at index `k`.
pub open spec fn block_at(haystack: Seq<Seq<char>>, needle: Seq<Seq<char>>, k: int) -> bool {
    0 <= k && k + needle.len() <= haystack.len() && haystack.subrange(k, k + needle.len())
        == needle
}

/// The indices below `m` where `needle` stands in `haystack`, in ascending
/// order. An empty block stands nowhere.
pub open spec fn block_positions(
    haystack: Seq<Seq<char>>,
    needle: Seq<Seq<char>>,
    m: int,
) -> Seq<usize>
    decreases m,
{
    if m <= 0 {
        Seq::empty()
    } else if needle.len() > 0 && block_at(haystack, needle, m - 1) {
        block_positions(haystack, needle, m - 1).push((m - 1) as usize)
    } else {
        block_positions(haystack, needle, m - 1)
    }
}

/// The indices where `needle` stands in `haystack`.
pub open spec fn block_matches(haystack: Seq<Seq<char>>, needle: Seq<Seq<char>>) -> Seq<usize> {
    block_positions(haystack, needle, haystack.len() as int)
}

/// Each line without surrounding white space.
pub open spec fn trim_lines(ls: Seq<Seq<char>>) -> Seq<Seq<char>> {
    Seq::new(ls.len(), |i: int| text::trim(ls[i]))
}

/// Each line without any white space.
pub open spec fn squash_lines(ls: Seq<Seq<char>>) -> Seq<Seq<char>> {
    Seq::new(ls.len(), |i: int| text::squash(ls[i]))
}

/// Every index that is listed is one where the block stands, and every such
/// index is listed.
pub proof fn lemma_block_positions(haystack: Seq<Seq<char>>, needle: Seq<Seq<char>>, m: int)
    requires
        0 <= m <= usize::MAX,
    ensures
        forall|p: int|
            0 <= p < block_positions(haystack, needle, m).len() ==> block_at(
                haystack,
                needle,
                #[trigger] block_positions(haystack, needle, m)[p] as int,
            ) && block_positions(haystack, needle, m)[p] < m,
        needle.len() > 0 ==> forall|k: int|
            0 <= k < m && #[trigger] block_at(haystack, needle, k) ==> block_positions(
                haystack,
                needle,
                m,
            ).contains(k as usize),
    decreases m,
{
    if m > 0 {
        lemma_block_positions(haystack, needle, m - 1);
        let rest = block_positions(haystack, needle, m - 1);
        let all = block_positions(haystack, needle, m);
        if needle.len() > 0 {
            assert forall|k: int|
                0 <= k < m && #[trigger] block_at(haystack, needle, k) implies all.contains(
                k as usize,
            ) by {
                if k == m - 1 {
                    assert(all[all.len() - 1] == k as usize);
                } else {
                    assert(rest.contains(k as usize));
                    let p = rest.index_of(k as usize);
                    assert(all[p] == k as usize);
                }
            }
        }
    }
}

/// Whether the block `needle` stands in `haystack` at index `k`.
pub fn block_stands_at(haystack: &[String], needle: &[String], k: usize) -> (r: bool)
    ensures
        r == block_at(haystack.deep_view(), needle.deep_view(), k as int),
{
    let ghost h = haystack.deep_view();
    let ghost d = needle.deep_view();
    let n: usize = haystack.len();
    if k > n || needle.len() > n - k {
        return false;
    }
    let mut j: usize = 0;
    while j < needle.len()
        invariant
            j <= needle@.len(),
            k + needle@.len() <= haystack@.len() == n,
            h == haystack.deep_view(),
            d == needle.deep_view(),
            h.subrange(k as int, k + j) == d.take(j as int),
        decreases needle.len() - j,
    {
        if !same_text(&haystack[k + j], &needle[j]) {
            proof {
                assert(h.subrange(k as int, k + d.len())[j as int] == h[k + j]);
            }
            return false;
        }
        j += 1;
        proof {
            assert(h.subrange(k as int, k + j) =~= h.subrange(k as int, k + j - 1).push(
                h[k + j - 1],
            ));
            assert(d.take(j as int) =~= d.take(j - 1).push(d[j - 1]));
        }
    }
    proof {
        assert(d.take(j as int) =~= d);
    }
    true
}

/// The indices where `needle` stands in `haystack`.
pub fn find_exact_block_matches(haystack: &[String], needle: &[String]) -> (r: Vec<usize>)
    ensures
        r@ == block_matches(haystack.deep_view(), needle.deep_view()),
{
    let mut out: Vec<usize> = Vec::new();
    let mut k: usize = 0;
    while k < haystack.len()
        invariant
            k <= haystack@.len(),
            out@ == block_positions(haystack.deep_view(), needle.deep_view(), k as int),
        decreases haystack.len() - k,
    {
        if needle.len() > 0 && block_stands_at(haystack, needle, k) {
            out.push(k);
        }
        k += 1;
    }
    out
}

fn trimmed_lines(ls: &[String]) -> (r: Vec<String>)
    ensures
        r.deep_view() == trim_lines(ls.deep_view()),
{
    let ghost lv = ls.deep_view();
    let mut out: Vec<String> = Vec::new();
    let mut i: usize = 0;
    while i < ls.len()
        invariant
            i <= ls@.len(),
            lv == ls.deep_view(),
            out.deep_view() == trim_lines(lv).take(i as int),
        decreases ls.len() - i,
    {
        let ghost o = out.deep_view();
        out.push(trimmed(&ls[i]));
        proof {
            assert(out.deep_view() =~= o.push(text::trim(lv[i as int])));
            assert(trim_lines(lv).take(i + 1) =~= o.push(text::trim(lv[i as int])));
        }
        i += 1;
    }
    proof {
        assert(trim_lines(lv).take(i as int) =~= trim_lines(lv));
    }
    out
}

/// Each line without any white space.
pub fn squashed_lines(ls: &[String]) -> (r: Vec<String>)
    ensures
        r.deep_view() == squash_lines(ls.deep_view()),
{
    let ghost lv = ls.deep_view();
    let mut out: Vec<String> = Vec::new();
    let mut i: usize = 0;
    while i < ls.len()
        invariant
            i <= ls@.len(),
            lv == ls.deep_view(),
            out.deep_view() == squash_lines(lv).take(i as int),
        decreases ls.len() - i,
    {
        let ghost o = out.deep_view();
        out.push(ws_squash(&ls[i]));
        proof {
            assert(out.deep_view() =~= o.push(text::squash(lv[i as int])));
            assert(squash_lines(lv).take(i + 1) =~= o.push(text::squash(lv[i as int])));
        }
        i += 1;
    }
    proof {
        assert(squash_lines(lv).take(i as int) =~= squash_lines(lv));
    }
    out
}

/// The indices where `needle` stands in `haystack`, surrounding white space of
/// each line aside.
pub fn find_trimmed_block_matches(haystack: &[String], needle: &[String]) -> (r: Vec<usize>)
    ensures
        r@ == block_matches(trim_lines(haystack.deep_view()), trim_lines(needle.deep_view())),
{
    let h = trimmed_lines(haystack);
    let n = trimmed_lines(needle);
    find_exact_block_matches(&h, &n)
}

/// One line of a preview: with its line number where the block has one, else
/// numbered as a line of the `OLD` block.
pub open spec fn preview_line(line: Seq<char>, i: int, first: Option<usize>) -> Seq<char> {
    match first {
        Some(f) => "L"@ + number::dec((f + i) as nat) + ": "@ + text::quoted(line),
        None => "OLD"@ + number::dec((i + 1) as nat) + ": "@ + text::quoted(line),
    }
}

/// The first lines of a block, quoted, and how many more it has.
pub open spec fn preview(ls: Seq<Seq<char>>, first: Option<usize>) -> Seq<char> {
    let n = if ls.len() > MAX_PREVIEW_LINES {
        MAX_PREVIEW_LINES as nat
    } else {
        ls.len()
    };
    let shown = text::join(Seq::new(n, |i: int| preview_line(ls[i], i, first)), "\n"@);
    if ls.len() > MAX_PREVIEW_LINES {
        shown + "\n... "@ + number::dec((ls.len() - MAX_PREVIEW_LINES) as nat) + " more line(s)"@
    } else {
        shown
    }
}

/// A preview of a block of lines. `first_line` is the number of its first line
/// in the file.
pub fn preview_block(lines: &[String], first_line: Option<usize>) -> (r: String)
    requires
        first_line matches Some(f) ==> f + lines@.len() <= usize::MAX + 1,
    ensures
        r@ == preview(lines.deep_view(), first_line),
{
    let ghost lv = lines.deep_view();
    let n: usize = if lines.len() > MAX_PREVIEW_LINES {
        MAX_PREVIEW_LINES
    } else {
        lines.len()
    };
    let ghost wanted = Seq::new(n as nat, |i: int| preview_line(lv[i], i, first_line));
    let mut parts: Vec<String> = Vec::new();
    let mut i: usize = 0;
    while i < n
        invariant
            i <= n <= lines@.len(),
            n <= MAX_PREVIEW_LINES,
            lv == lines.deep_view(),
            first_line matches Some(f) ==> f + lines@.len() <= usize::MAX + 1,
            wanted == Seq::new(n as nat, |i: int| preview_line(lv[i], i, first_line)),
            parts.deep_view() == wanted.take(i as int),
        decreases n - i,
    {
        let ghost o = parts.deep_view();
        let part = match first_line {
            Some(first) => "L".to_owned().concat(&dec_text(first + i)).concat(": ").concat(
                &quote(&lines[i]),
            ),
            None => "OLD".to_owned().concat(&dec_text(i + 1)).concat(": ").concat(&quote(&lines[i])),
        };
        parts.push(part);
        proof {
            assert(parts.deep_view() =~= o.push(wanted[i as int]));
            assert(wanted.take(i + 1) =~= o.push(wanted[i as int]));
        }
        i += 1;
    }
    proof {
        assert(wanted.take(n as int) =~= wanted);
    }
    let shown = joined(&parts, "\n");
    if lines.len() > MAX_PREVIEW_LINES {
        shown.concat("\n... ").concat(&dec_text(lines.len() - MAX_PREVIEW_LINES)).concat(
            " more line(s)",
        )
    } else {
        shown
    }
}

/// What stands in a file at index `start`, for a block of `len` lines.
pub open spec fn anchor_preview(ls: Seq<Seq<char>>, start: int, len: nat) -> Seq<char> {
    if start >= ls.len() {
        "anchor L"@ + number::dec((start + 1) as nat) + " is beyond end of file ("@ + number::dec(
            ls.len(),
        ) + " line(s))"@
    } else {
        let n = if len == 0 {
            1
        } else {
            len
        };
        let end = if start + n < ls.len() {
            start + n
        } else {
            ls.len() as int
        };
        preview(ls.subrange(start, end), Some((start + 1) as usize))
    }
}

/// The lines `ls[from..to]`.
pub fn copy_range(ls: &[String], from: usize, to: usize) -> (r: Vec<String>)
    requires
        from <= to <= ls@.len(),
    ensures
        r.deep_view() == ls.deep_view().subrange(from as int, to as int),
{
    let ghost lv = ls.deep_view();
    let mut out: Vec<String> = Vec::new();
    let mut i: usize = from;
    while i < to
        invariant
            from <= i <= to <= ls@.len(),
            lv == ls.deep_view(),
            out.deep_view() == lv.subrange(from as int, i as int),
        decreases to - i,
    {
        let ghost o = out.deep_view();
        out.push(ls[i].clone());
        proof {
            assert(out.deep_view() =~= o.push(lv[i as int]));
            assert(lv.subrange(from as int, i + 1) =~= o.push(lv[i as int]));
        }
        i += 1;
    }
    out
}

/// What stands in a file at index `start_idx`, for a block of `desired_len`
/// lines.
pub fn preview_anchor(original: &[String], start_idx: usize, desired_len: usize) -> (r: String)
    requires
        start_idx < usize::MAX,
    ensures
        r@ == anchor_preview(original.deep_view(), start_idx as int, desired_len as nat),
{
    if start_idx >= original.len() {
        return "anchor L".to_owned().concat(&dec_text(start_idx + 1)).concat(
            " is beyond end of file (",
        ).concat(&dec_text(original.len())).concat(" line(s))");
    }
    let n: usize = if desired_len == 0 {
        1
    } else {
        desired_len
    };
    let end: usize = if n < original.len() - start_idx {
        start_idx + n
    } else {
        original.len()
    };
    let shown = copy_range(original, start_idx, end);
    proof {
        assert(shown@.len() == shown.deep_view().len());
    }
    preview_block(&shown, Some(start_idx + 1))
}

/// The line numbers of the first indices, and how many more there are.
pub open spec fn line_list(indices: Seq<usize>) -> Seq<char> {
    let n = if indices.len() > MAX_LISTED_LINES {
        MAX_LISTED_LINES as nat
    } else {
        indices.len()
    };
    let parts = Seq::new(n, |i: int| "L"@ + number::dec((indices[i] + 1) as nat));
    if indices.len() > MAX_LISTED_LINES {
        text::join(
            parts.push(
                "..."@ + number::dec((indices.len() - MAX_LISTED_LINES) as nat) + " more"@,
            ),
            ", "@,
        )
    } else {
        text::join(parts, ", "@)
    }
}

/// Lists the line numbers of some indices.
pub fn format_line_list(indices: &[usize]) -> (r: String)
    requires
        forall|i: int| 0 <= i < indices@.len() ==> #[trigger] indices@[i] < usize::MAX,
    ensures
        r@ == line_list(indices@),
{
    let n: usize = if indices.len() > MAX_LISTED_LINES {
        MAX_LISTED_LINES
    } else {
        indices.len()
    };
    let ghost wanted = Seq::new(n as nat, |i: int| "L"@ + number::dec((indices@[i] + 1) as nat));
    let mut parts: Vec<String> = Vec::new();
    let mut i: usize = 0;
    while i < n
        invariant
            i <= n <= indices@.len(),
            forall|i: int| 0 <= i < indices@.len() ==> #[trigger] indices@[i] < usize::MAX,
            wanted == Seq::new(n as nat, |i: int| "L"@ + number::dec((indices@[i] + 1) as nat)),
            parts.deep_view() == wanted.take(i as int),
        decreases n - i,
    {
        let ghost o = parts.deep_view();
        parts.push("L".to_owned().concat(&dec_text(indices[i] + 1)));
        proof {
            assert(parts.deep_view() =~= o.push(wanted[i as int]));
            assert(wanted.take(i + 1) =~= o.push(wanted[i as int]));
        }
        i += 1;
    }
    proof {
        assert(wanted.take(n as int) =~= wanted);
    }
    if indices.len() > MAX_LISTED_LINES {
        let ghost o = parts.deep_view();
        let more = "...".to_owned().concat(&dec_text(indices.len() - MAX_LISTED_LINES)).concat(
            " more",
        );
        proof {
            assert(more@ == "..."@ + number::dec((indices@.len() - MAX_LISTED_LINES) as nat)
                + " more"@);
        }
        let ghost m = more@;
        parts.push(more);
        proof {
            assert(parts.deep_view() =~= o.push(m));
        }
    }
    joined(&parts, ", ")
}

/// The 1-based inclusive ranges of the blocks at `positions`, but for those in
/// `exclude`.
pub open spec fn ranges_of(
    positions: Seq<usize>,
    len: nat,
    exclude: Seq<(usize, usize)>,
) -> Seq<(usize, usize)>
    decreases positions.len(),
{
    if positions.len() == 0 {
        Seq::empty()
    } else {
        let rest = ranges_of(positions.drop_last(), len, exclude);
        let range = ((positions.last() + 1) as usize, (positions.last() + len) as usize);
        if exclude.contains(range) {
            rest
        } else {
            rest.push(range)
        }
    }
}

/// Whether `range` is one of `ranges`.
pub fn lists_range(ranges: &[(usize, usize)], range: (usize, usize)) -> (r: bool)
    ensures
        r == ranges@.contains(range),
{
    let mut i: usize = 0;
    while i < ranges.len()
        invariant
            i <= ranges@.len(),
            forall|k: int| 0 <= k < i ==> #[trigger] ranges@[k] != range,
        decreases ranges.len() - i,
    {
        let x = ranges[i];
        if x.0 == range.0 && x.1 == range.1 {
            proof {
                assert(ranges@[i as int] == range);
            }
            return true;
        }
        i += 1;
    }
    false
}

fn collect_ranges(positions: &Vec<usize>, len: usize, exclude: &[(usize, usize)]) -> (r: Vec<
    (usize, usize),
>)
    requires
        len > 0,
        forall|p: int| 0 <= p < positions@.len() ==> #[trigger] positions@[p] + len <= usize::MAX,
    ensures
        r@ == ranges_of(positions@, len as nat, exclude@),
{
    let mut out: Vec<(usize, usize)> = Vec::new();
    let mut i: usize = 0;
    while i < positions.len()
        invariant
            i <= positions.len(),
            len > 0,
            forall|p: int|
                0 <= p < positions@.len() ==> #[trigger] positions@[p] + len <= usize::MAX,
            out@ == ranges_of(positions@.take(i as int), len as nat, exclude@),
        decreases positions.len() - i,
    {
        let range = (positions[i] + 1, positions[i] + len);
        proof {
            assert(positions@.take(i + 1).drop_last() =~= positions@.take(i as int));
        }
        if !lists_range(exclude, range) {
            out.push(range);
        }
        i += 1;
    }
    proof {
        assert(positions@.take(i as int) =~= positions@);
    }
    out
}

/// The ranges of lines of `content` that equal the block `old`.
pub open spec fn exact_ranges(content: Seq<char>, old: Seq<Seq<char>>) -> Seq<(usize, usize)> {
    ranges_of(block_matches(text::lines(content), old), old.len(), Seq::empty())
}

/// Finds the ranges of lines of `content` that equal the block `old`.
pub fn find_all_exact_line_matches(content: &str, old: &[String]) -> (r: Vec<(usize, usize)>)
    ensures
        r@ == exact_ranges(content@, old.deep_view()),
{
    let lines = split_lines(content);
    let positions = find_exact_block_matches(&lines, old);
    let total: usize = lines.len();
    proof {
        assert(total == lines.deep_view().len());
        lemma_block_positions(lines.deep_view(), old.deep_view(), lines@.len() as int);
        lemma_no_positions(lines.deep_view(), old.deep_view(), lines@.len() as int);
    }
    let none: Vec<(usize, usize)> = Vec::new();
    if old.len() == 0 {
        return none;
    }
    collect_ranges(&positions, old.len(), &none)
}

/// An empty block stands nowhere.
pub proof fn lemma_no_positions(haystack: Seq<Seq<char>>, needle: Seq<Seq<char>>, m: int)
    ensures
        needle.len() == 0 ==> block_positions(haystack, needle, m).len() == 0,
    decreases m,
{
    if m > 0 {
        lemma_no_positions(haystack, needle, m - 1);
    }
}

/// The ranges of lines of `content` that equal the block `old` when all white
/// space is left out, but for those in `exclude`. A block of nothing but white
/// space stands nowhere.
pub open spec fn ws_ranges(
    content: Seq<char>,
    old: Seq<Seq<char>>,
    exclude: Seq<(usize, usize)>,
) -> Seq<(usize, usize)> {
    if forall|i: int| 0 <= i < old.len() ==> text::squash(#[trigger] old[i]).len() == 0 {
        Seq::empty()
    } else {
        ranges_of(
            block_matches(squash_lines(text::lines(content)), squash_lines(old)),
            old.len(),
            exclude,
        )
    }
}

/// Finds the ranges of lines of `content` that equal the block `old` when all
/// white space is left out, but for those in `exclude`.
pub fn find_all_ws_tolerant_line_matches(
    content: &str,
    old: &[String],
    exclude: &[(usize, usize)],
) -> (r: Vec<(usize, usize)>)
    ensures
        r@ == ws_ranges(content@, old.deep_view(), exclude@),
{
    let ghost ov = old.deep_view();
    let none: Vec<(usize, usize)> = Vec::new();
    let sq_old = squashed_lines(old);
    proof {
        assert(sq_old@.len() == sq_old.deep_view().len());
        assert(old@.len() == ov.len());
    }
    let mut i: usize = 0;
    while i < sq_old.len() && sq_old[i].as_str().is_empty()
        invariant
            i <= sq_old.len() == ov.len(),
            sq_old.deep_view() == squash_lines(ov),
            forall|k: int| 0 <= k < i ==> text::squash(#[trigger] ov[k]).len() == 0,
        decreases sq_old.len() - i,
    {
        proof {
            assert(sq_old.deep_view()[i as int] == text::squash(ov[i as int]));
        }
        i += 1;
    }
    if i == sq_old.len() {
        return none;
    }
    proof {
        assert(sq_old.deep_view()[i as int] == text::squash(ov[i as int]));
        assert(text::squash(ov[i as int]).len() != 0);
    }
    let lines = split_lines(content);
    let sq_file = squashed_lines(&lines);
    let positions = find_exact_block_matches(&sq_file, &sq_old);
    let total: usize = sq_file.len();
    proof {
        assert(total == sq_file.deep_view().len());
        lemma_block_positions(sq_file.deep_view(), sq_old.deep_view(), sq_file@.len() as int);
    }
    collect_ranges(&positions, old.len(), exclude)
}

proof fn lemma_ranges_of(positions: Seq<usize>, len: nat, exclude: Seq<(usize, usize)>, r: (
    usize,
    usize,
))
    ensures
        ranges_of(positions, len, exclude).contains(r) <==> !exclude.contains(r) && exists|p: int|
            0 <= p < positions.len() && r == (
                (#[trigger] positions[p] + 1) as usize,
                (positions[p] + len) as usize,
            ),
    decreases positions.len(),
{
    if positions.len() > 0 {
        let front = positions.drop_last();
        lemma_ranges_of(front, len, exclude, r);
        let rest = ranges_of(front, len, exclude);
        let all = ranges_of(positions, len, exclude);
        let last = ((positions.last() + 1) as usize, (positions.last() + len) as usize);
        if all.contains(r) {
            let k = all.index_of(r);
            if k < rest.len() {
                assert(rest[k] == r);
                assert(rest.contains(r));
                let p = choose|p: int|
                    0 <= p < front.len() && r == (
                        (#[trigger] front[p] + 1) as usize,
                        (front[p] + len) as usize,
                    );
                assert(positions[p] == front[p]);
            } else {
                assert(r == last);
                assert(positions[positions.len() - 1] == positions.last());
            }
        }
        if !exclude.contains(r) && exists|p: int|
            0 <= p < positions.len() && r == (
                (#[trigger] positions[p] + 1) as usize,
                (positions[p] + len) as usize,
            ) {
            let p = choose|p: int|
                0 <= p < positions.len() && r == (
                    (#[trigger] positions[p] + 1) as usize,
                    (positions[p] + len) as usize,
                );
            if p < front.len() {
                assert(front[p] == positions[p]);
                assert(rest.contains(r));
                let k = rest.index_of(r);
                assert(all[k] == r);
            } else {
                assert(r == last);
                assert(all[rest.len() as int] == r);
            }
        }
    }
}

/// The ranges where a block stands in a file are exactly the ranges of lines, numbered
/// from 1, that equal it.
pub proof fn exact_ranges_are_the_matches(
    content: Seq<char>,
    old: Seq<Seq<char>>,
    start: usize,
    end: usize,
)
    requires
        old.len() > 0,
        text::lines(content).len() <= usize::MAX,
    ensures
        exact_ranges(content, old).contains((start, end)) <==> {
            &&& 1 <= start <= end <= text::lines(content).len()
            &&& text::lines(content).subrange(start - 1, end as int) == old
        },
{
    let ls = text::lines(content);
    let found = block_matches(ls, old);
    lemma_block_positions(ls, old, ls.len() as int);
    lemma_ranges_of(found, old.len(), Seq::empty(), (start, end));
    if exact_ranges(content, old).contains((start, end)) {
        let p = choose|p: int|
            0 <= p < found.len() && (start, end) == (
                (#[trigger] found[p] + 1) as usize,
                (found[p] + old.len()) as usize,
            );
        assert(block_at(ls, old, found[p] as int));
    }
    if 1 <= start <= end <= ls.len() && ls.subrange(start - 1, end as int) == old {
        assert(old.len() == end - start + 1);
        assert(block_at(ls, old, start - 1));
        assert(found.contains((start - 1) as usize));
        let p = found.index_of((start - 1) as usize);
        assert((start, end) == ((found[p] + 1) as usize, (found[p] + old.len()) as usize));
    }
}

/// The ranges where a block stands with white space aside are exactly the ranges of lines
/// that equal it when all white space is taken out of both, but for those that are left
/// out; a block of nothing but white space stands nowhere.
pub proof fn ws_ranges_are_the_matches(
    content: Seq<char>,
    old: Seq<Seq<char>>,
    exclude: Seq<(usize, usize)>,
    start: usize,
    end: usize,
)
    requires
        text::lines(content).len() <= usize::MAX,
    ensures
        ws_ranges(content, old, exclude).contains((start, end)) <==> {
            &&& 1 <= start <= end <= text::lines(content).len()
            &&& old.len() == end - start + 1
            &&& forall|i: int|
                0 <= i < old.len() ==> text::squash(#[trigger] old[i]) == text::squash(
                    text::lines(content)[start - 1 + i],
                )
            &&& exists|i: int| 0 <= i < old.len() && text::squash(#[trigger] old[i]).len() > 0
            &&& !exclude.contains((start, end))
        },
{
    let ls = text::lines(content);
    let h = squash_lines(ls);
    let d = squash_lines(old);
    let found = block_matches(h, d);
    lemma_block_positions(h, d, h.len() as int);
    lemma_ranges_of(found, old.len(), exclude, (start, end));
    if ws_ranges(content, old, exclude).contains((start, end)) {
        let p = choose|p: int|
            0 <= p < found.len() && (start, end) == (
                (#[trigger] found[p] + 1) as usize,
                (found[p] + old.len()) as usize,
            );
        assert(block_at(h, d, found[p] as int));
        assert forall|i: int| 0 <= i < old.len() implies text::squash(#[trigger] old[i])
            == text::squash(ls[start - 1 + i]) by {
            assert(d[i] == h.subrange(found[p] as int, found[p] + d.len())[i]);
            assert(h[start - 1 + i] == text::squash(ls[start - 1 + i]));
        }
    }
    if 1 <= start <= end <= ls.len() && old.len() == end - start + 1 && (forall|i: int|
        0 <= i < old.len() ==> text::squash(#[trigger] old[i]) == text::squash(ls[start - 1 + i]))
        && (exists|i: int| 0 <= i < old.len() && text::squash(#[trigger] old[i]).len() > 0)
        && !exclude.contains((start, end)) {
        assert(h.subrange(start - 1, start - 1 + d.len()) =~= d) by {
            assert forall|i: int| 0 <= i < d.len() implies h.subrange(
                start - 1,
                start - 1 + d.len(),
            )[i] == d[i] by {
                assert(text::squash(old[i]) == text::squash(ls[start - 1 + i]));
            }
        }
        assert(block_at(h, d, start - 1));
        assert(found.contains((start - 1) as usize));
        let p = found.index_of((start - 1) as usize);
        assert((start, end) == ((found[p] + 1) as usize, (found[p] + old.len()) as usize));
    }
}

/// A preview shows each of the first six lines, quoted and with its number.
pub proof fn preview_shows_its_lines(ls: Seq<Seq<char>>, first: Option<usize>, i: int)
    requires
        0 <= i < ls.len(),
        i < 6,
    ensures
        text::has_text(
            preview(ls, first),
            (match first {
                Some(f) => "L"@ + number::dec((f + i) as nat),
                None => "OLD"@ + number::dec((i + 1) as nat),
            }) + ": "@ + text::quoted(ls[i]),
        ),
{
    let n = if ls.len() > MAX_PREVIEW_LINES {
        MAX_PREVIEW_LINES as nat
    } else {
        ls.len()
    };
    let parts = Seq::new(n, |k: int| preview_line(ls[k], k, first));
    text::parts_are_found(parts, "\n"@, i);
    let shown = text::join(parts, "\n"@);
    let p = preview_line(ls[i], i, first);
    text::found_in_either(shown, "\n... "@, p);
    text::found_in_either(
        shown + "\n... "@,
        number::dec((ls.len() - MAX_PREVIEW_LINES) as nat),
        p,
    );
    text::found_in_either(
        shown + "\n... "@ + number::dec((ls.len() - MAX_PREVIEW_LINES) as nat),
        " more line(s)"@,
        p,
    );
}

/// A list of lines names each of the first eight, numbered from 1.
pub proof fn line_list_names_its_lines(indices: Seq<usize>, i: int)
    requires
        0 <= i < indices.len(),
        i < 8,
    ensures
        text::has_text(line_list(indices), "L"@ + number::dec((indices[i] + 1) as nat)),
{
    let n = if indices.len() > MAX_LISTED_LINES {
        MAX_LISTED_LINES as nat
    } else {
        indices.len()
    };
    let parts = Seq::new(n, |k: int| "L"@ + number::dec((indices[k] + 1) as nat));
    let more = parts.push(
        "..."@ + number::dec((indices.len() - MAX_LISTED_LINES) as nat) + " more"@,
    );
    text::parts_are_found(parts, ", "@, i);
    text::parts_are_found(more, ", "@, i);
    assert(more[i] == parts[i]);
}

/// The preview of an anchor shows the lines of the file there, as many as the block has, at
/// least one and at most six, with their numbers; and tells where the file has none.
pub proof fn anchor_preview_shows_the_file(ls: Seq<Seq<char>>, start: int, len: nat, i: int)
    requires
        0 <= start,
        ls.len() <= usize::MAX,
    ensures
        start <= i < ls.len() && (i < start + len || i == start) && i < start + 6 ==> text::has_text(
            anchor_preview(ls, start, len),
            "L"@ + number::dec((i + 1) as nat) + ": "@ + text::quoted(ls[i]),
        ),
        start >= ls.len() ==> text::starts_with(
            anchor_preview(ls, start, len),
            "anchor L"@ + number::dec((start + 1) as nat) + " is beyond end of file"@,
        ),
{
    if start >= ls.len() {
        let s = anchor_preview(ls, start, len);
        let a = "anchor L"@ + number::dec((start + 1) as nat);
        let h = a + " is beyond end of file"@;
        assert(" is beyond end of file ("@ =~= " is beyond end of file"@ + " ("@) by {
            reveal_strlit(" is beyond end of file (");
            reveal_strlit(" is beyond end of file");
            reveal_strlit(" (");
        }
        assert(s =~= h + (" ("@ + number::dec(ls.len()) + " line(s))"@));
        assert(s.subrange(0, h.len() as int) =~= h);
    } else if start <= i < ls.len() && (i < start + len || i == start) && i < start + 6 {
        let n = if len == 0 {
            1
        } else {
            len
        };
        let end = if start + n < ls.len() {
            start + n
        } else {
            ls.len() as int
        };
        let part = ls.subrange(start, end);
        assert(part[i - start] == ls[i]);
        preview_shows_its_lines(part, Some((start + 1) as usize), i - start);
    }
}

} // verus!
