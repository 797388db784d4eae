//! Literal replacement inside a range of lines.
use vstd::prelude::*;

use super::blocks;
use super::blocks::preview_block;
use crate::bytes;
use crate::bytes::byte_offset;
use crate::number;
use crate::number::dec_text;
use crate::text;
use crate::text::{
    count_lines, count_matches, find_from, from_chars, joined, offset_of_line, replace_all, space,
    to_chars, ws_squash,
};

verus! {

/// The text of the lines `scope_start..=scope_end`, with their endings.
pub open spec fn scope_text(content: Seq<char>, scope_start: usize, scope_end: usize) -> Seq<char> {
    content.subrange(
        text::line_offset(content, scope_start - 1),
        text::line_offset(content, scope_end as int),
    )
}

/// `content` with the text of the lines `scope_start..=scope_end` replaced.
pub open spec fn with_scope(
    content: Seq<char>,
    scope_start: usize,
    scope_end: usize,
    inner: Seq<char>,
) -> Seq<char> {
    content.take(text::line_offset(content, scope_start - 1)) + inner + content.skip(
        text::line_offset(content, scope_end as int),
    )
}

/// A range of lines as text.
pub open spec fn lines_text(start: usize, end: usize) -> Seq<char> {
    "L"@ + number::dec(start as nat) + "-L"@ + number::dec(end as nat)
}

/// Names a range of lines.
pub fn line_range_text(start: usize, end: usize) -> (r: String)
    ensures
        r@ == lines_text(start, end),
{
    "L".to_owned().concat(&dec_text(start)).concat("-L").concat(&dec_text(end))
}

/// `content` after the text `old` was replaced by `new` inside the lines
/// `scope_start..=scope_end`, and how often it stood there. Unless `all` is
/// set, it must stand there exactly once.
pub open spec fn literal_result(
    content: Seq<char>,
    scope_start: usize,
    scope_end: usize,
    old: Seq<Seq<char>>,
    new: Seq<Seq<char>>,
    all: bool,
) -> Result<(Seq<char>, int), Seq<char>> {
    let scope = lines_text(scope_start, scope_end);
    let total = text::lines(content).len();
    if scope_start == 0 || scope_end < scope_start {
        Err("invalid literal scope "@ + scope)
    } else if old.len() == 0 {
        Err("literal OLD block must not be empty"@)
    } else if scope_end > total {
        Err("literal scope "@ + scope + " outside "@ + number::dec(total) + " line file"@)
    } else {
        let scoped = scope_text(content, scope_start, scope_end);
        let old_text = text::join(old, "\n"@);
        let count = text::count_from(scoped, old_text, 0);
        if all && count == 0 {
            Err(
                "literal OLD block was not found in scope "@ + scope + "\nOLD block:\n"@
                    + blocks::preview(old, None),
            )
        } else if !all && count != 1 {
            Err(
                "literal OLD block matched "@ + number::dec(count) + " occurrence(s) in scope "@
                    + scope + "; expected exactly 1"@,
            )
        } else {
            let inner = text::replace_from(scoped, old_text, text::join(new, "\n"@), 0);
            Ok((with_scope(content, scope_start, scope_end, inner), count as int))
        }
    }
}

proof fn lemma_offsets_ordered(s: Seq<char>, i: int, j: int)
    requires
        0 <= i <= j,
    ensures
        0 <= text::line_offset(s, i) <= text::line_offset(s, j) <= s.len(),
    decreases j - i,
{
    text::lemma_line_offset(s, j);
    if i < j {
        lemma_offsets_ordered(s, i, j - 1);
    }
}

/// Replaces the text `old` by `new` inside the lines
/// `scope_start..=scope_end`, and says how often it stood there.
pub fn apply_literal_replace_in_scope(
    content: &str,
    scope_start: usize,
    scope_end: usize,
    old: &[String],
    new: &[String],
    all: bool,
) -> (r: Result<(String, usize), String>)
    requires
        content@.len() < usize::MAX,
    ensures
        text::result_at(r) == literal_result(
            content@,
            scope_start,
            scope_end,
            old.deep_view(),
            new.deep_view(),
            all,
        ),
{
    proof {
        assert(old@.len() == old.deep_view().len());
    }
    let scope = line_range_text(scope_start, scope_end);
    if scope_start == 0 || scope_end < scope_start {
        return Err("invalid literal scope ".to_owned().concat(&scope));
    }
    if old.len() == 0 {
        return Err("literal OLD block must not be empty".to_owned());
    }
    let line_count = count_lines(content);
    if scope_end > line_count {
        return Err(
            "literal scope ".to_owned().concat(&scope).concat(" outside ").concat(
                &dec_text(line_count),
            ).concat(" line file"),
        );
    }
    let v = to_chars(content);
    let from = offset_of_line(&v, scope_start - 1);
    let to = offset_of_line(&v, scope_end);
    proof {
        lemma_offsets_ordered(v@, scope_start - 1, scope_end as int);
    }
    let scoped = to_chars(&from_chars(&v, from, to));
    let old_text = to_chars(&joined(old, "\n"));
    let count = count_matches(&scoped, &old_text);
    if all {
        if count == 0 {
            return Err(
                "literal OLD block was not found in scope ".to_owned().concat(&scope).concat(
                    "\nOLD block:\n",
                ).concat(&preview_block(old, None)),
            );
        }
    } else if count != 1 {
        return Err(
            "literal OLD block matched ".to_owned().concat(&dec_text(count)).concat(
                " occurrence(s) in scope ",
            ).concat(&scope).concat("; expected exactly 1"),
        );
    }
    let new_text = to_chars(&joined(new, "\n"));
    let inner = replace_all(&scoped, &old_text, &new_text);
    let mut out = from_chars(&v, 0, from);
    proof {
        assert(out@ =~= v@.take(from as int));
    }
    out.append(&from_chars(&inner, 0, inner.len()));
    proof {
        assert(inner@.subrange(0, inner@.len() as int) =~= inner@);
    }
    let tail = from_chars(&v, to, v.len());
    proof {
        assert(tail@ =~= v@.skip(to as int));
    }
    out.append(&tail);
    Ok((out, count))
}

/// Whether the characters `a..b` of `s` are the first that equal `old` when all
/// white space is left out, without white space at either end.
pub open spec fn is_ws_match(s: Seq<char>, old: Seq<char>, a: int, b: int) -> bool {
    &&& 0 <= a < b <= s.len()
    &&& !text::is_space(s[a])
    &&& !text::is_space(s[b - 1])
    &&& text::squash(s.subrange(a, b)) == text::squash(old)
    &&& text::squash(s.take(a)).len() == text::text_from(text::squash(s), text::squash(old), 0)
}

/// Whether `s` holds `old` when all white space is left out. An `old` of
/// nothing but white space is held nowhere.
pub open spec fn has_ws_match(s: Seq<char>, old: Seq<char>) -> bool {
    text::squash(old).len() > 0 && text::has_text(text::squash(s), text::squash(old))
}

proof fn lemma_squash_concat(x: Seq<char>, y: Seq<char>)
    ensures
        text::squash(x + y) == text::squash(x) + text::squash(y),
    decreases y.len(),
{
    if y.len() == 0 {
        assert(x + y =~= x);
        assert(text::squash(x) + text::squash(y) =~= text::squash(x));
    } else {
        lemma_squash_concat(x, y.drop_last());
        assert((x + y).drop_last() =~= x + y.drop_last());
        assert((x + y).last() == y.last());
        assert(text::squash(x + y) =~= text::squash(x) + text::squash(y));
    }
}

/// The characters `a..b` of `v` that equal `old` when all white space is left
/// out.
fn ws_match_at(v: &Vec<char>, old: &str) -> (r: Option<(usize, usize)>)
    ensures
        match r {
            None => !has_ws_match(v@, old@),
            Some((a, b)) => has_ws_match(v@, old@) && is_ws_match(v@, old@, a as int, b as int),
        },
{
    let wanted = to_chars(&ws_squash(old));
    if wanted.len() == 0 {
        return None;
    }
    let mut kept: Vec<char> = Vec::new();
    let mut places: Vec<usize> = Vec::new();
    let mut i: usize = 0;
    while i < v.len()
        invariant
            i <= v@.len(),
            kept@ == text::squash(v@.take(i as int)),
            places.len() == kept.len(),
            forall|p: int|
                0 <= p < places@.len() ==> {
                    let x = #[trigger] places@[p] as int;
                    &&& x < i
                    &&& !text::is_space(v@[x])
                    &&& v@[x] == kept@[p]
                    &&& text::squash(v@.take(x)) == kept@.take(p)
                },
        decreases v.len() - i,
    {
        let ghost k0 = kept@;
        let ghost p0 = places@;
        proof {
            assert(v@.take(i + 1).drop_last() =~= v@.take(i as int));
        }
        if !space(v[i]) {
            kept.push(v[i]);
            places.push(i);
            proof {
                assert forall|p: int| 0 <= p < places@.len() implies ({
                    let x = #[trigger] places@[p] as int;
                    &&& x < i + 1
                    &&& !text::is_space(v@[x])
                    &&& v@[x] == kept@[p]
                    &&& text::squash(v@.take(x)) == kept@.take(p)
                }) by {
                    if p < p0.len() {
                        assert(places@[p] == p0[p]);
                        assert(kept@.take(p) =~= k0.take(p));
                    } else {
                        assert(kept@.take(p) =~= k0);
                    }
                }
            }
        }
        i += 1;
    }
    proof {
        assert(v@.take(i as int) =~= v@);
        text::lemma_text_from(kept@, wanted@, 0);
    }
    match find_from(&kept, &wanted, 0) {
        None => {
            proof {
                assert forall|k: int| !text::occurs_at(kept@, wanted@, k) by {
                    if text::occurs_at(kept@, wanted@, k) {
                        assert(k < text::text_from(kept@, wanted@, 0));
                    }
                }
            }
            None
        },
        Some(k) => {
            let last: usize = k + (wanted.len() - 1);
            let a: usize = places[k];
            let b: usize = places[last] + 1;
            proof {
                lemma_ws_found(v@, kept@, places@, wanted@, k as int);
            }
            Some((a, b))
        },
    }
}

/// Whether `kept` holds the characters of `v` that are not white space, and
/// `places` where they stand.
spec fn is_squash_map(v: Seq<char>, kept: Seq<char>, places: Seq<usize>) -> bool {
    &&& places.len() == kept.len()
    &&& forall|p: int|
        0 <= p < places.len() ==> {
            let x = #[trigger] places[p] as int;
            &&& x < v.len()
            &&& !text::is_space(v[x])
            &&& v[x] == kept[p]
            &&& text::squash(v.take(x)) == kept.take(p)
        }
}

proof fn lemma_ws_found(
    v: Seq<char>,
    kept: Seq<char>,
    places: Seq<usize>,
    wanted: Seq<char>,
    k: int,
)
    requires
        is_squash_map(v, kept, places),
        kept == text::squash(v),
        wanted.len() > 0,
        k == text::text_from(kept, wanted, 0),
        text::occurs_at(kept, wanted, k),
    ensures
        ({
            let a = places[k] as int;
            let b = places[k + wanted.len() - 1] + 1;
            &&& 0 <= a < b <= v.len()
            &&& !text::is_space(v[a])
            &&& !text::is_space(v[b - 1])
            &&& text::squash(v.subrange(a, b)) == wanted
            &&& text::squash(v.take(a)).len() == k
        }),
{
    let m = wanted.len() as int;
    let last = k + m - 1;
    let a = places[k] as int;
    let b = places[last] + 1;
    if k < last {
        lemma_places_grow(v, kept, places, k, last);
    }
    assert(v.take(b).drop_last() =~= v.take(b - 1));
    assert(text::squash(v.take(b)) == kept.take(last).push(kept[last]));
    assert(kept.take(last).push(kept[last]) =~= kept.take(k + m));
    assert(v.take(b) =~= v.take(a) + v.subrange(a, b));
    lemma_squash_concat(v.take(a), v.subrange(a, b));
    let x = kept.take(k);
    let y = text::squash(v.subrange(a, b));
    assert(x + y == kept.take(k + m));
    assert(y =~= kept.subrange(k, k + m)) by {
        assert forall|j: int| 0 <= j < y.len() implies y[j] == kept[k + j] by {
            assert((x + y)[k + j] == y[j]);
        }
    }
}

proof fn lemma_places_grow(
    v: Seq<char>,
    kept: Seq<char>,
    places: Seq<usize>,
    p: int,
    q: int,
)
    requires
        0 <= p < q < places.len() == kept.len(),
        places[p] < v.len(),
        places[q] < v.len(),
        text::squash(v.take(places[p] as int)) == kept.take(p),
        text::squash(v.take(places[q] as int)) == kept.take(q),
    ensures
        places[p] < places[q],
{
    let x = places[p] as int;
    let y = places[q] as int;
    if y <= x {
        assert(v.take(x) =~= v.take(y) + v.subrange(y, x));
        lemma_squash_concat(v.take(y), v.subrange(y, x));
        assert(kept.take(p).len() == p);
        assert(kept.take(q).len() == q);
    }
}

/// Finds the first stretch of `scoped` that equals `old_text` when all white
/// space is left out, as a range of bytes.
pub fn find_whitespace_tolerant_match(scoped: &str, old_text: &str) -> (r: Option<(usize, usize)>)
    requires
        bytes::utf8_len(scoped@) <= usize::MAX,
    ensures
        match r {
            None => !has_ws_match(scoped@, old_text@),
            Some((x, y)) => has_ws_match(scoped@, old_text@) && exists|a: int, b: int|
                #[trigger] is_ws_match(scoped@, old_text@, a, b) && x == bytes::utf8_len(
                    scoped@.take(a),
                ) && y == bytes::utf8_len(scoped@.take(b)),
        },
{
    let v = to_chars(scoped);
    match ws_match_at(&v, old_text) {
        None => None,
        Some((a, b)) => {
            let x = byte_offset(&v, a);
            let y = byte_offset(&v, b);
            proof {
                assert(is_ws_match(scoped@, old_text@, a as int, b as int));
            }
            Some((x, y))
        },
    }
}

/// A stretch of a file that equals an `OLD` block but for white space, and the
/// file after its replacement.
#[derive(Debug)]
pub struct WsCandidate {
    pub actual: String,
    pub new_content: String,
}

/// Whether the lines `scope_start..=scope_end` exist in `content`.
pub open spec fn is_scope(content: Seq<char>, scope_start: usize, scope_end: usize) -> bool {
    0 < scope_start <= scope_end <= text::lines(content).len()
}

/// Whether `c` is the first stretch of the lines `scope_start..=scope_end` that
/// equals `old` but for white space, and `content` after its replacement.
pub open spec fn is_ws_candidate(
    c: WsCandidate,
    content: Seq<char>,
    scope_start: usize,
    scope_end: usize,
    old: Seq<char>,
    new: Seq<char>,
) -> bool {
    exists|a: int, b: int|
        #[trigger] is_ws_match(scope_text(content, scope_start, scope_end), old, a, b)
            && c.actual@ == scope_text(content, scope_start, scope_end).subrange(a, b)
            && c.new_content@ == with_scope(
            content,
            scope_start,
            scope_end,
            scope_text(content, scope_start, scope_end).take(a) + new + scope_text(
                content,
                scope_start,
                scope_end,
            ).skip(b),
        )
}

/// Looks in the lines `scope_start..=scope_end` for a stretch that equals `old`
/// but for white space, and replaces it by `new`.
pub fn ws_tolerant_candidate(
    content: &str,
    scope_start: usize,
    scope_end: usize,
    old: &[String],
    new: &[String],
) -> (r: Option<WsCandidate>)
    ensures
        r is Some <==> is_scope(content@, scope_start, scope_end) && has_ws_match(
            scope_text(content@, scope_start, scope_end),
            text::join(old.deep_view(), "\n"@),
        ),
        r matches Some(c) ==> is_ws_candidate(
            c,
            content@,
            scope_start,
            scope_end,
            text::join(old.deep_view(), "\n"@),
            text::join(new.deep_view(), "\n"@),
        ),
{
    let line_count = count_lines(content);
    if scope_start == 0 || scope_end < scope_start || scope_end > line_count {
        return None;
    }
    let v = to_chars(content);
    let from = offset_of_line(&v, scope_start - 1);
    let to = offset_of_line(&v, scope_end);
    proof {
        lemma_offsets_ordered(v@, scope_start - 1, scope_end as int);
    }
    let scoped = to_chars(&from_chars(&v, from, to));
    let old_text = joined(old, "\n");
    match ws_match_at(&scoped, &old_text) {
        None => None,
        Some((a, b)) => {
            let actual = from_chars(&scoped, a, b);
            let new_text = joined(new, "\n");
            let mut out = from_chars(&v, 0, from);
            out.append(&from_chars(&scoped, 0, a));
            out.append(&new_text);
            out.append(&from_chars(&scoped, b, scoped.len()));
            out.append(&from_chars(&v, to, v.len()));
            proof {
                assert(scoped@ =~= scope_text(content@, scope_start, scope_end));
                assert(is_ws_match(
                    scope_text(content@, scope_start, scope_end),
                    old_text@,
                    a as int,
                    b as int,
                ));
                assert(out@ =~= with_scope(
                    content@,
                    scope_start,
                    scope_end,
                    scoped@.take(a as int) + new_text@ + scoped@.skip(b as int),
                ));
            }
            Some(WsCandidate { actual, new_content: out })
        },
    }
}

/// A literal replacement keeps all text outside its lines, and the lines above
/// them keep their numbers.
pub proof fn literal_keeps_the_rest(
    content: Seq<char>,
    scope_start: usize,
    scope_end: usize,
    old: Seq<Seq<char>>,
    new: Seq<Seq<char>>,
    all: bool,
)
    ensures
        literal_result(content, scope_start, scope_end, old, new, all) matches Ok((out, count))
            ==> {
            let above = content.take(text::line_offset(content, scope_start - 1));
            let below = content.skip(text::line_offset(content, scope_end as int));
            &&& count >= 1
            &&& text::starts_with(out, above)
            &&& text::ends_with(out, below)
            &&& above.len() + below.len() <= out.len()
            &&& scope_start - 1 <= text::lines(out).len()
            &&& text::lines(above) == text::lines(content).take(scope_start - 1)
            &&& text::lines(above) == text::lines(out).take(scope_start - 1)
        },
{
    match literal_result(content, scope_start, scope_end, old, new, all) {
        Err(_) => {},
        Ok((out, count)) => {
            let p = text::line_offset(content, scope_start - 1);
            let e = text::line_offset(content, scope_end as int);
            let k = scope_start - 1;
            let ls = text::lines(content);
            text::lemma_text_above(content, k);
            lemma_offsets_ordered(content, k, scope_end as int);
            let above = content.take(p);
            let below = content.skip(e);
            let tail = content.skip(p);
            assert(content =~= above + tail);
            text::lemma_lines_append(above, tail, 0);
            text::lemma_lines_append(above, tail, p);
            assert(text::lines_from(above, p) =~= Seq::<Seq<char>>::empty());
            assert(Seq::<Seq<char>>::empty() + text::lines(tail) =~= text::lines(tail));
            assert(ls == text::lines(above) + ls.skip(k));
            assert(text::lines(above).len() == k);
            assert(ls.take(k) =~= text::lines(above));
            let inner = text::replace_from(
                scope_text(content, scope_start, scope_end),
                text::join(old, "\n"@),
                text::join(new, "\n"@),
                0,
            );
            assert(out =~= above + (inner + below));
            text::lemma_lines_append(above, inner + below, 0);
            assert(text::lines(out).take(k) =~= text::lines(above));
            assert(out.take(above.len() as int) =~= above);
            assert(out.skip(out.len() - below.len()) =~= below);
        },
    }
}

/// The scope of a replacement is its lines, each with its newline, and nothing else.
pub proof fn scope_is_its_lines(
    before: Seq<Seq<char>>,
    scope: Seq<Seq<char>>,
    rest: Seq<char>,
    scope_start: usize,
    scope_end: usize,
)
    requires
        forall|k: int| 0 <= k < before.len() ==> !(#[trigger] before[k]).contains('\n'),
        forall|k: int| 0 <= k < scope.len() ==> !(#[trigger] scope[k]).contains('\n'),
        scope_start == before.len() + 1,
        scope_end == before.len() + scope.len(),
    ensures
        scope_text(
            text::with_newlines(before) + text::with_newlines(scope) + rest,
            scope_start,
            scope_end,
        ) == text::with_newlines(scope),
{
    let a = text::with_newlines(before);
    let m = text::with_newlines(scope);
    let s = a + m + rest;
    text::lemma_with_newlines_append(before, scope);
    let both = before + scope;
    assert forall|k: int| 0 <= k < both.len() implies !(#[trigger] both[k]).contains('\n') by {
        if k < before.len() {
            assert(both[k] == before[k]);
        } else {
            assert(both[k] == scope[k - before.len()]);
        }
    }
    text::offsets_count_lines(both, rest);
    text::offsets_count_lines(before, m + rest);
    assert(a + (m + rest) =~= s);
    assert(text::with_newlines(both) + rest =~= s);
    assert(s.subrange(a.len() as int, (a.len() + m.len()) as int) =~= m);
}

proof fn lemma_in_scope(
    content: Seq<char>,
    scope_start: usize,
    scope_end: usize,
    p: Seq<char>,
    j: int,
)
    requires
        is_scope(content, scope_start, scope_end),
        text::line_offset(content, scope_start - 1) <= j,
        j + p.len() <= text::line_offset(content, scope_end as int),
    ensures
        ({
            let lo = text::line_offset(content, scope_start - 1);
            let s = scope_text(content, scope_start, scope_end);
            &&& 0 <= lo <= text::line_offset(content, scope_end as int) <= content.len()
            &&& s.subrange(j - lo, j - lo + p.len()) == content.subrange(j, j + p.len())
        }),
{
    let lo = text::line_offset(content, scope_start - 1);
    lemma_offsets_ordered(content, scope_start - 1, scope_end as int);
    let s = scope_text(content, scope_start, scope_end);
    assert(s.subrange(j - lo, j - lo + p.len()) =~= content.subrange(j, j + p.len()));
}

/// A text that begins at `k`, at no earlier place of the scope and at none behind it, is
/// replaced there: exactly those characters give way to the new lines, whether one place
/// or all are asked for.
pub proof fn literal_replaces_the_one_place(
    content: Seq<char>,
    scope_start: usize,
    scope_end: usize,
    old: Seq<Seq<char>>,
    new: Seq<Seq<char>>,
    all: bool,
    k: int,
)
    requires
        is_scope(content, scope_start, scope_end),
        old.len() > 0,
        ({
            let p = text::join(old, "\n"@);
            let lo = text::line_offset(content, scope_start - 1);
            let hi = text::line_offset(content, scope_end as int);
            &&& p.len() > 0
            &&& lo <= k <= hi - p.len()
            &&& content.subrange(k, k + p.len()) == p
            &&& forall|j: int|
                lo <= j <= hi - p.len() && (j < k || k + p.len() <= j) ==> #[trigger] content.subrange(
                    j,
                    j + p.len(),
                ) != p
        }),
    ensures
        literal_result(content, scope_start, scope_end, old, new, all) == Ok::<
            (Seq<char>, int),
            Seq<char>,
        >(
            (
                content.take(k) + text::join(new, "\n"@) + content.skip(
                    k + text::join(old, "\n"@).len(),
                ),
                1,
            ),
        ),
{
    let p = text::join(old, "\n"@);
    let w = text::join(new, "\n"@);
    let lo = text::line_offset(content, scope_start - 1);
    let hi = text::line_offset(content, scope_end as int);
    let s = scope_text(content, scope_start, scope_end);
    let n = p.len() as int;
    lemma_offsets_ordered(content, scope_start - 1, scope_end as int);
    lemma_in_scope(content, scope_start, scope_end, p, k);
    let c = k - lo;
    assert(text::occurs_at(s, p, c));
    text::lemma_text_from(s, p, 0);
    let first = text::text_from(s, p, 0);
    assert(first == c) by {
        if first < c {
            lemma_in_scope(content, scope_start, scope_end, p, lo + first);
            assert(content.subrange(lo + first, lo + first + n) != p);
        }
    }
    text::lemma_text_from(s, p, c + n);
    let second = text::text_from(s, p, c + n);
    assert(second > s.len()) by {
        if second <= s.len() {
            lemma_in_scope(content, scope_start, scope_end, p, lo + second);
            assert(content.subrange(lo + second, lo + second + n) != p);
        }
    }
    assert(text::count_from(s, p, c + n) == 0);
    assert(text::count_from(s, p, 0) == 1);
    let inner = text::replace_from(s, p, w, 0);
    assert(text::replace_from(s, p, w, c + n) == s.subrange(c + n, s.len() as int));
    assert(inner == s.subrange(0, c) + w + text::replace_from(s, p, w, c + n));
    assert(with_scope(content, scope_start, scope_end, inner) =~= content.take(k) + w
        + content.skip(k + n));
}

/// A text that is not in the scope is not replaced, and one that is there twice, in places
/// apart from one another, only where all places are asked for.
pub proof fn literal_needs_its_places(
    content: Seq<char>,
    scope_start: usize,
    scope_end: usize,
    old: Seq<Seq<char>>,
    new: Seq<Seq<char>>,
    i: int,
    j: int,
)
    requires
        is_scope(content, scope_start, scope_end),
        old.len() > 0,
        text::join(old, "\n"@).len() > 0,
    ensures
        ({
            let p = text::join(old, "\n"@);
            let lo = text::line_offset(content, scope_start - 1);
            let hi = text::line_offset(content, scope_end as int);
            &&& (forall|m: int|
                lo <= m <= hi - p.len() ==> #[trigger] content.subrange(m, m + p.len()) != p) ==> (
            literal_result(content, scope_start, scope_end, old, new, true) is Err
                && literal_result(content, scope_start, scope_end, old, new, false) is Err)
            &&& lo <= i && i + p.len() <= j <= hi - p.len() && content.subrange(i, i + p.len()) == p
                && content.subrange(j, j + p.len()) == p ==> (literal_result(
                content,
                scope_start,
                scope_end,
                old,
                new,
                false,
            ) is Err && literal_result(content, scope_start, scope_end, old, new, true) is Ok)
        }),
{
    let p = text::join(old, "\n"@);
    let lo = text::line_offset(content, scope_start - 1);
    let hi = text::line_offset(content, scope_end as int);
    let s = scope_text(content, scope_start, scope_end);
    let n = p.len() as int;
    lemma_offsets_ordered(content, scope_start - 1, scope_end as int);
    text::lemma_text_from(s, p, 0);
    let first = text::text_from(s, p, 0);
    if forall|m: int| lo <= m <= hi - n ==> #[trigger] content.subrange(m, m + n) != p {
        if first <= s.len() {
            lemma_in_scope(content, scope_start, scope_end, p, lo + first);
            assert(content.subrange(lo + first, lo + first + n) != p);
        }
        assert(text::count_from(s, p, 0) == 0);
    }
    if lo <= i && i + n <= j <= hi - n && content.subrange(i, i + n) == p && content.subrange(
        j,
        j + n,
    ) == p {
        lemma_in_scope(content, scope_start, scope_end, p, i);
        lemma_in_scope(content, scope_start, scope_end, p, j);
        assert(text::occurs_at(s, p, i - lo) && text::occurs_at(s, p, j - lo));
        assert(first <= i - lo);
        text::lemma_text_from(s, p, first + n);
        assert(text::text_from(s, p, first + n) <= j - lo);
        assert(text::count_from(s, p, first + n) >= 1);
        assert(text::count_from(s, p, 0) >= 2);
    }
}

/// A scope that is not one of the file is refused, and so is an empty block.
pub proof fn scopes_outside_are_refused(
    content: Seq<char>,
    scope_start: usize,
    scope_end: usize,
    old: Seq<Seq<char>>,
    new: Seq<Seq<char>>,
    all: bool,
)
    requires
        !is_scope(content, scope_start, scope_end) || old.len() == 0,
    ensures
        literal_result(content, scope_start, scope_end, old, new, all) is Err,
{
}

/// A place that was found with white space aside is one of the file: it holds the text
/// that was looked for, white space aside, and the new content is the file with exactly
/// that place replaced.
pub proof fn ws_candidate_changes_one_place(
    c: WsCandidate,
    content: Seq<char>,
    scope_start: usize,
    scope_end: usize,
    old: Seq<char>,
    new: Seq<char>,
)
    requires
        is_scope(content, scope_start, scope_end),
        is_ws_candidate(c, content, scope_start, scope_end, old, new),
    ensures
        text::squash(c.actual@) == text::squash(old),
        exists|k: int|
            text::line_offset(content, scope_start - 1) <= k && k + c.actual@.len()
                <= text::line_offset(content, scope_end as int) && #[trigger] content.subrange(
                k,
                k + c.actual@.len(),
            ) == c.actual@ && c.new_content@ == content.take(k) + new + content.skip(
                k + c.actual@.len(),
            ),
{
    let lo = text::line_offset(content, scope_start - 1);
    let hi = text::line_offset(content, scope_end as int);
    let s = scope_text(content, scope_start, scope_end);
    lemma_offsets_ordered(content, scope_start - 1, scope_end as int);
    let (a, b) = choose|a: int, b: int|
        #[trigger] is_ws_match(s, old, a, b) && c.actual@ == s.subrange(a, b) && c.new_content@
            == with_scope(content, scope_start, scope_end, s.take(a) + new + s.skip(b));
    let k = lo + a;
    assert(content.subrange(k, k + c.actual@.len()) =~= c.actual@);
    assert(c.new_content@ =~= content.take(k) + new + content.skip(k + c.actual@.len()));
}

/// A stretch that equals a text but for white space is held, whatever is around it; and
/// nothing but white space is held nowhere.
pub proof fn spaced_stretches_are_held(a: Seq<char>, m: Seq<char>, b: Seq<char>, old: Seq<char>)
    ensures
        text::squash(m) == text::squash(old) && text::squash(old).len() > 0 ==> has_ws_match(
            a + m + b,
            old,
        ),
        text::squash(old).len() == 0 ==> !has_ws_match(a, old),
        has_ws_match(a, old) ==> text::has_text(text::squash(a), text::squash(old)),
{
    lemma_squash_concat(a, m);
    lemma_squash_concat(a + m, b);
    text::found_between(text::squash(a), text::squash(m), text::squash(b));
}

} // verus!
