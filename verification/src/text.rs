//! Text as a sequence of characters: conversion, comparison, trimming,
//! splitting into lines and words, searching and replacing.
use vstd::prelude::*;

verus! {

/// `String::push` appends one character to the end of the text.
pub assume_specification[ String::push ](s: &mut String, c: char)
    ensures
        final(s)@ == old(s)@.push(c),
;

/// A result with its value and its message taken by their views.
pub open spec fn result_view<T: DeepView>(r: Result<T, String>) -> Result<T::V, Seq<char>> {
    match r {
        Ok(v) => Ok(v.deep_view()),
        Err(e) => Err(e@),
    }
}

/// A result with a position, its value and its message taken by their views.
pub open spec fn result_at<T: DeepView>(r: Result<(T, usize), String>) -> Result<
    (T::V, int),
    Seq<char>,
> {
    match r {
        Ok((v, i)) => Ok((v.deep_view(), i as int)),
        Err(e) => Err(e@),
    }
}

/// The characters with the Unicode `White_Space` property.
pub open spec fn is_space(c: char) -> bool {
    let u = c as u32;
    ||| 0x09 <= u <= 0x0d
    ||| u == 0x20
    ||| u == 0x85
    ||| u == 0xa0
    ||| u == 0x1680
    ||| 0x2000 <= u <= 0x200a
    ||| u == 0x2028
    ||| u == 0x2029
    ||| u == 0x202f
    ||| u == 0x205f
    ||| u == 0x3000
}

/// Whether `c` is white space.
pub fn space(c: char) -> (r: bool)
    ensures
        r == is_space(c),
{
    let u: u32 = c as u32;
    (0x09 <= u && u <= 0x0d) || u == 0x20 || u == 0x85 || u == 0xa0 || u == 0x1680 || (0x2000 <= u
        && u <= 0x200a) || u == 0x2028 || u == 0x2029 || u == 0x202f || u == 0x205f || u == 0x3000
}

/// The characters of `s`, in order.
pub fn to_chars(s: &str) -> (r: Vec<char>)
    ensures
        r@ == s@,
{
    let mut v: Vec<char> = Vec::new();
    for c in it: s.chars()
        invariant
            v@ == it.seq().take(it.index()),
            it.seq() == s@,
    {
        v.push(c);
    }
    v
}

/// The text made of the characters `v[from..to]`.
pub fn from_chars(v: &[char], from: usize, to: usize) -> (r: String)
    requires
        from <= to <= v@.len(),
    ensures
        r@ == v@.subrange(from as int, to as int),
{
    let mut s = String::new();
    let mut i: usize = from;
    while i < to
        invariant
            from <= i <= to <= v@.len(),
            s@ == v@.subrange(from as int, i as int),
        decreases to - i,
    {
        s.push(v[i]);
        i += 1;
    }
    s
}

/// Whether two sequences hold the same characters.
pub fn same_chars(x: &[char], y: &[char]) -> (r: bool)
    ensures
        r == (x@ == y@),
{
    let n: usize = x.len();
    if n != y.len() {
        return false;
    }
    let mut i: usize = 0;
    while i < n
        invariant
            i <= n == x@.len() == y@.len(),
            x@.take(i as int) == y@.take(i as int),
        decreases n - i,
    {
        if x[i] != y[i] {
            return false;
        }
        i += 1;
        proof {
            assert(x@.take(i as int) =~= x@.take(i - 1).push(x@[i - 1]));
            assert(y@.take(i as int) =~= y@.take(i - 1).push(y@[i - 1]));
        }
    }
    proof {
        assert(x@.take(i as int) =~= x@);
        assert(y@.take(i as int) =~= y@);
    }
    true
}

/// Whether two texts hold the same characters.
pub fn same_text(a: &str, b: &str) -> (r: bool)
    ensures
        r == (a@ == b@),
{
    same_chars(&to_chars(a), &to_chars(b))
}

/// The first position at or after `i` that does not hold white space.
pub open spec fn skip_space(s: Seq<char>, i: int) -> int
    decreases s.len() - i,
{
    if 0 <= i < s.len() && is_space(s[i]) {
        skip_space(s, i + 1)
    } else {
        i
    }
}

/// The last position `k` in `lo..=j` such that `s[k - 1]` is not white space,
/// or `lo` when there is none.
pub open spec fn back_space(s: Seq<char>, lo: int, j: int) -> int
    decreases j - lo,
{
    if lo < j <= s.len() && 0 <= lo && is_space(s[j - 1]) {
        back_space(s, lo, j - 1)
    } else {
        j
    }
}

/// `s` without leading white space.
pub open spec fn trim_start(s: Seq<char>) -> Seq<char> {
    s.subrange(skip_space(s, 0), s.len() as int)
}

/// `s` without trailing white space.
pub open spec fn trim_end(s: Seq<char>) -> Seq<char> {
    s.subrange(0, back_space(s, 0, s.len() as int))
}

/// `s` without leading and trailing white space.
pub open spec fn trim(s: Seq<char>) -> Seq<char> {
    let a = skip_space(s, 0);
    s.subrange(a, back_space(s, a, s.len() as int))
}

/// Whether every character of `s` is white space.
pub open spec fn is_blank(s: Seq<char>) -> bool {
    forall|i: int| 0 <= i < s.len() ==> is_space(#[trigger] s[i])
}

/// `skip_space` stays in range, passes only white space and stops at the first
/// character that is none.
pub proof fn lemma_skip_space(s: Seq<char>, i: int)
    requires
        0 <= i <= s.len(),
    ensures
        i <= skip_space(s, i) <= s.len(),
        forall|k: int| i <= k < skip_space(s, i) ==> is_space(#[trigger] s[k]),
        skip_space(s, i) < s.len() ==> !is_space(s[skip_space(s, i)]),
    decreases s.len() - i,
{
    if i < s.len() && is_space(s[i]) {
        lemma_skip_space(s, i + 1);
    }
}

/// `back_space` stays in range, passes only white space and stops behind the
/// last character that is none.
pub proof fn lemma_back_space(s: Seq<char>, lo: int, j: int)
    requires
        0 <= lo <= j <= s.len(),
    ensures
        lo <= back_space(s, lo, j) <= j,
        forall|k: int| back_space(s, lo, j) <= k < j ==> is_space(#[trigger] s[k]),
        back_space(s, lo, j) > lo ==> !is_space(s[back_space(s, lo, j) - 1]),
    decreases j - lo,
{
    if lo < j && is_space(s[j - 1]) {
        lemma_back_space(s, lo, j - 1);
    }
}

/// A text trims to nothing exactly when it is blank.
pub proof fn lemma_trim_empty(s: Seq<char>)
    ensures
        trim(s).len() == 0 <==> is_blank(s),
{
    lemma_skip_space(s, 0);
    lemma_back_space(s, skip_space(s, 0), s.len() as int);
}

fn skip_space_at(v: &[char], from: usize) -> (r: usize)
    requires
        from <= v@.len(),
    ensures
        r == skip_space(v@, from as int),
        from <= r <= v@.len(),
{
    let mut i: usize = from;
    while i < v.len() && space(v[i])
        invariant
            from <= i <= v@.len(),
            skip_space(v@, from as int) == skip_space(v@, i as int),
        decreases v.len() - i,
    {
        i += 1;
    }
    i
}

fn back_space_at(v: &[char], lo: usize, from: usize) -> (r: usize)
    requires
        lo <= from <= v@.len(),
    ensures
        r == back_space(v@, lo as int, from as int),
        lo <= r <= from,
{
    let mut j: usize = from;
    while j > lo && space(v[j - 1])
        invariant
            lo <= j <= from <= v@.len(),
            back_space(v@, lo as int, from as int) == back_space(v@, lo as int, j as int),
        decreases j,
    {
        j -= 1;
    }
    j
}

/// `s` without leading and trailing white space.
pub fn trimmed(s: &str) -> (r: String)
    ensures
        r@ == trim(s@),
{
    let v = to_chars(s);
    let a = skip_space_at(&v, 0);
    let b = back_space_at(&v, a, v.len());
    from_chars(&v, a, b)
}

/// `s` without leading white space.
pub fn trimmed_start(s: &str) -> (r: String)
    ensures
        r@ == trim_start(s@),
{
    let v = to_chars(s);
    let a = skip_space_at(&v, 0);
    from_chars(&v, a, v.len())
}

/// `s` without trailing white space.
pub fn trimmed_end(s: &str) -> (r: String)
    ensures
        r@ == trim_end(s@),
{
    let v = to_chars(s);
    let b = back_space_at(&v, 0, v.len());
    from_chars(&v, 0, b)
}

/// Whether `s` holds nothing but white space.
pub fn blank(s: &str) -> (r: bool)
    ensures
        r == is_blank(s@),
        r == (trim(s@).len() == 0),
{
    proof {
        lemma_trim_empty(s@);
        lemma_skip_space(s@, 0);
    }
    let v = to_chars(s);
    skip_space_at(&v, 0) == v.len()
}

/// The first position at or after `i` that holds `c`, or `s.len()`.
pub open spec fn char_from(s: Seq<char>, c: char, i: int) -> int
    decreases s.len() - i,
{
    if 0 <= i < s.len() && s[i] != c {
        char_from(s, c, i + 1)
    } else {
        i
    }
}

/// `char_from` stays in range and finds the first occurrence.
pub proof fn lemma_char_from(s: Seq<char>, c: char, i: int)
    requires
        0 <= i <= s.len(),
    ensures
        i <= char_from(s, c, i) <= s.len(),
        forall|k: int| i <= k < char_from(s, c, i) ==> #[trigger] s[k] != c,
        char_from(s, c, i) < s.len() ==> s[char_from(s, c, i)] == c,
    decreases s.len() - i,
{
    if i < s.len() && s[i] != c {
        lemma_char_from(s, c, i + 1);
    }
}

/// The first position at or after `from` that holds `c`, or the length.
pub fn char_at_or_after(v: &[char], c: char, from: usize) -> (r: usize)
    requires
        from <= v@.len(),
    ensures
        r == char_from(v@, c, from as int),
        from <= r <= v@.len(),
{
    let mut i: usize = from;
    while i < v.len() && v[i] != c
        invariant
            from <= i <= v@.len(),
            char_from(v@, c, from as int) == char_from(v@, c, i as int),
        decreases v.len() - i,
    {
        i += 1;
    }
    i
}

/// The position behind the line that starts at `i`: behind its newline, or the
/// end of the text.
pub open spec fn next_line(s: Seq<char>, i: int) -> int {
    let e = char_from(s, '\n', i);
    if e < s.len() {
        e + 1
    } else {
        e
    }
}

/// The line that starts at `i`, without its ending: a newline, or a carriage
/// return and a newline.
pub open spec fn line_at(s: Seq<char>, i: int) -> Seq<char> {
    let e = char_from(s, '\n', i);
    if i < e < s.len() && s[e - 1] == '\r' {
        s.subrange(i, e - 1)
    } else {
        s.subrange(i, e)
    }
}

/// The lines from position `i` on.
pub open spec fn lines_from(s: Seq<char>, i: int) -> Seq<Seq<char>>
    decreases s.len() - i,
    via lines_from_decreases
{
    if 0 <= i < s.len() {
        seq![line_at(s, i)] + lines_from(s, next_line(s, i))
    } else {
        Seq::empty()
    }
}

#[via_fn]
proof fn lines_from_decreases(s: Seq<char>, i: int) {
    if 0 <= i < s.len() {
        lemma_char_from(s, '\n', i);
    }
}

/// The lines of a text. The ending of the last line is optional.
pub open spec fn lines(s: Seq<char>) -> Seq<Seq<char>> {
    lines_from(s, 0)
}

/// The lines of `s`.
pub fn split_lines(s: &str) -> (r: Vec<String>)
    ensures
        r.deep_view() == lines(s@),
{
    let v = to_chars(s);
    let mut out: Vec<String> = Vec::new();
    let mut i: usize = 0;
    while i < v.len()
        invariant
            i <= v@.len(),
            v@ == s@,
            out.deep_view() + lines_from(v@, i as int) == lines(v@),
        decreases v.len() - i,
    {
        let ghost before = out.deep_view();
        let e = char_at_or_after(&v, '\n', i);
        let mut stop: usize = e;
        if i < e && e < v.len() && v[e - 1] == '\r' {
            stop = e - 1;
        }
        out.push(from_chars(&v, i, stop));
        proof {
            assert(out.deep_view() =~= before.push(line_at(v@, i as int)));
            assert(before + lines_from(v@, i as int) =~= out.deep_view() + lines_from(
                v@,
                next_line(v@, i as int),
            ));
        }
        i = if e < v.len() {
            e + 1
        } else {
            e
        };
    }
    proof {
        assert(out.deep_view() + lines_from(v@, i as int) =~= out.deep_view());
    }
    out
}

/// The number of lines of `s`.
pub fn count_lines(s: &str) -> (r: usize)
    ensures
        r == lines(s@).len(),
{
    let l = split_lines(s);
    l.len()
}

/// The parts with `sep` between each two of them.
pub open spec fn join(parts: Seq<Seq<char>>, sep: Seq<char>) -> Seq<char>
    decreases parts.len(),
{
    if parts.len() == 0 {
        Seq::empty()
    } else if parts.len() == 1 {
        parts[0]
    } else {
        join(parts.drop_last(), sep) + sep + parts.last()
    }
}

/// The parts with `sep` between each two of them.
pub fn joined(parts: &[String], sep: &str) -> (r: String)
    ensures
        r@ == join(parts.deep_view(), sep@),
{
    let mut out = String::new();
    let mut i: usize = 0;
    while i < parts.len()
        invariant
            i <= parts@.len(),
            out@ == join(parts.deep_view().take(i as int), sep@),
        decreases parts.len() - i,
    {
        if i > 0 {
            out.append(sep);
        }
        out.append(parts[i].as_str());
        i += 1;
        proof {
            let d = parts.deep_view();
            assert(d.take(i as int).drop_last() =~= d.take(i - 1));
            if i == 1 {
                assert(out@ =~= d.take(1)[0]);
            }
        }
    }
    proof {
        assert(parts.deep_view().take(i as int) =~= parts.deep_view());
    }
    out
}

/// The first position at or after `i` that holds white space, or the length.
pub open spec fn word_end(s: Seq<char>, i: int) -> int
    decreases s.len() - i,
{
    if 0 <= i < s.len() && !is_space(s[i]) {
        word_end(s, i + 1)
    } else {
        i
    }
}

/// `word_end` stays in range and passes no white space.
pub proof fn lemma_word_end(s: Seq<char>, i: int)
    requires
        0 <= i <= s.len(),
    ensures
        i <= word_end(s, i) <= s.len(),
        i < s.len() && !is_space(s[i]) ==> i < word_end(s, i),
        forall|k: int| i <= k < word_end(s, i) ==> !is_space(#[trigger] s[k]),
        word_end(s, i) < s.len() ==> is_space(s[word_end(s, i)]),
    decreases s.len() - i,
{
    if i < s.len() && !is_space(s[i]) {
        lemma_word_end(s, i + 1);
    }
}

/// The words from position `i` on: the longest runs without white space.
pub open spec fn words_from(s: Seq<char>, i: int) -> Seq<Seq<char>>
    decreases s.len() - i,
    via words_from_decreases
{
    if 0 <= i <= s.len() {
        let a = skip_space(s, i);
        if a < s.len() {
            seq![s.subrange(a, word_end(s, a))] + words_from(s, word_end(s, a))
        } else {
            Seq::empty()
        }
    } else {
        Seq::empty()
    }
}

#[via_fn]
proof fn words_from_decreases(s: Seq<char>, i: int) {
    if 0 <= i <= s.len() {
        lemma_skip_space(s, i);
        lemma_word_end(s, skip_space(s, i));
    }
}

/// The words of a text.
pub open spec fn words(s: Seq<char>) -> Seq<Seq<char>> {
    words_from(s, 0)
}

/// The words of `s`.
pub fn split_words(s: &str) -> (r: Vec<String>)
    ensures
        r.deep_view() == words(s@),
{
    let v = to_chars(s);
    let mut out: Vec<String> = Vec::new();
    let mut i: usize = 0;
    loop
        invariant
            i <= v@.len(),
            v@ == s@,
            out.deep_view() + words_from(v@, i as int) == words(v@),
        ensures
            out.deep_view() == words(s@),
        decreases v.len() - i,
    {
        let ghost before = out.deep_view();
        let a = skip_space_at(&v, i);
        if a == v.len() {
            proof {
                assert(before + words_from(v@, i as int) =~= before);
            }
            break;
        }
        proof {
            lemma_skip_space(v@, i as int);
            lemma_word_end(v@, a as int);
        }
        let mut b: usize = a;
        while b < v.len() && !space(v[b])
            invariant
                a <= b <= v@.len(),
                word_end(v@, a as int) == word_end(v@, b as int),
            decreases v.len() - b,
        {
            b += 1;
        }
        out.push(from_chars(&v, a, b));
        proof {
            assert(out.deep_view() =~= before.push(v@.subrange(a as int, b as int)));
            assert(before + words_from(v@, i as int) =~= out.deep_view() + words_from(v@, b as int));
        }
        i = b;
    }
    out
}

/// Whether `p` stands in `s` at position `k`.
pub open spec fn occurs_at(s: Seq<char>, p: Seq<char>, k: int) -> bool {
    0 <= k && k + p.len() <= s.len() && s.subrange(k, k + p.len()) == p
}

/// Whether `s` begins with `p`.
pub open spec fn starts_with(s: Seq<char>, p: Seq<char>) -> bool {
    occurs_at(s, p, 0)
}

/// Whether `s` ends with `p`.
pub open spec fn ends_with(s: Seq<char>, p: Seq<char>) -> bool {
    occurs_at(s, p, s.len() - p.len())
}

/// Whether `p` occurs somewhere in `s`.
pub open spec fn has_text(s: Seq<char>, p: Seq<char>) -> bool {
    exists|k: int| occurs_at(s, p, k)
}

/// `s` without the prefix `p`, where it has it.
pub open spec fn strip_prefix(s: Seq<char>, p: Seq<char>) -> Option<Seq<char>> {
    if starts_with(s, p) {
        Some(s.subrange(p.len() as int, s.len() as int))
    } else {
        None
    }
}

/// The first position at or after `i` where `p` occurs, or `s.len() + 1`.
pub open spec fn text_from(s: Seq<char>, p: Seq<char>, i: int) -> int
    decreases s.len() - i + 1,
{
    if i < 0 || i + p.len() > s.len() {
        s.len() as int + 1
    } else if occurs_at(s, p, i) {
        i
    } else {
        text_from(s, p, i + 1)
    }
}

/// `text_from` finds the first occurrence.
pub proof fn lemma_text_from(s: Seq<char>, p: Seq<char>, i: int)
    requires
        0 <= i,
    ensures
        text_from(s, p, i) <= s.len() ==> i <= text_from(s, p, i) && occurs_at(
            s,
            p,
            text_from(s, p, i),
        ),
        text_from(s, p, i) <= s.len() + 1,
        forall|k: int| i <= k < text_from(s, p, i) ==> !#[trigger] occurs_at(s, p, k),
    decreases s.len() - i + 1,
{
    if i + p.len() <= s.len() && !occurs_at(s, p, i) {
        lemma_text_from(s, p, i + 1);
    }
}

/// Whether `p` stands in `v` at position `k`.
pub fn matches_at(v: &[char], p: &[char], k: usize) -> (r: bool)
    ensures
        r == occurs_at(v@, p@, k as int),
{
    let n: usize = v.len();
    if k > n || p.len() > n - k {
        return false;
    }
    let mut j: usize = 0;
    while j < p.len()
        invariant
            j <= p@.len(),
            k + p@.len() <= v@.len() == n,
            v@.subrange(k as int, k + j) == p@.take(j as int),
        decreases p.len() - j,
    {
        if v[k + j] != p[j] {
            proof {
                assert(v@.subrange(k as int, k + p@.len())[j as int] == v@[k + j]);
            }
            return false;
        }
        j += 1;
        proof {
            assert(v@.subrange(k as int, k + j) =~= v@.subrange(k as int, k + j - 1).push(
                v@[k + j - 1],
            ));
            assert(p@.take(j as int) =~= p@.take(j - 1).push(p@[j - 1]));
        }
    }
    proof {
        assert(p@.take(j as int) =~= p@);
    }
    true
}

/// The first position at or after `from` where `p` occurs.
pub fn find_from(v: &[char], p: &[char], from: usize) -> (r: Option<usize>)
    requires
        from <= v@.len(),
    ensures
        match r {
            Some(k) => k == text_from(v@, p@, from as int) && from <= k && k + p@.len() <= v@.len(),
            None => text_from(v@, p@, from as int) == v@.len() + 1,
        },
{
    let n: usize = v.len();
    let mut i: usize = from;
    while i < n && p.len() <= n - i
        invariant
            from <= i <= n == v@.len(),
            text_from(v@, p@, from as int) == text_from(v@, p@, i as int),
        decreases n - i,
    {
        if matches_at(v, p, i) {
            return Some(i);
        }
        i += 1;
    }
    if i == n && p.len() == 0 {
        proof {
            assert(v@.subrange(n as int, n as int) =~= p@);
        }
        return Some(n);
    }
    None
}

/// Whether `s` begins with `p`.
pub fn has_prefix(s: &str, p: &str) -> (r: bool)
    ensures
        r == starts_with(s@, p@),
{
    let v = to_chars(s);
    let q = to_chars(p);
    matches_at(&v, &q, 0)
}

/// Whether `s` ends with `p`.
pub fn has_suffix(s: &str, p: &str) -> (r: bool)
    ensures
        r == ends_with(s@, p@),
{
    let v = to_chars(s);
    let q = to_chars(p);
    if q.len() > v.len() {
        return false;
    }
    matches_at(&v, &q, v.len() - q.len())
}

/// `s` without the prefix `p`, where it has it.
pub fn without_prefix(s: &str, p: &str) -> (r: Option<String>)
    ensures
        r.deep_view() == strip_prefix(s@, p@),
{
    let v = to_chars(s);
    let q = to_chars(p);
    if matches_at(&v, &q, 0) {
        Some(from_chars(&v, q.len(), v.len()))
    } else {
        None
    }
}

/// Whether `p` occurs somewhere in `s`.
pub fn contains_text(s: &str, p: &str) -> (r: bool)
    ensures
        r == has_text(s@, p@),
{
    let v = to_chars(s);
    let q = to_chars(p);
    proof {
        lemma_text_from(v@, q@, 0);
    }
    match find_from(&v, &q, 0) {
        Some(k) => {
            proof {
                assert(occurs_at(v@, q@, k as int));
            }
            true
        },
        None => {
            proof {
                assert forall|k: int| !occurs_at(v@, q@, k) by {
                    if occurs_at(v@, q@, k) {
                        assert(k < text_from(v@, q@, 0));
                    }
                }
            }
            false
        },
    }
}

/// The number of non-overlapping occurrences of `p` from position `i` on. An
/// empty `p` occurs before every character and at the end.
pub open spec fn count_from(s: Seq<char>, p: Seq<char>, i: int) -> nat
    decreases s.len() - i + 1,
    via count_from_decreases
{
    let k = text_from(s, p, i);
    if 0 <= i && k <= s.len() {
        1 + count_from(
            s,
            p,
            if p.len() == 0 {
                k + 1
            } else {
                k + p.len()
            },
        )
    } else {
        0
    }
}

#[via_fn]
proof fn count_from_decreases(s: Seq<char>, p: Seq<char>, i: int) {
    if 0 <= i {
        lemma_text_from(s, p, i);
    }
}

/// The text from position `i` on, with every non-overlapping occurrence of `p`
/// replaced by `w`, from left to right.
pub open spec fn replace_from(s: Seq<char>, p: Seq<char>, w: Seq<char>, i: int) -> Seq<char>
    decreases s.len() - i + 1,
    via replace_from_decreases
{
    let k = text_from(s, p, i);
    if 0 <= i && k <= s.len() {
        if p.len() > 0 {
            s.subrange(i, k) + w + replace_from(s, p, w, k + p.len())
        } else if k < s.len() {
            s.subrange(i, k) + w + seq![s[k]] + replace_from(s, p, w, k + 1)
        } else {
            s.subrange(i, k) + w
        }
    } else {
        s.subrange(i, s.len() as int)
    }
}

#[via_fn]
proof fn replace_from_decreases(s: Seq<char>, p: Seq<char>, w: Seq<char>, i: int) {
    if 0 <= i {
        lemma_text_from(s, p, i);
    }
}

/// The number of non-overlapping occurrences of `p` in `v`.
pub fn count_matches(v: &[char], p: &[char]) -> (r: usize)
    requires
        p@.len() > 0 || v@.len() < usize::MAX,
    ensures
        r == count_from(v@, p@, 0),
{
    let total: usize = v.len();
    let mut n: usize = 0;
    let mut i: usize = 0;
    loop
        invariant_except_break
            i <= total == v@.len(),
            p@.len() > 0 || total < usize::MAX,
            n <= i,
            n + count_from(v@, p@, i as int) == count_from(v@, p@, 0),
        ensures
            n == count_from(v@, p@, 0),
        decreases v@.len() - i,
    {
        match find_from(v, p, i) {
            None => {
                break;
            },
            Some(k) => {
                n += 1;
                let step: usize = if p.len() == 0 {
                    1
                } else {
                    p.len()
                };
                if k == v.len() {
                    proof {
                        assert(count_from(v@, p@, v@.len() as int + 1) == 0);
                    }
                    break;
                }
                i = k + step;
            },
        }
    }
    n
}

fn append_slice(out: &mut Vec<char>, v: &[char], from: usize, to: usize)
    requires
        from <= to <= v@.len(),
    ensures
        final(out)@ == old(out)@ + v@.subrange(from as int, to as int),
{
    let mut i: usize = from;
    while i < to
        invariant
            from <= i <= to <= v@.len(),
            out@ == old(out)@ + v@.subrange(from as int, i as int),
        decreases to - i,
    {
        out.push(v[i]);
        i += 1;
    }
}

/// `v` with every non-overlapping occurrence of `p` replaced by `w`.
pub fn replace_all(v: &[char], p: &[char], w: &[char]) -> (r: Vec<char>)
    ensures
        r@ == replace_from(v@, p@, w@, 0),
{
    let n: usize = v.len();
    let mut out: Vec<char> = Vec::new();
    let mut i: usize = 0;
    loop
        invariant_except_break
            i <= v@.len() == n,
            out@ + replace_from(v@, p@, w@, i as int) == replace_from(v@, p@, w@, 0),
        ensures
            out@ == replace_from(v@, p@, w@, 0),
        decreases v@.len() - i,
    {
        let ghost before = out@;
        let ghost at = i as int;
        match find_from(v, p, i) {
            None => {
                append_slice(&mut out, v, i, n);
                break;
            },
            Some(k) => {
                append_slice(&mut out, v, i, k);
                append_slice(&mut out, w, 0, w.len());
                proof {
                    assert(w@.subrange(0, w@.len() as int) =~= w@);
                }
                if p.len() > 0 {
                    i = k + p.len();
                    proof {
                        assert(before + replace_from(v@, p@, w@, at) =~= out@ + replace_from(
                            v@,
                            p@,
                            w@,
                            i as int,
                        ));
                    }
                } else if k < v.len() {
                    out.push(v[k]);
                    i = k + 1;
                    proof {
                        assert(before + replace_from(v@, p@, w@, at) =~= out@ + replace_from(
                            v@,
                            p@,
                            w@,
                            i as int,
                        ));
                    }
                } else {
                    break;
                }
            },
        }
    }
    out
}

/// The last position at or before `j` where `p` occurs, or -1.
pub open spec fn last_text(s: Seq<char>, p: Seq<char>, j: int) -> int
    decreases j + 1,
{
    if j < 0 {
        -1
    } else if occurs_at(s, p, j) {
        j
    } else {
        last_text(s, p, j - 1)
    }
}

/// The last position where `p` occurs.
pub fn rfind(v: &[char], p: &[char]) -> (r: Option<usize>)
    ensures
        match r {
            Some(k) => k == last_text(v@, p@, v@.len() as int) && k <= v@.len(),
            None => last_text(v@, p@, v@.len() as int) == -1,
        },
{
    let n: usize = v.len();
    if matches_at(v, p, n) {
        return Some(n);
    }
    let mut j: usize = n;
    while j > 0
        invariant
            j <= n == v@.len(),
            !occurs_at(v@, p@, j as int),
            last_text(v@, p@, n as int) == last_text(v@, p@, j as int),
        decreases j,
    {
        j -= 1;
        proof {
            assert(last_text(v@, p@, j + 1) == last_text(v@, p@, j as int));
        }
        if matches_at(v, p, j) {
            return Some(j);
        }
    }
    proof {
        assert(last_text(v@, p@, 0) == last_text(v@, p@, -1));
    }
    None
}

/// The first line of a text, or nothing where it has none.
pub open spec fn first_line(s: Seq<char>) -> Seq<char> {
    if s.len() == 0 {
        Seq::empty()
    } else {
        line_at(s, 0)
    }
}

/// The first line of `s`.
pub fn first_line_of(s: &str) -> (r: String)
    ensures
        r@ == first_line(s@),
{
    let v = to_chars(s);
    if v.len() == 0 {
        return String::new();
    }
    let e = char_at_or_after(&v, '\n', 0);
    if 0 < e && e < v.len() && v[e - 1] == '\r' {
        from_chars(&v, 0, e - 1)
    } else {
        from_chars(&v, 0, e)
    }
}

/// `s` without any white space.
pub open spec fn squash(s: Seq<char>) -> Seq<char>
    decreases s.len(),
{
    if s.len() == 0 {
        Seq::empty()
    } else if is_space(s.last()) {
        squash(s.drop_last())
    } else {
        squash(s.drop_last()).push(s.last())
    }
}

/// `s` without any white space.
pub fn ws_squash(s: &str) -> (r: String)
    ensures
        r@ == squash(s@),
{
    let v = to_chars(s);
    let mut out = String::new();
    let mut i: usize = 0;
    while i < v.len()
        invariant
            i <= v@.len(),
            v@ == s@,
            out@ == squash(v@.take(i as int)),
        decreases v.len() - i,
    {
        proof {
            assert(v@.take(i + 1).drop_last() =~= v@.take(i as int));
        }
        if !space(v[i]) {
            out.push(v[i]);
        }
        i += 1;
    }
    proof {
        assert(v@.take(i as int) =~= v@);
    }
    out
}

/// Where the line with index `k` starts.
pub open spec fn line_offset(s: Seq<char>, k: int) -> int
    decreases k,
{
    if k <= 0 {
        0
    } else {
        next_line(s, line_offset(s, k - 1))
    }
}

/// `line_offset` stays in range and never steps back.
pub proof fn lemma_line_offset(s: Seq<char>, k: int)
    requires
        0 <= k,
    ensures
        0 <= line_offset(s, k) <= s.len(),
        k > 0 ==> line_offset(s, k - 1) <= line_offset(s, k),
        k > 0 && line_offset(s, k - 1) < s.len() ==> line_offset(s, k - 1) < line_offset(s, k),
    decreases k,
{
    if k > 0 {
        lemma_line_offset(s, k - 1);
        lemma_char_from(s, '\n', line_offset(s, k - 1));
    }
}

/// Where the line with index `k` starts.
pub fn offset_of_line(v: &[char], k: usize) -> (r: usize)
    ensures
        r == line_offset(v@, k as int),
        r <= v@.len(),
{
    let mut at: usize = 0;
    let mut i: usize = 0;
    while i < k
        invariant
            i <= k,
            at <= v@.len(),
            at == line_offset(v@, i as int),
        decreases k - i,
    {
        let e = char_at_or_after(v, '\n', at);
        at = if e < v.len() {
            e + 1
        } else {
            e
        };
        i += 1;
    }
    at
}

/// `s` as a quoted literal with escapes.
pub uninterp spec fn quoted(s: Seq<char>) -> Seq<char>;

/// Formats `s` with the `Debug` implementation of `str`: a double-quoted
/// literal with escapes. The result is named, not described: which characters
/// are escaped, and how, is left to the standard library.
#[verifier::external_body]
pub(crate) fn quote(s: &str) -> (r: String)
    ensures
        r@ == quoted(s@),
{
    format!("{:?}", s)
}

/// The pieces of `s` from position `i` on, cut at each `c`.
pub open spec fn split_from(s: Seq<char>, c: char, i: int) -> Seq<Seq<char>>
    decreases s.len() - i,
    via split_from_decreases
{
    let e = char_from(s, c, i);
    if 0 <= i <= s.len() && e < s.len() {
        seq![s.subrange(i, e)] + split_from(s, c, e + 1)
    } else {
        seq![s.subrange(i, s.len() as int)]
    }
}

#[via_fn]
proof fn split_from_decreases(s: Seq<char>, c: char, i: int) {
    if 0 <= i <= s.len() {
        lemma_char_from(s, c, i);
    }
}

/// The pieces of a text, cut at each `c`. There is at least one.
pub fn split_char(s: &str, c: char) -> (r: Vec<String>)
    ensures
        r.deep_view() == split_from(s@, c, 0),
{
    let v = to_chars(s);
    let n: usize = v.len();
    let mut out: Vec<String> = Vec::new();
    let mut i: usize = 0;
    proof {
        assert(out.deep_view() + split_from(v@, c, 0) =~= split_from(v@, c, 0));
    }
    loop
        invariant_except_break
            i <= n == v@.len(),
            out.deep_view() + split_from(v@, c, i as int) == split_from(v@, c, 0),
        ensures
            out.deep_view() == split_from(v@, c, 0),
        decreases n - i,
    {
        let ghost before = out.deep_view();
        let e = char_at_or_after(&v, c, i);
        out.push(from_chars(&v, i, e));
        proof {
            assert(out.deep_view() =~= before.push(v@.subrange(i as int, e as int)));
        }
        if e == n {
            proof {
                assert(before + split_from(v@, c, i as int) =~= out.deep_view());
            }
            break;
        }
        proof {
            assert(before + split_from(v@, c, i as int) =~= out.deep_view() + split_from(
                v@,
                c,
                e + 1,
            ));
        }
        i = e + 1;
    }
    out
}

/// `s` without `p` at its start, as often as it stands there.
pub open spec fn strip_all(s: Seq<char>, p: Seq<char>) -> Seq<char>
    decreases s.len(),
{
    if p.len() > 0 && starts_with(s, p) {
        strip_all(s.subrange(p.len() as int, s.len() as int), p)
    } else {
        s
    }
}

/// `s` without `p` at its start, as often as it stands there. An empty `p` takes
/// nothing off.
pub fn without_prefixes(s: &str, p: &str) -> (r: String)
    ensures
        r@ == strip_all(s@, p@),
{
    let mut rest = s.to_owned();
    if p.is_empty() {
        return rest;
    }
    while has_prefix(&rest, p)
        invariant
            p@.len() > 0,
            strip_all(s@, p@) == strip_all(rest@, p@),
        decreases rest@.len(),
    {
        let v = to_chars(&rest);
        let n: usize = to_chars(p).len();
        rest = from_chars(&v, n, v.len());
    }
    rest
}

/// What `char_from` finds in the first of two texts, it finds in both together.
pub proof fn lemma_char_from_left(a: Seq<char>, b: Seq<char>, c: char, i: int)
    requires
        0 <= i <= a.len(),
        char_from(a, c, i) < a.len(),
    ensures
        char_from(a + b, c, i) == char_from(a, c, i),
    decreases a.len() - i,
{
    if i < a.len() && a[i] != c {
        lemma_char_from_left(a, b, c, i + 1);
    }
}

/// From the start of the second of two texts on, `char_from` reads that text.
pub proof fn lemma_char_from_right(a: Seq<char>, b: Seq<char>, c: char, j: int)
    requires
        0 <= j <= b.len(),
    ensures
        char_from(a + b, c, a.len() + j) == a.len() + char_from(b, c, j),
    decreases b.len() - j,
{
    if j < b.len() {
        assert((a + b)[a.len() + j] == b[j]);
        if b[j] != c {
            lemma_char_from_right(a, b, c, j + 1);
        }
    }
}

proof fn lemma_lines_right(a: Seq<char>, b: Seq<char>, j: int)
    requires
        0 <= j <= b.len(),
    ensures
        lines_from(a + b, a.len() + j) == lines_from(b, j),
    decreases b.len() - j,
{
    if j < b.len() {
        let s = a + b;
        let i = a.len() + j;
        lemma_char_from_right(a, b, '\n', j);
        lemma_char_from(b, '\n', j);
        let e = char_from(b, '\n', j);
        assert(s.subrange(i, a.len() + e) =~= b.subrange(j, e));
        if j < e < b.len() && b[e - 1] == '\r' {
            assert(s[a.len() + e - 1] == '\r');
            assert(s.subrange(i, a.len() + e - 1) =~= b.subrange(j, e - 1));
        }
        lemma_lines_right(a, b, next_line(b, j));
    }
}

/// The lines of two texts, where the first is empty or ends in a newline, are
/// the lines of the first and those of the second.
pub proof fn lemma_lines_append(a: Seq<char>, b: Seq<char>, i: int)
    requires
        0 <= i <= a.len(),
        a.len() == 0 || a.last() == '\n',
    ensures
        lines_from(a + b, i) == lines_from(a, i) + lines(b),
    decreases a.len() - i,
{
    let s = a + b;
    if i == a.len() {
        lemma_lines_right(a, b, 0);
        assert(lines_from(a, i) + lines(b) =~= lines(b));
    } else {
        lemma_char_from(a, '\n', i);
        let e = char_from(a, '\n', i);
        if e == a.len() {
            assert(a[a.len() - 1] != '\n');
        }
        lemma_char_from_left(a, b, '\n', i);
        assert(s.subrange(i, e) =~= a.subrange(i, e));
        if i < e && a[e - 1] == '\r' {
            assert(s.subrange(i, e - 1) =~= a.subrange(i, e - 1));
        }
        lemma_lines_append(a, b, e + 1);
        assert(lines_from(s, i) =~= lines_from(a, i) + lines(b));
    }
}

/// Whether a line can be written down and read again: it holds no newline, and
/// no carriage return at its end that would go with the newline.
pub open spec fn is_line(s: Seq<char>) -> bool {
    &&& forall|k: int| 0 <= k < s.len() ==> #[trigger] s[k] != '\n'
    &&& s.len() > 0 ==> s.last() != '\r'
}

/// A line with a newline behind it is one line.
pub proof fn lemma_one_line(s: Seq<char>)
    requires
        is_line(s),
    ensures
        lines(s.push('\n')) == seq![s],
{
    let t = s.push('\n');
    lemma_char_from(t, '\n', 0);
    let e = char_from(t, '\n', 0);
    if e < s.len() {
        assert(t[e] == s[e]);
    }
    assert(t[s.len() as int] == '\n');
    assert(e == s.len());
    assert(t.subrange(0, e) =~= s);
    assert(lines_from(t, t.len() as int) =~= Seq::<Seq<char>>::empty());
    assert(lines(t) =~= seq![s]);
}

/// Lines, each with a newline behind it.
pub open spec fn with_newlines(ls: Seq<Seq<char>>) -> Seq<char>
    decreases ls.len(),
{
    if ls.len() == 0 {
        Seq::empty()
    } else {
        with_newlines(ls.drop_last()) + ls.last().push('\n')
    }
}

/// Lines that are written down, each with a newline behind it, read back as
/// those lines.
pub proof fn written_lines_read_back(ls: Seq<Seq<char>>)
    requires
        forall|k: int| 0 <= k < ls.len() ==> is_line(#[trigger] ls[k]),
    ensures
        lines(with_newlines(ls)) == ls,
        with_newlines(ls).len() == 0 || with_newlines(ls).last() == '\n',
    decreases ls.len(),
{
    if ls.len() > 0 {
        let head = ls.drop_last();
        written_lines_read_back(head);
        lemma_one_line(ls.last());
        lemma_lines_append(with_newlines(head), ls.last().push('\n'), 0);
        assert(head + seq![ls.last()] =~= ls);
    }
}

/// Lines one behind the other are written down one behind the other.
pub proof fn lemma_with_newlines_append(a: Seq<Seq<char>>, b: Seq<Seq<char>>)
    ensures
        with_newlines(a + b) == with_newlines(a) + with_newlines(b),
    decreases b.len(),
{
    if b.len() == 0 {
        assert(a + b =~= a);
        assert(with_newlines(a) + with_newlines(b) =~= with_newlines(a));
    } else {
        lemma_with_newlines_append(a, b.drop_last());
        assert((a + b).drop_last() =~= a + b.drop_last());
        assert(with_newlines(a + b) =~= with_newlines(a) + with_newlines(b));
    }
}

/// Lines joined by newlines, with one more at the end, are the lines with a
/// newline behind each.
pub proof fn lemma_join_newlines(ls: Seq<Seq<char>>)
    requires
        ls.len() > 0,
    ensures
        join(ls, "\n"@) + "\n"@ == with_newlines(ls),
    decreases ls.len(),
{
    reveal_strlit("\n");
    if ls.len() > 1 {
        lemma_join_newlines(ls.drop_last());
        assert(join(ls, "\n"@) + "\n"@ =~= with_newlines(ls.drop_last()) + ls.last().push('\n'));
    } else {
        assert(with_newlines(ls.drop_last()) =~= Seq::<char>::empty());
        assert(join(ls, "\n"@) + "\n"@ =~= with_newlines(ls));
    }
}

/// Where line `k` exists, the text before it is empty or ends in a newline, and
/// holds the `k` lines above.
pub proof fn lemma_text_above(s: Seq<char>, k: int)
    requires
        0 <= k < lines(s).len(),
    ensures
        0 <= line_offset(s, k) < s.len(),
        line_offset(s, k) == 0 || s[line_offset(s, k) - 1] == '\n',
        lines_from(s, line_offset(s, k)) == lines(s).skip(k),
    decreases k,
{
    if k == 0 {
        assert(lines(s).skip(0) =~= lines(s));
    } else {
        lemma_text_above(s, k - 1);
        let i = line_offset(s, k - 1);
        let j = line_offset(s, k);
        lemma_char_from(s, '\n', i);
        let rest = lines_from(s, j);
        assert(lines_from(s, i) == seq![line_at(s, i)] + rest);
        assert(lines(s).skip(k) =~= lines(s).skip(k - 1).skip(1));
        assert((seq![line_at(s, i)] + rest).skip(1) =~= rest);
        if j == s.len() {
            assert(rest.len() == 0);
            assert(lines(s).skip(k).len() == lines(s).len() - k);
        }
    }
}

/// Lines joined by newlines: the first of them with a newline behind each, and the
/// others joined.
pub proof fn lemma_join_split(a: Seq<Seq<char>>, b: Seq<Seq<char>>)
    requires
        b.len() > 0,
    ensures
        join(a + b, "\n"@) == with_newlines(a) + join(b, "\n"@),
    decreases b.len(),
{
    if b.len() == 1 {
        assert((a + b).drop_last() =~= a);
        if a.len() == 0 {
            assert(a + b =~= b);
            assert(with_newlines(a) + join(b, "\n"@) =~= join(b, "\n"@));
        } else {
            lemma_join_newlines(a);
            assert((a + b).last() == b[0]);
            assert(join(a + b, "\n"@) =~= with_newlines(a) + join(b, "\n"@));
        }
    } else {
        lemma_join_split(a, b.drop_last());
        assert((a + b).drop_last() =~= a + b.drop_last());
        assert((a + b).last() == b.last());
        assert(join(a + b, "\n"@) =~= with_newlines(a) + join(b, "\n"@));
    }
}

/// Lines with a newline behind each are no text, or end in a newline.
pub proof fn lemma_newlines_end(ls: Seq<Seq<char>>)
    ensures
        with_newlines(ls).len() == 0 || with_newlines(ls).last() == '\n',
        ls.len() > 0 ==> with_newlines(ls).len() > 0,
{
}

/// A line that is not empty is one line without a newline behind it too.
pub proof fn lemma_last_line(s: Seq<char>)
    requires
        is_line(s),
        s.len() > 0,
    ensures
        lines(s) == seq![s],
{
    lemma_char_from(s, '\n', 0);
    assert(char_from(s, '\n', 0) == s.len());
    assert(s.subrange(0, s.len() as int) =~= s);
    assert(lines_from(s, s.len() as int) =~= Seq::<Seq<char>>::empty());
    assert(lines(s) =~= seq![s]);
}

/// A text with a newline at its end, where it is to have one.
pub open spec fn ended(s: Seq<char>, newline: bool) -> Seq<char> {
    if newline && !ends_with(s, "\n"@) {
        s + "\n"@
    } else {
        s
    }
}

/// Whether lines that are joined to a text, with a newline at its end or without, do
/// not all read back: an empty line at the end counts as no line, unless it stands
/// alone before a newline.
pub open spec fn loses_last_line(ls: Seq<Seq<char>>, newline: bool) -> bool {
    ls.len() > 0 && ls.last().len() == 0 && !(ls.len() == 1 && newline)
}

/// Lines that are joined to a text read back as those lines, unless the last one is
/// lost.
pub proof fn joined_lines_read_back(ls: Seq<Seq<char>>, newline: bool)
    requires
        ls.len() > 0,
        forall|k: int| 0 <= k < ls.len() ==> is_line(#[trigger] ls[k]),
        !loses_last_line(ls, newline),
    ensures
        lines(ended(join(ls, "\n"@), newline)) == ls,
{
    let j = join(ls, "\n"@);
    let front = ls.drop_last();
    let last = ls.last();
    reveal_strlit("\n");
    assert(ls =~= front + seq![last]);
    lemma_join_split(front, seq![last]);
    assert(join(seq![last], "\n"@) == last);
    assert(j == with_newlines(front) + last);
    lemma_newlines_end(front);
    lemma_join_newlines(ls);
    written_lines_read_back(ls);
    written_lines_read_back(front);
    if last.len() > 0 {
        assert(j.last() == last.last());
        assert(last.last() != '\n');
        assert(!ends_with(j, "\n"@)) by {
            assert(j.subrange(j.len() - 1, j.len() as int)[0] == j.last());
        }
        if !newline {
            lemma_lines_append(with_newlines(front), last, 0);
            lemma_last_line(last);
        }
    } else {
        assert(front =~= Seq::<Seq<char>>::empty());
        assert(j.len() == 0);
    }
}

/// A newline at the end of a text depends on its last part alone, where that is not
/// empty.
pub proof fn lemma_ended_append(a: Seq<char>, b: Seq<char>, newline: bool)
    requires
        a.len() == 0 || b.len() > 0,
    ensures
        ended(a + b, newline) == a + ended(b, newline),
{
    reveal_strlit("\n");
    if a.len() == 0 {
        assert(a + b =~= b);
        assert(a + ended(b, newline) =~= ended(b, newline));
    } else {
        let s = a + b;
        assert(s.last() == b.last());
        assert(ends_with(s, "\n"@) == (s.last() == '\n')) by {
            assert(s.subrange(s.len() - 1, s.len() as int) =~= seq![s.last()]);
            assert("\n"@ =~= seq!['\n']);
            assert(seq![s.last()][0] == s.last());
            assert(seq!['\n'][0] == '\n');
        }
        assert(ends_with(b, "\n"@) == (b.last() == '\n')) by {
            assert(b.subrange(b.len() - 1, b.len() as int) =~= seq![b.last()]);
            assert("\n"@ =~= seq!['\n']);
            assert(seq![b.last()][0] == b.last());
            assert(seq!['\n'][0] == '\n');
        }
        assert(ended(s, newline) =~= a + ended(b, newline));
    }
}

/// Of the ASCII characters, the space and the controls from tab to carriage return are
/// white space, and no other.
pub proof fn ascii_spaces(c: char)
    requires
        c as u32 <= 0x7f,
    ensures
        is_space(c) <==> c == ' ' || '\t' <= c <= '\r',
{
}

/// Trimming takes nothing but white space off, at both ends, at the start or at the
/// end, and leaves none there.
pub proof fn trimming_takes_only_outer_space(s: Seq<char>)
    ensures
        exists|a: int, b: int|
            0 <= a <= b <= s.len() && trim(s) == #[trigger] s.subrange(a, b) && is_blank(
                s.take(a),
            ) && is_blank(s.skip(b)),
        trim(s).len() > 0 ==> !is_space(trim(s)[0]) && !is_space(trim(s).last()),
        exists|a: int| 0 <= a <= s.len() && trim_start(s) == #[trigger] s.skip(a) && is_blank(
            s.take(a),
        ),
        trim_start(s).len() > 0 ==> !is_space(trim_start(s)[0]),
        exists|b: int| 0 <= b <= s.len() && trim_end(s) == #[trigger] s.take(b) && is_blank(
            s.skip(b),
        ),
        trim_end(s).len() > 0 ==> !is_space(trim_end(s).last()),
{
    let n = s.len() as int;
    lemma_skip_space(s, 0);
    let a = skip_space(s, 0);
    lemma_back_space(s, a, n);
    let b = back_space(s, a, n);
    lemma_back_space(s, 0, n);
    let e = back_space(s, 0, n);
    assert(is_blank(s.take(a)));
    assert(is_blank(s.skip(b))) by {
        assert forall|i: int| 0 <= i < s.skip(b).len() implies is_space(
            #[trigger] s.skip(b)[i],
        ) by {
            assert(is_space(s[b + i]));
        }
    }
    assert(is_blank(s.skip(e))) by {
        assert forall|i: int| 0 <= i < s.skip(e).len() implies is_space(
            #[trigger] s.skip(e)[i],
        ) by {
            assert(is_space(s[e + i]));
        }
    }
    assert(trim(s) == s.subrange(a, b));
    assert(trim_start(s) =~= s.skip(a));
    assert(trim_end(s) =~= s.take(e));
}

/// Trimming a text that is trimmed changes nothing.
pub proof fn trimmed_text_stays(s: Seq<char>)
    requires
        s.len() > 0 ==> !is_space(s[0]) && !is_space(s.last()),
    ensures
        trim(s) == s,
        trim_start(s) == s,
        trim_end(s) == s,
{
    assert(s.subrange(0, s.len() as int) =~= s);
}

proof fn lemma_squash_append(a: Seq<char>, b: Seq<char>)
    ensures
        squash(a + b) == squash(a) + squash(b),
    decreases b.len(),
{
    if b.len() == 0 {
        assert(a + b =~= a);
        assert(squash(a) + squash(b) =~= squash(a));
    } else {
        lemma_squash_append(a, b.drop_last());
        assert((a + b).drop_last() =~= a + b.drop_last());
        assert((a + b).last() == b.last());
        assert(squash(a + b) =~= squash(a) + squash(b));
    }
}

proof fn lemma_squash_blank(s: Seq<char>)
    requires
        is_blank(s),
    ensures
        squash(s) == Seq::<char>::empty(),
    decreases s.len(),
{
    if s.len() > 0 {
        assert(is_space(s[s.len() - 1]));
        assert forall|i: int| 0 <= i < s.drop_last().len() implies is_space(
            #[trigger] s.drop_last()[i],
        ) by {
            assert(is_space(s[i]));
        }
        lemma_squash_blank(s.drop_last());
    }
}

proof fn lemma_squash_solid(s: Seq<char>)
    requires
        forall|i: int| 0 <= i < s.len() ==> !is_space(#[trigger] s[i]),
    ensures
        squash(s) == s,
    decreases s.len(),
{
    if s.len() > 0 {
        assert(!is_space(s[s.len() - 1]));
        lemma_squash_solid(s.drop_last());
        assert(s.drop_last().push(s.last()) =~= s);
    } else {
        assert(squash(s) =~= s);
    }
}

/// Squashing takes out all white space and nothing else, wherever a text is cut.
pub proof fn squashing_takes_only_space(a: Seq<char>, b: Seq<char>, c: char)
    ensures
        squash(a + b) == squash(a) + squash(b),
        squash(seq![c]) == (if is_space(c) {
            Seq::empty()
        } else {
            seq![c]
        }),
        squash(Seq::empty()) == Seq::<char>::empty(),
{
    lemma_squash_append(a, b);
    reveal_with_fuel(squash, 2);
    assert(seq![c].last() == c);
    assert(seq![c].drop_last() =~= Seq::<char>::empty());
    assert(Seq::<char>::empty().push(c) =~= seq![c]);
}

proof fn lemma_words(s: Seq<char>, i: int)
    requires
        0 <= i <= s.len(),
    ensures
        forall|k: int|
            0 <= k < words_from(s, i).len() ==> (#[trigger] words_from(s, i)[k]).len() > 0
                && squash(words_from(s, i)[k]) == words_from(s, i)[k],
        words_from(s, i).flatten() == squash(s.skip(i)),
    decreases s.len() - i,
{
    lemma_skip_space(s, i);
    let a = skip_space(s, i);
    if a < s.len() {
        lemma_word_end(s, a);
        let e = word_end(s, a);
        let w = s.subrange(a, e);
        let gap = s.subrange(i, a);
        lemma_words(s, e);
        let rest = words_from(s, e);
        let all = words_from(s, i);
        assert(s.skip(i) =~= gap + (w + s.skip(e)));
        lemma_squash_append(gap, w + s.skip(e));
        lemma_squash_append(w, s.skip(e));
        assert(is_blank(gap));
        lemma_squash_blank(gap);
        lemma_squash_solid(w);
        assert(all.drop_first() =~= rest);
        assert(all.first() == w);
        assert(all.flatten() == w + rest.flatten());
        assert(Seq::<char>::empty() + (w + squash(s.skip(e))) =~= w + squash(s.skip(e)));
        assert forall|k: int| 0 <= k < all.len() implies (#[trigger] all[k]).len() > 0 && squash(
            all[k],
        ) == all[k] by {
            if k > 0 {
                assert(all[k] == rest[k - 1]);
            }
        }
    } else {
        assert(is_blank(s.skip(i)));
        lemma_squash_blank(s.skip(i));
    }
}

/// The words of a text are not empty, hold no white space, and one behind the other are
/// all of the text but its white space.
pub proof fn words_hold_all_but_space(s: Seq<char>)
    ensures
        forall|k: int|
            0 <= k < words(s).len() ==> (#[trigger] words(s)[k]).len() > 0 && squash(words(s)[k])
                == words(s)[k],
        words(s).flatten() == squash(s),
{
    lemma_words(s, 0);
    assert(s.skip(0) =~= s);
}

proof fn lemma_join_first(x: Seq<char>, rest: Seq<Seq<char>>, sep: Seq<char>)
    requires
        rest.len() > 0,
    ensures
        join(seq![x] + rest, sep) == x + sep + join(rest, sep),
    decreases rest.len(),
{
    let all = seq![x] + rest;
    assert(all.drop_last() =~= seq![x] + rest.drop_last());
    assert(all.last() == rest.last());
    if rest.len() == 1 {
        assert(all.drop_last() =~= seq![x]);
        assert(join(seq![x], sep) =~= x);
    } else {
        lemma_join_first(x, rest.drop_last(), sep);
        assert(join(all, sep) =~= x + sep + join(rest, sep));
    }
}

/// Joining puts the separator between each two parts and changes none of them.
pub proof fn joined_parts_follow_one_another(a: Seq<Seq<char>>, b: Seq<Seq<char>>, sep: Seq<char>)
    ensures
        a.len() > 0 && b.len() > 0 ==> join(a + b, sep) == join(a, sep) + sep + join(b, sep),
        a.len() == 1 ==> join(a, sep) == a[0],
        a.len() == 0 ==> join(a, sep) == Seq::<char>::empty(),
    decreases a.len(),
{
    if a.len() == 1 && b.len() > 0 {
        assert(a =~= seq![a[0]]);
        lemma_join_first(a[0], b, sep);
    } else if a.len() > 1 && b.len() > 0 {
        let rest = a.drop_first();
        joined_parts_follow_one_another(rest, b, sep);
        lemma_join_first(a[0], rest, sep);
        lemma_join_first(a[0], rest + b, sep);
        assert(a =~= seq![a[0]] + rest);
        assert(a + b =~= seq![a[0]] + (rest + b));
        assert(join(a + b, sep) =~= join(a, sep) + sep + join(b, sep));
    }
}

proof fn lemma_split(s: Seq<char>, c: char, i: int)
    requires
        0 <= i <= s.len(),
    ensures
        split_from(s, c, i).len() > 0,
        join(split_from(s, c, i), seq![c]) == s.skip(i),
        forall|k: int|
            0 <= k < split_from(s, c, i).len() ==> !(#[trigger] split_from(s, c, i)[k]).contains(c),
    decreases s.len() - i,
{
    lemma_char_from(s, c, i);
    let e = char_from(s, c, i);
    let all = split_from(s, c, i);
    if e < s.len() {
        lemma_split(s, c, e + 1);
        let rest = split_from(s, c, e + 1);
        lemma_join_first(s.subrange(i, e), rest, seq![c]);
        assert(s.skip(i) =~= s.subrange(i, e) + seq![c] + s.skip(e + 1));
        assert forall|k: int| 0 <= k < all.len() implies !(#[trigger] all[k]).contains(c) by {
            if k > 0 {
                assert(all[k] == rest[k - 1]);
            } else {
                assert(all[0] == s.subrange(i, e));
            }
        }
    } else {
        assert(s.subrange(i, s.len() as int) =~= s.skip(i));
        assert(join(all, seq![c]) == s.skip(i));
    }
}

/// A text that is cut at a character and joined by it again is the same text, and no
/// piece holds that character.
pub proof fn pieces_join_to_the_text(s: Seq<char>, c: char)
    ensures
        join(split_from(s, c, 0), seq![c]) == s,
        forall|k: int|
            0 <= k < split_from(s, c, 0).len() ==> !(#[trigger] split_from(s, c, 0)[k]).contains(c),
{
    lemma_split(s, c, 0);
    assert(s.skip(0) =~= s);
}

/// Replacing changes the matches and nothing else: each makes the text longer by as much
/// as the new text is longer than the old one, and a text that is replaced by itself
/// stays.
pub proof fn replacing_changes_only_matches(s: Seq<char>, p: Seq<char>, w: Seq<char>, i: int)
    requires
        p.len() > 0,
        0 <= i <= s.len(),
    ensures
        replace_from(s, p, w, i).len() == s.len() - i + count_from(s, p, i) * (w.len() - p.len()),
        replace_from(s, p, p, i) == s.skip(i),
        count_from(s, p, i) == 0 ==> replace_from(s, p, w, i) == s.skip(i),
        count_from(s, p, i) > 0 <==> exists|k: int| i <= k && #[trigger] occurs_at(s, p, k),
    decreases s.len() - i,
{
    lemma_text_from(s, p, i);
    let k = text_from(s, p, i);
    let d = w.len() - p.len();
    if k <= s.len() {
        assert(occurs_at(s, p, k));
        let j = (k + p.len()) as int;
        replacing_changes_only_matches(s, p, w, j);
        let n = count_from(s, p, j) as int;
        assert((n + 1) * d == n * d + d) by (nonlinear_arith);
        assert(count_from(s, p, i) == n + 1);
        assert(s.skip(i) =~= s.subrange(i, k) + p + s.skip(j)) by {
            assert(s.subrange(k, j) == p);
            assert(s.skip(i) =~= s.subrange(i, k) + s.subrange(k, j) + s.skip(j));
        }
    } else {
        assert(s.subrange(i, s.len() as int) =~= s.skip(i));
        assert(0 * d == 0) by (nonlinear_arith);
        assert forall|m: int| i <= m implies !#[trigger] occurs_at(s, p, m) by {
            assert(p.len() > 0);
        }
    }
}

/// The last occurrence that is found is one, and none comes behind it; where none is
/// found, there is none.
pub proof fn last_occurrence_is_last(s: Seq<char>, p: Seq<char>, j: int)
    ensures
        last_text(s, p, j) >= 0 ==> last_text(s, p, j) <= j && occurs_at(s, p, last_text(s, p, j)),
        forall|k: int| last_text(s, p, j) < k <= j ==> !#[trigger] occurs_at(s, p, k),
        last_text(s, p, j) >= -1,
    decreases j + 1,
{
    if j >= 0 && !occurs_at(s, p, j) {
        last_occurrence_is_last(s, p, j - 1);
    }
}

/// A line ends at a newline, with a carriage return before it or without; what stands
/// behind the last newline is a line where it is not empty.
pub proof fn lines_end_at_newlines(a: Seq<char>, b: Seq<char>)
    requires
        !a.contains('\n'),
    ensures
        lines(a + seq!['\r', '\n'] + b) == seq![a] + lines(b),
        a.len() == 0 || a.last() != '\r' ==> lines(a + seq!['\n'] + b) == seq![a] + lines(b),
        a.len() > 0 ==> lines(a) == seq![a],
        lines(Seq::empty()) == Seq::<Seq<char>>::empty(),
{
    assert forall|k: int| 0 <= k < a.len() implies #[trigger] a[k] != '\n' by {
        assert(a.contains(a[k]));
    }
    let end = seq!['\r', '\n'];
    let s = a + end + b;
    lemma_char_from(s, '\n', 0);
    let e = char_from(s, '\n', 0);
    assert(s[a.len() as int] == '\r' && s[a.len() as int + 1] == '\n');
    if e < a.len() {
        assert(s[e] == a[e]);
    }
    assert(e == a.len() + 1);
    assert(s.subrange(0, a.len() as int) =~= a);
    assert(next_line(s, 0) == a.len() + 2);
    lemma_lines_right(a + end, b, 0);
    assert(lines(s) == seq![a] + lines(b));
    if a.len() == 0 || a.last() != '\r' {
        assert(is_line(a));
        lemma_one_line(a);
        assert(a.push('\n') + b =~= a + seq!['\n'] + b);
        lemma_lines_append(a.push('\n'), b, 0);
    }
    if a.len() > 0 {
        lemma_char_from(a, '\n', 0);
        assert(char_from(a, '\n', 0) == a.len());
        assert(a.subrange(0, a.len() as int) =~= a);
        assert(lines_from(a, a.len() as int) =~= Seq::<Seq<char>>::empty());
        assert(lines(a) =~= seq![a]);
    }
}

/// The first line is the first of the lines.
pub proof fn first_line_is_a_line(s: Seq<char>)
    ensures
        s.len() > 0 ==> lines(s).len() > 0 && first_line(s) == lines(s)[0],
        s.len() == 0 ==> first_line(s).len() == 0,
{
}

/// Taking a prefix off takes off all its repetitions, and nothing behind them.
pub proof fn prefixes_are_taken_off(s: Seq<char>, p: Seq<char>)
    requires
        p.len() > 0,
    ensures
        strip_all(p + s, p) == strip_all(s, p),
        !starts_with(s, p) ==> strip_all(s, p) == s,
        !starts_with(strip_all(s, p), p),
    decreases s.len(),
{
    assert((p + s).subrange(0, p.len() as int) =~= p);
    assert((p + s).subrange(p.len() as int, (p + s).len() as int) =~= s);
    if starts_with(s, p) {
        prefixes_are_taken_off(s.subrange(p.len() as int, s.len() as int), p);
    }
}

/// A text is found in itself, and what is found in one of two texts is found in both
/// together.
pub proof fn found_in_either(a: Seq<char>, b: Seq<char>, p: Seq<char>)
    ensures
        has_text(p, p),
        has_text(a, p) || has_text(b, p) ==> has_text(a + b, p),
{
    assert(p.subrange(0, p.len() as int) =~= p);
    assert(occurs_at(p, p, 0));
    if has_text(a, p) {
        let k = choose|k: int| occurs_at(a, p, k);
        assert((a + b).subrange(k, k + p.len()) =~= a.subrange(k, k + p.len()));
        assert(occurs_at(a + b, p, k));
    } else if has_text(b, p) {
        let k = choose|k: int| occurs_at(b, p, k);
        let j = a.len() + k;
        assert((a + b).subrange(j, j + p.len()) =~= b.subrange(k, k + p.len()));
        assert(occurs_at(a + b, p, j));
    }
}

/// What is found in a part of a text is found in the text.
pub proof fn found_through(s: Seq<char>, q: Seq<char>, p: Seq<char>)
    requires
        has_text(s, q),
        has_text(q, p),
    ensures
        has_text(s, p),
{
    let i = choose|i: int| occurs_at(s, q, i);
    let k = choose|k: int| occurs_at(q, p, k);
    assert(s.subrange(i + k, i + k + p.len()) =~= s.subrange(i, i + q.len()).subrange(
        k,
        k + p.len(),
    ));
    assert(occurs_at(s, p, i + k));
}

/// The offset of a line is the length of the lines above it, each with its newline.
pub proof fn offsets_count_lines(ls: Seq<Seq<char>>, rest: Seq<char>)
    requires
        forall|k: int| 0 <= k < ls.len() ==> !(#[trigger] ls[k]).contains('\n'),
    ensures
        line_offset(with_newlines(ls) + rest, ls.len() as int) == with_newlines(ls).len(),
    decreases ls.len(),
{
    if ls.len() > 0 {
        let head = ls.drop_last();
        let last = ls.last();
        let more = last.push('\n') + rest;
        assert forall|k: int| 0 <= k < head.len() implies !(#[trigger] head[k]).contains('\n') by {
            assert(head[k] == ls[k]);
        }
        offsets_count_lines(head, more);
        let s = with_newlines(ls) + rest;
        assert(s =~= with_newlines(head) + more);
        let at = with_newlines(head).len() as int;
        lemma_char_from(s, '\n', at);
        let e = char_from(s, '\n', at);
        assert(s[at + last.len()] == '\n');
        if e < at + last.len() {
            assert(s[e] == last[e - at]);
            assert(last.contains(last[e - at]));
            assert(ls[ls.len() - 1] == last);
        }
        assert(e == at + last.len());
    }
}

/// Each part is found in the parts joined.
pub proof fn parts_are_found(parts: Seq<Seq<char>>, sep: Seq<char>, i: int)
    requires
        0 <= i < parts.len(),
    ensures
        has_text(join(parts, sep), parts[i]),
    decreases parts.len(),
{
    let p = parts[i];
    if parts.len() == 1 {
        found_in_either(p, p, p);
    } else {
        let front = parts.drop_last();
        let a = join(front, sep);
        if i < parts.len() - 1 {
            parts_are_found(front, sep, i);
            assert(front[i] == p);
        }
        found_in_either(a, sep, p);
        found_in_either(a + sep, parts.last(), p);
    }
}

/// White space around a text does not matter to its trimmed form.
pub proof fn trimming_twice_is_trimming(s: Seq<char>)
    ensures
        trim(trim(s)) == trim(s),
{
    trimming_takes_only_outer_space(s);
    trimmed_text_stays(trim(s));
}

/// A text is found between two others.
pub proof fn found_between(a: Seq<char>, p: Seq<char>, b: Seq<char>)
    ensures
        has_text(a + p + b, p),
        has_text(a + p, p),
        has_text(p + b, p),
{
    found_in_either(a, p, p);
    found_in_either(a + p, b, p);
    found_in_either(p, b, p);
}

} // verus!
