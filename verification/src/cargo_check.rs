//! Reading the output of compilers.
use vstd::prelude::*;

use crate::number;
use crate::number::{dec_text, padded_dec_text, parse_usize};
use crate::text;
use crate::text::{
    char_at_or_after, contains_text, find_from, from_chars, has_prefix, has_suffix, rfind,
    same_text, split_lines, to_chars, trimmed, without_prefix, without_prefixes,
};

verus! {

/// The most places that are taken from an output.
pub const MAX_LOCATIONS: usize = 3;

/// How many lines are shown before and behind a place.
pub const SOURCE_RADIUS: usize = 5;

/// Whether a text looks like the path of a source file.
pub open spec fn looks_like_path(s: Seq<char>) -> bool {
    text::has_text(s, "."@) && !text::starts_with(s, "//"@) && !text::has_text(s, " "@)
}

/// A place of a path and a number, each with white space around it.
pub open spec fn place(path: Seq<char>, line: Seq<char>) -> Option<(Seq<char>, usize)> {
    match number::number(text::trim(line)) {
        Err(_) => None,
        Ok(n) => if looks_like_path(text::trim(path)) {
            Some((text::trim(path), n))
        } else {
            None
        },
    }
}

/// The place in `FILE:LINE`: what stands before the first colon, and the number
/// behind that.
pub open spec fn colon_place(s: Seq<char>) -> Option<(Seq<char>, usize)> {
    let a = text::char_from(s, ':', 0);
    if a >= s.len() {
        None
    } else {
        place(s.subrange(0, a), s.subrange(a + 1, text::char_from(s, ':', a + 1)))
    }
}

/// The place in `FILE(LINE,COLUMN):`, as `tsc` writes it.
pub open spec fn bracket_place(s: Seq<char>) -> Option<(Seq<char>, usize)> {
    let a = text::char_from(s, '(', 0);
    let b = text::char_from(s, ',', a + 1);
    let c = text::char_from(s, ')', a + 1);
    if a < s.len() && b < c && c + 1 < s.len() && s[c + 1] == ':' {
        place(s.subrange(0, a), s.subrange(a + 1, b))
    } else {
        None
    }
}

/// The place in `File "FILE", line LINE`, as python writes it.
pub open spec fn traceback_place(s: Seq<char>) -> Option<(Seq<char>, usize)> {
    match text::strip_prefix(s, "File \""@) {
        None => None,
        Some(rest) => {
            let a = text::char_from(rest, '"', 0);
            if a >= rest.len() {
                None
            } else {
                match text::strip_prefix(rest.subrange(a + 1, rest.len() as int), ", line "@) {
                    None => None,
                    Some(tail) => place(
                        rest.subrange(0, a),
                        tail.subrange(0, text::char_from(tail, ',', 0)),
                    ),
                }
            }
        },
    }
}

/// The place in `(FILE, line LINE)`, as python writes it behind a message.
pub open spec fn message_place(s: Seq<char>) -> Option<(Seq<char>, usize)> {
    let k = text::text_from(s, ", line "@, 0);
    if k > s.len() {
        None
    } else {
        let a = text::last_text(s.take(k), "("@, k);
        if a < 0 {
            None
        } else {
            place(
                s.subrange(a + 1, k),
                s.subrange(k + ", line "@.len(), text::char_from(s, ')', k + ", line "@.len())),
            )
        }
    }
}

/// Whether a line speaks of an error.
pub open spec fn tells_error(line: Seq<char>) -> bool {
    text::has_text(line, "error"@) || text::has_text(line, "Error"@)
}

/// Whether a line speaks of a warning.
pub open spec fn tells_warning(line: Seq<char>) -> bool {
    text::starts_with(text::trim(line), "warning"@) || text::has_text(line, ": warning"@)
}

/// What stands in a line behind an arrow and behind the name of `go vet`.
pub open spec fn bare_line(line: Seq<char>) -> Seq<char> {
    let s = text::strip_all(text::trim(line), "--> "@);
    match text::strip_prefix(s, "vet: "@) {
        Some(rest) => rest,
        None => s,
    }
}

/// The place in a line of `go vet`, which does not speak of errors: a place in a Go
/// file.
pub open spec fn vet_place(line: Seq<char>) -> Option<(Seq<char>, usize)> {
    match colon_place(bare_line(line)) {
        None => None,
        Some(p) => if text::ends_with(p.0, ".go"@) && !tells_warning(line) {
            Some(p)
        } else {
            None
        },
    }
}

/// The place of an error that a line names. `under_error` is set where the last
/// heading above it is that of an error; a line that begins with an arrow belongs to
/// it.
pub open spec fn location_of(line: Seq<char>, under_error: bool) -> Option<(Seq<char>, usize)> {
    let t = text::trim(line);
    if text::starts_with(t, "File \""@) {
        traceback_place(t)
    } else if tells_error(line) {
        match colon_place(bare_line(line)) {
            Some(p) => Some(p),
            None => match bracket_place(bare_line(line)) {
                Some(p) => Some(p),
                None => message_place(t),
            },
        }
    } else if under_error && text::starts_with(t, "--> "@) {
        colon_place(bare_line(line))
    } else {
        vet_place(line)
    }
}

/// Whether the last heading before the line with index `i` is that of an error.
pub open spec fn under_error(ls: Seq<Seq<char>>, i: int) -> bool
    decreases i,
{
    if i <= 0 {
        false
    } else if text::starts_with(ls[i - 1], "error"@) {
        true
    } else if text::starts_with(ls[i - 1], "warning"@) {
        false
    } else {
        under_error(ls, i - 1)
    }
}

/// The places that the first `n` lines name, each once, and no more than
/// [`MAX_LOCATIONS`].
pub open spec fn locations(ls: Seq<Seq<char>>, n: int) -> Seq<(Seq<char>, usize)>
    decreases n,
{
    if n <= 0 {
        Seq::empty()
    } else {
        let before = locations(ls, n - 1);
        match location_of(ls[n - 1], under_error(ls, n - 1)) {
            None => before,
            Some(place) => if before.len() >= MAX_LOCATIONS || before.contains(place) {
                before
            } else {
                before.push(place)
            },
        }
    }
}

/// Places by their views.
pub open spec fn places_view(v: Seq<(String, usize)>) -> Seq<(Seq<char>, usize)> {
    Seq::new(v.len(), |i: int| (v[i].0@, v[i].1))
}

fn make_place(path: &str, line: &str) -> (r: Option<(String, usize)>)
    ensures
        match r {
            None => place(path@, line@) is None,
            Some(p) => place(path@, line@) == Some((p.0@, p.1)),
        },
{
    match parse_usize(&trimmed(line)) {
        Err(_) => None,
        Ok(n) => {
            let p = trimmed(path);
            if contains_text(&p, ".") && !has_prefix(&p, "//") && !contains_text(&p, " ") {
                Some((p, n))
            } else {
                None
            }
        },
    }
}

fn read_colon_place(s: &str) -> (r: Option<(String, usize)>)
    ensures
        match r {
            None => colon_place(s@) is None,
            Some(p) => colon_place(s@) == Some((p.0@, p.1)),
        },
{
    let v = to_chars(s);
    let a = char_at_or_after(&v, ':', 0);
    if a >= v.len() {
        return None;
    }
    let b = char_at_or_after(&v, ':', a + 1);
    make_place(&from_chars(&v, 0, a), &from_chars(&v, a + 1, b))
}

fn read_bracket_place(s: &str) -> (r: Option<(String, usize)>)
    ensures
        match r {
            None => bracket_place(s@) is None,
            Some(p) => bracket_place(s@) == Some((p.0@, p.1)),
        },
{
    let v = to_chars(s);
    let a = char_at_or_after(&v, '(', 0);
    if a >= v.len() {
        return None;
    }
    let b = char_at_or_after(&v, ',', a + 1);
    let c = char_at_or_after(&v, ')', a + 1);
    if b < c && c < v.len() && c + 1 < v.len() && v[c + 1] == ':' {
        return make_place(&from_chars(&v, 0, a), &from_chars(&v, a + 1, b));
    }
    None
}

fn read_traceback_place(s: &str) -> (r: Option<(String, usize)>)
    ensures
        match r {
            None => traceback_place(s@) is None,
            Some(p) => traceback_place(s@) == Some((p.0@, p.1)),
        },
{
    match without_prefix(s, "File \"") {
        None => None,
        Some(rest) => {
            let v = to_chars(&rest);
            let a = char_at_or_after(&v, '"', 0);
            if a >= v.len() {
                return None;
            }
            match without_prefix(&from_chars(&v, a + 1, v.len()), ", line ") {
                None => None,
                Some(tail) => {
                    let w = to_chars(&tail);
                    let e = char_at_or_after(&w, ',', 0);
                    make_place(&from_chars(&v, 0, a), &from_chars(&w, 0, e))
                },
            }
        },
    }
}

fn read_message_place(s: &str) -> (r: Option<(String, usize)>)
    ensures
        match r {
            None => message_place(s@) is None,
            Some(p) => message_place(s@) == Some((p.0@, p.1)),
        },
{
    let v = to_chars(s);
    let mark = to_chars(", line ");
    match find_from(&v, &mark, 0) {
        None => None,
        Some(k) => {
            let total: usize = v.len();
            proof {
                assert(k + mark@.len() <= total);
            }
            let head = to_chars(&from_chars(&v, 0, k));
            proof {
                assert(head@ =~= v@.take(k as int));
                reveal_strlit("(");
            }
            match rfind(&head, &to_chars("(")) {
                None => None,
                Some(a) => {
                    proof {
                        lemma_last_text(head@, "("@, head@.len() as int);
                    }
                    let from: usize = k + mark.len();
                    let to = char_at_or_after(&v, ')', from);
                    make_place(&from_chars(&v, a + 1, k), &from_chars(&v, from, to))
                },
            }
        },
    }
}

proof fn lemma_last_text(s: Seq<char>, p: Seq<char>, j: int)
    ensures
        text::last_text(s, p, j) >= 0 ==> text::occurs_at(s, p, text::last_text(s, p, j)),
    decreases j + 1,
{
    if j >= 0 && !text::occurs_at(s, p, j) {
        lemma_last_text(s, p, j - 1);
    }
}

fn speaks_of_error(line: &str) -> (r: bool)
    ensures
        r == tells_error(line@),
{
    contains_text(line, "error") || contains_text(line, "Error")
}

fn strip_line(line: &str) -> (r: String)
    ensures
        r@ == bare_line(line@),
{
    let s = without_prefixes(&trimmed(line), "--> ");
    match without_prefix(&s, "vet: ") {
        Some(rest) => rest,
        None => s,
    }
}

fn read_vet_place(line: &str) -> (r: Option<(String, usize)>)
    ensures
        match r {
            None => vet_place(line@) is None,
            Some(p) => vet_place(line@) == Some((p.0@, p.1)),
        },
{
    match read_colon_place(&strip_line(line)) {
        None => None,
        Some(p) => {
            if has_suffix(&p.0, ".go") && !has_prefix(&trimmed(line), "warning") && !contains_text(
                line,
                ": warning",
            ) {
                Some(p)
            } else {
                None
            }
        },
    }
}

fn read_location(line: &str, under: bool) -> (r: Option<(String, usize)>)
    ensures
        match r {
            None => location_of(line@, under) is None,
            Some(p) => location_of(line@, under) == Some((p.0@, p.1)),
        },
{
    let t = trimmed(line);
    if has_prefix(&t, "File \"") {
        return read_traceback_place(&t);
    }
    if speaks_of_error(line) {
        let bare = strip_line(line);
        return match read_colon_place(&bare) {
            Some(p) => Some(p),
            None => match read_bracket_place(&bare) {
                Some(p) => Some(p),
                None => read_message_place(&t),
            },
        };
    }
    if under && has_prefix(&t, "--> ") {
        return read_colon_place(&strip_line(line));
    }
    read_vet_place(line)
}

fn holds_place(places: &Vec<(String, usize)>, place: &(String, usize)) -> (r: bool)
    ensures
        r == places_view(places@).contains((place.0@, place.1)),
{
    let ghost pv = places_view(places@);
    let mut i: usize = 0;
    while i < places.len()
        invariant
            i <= places@.len() == pv.len(),
            pv == places_view(places@),
            forall|k: int| 0 <= k < i ==> #[trigger] pv[k] != (place.0@, place.1),
        decreases places.len() - i,
    {
        if places[i].1 == place.1 && same_text(&places[i].0, &place.0) {
            proof {
                assert(pv[i as int] == (place.0@, place.1));
            }
            return true;
        }
        i += 1;
    }
    false
}

/// The first places of errors, as file and line, that the output of cargo, tsc,
/// `go vet` or python names.
pub fn extract_error_locations(stderr: &str) -> (r: Vec<(String, usize)>)
    ensures
        places_view(r@) == locations(text::lines(stderr@), text::lines(stderr@).len() as int),
{
    let lines = split_lines(stderr);
    let ghost lv = lines.deep_view();
    let mut out: Vec<(String, usize)> = Vec::new();
    let mut under: bool = false;
    let mut i: usize = 0;
    proof {
        assert(lines@.len() == lv.len());
        assert(places_view(out@) =~= locations(lv, 0));
    }
    while i < lines.len()
        invariant
            i <= lines@.len() == lv.len(),
            lv == lines.deep_view(),
            places_view(out@) == locations(lv, i as int),
            under == under_error(lv, i as int),
        decreases lines.len() - i,
    {
        proof {
            assert(lv[i as int] == lines@[i as int]@);
            assert(out@.len() == places_view(out@).len());
        }
        match read_location(&lines[i], under) {
            None => {},
            Some(place) => {
                if out.len() < MAX_LOCATIONS && !holds_place(&out, &place) {
                    let ghost o = places_view(out@);
                    let ghost p = (place.0@, place.1);
                    out.push(place);
                    proof {
                        assert(places_view(out@) =~= o.push(p));
                    }
                }
            },
        }
        if has_prefix(&lines[i], "error") {
            under = true;
        } else if has_prefix(&lines[i], "warning") {
            under = false;
        }
        i += 1;
    }
    out
}

/// Whether a line is one that tells of an error.
pub open spec fn counts_error(line: Seq<char>) -> bool {
    !tells_warning(line) && (tells_error(line) || text::has_text(line, "ERROR"@) || vet_place(
        line,
    ) is Some)
}

/// How many of the first `n` lines tell of errors.
pub open spec fn error_lines(ls: Seq<Seq<char>>, n: int) -> nat
    decreases n,
{
    if n <= 0 {
        0
    } else if counts_error(ls[n - 1]) {
        error_lines(ls, n - 1) + 1
    } else {
        error_lines(ls, n - 1)
    }
}

/// The errors that a check found: none where it passed, and at least one where it did
/// not.
pub open spec fn error_count(success: bool, stderr: Seq<char>) -> nat {
    let n = error_lines(text::lines(stderr), text::lines(stderr).len() as int);
    if success {
        0
    } else if n == 0 {
        1
    } else {
        n
    }
}

/// Counts the errors that a check found.
pub fn count_errors(success: bool, stderr: &str) -> (r: usize)
    ensures
        r == error_count(success, stderr@),
{
    let lines = split_lines(stderr);
    let ghost lv = lines.deep_view();
    let mut n: usize = 0;
    let mut i: usize = 0;
    proof {
        assert(lines@.len() == lv.len());
    }
    while i < lines.len()
        invariant
            i <= lines@.len() == lv.len(),
            lv == lines.deep_view(),
            n == error_lines(lv, i as int),
            n <= i,
        decreases lines.len() - i,
    {
        let line = &lines[i];
        proof {
            assert(lv[i as int] == line@);
        }
        let warns = has_prefix(&trimmed(line), "warning") || contains_text(line, ": warning");
        if !warns && (speaks_of_error(line) || contains_text(line, "ERROR") || read_vet_place(
            line,
        ).is_some()) {
            n += 1;
        }
        i += 1;
    }
    if success {
        0
    } else if n == 0 {
        1
    } else {
        n
    }
}

/// A line of source with its number, marked where it is line `at`.
pub open spec fn source_line(n: nat, line: Seq<char>, at: nat) -> Seq<char> {
    "  "@ + (if n == at {
        ">"@
    } else {
        " "@
    }) + number::padded_dec(n, 4) + "│"@ + line + "\n"@
}

/// The lines with indices `start..end` as source around line `at`.
pub open spec fn source_lines(ls: Seq<Seq<char>>, at: nat, start: int, end: int) -> Seq<char>
    decreases end - start,
{
    if end <= start {
        Seq::empty()
    } else {
        source_lines(ls, at, start, end - 1) + source_line(end as nat, ls[end - 1], at)
    }
}

/// The lines around a place, if it is a line of the file.
pub open spec fn source_context(path: Seq<char>, line: usize, content: Seq<char>) -> Option<Seq<char>> {
    let ls = text::lines(content);
    if line == 0 || line > ls.len() {
        None
    } else {
        let start = if line > SOURCE_RADIUS + 1 {
            line - SOURCE_RADIUS - 1
        } else {
            0
        };
        let end = if line + SOURCE_RADIUS < ls.len() {
            line + SOURCE_RADIUS
        } else {
            ls.len() as int
        };
        Some(
            "  "@ + path + ":"@ + number::dec(line as nat) + ":\n"@ + source_lines(
                ls,
                line as nat,
                start,
                end,
            ),
        )
    }
}

/// Shows the lines around a place of a file.
pub fn render_source_context(file_path: &str, line_num: usize, content: &str) -> (r: Option<String>)
    ensures
        r.deep_view() == source_context(file_path@, line_num, content@),
{
    let lines = split_lines(content);
    let ghost lv = lines.deep_view();
    let total: usize = lines.len();
    proof {
        assert(total == lv.len());
    }
    if line_num == 0 || line_num > total {
        return None;
    }
    let start: usize = if line_num > SOURCE_RADIUS + 1 {
        line_num - SOURCE_RADIUS - 1
    } else {
        0
    };
    let end: usize = if total - line_num > SOURCE_RADIUS {
        line_num + SOURCE_RADIUS
    } else {
        total
    };
    let mut out = "  ".to_owned().concat(file_path).concat(":").concat(
        &dec_text(line_num),
    ).concat(":\n");
    let ghost head = out@;
    let mut i: usize = start;
    proof {
        assert(out@ =~= head + source_lines(lv, line_num as nat, start as int, start as int));
    }
    while i < end
        invariant
            start <= i <= end <= total == lines@.len() == lv.len(),
            lv == lines.deep_view(),
            out@ == head + source_lines(lv, line_num as nat, start as int, i as int),
        decreases end - i,
    {
        let marker = if i + 1 == line_num {
            ">"
        } else {
            " "
        };
        out.append(
            &"  ".to_owned().concat(marker).concat(&padded_dec_text(i + 1, 4)).concat("│").concat(
                &lines[i],
            ).concat("\n"),
        );
        i += 1;
        proof {
            assert(out@ =~= head + source_lines(lv, line_num as nat, start as int, i as int));
        }
    }
    Some(out)
}

/// However long an output is, no more places are taken from it than the limit, and
/// none twice.
pub proof fn locations_are_few_and_distinct(ls: Seq<Seq<char>>, n: int)
    ensures
        locations(ls, n).len() <= MAX_LOCATIONS,
        forall|i: int, j: int|
            0 <= i < j < locations(ls, n).len() ==> #[trigger] locations(ls, n)[i]
                != #[trigger] locations(ls, n)[j],
    decreases n,
{
    if n > 0 {
        locations_are_few_and_distinct(ls, n - 1);
        let before = locations(ls, n - 1);
        let now = locations(ls, n);
        assert forall|i: int, j: int| 0 <= i < j < now.len() implies #[trigger] now[i]
            != #[trigger] now[j] by {
            if j == before.len() {
                assert(before.contains(now[i])) by {
                    assert(before[i] == now[i]);
                }
            } else {
                assert(now[i] == before[i] && now[j] == before[j]);
            }
        }
    }
}

/// Whether a text can be read as a path in the output of a compiler: it holds a dot, but
/// no white space and no colon, and does not begin with a comment.
pub open spec fn is_plain_path(p: Seq<char>) -> bool {
    &&& p.contains('.')
    &&& !p.contains(':')
    &&& forall|k: int| 0 <= k < p.len() ==> !text::is_space(#[trigger] p[k])
    &&& !(p.len() >= 2 && p[0] == '/' && p[1] == '/')
}

proof fn lemma_plain_path(p: Seq<char>)
    requires
        is_plain_path(p),
    ensures
        looks_like_path(p),
        text::trim(p) == p,
{
    reveal_strlit(".");
    reveal_strlit("//");
    reveal_strlit(" ");
    let k = p.index_of('.');
    assert(p.subrange(k, k + 1) =~= "."@);
    assert(text::occurs_at(p, "."@, k));
    if text::starts_with(p, "//"@) {
        assert(p.subrange(0, 2)[0] == p[0] && p.subrange(0, 2)[1] == p[1]);
    }
    if text::has_text(p, " "@) {
        let j = choose|j: int| text::occurs_at(p, " "@, j);
        assert(p.subrange(j, j + 1)[0] == p[j]);
        assert(text::is_space(' '));
    }
    text::trimmed_text_stays(p);
}

proof fn lemma_place(p: Seq<char>, n: usize)
    requires
        is_plain_path(p),
    ensures
        place(p, number::dec(n as nat)) == Some((p, n)),
{
    let d = number::dec(n as nat);
    lemma_plain_path(p);
    number::number_reads_back(n);
    number::lemma_dec(n as nat);
    assert(number::is_digit(d[0]) && number::is_digit(d[d.len() - 1]));
    text::trimmed_text_stays(d);
}

proof fn lemma_first_char(a: Seq<char>, b: Seq<char>, c: char, at: int)
    requires
        0 <= at <= a.len(),
        forall|k: int| at <= k < a.len() ==> #[trigger] a[k] != c,
        b.len() > 0 ==> b[0] == c,
    ensures
        text::char_from(a + b, c, at) == a.len(),
{
    let s = a + b;
    text::lemma_char_from(s, c, at);
    let e = text::char_from(s, c, at);
    if e < a.len() {
        assert(s[e] == a[e]);
    }
    if b.len() > 0 {
        assert(s[a.len() as int] == c);
    }
}

proof fn lemma_colon_place(p: Seq<char>, n: usize, rest: Seq<char>)
    requires
        is_plain_path(p),
        rest.len() > 0 ==> rest[0] == ':',
    ensures
        colon_place(p + ":"@ + number::dec(n as nat) + rest) == Some((p, n)),
{
    reveal_strlit(":");
    let d = number::dec(n as nat);
    let s = p + ":"@ + d + rest;
    number::lemma_dec(n as nat);
    assert forall|k: int| 0 <= k < p.len() implies #[trigger] p[k] != ':' by {
        assert(p.contains(p[k]));
    }
    assert(s =~= p + (":"@ + d + rest));
    lemma_first_char(p, ":"@ + d + rest, ':', 0);
    let front = p + ":"@ + d;
    assert forall|k: int| p.len() + 1 <= k < front.len() implies #[trigger] front[k] != ':' by {
        assert(front[k] == d[k - p.len() - 1]);
        assert(number::is_digit(d[k - p.len() - 1]));
    }
    lemma_first_char(front, rest, ':', p.len() as int + 1);
    assert(s.subrange(0, p.len() as int) =~= p);
    assert(s.subrange(p.len() as int + 1, front.len() as int) =~= d);
    lemma_place(p, n);
}

proof fn lemma_no_such_start(p: Seq<char>, rest: Seq<char>, q: Seq<char>, gap: int)
    requires
        is_plain_path(p),
        0 <= gap < q.len(),
        text::is_space(q[gap]),
        forall|k: int| 0 <= k < gap ==> #[trigger] q[k] != ':',
        rest.len() > 0,
        rest[0] == ':',
    ensures
        !text::starts_with(p + rest, q),
{
    let s = p + rest;
    if text::starts_with(s, q) {
        assert forall|k: int| 0 <= k < q.len() implies #[trigger] s[k] == q[k] by {
            assert(s.subrange(0, q.len() as int)[k] == s[k]);
        }
        if gap < p.len() {
            assert(s[gap] == p[gap]);
            assert(s[gap] == q[gap]);
        } else {
            assert(s[p.len() as int] == ':');
            assert(text::is_space(q[gap]));
            assert(s[p.len() as int] == q[p.len() as int]);
            assert(!text::is_space(':'));
        }
    }
}

proof fn lemma_no_vet(p: Seq<char>, d: Seq<char>, rest: Seq<char>)
    requires
        is_plain_path(p),
        d.len() > 0,
        !text::is_space(d[0]),
    ensures
        !text::starts_with(p + ":"@ + d + rest, "vet: "@),
{
    reveal_strlit(":");
    reveal_strlit("vet: ");
    let q = "vet: "@;
    let s = p + ":"@ + d + rest;
    if text::starts_with(s, q) {
        assert(s.subrange(0, 5) == q);
        assert(s[0] == q[0] && s[1] == q[1] && s[2] == q[2] && s[3] == q[3] && s[4] == q[4]) by {
            let t = s.subrange(0, 5);
            assert(t[0] == s[0] && t[1] == s[1] && t[2] == s[2] && t[3] == s[3] && t[4] == s[4]);
        }
        assert(s[p.len() as int] == ':');
        if p.len() > 3 {
            assert(p.contains(p[3]));
            assert(s[3] == p[3]);
        } else if p.len() == 3 {
            assert(s[4] == d[0]);
        }
    }
}

proof fn lemma_trimmed_place(head: Seq<char>, n: usize, rest: Seq<char>)
    requires
        head.len() > 0,
        !text::is_space(head[0]),
        rest.len() > 0 ==> !text::is_space(rest.last()),
    ensures
        text::trim(head + number::dec(n as nat) + rest) == head + number::dec(n as nat) + rest,
{
    let d = number::dec(n as nat);
    let line = head + d + rest;
    number::lemma_dec(n as nat);
    assert(line[0] == head[0]);
    if rest.len() > 0 {
        assert(line.last() == rest.last());
    } else {
        assert(line.last() == d.last());
        assert(number::is_digit(d[d.len() - 1]));
    }
    text::trimmed_text_stays(line);
}

proof fn lemma_bare_start(p: Seq<char>, n: usize, rest: Seq<char>)
    requires
        is_plain_path(p),
    ensures
        !text::starts_with(p + ":"@ + number::dec(n as nat) + rest, "File \""@),
        !text::starts_with(p + ":"@ + number::dec(n as nat) + rest, "--> "@),
        !text::starts_with(p + ":"@ + number::dec(n as nat) + rest, "vet: "@),
{
    let d = number::dec(n as nat);
    let tail = ":"@ + d + rest;
    assert(p + ":"@ + d + rest =~= p + tail);
    assert(tail[0] == ':') by {
        reveal_strlit(":");
    }
    assert(tail.len() > 0) by {
        reveal_strlit(":");
    }
    assert(!text::starts_with(p + tail, "File \""@)) by {
        reveal_strlit("File \"");
        lemma_no_such_start(p, tail, "File \""@, 4);
    }
    assert(!text::starts_with(p + tail, "--> "@)) by {
        reveal_strlit("--> ");
        lemma_no_such_start(p, tail, "--> "@, 3);
    }
    number::lemma_dec(n as nat);
    assert(number::is_digit(d[0]));
    lemma_no_vet(p, d, rest);
}

/// A line that speaks of an error and begins with `PATH:LINE`, at its end or before
/// another colon, names that line of that file.
pub proof fn error_places_are_read(p: Seq<char>, n: usize, rest: Seq<char>, under: bool)
    requires
        is_plain_path(p),
        rest.len() > 0 ==> rest[0] == ':' && !text::is_space(rest.last()),
        tells_error(p + ":"@ + number::dec(n as nat) + rest),
    ensures
        location_of(p + ":"@ + number::dec(n as nat) + rest, under) == Some((p, n)),
{
    let line = p + ":"@ + number::dec(n as nat) + rest;
    let k = p.index_of('.');
    assert((p + ":"@)[0] == p[0]);
    lemma_trimmed_place(p + ":"@, n, rest);
    lemma_bare_start(p, n, rest);
    assert(text::strip_all(line, "--> "@) == line);
    assert(bare_line(line) == line);
    lemma_colon_place(p, n, rest);
}

/// Under the heading of an error, a line that begins with an arrow and goes on with
/// `PATH:LINE` names that line of that file.
pub proof fn arrow_places_are_read(p: Seq<char>, n: usize, rest: Seq<char>)
    requires
        is_plain_path(p),
        rest.len() > 0 ==> rest[0] == ':' && !text::is_space(rest.last()),
        !tells_error("--> "@ + p + ":"@ + number::dec(n as nat) + rest),
    ensures
        location_of("--> "@ + p + ":"@ + number::dec(n as nat) + rest, true) == Some((p, n)),
{
    let body = p + ":"@ + number::dec(n as nat) + rest;
    let line = "--> "@ + p + ":"@ + number::dec(n as nat) + rest;
    let arrow = "--> "@;
    reveal_strlit("--> ");
    assert((arrow + p + ":"@)[0] == '-');
    lemma_trimmed_place(arrow + p + ":"@, n, rest);
    assert(line =~= arrow + body);
    assert(!text::starts_with(line, "File \""@)) by {
        reveal_strlit("File \"");
        if text::starts_with(line, "File \""@) {
            assert(line.subrange(0, 6)[0] == line[0]);
        }
    }
    assert(text::starts_with(line, arrow)) by {
        assert(line.subrange(0, 4) =~= arrow);
    }
    lemma_bare_start(p, n, rest);
    text::prefixes_are_taken_off(body, arrow);
    assert(bare_line(line) == body);
    lemma_colon_place(p, n, rest);
}

proof fn lemma_traceback(p: Seq<char>, n: usize, rest: Seq<char>)
    requires
        is_plain_path(p),
        !p.contains('"'),
        rest.len() > 0 ==> rest[0] == ',',
    ensures
        traceback_place("File \""@ + p + "\", line "@ + number::dec(n as nat) + rest) == Some(
            (p, n),
        ),
{
    reveal_strlit("File \"");
    reveal_strlit("\", line ");
    reveal_strlit(", line ");
    let d = number::dec(n as nat);
    let line = "File \""@ + p + "\", line "@ + d + rest;
    let end = "\", line "@ + d + rest;
    let mark = ", line "@;
    let inner = line.subrange(6, line.len() as int);
    assert(line.subrange(0, 6) =~= "File \""@);
    assert(inner =~= p + end);
    assert(text::char_from(inner, '"', 0) == p.len()) by {
        assert forall|k: int| 0 <= k < p.len() implies #[trigger] p[k] != '"' by {
            assert(p.contains(p[k]));
        }
        lemma_first_char(p, end, '"', 0);
    }
    let after = inner.subrange(p.len() as int + 1, inner.len() as int);
    assert(after =~= mark + (d + rest));
    assert(after.subrange(0, 7) =~= mark);
    let tail = after.subrange(7, after.len() as int);
    assert(tail =~= d + rest);
    assert(text::char_from(tail, ',', 0) == d.len()) by {
        number::lemma_dec(n as nat);
        assert forall|k: int| 0 <= k < d.len() implies #[trigger] d[k] != ',' by {
            assert(number::is_digit(d[k]));
        }
        lemma_first_char(d, rest, ',', 0);
    }
    assert(inner.subrange(0, p.len() as int) =~= p);
    assert(tail.subrange(0, d.len() as int) =~= d);
    lemma_place(p, n);
}

/// A line of a traceback, `File "PATH", line LINE`, names that line of that file, whether
/// more follows behind a comma or not.
pub proof fn traceback_places_are_read(p: Seq<char>, n: usize, rest: Seq<char>, under: bool)
    requires
        is_plain_path(p),
        !p.contains('"'),
        rest.len() > 0 ==> rest[0] == ',' && !text::is_space(rest.last()),
    ensures
        location_of(
            "File \""@ + p + "\", line "@ + number::dec(n as nat) + rest,
            under,
        ) == Some((p, n)),
{
    let d = number::dec(n as nat);
    let line = "File \""@ + p + "\", line "@ + d + rest;
    lemma_traceback(p, n, rest);
    assert(text::trim(line) == line) by {
        reveal_strlit("File \"");
        number::lemma_dec(n as nat);
        assert(line[0] == 'F');
        if rest.len() > 0 {
            assert(line.last() == rest.last());
        } else {
            assert(line.last() == d.last());
            assert(number::is_digit(d[d.len() - 1]));
        }
        text::trimmed_text_stays(line);
    }
    assert(text::starts_with(line, "File \""@)) by {
        assert(line.subrange(0, "File \""@.len() as int) =~= "File \""@);
    }
}

/// Whether one of the first `n` lines names a place.
pub open spec fn is_named(ls: Seq<Seq<char>>, n: int, p: (Seq<char>, usize)) -> bool {
    exists|k: int|
        0 <= k < n && #[trigger] location_of(ls[k], under_error(ls, k)) == Some(p)
}

/// Every place that is taken from an output is named by one of its lines.
pub proof fn locations_are_named(ls: Seq<Seq<char>>, n: int, i: int)
    requires
        0 <= n <= ls.len(),
        0 <= i < locations(ls, n).len(),
    ensures
        is_named(ls, n, locations(ls, n)[i]),
    decreases n,
{
    let before = locations(ls, n - 1);
    if i < before.len() {
        locations_are_named(ls, n - 1, i);
        let p = before[i];
        let k = choose|k: int|
            0 <= k < n - 1 && #[trigger] location_of(ls[k], under_error(ls, k)) == Some(p);
        assert(location_of(ls[k], under_error(ls, k)) == Some(p));
    } else {
        assert(location_of(ls[n - 1], under_error(ls, n - 1)) == Some(locations(ls, n)[i]));
    }
}

/// As long as fewer than three places are taken from an output, none that a line names is
/// passed over.
pub proof fn named_locations_are_taken(ls: Seq<Seq<char>>, n: int, p: (Seq<char>, usize))
    requires
        0 <= n <= ls.len(),
        locations(ls, n).len() < 3,
        is_named(ls, n, p),
    ensures
        locations(ls, n).contains(p),
    decreases n,
{
    if n > 0 {
        let before = locations(ls, n - 1);
        let now = locations(ls, n);
        let k = choose|k: int|
            0 <= k < n && #[trigger] location_of(ls[k], under_error(ls, k)) == Some(p);
        if k < n - 1 {
            assert(is_named(ls, n - 1, p));
            named_locations_are_taken(ls, n - 1, p);
        }
        if before.contains(p) {
            let j = before.index_of(p);
            assert(now[j] == p);
        } else {
            assert(now == before.push(p));
            assert(now[before.len() as int] == p);
        }
    }
}

/// A check that passed found no error, and one that did not found at least one: as many
/// as its output has lines that tell of errors and do not warn.
pub proof fn errors_are_counted_by_line(
    success: bool,
    ls: Seq<Seq<char>>,
    line: Seq<char>,
    stderr: Seq<char>,
)
    ensures
        success ==> error_count(success, stderr) == 0,
        !success ==> error_count(success, stderr) >= 1,
        !success && error_lines(text::lines(stderr), text::lines(stderr).len() as int) > 0
            ==> error_count(success, stderr) == error_lines(
            text::lines(stderr),
            text::lines(stderr).len() as int,
        ),
        error_lines(Seq::empty(), 0) == 0,
        error_lines(ls.push(line), ls.len() as int + 1) == error_lines(ls, ls.len() as int) + (if (
        text::has_text(line, "error"@) || text::has_text(line, "Error"@) || text::has_text(
            line,
            "ERROR"@,
        ) || vet_place(line) is Some) && !text::starts_with(text::trim(line), "warning"@)
            && !text::has_text(line, ": warning"@) {
            1nat
        } else {
            0nat
        }),
{
    lemma_error_lines(ls, line, ls.len() as int);
}

proof fn lemma_error_lines(ls: Seq<Seq<char>>, line: Seq<char>, n: int)
    requires
        0 <= n <= ls.len(),
    ensures
        error_lines(ls.push(line), n) == error_lines(ls, n),
    decreases n,
{
    if n > 0 {
        lemma_error_lines(ls, line, n - 1);
        assert(ls.push(line)[n - 1] == ls[n - 1]);
    }
}

proof fn lemma_source_line(ls: Seq<Seq<char>>, at: nat, start: int, end: int, k: int)
    requires
        0 <= start <= k < end <= ls.len(),
    ensures
        text::has_text(source_lines(ls, at, start, end), source_line((k + 1) as nat, ls[k], at)),
    decreases end - start,
{
    let front = source_lines(ls, at, start, end - 1);
    let last = source_line(end as nat, ls[end - 1], at);
    let p = source_line((k + 1) as nat, ls[k], at);
    if k < end - 1 {
        lemma_source_line(ls, at, start, end - 1, k);
    }
    text::found_in_either(front, last, p);
}

/// The source around a place is shown exactly where the file has that line: each line
/// that is at most five lines away, with its number, and a mark before the line itself.
pub proof fn source_is_shown_around(path: Seq<char>, line: usize, content: Seq<char>, k: int)
    ensures
        source_context(path, line, content) is Some <==> 1 <= line <= text::lines(content).len(),
        source_context(path, line, content) matches Some(s) ==> (1 <= k <= text::lines(
            content,
        ).len() && line - 5 <= k <= line + 5 ==> text::has_text(
            s,
            "  "@ + (if k == line {
                ">"@
            } else {
                " "@
            }) + number::padded_dec(k as nat, 4) + "│"@ + text::lines(content)[k - 1] + "\n"@,
        )),
{
    let ls = text::lines(content);
    if 1 <= line <= ls.len() && 1 <= k <= ls.len() && line - 5 <= k <= line + 5 {
        let start = if line > SOURCE_RADIUS + 1 {
            line - SOURCE_RADIUS - 1
        } else {
            0
        };
        let end = if line + SOURCE_RADIUS < ls.len() {
            line + SOURCE_RADIUS
        } else {
            ls.len() as int
        };
        let p = source_line(k as nat, ls[k - 1], line as nat);
        lemma_source_line(ls, line as nat, start, end, k - 1);
        text::found_in_either(
            "  "@ + path + ":"@ + number::dec(line as nat) + ":\n"@,
            source_lines(ls, line as nat, start, end),
            p,
        );
    }
}

/// What begins with `PATH(LINE,COLUMN):` names that line of that file.
pub proof fn bracket_places_are_read(p: Seq<char>, n: usize, m: usize, rest: Seq<char>)
    requires
        is_plain_path(p),
        !p.contains('('),
    ensures
        bracket_place(
            p + "("@ + number::dec(n as nat) + ","@ + number::dec(m as nat) + "):"@ + rest,
        ) == Some((p, n)),
{
    reveal_strlit("(");
    reveal_strlit(",");
    reveal_strlit("):");
    let d = number::dec(n as nat);
    let e = number::dec(m as nat);
    let s = p + "("@ + d + ","@ + e + "):"@ + rest;
    number::lemma_dec(n as nat);
    number::lemma_dec(m as nat);
    assert forall|k: int| 0 <= k < p.len() implies #[trigger] p[k] != '(' by {
        assert(p.contains(p[k]));
    }
    let t1 = "("@ + d + ","@ + e + "):"@ + rest;
    assert(s =~= p + t1);
    lemma_first_char(p, t1, '(', 0);
    let a = p.len() as int;
    let h2 = p + "("@ + d;
    let t2 = ","@ + e + "):"@ + rest;
    assert(s =~= h2 + t2);
    assert forall|k: int| a + 1 <= k < h2.len() implies #[trigger] h2[k] != ',' by {
        assert(h2[k] == d[k - a - 1]);
        assert(number::is_digit(d[k - a - 1]));
    }
    lemma_first_char(h2, t2, ',', a + 1);
    let h3 = p + "("@ + d + ","@ + e;
    let t3 = "):"@ + rest;
    assert(s =~= h3 + t3);
    assert forall|k: int| a + 1 <= k < h3.len() implies #[trigger] h3[k] != ')' by {
        if k < h2.len() {
            assert(h3[k] == d[k - a - 1]);
            assert(number::is_digit(d[k - a - 1]));
        } else if k > h2.len() {
            assert(h3[k] == e[k - h2.len() - 1]);
            assert(number::is_digit(e[k - h2.len() - 1]));
        }
    }
    lemma_first_char(h3, t3, ')', a + 1);
    assert(s[h3.len() as int + 1] == t3[1]);
    assert(t3[1] == "):"@[1]);
    assert(s.subrange(0, a) =~= p);
    assert(s.subrange(a + 1, h2.len() as int) =~= d);
    lemma_place(p, n);
}

/// Whether a line stands under an error goes by the last line above it that begins with
/// `error` or `warning`.
pub proof fn last_heading_counts(ls: Seq<Seq<char>>, j: int, i: int)
    requires
        0 <= j < i <= ls.len(),
        forall|k: int|
            j < k < i ==> !text::starts_with(#[trigger] ls[k], "error"@) && !text::starts_with(
                ls[k],
                "warning"@,
            ),
    ensures
        text::starts_with(ls[j], "error"@) ==> under_error(ls, i),
        text::starts_with(ls[j], "warning"@) && !text::starts_with(ls[j], "error"@)
            ==> !under_error(ls, i),
        !under_error(ls, 0),
    decreases i,
{
    if j < i - 1 {
        last_heading_counts(ls, j, i - 1);
    }
}

/// What holds `(PATH, line LINE)` names that line of that file, where nothing before it reads
/// like it.
pub proof fn message_places_are_read(a: Seq<char>, p: Seq<char>, n: usize, b: Seq<char>)
    requires
        is_plain_path(p),
        !p.contains('('),
        b.len() > 0,
        b[0] == ')',
        forall|j: int|
            0 <= j < (a + "("@ + p).len() ==> !text::occurs_at(
                a + "("@ + p + ", line "@ + number::dec(n as nat) + b,
                ", line "@,
                j,
            ),
    ensures
        message_place(a + "("@ + p + ", line "@ + number::dec(n as nat) + b) == Some((p, n)),
{
    reveal_strlit("(");
    let mark = ", line "@;
    let d = number::dec(n as nat);
    let head = a + "("@ + p;
    let s = head + mark + d + b;
    let k = head.len() as int;
    number::lemma_dec(n as nat);
    assert(s.subrange(k, k + mark.len() as int) =~= mark);
    assert(text::occurs_at(s, mark, k));
    text::lemma_text_from(s, mark, 0);
    assert(text::text_from(s, mark, 0) == k);
    assert(s.take(k) =~= head);
    let at = a.len() as int;
    assert(head.subrange(at, at + 1) =~= "("@);
    assert(text::occurs_at(head, "("@, at));
    text::last_occurrence_is_last(head, "("@, k);
    assert forall|j: int| at < j < k implies !text::occurs_at(head, "("@, j) by {
        if text::occurs_at(head, "("@, j) {
            assert(head.subrange(j, j + 1)[0] == head[j]);
            assert(head[j] == p[j - at - 1]);
            assert(p.contains(p[j - at - 1]));
        }
    }
    assert(text::last_text(head, "("@, k) == at);
    let front = head + mark + d;
    let from = k + mark.len();
    assert forall|i: int| from <= i < front.len() implies #[trigger] front[i] != ')' by {
        assert(front[i] == d[i - from]);
        assert(number::is_digit(d[i - from]));
    }
    lemma_first_char(front, b, ')', from);
    assert(s.subrange(at + 1, k) =~= p);
    assert(s.subrange(from, front.len() as int) =~= d);
    lemma_place(p, n);
}

} // verus!
