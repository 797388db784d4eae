//! Files as lists of lines for edits by line number.
use vstd::prelude::*;

use crate::number;
use crate::number::dec_text;
use crate::text;
use crate::text::{char_at_or_after, from_chars, joined, to_chars};

verus! {

/// The pieces of `s` from position `i` on, cut at each newline.
pub open spec fn pieces_from(s: Seq<char>, i: int) -> Seq<Seq<char>>
    decreases s.len() - i,
    via pieces_from_decreases
{
    let e = text::char_from(s, '\n', i);
    if 0 <= i <= s.len() && e < s.len() {
        seq![s.subrange(i, e)] + pieces_from(s, e + 1)
    } else {
        seq![s.subrange(i, s.len() as int)]
    }
}

#[via_fn]
proof fn pieces_from_decreases(s: Seq<char>, i: int) {
    if 0 <= i <= s.len() {
        text::lemma_char_from(s, '\n', i);
    }
}

/// The pieces of `s`, cut at each newline. There is at least one.
pub open spec fn pieces(s: Seq<char>) -> Seq<Seq<char>> {
    pieces_from(s, 0)
}

/// `s` without a newline at its end.
pub open spec fn body(s: Seq<char>) -> Seq<char> {
    if s.len() > 0 && s.last() == '\n' {
        s.drop_last()
    } else {
        s
    }
}

/// Lines joined by newlines, with one more at the end where `trailing` is set.
pub open spec fn file_text(ls: Seq<Seq<char>>, trailing: bool) -> Seq<char> {
    if trailing {
        text::join(ls, "\n"@) + "\n"@
    } else {
        text::join(ls, "\n"@)
    }
}

fn split_pieces(v: &Vec<char>) -> (r: Vec<String>)
    ensures
        r.deep_view() == pieces(v@),
{
    let n: usize = v.len();
    let mut out: Vec<String> = Vec::new();
    let mut i: usize = 0;
    loop
        invariant_except_break
            i <= n == v@.len(),
            out.deep_view() + pieces_from(v@, i as int) == pieces(v@),
        ensures
            out.deep_view() == pieces(v@),
        decreases n - i,
    {
        let ghost before = out.deep_view();
        let e = char_at_or_after(v, '\n', i);
        out.push(from_chars(v, i, e));
        proof {
            assert(out.deep_view() =~= before.push(v@.subrange(i as int, e as int)));
        }
        if e == n {
            proof {
                assert(before + pieces_from(v@, i as int) =~= out.deep_view());
            }
            break;
        }
        proof {
            assert(before + pieces_from(v@, i as int) =~= out.deep_view() + pieces_from(
                v@,
                e + 1,
            ));
        }
        i = e + 1;
    }
    out
}

/// The lines of `content`, and whether it ends in a newline. An empty file has
/// one empty line.
pub fn split_preserving_trailing_nl(content: &str) -> (r: (Vec<String>, bool))
    ensures
        r.0.deep_view() == pieces(body(content@)),
        r.1 == (content@.len() > 0 && content@.last() == '\n'),
{
    let mut v = to_chars(content);
    let n: usize = v.len();
    let had_nl = n > 0 && v[n - 1] == '\n';
    if had_nl {
        v.pop();
        proof {
            assert(v@ =~= content@.drop_last());
        }
    }
    (split_pieces(&v), had_nl)
}

/// Lines joined by newlines, with one more at the end where the file had one.
pub fn join_with_trailing_nl(lines: &[String], had_trailing_nl: bool) -> (r: String)
    ensures
        r@ == file_text(lines.deep_view(), had_trailing_nl),
{
    let out = joined(lines, "\n");
    if had_trailing_nl {
        out.concat("\n")
    } else {
        out
    }
}

/// The lines of a replacement text. One newline at its end does not count, and
/// an empty text is one empty line.
pub fn split_replacement(content: &str) -> (r: Vec<String>)
    ensures
        r.deep_view() == pieces(body(content@)),
{
    let (lines, _had_nl) = split_preserving_trailing_nl(content);
    lines
}

/// Whether `start..=end` are lines of a file of `line_count` lines.
pub open spec fn range_verdict(start: usize, end: usize, line_count: usize) -> Result<
    (),
    Seq<char>,
> {
    let past = ") is past end of file ("@ + number::dec(line_count as nat) + " line(s))"@;
    if start == 0 {
        Err("start must be >= 1 (line numbers are 1-based)"@)
    } else if end < start {
        Err(
            "end ("@ + number::dec(end as nat) + ") < start ("@ + number::dec(start as nat) + ")"@,
        )
    } else if start > line_count {
        Err("start ("@ + number::dec(start as nat) + past)
    } else if end > line_count {
        Err("end ("@ + number::dec(end as nat) + past)
    } else {
        Ok(())
    }
}

/// Checks that `start..=end` are lines of the file.
pub fn validate_range(start: usize, end: usize, line_count: usize) -> (r: Result<(), String>)
    ensures
        text::result_view(r) == range_verdict(start, end, line_count),
        r is Ok <==> 1 <= start <= end <= line_count,
{
    let past = ") is past end of file (".to_owned().concat(&dec_text(line_count)).concat(
        " line(s))",
    );
    if start == 0 {
        return Err("start must be >= 1 (line numbers are 1-based)".to_owned());
    }
    if end < start {
        return Err(
            "end (".to_owned().concat(&dec_text(end)).concat(") < start (").concat(
                &dec_text(start),
            ).concat(")"),
        );
    }
    if start > line_count {
        return Err("start (".to_owned().concat(&dec_text(start)).concat(&past));
    }
    if end > line_count {
        return Err("end (".to_owned().concat(&dec_text(end)).concat(&past));
    }
    Ok(())
}

/// Whether text can be inserted behind line `after_line`, line 0 being the
/// start of the file.
pub open spec fn anchor_verdict(after_line: usize, line_count: usize) -> Result<(), Seq<char>> {
    if after_line > line_count {
        Err(
            "after_line ("@ + number::dec(after_line as nat) + ") is past end of file ("@
                + number::dec(line_count as nat) + " line(s)); use after_line = "@ + number::dec(
                line_count as nat,
            ) + " to append"@,
        )
    } else {
        Ok(())
    }
}

/// Checks that text can be inserted behind line `after_line`.
pub fn validate_insertion_anchor(after_line: usize, line_count: usize) -> (r: Result<(), String>)
    ensures
        text::result_view(r) == anchor_verdict(after_line, line_count),
{
    if after_line > line_count {
        return Err(
            "after_line (".to_owned().concat(&dec_text(after_line)).concat(
                ") is past end of file (",
            ).concat(&dec_text(line_count)).concat(" line(s)); use after_line = ").concat(
                &dec_text(line_count),
            ).concat(" to append"),
        );
    }
    Ok(())
}

proof fn lemma_join_cons(x: Seq<char>, rest: Seq<Seq<char>>, sep: Seq<char>)
    requires
        rest.len() > 0,
    ensures
        text::join(seq![x] + rest, sep) == x + sep + text::join(rest, sep),
    decreases rest.len(),
{
    let all = seq![x] + rest;
    assert(all.drop_last() =~= seq![x] + rest.drop_last());
    assert(all.last() == rest.last());
    if rest.len() == 1 {
        assert(all.drop_last() =~= seq![x]);
        assert(text::join(seq![x], sep) =~= x);
    } else {
        lemma_join_cons(x, rest.drop_last(), sep);
        assert(text::join(all, sep) =~= x + sep + text::join(rest, sep));
    }
}

proof fn lemma_pieces(s: Seq<char>, i: int)
    requires
        0 <= i <= s.len(),
    ensures
        pieces_from(s, i).len() > 0,
        text::join(pieces_from(s, i), "\n"@) == s.subrange(i, s.len() as int),
        forall|k: int, j: int|
            0 <= k < pieces_from(s, i).len() && 0 <= j < pieces_from(s, i)[k].len()
                ==> #[trigger] pieces_from(s, i)[k][j] != '\n',
    decreases s.len() - i,
{
    reveal_strlit("\n");
    text::lemma_char_from(s, '\n', i);
    let e = text::char_from(s, '\n', i);
    if e < s.len() {
        lemma_pieces(s, e + 1);
        lemma_join_cons(s.subrange(i, e), pieces_from(s, e + 1), "\n"@);
        assert(s.subrange(i, s.len() as int) =~= s.subrange(i, e) + "\n"@ + s.subrange(
            e + 1,
            s.len() as int,
        ));
        let all = pieces_from(s, i);
        let rest = pieces_from(s, e + 1);
        assert forall|k: int, j: int|
            0 <= k < all.len() && 0 <= j < all[k].len() implies #[trigger] all[k][j] != '\n' by {
            if k > 0 {
                assert(all[k] == rest[k - 1]);
                assert(rest[k - 1][j] != '\n');
            } else {
                assert(all[0] == s.subrange(i, e));
                assert(s[i + j] != '\n');
            }
        }
    } else {
        assert(text::join(seq![s.subrange(i, s.len() as int)], "\n"@) =~= s.subrange(
            i,
            s.len() as int,
        ));
        let all = pieces_from(s, i);
        assert forall|k: int, j: int|
            0 <= k < all.len() && 0 <= j < all[k].len() implies #[trigger] all[k][j] != '\n' by {
            assert(all[0] == s.subrange(i, s.len() as int));
            assert(s[i + j] != '\n');
        }
    }
}

/// Splitting a file into lines and joining them again gives back the file.
pub proof fn split_then_join(content: Seq<char>)
    ensures
        file_text(pieces(body(content)), content.len() > 0 && content.last() == '\n') == content,
{
    let b = body(content);
    lemma_pieces(b, 0);
    assert(b.subrange(0, b.len() as int) =~= b);
    reveal_strlit("\n");
    if content.len() > 0 && content.last() == '\n' {
        assert(content =~= b + "\n"@);
    }
}

/// There is at least one line, and no line holds a newline.
pub proof fn lines_hold_no_newline(content: Seq<char>)
    ensures
        pieces(body(content)).len() > 0,
        forall|k: int, j: int|
            0 <= k < pieces(body(content)).len() && 0 <= j < pieces(body(content))[k].len()
                ==> #[trigger] pieces(body(content))[k][j] != '\n',
{
    lemma_pieces(body(content), 0);
}

/// Whether no line holds a newline.
pub open spec fn without_newlines(ls: Seq<Seq<char>>) -> bool {
    forall|k: int, j: int|
        0 <= k < ls.len() && 0 <= j < ls[k].len() ==> #[trigger] ls[k][j] != '\n'
}

/// Whether a file of the lines `ls` can be told from a file with one line less:
/// an empty line at the end shows only where a newline follows it.
pub open spec fn shows_all_lines(ls: Seq<Seq<char>>, trailing: bool) -> bool {
    ls.len() > 0 && (trailing || ls.len() == 1 || ls.last().len() > 0)
}

proof fn lemma_pieces_push(a: Seq<char>, b: Seq<char>, i: int)
    requires
        0 <= i <= a.len(),
        forall|k: int| 0 <= k < b.len() ==> #[trigger] b[k] != '\n',
    ensures
        pieces_from(a.push('\n') + b, i) == pieces_from(a, i).push(b),
    decreases a.len() - i,
{
    let s = a.push('\n') + b;
    text::lemma_char_from(a, '\n', i);
    text::lemma_char_from(s, '\n', i);
    let e = text::char_from(a, '\n', i);
    let f = text::char_from(s, '\n', i);
    assert(s[a.len() as int] == '\n');
    if e < a.len() {
        assert(s[e] == a[e]);
        if f < e {
            assert(s[f] == a[f]);
        }
        assert(f == e);
        lemma_pieces_push(a, b, e + 1);
        assert(s.subrange(i, e) =~= a.subrange(i, e));
        assert(pieces_from(s, i) =~= pieces_from(a, i).push(b));
    } else {
        if f < a.len() {
            assert(s[f] == a[f]);
        }
        assert(f == a.len());
        text::lemma_char_from(s, '\n', f + 1);
        let g = text::char_from(s, '\n', f + 1);
        if g < s.len() {
            assert(s[g] == b[g - f - 1]);
        }
        assert(s.subrange(i, f) =~= a.subrange(i, a.len() as int));
        assert(s.subrange(f + 1, s.len() as int) =~= b);
        assert(g == s.len());
        assert(pieces_from(s, f + 1) == seq![b]);
        assert(pieces_from(s, i) == seq![s.subrange(i, f)] + pieces_from(s, f + 1));
        assert(pieces_from(s, i) =~= pieces_from(a, i).push(b));
    }
}

proof fn lemma_pieces_of_join(ls: Seq<Seq<char>>)
    requires
        ls.len() > 0,
        without_newlines(ls),
    ensures
        pieces(text::join(ls, "\n"@)) == ls,
    decreases ls.len(),
{
    reveal_strlit("\n");
    let last = ls.last();
    assert forall|k: int| 0 <= k < last.len() implies #[trigger] last[k] != '\n' by {
        assert(ls[ls.len() - 1][k] != '\n');
    }
    if ls.len() == 1 {
        text::lemma_char_from(last, '\n', 0);
        assert(last.subrange(0, last.len() as int) =~= last);
        assert(pieces(last) =~= ls);
    } else {
        let head = ls.drop_last();
        assert forall|k: int, j: int|
            0 <= k < head.len() && 0 <= j < head[k].len() implies #[trigger] head[k][j]
            != '\n' by {
            assert(ls[k][j] != '\n');
        }
        lemma_pieces_of_join(head);
        let a = text::join(head, "\n"@);
        assert(text::join(ls, "\n"@) =~= a.push('\n') + last);
        lemma_pieces_push(a, last, 0);
        assert(head.push(last) =~= ls);
    }
}

/// A file that is put together from lines reads back as those lines.
pub proof fn join_then_split(ls: Seq<Seq<char>>, trailing: bool)
    requires
        without_newlines(ls),
        shows_all_lines(ls, trailing),
    ensures
        pieces(body(file_text(ls, trailing))) == ls,
        (file_text(ls, trailing).len() > 0 && file_text(ls, trailing).last() == '\n') == trailing,
{
    reveal_strlit("\n");
    lemma_pieces_of_join(ls);
    let j = text::join(ls, "\n"@);
    let last = ls.last();
    if trailing {
        assert((j + "\n"@).drop_last() =~= j);
    } else if last.len() > 0 {
        assert(ls[ls.len() - 1][last.len() - 1] != '\n');
        assert(j.last() == last.last());
    }
}

/// The lines of a text, written down again with a newline behind each, are that text
/// with a newline at its end.
pub proof fn content_lines_write_back(content: Seq<char>)
    ensures
        text::with_newlines(pieces(body(content))) == (if content.len() > 0 && content.last()
            == '\n' {
            content
        } else {
            content.push('\n')
        }),
{
    reveal_strlit("\n");
    split_then_join(content);
    lines_hold_no_newline(content);
    let ls = pieces(body(content));
    text::lemma_join_newlines(ls);
    if !(content.len() > 0 && content.last() == '\n') {
        assert(text::join(ls, "\n"@) + "\n"@ =~= content.push('\n'));
    }
}

/// A range is accepted exactly where it starts at a line of the file, ends at one, and
/// does not end before it starts.
pub proof fn ranges_lie_in_the_file(start: usize, end: usize, line_count: usize)
    ensures
        range_verdict(start, end, line_count) is Ok <==> 1 <= start <= end <= line_count,
        anchor_verdict(start, line_count) is Ok <==> start <= line_count,
{
}

} // verus!
