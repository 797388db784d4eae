//! Inserting lines.
use vstd::prelude::*;

use super::lines;
use super::lines::{
    join_with_trailing_nl, split_preserving_trailing_nl, split_replacement,
    validate_insertion_anchor,
};
use super::replace_range;
use super::replace_range::{copy_lines, LineEdit, LineEditView};
use crate::args;
use crate::args::{get_str_or, number_required, read_field, ArgValue, ArgView};
use crate::number;
use crate::number::dec_text;
use crate::text;
use crate::tool;
use crate::tool::{ToolResult, ToolView};

verus! {

/// What a call asks for: `content` is to be put behind line `after_line` of a
/// file.
#[derive(Debug)]
pub struct InsertRequest {
    pub path: String,
    pub after_line: usize,
    pub content: String,
}

/// A request over texts.
pub struct InsertView {
    pub path: Seq<char>,
    pub after_line: usize,
    pub content: Seq<char>,
}

impl DeepView for InsertRequest {
    type V = InsertView;

    open spec fn deep_view(&self) -> InsertView {
        InsertView { path: self.path@, after_line: self.after_line, content: self.content@ }
    }
}

/// The request that three values make: a file, a line and a text must be named.
pub open spec fn insert_request(path: Seq<char>, after_line: ArgView, content: Seq<char>) -> Result<
    InsertView,
    Seq<char>,
> {
    if path.len() == 0 {
        Err("insert_at: 'path' is required"@)
    } else {
        match args::required_number(after_line, "after_line"@) {
            Err(e) => Err("insert_at: "@ + e),
            Ok(n) => if content.len() == 0 {
                Err("insert_at: 'content' is required (empty insertion is a no-op)"@)
            } else {
                Ok(InsertView { path, after_line: n as usize, content })
            },
        }
    }
}

/// Makes a request of three values.
pub fn make_insert_request(path: String, after_line: ArgValue, content: String) -> (r: Result<
    InsertRequest,
    String,
>)
    ensures
        text::result_view(r) == insert_request(path@, after_line.deep_view(), content@),
{
    if path.as_str().is_empty() {
        return Err("insert_at: 'path' is required".to_owned());
    }
    match number_required(after_line, "after_line") {
        Err(e) => Err("insert_at: ".to_owned().concat(&e)),
        Ok(n) => {
            if content.as_str().is_empty() {
                return Err(
                    "insert_at: 'content' is required (empty insertion is a no-op)".to_owned(),
                );
            }
            Ok(InsertRequest { path, after_line: n as usize, content })
        },
    }
}

/// Reads a request from the arguments of a call. A text that is missing counts as
/// empty; a line that is missing is an error.
pub fn read_insert_request(args: &serde_json::Value) -> (r: Result<InsertRequest, String>)
    ensures
        text::result_view(r) == insert_request(
            args::text_or(args::field(*args, "path"@), Seq::empty()),
            args::field(*args, "after_line"@),
            args::text_or(args::field(*args, "content"@), Seq::empty()),
        ),
{
    let none = String::new();
    let path = get_str_or(args, "path", &none);
    let content = get_str_or(args, "content", &none);
    make_insert_request(path, read_field(args, "after_line"), content)
}

/// The lines `ls` with `new` behind the first `after` of them.
pub open spec fn inserted(ls: Seq<Seq<char>>, after: int, new: Seq<Seq<char>>) -> Seq<Seq<char>> {
    ls.take(after) + new + ls.skip(after)
}

/// What the request makes of a file with the text `original`.
pub open spec fn insert_result(original: Seq<char>, req: InsertView) -> Result<
    LineEditView,
    Seq<char>,
> {
    let ls = lines::pieces(lines::body(original));
    let new = lines::pieces(lines::body(req.content));
    match lines::anchor_verdict(req.after_line, ls.len() as usize) {
        Err(e) => Err("insert_at: "@ + e),
        Ok(_) => Ok(
            LineEditView {
                new_content: lines::file_text(
                    inserted(ls, req.after_line as int, new),
                    replace_range::ends_line(original),
                ),
                added: new.len() as int,
                removed: 0,
                diff: Seq::empty(),
            },
        ),
    }
}

/// Works out what the request makes of a file.
pub fn plan_insert(original: &str, req: &InsertRequest) -> (r: Result<LineEdit, String>)
    ensures
        text::result_view(r) == insert_result(original@, req.deep_view()),
{
    let (old_lines, had_nl) = split_preserving_trailing_nl(original);
    let ghost ls = old_lines.deep_view();
    let count: usize = old_lines.len();
    proof {
        assert(count == ls.len());
    }
    match validate_insertion_anchor(req.after_line, count) {
        Err(e) => {
            return Err("insert_at: ".to_owned().concat(&e));
        },
        Ok(()) => {},
    }
    let mut new = split_replacement(&req.content);
    let added: usize = new.len();
    let ghost nv = new.deep_view();
    proof {
        assert(added == nv.len());
    }
    let mut all = copy_lines(&old_lines, 0, req.after_line);
    let mut tail = copy_lines(&old_lines, req.after_line, count);
    let ghost hv = all.deep_view();
    let ghost tv = tail.deep_view();
    all.append(&mut new);
    all.append(&mut tail);
    proof {
        assert(all.deep_view() =~= hv + nv + tv);
        assert(hv =~= ls.take(req.after_line as int));
        assert(tv =~= ls.skip(req.after_line as int));
    }
    let new_content = join_with_trailing_nl(all.as_slice(), had_nl);
    Ok(LineEdit { new_content, added, removed: 0, diff: String::new() })
}

/// The label of an insertion.
pub fn insert_label(after_line: usize) -> (r: String)
    ensures
        r@ == "insert_at after L"@ + number::dec(after_line as nat),
{
    "insert_at after L".to_owned().concat(&dec_text(after_line))
}

/// What is answered to an insertion.
pub open spec fn insert_report(req: InsertView, rev: usize, added: int, feedback: Seq<char>) -> ToolView {
    tool::ok_view(
        "insert_at "@ + req.path + " after L"@ + number::dec(req.after_line as nat) + ": rev_"@
            + number::dec(rev as nat) + " applied (+"@ + number::dec(added as nat) + " -0)"@
            + feedback,
    )
}

/// Answers an insertion. `feedback` is what is told of the file behind it.
pub fn report_insert(req: &InsertRequest, rev: usize, added: usize, feedback: &str) -> (r:
    ToolResult)
    ensures
        r.deep_view() == insert_report(req.deep_view(), rev, added as int, feedback@),
{
    ToolResult::ok(
        "insert_at ".to_owned().concat(&req.path).concat(" after L").concat(
            &dec_text(req.after_line),
        ).concat(": rev_").concat(&dec_text(rev)).concat(" applied (+").concat(
            &dec_text(added),
        ).concat(" -0)").concat(feedback),
    )
}

/// An insertion removes no line and keeps the order of those that were there.
pub proof fn insert_keeps_all_lines(ls: Seq<Seq<char>>, after: int, new: Seq<Seq<char>>)
    requires
        0 <= after <= ls.len(),
    ensures
        inserted(ls, after, new).len() == ls.len() + new.len(),
        inserted(ls, after, new).take(after) + inserted(ls, after, new).skip(after + new.len())
            == ls,
        inserted(ls, after, new).subrange(after, after + new.len()) == new,
{
    let r = inserted(ls, after, new);
    assert(r.take(after) + r.skip(after + new.len()) =~= ls);
    assert(r.subrange(after, after + new.len()) =~= new);
}

/// The file after an insertion reads as the lines with the new ones among them,
/// and ends in a newline where the file before it did.
pub proof fn inserted_file_reads_as_lines(original: Seq<char>, req: InsertView)
    requires
        lines::pieces(lines::body(original)).len() <= usize::MAX,
        insert_result(original, req) is Ok,
        lines::shows_all_lines(
            inserted(
                lines::pieces(lines::body(original)),
                req.after_line as int,
                lines::pieces(lines::body(req.content)),
            ),
            replace_range::ends_line(original),
        ),
    ensures
        ({
            let out = insert_result(original, req)->Ok_0.new_content;
            &&& lines::pieces(lines::body(out)) == inserted(
                lines::pieces(lines::body(original)),
                req.after_line as int,
                lines::pieces(lines::body(req.content)),
            )
            &&& replace_range::ends_line(out) == replace_range::ends_line(original)
        }),
{
    let ls = lines::pieces(lines::body(original));
    let new = lines::pieces(lines::body(req.content));
    let after = req.after_line as int;
    let r = inserted(ls, after, new);
    lines::lines_hold_no_newline(original);
    lines::lines_hold_no_newline(req.content);
    assert(0 <= after <= ls.len());
    assert forall|k: int, j: int| 0 <= k < r.len() && 0 <= j < r[k].len() implies #[trigger] r[k][j]
        != '\n' by {
        if k < after {
            assert(r[k] == ls[k]);
            assert(ls[k][j] != '\n');
        } else if k < after + new.len() {
            assert(r[k] == new[k - after]);
            assert(new[k - after][j] != '\n');
        } else {
            assert(r[k] == ls[k - new.len()]);
            assert(ls[k - new.len()][j] != '\n');
        }
    }
    lines::join_then_split(r, replace_range::ends_line(original));
}

/// Inserting puts the given content behind the named line, character for character, and
/// touches nothing else: the file is that of the lines up to the named one, the new
/// ones, and those behind it. The new lines, each with a newline behind it, are the
/// content with a newline at its end; they are counted as added, and none as removed.
pub proof fn inserted_lines_stand_behind(
    before: Seq<Seq<char>>,
    after: Seq<Seq<char>>,
    trailing: bool,
    req: InsertView,
)
    requires
        (before + after).len() <= usize::MAX,
        lines::without_newlines(before + after),
        lines::shows_all_lines(before + after, trailing),
        req.after_line == before.len(),
    ensures
        exists|new: Seq<Seq<char>>|
            {
                let end = if trailing {
                    "\n"@
                } else {
                    Seq::empty()
                };
                &&& lines::without_newlines(new)
                &&& #[trigger] text::with_newlines(new) == (if req.content.len() > 0
                    && req.content.last() == '\n' {
                    req.content
                } else {
                    req.content.push('\n')
                })
                &&& insert_result(text::join(before + after, "\n"@) + end, req) == Ok::<
                    LineEditView,
                    Seq<char>,
                >(
                    LineEditView {
                        new_content: text::join(before + new + after, "\n"@) + end,
                        added: new.len() as int,
                        removed: 0,
                        diff: Seq::empty(),
                    },
                )
            },
{
    let end = if trailing {
        "\n"@
    } else {
        Seq::empty()
    };
    let all = before + after;
    let original = text::join(all, "\n"@) + end;
    let new = lines::pieces(lines::body(req.content));
    lines::content_lines_write_back(req.content);
    lines::lines_hold_no_newline(req.content);
    assert(lines::without_newlines(new));
    lines::join_then_split(all, trailing);
    assert(text::join(all, "\n"@) + Seq::<char>::empty() =~= text::join(all, "\n"@));
    assert(original == lines::file_text(all, trailing));
    assert(lines::pieces(lines::body(original)) == all);
    assert(replace_range::ends_line(original) == trailing);
    let s = before + new + after;
    assert(inserted(all, req.after_line as int, new) =~= s);
    assert(text::join(s, "\n"@) + Seq::<char>::empty() =~= text::join(s, "\n"@));
    assert(text::with_newlines(new) == (if req.content.len() > 0 && req.content.last() == '\n' {
        req.content
    } else {
        req.content.push('\n')
    }));
}

/// An insertion behind a line that the file does not have is refused.
pub proof fn lines_past_the_end_are_refused(original: Seq<char>, req: InsertView)
    requires
        lines::pieces(lines::body(original)).len() < req.after_line,
    ensures
        insert_result(original, req) is Err,
{
}

/// A request holds what it was asked with, and is made only where a file and a text are
/// named and the line is a non-negative integer.
pub proof fn insert_request_holds_its_arguments(
    path: Seq<char>,
    after_line: ArgView,
    content: Seq<char>,
)
    ensures
        insert_request(path, after_line, content) is Ok <==> path.len() > 0 && content.len() > 0
            && (after_line matches ArgView::Number { unsigned, .. } && unsigned is Some),
        insert_request(path, after_line, content) matches Ok(r) ==> r.path == path && r.content
            == content && (after_line matches ArgView::Number { unsigned: Some(n), .. } && (n
            <= usize::MAX ==> r.after_line == n)),
{
}

/// The answer to an insertion is a success that names the file, the line and the revision,
/// tells how many lines came, and ends with what is told of the file.
pub proof fn insertion_is_told(req: InsertView, rev: usize, added: int, feedback: Seq<char>)
    ensures
        ({
            let r = insert_report(req, rev, added, feedback);
            &&& r.success
            &&& text::starts_with(
                r.content,
                "insert_at "@ + req.path + " after L"@ + number::dec(req.after_line as nat)
                    + ": rev_"@ + number::dec(rev as nat) + " applied (+"@ + number::dec(
                    added as nat,
                ),
            )
            &&& text::ends_with(r.content, feedback)
        }),
{
    let s = insert_report(req, rev, added, feedback).content;
    let h = "insert_at "@ + req.path + " after L"@ + number::dec(req.after_line as nat)
        + ": rev_"@ + number::dec(rev as nat) + " applied (+"@ + number::dec(added as nat);
    assert(s.subrange(0, h.len() as int) =~= h);
    assert(s.subrange(s.len() - feedback.len(), s.len() as int) =~= feedback);
}

} // verus!
