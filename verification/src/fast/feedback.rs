//! What is told behind every edit: syntax, errors, and the revisions of the file.
use vstd::prelude::*;

use super::ast;
use super::ast::parse_check;
use super::revisions;
use super::revisions::{Revision, RevisionView};
use crate::bytes;
use crate::bytes::{prefix_within, text_bytes};
use crate::edit_file::validate;
use crate::edit_file::validate::{Diagnostic, DiagnosticView, Severity};
use crate::number;
use crate::number::{dec_text, dec_text_u128};
use crate::text;
use crate::text::{count_lines, from_chars, joined, same_text, split_lines, to_chars};

verus! {

/// The most errors of a file that are all shown.
pub const MAX_FILE_ERRORS_INLINE: usize = 10;

/// How many errors are shown where a file has more.
pub const TOP_FILE_ERRORS_WHEN_TRUNCATED: usize = 3;

/// How many of the latest reverted revisions are shown with what they wrote.
pub const EXPANDED_TOMBSTONES: usize = 3;

/// The most bytes that are shown of what a reverted revision wrote.
pub const TOMBSTONE_PAYLOAD_PREVIEW_BYTES: usize = 300;

/// The most lines that are shown of what a reverted revision wrote.
pub const TOMBSTONE_PAYLOAD_PREVIEW_LINES: usize = 5;

/// `s` with spaces behind it up to `width` characters.
pub open spec fn padded(s: Seq<char>, width: nat) -> Seq<char> {
    if s.len() < width {
        s + number::spaces((width - s.len()) as nat)
    } else {
        s
    }
}

fn pad_right(s: &str, width: u128) -> (r: String)
    ensures
        r@ == padded(s@, width as nat),
{
    let len: usize = to_chars(s).len();
    let mut out = s.to_owned();
    let mut at: u128 = len as u128;
    while at < width
        invariant
            len == s@.len(),
            len <= at,
            at <= width || at == len,
            out@ == s@ + number::spaces((at - len) as nat),
        decreases width - at,
    {
        out.push(' ');
        at += 1;
        proof {
            assert(out@ =~= s@ + number::spaces((at - len) as nat));
        }
    }
    proof {
        assert(s@ + number::spaces(0) =~= s@);
    }
    out
}

/// The first `n` errors, one on a line.
pub open spec fn shown_errors(ds: Seq<DiagnosticView>, n: int) -> Seq<char>
    decreases n,
{
    if n <= 0 {
        Seq::empty()
    } else {
        shown_errors(ds, n - 1) + ("  L"@ + number::dec((ds[n - 1].line + 1) as nat) + ":"@
            + number::dec((ds[n - 1].character + 1) as nat) + ": "@ + ds[n - 1].message + "\n"@)
    }
}

/// How many errors of `count` are shown.
pub open spec fn shown_count(count: nat) -> int {
    if count <= MAX_FILE_ERRORS_INLINE {
        count as int
    } else {
        TOP_FILE_ERRORS_WHEN_TRUNCATED as int
    }
}

/// `s` without a newline at its end.
pub open spec fn without_newline(s: Seq<char>) -> Seq<char> {
    if s.len() > 0 && s.last() == '\n' {
        s.drop_last()
    } else {
        s
    }
}

fn drop_newline(s: String) -> (r: String)
    ensures
        r@ == without_newline(s@),
{
    let v = to_chars(&s);
    let n: usize = v.len();
    if n > 0 && v[n - 1] == '\n' {
        proof {
            assert(v@.subrange(0, n - 1) =~= s@.drop_last());
        }
        return from_chars(&v, 0, n - 1);
    }
    s
}

/// The errors of a file: all of them, or the first few and how many more there
/// are.
pub open spec fn file_report(ds: Seq<DiagnosticView>) -> Seq<char> {
    let count = ds.len();
    let shown = shown_count(count);
    if count == 0 {
        "[lsp file] 0 errors"@
    } else {
        let head = "[lsp file] "@ + number::dec(count) + (if count <= MAX_FILE_ERRORS_INLINE {
            " error(s)\n"@
        } else {
            " error(s) (showing top "@ + number::dec(TOP_FILE_ERRORS_WHEN_TRUNCATED as nat)
                + ")\n"@
        });
        let tail = if count > shown {
            "  … and "@ + number::dec((count - shown) as nat) + " more\n"@
        } else {
            Seq::empty()
        };
        without_newline(head + shown_errors(ds, shown) + tail)
    }
}

/// Renders the errors of a file.
pub fn render_file_diagnostics(diags: &[Diagnostic]) -> (r: String)
    ensures
        r@ == file_report(diags.deep_view()),
{
    let ghost dv = diags.deep_view();
    let count: usize = diags.len();
    proof {
        assert(count == dv.len());
    }
    if count == 0 {
        return "[lsp file] 0 errors".to_owned();
    }
    let rest = if count <= MAX_FILE_ERRORS_INLINE {
        " error(s)\n".to_owned()
    } else {
        " error(s) (showing top ".to_owned().concat(
            &dec_text(TOP_FILE_ERRORS_WHEN_TRUNCATED),
        ).concat(")\n")
    };
    let shown: usize = if count <= MAX_FILE_ERRORS_INLINE {
        count
    } else {
        TOP_FILE_ERRORS_WHEN_TRUNCATED
    };
    let mut out = "[lsp file] ".to_owned().concat(&dec_text(count)).concat(&rest);
    let ghost head = out@;
    let mut i: usize = 0;
    proof {
        assert(out@ =~= head + shown_errors(dv, 0));
    }
    while i < shown
        invariant
            i <= shown <= diags@.len() == dv.len(),
            dv == diags.deep_view(),
            out@ == head + shown_errors(dv, i as int),
        decreases shown - i,
    {
        let d = &diags[i];
        proof {
            assert(dv[i as int] == d.deep_view());
        }
        out.append(
            &"  L".to_owned().concat(&dec_text_u128(d.line as u128 + 1)).concat(":").concat(
                &dec_text_u128(d.character as u128 + 1),
            ).concat(": ").concat(&d.message).concat("\n"),
        );
        i += 1;
        proof {
            assert(out@ =~= head + shown_errors(dv, i as int));
        }
    }
    if count > shown {
        out.append(&"  … and ".to_owned().concat(&dec_text(count - shown)).concat(" more\n"));
    } else {
        proof {
            assert(out@ + Seq::<char>::empty() =~= out@);
        }
    }
    drop_newline(out)
}

/// How many of the first `n` diagnostics are errors.
pub open spec fn error_total(ds: Seq<DiagnosticView>, n: int) -> nat
    decreases n,
{
    if n <= 0 {
        0
    } else {
        error_total(ds, n - 1) + (if ds[n - 1].severity == Some(Severity::Error) {
            1nat
        } else {
            0nat
        })
    }
}

/// Counts the errors among the diagnostics of a project.
pub fn count_project_errors(diags: &[Diagnostic]) -> (r: usize)
    ensures
        r == error_total(diags.deep_view(), diags@.len() as int),
{
    let ghost dv = diags.deep_view();
    let mut count: usize = 0;
    let mut i: usize = 0;
    while i < diags.len()
        invariant
            i <= diags@.len() == dv.len(),
            dv == diags.deep_view(),
            count <= i,
            count == error_total(dv, i as int),
        decreases diags.len() - i,
    {
        proof {
            assert(dv[i as int] == diags@[i as int].deep_view());
        }
        match diags[i].severity {
            Some(Severity::Error) => {
                count += 1;
            },
            _ => {},
        }
        i += 1;
    }
    count
}

/// What an edit did in a word, with the lines that it added and removed.
pub open spec fn label_of(r: RevisionView) -> Seq<char> {
    if r.number == 0 || (r.added == 0 && r.removed == 0) {
        r.label
    } else {
        r.label + " (+"@ + number::dec(r.added as nat) + " -"@ + number::dec(r.removed as nat)
            + ")"@
    }
}

/// What a revision did in a word.
pub fn render_label(r: &Revision) -> (out: String)
    ensures
        out@ == label_of(r.deep_view()),
{
    if r.number == 0 || (r.added == 0 && r.removed == 0) {
        r.label.clone()
    } else {
        r.label.clone().concat(" (+").concat(&dec_text(r.added)).concat(" -").concat(
            &dec_text(r.removed),
        ).concat(")")
    }
}

/// Number and label of a revision, the label filled up to `width` characters.
pub open spec fn row_head(r: RevisionView, width: nat) -> Seq<char> {
    "rev_"@ + padded(number::dec(r.number as nat), 2) + " "@ + padded(label_of(r), width)
}

fn render_head(r: &Revision, width: u128) -> (out: String)
    ensures
        out@ == row_head(r.deep_view(), width as nat),
{
    "rev_".to_owned().concat(&pad_right(&dec_text(r.number), 2)).concat(" ").concat(
        &pad_right(&render_label(r), width),
    )
}

/// The row of a revision that was not reverted.
pub open spec fn live_row(r: RevisionView, current: usize, width: nat) -> Seq<char> {
    let is_current = r.number == current;
    (if is_current {
        "* "@
    } else {
        "  "@
    }) + row_head(r, width) + "  ast="@ + padded(
        if r.ast_ok {
            "ok"@
        } else {
            "broken"@
        },
        6,
    ) + "  file_errors="@ + number::dec(r.file_errors as nat) + "  project_errors="@ + number::dec(
        r.project_errors as nat,
    ) + (if is_current {
        "  <- current"@
    } else {
        Seq::empty()
    })
}

/// Renders the row of a revision that was not reverted.
pub fn render_live_row(r: &Revision, current: usize, label_width: u128) -> (out: String)
    ensures
        out@ == live_row(r.deep_view(), current, label_width as nat),
{
    let is_current = r.number == current;
    let marker = if is_current {
        "* "
    } else {
        "  "
    };
    let ast = if r.ast_ok {
        "ok"
    } else {
        "broken"
    };
    let tail = if is_current {
        "  <- current".to_owned()
    } else {
        String::new()
    };
    marker.to_owned().concat(&render_head(r, label_width)).concat("  ast=").concat(
        &pad_right(ast, 6),
    ).concat("  file_errors=").concat(&dec_text(r.file_errors)).concat(
        "  project_errors=",
    ).concat(&dec_text(r.project_errors)).concat(&tail)
}

/// What was wrong with a revision: broken syntax before errors.
pub open spec fn outcome(r: RevisionView) -> Seq<char> {
    if !r.ast_ok {
        match r.ast_error {
            Some(e) => "ast=broken at "@ + e,
            None => "ast=broken"@,
        }
    } else if r.file_errors > 0 {
        "file_errors="@ + number::dec(r.file_errors as nat)
    } else {
        "no errors"@
    }
}

/// Tells what was wrong with a revision.
pub fn outcome_tag(r: &Revision) -> (out: String)
    ensures
        out@ == outcome(r.deep_view()),
{
    if !r.ast_ok {
        return match &r.ast_error {
            Some(e) => "ast=broken at ".to_owned().concat(e),
            None => "ast=broken".to_owned(),
        };
    }
    if r.file_errors > 0 {
        return "file_errors=".to_owned().concat(&dec_text(r.file_errors));
    }
    "no errors".to_owned()
}

/// The row of a reverted revision.
pub open spec fn tombstone_line(r: RevisionView, width: nat) -> Seq<char> {
    "  "@ + row_head(r, width) + "  [reverted, "@ + outcome(r) + "]"@
}

/// Renders the row of a reverted revision.
pub fn render_tombstone_oneliner(r: &Revision, label_width: u128) -> (out: String)
    ensures
        out@ == tombstone_line(r.deep_view(), label_width as nat),
{
    "  ".to_owned().concat(&render_head(r, label_width)).concat("  [reverted, ").concat(
        &outcome_tag(r),
    ).concat("]")
}

/// The first lines of a text, and how many lines it has more; or, where these take
/// more than `max_bytes` bytes, what fits, and how many bytes the text has more.
pub open spec fn preview(s: Seq<char>, max_lines: nat, max_bytes: nat) -> (Seq<char>, nat, nat) {
    let ls = text::lines(s);
    let n = if ls.len() <= max_lines {
        ls.len()
    } else {
        max_lines
    };
    let head = text::join(ls.take(n as int), "\n"@);
    if bytes::utf8_len(head) > max_bytes {
        let cut = bytes::byte_prefix(head, max_bytes);
        (
            cut,
            0,
            if bytes::utf8_len(s) >= bytes::utf8_len(cut) {
                (bytes::utf8_len(s) - bytes::utf8_len(cut)) as nat
            } else {
                0
            },
        )
    } else {
        (head, (ls.len() - n) as nat, 0)
    }
}

/// Cuts a text to `max_lines` lines or `max_bytes` bytes, and counts what is
/// dropped, in lines or in bytes.
pub fn truncate_preview(text: &str, max_lines: usize, max_bytes: usize) -> (r: (
    String,
    usize,
    u128,
))
    ensures
        r.0@ == preview(text@, max_lines as nat, max_bytes as nat).0,
        r.1 == preview(text@, max_lines as nat, max_bytes as nat).1,
        r.2 == preview(text@, max_lines as nat, max_bytes as nat).2,
{
    let mut lines = split_lines(text);
    let ghost ls = lines.deep_view();
    let total: usize = lines.len();
    let n: usize = if total <= max_lines {
        total
    } else {
        max_lines
    };
    lines.truncate(n);
    proof {
        assert(lines.deep_view() =~= ls.take(n as int));
    }
    let head = joined(&lines, "\n");
    if text_bytes(&head) > max_bytes as u128 {
        let cut = prefix_within(&head, max_bytes);
        let all: u128 = text_bytes(text);
        let kept: u128 = text_bytes(&cut);
        let more: u128 = if all >= kept {
            all - kept
        } else {
            0
        };
        return (cut, 0, more);
    }
    (head, total - n, 0)
}

/// The first `n` lines, each on a new line behind `indent`.
pub open spec fn indented(ls: Seq<Seq<char>>, indent: Seq<char>, n: int) -> Seq<char>
    decreases n,
{
    if n <= 0 {
        Seq::empty()
    } else {
        indented(ls, indent, n - 1) + (indent + ls[n - 1])
    }
}

fn indent_lines(lines: &Vec<String>, indent: &str) -> (r: String)
    ensures
        r@ == indented(lines.deep_view(), indent@, lines@.len() as int),
{
    let ghost lv = lines.deep_view();
    let mut out = String::new();
    let mut i: usize = 0;
    while i < lines.len()
        invariant
            i <= lines@.len() == lv.len(),
            lv == lines.deep_view(),
            out@ == indented(lv, indent@, i as int),
        decreases lines.len() - i,
    {
        out.append(&indent.to_owned().concat(&lines[i]));
        i += 1;
    }
    out
}

/// The greater of a number of lines and 1.
pub open spec fn at_least_one(n: nat) -> nat {
    if n == 0 {
        1
    } else {
        n
    }
}

/// What the text of an edit is called.
pub open spec fn payload_key(operation: Seq<char>) -> Seq<char> {
    if operation == "insert_at"@ {
        "text"@
    } else {
        "new_text"@
    }
}

/// How a text that was cut goes on, where it does.
pub open spec fn more_hint(extra_lines: nat, extra_bytes: nat) -> Seq<char> {
    if extra_lines > 0 || extra_bytes > 0 {
        "\n         … "@ + (if extra_lines > 0 {
            number::dec(extra_lines) + " more line(s)"@
        } else {
            number::dec(extra_bytes) + " more byte(s)"@
        }) + " — use show_rev to see full payload"@
    } else {
        Seq::empty()
    }
}

/// What a reverted revision wrote, as far as it is shown.
pub open spec fn payload_block(r: RevisionView) -> Seq<char> {
    if r.operation == "write_file"@ {
        "\n         (full rewrite, "@ + number::dec(at_least_one(text::lines(r.content).len()))
            + " line(s), "@ + number::dec(bytes::utf8_len(r.content)) + " bytes)"@
    } else {
        match r.payload {
            None => Seq::empty(),
            Some(p) => {
                let cut = preview(
                    p,
                    TOMBSTONE_PAYLOAD_PREVIEW_LINES as nat,
                    TOMBSTONE_PAYLOAD_PREVIEW_BYTES as nat,
                );
                "\n         "@ + payload_key(r.operation) + ": |"@ + indented(
                    text::lines(cut.0),
                    "\n           "@,
                    text::lines(cut.0).len() as int,
                ) + more_hint(cut.1, cut.2)
            },
        }
    }
}

fn render_payload(r: &Revision) -> (out: String)
    ensures
        out@ == payload_block(r.deep_view()),
{
    if same_text(&r.operation, "write_file") {
        let lines: usize = count_lines(&r.content);
        let shown: usize = if lines == 0 {
            1
        } else {
            lines
        };
        return "\n         (full rewrite, ".to_owned().concat(&dec_text(shown)).concat(
            " line(s), ",
        ).concat(&dec_text_u128(text_bytes(&r.content))).concat(" bytes)");
    }
    match &r.payload {
        None => String::new(),
        Some(p) => {
            let key = if same_text(&r.operation, "insert_at") {
                "text"
            } else {
                "new_text"
            };
            let (cut, extra_lines, extra_bytes) = truncate_preview(
                p,
                TOMBSTONE_PAYLOAD_PREVIEW_LINES,
                TOMBSTONE_PAYLOAD_PREVIEW_BYTES,
            );
            let hint = if extra_lines > 0 || extra_bytes > 0 {
                let more = if extra_lines > 0 {
                    dec_text(extra_lines).concat(" more line(s)")
                } else {
                    dec_text_u128(extra_bytes).concat(" more byte(s)")
                };
                "\n         … ".to_owned().concat(&more).concat(
                    " — use show_rev to see full payload",
                )
            } else {
                String::new()
            };
            let lines = split_lines(&cut);
            proof {
                assert(lines@.len() == lines.deep_view().len());
            }
            "\n         ".to_owned().concat(key).concat(": |").concat(
                &indent_lines(&lines, "\n           "),
            ).concat(&hint)
        },
    }
}

/// The row of a reverted revision, with what it wrote.
pub open spec fn tombstone_block(r: RevisionView, width: nat) -> Seq<char> {
    tombstone_line(r, width) + payload_block(r)
}

/// Renders the row of a reverted revision with what it wrote.
pub fn render_tombstone_expanded(r: &Revision, label_width: u128) -> (out: String)
    ensures
        out@ == tombstone_block(r.deep_view(), label_width as nat),
{
    render_tombstone_oneliner(r, label_width).concat(&render_payload(r))
}

/// Those of the first `n` revisions that are reverted, or those that are not.
pub open spec fn chosen(revs: Seq<RevisionView>, reverted: bool, n: int) -> Seq<RevisionView>
    decreases n,
{
    if n <= 0 {
        Seq::empty()
    } else if revs[n - 1].reverted == reverted {
        chosen(revs, reverted, n - 1).push(revs[n - 1])
    } else {
        chosen(revs, reverted, n - 1)
    }
}

/// The revisions that are not reverted.
pub open spec fn live_of(revs: Seq<RevisionView>) -> Seq<RevisionView> {
    chosen(revs, false, revs.len() as int)
}

/// The reverted revisions.
pub open spec fn tombs_of(revs: Seq<RevisionView>) -> Seq<RevisionView> {
    chosen(revs, true, revs.len() as int)
}

/// Picks the revisions that are reverted, or those that are not.
pub fn choose_revisions(revs: &[Revision], reverted: bool) -> (r: Vec<Revision>)
    ensures
        r.deep_view() == chosen(revs.deep_view(), reverted, revs@.len() as int),
{
    let ghost rv = revs.deep_view();
    let mut out: Vec<Revision> = Vec::new();
    let mut i: usize = 0;
    proof {
        assert(out.deep_view() =~= Seq::<RevisionView>::empty());
    }
    while i < revs.len()
        invariant
            i <= revs@.len() == rv.len(),
            rv == revs.deep_view(),
            out.deep_view() == chosen(rv, reverted, i as int),
        decreases revs.len() - i,
    {
        proof {
            assert(rv[i as int] == revs@[i as int].deep_view());
        }
        if revs[i].reverted == reverted {
            let ghost o = out.deep_view();
            let item = revs[i].clone();
            let ghost iv = item.deep_view();
            out.push(item);
            proof {
                assert(out.deep_view() =~= o.push(iv));
            }
        }
        i += 1;
    }
    out
}

/// The number of the last revision, or 0 where there is none.
pub open spec fn last_number(live: Seq<RevisionView>) -> usize {
    if live.len() == 0 {
        0
    } else {
        live.last().number
    }
}

/// How many bytes the longest label of the first `n` revisions takes.
pub open spec fn label_width(live: Seq<RevisionView>, n: int) -> nat
    decreases n,
{
    if n <= 0 {
        0
    } else {
        let before = label_width(live, n - 1);
        let own = bytes::utf8_len(label_of(live[n - 1]));
        if own >= before {
            own
        } else {
            before
        }
    }
}

/// The rows of the first `n` revisions that are not reverted, one on a line.
pub open spec fn live_rows(live: Seq<RevisionView>, n: int) -> Seq<char>
    decreases n,
{
    if n <= 0 {
        Seq::empty()
    } else {
        live_rows(live, n - 1) + live_row(
            live[n - 1],
            last_number(live),
            label_width(live, live.len() as int),
        ) + "\n"@
    }
}

/// The rows of the first `n` reverted revisions, one on a line. Only the latest
/// are shown with what they wrote.
pub open spec fn tomb_rows(tombs: Seq<RevisionView>, width: nat, n: int) -> Seq<char>
    decreases n,
{
    if n <= 0 {
        Seq::empty()
    } else {
        tomb_rows(tombs, width, n - 1) + (if n - 1 < tombs.len() - EXPANDED_TOMBSTONES {
            tombstone_line(tombs[n - 1], width)
        } else {
            tombstone_block(tombs[n - 1], width)
        }) + "\n"@
    }
}

/// The revisions of a file: first those that are not reverted, then those that
/// are.
pub open spec fn revision_table(path: Seq<char>, revs: Seq<RevisionView>) -> Seq<char> {
    if revs.len() == 0 {
        Seq::empty()
    } else {
        let live = live_of(revs);
        let tombs = tombs_of(revs);
        without_newline(
            "[revisions] "@ + path + "\n"@ + live_rows(live, live.len() as int) + tomb_rows(
                tombs,
                label_width(live, live.len() as int),
                tombs.len() as int,
            ),
        )
    }
}

fn widest_label(live: &Vec<Revision>) -> (r: u128)
    ensures
        r == label_width(live.deep_view(), live@.len() as int),
{
    let ghost lv = live.deep_view();
    let mut width: u128 = 0;
    let mut i: usize = 0;
    while i < live.len()
        invariant
            i <= live@.len() == lv.len(),
            lv == live.deep_view(),
            width == label_width(lv, i as int),
        decreases live.len() - i,
    {
        proof {
            assert(lv[i as int] == live@[i as int].deep_view());
        }
        let own: u128 = text_bytes(&render_label(&live[i]));
        if own >= width {
            width = own;
        }
        i += 1;
    }
    width
}

/// Renders the revisions of a file.
pub fn render_revision_table(rel_path: &str, revs: &[Revision]) -> (r: String)
    ensures
        r@ == revision_table(rel_path@, revs.deep_view()),
{
    proof {
        assert(revs@.len() == revs.deep_view().len());
    }
    if revs.len() == 0 {
        return String::new();
    }
    let live = choose_revisions(revs, false);
    let tombs = choose_revisions(revs, true);
    let ghost lv = live.deep_view();
    let ghost tv = tombs.deep_view();
    proof {
        assert(live@.len() == lv.len());
        assert(tombs@.len() == tv.len());
    }
    let n: usize = live.len();
    let current: usize = if n > 0 {
        proof {
            assert(lv.last() == live@[n - 1].deep_view());
        }
        live[n - 1].number
    } else {
        0
    };
    let width: u128 = widest_label(&live);
    let mut out = "[revisions] ".to_owned().concat(rel_path).concat("\n");
    let ghost head = out@;
    let mut i: usize = 0;
    proof {
        assert(out@ =~= head + live_rows(lv, 0));
    }
    while i < live.len()
        invariant
            i <= live@.len() == lv.len(),
            lv == live.deep_view(),
            current == last_number(lv),
            width == label_width(lv, lv.len() as int),
            out@ == head + live_rows(lv, i as int),
        decreases live.len() - i,
    {
        proof {
            assert(lv[i as int] == live@[i as int].deep_view());
        }
        out.append(&render_live_row(&live[i], current, width));
        out.append("\n");
        i += 1;
        proof {
            assert(out@ =~= head + live_rows(lv, i as int));
        }
    }
    let ghost body = out@;
    let mut j: usize = 0;
    proof {
        assert(out@ =~= body + tomb_rows(tv, width as nat, 0));
    }
    while j < tombs.len()
        invariant
            j <= tombs@.len() == tv.len(),
            tv == tombs.deep_view(),
            out@ == body + tomb_rows(tv, width as nat, j as int),
        decreases tombs.len() - j,
    {
        proof {
            assert(tv[j as int] == tombs@[j as int].deep_view());
        }
        let row = if tombs.len() - j > EXPANDED_TOMBSTONES {
            render_tombstone_oneliner(&tombs[j], width)
        } else {
            render_tombstone_expanded(&tombs[j], width)
        };
        out.append(&row);
        out.append("\n");
        j += 1;
        proof {
            assert(out@ =~= body + tomb_rows(tv, width as nat, j as int));
        }
    }
    drop_newline(out)
}

/// What is told behind an edit, and what of it goes into the revision.
#[derive(Debug)]
pub struct EditFeedback {
    pub text: String,
    /// Whether the file can be parsed.
    pub ast_ok: bool,
    /// The first parse error, such as `L42:9: syntax error`.
    pub ast_error: Option<String>,
    /// Errors reported in the file.
    pub file_errors: usize,
    /// Errors reported in the whole project.
    pub project_errors: usize,
}

/// Feedback over texts.
pub struct FeedbackView {
    pub text: Seq<char>,
    pub ast_ok: bool,
    pub ast_error: Option<Seq<char>>,
    pub file_errors: usize,
    pub project_errors: usize,
}

impl DeepView for EditFeedback {
    type V = FeedbackView;

    open spec fn deep_view(&self) -> FeedbackView {
        FeedbackView {
            text: self.text@,
            ast_ok: self.ast_ok,
            ast_error: self.ast_error.deep_view(),
            file_errors: self.file_errors,
            project_errors: self.project_errors,
        }
    }
}

/// How far a number lies above or below another.
pub open spec fn delta_text(now: usize, before: usize) -> Seq<char> {
    if now >= before {
        "+"@ + number::dec((now - before) as nat)
    } else {
        "-"@ + number::dec((before - now) as nat)
    }
}

/// The line on the syntax of a file.
pub open spec fn ast_line(checked: Result<(), Seq<char>>) -> Seq<char> {
    match checked {
        Ok(_) => "[ast] ok"@,
        Err(e) => "[ast] broken: "@ + e,
    }
}

/// A parse error as it is kept: with an `L` before its place, where it names one.
pub open spec fn kept_error(e: Seq<char>) -> Seq<char> {
    if e.len() > 0 && '0' <= e[0] <= '9' {
        "L"@ + e
    } else {
        e
    }
}

fn keep_error(e: String) -> (r: String)
    ensures
        r@ == kept_error(e@),
{
    let v = to_chars(&e);
    if v.len() > 0 && '0' <= v[0] && v[0] <= '9' {
        return "L".to_owned().concat(&e);
    }
    e
}

/// What is told behind an edit.
pub open spec fn feedback_of(
    path: Seq<char>,
    checked: Result<(), Seq<char>>,
    file_diags: Seq<DiagnosticView>,
    project_errors: usize,
    baseline: usize,
    revs: Seq<RevisionView>,
) -> FeedbackView {
    let errors = validate::errors_of(file_diags);
    let table = revision_table(path, revs);
    FeedbackView {
        text: "\n"@ + ast_line(checked) + "\n"@ + file_report(errors) + "\n[lsp project] "@
            + number::dec(project_errors as nat) + " error(s) ("@ + delta_text(
            project_errors,
            baseline,
        ) + " from baseline)"@ + (if table.len() > 0 {
            "\n"@ + table
        } else {
            Seq::empty()
        }),
        ast_ok: checked is Ok,
        ast_error: match checked {
            Ok(_) => None,
            Err(e) => Some(kept_error(e)),
        },
        file_errors: errors.len() as usize,
        project_errors,
    }
}

/// Tells of an edit, for what the syntax check said of it.
pub fn compose_feedback(
    rel_path: &str,
    checked: Result<(), String>,
    file_diags: &[Diagnostic],
    project_errors: usize,
    project_baseline_errors: usize,
    revs: &[Revision],
) -> (r: EditFeedback)
    ensures
        r.deep_view() == feedback_of(
            rel_path@,
            text::result_view(checked),
            file_diags.deep_view(),
            project_errors,
            project_baseline_errors,
            revs.deep_view(),
        ),
{
    let errors = validate::error_diagnostics(file_diags);
    proof {
        assert(errors@.len() == errors.deep_view().len());
    }
    let line = match &checked {
        Ok(()) => "[ast] ok".to_owned(),
        Err(e) => "[ast] broken: ".to_owned().concat(e),
    };
    let delta = if project_errors >= project_baseline_errors {
        "+".to_owned().concat(&dec_text(project_errors - project_baseline_errors))
    } else {
        "-".to_owned().concat(&dec_text(project_baseline_errors - project_errors))
    };
    let table = render_revision_table(rel_path, revs);
    let tail = if table.as_str().is_empty() {
        String::new()
    } else {
        "\n".to_owned().concat(&table)
    };
    let text = "\n".to_owned().concat(&line).concat("\n").concat(
        &render_file_diagnostics(errors.as_slice()),
    ).concat("\n[lsp project] ").concat(&dec_text(project_errors)).concat(" error(s) (").concat(
        &delta,
    ).concat(" from baseline)").concat(&tail);
    let ast_ok = checked.is_ok();
    let ast_error = match checked {
        Ok(()) => None,
        Err(e) => Some(keep_error(e)),
    };
    EditFeedback { text, ast_ok, ast_error, file_errors: errors.len(), project_errors }
}

/// Checks the syntax of a file behind an edit and tells of it.
pub fn build_feedback(
    rel_path: &str,
    new_content: &str,
    file_diags: &[Diagnostic],
    project_errors: usize,
    project_baseline_errors: usize,
    revs: &[Revision],
) -> (r: EditFeedback)
    ensures
        r.deep_view() == feedback_of(
            rel_path@,
            ast::ext_verdict(ast::path_extension(rel_path@), new_content@),
            file_diags.deep_view(),
            project_errors,
            project_baseline_errors,
            revs.deep_view(),
        ),
{
    compose_feedback(
        rel_path,
        parse_check(rel_path, new_content),
        file_diags,
        project_errors,
        project_baseline_errors,
        revs,
    )
}

proof fn lemma_chosen(revs: Seq<RevisionView>, n: int)
    requires
        0 <= n <= revs.len(),
    ensures
        chosen(revs, false, n).len() + chosen(revs, true, n).len() == n,
        chosen(revs, false, n).len() == 0 ==> revisions::newest_live(revs, n) is None,
        chosen(revs, false, n).len() > 0 ==> revisions::newest_live(revs, n) == Some(
            chosen(revs, false, n).last().number,
        ),
    decreases n,
{
    if n > 0 {
        lemma_chosen(revs, n - 1);
    }
}

/// The table has a row for each revision, and marks as current the one that a
/// store holds for current.
pub proof fn table_shows_the_store(revs: Seq<RevisionView>)
    ensures
        live_of(revs).len() + tombs_of(revs).len() == revs.len(),
        revisions::newest_live(revs, revs.len() as int) matches Some(rev) ==> last_number(
            live_of(revs),
        ) == rev,
{
    lemma_chosen(revs, revs.len() as int);
}

/// A preview takes at most `max_bytes` bytes, and holds all lines of a text that
/// keeps to both limits.
pub proof fn preview_fits(s: Seq<char>, max_lines: nat, max_bytes: nat)
    ensures
        bytes::utf8_len(preview(s, max_lines, max_bytes).0) <= max_bytes,
        text::lines(s).len() <= max_lines && bytes::utf8_len(text::join(text::lines(s), "\n"@))
            <= max_bytes ==> preview(s, max_lines, max_bytes) == (
            text::join(text::lines(s), "\n"@),
            0nat,
            0nat,
        ),
{
    let ls = text::lines(s);
    let n = if ls.len() <= max_lines {
        ls.len()
    } else {
        max_lines
    };
    let head = text::join(ls.take(n as int), "\n"@);
    bytes::lemma_chars_within(head, max_bytes, head.len() as int);
    assert(ls.take(ls.len() as int) =~= ls);
}

proof fn lemma_chosen_has(revs: Seq<RevisionView>, reverted: bool, n: int, i: int)
    requires
        0 <= i < n <= revs.len(),
        revs[i].reverted == reverted,
    ensures
        chosen(revs, reverted, n).contains(revs[i]),
    decreases n,
{
    let c = chosen(revs, reverted, n);
    if i == n - 1 {
        assert(c[c.len() - 1] == revs[i]);
    } else {
        lemma_chosen_has(revs, reverted, n - 1, i);
        let before = chosen(revs, reverted, n - 1);
        let k = choose|k: int| 0 <= k < before.len() && before[k] == revs[i];
        assert(c[k] == revs[i]);
    }
}

proof fn lemma_chosen_from(revs: Seq<RevisionView>, reverted: bool, n: int, k: int) -> (i: int)
    requires
        0 <= n <= revs.len(),
        0 <= k < chosen(revs, reverted, n).len(),
    ensures
        0 <= i < n,
        chosen(revs, reverted, n)[k] == revs[i],
        revs[i].reverted == reverted,
    decreases n,
{
    if revs[n - 1].reverted == reverted && k == chosen(revs, reverted, n).len() - 1 {
        n - 1
    } else {
        lemma_chosen_from(revs, reverted, n - 1, k)
    }
}

proof fn lemma_chosen_order(revs: Seq<RevisionView>, reverted: bool, n: int, k: int, l: int)
    requires
        revisions::is_history(revs),
        0 <= n <= revs.len(),
        0 <= k < l < chosen(revs, reverted, n).len(),
    ensures
        chosen(revs, reverted, n)[k].number < chosen(revs, reverted, n)[l].number,
    decreases n,
{
    if revs[n - 1].reverted == reverted && l == chosen(revs, reverted, n).len() - 1 {
        let i = lemma_chosen_from(revs, reverted, n - 1, k);
    } else {
        lemma_chosen_order(revs, reverted, n - 1, k, l);
    }
}

/// The revisions of a file part into those that are live and those that were undone, and both
/// stand in the order in which they were made.
pub proof fn revisions_part_in_two(revs: Seq<RevisionView>, i: int, k: int, l: int)
    requires
        revisions::is_history(revs),
    ensures
        0 <= i < revs.len() && !revs[i].reverted ==> live_of(revs).contains(revs[i]),
        0 <= i < revs.len() && revs[i].reverted ==> tombs_of(revs).contains(revs[i]),
        0 <= k < live_of(revs).len() ==> revs.contains(live_of(revs)[k]) && !live_of(
            revs,
        )[k].reverted,
        0 <= k < tombs_of(revs).len() ==> revs.contains(tombs_of(revs)[k]) && tombs_of(
            revs,
        )[k].reverted,
        0 <= k < l < live_of(revs).len() ==> live_of(revs)[k].number < live_of(revs)[l].number,
        0 <= k < l < tombs_of(revs).len() ==> tombs_of(revs)[k].number < tombs_of(revs)[l].number,
{
    let n = revs.len() as int;
    if 0 <= i < n {
        lemma_chosen_has(revs, revs[i].reverted, n, i);
    }
    if 0 <= k < live_of(revs).len() {
        let a = lemma_chosen_from(revs, false, n, k);
        if k < l < live_of(revs).len() {
            lemma_chosen_order(revs, false, n, k, l);
        }
    }
    if 0 <= k < tombs_of(revs).len() {
        let a = lemma_chosen_from(revs, true, n, k);
        if k < l < tombs_of(revs).len() {
            lemma_chosen_order(revs, true, n, k, l);
        }
    }
}

/// A text that ends with a newline is still found without it, where that newline is dropped.
pub proof fn lemma_newline_dropped(s: Seq<char>, p: Seq<char>)
    requires
        text::has_text(s, p + "\n"@),
    ensures
        text::has_text(without_newline(s), p),
{
    reveal_strlit("\n");
    let q = p + "\n"@;
    let k = choose|k: int| text::occurs_at(s, q, k);
    let w = without_newline(s);
    assert(w.subrange(k, k + p.len() as int) =~= p) by {
        assert forall|i: int| 0 <= i < p.len() implies w.subrange(k, k + p.len() as int)[i]
            == p[i] by {
            assert(s.subrange(k, k + q.len() as int)[i] == q[i]);
        }
    }
    assert(text::occurs_at(w, p, k));
}

/// A text is padded by spaces behind it, and is never cut.
pub proof fn padding_goes_behind(s: Seq<char>, width: nat)
    ensures
        text::starts_with(padded(s, width), s),
        padded(s, width).len() == if s.len() < width {
            width
        } else {
            s.len()
        },
        forall|i: int| s.len() <= i < padded(s, width).len() ==> padded(s, width)[i] == ' ',
{
    assert(padded(s, width).subrange(0, s.len() as int) =~= s);
}

proof fn lemma_shown_error(ds: Seq<DiagnosticView>, n: int, i: int)
    requires
        0 <= i < n <= ds.len(),
    ensures
        text::has_text(
            shown_errors(ds, n),
            "  L"@ + number::dec((ds[i].line + 1) as nat) + ":"@ + number::dec(
                (ds[i].character + 1) as nat,
            ) + ": "@ + ds[i].message + "\n"@,
        ),
    decreases n,
{
    let p = "  L"@ + number::dec((ds[i].line + 1) as nat) + ":"@ + number::dec(
        (ds[i].character + 1) as nat,
    ) + ": "@ + ds[i].message + "\n"@;
    if i < n - 1 {
        lemma_shown_error(ds, n - 1, i);
    }
    let last = "  L"@ + number::dec((ds[n - 1].line + 1) as nat) + ":"@ + number::dec(
        (ds[n - 1].character + 1) as nat,
    ) + ": "@ + ds[n - 1].message + "\n"@;
    text::found_in_either(shown_errors(ds, n - 1), last, p);
}

/// Up to ten errors of a file are all shown, of more the first three; each with its place,
/// counted from 1, and its message.
pub proof fn errors_of_the_file_are_shown(ds: Seq<DiagnosticView>, i: int)
    requires
        0 <= i < ds.len(),
        ds.len() <= 10 || i < 3,
    ensures
        text::has_text(
            file_report(ds),
            "  L"@ + number::dec((ds[i].line + 1) as nat) + ":"@ + number::dec(
                (ds[i].character + 1) as nat,
            ) + ": "@ + ds[i].message,
        ),
{
    let count = ds.len();
    let shown = shown_count(count);
    let head = "[lsp file] "@ + number::dec(count) + (if count <= MAX_FILE_ERRORS_INLINE {
        " error(s)\n"@
    } else {
        " error(s) (showing top "@ + number::dec(TOP_FILE_ERRORS_WHEN_TRUNCATED as nat) + ")\n"@
    });
    let tail = if count > shown {
        "  … and "@ + number::dec((count - shown) as nat) + " more\n"@
    } else {
        Seq::empty()
    };
    let p = "  L"@ + number::dec((ds[i].line + 1) as nat) + ":"@ + number::dec(
        (ds[i].character + 1) as nat,
    ) + ": "@ + ds[i].message;
    lemma_shown_error(ds, shown, i);
    text::found_in_either(head, shown_errors(ds, shown), p + "\n"@);
    text::found_in_either(head + shown_errors(ds, shown), tail, p + "\n"@);
    lemma_newline_dropped(head + shown_errors(ds, shown) + tail, p);
}

/// The report on a file begins with how many errors it has, and tells how many it does not
/// show.
pub proof fn errors_of_the_file_are_counted(ds: Seq<DiagnosticView>)
    ensures
        ds.len() > 0 ==> text::starts_with(
            file_report(ds),
            "[lsp file] "@ + number::dec(ds.len()) + " error(s)"@,
        ),
        ds.len() == 0 ==> file_report(ds) == "[lsp file] 0 errors"@,
        ds.len() > 10 ==> text::has_text(
            file_report(ds),
            "… and "@ + number::dec((ds.len() - 3) as nat) + " more"@,
        ),
{
    if ds.len() > 0 {
        let count = ds.len();
        let shown = shown_count(count);
        let body = shown_errors(ds, shown);
        let top = "[lsp file] "@ + number::dec(count);
        let rest = if count <= MAX_FILE_ERRORS_INLINE {
            " error(s)\n"@
        } else {
            " error(s) (showing top "@ + number::dec(TOP_FILE_ERRORS_WHEN_TRUNCATED as nat)
                + ")\n"@
        };
        let tail = if count > shown {
            "  … and "@ + number::dec((count - shown) as nat) + " more\n"@
        } else {
            Seq::empty()
        };
        let s = top + rest + body + tail;
        let h = top + " error(s)"@;
        lemma_error_word(count);
        assert(rest.take(" error(s)"@.len() as int) =~= " error(s)"@);
        assert(without_newline(s).subrange(0, h.len() as int) =~= h) by {
            assert forall|i: int| 0 <= i < h.len() implies without_newline(s)[i] == h[i] by {
                if i >= top.len() {
                    assert(rest.take(" error(s)"@.len() as int)[i - top.len()] == rest[i
                        - top.len()]);
                }
            }
        }
        if count > 10 {
            let n = (count - 3) as nat;
            let q = "… and "@ + number::dec(n) + " more"@;
            lemma_more_word(n);
            text::found_in_either(top + rest + body, tail, q + "\n"@);
            lemma_newline_dropped(s, q);
        }
    }
}

proof fn lemma_error_word(count: nat)
    ensures
        text::starts_with(" error(s)\n"@, " error(s)"@),
        " error(s)\n"@.len() > " error(s)"@.len(),
        text::starts_with(
            " error(s) (showing top "@ + number::dec(TOP_FILE_ERRORS_WHEN_TRUNCATED as nat)
                + ")\n"@,
            " error(s)"@,
        ),
        (" error(s) (showing top "@ + number::dec(TOP_FILE_ERRORS_WHEN_TRUNCATED as nat)
            + ")\n"@).len() > " error(s)"@.len(),
{
    reveal_strlit(" error(s)\n");
    reveal_strlit(" error(s)");
    reveal_strlit(" error(s) (showing top ");
    let p = " error(s)"@;
    let a = " error(s)\n"@;
    let b = " error(s) (showing top "@ + number::dec(TOP_FILE_ERRORS_WHEN_TRUNCATED as nat)
        + ")\n"@;
    assert(a.subrange(0, p.len() as int) =~= p);
    assert(b.subrange(0, p.len() as int) =~= p);
}

proof fn lemma_more_word(n: nat)
    ensures
        text::has_text(
            "  … and "@ + number::dec(n) + " more\n"@,
            "… and "@ + number::dec(n) + " more"@ + "\n"@,
        ),
{
    reveal_strlit("  … and ");
    reveal_strlit("… and ");
    reveal_strlit(" more\n");
    reveal_strlit(" more");
    reveal_strlit("\n");
    let s = "  … and "@ + number::dec(n) + " more\n"@;
    let p = "… and "@ + number::dec(n) + " more"@ + "\n"@;
    assert(s.subrange(2, 2 + p.len() as int) =~= p);
    assert(text::occurs_at(s, p, 2));
}

/// The errors of the project are those of its diagnostics that are errors.
pub proof fn project_errors_are_the_errors(ds: Seq<DiagnosticView>, d: DiagnosticView)
    ensures
        error_total(ds, ds.len() as int) == validate::errors_of(ds).len(),
        error_total(ds.push(d), ds.len() as int + 1) == error_total(ds, ds.len() as int) + (
        if d.severity == Some(Severity::Error) {
            1int
        } else {
            0int
        }),
{
    lemma_total(ds, ds.len() as int);
    lemma_total_push(ds, d, ds.len() as int);
}

proof fn lemma_total(ds: Seq<DiagnosticView>, n: int)
    ensures
        error_total(ds, n) == validate::errors_among(ds, n).len(),
    decreases n,
{
    if n > 0 {
        lemma_total(ds, n - 1);
    }
}

proof fn lemma_total_push(ds: Seq<DiagnosticView>, d: DiagnosticView, n: int)
    requires
        n <= ds.len(),
    ensures
        error_total(ds.push(d), n) == error_total(ds, n),
    decreases n,
{
    if n > 0 {
        lemma_total_push(ds, d, n - 1);
    }
}

/// The label of a revision begins with what it was recorded with, and an edit that changed
/// lines shows how many came and went.
pub proof fn labels_show_the_change(r: RevisionView)
    ensures
        text::starts_with(label_of(r), r.label),
        r.number > 0 && (r.added > 0 || r.removed > 0) ==> text::ends_with(
            label_of(r),
            " (+"@ + number::dec(r.added as nat) + " -"@ + number::dec(r.removed as nat) + ")"@,
        ),
        r.number == 0 || (r.added == 0 && r.removed == 0) ==> label_of(r) == r.label,
{
    let s = label_of(r);
    assert(s.subrange(0, r.label.len() as int) =~= r.label);
    let p = " (+"@ + number::dec(r.added as nat) + " -"@ + number::dec(r.removed as nat) + ")"@;
    if r.number > 0 && (r.added > 0 || r.removed > 0) {
        assert(s =~= r.label + p);
        assert(s.subrange(s.len() - p.len(), s.len() as int) =~= p);
    }
}

/// The row of a revision holds its number, its label, whether it can be parsed and its errors;
/// the current one is marked, and no other.
pub proof fn rows_tell_the_revision(r: RevisionView, current: usize, width: nat)
    ensures
        ({
            let s = live_row(r, current, width);
            let errors = "  file_errors="@ + number::dec(r.file_errors as nat)
                + "  project_errors="@ + number::dec(r.project_errors as nat);
            &&& text::has_text(s, label_of(r))
            &&& text::has_text(s, "rev_"@ + number::dec(r.number as nat))
            &&& text::has_text(s, errors)
            &&& r.ast_ok ==> text::has_text(s, "  ast=ok"@)
            &&& !r.ast_ok ==> text::has_text(s, "  ast=broken"@)
            &&& r.number == current ==> text::starts_with(s, "* "@) && text::ends_with(
                s,
                "  <- current"@,
            )
            &&& r.number != current ==> text::starts_with(s, "  "@) && text::ends_with(s, errors)
        }),
{
    let is_current = r.number == current;
    let mark = if is_current {
        "* "@
    } else {
        "  "@
    };
    let word = if r.ast_ok {
        "ok"@
    } else {
        "broken"@
    };
    let state = padded(word, 6);
    let errors = "  file_errors="@ + number::dec(r.file_errors as nat) + "  project_errors="@
        + number::dec(r.project_errors as nat);
    let tail = if is_current {
        "  <- current"@
    } else {
        Seq::empty()
    };
    let head = row_head(r, width);
    let s = live_row(r, current, width);
    let ast = "  ast="@ + state;
    assert(s =~= mark + head + ast + errors + tail);
    lemma_row_head(r, width);
    let name = "rev_"@ + number::dec(r.number as nat);
    lemma_five(mark, head, ast, errors, tail);
    text::found_through(s, head, label_of(r));
    text::found_through(s, head, name);
    lemma_state(r.ast_ok);
    text::found_through(s, ast, if r.ast_ok {
        "  ast=ok"@
    } else {
        "  ast=broken"@
    });
    assert(s.subrange(0, mark.len() as int) =~= mark);
    if is_current {
        assert(s.subrange(s.len() - tail.len(), s.len() as int) =~= tail);
    } else {
        assert(s.subrange(s.len() - errors.len(), s.len() as int) =~= errors);
    }
}

proof fn lemma_five(a: Seq<char>, b: Seq<char>, c: Seq<char>, d: Seq<char>, e: Seq<char>)
    ensures
        text::has_text(a + b + c + d + e, b),
        text::has_text(a + b + c + d + e, c),
        text::has_text(a + b + c + d + e, d),
{
    text::found_in_either(a, b, b);
    text::found_in_either(a + b, c, b);
    text::found_in_either(a + b + c, d, b);
    text::found_in_either(a + b + c + d, e, b);
    text::found_in_either(a + b, c, c);
    text::found_in_either(a + b + c, d, c);
    text::found_in_either(a + b + c + d, e, c);
    text::found_in_either(a + b + c, d, d);
    text::found_in_either(a + b + c + d, e, d);
}

proof fn lemma_state(ok: bool)
    ensures
        ok ==> text::has_text("  ast="@ + padded("ok"@, 6), "  ast=ok"@),
        !ok ==> text::has_text("  ast="@ + padded("broken"@, 6), "  ast=broken"@),
{
    reveal_strlit("  ast=");
    reveal_strlit("ok");
    reveal_strlit("broken");
    reveal_strlit("  ast=ok");
    reveal_strlit("  ast=broken");
    let s = "  ast="@ + padded(if ok {
        "ok"@
    } else {
        "broken"@
    }, 6);
    let p = if ok {
        "  ast=ok"@
    } else {
        "  ast=broken"@
    };
    assert(s.subrange(0, p.len() as int) =~= p);
    assert(text::occurs_at(s, p, 0));
}

proof fn lemma_row_head(r: RevisionView, width: nat)
    ensures
        text::has_text(row_head(r, width), label_of(r)),
        text::has_text(row_head(r, width), "rev_"@ + number::dec(r.number as nat)),
{
    let name = "rev_"@ + number::dec(r.number as nat);
    let no = padded(number::dec(r.number as nat), 2);
    let l = padded(label_of(r), width);
    let s = row_head(r, width);
    padding_goes_behind(label_of(r), width);
    padding_goes_behind(number::dec(r.number as nat), 2);
    assert(text::occurs_at(l, label_of(r), 0));
    text::found_in_either("rev_"@ + no + " "@, l, label_of(r));
    assert(s.subrange(0, name.len() as int) =~= name) by {
        assert forall|i: int| 0 <= i < name.len() implies s[i] == name[i] by {
            if i >= "rev_"@.len() {
                assert(no.subrange(0, number::dec(r.number as nat).len() as int)[i
                    - "rev_"@.len()] == no[i - "rev_"@.len()]);
            }
        }
    }
    assert(text::occurs_at(s, name, 0));
}

/// The line of an undone revision holds its number and label, that it was undone, and how the
/// file was: broken, with errors, or without.
pub proof fn undone_rows_tell_the_outcome(r: RevisionView, width: nat)
    ensures
        ({
            let s = tombstone_line(r, width);
            &&& text::has_text(s, label_of(r))
            &&& text::has_text(s, "rev_"@ + number::dec(r.number as nat))
            &&& text::ends_with(s, "  [reverted, "@ + outcome(r) + "]"@)
            &&& r.ast_ok && r.file_errors == 0 ==> outcome(r) == "no errors"@
            &&& r.ast_ok && r.file_errors > 0 ==> text::ends_with(
                outcome(r),
                number::dec(r.file_errors as nat),
            )
            &&& !r.ast_ok ==> text::starts_with(outcome(r), "ast=broken"@)
            &&& !r.ast_ok ==> (r.ast_error matches Some(e) ==> text::ends_with(outcome(r), e))
        }),
{
    let head = row_head(r, width);
    let end = "  [reverted, "@ + outcome(r) + "]"@;
    let s = tombstone_line(r, width);
    let name = "rev_"@ + number::dec(r.number as nat);
    assert(s =~= "  "@ + head + end);
    lemma_row_head(r, width);
    text::found_between("  "@, head, end);
    text::found_through(s, head, label_of(r));
    text::found_through(s, head, name);
    assert(s.subrange(s.len() - end.len(), s.len() as int) =~= end);
    let o = outcome(r);
    if !r.ast_ok {
        lemma_broken_word();
        match r.ast_error {
            Some(e) => {
                assert(o.subrange(o.len() - e.len(), o.len() as int) =~= e);
                assert(o.subrange(0, "ast=broken"@.len() as int) =~= "ast=broken"@) by {
                    assert("ast=broken at "@.subrange(0, "ast=broken"@.len() as int)
                        == "ast=broken"@);
                    assert forall|i: int| 0 <= i < "ast=broken"@.len() implies o[i]
                        == "ast=broken"@[i] by {
                        assert("ast=broken at "@.subrange(0, "ast=broken"@.len() as int)[i]
                            == "ast=broken at "@[i]);
                    }
                }
            },
            None => {
                assert(o.subrange(0, "ast=broken"@.len() as int) =~= "ast=broken"@);
            },
        }
    } else if r.file_errors > 0 {
        let d = number::dec(r.file_errors as nat);
        assert(o.subrange(o.len() - d.len(), o.len() as int) =~= d);
    }
}

proof fn lemma_broken_word()
    ensures
        "ast=broken at "@.len() > "ast=broken"@.len(),
        "ast=broken at "@.subrange(0, "ast=broken"@.len() as int) == "ast=broken"@,
{
    reveal_strlit("ast=broken at ");
    reveal_strlit("ast=broken");
    assert("ast=broken at "@.subrange(0, "ast=broken"@.len() as int) =~= "ast=broken"@);
}

/// A preview is the start of the lines of a text, and what is left out is counted: in lines,
/// or, where its bytes were too many, in bytes.
pub proof fn preview_is_the_start(s: Seq<char>, max_lines: nat, max_bytes: nat)
    ensures
        ({
            let ls = text::lines(s);
            let n = if ls.len() <= max_lines {
                ls.len()
            } else {
                max_lines
            };
            let (shown, lines, bytes) = preview(s, max_lines, max_bytes);
            &&& text::starts_with(text::join(ls.take(n as int), "\n"@), shown)
            &&& lines > 0 ==> ls.len() == max_lines + lines && bytes == 0 && shown == text::join(
                ls.take(max_lines as int),
                "\n"@,
            )
            &&& bytes > 0 ==> bytes::utf8_len(shown) + bytes == bytes::utf8_len(s)
        }),
{
    let ls = text::lines(s);
    let n = if ls.len() <= max_lines {
        ls.len()
    } else {
        max_lines
    };
    let head = text::join(ls.take(n as int), "\n"@);
    bytes::byte_prefix_is_the_longest(head, max_bytes, 0);
    let shown = preview(s, max_lines, max_bytes).0;
    assert(head.subrange(0, shown.len() as int) =~= shown);
}

proof fn lemma_indented(ls: Seq<Seq<char>>, indent: Seq<char>, n: int, i: int)
    requires
        0 <= i < n <= ls.len(),
    ensures
        text::has_text(indented(ls, indent, n), indent + ls[i]),
    decreases n,
{
    if i < n - 1 {
        lemma_indented(ls, indent, n - 1, i);
    }
    text::found_in_either(indented(ls, indent, n - 1), indent + ls[n - 1], indent + ls[i]);
}

/// The text that an undone edit put in is shown under its row, up to five lines and three
/// hundred bytes.
pub proof fn undone_texts_are_shown(r: RevisionView, width: nat, i: int)
    requires
        r.operation != "write_file"@,
        r.payload is Some,
        0 <= i < text::lines(preview(r.payload->0, 5, 300).0).len(),
    ensures
        text::has_text(
            tombstone_block(r, width),
            "\n           "@ + text::lines(preview(r.payload->0, 5, 300).0)[i],
        ),
        text::starts_with(tombstone_block(r, width), tombstone_line(r, width)),
{
    let cut = preview(r.payload->0, 5, 300);
    let ls = text::lines(cut.0);
    let body = indented(ls, "\n           "@, ls.len() as int);
    let p = "\n           "@ + ls[i];
    let head = "\n         "@ + payload_key(r.operation) + ": |"@;
    lemma_indented(ls, "\n           "@, ls.len() as int, i);
    text::found_in_either(head, body, p);
    text::found_in_either(head + body, more_hint(cut.1, cut.2), p);
    text::found_in_either(tombstone_line(r, width), payload_block(r), p);
    let s = tombstone_block(r, width);
    let t = tombstone_line(r, width);
    assert(s.subrange(0, t.len() as int) =~= t);
}

proof fn lemma_live_row(live: Seq<RevisionView>, n: int, i: int)
    requires
        0 <= i < n <= live.len(),
    ensures
        text::has_text(
            live_rows(live, n),
            live_row(live[i], last_number(live), label_width(live, live.len() as int)) + "\n"@,
        ),
    decreases n,
{
    let w = label_width(live, live.len() as int);
    let p = live_row(live[i], last_number(live), w) + "\n"@;
    let last = live_row(live[n - 1], last_number(live), w);
    if i < n - 1 {
        lemma_live_row(live, n - 1, i);
    }
    assert(live_rows(live, n) =~= live_rows(live, n - 1) + (last + "\n"@));
    text::found_in_either(live_rows(live, n - 1), last + "\n"@, p);
}

proof fn lemma_tomb_row(tombs: Seq<RevisionView>, width: nat, n: int, i: int)
    requires
        0 <= i < n <= tombs.len(),
    ensures
        i < tombs.len() - 3 ==> text::has_text(
            tomb_rows(tombs, width, n),
            tombstone_line(tombs[i], width) + "\n"@,
        ),
        i >= tombs.len() - 3 ==> text::has_text(
            tomb_rows(tombs, width, n),
            tombstone_block(tombs[i], width) + "\n"@,
        ),
    decreases n,
{
    let own = if i < tombs.len() - 3 {
        tombstone_line(tombs[i], width)
    } else {
        tombstone_block(tombs[i], width)
    };
    let last = if n - 1 < tombs.len() - 3 {
        tombstone_line(tombs[n - 1], width)
    } else {
        tombstone_block(tombs[n - 1], width)
    };
    if i < n - 1 {
        lemma_tomb_row(tombs, width, n - 1, i);
    }
    assert(tomb_rows(tombs, width, n) =~= tomb_rows(tombs, width, n - 1) + (last + "\n"@));
    text::found_in_either(tomb_rows(tombs, width, n - 1), last + "\n"@, own + "\n"@);
}

/// The table of a file has a row for each of its live revisions, the last of which is the
/// current one, and for each that was undone; the last three of those with their texts.
pub proof fn every_revision_has_a_row(path: Seq<char>, revs: Seq<RevisionView>, i: int)
    ensures
        ({
            let live = live_of(revs);
            let tombs = tombs_of(revs);
            let width = label_width(live, live.len() as int);
            let s = revision_table(path, revs);
            &&& revs.len() == 0 ==> s.len() == 0
            &&& revs.len() > 0 && 0 <= i < live.len() ==> text::has_text(
                s,
                live_row(live[i], live.last().number, width),
            )
            &&& revs.len() > 0 && 0 <= i < tombs.len() - 3 ==> text::has_text(
                s,
                tombstone_line(tombs[i], width),
            )
            &&& revs.len() > 0 && 0 <= i < tombs.len() && i >= tombs.len() - 3 ==> text::has_text(
                s,
                tombstone_block(tombs[i], width),
            )
        }),
{
    let live = live_of(revs);
    let tombs = tombs_of(revs);
    let width = label_width(live, live.len() as int);
    if revs.len() > 0 {
        let head = "[revisions] "@ + path + "\n"@;
        let a = live_rows(live, live.len() as int);
        let b = tomb_rows(tombs, width, tombs.len() as int);
        if 0 <= i < live.len() {
            let p = live_row(live[i], live.last().number, width);
            lemma_live_row(live, live.len() as int, i);
            text::found_in_either(head, a, p + "\n"@);
            text::found_in_either(head + a, b, p + "\n"@);
            lemma_newline_dropped(head + a + b, p);
        }
        if 0 <= i < tombs.len() {
            let p = if i < tombs.len() - 3 {
                tombstone_line(tombs[i], width)
            } else {
                tombstone_block(tombs[i], width)
            };
            lemma_tomb_row(tombs, width, tombs.len() as int, i);
            text::found_in_either(head + a, b, p + "\n"@);
            lemma_newline_dropped(head + a + b, p);
        }
    }
}

/// What is told behind an edit holds the verdict on its syntax, the report on the errors of
/// the file, the errors of the project with how many came or went, and the table.
pub proof fn feedback_tells_the_state(
    path: Seq<char>,
    checked: Result<(), Seq<char>>,
    file_diags: Seq<DiagnosticView>,
    project_errors: usize,
    baseline: usize,
    revs: Seq<RevisionView>,
)
    ensures
        ({
            let r = feedback_of(path, checked, file_diags, project_errors, baseline, revs);
            &&& r.ast_ok <==> checked is Ok
            &&& r.project_errors == project_errors
            &&& validate::errors_of(file_diags).len() <= usize::MAX ==> r.file_errors
                == validate::errors_of(file_diags).len()
            &&& checked is Ok ==> r.ast_error is None && text::has_text(r.text, "[ast] ok"@)
            &&& checked matches Err(e) ==> text::has_text(r.text, "[ast] broken: "@ + e) && (
            r.ast_error matches Some(k) && text::ends_with(k, e))
            &&& text::has_text(r.text, file_report(validate::errors_of(file_diags)))
            &&& project_errors >= baseline ==> text::has_text(
                r.text,
                number::dec(project_errors as nat) + " error(s) (+"@ + number::dec(
                    (project_errors - baseline) as nat,
                ) + " from baseline)"@,
            )
            &&& project_errors < baseline ==> text::has_text(
                r.text,
                number::dec(project_errors as nat) + " error(s) (-"@ + number::dec(
                    (baseline - project_errors) as nat,
                ) + " from baseline)"@,
            )
            &&& text::has_text(r.text, revision_table(path, revs))
        }),
{
    let r = feedback_of(path, checked, file_diags, project_errors, baseline, revs);
    let report = file_report(validate::errors_of(file_diags));
    let table = revision_table(path, revs);
    let no = number::dec(project_errors as nat);
    let delta = delta_text(project_errors, baseline);
    lemma_feedback_parts(
        ast_line(checked),
        report,
        "\n[lsp project] "@,
        no,
        " error(s) ("@,
        delta,
        " from baseline)"@,
        table,
    );
    lemma_signs(project_errors, baseline);
    match checked {
        Err(e) => {
            let k = kept_error(e);
            assert(k.subrange(k.len() - e.len(), k.len() as int) =~= e);
        },
        Ok(_) => {},
    }
}

proof fn lemma_feedback_parts(
    line: Seq<char>,
    report: Seq<char>,
    label: Seq<char>,
    no: Seq<char>,
    word: Seq<char>,
    delta: Seq<char>,
    close: Seq<char>,
    table: Seq<char>,
)
    ensures
        ({
            let s = "\n"@ + line + "\n"@ + report + label + no + word + delta + close + (
            if table.len() > 0 {
                "\n"@ + table
            } else {
                Seq::empty()
            });
            &&& text::has_text(s, line)
            &&& text::has_text(s, report)
            &&& text::has_text(s, no + word + delta + close)
            &&& text::has_text(s, table)
        }),
{
    let a = "\n"@;
    let c = a + report;
    let count = no + word + delta + close;
    let d = label + count;
    let end = if table.len() > 0 {
        "\n"@ + table
    } else {
        Seq::empty()
    };
    let s = a + line + a + report + label + no + word + delta + close + end;
    assert(s =~= a + line + c + d + end);
    lemma_five(a, line, c, d, end);
    text::found_in_either(a, report, report);
    text::found_through(s, c, report);
    text::found_in_either(label, count, count);
    text::found_through(s, d, count);
    if table.len() > 0 {
        text::found_in_either("\n"@, table, table);
        text::found_in_either(a + line + c + d, end, table);
    } else {
        assert(s.subrange(0, 0) =~= table);
        assert(text::occurs_at(s, table, 0));
    }
}

proof fn lemma_signs(now: usize, before: usize)
    ensures
        number::dec(now as nat) + " error(s) ("@ + delta_text(now, before) + " from baseline)"@
            == number::dec(now as nat) + (if now >= before {
            " error(s) (+"@
        } else {
            " error(s) (-"@
        }) + number::dec(
            if now >= before {
                (now - before) as nat
            } else {
                (before - now) as nat
            },
        ) + " from baseline)"@,
{
    assert(" error(s) (+"@ =~= " error(s) ("@ + "+"@ && " error(s) (-"@ =~= " error(s) ("@ + "-"@)
        by {
        reveal_strlit(" error(s) (+");
        reveal_strlit(" error(s) (-");
        reveal_strlit(" error(s) (");
        reveal_strlit("+");
        reveal_strlit("-");
    }
    let sign = if now >= before {
        "+"@
    } else {
        "-"@
    };
    let d = number::dec(
        if now >= before {
            (now - before) as nat
        } else {
            (before - now) as nat
        },
    );
    let no = number::dec(now as nat);
    assert(no + " error(s) ("@ + (sign + d) + " from baseline)"@ =~= no + (" error(s) ("@ + sign)
        + d + " from baseline)"@);
}

/// A file that was written anew is told of with its lines, at least one, and its bytes.
pub proof fn rewrites_are_summed_up(r: RevisionView)
    requires
        r.operation == "write_file"@,
    ensures
        text::has_text(
            payload_block(r),
            number::dec(
                if text::lines(r.content).len() > 1 {
                    text::lines(r.content).len()
                } else {
                    1
                },
            ) + " line(s), "@ + number::dec(bytes::utf8_len(r.content)) + " bytes"@,
        ),
{
    let a = "\n         (full rewrite, "@;
    let p = number::dec(at_least_one(text::lines(r.content).len())) + " line(s), "@ + number::dec(
        bytes::utf8_len(r.content),
    ) + " bytes"@;
    assert(" bytes)"@ =~= " bytes"@ + ")"@) by {
        reveal_strlit(" bytes)");
        reveal_strlit(" bytes");
        reveal_strlit(")");
    }
    assert(payload_block(r) =~= a + p + ")"@);
    text::found_between(a, p, ")"@);
}

/// An error that begins with its place is kept with an `L` before it, another as it is.
pub proof fn kept_errors_name_their_line(e: Seq<char>)
    ensures
        e.len() > 0 && number::is_digit(e[0]) ==> kept_error(e) == "L"@ + e,
        !(e.len() > 0 && number::is_digit(e[0])) ==> kept_error(e) == e,
{
}

} // verus!
