//! Looking at one revision of a file.
use vstd::prelude::*;

use super::feedback;
use super::revisions;
use super::revisions::{Revision, RevisionStore, RevisionView};
use crate::args;
use crate::args::{number_required, read_field, text_required, ArgValue, ArgView};
use crate::bytes;
use crate::bytes::{prefix_within, text_bytes};
use crate::number;
use crate::number::{dec_text, dec_text_u128};
use crate::text;
use crate::text::{count_lines, from_chars, joined, same_text, split_lines, to_chars};
use crate::tool;
use crate::tool::{ToolResult, ToolView};

verus! {

/// The most bytes that are shown of what an edit wrote.
pub const SHOW_REV_PAYLOAD_CAP: usize = 2048;

/// What a call asks for: a revision of a file.
#[derive(Debug)]
pub struct ShowRequest {
    pub path: String,
    pub rev: usize,
}

/// A request over texts.
pub struct ShowView {
    pub path: Seq<char>,
    pub rev: usize,
}

impl DeepView for ShowRequest {
    type V = ShowView;

    open spec fn deep_view(&self) -> ShowView {
        ShowView { path: self.path@, rev: self.rev }
    }
}

/// The request that two arguments make.
pub open spec fn show_request(path: ArgView, rev: ArgView) -> Result<ShowView, Seq<char>> {
    match args::required_text(path, "path"@) {
        Err(e) => Err(e),
        Ok(p) => match args::required_number(rev, "rev"@) {
            Err(e) => Err(e),
            Ok(n) => Ok(ShowView { path: p, rev: n as usize }),
        },
    }
}

/// Makes a request of two arguments.
pub fn make_show_request(path: ArgValue, rev: ArgValue) -> (r: Result<ShowRequest, String>)
    ensures
        text::result_view(r) == show_request(path.deep_view(), rev.deep_view()),
{
    match text_required(path, "path") {
        Err(e) => Err(e),
        Ok(p) => match number_required(rev, "rev") {
            Err(e) => Err(e),
            Ok(n) => Ok(ShowRequest { path: p, rev: n as usize }),
        },
    }
}

/// Reads a request from the arguments of a call.
pub fn read_show_request(args: &serde_json::Value) -> (r: Result<ShowRequest, String>)
    ensures
        text::result_view(r) == show_request(
            args::field(*args, "path"@),
            args::field(*args, "rev"@),
        ),
{
    make_show_request(read_field(args, "path"), read_field(args, "rev"))
}

/// The first `cap` bytes of a text, up to the last whole character, and how many
/// bytes that leaves out.
pub open spec fn capped(s: Seq<char>, cap: nat) -> (Seq<char>, nat) {
    if bytes::utf8_len(s) <= cap {
        (s, 0)
    } else {
        (
            bytes::byte_prefix(s, cap),
            (bytes::utf8_len(s) - bytes::utf8_len(bytes::byte_prefix(s, cap))) as nat,
        )
    }
}

/// Cuts a text to `cap` bytes, and counts the bytes that this leaves out.
pub fn cap_for_display(s: &str, cap: usize) -> (r: (String, u128))
    ensures
        r.0@ == capped(s@, cap as nat).0,
        r.1 == capped(s@, cap as nat).1,
{
    let all: u128 = text_bytes(s);
    if all <= cap as u128 {
        return (s.to_owned(), 0);
    }
    let cut = prefix_within(s, cap);
    proof {
        bytes::lemma_chars_within(s@, cap as nat, s@.len() as int);
    }
    let kept: u128 = text_bytes(&cut);
    (cut, all - kept)
}

/// The line that tells where an edit was made.
pub open spec fn place_line(r: RevisionView) -> Seq<char> {
    if r.operation == "replace_range"@ && r.range is Some {
        "  range: L"@ + number::dec((r.range->0).0 as nat) + "-"@ + number::dec(
            (r.range->0).1 as nat,
        ) + "\n"@
    } else if r.operation == "initial"@ {
        "  (pristine baseline — no tool call produced this)\n"@
    } else {
        "  label: "@ + r.label + "\n"@
    }
}

fn render_place(r: &Revision) -> (out: String)
    ensures
        out@ == place_line(r.deep_view()),
{
    if same_text(&r.operation, "replace_range") {
        match r.range {
            Some((start, end)) => {
                return "  range: L".to_owned().concat(&dec_text(start)).concat("-").concat(
                    &dec_text(end),
                ).concat("\n");
            },
            None => {},
        }
    }
    if same_text(&r.operation, "initial") {
        proof {
            reveal_strlit("initial");
            reveal_strlit("replace_range");
        }
        return "  (pristine baseline — no tool call produced this)\n".to_owned();
    }
    "  label: ".to_owned().concat(&r.label).concat("\n")
}

/// The lines that tell what came of an edit.
pub open spec fn outcome_lines(r: RevisionView) -> Seq<char> {
    (if r.added != 0 || r.removed != 0 {
        "  delta: +"@ + number::dec(r.added as nat) + " -"@ + number::dec(r.removed as nat)
            + "\n"@
    } else {
        Seq::empty()
    }) + (if r.ast_ok {
        "  ast: ok\n"@
    } else {
        match r.ast_error {
            Some(e) => "  ast: broken at "@ + e + "\n"@,
            None => "  ast: broken\n"@,
        }
    }) + "  file_errors: "@ + number::dec(r.file_errors as nat) + "   project_errors: "@
        + number::dec(r.project_errors as nat) + "\n"@
}

fn render_outcome(r: &Revision) -> (out: String)
    ensures
        out@ == outcome_lines(r.deep_view()),
{
    let delta = if r.added != 0 || r.removed != 0 {
        "  delta: +".to_owned().concat(&dec_text(r.added)).concat(" -").concat(
            &dec_text(r.removed),
        ).concat("\n")
    } else {
        String::new()
    };
    let ast = if r.ast_ok {
        "  ast: ok\n".to_owned()
    } else {
        match &r.ast_error {
            Some(e) => "  ast: broken at ".to_owned().concat(e).concat("\n"),
            None => "  ast: broken\n".to_owned(),
        }
    };
    delta.concat(&ast).concat("  file_errors: ").concat(&dec_text(r.file_errors)).concat(
        "   project_errors: ",
    ).concat(&dec_text(r.project_errors)).concat("\n")
}

/// The first `n` lines, each behind four spaces.
pub open spec fn quoted_lines(ls: Seq<Seq<char>>, n: int) -> Seq<char>
    decreases n,
{
    if n <= 0 {
        Seq::empty()
    } else {
        quoted_lines(ls, n - 1) + ("    "@ + ls[n - 1] + "\n"@)
    }
}

fn quote_lines(lines: &Vec<String>) -> (r: String)
    ensures
        r@ == quoted_lines(lines.deep_view(), lines@.len() as int),
{
    let ghost lv = lines.deep_view();
    let mut out = String::new();
    let mut i: usize = 0;
    while i < lines.len()
        invariant
            i <= lines@.len() == lv.len(),
            lv == lines.deep_view(),
            out@ == quoted_lines(lv, i as int),
        decreases lines.len() - i,
    {
        out.append(&"    ".to_owned().concat(&lines[i]).concat("\n"));
        i += 1;
    }
    out
}

/// The lines that show what an edit wrote.
pub open spec fn payload_lines(r: RevisionView) -> Seq<char> {
    if r.operation == "write_file"@ {
        "  (full rewrite, "@ + number::dec(
            feedback::at_least_one(text::lines(r.content).len()),
        ) + " line(s), "@ + number::dec(bytes::utf8_len(r.content))
            + " bytes — use file(action='read') to see current content)\n"@
    } else {
        match r.payload {
            None => Seq::empty(),
            Some(p) => {
                let cut = capped(p, SHOW_REV_PAYLOAD_CAP as nat);
                "  "@ + feedback::payload_key(r.operation) + ": |\n"@ + quoted_lines(
                    text::lines(cut.0),
                    text::lines(cut.0).len() as int,
                ) + (if cut.1 > 0 {
                    "  … (truncated — "@ + number::dec(cut.1) + " more byte(s) not shown)\n"@
                } else {
                    Seq::empty()
                })
            },
        }
    }
}

fn render_payload(r: &Revision) -> (out: String)
    ensures
        out@ == payload_lines(r.deep_view()),
{
    if same_text(&r.operation, "write_file") {
        let lines: usize = count_lines(&r.content);
        let shown: usize = if lines == 0 {
            1
        } else {
            lines
        };
        return "  (full rewrite, ".to_owned().concat(&dec_text(shown)).concat(
            " line(s), ",
        ).concat(&dec_text_u128(text_bytes(&r.content))).concat(
            " bytes — use file(action='read') to see current content)\n",
        );
    }
    match &r.payload {
        None => String::new(),
        Some(p) => {
            let key = if same_text(&r.operation, "insert_at") {
                "text"
            } else {
                "new_text"
            };
            let (cut, more) = cap_for_display(p, SHOW_REV_PAYLOAD_CAP);
            let hint = if more > 0 {
                "  … (truncated — ".to_owned().concat(&dec_text_u128(more)).concat(
                    " more byte(s) not shown)\n",
                )
            } else {
                String::new()
            };
            let lines = split_lines(&cut);
            proof {
                assert(lines@.len() == lines.deep_view().len());
            }
            "  ".to_owned().concat(key).concat(": |\n").concat(&quote_lines(&lines)).concat(&hint)
        },
    }
}

/// One revision of a file.
pub open spec fn revision_text(path: Seq<char>, r: RevisionView) -> Seq<char> {
    feedback::without_newline(
        "rev_"@ + number::dec(r.number as nat) + " "@ + r.operation + " "@ + path + (
        if r.reverted {
            " (reverted — tombstone)"@
        } else {
            Seq::empty()
        }) + "\n"@ + place_line(r) + outcome_lines(r) + payload_lines(r),
    )
}

/// Renders one revision of a file.
pub fn render(path: &str, r: &Revision) -> (out: String)
    ensures
        out@ == revision_text(path@, r.deep_view()),
{
    let tag = if r.reverted {
        " (reverted — tombstone)".to_owned()
    } else {
        String::new()
    };
    let out = "rev_".to_owned().concat(&dec_text(r.number)).concat(" ").concat(
        &r.operation,
    ).concat(" ").concat(path).concat(&tag).concat("\n").concat(&render_place(r)).concat(
        &render_outcome(r),
    ).concat(&render_payload(r));
    let v = to_chars(&out);
    let n: usize = v.len();
    if n > 0 && v[n - 1] == '\n' {
        proof {
            assert(v@.subrange(0, n - 1) =~= out@.drop_last());
        }
        return from_chars(&v, 0, n - 1);
    }
    out
}

/// A revision in a list.
pub open spec fn listed(r: RevisionView) -> Seq<char> {
    "rev_"@ + number::dec(r.number as nat) + (if r.reverted {
        " (reverted)"@
    } else {
        Seq::empty()
    })
}

/// Revisions in a list.
pub open spec fn listing(revs: Seq<RevisionView>) -> Seq<Seq<char>> {
    Seq::new(revs.len(), |i: int| listed(revs[i]))
}

fn list_revisions(revs: &Vec<Revision>) -> (r: Vec<String>)
    ensures
        r.deep_view() == listing(revs.deep_view()),
{
    let ghost rv = revs.deep_view();
    let ghost wanted = listing(rv);
    let mut out: Vec<String> = Vec::new();
    let mut i: usize = 0;
    proof {
        assert(out.deep_view() =~= wanted.take(0));
    }
    while i < revs.len()
        invariant
            i <= revs@.len() == rv.len(),
            rv == revs.deep_view(),
            wanted == listing(rv),
            out.deep_view() == wanted.take(i as int),
        decreases revs.len() - i,
    {
        let ghost o = out.deep_view();
        proof {
            assert(rv[i as int] == revs@[i as int].deep_view());
        }
        let tag = if revs[i].reverted {
            " (reverted)".to_owned()
        } else {
            String::new()
        };
        out.push("rev_".to_owned().concat(&dec_text(revs[i].number)).concat(&tag));
        proof {
            assert(out.deep_view() =~= o.push(wanted[i as int]));
            assert(wanted.take(i + 1) =~= o.push(wanted[i as int]));
        }
        i += 1;
    }
    proof {
        assert(wanted.take(i as int) =~= wanted);
    }
    out
}

/// What is answered: the revision, or which revisions there are.
pub open spec fn show_report(revs: Seq<RevisionView>, req: ShowView) -> ToolView {
    match revisions::revision_at(revs, req.rev) {
        Some(r) => tool::ok_view(revision_text(req.path, r)),
        None => if revs.len() == 0 {
            tool::err_view("show_rev: no revisions recorded for "@ + req.path)
        } else {
            tool::err_view(
                "show_rev: rev_"@ + number::dec(req.rev as nat) + " not found for "@ + req.path
                    + " (available: "@ + text::join(listing(revs), ", "@) + ")"@,
            )
        },
    }
}

/// Shows one revision of a file.
pub fn show_revision(store: &RevisionStore, req: &ShowRequest) -> (r: ToolResult)
    requires
        store.wf(),
    ensures
        r.deep_view() == show_report(store.history(req.path@), req.deep_view()),
{
    match store.get(&req.path, req.rev) {
        Some(found) => ToolResult::ok(render(&req.path, &found)),
        None => {
            let all = store.list(&req.path);
            proof {
                assert(all@.len() == all.deep_view().len());
            }
            if all.len() == 0 {
                return ToolResult::err(
                    "show_rev: no revisions recorded for ".to_owned().concat(&req.path),
                );
            }
            ToolResult::err(
                "show_rev: rev_".to_owned().concat(&dec_text(req.rev)).concat(
                    " not found for ",
                ).concat(&req.path).concat(" (available: ").concat(
                    &joined(&list_revisions(&all), ", "),
                ).concat(")"),
            )
        },
    }
}

/// What is shown of a payload takes at most `cap` bytes, is how the payload
/// begins, and with the bytes left out makes up the whole.
pub proof fn shown_payload_fits(s: Seq<char>, cap: nat)
    ensures
        bytes::utf8_len(capped(s, cap).0) <= cap,
        text::starts_with(s, capped(s, cap).0),
        bytes::utf8_len(capped(s, cap).0) + capped(s, cap).1 == bytes::utf8_len(s),
{
    let n = s.len() as int;
    bytes::lemma_chars_within(s, cap, n);
    bytes::lemma_utf8_grows(s, bytes::chars_within(s, cap, n), n);
    assert(s.take(n) =~= s);
    let head = capped(s, cap).0;
    assert(s.subrange(0, head.len() as int) =~= head);
}

/// A request needs a path and a number, and holds them.
pub proof fn show_request_holds_its_arguments(path: ArgView, rev: ArgView)
    ensures
        show_request(path, rev) is Ok <==> path is Text && (rev matches ArgView::Number {
            unsigned,
            ..
        } && unsigned is Some),
        show_request(path, rev) matches Ok(r) ==> path == ArgView::Text(r.path) && (rev matches
            ArgView::Number { unsigned: Some(n), .. } && (n <= usize::MAX ==> r.rev == n)),
{
}

/// A revision is shown exactly where it was recorded, live or undone; else the answer is a
/// refusal that names the file and lists what was recorded.
pub proof fn recorded_revisions_are_shown(revs: Seq<RevisionView>, req: ShowView, k: int)
    requires
        0 <= k < revs.len(),
        revisions::is_history(revs),
    ensures
        req.rev == revs[k].number ==> show_report(revs, req) == tool::ok_view(
            revision_text(req.path, revs[k]),
        ),
        (forall|j: int| 0 <= j < revs.len() ==> (#[trigger] revs[j]).number != req.rev) ==> {
            &&& !show_report(revs, req).success
            &&& text::has_text(show_report(revs, req).content, req.path)
            &&& text::has_text(
                show_report(revs, req).content,
                "rev_"@ + number::dec(revs[k].number as nat),
            )
            &&& revs[k].reverted ==> text::has_text(
                show_report(revs, req).content,
                "rev_"@ + number::dec(revs[k].number as nat) + " (reverted)"@,
            )
        },
{
    revisions::live_revisions_read_back(revs, k, req.path);
    if forall|j: int| 0 <= j < revs.len() ==> (#[trigger] revs[j]).number != req.rev {
        revisions::unknown_revisions_are_refused(true, revs, req.path, req.rev);
        let head = "show_rev: rev_"@ + number::dec(req.rev as nat) + " not found for "@;
        let mid = " (available: "@;
        let names = text::join(listing(revs), ", "@);
        let p = listed(revs[k]);
        text::parts_are_found(listing(revs), ", "@, k);
        text::found_in_either(head, req.path, req.path);
        text::found_in_either(head + req.path, mid, req.path);
        text::found_in_either(head + req.path + mid, names, req.path);
        text::found_in_either(head + req.path + mid + names, ")"@, req.path);
        text::found_in_either(head + req.path + mid, names, p);
        text::found_in_either(head + req.path + mid + names, ")"@, p);
        let s = show_report(revs, req).content;
        let q = "rev_"@ + number::dec(revs[k].number as nat);
        assert(p.subrange(0, q.len() as int) =~= q);
        assert(text::occurs_at(p, q, 0));
        text::found_through(s, p, q);
    }
}

/// Of a file without revisions the answer is a refusal that names it.
pub proof fn unknown_files_are_refused(req: ShowView)
    ensures
        !show_report(Seq::empty(), req).success,
        text::has_text(show_report(Seq::empty(), req).content, req.path),
{
    text::found_in_either("show_rev: no revisions recorded for "@, req.path, req.path);
}

proof fn lemma_quoted(ls: Seq<Seq<char>>, n: int, i: int)
    requires
        0 <= i < n <= ls.len(),
    ensures
        text::has_text(quoted_lines(ls, n), "    "@ + ls[i] + "\n"@),
    decreases n,
{
    if i < n - 1 {
        lemma_quoted(ls, n - 1, i);
    }
    text::found_in_either(
        quoted_lines(ls, n - 1),
        "    "@ + ls[n - 1] + "\n"@,
        "    "@ + ls[i] + "\n"@,
    );
}

/// The text of a revision begins with its number, its operation and the file, and tells
/// whether it was undone.
pub proof fn shown_revision_is_named(path: Seq<char>, r: RevisionView)
    ensures
        ({
            let s = revision_text(path, r);
            let h = "rev_"@ + number::dec(r.number as nat) + " "@ + r.operation + " "@ + path;
            &&& text::starts_with(s, h)
            &&& r.reverted ==> text::starts_with(s, h + " (reverted — tombstone)"@)
            &&& !r.reverted ==> text::starts_with(s, h + "\n"@)
        }),
{
    let h = "rev_"@ + number::dec(r.number as nat) + " "@ + r.operation + " "@ + path;
    let mark = if r.reverted {
        " (reverted — tombstone)"@
    } else {
        Seq::empty()
    };
    let body = place_line(r) + outcome_lines(r) + payload_lines(r);
    let s = h + mark + "\n"@ + place_line(r) + outcome_lines(r) + payload_lines(r);
    assert(s =~= h + mark + "\n"@ + body);
    reveal_strlit("\n");
    reveal_strlit("  file_errors: ");
    assert(outcome_lines(r).len() > 1);
    let w = feedback::without_newline(s);
    assert(w.subrange(0, h.len() as int) =~= h);
    if r.reverted {
        let p = h + " (reverted — tombstone)"@;
        assert(w.subrange(0, p.len() as int) =~= p);
    } else {
        let p = h + "\n"@;
        assert(w.subrange(0, p.len() as int) =~= p);
    }
}

/// The text of a revision tells where the edit was, how many lines came and went, whether the
/// file can be parsed, and its errors.
pub proof fn shown_revision_tells_the_outcome(path: Seq<char>, r: RevisionView)
    ensures
        ({
            let s = revision_text(path, r);
            &&& r.operation == "replace_range"@ ==> (r.range matches Some((a, b)) ==> text::has_text(
                s,
                "  range: L"@ + number::dec(a as nat) + "-"@ + number::dec(b as nat),
            ))
            &&& r.operation != "initial"@ && !(r.operation == "replace_range"@ && r.range is Some)
                ==> text::has_text(s, "  label: "@ + r.label)
            &&& r.added > 0 || r.removed > 0 ==> text::has_text(
                s,
                "  delta: +"@ + number::dec(r.added as nat) + " -"@ + number::dec(r.removed as nat),
            )
            &&& r.ast_ok ==> text::has_text(s, "  ast: ok"@)
            &&& !r.ast_ok ==> (r.ast_error matches Some(e) ==> text::has_text(
                s,
                "  ast: broken at "@ + e,
            ))
            &&& text::has_text(
                s,
                "  file_errors: "@ + number::dec(r.file_errors as nat) + "   project_errors: "@
                    + number::dec(r.project_errors as nat),
            )
        }),
{
    let place = place_line(r);
    let payload = payload_lines(r);
    let head = revision_head(path, r);
    lemma_outcome(r);
    assert(revision_text(path, r) == feedback::without_newline(
        head + place + outcome_lines(r) + payload,
    ));
    let range = "  range: L"@ + number::dec((r.range->0).0 as nat) + "-"@ + number::dec(
        (r.range->0).1 as nat,
    );
    if r.operation == "replace_range"@ && r.range is Some {
        lemma_shown(head, place, outcome_lines(r), payload, range, true);
    } else if r.operation != "initial"@ {
        lemma_shown(head, place, outcome_lines(r), payload, "  label: "@ + r.label, true);
    }
    if r.added > 0 || r.removed > 0 {
        lemma_shown(
            head,
            place,
            outcome_lines(r),
            payload,
            "  delta: +"@ + number::dec(r.added as nat) + " -"@ + number::dec(r.removed as nat),
            false,
        );
    }
    if r.ast_ok {
        lemma_shown(head, place, outcome_lines(r), payload, "  ast: ok"@, false);
    } else if r.ast_error is Some {
        lemma_shown(
            head,
            place,
            outcome_lines(r),
            payload,
            "  ast: broken at "@ + r.ast_error->0,
            false,
        );
    }
    lemma_shown(
        head,
        place,
        outcome_lines(r),
        payload,
        "  file_errors: "@ + number::dec(r.file_errors as nat) + "   project_errors: "@
            + number::dec(r.project_errors as nat),
        false,
    );
}

/// The first line of the text of a revision.
spec fn revision_head(path: Seq<char>, r: RevisionView) -> Seq<char> {
    "rev_"@ + number::dec(r.number as nat) + " "@ + r.operation + " "@ + path + (if r.reverted {
        " (reverted — tombstone)"@
    } else {
        Seq::empty()
    }) + "\n"@
}

proof fn lemma_shown(
    head: Seq<char>,
    place: Seq<char>,
    outcome: Seq<char>,
    payload: Seq<char>,
    p: Seq<char>,
    first: bool,
)
    requires
        first ==> text::has_text(place, p + "\n"@),
        !first ==> text::has_text(outcome, p + "\n"@),
    ensures
        text::has_text(feedback::without_newline(head + place + outcome + payload), p),
{
    let q = p + "\n"@;
    text::found_in_either(head, place, q);
    text::found_in_either(head + place, outcome, q);
    text::found_in_either(head + place + outcome, payload, q);
    feedback::lemma_newline_dropped(head + place + outcome + payload, p);
}

proof fn lemma_outcome(r: RevisionView)
    ensures
        r.operation == "replace_range"@ && r.range is Some ==> text::has_text(
            place_line(r),
            "  range: L"@ + number::dec((r.range->0).0 as nat) + "-"@ + number::dec(
                (r.range->0).1 as nat,
            ) + "\n"@,
        ),
        r.operation != "initial"@ && !(r.operation == "replace_range"@ && r.range is Some)
            ==> text::has_text(place_line(r), "  label: "@ + r.label + "\n"@),
        r.added > 0 || r.removed > 0 ==> text::has_text(
            outcome_lines(r),
            "  delta: +"@ + number::dec(r.added as nat) + " -"@ + number::dec(r.removed as nat)
                + "\n"@,
        ),
        r.ast_ok ==> text::has_text(outcome_lines(r), "  ast: ok"@ + "\n"@),
        !r.ast_ok && r.ast_error is Some ==> text::has_text(
            outcome_lines(r),
            "  ast: broken at "@ + r.ast_error->0 + "\n"@,
        ),
        text::has_text(
            outcome_lines(r),
            "  file_errors: "@ + number::dec(r.file_errors as nat) + "   project_errors: "@
                + number::dec(r.project_errors as nat) + "\n"@,
        ),
{
    let place = place_line(r);
    text::found_in_either(Seq::empty(), place, place);
    assert(Seq::<char>::empty() + place =~= place);
    let delta = if r.added != 0 || r.removed != 0 {
        "  delta: +"@ + number::dec(r.added as nat) + " -"@ + number::dec(r.removed as nat)
            + "\n"@
    } else {
        Seq::empty()
    };
    let ast = if r.ast_ok {
        "  ast: ok\n"@
    } else {
        match r.ast_error {
            Some(e) => "  ast: broken at "@ + e + "\n"@,
            None => "  ast: broken\n"@,
        }
    };
    let errors = "  file_errors: "@ + number::dec(r.file_errors as nat) + "   project_errors: "@
        + number::dec(r.project_errors as nat) + "\n"@;
    assert(outcome_lines(r) =~= delta + ast + errors);
    assert("  ast: ok\n"@ =~= "  ast: ok"@ + "\n"@) by {
        reveal_strlit("  ast: ok\n");
        reveal_strlit("  ast: ok");
        reveal_strlit("\n");
    }
    text::found_in_either(Seq::empty(), delta, delta);
    assert(Seq::<char>::empty() + delta =~= delta);
    text::found_in_either(delta, ast, delta);
    text::found_in_either(delta + ast, errors, delta);
    text::found_in_either(delta, ast, ast);
    text::found_in_either(delta + ast, errors, ast);
    text::found_in_either(delta + ast, errors, errors);
}

/// The text that an edit put in is shown line by line, as far as it was not cut at two
/// kibibytes.
pub proof fn payload_lines_are_shown(path: Seq<char>, r: RevisionView, i: int)
    requires
        r.operation != "write_file"@,
        r.payload is Some,
        0 <= i < text::lines(capped(r.payload->0, 2048).0).len(),
    ensures
        text::has_text(
            revision_text(path, r),
            "    "@ + text::lines(capped(r.payload->0, 2048).0)[i],
        ),
        bytes::utf8_len(r.payload->0) <= 2048 ==> capped(r.payload->0, 2048).0 == r.payload->0,
{
    let cut = capped(r.payload->0, 2048);
    let ls = text::lines(cut.0);
    let body = quoted_lines(ls, ls.len() as int);
    let p = "    "@ + ls[i];
    let head = "  "@ + feedback::payload_key(r.operation) + ": |\n"@;
    let tail = if cut.1 > 0 {
        "  … (truncated — "@ + number::dec(cut.1) + " more byte(s) not shown)\n"@
    } else {
        Seq::empty()
    };
    lemma_quoted(ls, ls.len() as int, i);
    text::found_in_either(head, body, p + "\n"@);
    text::found_in_either(head + body, tail, p + "\n"@);
    let front = revision_head(path, r) + place_line(r) + outcome_lines(r);
    text::found_in_either(front, payload_lines(r), p + "\n"@);
    feedback::lemma_newline_dropped(front + payload_lines(r), p);
}

} // verus!
