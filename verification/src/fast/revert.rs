//! Going back to an earlier revision of a file.
use vstd::prelude::*;

use super::revisions;
use super::revisions::RevisionStore;
use crate::args;
use crate::args::{get_str_or, get_u64_or};
use crate::number;
use crate::number::dec_text;
use crate::text;
use crate::tool;
use crate::tool::{ToolResult, ToolView};

verus! {

/// What a call asks for: a file is to go back to a revision.
#[derive(Debug)]
pub struct RevertRequest {
    pub path: String,
    pub rev: usize,
}

/// A request over texts.
pub struct RevertView {
    pub path: Seq<char>,
    pub rev: usize,
}

impl DeepView for RevertRequest {
    type V = RevertView;

    open spec fn deep_view(&self) -> RevertView {
        RevertView { path: self.path@, rev: self.rev }
    }
}

/// The request that two values make: a file and a revision must be named. The
/// greatest number stands for none.
pub open spec fn revert_request(path: Seq<char>, rev: u64) -> Result<RevertView, Seq<char>> {
    if path.len() == 0 {
        Err("revert: 'path' is required"@)
    } else if rev == u64::MAX {
        Err(
            "revert: 'rev' is required (the numeric revision to restore, e.g. 0 for pristine)"@,
        )
    } else {
        Ok(RevertView { path, rev: rev as usize })
    }
}

/// Makes a request of two values.
pub fn make_revert_request(path: String, rev: u64) -> (r: Result<RevertRequest, String>)
    ensures
        text::result_view(r) == revert_request(path@, rev),
{
    if path.as_str().is_empty() {
        return Err("revert: 'path' is required".to_owned());
    }
    if rev == u64::MAX {
        return Err(
            "revert: 'rev' is required (the numeric revision to restore, e.g. 0 for pristine)".to_owned(),
        );
    }
    Ok(RevertRequest { path, rev: rev as usize })
}

/// Reads a request from the arguments of a call.
pub fn read_revert_request(args: &serde_json::Value) -> (r: Result<RevertRequest, String>)
    ensures
        text::result_view(r) == revert_request(
            args::text_or(args::field(*args, "path"@), Seq::empty()),
            args::number_or(args::field(*args, "rev"@), u64::MAX),
        ),
{
    let none = String::new();
    let path = get_str_or(args, "path", &none);
    let rev = get_u64_or(args, "rev", u64::MAX);
    make_revert_request(path, rev)
}

/// An error of the tool.
pub open spec fn told<T>(r: Result<T, Seq<char>>) -> Result<T, Seq<char>> {
    match r {
        Ok(x) => Ok(x),
        Err(e) => Err("revert: "@ + e),
    }
}

/// The text that the file goes back to.
pub fn plan_revert(store: &RevisionStore, req: &RevertRequest) -> (r: Result<String, String>)
    requires
        store.wf(),
    ensures
        text::result_view(r) == told(
            revisions::content_at(
                store.knows(req.path@),
                store.history(req.path@),
                req.path@,
                req.rev,
            ),
        ),
{
    match store.read_content(&req.path, req.rev) {
        Err(e) => Err("revert: ".to_owned().concat(&e)),
        Ok(s) => Ok(s),
    }
}

/// Marks what the file goes back behind as reverted.
pub fn record_revert(store: &mut RevisionStore, req: &RevertRequest) -> (r: Result<(), String>)
    requires
        old(store).wf(),
    ensures
        text::result_view(r) == told(
            revisions::revert_verdict(
                old(store).knows(req.path@),
                old(store).history(req.path@),
                req.path@,
                req.rev,
            ),
        ),
        r is Err ==> *final(store) == *old(store),
        r is Ok ==> final(store).updated(
            old(store),
            req.path@,
            revisions::with_revert(
                old(store).file(req.path@),
                req.rev,
                old(store).tombstone_limit(),
            ),
        ),
{
    match store.mark_reverted_to(&req.path, req.rev) {
        Err(e) => Err("revert: ".to_owned().concat(&e)),
        Ok(()) => Ok(()),
    }
}

/// What is answered to a call.
pub open spec fn revert_report(req: RevertView, feedback: Seq<char>) -> ToolView {
    tool::ok_view(
        "revert "@ + req.path + " → rev_"@ + number::dec(req.rev as nat) + ": restored"@
            + feedback,
    )
}

/// Answers a call. `feedback` is what is told of the file behind it.
pub fn report_revert(req: &RevertRequest, feedback: &str) -> (r: ToolResult)
    ensures
        r.deep_view() == revert_report(req.deep_view(), feedback@),
{
    ToolResult::ok(
        "revert ".to_owned().concat(&req.path).concat(" → rev_").concat(
            &dec_text(req.rev),
        ).concat(": restored").concat(feedback),
    )
}

/// Where a file has a text to go back to, it can go back: what the call reads and
/// what it marks agree on the revision.
pub proof fn readable_means_revertible(
    known: bool,
    revs: Seq<revisions::RevisionView>,
    path: Seq<char>,
    rev: usize,
)
    ensures
        revisions::content_at(known, revs, path, rev) is Ok <==> revisions::revert_verdict(
            known,
            revs,
            path,
            rev,
        ) is Ok,
{
}

/// A request needs a path and a number, and holds them.
pub proof fn revert_request_holds_its_arguments(path: Seq<char>, rev: u64)
    ensures
        revert_request(path, rev) is Ok <==> path.len() > 0 && rev != u64::MAX,
        revert_request(path, rev) matches Ok(r) ==> r.path == path && (rev <= usize::MAX ==> r.rev
            == rev),
{
}

/// A file goes back to exactly the text that a live revision of it was recorded with; to
/// another revision, or of a file that is not known, it does not.
pub proof fn recorded_text_is_restored(
    revs: Seq<revisions::RevisionView>,
    k: int,
    path: Seq<char>,
    rev: usize,
)
    requires
        revisions::is_history(revs),
        0 <= k < revs.len(),
    ensures
        !revs[k].reverted ==> told(revisions::content_at(true, revs, path, revs[k].number)) == Ok::<
            Seq<char>,
            Seq<char>,
        >(revs[k].content),
        revs[k].reverted ==> told(revisions::content_at(true, revs, path, revs[k].number)) is Err,
        (forall|j: int| 0 <= j < revs.len() ==> (#[trigger] revs[j]).number != rev) ==> (told(
            revisions::content_at(true, revs, path, rev),
        ) matches Err(e) && text::starts_with(e, "revert: "@) && text::has_text(e, path)),
        told(revisions::content_at(false, revs, path, rev)) matches Err(e) && text::starts_with(
            e,
            "revert: "@,
        ) && text::has_text(e, path),
{
    revisions::live_revisions_read_back(revs, k, path);
    revisions::unknown_revisions_are_refused(false, revs, path, rev);
    lemma_told(revisions::content_at(false, revs, path, rev)->Err_0, path);
    if forall|j: int| 0 <= j < revs.len() ==> (#[trigger] revs[j]).number != rev {
        revisions::unknown_revisions_are_refused(true, revs, path, rev);
        lemma_told(revisions::content_at(true, revs, path, rev)->Err_0, path);
    }
}

proof fn lemma_told(e: Seq<char>, path: Seq<char>)
    requires
        text::has_text(e, path),
    ensures
        text::starts_with("revert: "@ + e, "revert: "@),
        text::has_text("revert: "@ + e, path),
{
    let s = "revert: "@ + e;
    assert(s.subrange(0, "revert: "@.len() as int) =~= "revert: "@);
    text::found_in_either("revert: "@, e, path);
}

/// The answer to a revert is a success that names the file and the revision, and ends with
/// what is told of the file.
pub proof fn revert_is_told(req: RevertView, feedback: Seq<char>)
    ensures
        revert_report(req, feedback).success,
        text::has_text(
            revert_report(req, feedback).content,
            req.path + " → rev_"@ + number::dec(req.rev as nat),
        ),
        text::ends_with(revert_report(req, feedback).content, feedback),
{
    let s = revert_report(req, feedback).content;
    let p = req.path + " → rev_"@ + number::dec(req.rev as nat);
    assert(s =~= "revert "@ + p + (": restored"@ + feedback));
    text::found_between("revert "@, p, ": restored"@ + feedback);
    assert(s.subrange(s.len() - feedback.len(), s.len() as int) =~= feedback);
}

} // verus!
