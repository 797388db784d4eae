//! Going back by itself when edits keep breaking the syntax of a file.
use vstd::prelude::*;

use super::feedback;
use super::feedback::choose_revisions;
use super::revisions;
use super::revisions::{Revision, RevisionStore, RevisionView};
use crate::number;
use crate::number::dec_text;
use crate::text;

verus! {

/// How many edits in a row must have left the syntax broken.
pub const CASCADE_THRESHOLD: usize = 3;

/// How many of the first `n` revisions, counted from the last of them back, are
/// broken in a row.
pub open spec fn broken_run(live: Seq<RevisionView>, n: int) -> nat
    decreases n,
{
    if n <= 0 || live[n - 1].ast_ok {
        0
    } else {
        broken_run(live, n - 1) + 1
    }
}

/// The last revision whose syntax is whole, and how many broken ones follow it,
/// where these are enough to go back.
pub open spec fn cascade_of(revs: Seq<RevisionView>) -> Option<(usize, nat)> {
    let live = feedback::live_of(revs);
    let broken = broken_run(live, live.len() as int);
    if broken < CASCADE_THRESHOLD || broken >= live.len() {
        None
    } else {
        Some((live[live.len() - broken - 1].number, broken))
    }
}

proof fn lemma_broken_run(live: Seq<RevisionView>, n: int)
    requires
        0 <= n <= live.len(),
    ensures
        broken_run(live, n) <= n,
        forall|i: int| n - broken_run(live, n) <= i < n ==> !(#[trigger] live[i]).ast_ok,
        broken_run(live, n) < n ==> live[n - broken_run(live, n) - 1].ast_ok,
    decreases n,
{
    if n > 0 && !live[n - 1].ast_ok {
        lemma_broken_run(live, n - 1);
    }
}

/// Finds the revision to go back to, and how many edits in a row left the syntax
/// broken.
pub fn find_cascade(revs: &[Revision]) -> (r: Option<(usize, usize)>)
    ensures
        match cascade_of(revs.deep_view()) {
            None => r is None,
            Some((anchor, broken)) => r == Some((anchor, broken as usize)) && broken
                <= usize::MAX,
        },
{
    let live = choose_revisions(revs, false);
    let ghost lv = live.deep_view();
    let n: usize = live.len();
    proof {
        assert(revs@.len() == revs.deep_view().len());
        assert(n == lv.len());
        lemma_broken_run(lv, n as int);
    }
    let mut k: usize = n;
    while k > 0 && !live[k - 1].ast_ok
        invariant
            k <= n == live@.len() == lv.len(),
            lv == live.deep_view(),
            broken_run(lv, n as int) == broken_run(lv, k as int) + (n - k),
        decreases k,
    {
        proof {
            assert(lv[k - 1] == live@[k - 1].deep_view());
        }
        k -= 1;
    }
    proof {
        if k > 0 {
            assert(lv[k - 1] == live@[k - 1].deep_view());
        }
        assert(broken_run(lv, k as int) == 0);
    }
    let broken: usize = n - k;
    if broken < CASCADE_THRESHOLD || k == 0 {
        return None;
    }
    Some((live[k - 1].number, broken))
}

/// What is told when a file went back by itself.
pub open spec fn cascade_text(path: Seq<char>, broken: nat, anchor: usize) -> Seq<char> {
    "\n\n[auto-revert] Your last "@ + number::dec(broken) + " edits to "@ + path
        + " EACH left the syntax tree broken — you were digging deeper, not recovering. I reverted "@
        + path + " to rev_"@ + number::dec(anchor as nat)
        + " (the last state that parsed cleanly). STOP patching line-by-line. Re-read the relevant region with file(action='read'), then make ONE complete, balanced edit: a single replace_range over the whole enclosing block (with matching braces/brackets), not a sequence of partial line fixes. Do not replay the byte-identical edits now shown as [reverted] in the revision table."@
}

/// Tells that a file went back by itself.
pub fn cascade_message(path: &str, broken: usize, anchor: usize) -> (r: String)
    ensures
        r@ == cascade_text(path@, broken as nat, anchor),
{
    "\n\n[auto-revert] Your last ".to_owned().concat(&dec_text(broken)).concat(
        " edits to ",
    ).concat(path).concat(
        " EACH left the syntax tree broken — you were digging deeper, not recovering. I reverted ",
    ).concat(path).concat(" to rev_").concat(&dec_text(anchor)).concat(
        " (the last state that parsed cleanly). STOP patching line-by-line. Re-read the relevant region with file(action='read'), then make ONE complete, balanced edit: a single replace_range over the whole enclosing block (with matching braces/brackets), not a sequence of partial line fixes. Do not replay the byte-identical edits now shown as [reverted] in the revision table.",
    )
}

/// A file that is to go back by itself.
#[derive(Debug)]
pub struct CascadeBreak {
    /// The revision that it goes back to.
    pub anchor: usize,
    /// The text of that revision.
    pub restored: String,
    /// What is told of it.
    pub message: String,
}

/// A file that is to go back, over texts.
pub struct BreakView {
    pub anchor: usize,
    pub restored: Seq<char>,
    pub message: Seq<char>,
}

impl DeepView for CascadeBreak {
    type V = BreakView;

    open spec fn deep_view(&self) -> BreakView {
        BreakView { anchor: self.anchor, restored: self.restored@, message: self.message@ }
    }
}

/// Whether a file is to go back by itself, and to what.
pub open spec fn break_of(known: bool, revs: Seq<RevisionView>, path: Seq<char>) -> Option<BreakView> {
    match cascade_of(revs) {
        None => None,
        Some((anchor, broken)) => match revisions::content_at(known, revs, path, anchor) {
            Err(_) => None,
            Ok(restored) => Some(
                BreakView { anchor, restored, message: cascade_text(path, broken, anchor) },
            ),
        },
    }
}

/// Finds out whether a file is to go back by itself, and to what.
pub fn maybe_break_cascade(path: &str, store: &RevisionStore) -> (r: Option<CascadeBreak>)
    requires
        store.wf(),
    ensures
        r.deep_view() == break_of(store.knows(path@), store.history(path@), path@),
{
    let revs = store.list(path);
    match find_cascade(revs.as_slice()) {
        None => None,
        Some((anchor, broken)) => match store.read_content(path, anchor) {
            Err(_) => None,
            Ok(restored) => Some(
                CascadeBreak { anchor, restored, message: cascade_message(path, broken, anchor) },
            ),
        },
    }
}

/// A file goes back by itself only behind enough broken edits in a row, and to a
/// revision whose syntax is whole.
pub proof fn cascade_is_justified(revs: Seq<RevisionView>)
    ensures
        cascade_of(revs) matches Some((anchor, broken)) ==> {
            let live = feedback::live_of(revs);
            &&& broken >= CASCADE_THRESHOLD
            &&& broken < live.len()
            &&& live[live.len() - broken - 1].number == anchor
            &&& live[live.len() - broken - 1].ast_ok
            &&& forall|i: int|
                live.len() - broken <= i < live.len() ==> !(#[trigger] live[i]).ast_ok
        },
{
    let live = feedback::live_of(revs);
    lemma_broken_run(live, live.len() as int);
}

proof fn lemma_run_is(live: Seq<RevisionView>, n: int, broken: nat)
    requires
        broken < n <= live.len(),
        live[n - broken - 1].ast_ok,
        forall|i: int| n - broken <= i < n ==> !(#[trigger] live[i]).ast_ok,
    ensures
        broken_run(live, n) == broken,
    decreases n,
{
    if broken > 0 {
        lemma_run_is(live, n - 1, (broken - 1) as nat);
    }
}

/// Where the last three live revisions or more cannot be parsed, and one before them can, the
/// file is to go back to the last that can; where fewer cannot, it is not.
pub proof fn broken_edits_are_broken_off(revs: Seq<RevisionView>, broken: nat)
    requires
        ({
            let live = feedback::live_of(revs);
            &&& broken < live.len()
            &&& live[live.len() - broken - 1].ast_ok
            &&& forall|i: int|
                live.len() - broken <= i < live.len() ==> !(#[trigger] live[i]).ast_ok
        }),
    ensures
        ({
            let live = feedback::live_of(revs);
            cascade_of(revs) == if broken >= 3 {
                Some((live[live.len() - broken - 1].number, broken))
            } else {
                None
            }
        }),
{
    let live = feedback::live_of(revs);
    lemma_run_is(live, live.len() as int, broken);
}

/// The file goes back to the text of the revision that is told, and the message names the
/// file, that revision and how many edits are undone.
pub proof fn break_restores_the_anchor(known: bool, revs: Seq<RevisionView>, path: Seq<char>)
    ensures
        break_of(known, revs, path) is Some ==> known && cascade_of(revs) is Some,
        break_of(known, revs, path) matches Some(b) ==> {
            &&& cascade_of(revs) matches Some((anchor, broken)) && b.anchor == anchor
                && text::has_text(
                b.message,
                "Your last "@ + number::dec(broken) + " edits to "@ + path,
            )
            &&& revisions::content_at(known, revs, path, b.anchor) == Ok::<Seq<char>, Seq<char>>(
                b.restored,
            )
            &&& text::has_text(b.message, path + " to rev_"@ + number::dec(b.anchor as nat))
        },
{
    match cascade_of(revs) {
        Some((anchor, broken)) => {
            lemma_message_head(path, broken);
            let a = "\n\n[auto-revert] Your last "@ + number::dec(broken) + " edits to "@ + path;
            let b =
                " EACH left the syntax tree broken — you were digging deeper, not recovering. I reverted "@;
            let c = path + " to rev_"@ + number::dec(anchor as nat);
            let s = cascade_text(path, broken, anchor);
            let n = a.len() + b.len() + c.len();
            assert(s =~= a + b + c + s.skip(n as int));
            let p = "Your last "@ + number::dec(broken) + " edits to "@ + path;
            text::found_in_either(a, b, p);
            text::found_in_either(a + b, c, p);
            text::found_in_either(a + b + c, s.skip(n as int), p);
            text::found_in_either(a + b, c, c);
            text::found_in_either(a + b + c, s.skip(n as int), c);
        },
        None => {},
    }
}

proof fn lemma_message_head(path: Seq<char>, broken: nat)
    ensures
        text::has_text(
            "\n\n[auto-revert] Your last "@ + number::dec(broken) + " edits to "@ + path,
            "Your last "@ + number::dec(broken) + " edits to "@ + path,
        ),
{
    reveal_strlit("\n\n[auto-revert] Your last ");
    reveal_strlit("Your last ");
    let s = "\n\n[auto-revert] Your last "@ + number::dec(broken) + " edits to "@ + path;
    let p = "Your last "@ + number::dec(broken) + " edits to "@ + path;
    let k = s.len() - p.len();
    assert(s.subrange(k, k + p.len() as int) =~= p);
    assert(text::occurs_at(s, p, k));
}

} // verus!
