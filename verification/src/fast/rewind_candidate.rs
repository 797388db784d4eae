//! Finding an earlier revision that is much cleaner than a file is now.
use vstd::prelude::*;

use super::feedback;
use super::feedback::choose_revisions;
use super::revisions::{Revision, RevisionStore, RevisionView};

verus! {

/// By how many errors a file must have become worse.
pub const REGRESSION_MARGIN: usize = 3;

/// The most errors that the earlier revision may have.
pub const CANDIDATE_MAX_ERRORS: usize = 1;

/// An earlier revision of a file that is much cleaner than it is now.
#[derive(Debug, PartialEq, Eq)]
pub struct RewindCandidate {
    pub path: String,
    pub rev: usize,
    pub file_errors_now: usize,
    pub file_errors_then: usize,
}

/// A candidate over texts.
pub struct CandidateView {
    pub path: Seq<char>,
    pub rev: usize,
    pub file_errors_now: usize,
    pub file_errors_then: usize,
}

impl DeepView for RewindCandidate {
    type V = CandidateView;

    open spec fn deep_view(&self) -> CandidateView {
        CandidateView {
            path: self.path@,
            rev: self.rev,
            file_errors_now: self.file_errors_now,
            file_errors_then: self.file_errors_then,
        }
    }
}

impl Clone for RewindCandidate {
    fn clone(&self) -> (r: RewindCandidate)
        ensures
            r.deep_view() == self.deep_view(),
    {
        RewindCandidate {
            path: self.path.clone(),
            rev: self.rev,
            file_errors_now: self.file_errors_now,
            file_errors_then: self.file_errors_then,
        }
    }
}

/// Whether a file with `now` errors should rather be at revision `r`: an edit, with
/// whole syntax and hardly any error, from which the file has become much worse.
pub open spec fn qualifies(r: RevisionView, now: usize) -> bool {
    &&& r.number > 0
    &&& r.ast_ok
    &&& r.file_errors <= CANDIDATE_MAX_ERRORS
    &&& now >= r.file_errors + REGRESSION_MARGIN
}

/// The place behind the last of the first `n` revisions that qualifies, or 0.
pub open spec fn last_good(live: Seq<RevisionView>, now: usize, n: int) -> int
    decreases n,
{
    if n <= 0 {
        0
    } else if qualifies(live[n - 1], now) {
        n
    } else {
        last_good(live, now, n - 1)
    }
}

/// The candidate of one file: the latest revision before the current one that
/// qualifies.
pub open spec fn candidate_of(path: Seq<char>, revs: Seq<RevisionView>) -> Option<CandidateView> {
    let live = feedback::live_of(revs);
    if live.len() == 0 {
        None
    } else {
        let now = live.last().file_errors;
        let k = last_good(live, now, live.len() - 1);
        if k <= 0 {
            None
        } else {
            Some(
                CandidateView {
                    path,
                    rev: live[k - 1].number,
                    file_errors_now: now,
                    file_errors_then: live[k - 1].file_errors,
                },
            )
        }
    }
}

/// By how many errors the file of a candidate has become worse.
pub open spec fn regression(c: CandidateView) -> int {
    c.file_errors_now - c.file_errors_then
}

/// The candidate of the first `n` files that has become worst; the last of them,
/// where several have.
pub open spec fn worst_of(
    files: Seq<Seq<char>>,
    revs: spec_fn(Seq<char>) -> Seq<RevisionView>,
    n: int,
) -> Option<CandidateView>
    decreases n,
{
    if n <= 0 {
        None
    } else {
        let before = worst_of(files, revs, n - 1);
        let own = candidate_of(files[n - 1], revs(files[n - 1]));
        match (before, own) {
            (Some(b), Some(o)) => if regression(o) >= regression(b) {
                own
            } else {
                before
            },
            (None, _) => own,
            (_, None) => before,
        }
    }
}

fn find_in_file(path: &str, revs: &[Revision]) -> (r: Option<RewindCandidate>)
    ensures
        r.deep_view() == candidate_of(path@, revs.deep_view()),
        r matches Some(c) ==> c.file_errors_then <= c.file_errors_now,
{
    let live = choose_revisions(revs, false);
    let ghost lv = live.deep_view();
    let n: usize = live.len();
    proof {
        assert(revs@.len() == revs.deep_view().len());
        assert(n == lv.len());
    }
    if n == 0 {
        return None;
    }
    proof {
        assert(lv.last() == live@[n - 1].deep_view());
    }
    let now: usize = live[n - 1].file_errors;
    let mut k: usize = n - 1;
    while k > 0
        invariant
            k < n == live@.len() == lv.len(),
            lv == live.deep_view(),
            now == lv.last().file_errors,
            lv == feedback::live_of(revs.deep_view()),
            last_good(lv, now, n - 1) == last_good(lv, now, k as int),
        decreases k,
    {
        let r = &live[k - 1];
        proof {
            assert(lv[k - 1] == r.deep_view());
        }
        if r.number > 0 && r.ast_ok && r.file_errors <= CANDIDATE_MAX_ERRORS && now
            >= r.file_errors + REGRESSION_MARGIN {
            return Some(
                RewindCandidate {
                    path: path.to_owned(),
                    rev: r.number,
                    file_errors_now: now,
                    file_errors_then: r.file_errors,
                },
            );
        }
        k -= 1;
    }
    None
}

/// Finds the one earlier revision, of all changed files, that is best gone back to.
pub fn find_rewind_candidate(changed_files: &[String], store: &RevisionStore) -> (r: Option<
    RewindCandidate,
>)
    requires
        store.wf(),
    ensures
        r.deep_view() == worst_of(
            changed_files.deep_view(),
            |p: Seq<char>| store.history(p),
            changed_files@.len() as int,
        ),
{
    let ghost fv = changed_files.deep_view();
    let ghost h = |p: Seq<char>| store.history(p);
    let mut best: Option<RewindCandidate> = None;
    let mut i: usize = 0;
    while i < changed_files.len()
        invariant
            i <= changed_files@.len() == fv.len(),
            fv == changed_files.deep_view(),
            h == |p: Seq<char>| store.history(p),
            store.wf(),
            best.deep_view() == worst_of(fv, h, i as int),
            best matches Some(b) ==> b.file_errors_then <= b.file_errors_now,
        decreases changed_files.len() - i,
    {
        let path = &changed_files[i];
        let revs = store.list(path);
        let own = find_in_file(path, revs.as_slice());
        proof {
            assert(fv[i as int] == path@);
            assert(h(path@) == store.history(path@));
        }
        match own {
            None => {},
            Some(o) => {
                let takes = match &best {
                    None => true,
                    Some(b) => o.file_errors_now - o.file_errors_then >= b.file_errors_now
                        - b.file_errors_then,
                };
                if takes {
                    best = Some(o);
                }
            },
        }
        i += 1;
    }
    best
}

/// The candidate that is found has whole syntax and is not the first revision, and
/// the file has become worse since by the margin at least.
pub proof fn candidate_is_sound(path: Seq<char>, revs: Seq<RevisionView>)
    ensures
        candidate_of(path, revs) matches Some(c) ==> {
            let live = feedback::live_of(revs);
            &&& c.path == path
            &&& c.file_errors_now == live.last().file_errors
            &&& c.file_errors_now >= c.file_errors_then + REGRESSION_MARGIN
            &&& exists|i: int|
                0 <= i < live.len() - 1 && (#[trigger] live[i]).number == c.rev && qualifies(
                    live[i],
                    c.file_errors_now,
                )
        },
{
    let live = feedback::live_of(revs);
    if live.len() > 0 {
        lemma_last_good(live, live.last().file_errors, live.len() - 1);
    }
}

proof fn lemma_last_good(live: Seq<RevisionView>, now: usize, n: int)
    requires
        0 <= n <= live.len(),
    ensures
        0 <= last_good(live, now, n) <= n,
        last_good(live, now, n) > 0 ==> qualifies(live[last_good(live, now, n) - 1], now),
    decreases n,
{
    if n > 0 && !qualifies(live[n - 1], now) {
        lemma_last_good(live, now, n - 1);
    }
}

proof fn lemma_last_good_is_last(live: Seq<RevisionView>, now: usize, n: int, k: int)
    requires
        0 <= k < n <= live.len(),
        qualifies(live[k], now),
    ensures
        last_good(live, now, n) >= k + 1,
    decreases n,
{
    if k < n - 1 {
        lemma_last_good_is_last(live, now, n - 1, k);
    }
}

/// A live revision before the last is a candidate where an edit made it, it can be parsed, it
/// has at most one error, and the file has at least three more now. Of a file that has one,
/// the last is offered; of another, none.
pub proof fn last_good_revision_is_offered(path: Seq<char>, revs: Seq<RevisionView>, k: int)
    requires
        0 <= k < feedback::live_of(revs).len() - 1,
    ensures
        ({
            let live = feedback::live_of(revs);
            let now = live.last().file_errors;
            let good = live[k].number > 0 && live[k].ast_ok && live[k].file_errors <= 1 && now
                >= live[k].file_errors + 3;
            &&& good ==> candidate_of(path, revs) is Some
            &&& candidate_of(path, revs) matches Some(c) ==> exists|j: int|
                0 <= j < live.len() - 1 && c.rev == (#[trigger] live[j]).number
                    && c.file_errors_then == live[j].file_errors && live[j].number > 0
                    && live[j].ast_ok && live[j].file_errors <= 1 && now >= live[j].file_errors + 3
                    && (good ==> j >= k)
            &&& candidate_of(path, revs) matches Some(c) ==> c.path == path && c.file_errors_now
                == now
        }),
{
    let live = feedback::live_of(revs);
    let now = live.last().file_errors;
    let n = live.len() - 1;
    lemma_last_good(live, now, n);
    if qualifies(live[k], now) {
        lemma_last_good_is_last(live, now, n, k);
    }
    let j = last_good(live, now, n) - 1;
    if j >= 0 {
        assert(qualifies(live[j], now));
    }
}

/// Of several files the one that lost the most is offered, the last of those that lost as
/// much: no other candidate has gained more errors; and one is offered where any file has one.
pub proof fn worst_file_is_offered(
    files: Seq<Seq<char>>,
    revs: spec_fn(Seq<char>) -> Seq<RevisionView>,
    n: int,
    i: int,
)
    requires
        0 <= i < n <= files.len(),
    ensures
        candidate_of(files[i], revs(files[i])) matches Some(c) ==> (worst_of(files, revs, n) matches
            Some(w) && w.file_errors_now - w.file_errors_then >= c.file_errors_now
            - c.file_errors_then),
        worst_of(files, revs, n) is Some ==> exists|k: int|
            0 <= k < n && worst_of(files, revs, n) == candidate_of(
                #[trigger] files[k],
                revs(files[k]),
            ) && (candidate_of(files[i], revs(files[i])) matches Some(c) && regression(c)
                == regression(worst_of(files, revs, n)->0) ==> k >= i),
    decreases n,
{
    if n > 1 {
        if i < n - 1 {
            worst_file_is_offered(files, revs, n - 1, i);
        } else {
            worst_file_is_offered(files, revs, n - 1, 0);
        }
    }
    let own = candidate_of(files[n - 1], revs(files[n - 1]));
    let before = worst_of(files, revs, n - 1);
    if worst_of(files, revs, n) is Some {
        if own is Some && (before is None || regression(own->0) >= regression(before->0)) {
            assert(worst_of(files, revs, n) == candidate_of(files[n - 1], revs(files[n - 1])));
        } else {
            assert(worst_of(files, revs, n) == before);
            if n > 1 {
                let k = choose|k: int|
                    0 <= k < n - 1 && before == candidate_of(#[trigger] files[k], revs(files[k]))
                        && (i < n - 1 ==> (candidate_of(files[i], revs(files[i])) matches Some(c)
                        && regression(c) == regression(before->0) ==> k >= i));
                assert(worst_of(files, revs, n) == candidate_of(files[k], revs(files[k])));
            }
        }
    }
}

} // verus!
