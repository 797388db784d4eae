//! The revisions of each edited file: what was written, and what was undone.
use vstd::prelude::*;

use crate::bytes;
use crate::bytes::{longer_than, prefix_within, text_bytes};
use crate::number;
use crate::number::{dec_text, dec_text_u128};
use crate::text;
use crate::text::{joined, same_text};

verus! {

/// How many live revisions are kept of a file, besides the first.
pub const DEFAULT_LIVE_CAP: usize = 20;

/// How many reverted revisions are kept of a file.
pub const DEFAULT_TOMBSTONE_CAP: usize = 20;

/// How many bytes are kept of what an edit wrote.
pub const MAX_STORED_PAYLOAD_BYTES: usize = 16384;

/// One revision of a file.
#[derive(Debug)]
pub struct Revision {
    /// 0 for the first state of the file, higher for later ones.
    pub number: usize,
    /// The tool that wrote it.
    pub operation: String,
    /// A short summary of the edit.
    pub label: String,
    /// The lines that were replaced, numbered from 1.
    pub range: Option<(usize, usize)>,
    /// The text that the tool wrote.
    pub payload: Option<String>,
    /// Lines added.
    pub added: usize,
    /// Lines removed.
    pub removed: usize,
    /// Whether the file could be parsed.
    pub ast_ok: bool,
    /// The first parse error, such as `L42:9: syntax error`.
    pub ast_error: Option<String>,
    /// Errors reported in the file.
    pub file_errors: usize,
    /// Errors reported in the whole project.
    pub project_errors: usize,
    /// Whether the revision was undone. It stays listed, but cannot be gone back
    /// to.
    pub reverted: bool,
    /// The file at this revision.
    pub content: String,
}

/// A revision over texts.
pub struct RevisionView {
    pub number: usize,
    pub operation: Seq<char>,
    pub label: Seq<char>,
    pub range: Option<(usize, usize)>,
    pub payload: Option<Seq<char>>,
    pub added: usize,
    pub removed: usize,
    pub ast_ok: bool,
    pub ast_error: Option<Seq<char>>,
    pub file_errors: usize,
    pub project_errors: usize,
    pub reverted: bool,
    pub content: Seq<char>,
}

impl DeepView for Revision {
    type V = RevisionView;

    open spec fn deep_view(&self) -> RevisionView {
        RevisionView {
            number: self.number,
            operation: self.operation@,
            label: self.label@,
            range: self.range,
            payload: self.payload.deep_view(),
            added: self.added,
            removed: self.removed,
            ast_ok: self.ast_ok,
            ast_error: self.ast_error.deep_view(),
            file_errors: self.file_errors,
            project_errors: self.project_errors,
            reverted: self.reverted,
            content: self.content@,
        }
    }
}

/// The same optional text once more.
pub fn copy_option(o: &Option<String>) -> (r: Option<String>)
    ensures
        r.deep_view() == o.deep_view(),
{
    match o {
        None => None,
        Some(s) => Some(s.clone()),
    }
}

impl Clone for Revision {
    fn clone(&self) -> (r: Revision)
        ensures
            r.deep_view() == self.deep_view(),
    {
        Revision {
            number: self.number,
            operation: self.operation.clone(),
            label: self.label.clone(),
            range: self.range,
            payload: copy_option(&self.payload),
            added: self.added,
            removed: self.removed,
            ast_ok: self.ast_ok,
            ast_error: copy_option(&self.ast_error),
            file_errors: self.file_errors,
            project_errors: self.project_errors,
            reverted: self.reverted,
            content: self.content.clone(),
        }
    }
}

/// What an edit hands to [`RevisionStore::record`].
#[derive(Debug)]
pub struct RecordArgs<'a> {
    pub operation: &'a str,
    pub label: &'a str,
    pub range: Option<(usize, usize)>,
    pub payload: Option<String>,
    pub added: usize,
    pub removed: usize,
    pub ast_ok: bool,
    pub ast_error: Option<String>,
    pub file_errors: usize,
    pub project_errors: usize,
}

/// The first revision of a file.
pub open spec fn pristine(content: Seq<char>) -> RevisionView {
    RevisionView {
        number: 0,
        operation: "initial"@,
        label: "initial"@,
        range: None,
        payload: None,
        added: 0,
        removed: 0,
        ast_ok: true,
        ast_error: None,
        file_errors: 0,
        project_errors: 0,
        reverted: false,
        content,
    }
}

/// What is kept of the text that an edit wrote.
pub open spec fn stored_payload(s: Seq<char>) -> Seq<char> {
    if bytes::utf8_len(s) <= MAX_STORED_PAYLOAD_BYTES {
        s
    } else {
        bytes::byte_prefix(s, MAX_STORED_PAYLOAD_BYTES as nat)
            + "\n… (truncated at store time — original was "@ + number::dec(bytes::utf8_len(s))
            + " bytes)"@
    }
}

/// The revision that an edit leaves.
pub open spec fn edit_revision(number: usize, content: Seq<char>, args: RecordArgs) -> RevisionView {
    RevisionView {
        number,
        operation: args.operation@,
        label: args.label@,
        range: args.range,
        payload: match args.payload {
            None => None,
            Some(s) => Some(stored_payload(s@)),
        },
        added: args.added,
        removed: args.removed,
        ast_ok: args.ast_ok,
        ast_error: args.ast_error.deep_view(),
        file_errors: args.file_errors,
        project_errors: args.project_errors,
        reverted: false,
        content,
    }
}

/// Whether `r` counts against a cap: against that of the reverted revisions
/// where `tombstones` is set, else against that of the live ones. The first
/// revision counts against neither.
pub open spec fn counts(r: RevisionView, tombstones: bool) -> bool {
    if tombstones {
        r.reverted
    } else {
        !r.reverted && r.number != 0
    }
}

/// The revisions that count against a cap.
pub open spec fn counted(revs: Seq<RevisionView>, tombstones: bool) -> nat
    decreases revs.len(),
{
    if revs.len() == 0 {
        0
    } else if counts(revs.last(), tombstones) {
        counted(revs.drop_last(), tombstones) + 1
    } else {
        counted(revs.drop_last(), tombstones)
    }
}

/// Of the revisions that count against a cap the newest `cap`, and all that do
/// not count.
pub open spec fn newest(revs: Seq<RevisionView>, cap: nat, tombstones: bool) -> Seq<RevisionView>
    decreases revs.len(),
{
    if revs.len() == 0 {
        revs
    } else if !counts(revs.last(), tombstones) {
        newest(revs.drop_last(), cap, tombstones).push(revs.last())
    } else if cap > 0 {
        newest(revs.drop_last(), (cap - 1) as nat, tombstones).push(revs.last())
    } else {
        newest(revs.drop_last(), 0, tombstones)
    }
}

/// A history: the first revision is number 0 and live, and the numbers ascend.
pub open spec fn is_history(revs: Seq<RevisionView>) -> bool {
    &&& revs.len() > 0
    &&& revs[0].number == 0
    &&& !revs[0].reverted
    &&& forall|i: int, j: int|
        0 <= i < j < revs.len() ==> (#[trigger] revs[i]).number < (#[trigger] revs[j]).number
}

/// What is known of a file: its history, and the highest number that was given to
/// one of its revisions. Revisions that were dropped keep their numbers.
pub struct FileView {
    pub revs: Seq<RevisionView>,
    pub last: nat,
}

/// A file of which only the first revision is known.
pub open spec fn fresh_file(content: Seq<char>) -> FileView {
    FileView { revs: seq![pristine(content)], last: 0 }
}

/// A file behind an edit. The oldest live revisions beyond the cap are dropped.
pub open spec fn with_edit(f: FileView, edit: RevisionView, live_cap: nat) -> FileView {
    FileView { revs: newest(f.revs.push(edit), live_cap, false), last: edit.number as nat }
}

/// A file that went back to revision `rev`. The oldest reverted revisions beyond the
/// cap are dropped.
pub open spec fn with_revert(f: FileView, rev: usize, tombstone_cap: nat) -> FileView {
    FileView { revs: newest(tombstoned(f.revs, rev), tombstone_cap, true), last: f.last }
}

/// Whether a file has a history with no number above the highest that was given, and
/// no more revisions than the caps allow.
pub open spec fn is_sound(f: FileView, live_cap: nat, tombstone_cap: nat) -> bool {
    &&& is_history(f.revs)
    &&& f.revs.last().number <= f.last
    &&& counted(f.revs, false) <= live_cap
    &&& counted(f.revs, true) <= tombstone_cap
}

/// The index of the revision with number `rev`, or the length.
pub open spec fn index_of_rev(revs: Seq<RevisionView>, rev: usize, i: int) -> int
    decreases revs.len() - i,
{
    if 0 <= i < revs.len() && revs[i].number != rev {
        index_of_rev(revs, rev, i + 1)
    } else {
        i
    }
}

/// `revs` with every revision behind number `rev` marked as reverted.
pub open spec fn tombstoned(revs: Seq<RevisionView>, rev: usize) -> Seq<RevisionView> {
    Seq::new(
        revs.len(),
        |i: int|
            if revs[i].number > rev {
                RevisionView { reverted: true, ..revs[i] }
            } else {
                revs[i]
            },
    )
}

/// The number of the newest live revision among the first `n`.
pub open spec fn newest_live(revs: Seq<RevisionView>, n: int) -> Option<usize>
    decreases n,
{
    if n <= 0 {
        None
    } else if !revs[n - 1].reverted {
        Some(revs[n - 1].number)
    } else {
        newest_live(revs, n - 1)
    }
}

/// The names of revisions.
pub open spec fn rev_names(revs: Seq<RevisionView>) -> Seq<Seq<char>> {
    Seq::new(revs.len(), |i: int| "rev_"@ + number::dec(revs[i].number as nat))
}

/// Cuts a payload to what is kept of it.
pub fn cap_payload(s: String) -> (r: String)
    ensures
        r@ == stored_payload(s@),
{
    if !longer_than(&s, MAX_STORED_PAYLOAD_BYTES) {
        return s;
    }
    prefix_within(&s, MAX_STORED_PAYLOAD_BYTES).concat(
        "\n… (truncated at store time — original was ",
    ).concat(&dec_text_u128(text_bytes(&s))).concat(" bytes)")
}

/// Drops the oldest of the revisions that count against a cap until the rest
/// fits.
fn drop_oldest(revs: &mut Vec<Revision>, cap: usize, tombstones: bool)
    ensures
        final(revs).deep_view() == newest(old(revs).deep_view(), cap as nat, tombstones),
    decreases old(revs)@.len(),
{
    let ghost before = revs.deep_view();
    match revs.pop() {
        None => {
            proof {
                assert(revs.deep_view() =~= before);
            }
        },
        Some(last) => {
            proof {
                assert(revs.deep_view() =~= before.drop_last());
                assert(last.deep_view() == before.last());
            }
            let counted = if tombstones {
                last.reverted
            } else {
                !last.reverted && last.number != 0
            };
            if !counted {
                drop_oldest(revs, cap, tombstones);
                let ghost rest = revs.deep_view();
                revs.push(last);
                proof {
                    assert(revs.deep_view() =~= rest.push(before.last()));
                }
            } else if cap > 0 {
                drop_oldest(revs, cap - 1, tombstones);
                let ghost rest = revs.deep_view();
                revs.push(last);
                proof {
                    assert(revs.deep_view() =~= rest.push(before.last()));
                }
            } else {
                drop_oldest(revs, 0, tombstones);
            }
        },
    }
}

/// Drops the oldest live revisions, but for the first, until at most `live_cap`
/// are left.
pub fn evict_live_overflow(revs: &mut Vec<Revision>, live_cap: usize)
    ensures
        final(revs).deep_view() == newest(old(revs).deep_view(), live_cap as nat, false),
{
    drop_oldest(revs, live_cap, false);
}

/// Drops the oldest reverted revisions until at most `tombstone_cap` are left.
pub fn evict_tombstone_overflow(revs: &mut Vec<Revision>, tombstone_cap: usize)
    ensures
        final(revs).deep_view() == newest(old(revs).deep_view(), tombstone_cap as nat, true),
{
    drop_oldest(revs, tombstone_cap, true);
}

/// The revisions of one file.
#[derive(Debug)]
struct FileHistory {
    path: String,
    revs: Vec<Revision>,
    /// The highest number that was given.
    last: usize,
}

impl FileHistory {
    spec fn view(&self) -> FileView {
        FileView { revs: self.revs.deep_view(), last: self.last as nat }
    }
}

/// The revisions of all files that were edited.
#[derive(Debug)]
pub struct RevisionStore {
    files: Vec<FileHistory>,
    live_cap: usize,
    tombstone_cap: usize,
}

impl RevisionStore {
    /// The index of the file `path`, or the number of files.
    spec fn place(&self, path: Seq<char>, i: int) -> int
        decreases self.files@.len() - i,
    {
        if 0 <= i < self.files@.len() && self.files@[i].path@ != path {
            self.place(path, i + 1)
        } else {
            i
        }
    }

    /// Whether the file `path` has a history.
    pub closed spec fn knows(&self, path: Seq<char>) -> bool {
        self.place(path, 0) < self.files@.len()
    }

    /// The history of the file `path`; empty where it has none.
    pub closed spec fn history(&self, path: Seq<char>) -> Seq<RevisionView> {
        let i = self.place(path, 0);
        if i < self.files@.len() {
            self.files@[i].revs.deep_view()
        } else {
            Seq::empty()
        }
    }

    /// The highest number that was given to a revision of the file `path`; 0 where it
    /// has none.
    pub closed spec fn last_number(&self, path: Seq<char>) -> nat {
        let i = self.place(path, 0);
        if i < self.files@.len() {
            self.files@[i].last as nat
        } else {
            0
        }
    }

    /// What is known of the file `path`.
    pub open spec fn file(&self, path: Seq<char>) -> FileView {
        FileView { revs: self.history(path), last: self.last_number(path) }
    }

    /// How many live revisions are kept, besides the first.
    pub closed spec fn live_limit(&self) -> nat {
        self.live_cap as nat
    }

    /// How many reverted revisions are kept.
    pub closed spec fn tombstone_limit(&self) -> nat {
        self.tombstone_cap as nat
    }

    /// Whether every file has a history within the caps, under one entry.
    pub closed spec fn wf(&self) -> bool {
        &&& forall|i: int|
            0 <= i < self.files@.len() ==> is_sound(
                (#[trigger] self.files@[i])@,
                self.live_cap as nat,
                self.tombstone_cap as nat,
            )
        &&& forall|i: int, j: int|
            0 <= i < j < self.files@.len() ==> (#[trigger] self.files@[i]).path@ != (
            #[trigger] self.files@[j]).path@
    }

    /// Whether no file has a history.
    pub open spec fn holds_nothing(&self) -> bool {
        &&& forall|p: Seq<char>| !#[trigger] self.knows(p)
        &&& forall|p: Seq<char>| #[trigger] self.history(p) == Seq::<RevisionView>::empty()
        &&& forall|p: Seq<char>| #[trigger] self.last_number(p) == 0
    }

    /// Whether the file `path` changed to `file` and nothing else did.
    pub open spec fn updated(&self, from: &RevisionStore, path: Seq<char>, file: FileView) -> bool {
        &&& self.wf()
        &&& self.live_limit() == from.live_limit()
        &&& self.tombstone_limit() == from.tombstone_limit()
        &&& self.knows(path)
        &&& self.history(path) == file.revs
        &&& self.last_number(path) == file.last
        &&& forall|p: Seq<char>| p != path ==> #[trigger] self.knows(p) == from.knows(p)
        &&& forall|p: Seq<char>| p != path ==> #[trigger] self.history(p) == from.history(p)
        &&& forall|p: Seq<char>|
            p != path ==> #[trigger] self.last_number(p) == from.last_number(p)
    }

    /// Every file of a store has a history within the caps: it begins with revision 0,
    /// which is live, its numbers ascend, and none is above the highest that was given.
    /// A file that the store does not know has no history, and no number was given to it.
    pub proof fn histories_are_sound(&self, path: Seq<char>)
        requires
            self.wf(),
        ensures
            self.knows(path) ==> is_sound(
                self.file(path),
                self.live_limit(),
                self.tombstone_limit(),
            ),
            !self.knows(path) ==> self.history(path) == Seq::<RevisionView>::empty()
                && self.last_number(path) == 0,
    {
        self.lemma_place(path, 0);
        if self.knows(path) {
            assert(is_sound(
                self.files@[self.place(path, 0)]@,
                self.live_cap as nat,
                self.tombstone_cap as nat,
            ));
        }
    }

    proof fn lemma_place(&self, path: Seq<char>, i: int)
        requires
            0 <= i <= self.files@.len(),
        ensures
            i <= self.place(path, i) <= self.files@.len(),
            self.place(path, i) < self.files@.len() ==> self.files@[self.place(path, i)].path@
                == path,
            forall|k: int|
                i <= k < self.place(path, i) ==> (#[trigger] self.files@[k]).path@ != path,
        decreases self.files@.len() - i,
    {
        if i < self.files@.len() && self.files@[i].path@ != path {
            self.lemma_place(path, i + 1);
        }
    }

    fn find(&self, path: &str) -> (r: Option<usize>)
        ensures
            match r {
                Some(i) => i == self.place(path@, 0) && i < self.files@.len(),
                None => self.place(path@, 0) == self.files@.len(),
            },
    {
        let mut i: usize = 0;
        while i < self.files.len()
            invariant
                i <= self.files@.len(),
                self.place(path@, 0) == self.place(path@, i as int),
            decreases self.files@.len() - i,
        {
            if same_text(&self.files[i].path, path) {
                return Some(i);
            }
            i += 1;
        }
        None
    }

    /// An empty store with the given caps.
    pub fn with_caps(live_cap: usize, tombstone_cap: usize) -> (r: RevisionStore)
        ensures
            r.wf(),
            r.live_limit() == live_cap,
            r.tombstone_limit() == tombstone_cap,
            r.holds_nothing(),
    {
        RevisionStore { files: Vec::new(), live_cap, tombstone_cap }
    }

    /// An empty store with both caps set to `cap`.
    pub fn with_cap(cap: usize) -> (r: RevisionStore)
        ensures
            r.wf(),
            r.live_limit() == cap,
            r.tombstone_limit() == cap,
            r.holds_nothing(),
    {
        RevisionStore::with_caps(cap, cap)
    }

    /// An empty store with the default caps. The directory is not used: all
    /// revisions are held in memory.
    pub fn new(_miniswe_dir: &str) -> (r: Result<RevisionStore, String>)
        ensures
            r matches Ok(s) && s.wf() && s.live_limit() == DEFAULT_LIVE_CAP && s.tombstone_limit()
                == DEFAULT_TOMBSTONE_CAP && s.holds_nothing(),
    {
        Ok(RevisionStore::with_caps(DEFAULT_LIVE_CAP, DEFAULT_TOMBSTONE_CAP))
    }

    /// Takes `content` as the first revision of `rel_path`, where that has none.
    pub fn ensure_pristine(&mut self, rel_path: &str, content: &str) -> (r: Result<(), String>)
        requires
            old(self).wf(),
        ensures
            r is Ok,
            final(self).updated(
                old(self),
                rel_path@,
                if old(self).knows(rel_path@) {
                    old(self).file(rel_path@)
                } else {
                    fresh_file(content@)
                },
            ),
    {
        match self.find(rel_path) {
            Some(_) => {},
            None => {
                let first = Revision {
                    number: 0,
                    operation: "initial".to_owned(),
                    label: "initial".to_owned(),
                    range: None,
                    payload: None,
                    added: 0,
                    removed: 0,
                    ast_ok: true,
                    ast_error: None,
                    file_errors: 0,
                    project_errors: 0,
                    reverted: false,
                    content: content.to_owned(),
                };
                let mut revs: Vec<Revision> = Vec::new();
                revs.push(first);
                proof {
                    assert(revs.deep_view() =~= seq![pristine(content@)]);
                }
                self.files.push(FileHistory { path: rel_path.to_owned(), revs, last: 0 });
                proof {
                    let h = seq![pristine(content@)];
                    assert(h.drop_last() =~= Seq::<RevisionView>::empty());
                    assert(counted(h, false) == 0 && counted(h, true) == 0) by {
                        reveal_with_fuel(counted, 2);
                    }
                    assert(self.files@.drop_last() =~= old(self).files@);
                    lemma_files_pushed(old(self), self, rel_path@);
                }
            },
        }
        Ok(())
    }
}

/// What a store holds after a file was added to it.
proof fn lemma_files_pushed(before: &RevisionStore, after: &RevisionStore, path: Seq<char>)
    requires
        before.wf(),
        !before.knows(path),
        after.files@.len() == before.files@.len() + 1,
        after.files@.drop_last() == before.files@,
        after.files@.last().path@ == path,
        is_sound(after.files@.last()@, after.live_cap as nat, after.tombstone_cap as nat),
        after.live_cap == before.live_cap,
        after.tombstone_cap == before.tombstone_cap,
    ensures
        after.updated(before, path, after.files@.last()@),
{
    let n = before.files@.len() as int;
    assert forall|k: int| 0 <= k < n implies after.files@[k] == before.files@[k] by {
        assert(after.files@.drop_last()[k] == after.files@[k]);
    }
    before.lemma_place(path, 0);
    after.lemma_place(path, 0);
    assert(after.place(path, 0) == n);
    assert forall|p: Seq<char>| p != path implies #[trigger] after.knows(p) == before.knows(p) by {
        before.lemma_place(p, 0);
        after.lemma_place(p, 0);
    }
    assert forall|p: Seq<char>| p != path implies #[trigger] after.history(p) == before.history(p) by {
        before.lemma_place(p, 0);
        after.lemma_place(p, 0);
    }
    assert forall|p: Seq<char>| p != path implies #[trigger] after.last_number(p)
        == before.last_number(p) by {
        before.lemma_place(p, 0);
        after.lemma_place(p, 0);
    }
    assert(after.wf());
}

/// Dropping the oldest revisions of a history leaves a history with the same
/// first revision.
pub proof fn lemma_newest_history(revs: Seq<RevisionView>, cap: nat, tombstones: bool)
    requires
        is_history(revs),
    ensures
        is_history(newest(revs, cap, tombstones)),
        newest(revs, cap, tombstones)[0] == revs[0],
        newest(revs, cap, tombstones).last().number <= revs.last().number,
        forall|i: int|
            0 <= i < newest(revs, cap, tombstones).len() ==> revs.contains(
                #[trigger] newest(revs, cap, tombstones)[i],
            ),
    decreases revs.len(),
{
    let kept = newest(revs, cap, tombstones);
    if revs.len() == 1 {
        assert(!counts(revs.last(), tombstones));
        let none = newest(revs.drop_last(), cap, tombstones);
        assert(none.len() == 0);
        assert(kept =~= none.push(revs.last()));
        assert(kept[0] == revs[0]);
        assert(revs.contains(revs[0]));
    } else {
        let short = revs.drop_last();
        assert(is_history(short));
        let less = if counts(revs.last(), tombstones) && cap > 0 {
            (cap - 1) as nat
        } else {
            cap
        };
        lemma_newest_history(short, less, tombstones);
        let rest = newest(short, less, tombstones);
        assert(short.last().number < revs.last().number);
        assert forall|i: int| 0 <= i < kept.len() implies revs.contains(#[trigger] kept[i]) by {
            if i < rest.len() {
                assert(kept[i] == rest[i]);
                assert(short.contains(rest[i]));
                let k = short.index_of(rest[i]);
                assert(revs[k] == rest[i]);
            } else {
                assert(revs[revs.len() - 1] == kept[i]);
            }
        }
        assert(is_history(kept)) by {
            assert forall|i: int, j: int| 0 <= i < j < kept.len() implies (
            #[trigger] kept[i]).number < (#[trigger] kept[j]).number by {
                if j < rest.len() {
                    assert(kept[i] == rest[i] && kept[j] == rest[j]);
                } else {
                    assert(kept[i] == rest[i]);
                    if i < rest.len() - 1 {
                        assert(rest[i].number < rest[rest.len() - 1].number);
                    }
                }
            }
        }
    }
}

/// What a store holds after the history of one file was exchanged.
proof fn lemma_file_changed(before: &RevisionStore, after: &RevisionStore, path: Seq<char>)
    requires
        before.wf(),
        before.knows(path),
        after.files@.len() == before.files@.len(),
        forall|k: int|
            0 <= k < after.files@.len() && k != before.place(path, 0) ==> #[trigger] after.files@[k]
                == before.files@[k],
        after.files@[before.place(path, 0)].path@ == path,
        is_sound(
            after.files@[before.place(path, 0)]@,
            after.live_cap as nat,
            after.tombstone_cap as nat,
        ),
        after.live_cap == before.live_cap,
        after.tombstone_cap == before.tombstone_cap,
    ensures
        after.updated(before, path, after.files@[before.place(path, 0)]@),
{
    let at = before.place(path, 0);
    before.lemma_place(path, 0);
    after.lemma_place(path, 0);
    assert forall|k: int| 0 <= k < after.files@.len() implies (#[trigger] after.files@[k]).path@
        == before.files@[k].path@ by {}
    assert(after.place(path, 0) == at) by {
        if after.place(path, 0) < at {
            assert(before.files@[after.place(path, 0)].path@ != path);
        }
    }
    assert forall|p: Seq<char>| p != path implies #[trigger] after.knows(p) == before.knows(p) by {
        before.lemma_place(p, 0);
        after.lemma_place(p, 0);
        lemma_same_place(before, after, p);
    }
    assert forall|p: Seq<char>| p != path implies #[trigger] after.history(p) == before.history(
        p,
    ) by {
        before.lemma_place(p, 0);
        after.lemma_place(p, 0);
        lemma_same_place(before, after, p);
    }
    assert forall|p: Seq<char>| p != path implies #[trigger] after.last_number(p)
        == before.last_number(p) by {
        before.lemma_place(p, 0);
        after.lemma_place(p, 0);
        lemma_same_place(before, after, p);
    }
    assert(after.wf());
}

proof fn lemma_same_place(before: &RevisionStore, after: &RevisionStore, p: Seq<char>)
    requires
        after.files@.len() == before.files@.len(),
        forall|k: int|
            0 <= k < after.files@.len() ==> (#[trigger] after.files@[k]).path@
                == before.files@[k].path@,
    ensures
        after.place(p, 0) == before.place(p, 0),
{
    before.lemma_place(p, 0);
    after.lemma_place(p, 0);
    let x = before.place(p, 0);
    let y = after.place(p, 0);
    if x < y {
        assert(after.files@[x].path@ != p);
    } else if y < x {
        assert(after.files@[y].path@ == p);
        assert(before.files@[y].path@ != p);
    }
}

proof fn lemma_index_of_rev(revs: Seq<RevisionView>, rev: usize, i: int)
    requires
        0 <= i <= revs.len(),
    ensures
        i <= index_of_rev(revs, rev, i) <= revs.len(),
        index_of_rev(revs, rev, i) < revs.len() ==> revs[index_of_rev(revs, rev, i)].number == rev,
    decreases revs.len() - i,
{
    if i < revs.len() && revs[i].number != rev {
        lemma_index_of_rev(revs, rev, i + 1);
    }
}

fn find_rev(revs: &Vec<Revision>, rev: usize) -> (r: Option<usize>)
    ensures
        match r {
            Some(i) => i == index_of_rev(revs.deep_view(), rev, 0) && i < revs@.len()
                && revs@[i as int].number == rev,
            None => index_of_rev(revs.deep_view(), rev, 0) == revs@.len(),
        },
{
    let ghost rv = revs.deep_view();
    let mut i: usize = 0;
    while i < revs.len()
        invariant
            i <= revs@.len() == rv.len(),
            rv == revs.deep_view(),
            index_of_rev(rv, rev, 0) == index_of_rev(rv, rev, i as int),
        decreases revs@.len() - i,
    {
        proof {
            assert(rv[i as int] == revs@[i as int].deep_view());
        }
        if revs[i].number == rev {
            return Some(i);
        }
        i += 1;
    }
    None
}

fn name_revs(revs: &Vec<Revision>) -> (r: Vec<String>)
    ensures
        r.deep_view() == rev_names(revs.deep_view()),
{
    let ghost rv = revs.deep_view();
    let mut out: Vec<String> = Vec::new();
    let mut i: usize = 0;
    while i < revs.len()
        invariant
            i <= revs@.len() == rv.len(),
            rv == revs.deep_view(),
            out.deep_view() == rev_names(rv).take(i as int),
        decreases revs@.len() - i,
    {
        let ghost o = out.deep_view();
        out.push("rev_".to_owned().concat(&dec_text(revs[i].number)));
        proof {
            assert(rv[i as int] == revs@[i as int].deep_view());
            assert(out.deep_view() =~= o.push(rev_names(rv)[i as int]));
            assert(rev_names(rv).take(i + 1) =~= o.push(rev_names(rv)[i as int]));
        }
        i += 1;
    }
    proof {
        assert(rev_names(rv).take(i as int) =~= rev_names(rv));
    }
    out
}

/// The same revisions once more.
pub fn copy_revs(revs: &Vec<Revision>) -> (r: Vec<Revision>)
    ensures
        r.deep_view() == revs.deep_view(),
{
    let ghost rv = revs.deep_view();
    let mut out: Vec<Revision> = Vec::new();
    let mut i: usize = 0;
    while i < revs.len()
        invariant
            i <= revs@.len() == rv.len(),
            rv == revs.deep_view(),
            out.deep_view() == rv.take(i as int),
        decreases revs@.len() - i,
    {
        let ghost o = out.deep_view();
        out.push(revs[i].clone());
        proof {
            assert(rv[i as int] == revs@[i as int].deep_view());
            assert(out.deep_view() =~= o.push(rv[i as int]));
            assert(rv.take(i + 1) =~= o.push(rv[i as int]));
        }
        i += 1;
    }
    proof {
        assert(rv.take(i as int) =~= rv);
    }
    out
}

fn mark_behind(revs: &mut Vec<Revision>, rev: usize)
    ensures
        final(revs).deep_view() == tombstoned(old(revs).deep_view(), rev),
{
    let ghost rv = revs.deep_view();
    let mut i: usize = 0;
    while i < revs.len()
        invariant
            i <= revs@.len() == rv.len(),
            forall|k: int| 0 <= k < i ==> (#[trigger] revs@[k]).deep_view() == tombstoned(rv, rev)[k],
            forall|k: int| i <= k < rv.len() ==> (#[trigger] revs@[k]).deep_view() == rv[k],
        decreases revs@.len() - i,
    {
        let ghost before = revs@;
        if revs[i].number > rev {
            let mut r = revs[i].clone();
            r.reverted = true;
            revs[i] = r;
        }
        proof {
            assert forall|k: int| 0 <= k < i + 1 implies (#[trigger] revs@[k]).deep_view()
                == tombstoned(rv, rev)[k] by {
                if k < i {
                    assert(revs@[k] == before[k]);
                }
            }
        }
        i += 1;
    }
    proof {
        assert(revs.deep_view() =~= tombstoned(rv, rev));
    }
}

/// Marking revisions as reverted keeps a history one.
pub proof fn lemma_tombstoned_history(revs: Seq<RevisionView>, rev: usize)
    requires
        is_history(revs),
    ensures
        is_history(tombstoned(revs, rev)),
        tombstoned(revs, rev)[0] == revs[0],
{
    let t = tombstoned(revs, rev);
    assert forall|i: int, j: int| 0 <= i < j < t.len() implies (#[trigger] t[i]).number < (
    #[trigger] t[j]).number by {
        assert(revs[i].number < revs[j].number);
    }
}

/// Dropping revisions for one cap leaves the number of those that count against the
/// other.
proof fn lemma_other_count(revs: Seq<RevisionView>, cap: nat, tombstones: bool)
    ensures
        counted(newest(revs, cap, tombstones), !tombstones) == counted(revs, !tombstones),
    decreases revs.len(),
{
    if revs.len() > 0 {
        let last = revs.last();
        let short = revs.drop_last();
        let less = if counts(last, tombstones) && cap > 0 {
            (cap - 1) as nat
        } else {
            cap
        };
        lemma_other_count(short, less, tombstones);
        let rest = newest(short, less, tombstones);
        assert(rest.push(last).drop_last() =~= rest);
    }
}

/// Marking revisions as reverted leaves no more live ones.
proof fn lemma_tombstoned_count(revs: Seq<RevisionView>, rev: usize)
    ensures
        counted(tombstoned(revs, rev), false) <= counted(revs, false),
    decreases revs.len(),
{
    if revs.len() > 0 {
        lemma_tombstoned_count(revs.drop_last(), rev);
        assert(tombstoned(revs, rev).drop_last() =~= tombstoned(revs.drop_last(), rev));
    }
}

proof fn lemma_push_history(revs: Seq<RevisionView>, edit: RevisionView)
    requires
        is_history(revs),
        edit.number > revs.last().number,
    ensures
        is_history(revs.push(edit)),
{
    let h = revs.push(edit);
    assert forall|i: int, j: int| 0 <= i < j < h.len() implies (#[trigger] h[i]).number < (
    #[trigger] h[j]).number by {
        if j == revs.len() && i < revs.len() - 1 {
            assert(revs[i].number < revs[revs.len() - 1].number);
        }
    }
}

/// An edit with a number above all that were given leaves a file sound.
pub proof fn lemma_edit_sound(f: FileView, edit: RevisionView, live_cap: nat, tombstone_cap: nat)
    requires
        is_sound(f, live_cap, tombstone_cap),
        edit.number > f.last,
        !edit.reverted,
    ensures
        is_sound(with_edit(f, edit, live_cap), live_cap, tombstone_cap),
{
    let h = f.revs.push(edit);
    lemma_push_history(f.revs, edit);
    lemma_newest_history(h, live_cap, false);
    cap_holds(h, live_cap, false);
    lemma_other_count(h, live_cap, false);
    assert(h.drop_last() =~= f.revs);
}

/// Going back leaves a file sound.
pub proof fn lemma_revert_sound(f: FileView, rev: usize, live_cap: nat, tombstone_cap: nat)
    requires
        is_sound(f, live_cap, tombstone_cap),
    ensures
        is_sound(with_revert(f, rev, tombstone_cap), live_cap, tombstone_cap),
{
    let t = tombstoned(f.revs, rev);
    lemma_tombstoned_history(f.revs, rev);
    lemma_newest_history(t, tombstone_cap, true);
    cap_holds(t, tombstone_cap, true);
    lemma_other_count(t, tombstone_cap, true);
    lemma_tombstoned_count(f.revs, rev);
}

impl RevisionStore {
    /// Adds a revision of `rel_path` and returns its number, which is higher than
    /// all that were given before it, dropped ones too. The oldest live revisions beyond the cap are dropped.
    pub fn record(&mut self, rel_path: &str, new_content: &str, args: RecordArgs<'_>) -> (r: Result<
        usize,
        String,
    >)
        requires
            old(self).wf(),
            old(self).last_number(rel_path@) < usize::MAX,
        ensures
            match r {
                Err(e) => {
                    &&& !old(self).knows(rel_path@)
                    &&& e@ == "no pristine baseline recorded for "@ + rel_path@
                    &&& *final(self) == *old(self)
                },
                Ok(n) => {
                    &&& old(self).knows(rel_path@)
                    &&& n == old(self).last_number(rel_path@) + 1
                    &&& final(self).updated(
                        old(self),
                        rel_path@,
                        with_edit(
                            old(self).file(rel_path@),
                            edit_revision(n, new_content@, args),
                            old(self).live_limit(),
                        ),
                    )
                },
            },
    {
        let at: usize = match self.find(rel_path) {
            None => {
                return Err("no pristine baseline recorded for ".to_owned().concat(rel_path));
            },
            Some(i) => i,
        };
        let ghost f0 = self.files@[at as int]@;
        let ghost revs0 = f0.revs;
        proof {
            self.lemma_place(rel_path@, 0);
            assert(is_sound(f0, self.live_cap as nat, self.tombstone_cap as nat));
        }
        let mut revs = copy_revs(&self.files[at].revs);
        let number: usize = self.files[at].last + 1;
        let payload = match args.payload {
            None => None,
            Some(p) => Some(cap_payload(p)),
        };
        let next = Revision {
            number,
            operation: args.operation.to_owned(),
            label: args.label.to_owned(),
            range: args.range,
            payload,
            added: args.added,
            removed: args.removed,
            ast_ok: args.ast_ok,
            ast_error: args.ast_error,
            file_errors: args.file_errors,
            project_errors: args.project_errors,
            reverted: false,
            content: new_content.to_owned(),
        };
        let ghost nv = next.deep_view();
        proof {
            assert(nv == edit_revision(number, new_content@, args));
        }
        revs.push(next);
        proof {
            assert(revs.deep_view() =~= revs0.push(nv));
            lemma_edit_sound(f0, nv, self.live_cap as nat, self.tombstone_cap as nat);
        }
        evict_live_overflow(&mut revs, self.live_cap);
        self.files[at] = FileHistory { path: rel_path.to_owned(), revs, last: number };
        proof {
            lemma_file_changed(old(self), self, rel_path@);
        }
        Ok(number)
    }

    /// The file `rel_path` at revision `rev`, which must be a live one.
    pub fn read_content(&self, rel_path: &str, rev: usize) -> (r: Result<String, String>)
        requires
            self.wf(),
        ensures
            text::result_view(r) == content_at(
                self.knows(rel_path@),
                self.history(rel_path@),
                rel_path@,
                rev,
            ),
    {
        let at: usize = match self.find(rel_path) {
            None => {
                return Err("no revisions recorded for ".to_owned().concat(rel_path));
            },
            Some(i) => i,
        };
        let revs = &self.files[at].revs;
        match find_rev(revs, rev) {
            None => Err(
                "rev_".to_owned().concat(&dec_text(rev)).concat(" not found for ").concat(
                    rel_path,
                ).concat(" (available: ").concat(&joined(&name_revs(revs), ", ")).concat(")"),
            ),
            Some(i) => {
                proof {
                    assert(revs.deep_view()[i as int] == revs@[i as int].deep_view());
                }
                if revs[i].reverted {
                    return Err(
                        "rev_".to_owned().concat(&dec_text(rev)).concat(
                            " is a tombstone (previously reverted) and cannot be the target of revert. Use show_rev to inspect it, or pick a live rev.",
                        ),
                    );
                }
                Ok(revs[i].content.clone())
            },
        }
    }

    /// Revision `rev` of `rel_path`, a reverted one too.
    pub fn get(&self, rel_path: &str, rev: usize) -> (r: Option<Revision>)
        requires
            self.wf(),
        ensures
            r.deep_view() == revision_at(self.history(rel_path@), rev),
    {
        let at: usize = match self.find(rel_path) {
            None => {
                return None;
            },
            Some(i) => i,
        };
        let revs = &self.files[at].revs;
        match find_rev(revs, rev) {
            None => None,
            Some(i) => {
                proof {
                    assert(revs.deep_view()[i as int] == revs@[i as int].deep_view());
                }
                Some(revs[i].clone())
            },
        }
    }

    /// Marks every revision of `rel_path` behind the live revision `rev` as
    /// reverted. The oldest reverted revisions beyond the cap are dropped.
    pub fn mark_reverted_to(&mut self, rel_path: &str, rev: usize) -> (r: Result<(), String>)
        requires
            old(self).wf(),
        ensures
            text::result_view(r) == revert_verdict(
                old(self).knows(rel_path@),
                old(self).history(rel_path@),
                rel_path@,
                rev,
            ),
            r is Err ==> *final(self) == *old(self),
            r is Ok ==> final(self).updated(
                old(self),
                rel_path@,
                with_revert(old(self).file(rel_path@), rev, old(self).tombstone_limit()),
            ),
    {
        let at: usize = match self.find(rel_path) {
            None => {
                return Err("no revisions recorded for ".to_owned().concat(rel_path));
            },
            Some(i) => i,
        };
        proof {
            self.lemma_place(rel_path@, 0);
        }
        let mut revs = copy_revs(&self.files[at].revs);
        let ghost revs0 = revs.deep_view();
        match find_rev(&revs, rev) {
            None => {
                return Err(
                    "rev_".to_owned().concat(&dec_text(rev)).concat(" not found for ").concat(
                        rel_path,
                    ),
                );
            },
            Some(i) => {
                proof {
                    assert(revs.deep_view()[i as int] == revs@[i as int].deep_view());
                    assert(revs0.len() == revs@.len());
                }
                if revs[i].reverted {
                    return Err(
                        "rev_".to_owned().concat(&dec_text(rev)).concat(
                            " is a tombstone (previously reverted); pick a live rev",
                        ),
                    );
                }
            },
        }
        proof {
            let f0 = self.files@[at as int]@;
            assert(is_sound(f0, self.live_cap as nat, self.tombstone_cap as nat));
            lemma_revert_sound(f0, rev, self.live_cap as nat, self.tombstone_cap as nat);
        }
        mark_behind(&mut revs, rev);
        evict_tombstone_overflow(&mut revs, self.tombstone_cap);
        let last: usize = self.files[at].last;
        self.files[at] = FileHistory { path: rel_path.to_owned(), revs, last };
        proof {
            lemma_file_changed(old(self), self, rel_path@);
        }
        Ok(())
    }

    /// The history of `rel_path`, reverted revisions too; empty where it has
    /// none.
    pub fn list(&self, rel_path: &str) -> (r: Vec<Revision>)
        requires
            self.wf(),
        ensures
            r.deep_view() == self.history(rel_path@),
    {
        match self.find(rel_path) {
            None => {
                let none: Vec<Revision> = Vec::new();
                proof {
                    assert(none.deep_view() =~= Seq::<RevisionView>::empty());
                }
                none
            },
            Some(i) => copy_revs(&self.files[i].revs),
        }
    }

    /// The highest number that was given to a revision of `rel_path`.
    pub fn last_given(&self, rel_path: &str) -> (r: usize)
        ensures
            r == self.last_number(rel_path@),
    {
        match self.find(rel_path) {
            None => 0,
            Some(i) => self.files[i].last,
        }
    }

    /// The number of the newest live revision of `rel_path`.
    pub fn current(&self, rel_path: &str) -> (r: Option<usize>)
        requires
            self.wf(),
        ensures
            r == newest_live(self.history(rel_path@), self.history(rel_path@).len() as int),
            r is Some <==> self.knows(rel_path@),
    {
        let at: usize = match self.find(rel_path) {
            None => {
                return None;
            },
            Some(i) => i,
        };
        let revs = &self.files[at].revs;
        let ghost rv = revs.deep_view();
        proof {
            self.histories_are_sound(rel_path@);
        }
        let mut n: usize = revs.len();
        loop
            invariant
                n <= revs@.len() == rv.len(),
                rv == revs.deep_view(),
                self.history(rel_path@) == rv,
                self.knows(rel_path@),
                rv.len() > 0 && !rv[0].reverted,
                newest_live(rv, rv.len() as int) == newest_live(rv, n as int),
                n > 0,
            decreases n,
        {
            proof {
                assert(rv[n - 1] == revs@[n - 1].deep_view());
            }
            if !revs[n - 1].reverted {
                return Some(revs[n - 1].number);
            }
            n -= 1;
        }
    }
}

/// The content of the live revision `rev`, or why there is none.
pub open spec fn content_at(
    known: bool,
    revs: Seq<RevisionView>,
    path: Seq<char>,
    rev: usize,
) -> Result<Seq<char>, Seq<char>> {
    let i = index_of_rev(revs, rev, 0);
    if !known {
        Err("no revisions recorded for "@ + path)
    } else if i == revs.len() {
        Err(
            "rev_"@ + number::dec(rev as nat) + " not found for "@ + path + " (available: "@
                + text::join(rev_names(revs), ", "@) + ")"@,
        )
    } else if revs[i].reverted {
        Err(
            "rev_"@ + number::dec(rev as nat)
                + " is a tombstone (previously reverted) and cannot be the target of revert. Use show_rev to inspect it, or pick a live rev."@,
        )
    } else {
        Ok(revs[i].content)
    }
}

/// Revision `rev` of a history.
pub open spec fn revision_at(revs: Seq<RevisionView>, rev: usize) -> Option<RevisionView> {
    let i = index_of_rev(revs, rev, 0);
    if 0 <= i < revs.len() {
        Some(revs[i])
    } else {
        None
    }
}

/// Whether a file can go back to revision `rev`, or why it cannot.
pub open spec fn revert_verdict(
    known: bool,
    revs: Seq<RevisionView>,
    path: Seq<char>,
    rev: usize,
) -> Result<(), Seq<char>> {
    let i = index_of_rev(revs, rev, 0);
    if !known {
        Err("no revisions recorded for "@ + path)
    } else if i == revs.len() {
        Err("rev_"@ + number::dec(rev as nat) + " not found for "@ + path)
    } else if revs[i].reverted {
        Err(
            "rev_"@ + number::dec(rev as nat)
                + " is a tombstone (previously reverted); pick a live rev"@,
        )
    } else {
        Ok(())
    }
}

/// Dropping the oldest revisions leaves at most `cap` of those that count
/// against it, and all of them where they fit.
pub proof fn cap_holds(revs: Seq<RevisionView>, cap: nat, tombstones: bool)
    ensures
        counted(newest(revs, cap, tombstones), tombstones) == if counted(revs, tombstones) <= cap {
            counted(revs, tombstones)
        } else {
            cap
        },
    decreases revs.len(),
{
    if revs.len() > 0 {
        let last = revs.last();
        let short = revs.drop_last();
        let less = if counts(last, tombstones) && cap > 0 {
            (cap - 1) as nat
        } else {
            cap
        };
        cap_holds(short, less, tombstones);
        let rest = newest(short, less, tombstones);
        assert(rest.push(last).drop_last() =~= rest);
    }
}

/// A revision that does not count against a cap is never dropped for it: live
/// revisions stay when reverted ones are dropped, the other way round, and the
/// first revision always.
pub proof fn eviction_spares_others(revs: Seq<RevisionView>, cap: nat, tombstones: bool, i: int)
    requires
        0 <= i < revs.len(),
        !counts(revs[i], tombstones),
    ensures
        newest(revs, cap, tombstones).contains(revs[i]),
    decreases revs.len(),
{
    let last = revs.last();
    let short = revs.drop_last();
    let less = if counts(last, tombstones) && cap > 0 {
        (cap - 1) as nat
    } else {
        cap
    };
    let rest = newest(short, less, tombstones);
    let kept = newest(revs, cap, tombstones);
    if i < revs.len() - 1 {
        eviction_spares_others(short, less, tombstones, i);
        let k = rest.index_of(revs[i]);
        assert(short[i] == revs[i]);
        assert(rest[k] == revs[i]);
        assert(kept[k] == revs[i]);
    } else {
        assert(kept[kept.len() - 1] == revs[i]);
    }
}

/// With room for one, the newest revision stays.
pub proof fn newest_revision_stays(revs: Seq<RevisionView>, cap: nat, tombstones: bool)
    requires
        is_history(revs),
        cap > 0,
    ensures
        newest(revs, cap, tombstones).len() > 0,
        newest(revs, cap, tombstones).last() == revs.last(),
{
}

proof fn lemma_found_at(revs: Seq<RevisionView>, i: int, k: int)
    requires
        is_history(revs),
        0 <= i <= k < revs.len(),
    ensures
        index_of_rev(revs, revs[k].number, i) == k,
    decreases k - i,
{
    if i < k {
        assert(revs[i].number < revs[k].number);
        lemma_found_at(revs, i + 1, k);
    }
}

proof fn lemma_newest_live(revs: Seq<RevisionView>, k: int, n: int)
    requires
        0 <= k < n <= revs.len(),
        !revs[k].reverted,
        forall|j: int| k < j < n ==> (#[trigger] revs[j]).reverted,
    ensures
        newest_live(revs, n) == Some(revs[k].number),
    decreases n,
{
    if k < n - 1 {
        lemma_newest_live(revs, k, n - 1);
    }
}

/// A revision just recorded is the current one, and reading it gives back what
/// was written, provided that the store keeps at least one live revision.
pub proof fn recorded_is_current(
    revs: Seq<RevisionView>,
    edit: RevisionView,
    cap: nat,
    path: Seq<char>,
)
    requires
        is_history(revs),
        edit.number > revs.last().number,
        !edit.reverted,
        cap > 0,
    ensures
        ({
            let after = newest(revs.push(edit), cap, false);
            &&& newest_live(after, after.len() as int) == Some(edit.number)
            &&& content_at(true, after, path, edit.number) == Ok::<Seq<char>, Seq<char>>(
                edit.content,
            )
            &&& revision_at(after, edit.number) == Some(edit)
        }),
{
    let h = revs.push(edit);
    lemma_push_history(revs, edit);
    lemma_newest_history(h, cap, false);
    newest_revision_stays(h, cap, false);
    let after = newest(h, cap, false);
    lemma_found_at(after, 0, after.len() - 1);
    lemma_newest_live(after, after.len() - 1, after.len() as int);
}

/// Going back to a live revision makes it the current one, with its content
/// unchanged, and no later revision can be read or gone back to any more.
pub proof fn revert_makes_current(
    revs: Seq<RevisionView>,
    rev: usize,
    cap: nat,
    path: Seq<char>,
    later: usize,
)
    requires
        is_history(revs),
        revert_verdict(true, revs, path, rev) is Ok,
        later > rev,
    ensures
        ({
            let after = newest(tombstoned(revs, rev), cap, true);
            &&& newest_live(after, after.len() as int) == Some(rev)
            &&& content_at(true, after, path, rev) == content_at(true, revs, path, rev)
            &&& content_at(true, after, path, later) is Err
            &&& revert_verdict(true, after, path, later) is Err
        }),
{
    let i = index_of_rev(revs, rev, 0);
    lemma_index_of_rev(revs, rev, 0);
    let t = tombstoned(revs, rev);
    let after = newest(t, cap, true);
    lemma_tombstoned_history(revs, rev);
    lemma_newest_history(t, cap, true);
    assert(t[i] == revs[i]);
    eviction_spares_others(t, cap, true, i);
    let k = after.index_of(t[i]);
    assert(after[k] == revs[i]);
    lemma_found_at(after, 0, k);
    assert forall|j: int| 0 <= j < after.len() && after[j].number > rev implies (
    #[trigger] after[j]).reverted by {
        assert(t.contains(after[j]));
        let m = t.index_of(after[j]);
        assert(t[m] == after[j]);
    }
    assert forall|j: int| k < j < after.len() implies (#[trigger] after[j]).reverted by {
        assert(after[k].number < after[j].number);
    }
    lemma_newest_live(after, k, after.len() as int);
    lemma_index_of_rev(after, later, 0);
    let x = index_of_rev(after, later, 0);
    if x < after.len() {
        assert(after[x].reverted);
    }
}

/// The first revision stays the first, live and with its content, whatever is
/// recorded or reverted.
pub proof fn first_revision_stays(
    revs: Seq<RevisionView>,
    edit: RevisionView,
    rev: usize,
    cap: nat,
)
    requires
        is_history(revs),
        edit.number > revs.last().number,
    ensures
        newest(revs.push(edit), cap, false)[0] == revs[0],
        newest(tombstoned(revs, rev), cap, true)[0] == revs[0],
        revs[0].number == 0 && !revs[0].reverted,
{
    let h = revs.push(edit);
    lemma_push_history(revs, edit);
    lemma_newest_history(h, cap, false);
    lemma_tombstoned_history(revs, rev);
    lemma_newest_history(tombstoned(revs, rev), cap, true);
}

/// What changes a file that has a history.
pub enum StoreCall {
    /// An edit is recorded. The number of `edit` is not looked at.
    Record { edit: RevisionView },
    /// The file is to go back to a revision.
    Revert { rev: usize },
}

/// The revision that an edit leaves with the next number.
pub open spec fn numbered(f: FileView, edit: RevisionView) -> RevisionView {
    RevisionView { number: (f.last + 1) as usize, reverted: false, ..edit }
}

/// A file behind one call. Going back to what is no live revision changes nothing.
pub open spec fn after_call(f: FileView, call: StoreCall, live_cap: nat, tombstone_cap: nat) ->
    FileView {
    match call {
        StoreCall::Record { edit } => with_edit(f, numbered(f, edit), live_cap),
        StoreCall::Revert { rev } => if revert_verdict(true, f.revs, Seq::empty(), rev) is Ok {
            with_revert(f, rev, tombstone_cap)
        } else {
            f
        },
    }
}

/// A file behind some calls.
pub open spec fn after_calls(
    f: FileView,
    calls: Seq<StoreCall>,
    live_cap: nat,
    tombstone_cap: nat,
) -> FileView
    decreases calls.len(),
{
    if calls.len() == 0 {
        f
    } else {
        after_call(
            after_calls(f, calls.drop_last(), live_cap, tombstone_cap),
            calls.last(),
            live_cap,
            tombstone_cap,
        )
    }
}

/// The numbers that some calls gave to revisions.
pub open spec fn numbers_given(
    f: FileView,
    calls: Seq<StoreCall>,
    live_cap: nat,
    tombstone_cap: nat,
) -> Seq<nat>
    decreases calls.len(),
{
    if calls.len() == 0 {
        Seq::empty()
    } else {
        let before = numbers_given(f, calls.drop_last(), live_cap, tombstone_cap);
        match calls.last() {
            StoreCall::Record { .. } => before.push(
                after_calls(f, calls.drop_last(), live_cap, tombstone_cap).last + 1,
            ),
            StoreCall::Revert { .. } => before,
        }
    }
}

/// Whatever is recorded and reverted, and whatever the caps are, a file stays sound,
/// and each new revision gets the number behind the highest that was given: no number
/// is given twice.
pub proof fn numbers_are_never_reused(
    f: FileView,
    calls: Seq<StoreCall>,
    live_cap: nat,
    tombstone_cap: nat,
)
    requires
        is_sound(f, live_cap, tombstone_cap),
        f.last + calls.len() <= usize::MAX,
    ensures
        ({
            let given = numbers_given(f, calls, live_cap, tombstone_cap);
            let after = after_calls(f, calls, live_cap, tombstone_cap);
            &&& forall|i: int| 0 <= i < given.len() ==> #[trigger] given[i] == f.last + 1 + i
            &&& after.last == f.last + given.len()
            &&& given.len() <= calls.len()
            &&& is_sound(after, live_cap, tombstone_cap)
        }),
    decreases calls.len(),
{
    if calls.len() > 0 {
        let short = calls.drop_last();
        numbers_are_never_reused(f, short, live_cap, tombstone_cap);
        let g = after_calls(f, short, live_cap, tombstone_cap);
        match calls.last() {
            StoreCall::Record { edit } => {
                lemma_edit_sound(g, numbered(g, edit), live_cap, tombstone_cap);
            },
            StoreCall::Revert { rev } => {
                lemma_revert_sound(g, rev, live_cap, tombstone_cap);
            },
        }
    }
}

/// However many edits were recorded and reverted before, an edit that is recorded gets
/// the number behind the highest that was given, is the current revision, and reads
/// back as it was written, provided that the store keeps at least one live revision.
pub proof fn recorded_reads_back(
    f: FileView,
    calls: Seq<StoreCall>,
    edit: RevisionView,
    live_cap: nat,
    tombstone_cap: nat,
    path: Seq<char>,
)
    requires
        is_sound(f, live_cap, tombstone_cap),
        f.last + calls.len() < usize::MAX,
        live_cap > 0,
    ensures
        ({
            let given = numbers_given(f, calls, live_cap, tombstone_cap);
            let all = calls.push(StoreCall::Record { edit });
            let after = after_calls(f, all, live_cap, tombstone_cap);
            let k = (f.last + given.len() + 1) as usize;
            &&& numbers_given(f, all, live_cap, tombstone_cap) == given.push(k as nat)
            &&& newest_live(after.revs, after.revs.len() as int) == Some(k)
            &&& content_at(true, after.revs, path, k) == Ok::<Seq<char>, Seq<char>>(edit.content)
        }),
{
    let all = calls.push(StoreCall::Record { edit });
    assert(all.drop_last() =~= calls);
    numbers_are_never_reused(f, calls, live_cap, tombstone_cap);
    let g = after_calls(f, calls, live_cap, tombstone_cap);
    recorded_is_current(g.revs, numbered(g, edit), live_cap, path);
}

proof fn lemma_rev_absent(revs: Seq<RevisionView>, rev: usize, i: int)
    requires
        0 <= i <= revs.len(),
        forall|k: int| i <= k < revs.len() ==> (#[trigger] revs[k]).number != rev,
    ensures
        index_of_rev(revs, rev, i) == revs.len(),
    decreases revs.len() - i,
{
    if i < revs.len() {
        lemma_rev_absent(revs, rev, i + 1);
    }
}

/// A revision is read with the text that it was recorded with, unless it was undone: then it
/// can still be looked at, but neither read nor gone back to.
pub proof fn live_revisions_read_back(revs: Seq<RevisionView>, k: int, path: Seq<char>)
    requires
        is_history(revs),
        0 <= k < revs.len(),
    ensures
        revision_at(revs, revs[k].number) == Some(revs[k]),
        !revs[k].reverted ==> content_at(true, revs, path, revs[k].number) == Ok::<
            Seq<char>,
            Seq<char>,
        >(revs[k].content),
        revs[k].reverted ==> content_at(true, revs, path, revs[k].number) is Err,
        revert_verdict(true, revs, path, revs[k].number) is Ok <==> !revs[k].reverted,
{
    lemma_found_at(revs, 0, k);
}

/// Of a file that is not known, or by a number that was not recorded, nothing is read, and
/// the refusal names the file.
pub proof fn unknown_revisions_are_refused(
    known: bool,
    revs: Seq<RevisionView>,
    path: Seq<char>,
    rev: usize,
)
    requires
        !known || forall|k: int| 0 <= k < revs.len() ==> (#[trigger] revs[k]).number != rev,
    ensures
        content_at(known, revs, path, rev) matches Err(e) && text::has_text(e, path),
        revert_verdict(known, revs, path, rev) matches Err(e) && text::has_text(e, path),
        known ==> revision_at(revs, rev) is None,
{
    let none = "no revisions recorded for "@;
    text::found_in_either(none, path, path);
    if known {
        lemma_rev_absent(revs, rev, 0);
        let head = "rev_"@ + number::dec(rev as nat) + " not found for "@;
        text::found_in_either(head, path, path);
        let names = text::join(rev_names(revs), ", "@);
        text::found_in_either(head + path, " (available: "@, path);
        text::found_in_either(head + path + " (available: "@, names, path);
        text::found_in_either(head + path + " (available: "@ + names, ")"@, path);
    }
}

/// A refusal to read a number that was not recorded lists each number that was.
pub proof fn recorded_numbers_are_listed(
    revs: Seq<RevisionView>,
    path: Seq<char>,
    rev: usize,
    i: int,
)
    requires
        forall|k: int| 0 <= k < revs.len() ==> (#[trigger] revs[k]).number != rev,
        0 <= i < revs.len(),
    ensures
        content_at(true, revs, path, rev) matches Err(e) && text::has_text(
            e,
            "rev_"@ + number::dec(revs[i].number as nat),
        ),
{
    lemma_rev_absent(revs, rev, 0);
    let head = "rev_"@ + number::dec(rev as nat) + " not found for "@ + path + " (available: "@;
    let names = text::join(rev_names(revs), ", "@);
    let p = "rev_"@ + number::dec(revs[i].number as nat);
    text::parts_are_found(rev_names(revs), ", "@, i);
    text::found_in_either(head, names, p);
    text::found_in_either(head + names, ")"@, p);
}

/// A text of at most sixteen kibibytes is stored as it is; of a longer one, a start of at most
/// that many bytes is.
pub proof fn payloads_are_stored(s: Seq<char>)
    ensures
        bytes::utf8_len(s) <= 16 * 1024 ==> stored_payload(s) == s,
        bytes::utf8_len(s) > 16 * 1024 ==> exists|k: int|
            0 <= k < s.len() && text::starts_with(stored_payload(s), #[trigger] s.take(k))
                && bytes::utf8_len(s.take(k)) <= 16 * 1024 && bytes::utf8_len(s.take(k + 1)) > 16
                * 1024,
{
    if bytes::utf8_len(s) > 16 * 1024 {
        bytes::lemma_chars_within(s, 16 * 1024, s.len() as int);
        let k = bytes::chars_within(s, 16 * 1024, s.len() as int);
        assert(s.take(s.len() as int) =~= s);
        assert(k < s.len());
        let cut = s.take(k);
        assert(stored_payload(s).subrange(0, cut.len() as int) =~= cut);
    }
}

/// A recorded edit holds what it was recorded with.
pub proof fn records_hold_their_arguments(number: usize, content: Seq<char>, args: RecordArgs)
    ensures
        ({
            let r = edit_revision(number, content, args);
            &&& r.number == number && r.content == content && !r.reverted
            &&& r.operation == args.operation@ && r.label == args.label@ && r.range == args.range
            &&& r.added == args.added && r.removed == args.removed
            &&& r.ast_ok == args.ast_ok && r.ast_error is Some == args.ast_error is Some
            &&& args.ast_error matches Some(e) ==> r.ast_error == Some(e@)
            &&& r.file_errors == args.file_errors && r.project_errors == args.project_errors
            &&& r.payload is Some == args.payload is Some
            &&& args.payload matches Some(s) ==> bytes::utf8_len(s@) <= 16 * 1024 ==> r.payload
                == Some(s@)
        }),
{
}

/// The first revision of a file holds the text that the file had, and no edit.
pub proof fn first_revision_is_the_file(content: Seq<char>, path: Seq<char>)
    ensures
        is_history(fresh_file(content).revs),
        fresh_file(content).revs.len() == 1,
        content_at(true, fresh_file(content).revs, path, 0) == Ok::<Seq<char>, Seq<char>>(content),
        newest_live(fresh_file(content).revs, 1) == Some(0usize),
        ({
            let r = fresh_file(content).revs[0];
            r.added == 0 && r.removed == 0 && r.ast_ok && r.file_errors == 0 && r.project_errors
                == 0 && r.payload is None && r.range is None
        }),
{
    live_revisions_read_back(fresh_file(content).revs, 0, path);
}

/// Going back to a revision undoes those behind it, and leaves it and those before it, and
/// the texts of all, as they were.
pub proof fn later_revisions_are_undone(revs: Seq<RevisionView>, rev: usize, i: int)
    requires
        0 <= i < revs.len(),
    ensures
        tombstoned(revs, rev).len() == revs.len(),
        revs[i].number <= rev ==> tombstoned(revs, rev)[i] == revs[i],
        revs[i].number > rev ==> tombstoned(revs, rev)[i].reverted,
        tombstoned(revs, rev)[i].number == revs[i].number,
        tombstoned(revs, rev)[i].content == revs[i].content,
        tombstoned(revs, rev)[i].payload == revs[i].payload,
        tombstoned(revs, rev)[i].label == revs[i].label,
{
}

proof fn lemma_kept_counts(revs: Seq<RevisionView>, cap: nat, tombstones: bool)
    requires
        counted(revs, tombstones) <= cap,
    ensures
        newest(revs, cap, tombstones) == revs,
    decreases revs.len(),
{
    if revs.len() > 0 {
        if counts(revs.last(), tombstones) {
            lemma_kept_counts(revs.drop_last(), (cap - 1) as nat, tombstones);
        } else {
            lemma_kept_counts(revs.drop_last(), cap, tombstones);
        }
        assert(revs.drop_last().push(revs.last()) =~= revs);
    }
}

/// Where there are no more than the limit, nothing is dropped; else the oldest go: what is
/// kept of those that count is behind what is dropped of them.
pub proof fn oldest_are_dropped(
    revs: Seq<RevisionView>,
    cap: nat,
    tombstones: bool,
    i: int,
    j: int,
)
    requires
        is_history(revs),
        0 <= i < j < revs.len(),
        counts(revs[i], tombstones),
        counts(revs[j], tombstones),
    ensures
        counted(revs, tombstones) <= cap ==> newest(revs, cap, tombstones) == revs,
        newest(revs, cap, tombstones).contains(revs[i]) ==> newest(revs, cap, tombstones).contains(
            revs[j],
        ),
{
    if counted(revs, tombstones) <= cap {
        lemma_kept_counts(revs, cap, tombstones);
    }
    lemma_oldest_dropped(revs, cap, tombstones, i, j);
}

proof fn lemma_none_kept(revs: Seq<RevisionView>, tombstones: bool, k: int)
    requires
        0 <= k < newest(revs, 0, tombstones).len(),
    ensures
        !counts(newest(revs, 0, tombstones)[k], tombstones),
    decreases revs.len(),
{
    let front = revs.drop_last();
    if !counts(revs.last(), tombstones) {
        if k < newest(front, 0, tombstones).len() {
            lemma_none_kept(front, tombstones, k);
        }
    } else {
        lemma_none_kept(front, tombstones, k);
    }
}

proof fn lemma_oldest_dropped(
    revs: Seq<RevisionView>,
    cap: nat,
    tombstones: bool,
    i: int,
    j: int,
)
    requires
        is_history(revs),
        0 <= i < j < revs.len(),
        counts(revs[i], tombstones),
        counts(revs[j], tombstones),
    ensures
        newest(revs, cap, tombstones).contains(revs[i]) ==> newest(revs, cap, tombstones).contains(
            revs[j],
        ),
    decreases revs.len(),
{
    let front = revs.drop_last();
    let all = newest(revs, cap, tombstones);
    if all.contains(revs[i]) {
        let k = choose|k: int| 0 <= k < all.len() && all[k] == revs[i];
        if cap == 0 {
            lemma_none_kept(revs, tombstones, k);
        } else if j == revs.len() - 1 {
            assert(all.last() == revs[j]);
            assert(all[all.len() - 1] == revs[j]);
        } else {
            let inner = if counts(revs.last(), tombstones) {
                (cap - 1) as nat
            } else {
                cap
            };
            let before = newest(front, inner, tombstones);
            assert(all == before.push(revs.last()));
            assert(revs[i].number < revs[revs.len() - 1].number);
            assert(k < before.len());
            assert(before[k] == revs[i]);
            assert(is_history(front)) by {
                assert(front[0] == revs[0]);
            }
            assert(front[i] == revs[i] && front[j] == revs[j]);
            lemma_oldest_dropped(front, inner, tombstones, i, j);
            let m = choose|m: int| 0 <= m < before.len() && before[m] == revs[j];
            assert(all[m] == revs[j]);
        }
    }
}

} // verus!
