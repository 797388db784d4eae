//! Application of patches and literal replacements to a file held in memory.
use vstd::prelude::*;

use super::blocks;
use super::blocks::{
    block_stands_at, copy_range, find_exact_block_matches, find_trimmed_block_matches, format_line_list,
    preview_anchor, preview_block,
};
use super::parse::{copy_texts, PatchOp, PatchOpView};
use crate::number;
use crate::number::dec_text;
use crate::order;
use crate::order::sorted_positions;
use crate::text;
use crate::text::{has_suffix, joined, split_lines};

verus! {

/// A patch operation with its place in the file fixed: the lines with indices
/// `start..end` give way to new ones.
#[derive(Debug)]
pub struct ResolvedOp {
    pub label: String,
    pub start: usize,
    pub end: usize,
    pub kind: ResolvedKind,
}

/// What a resolved operation puts in place.
#[derive(Debug)]
pub enum ResolvedKind {
    Insert { content: Vec<String> },
    Replace { content: Vec<String> },
    Delete,
}

/// A resolved operation over texts.
pub struct ResolvedView {
    pub label: Seq<char>,
    pub start: usize,
    pub end: usize,
    pub content: Seq<Seq<char>>,
}

impl DeepView for ResolvedOp {
    type V = ResolvedView;

    open spec fn deep_view(&self) -> ResolvedView {
        ResolvedView {
            label: self.label@,
            start: self.start,
            end: self.end,
            content: match self.kind {
                ResolvedKind::Insert { content } => content.deep_view(),
                ResolvedKind::Replace { content } => content.deep_view(),
                ResolvedKind::Delete => Seq::empty(),
            },
        }
    }
}

/// How messages name the operation with number `ordinal`.
pub open spec fn label_of(ordinal: nat, op: PatchOpView) -> Seq<char> {
    "op "@ + number::dec(ordinal) + match op {
        PatchOpView::InsertBefore { line, .. } => " INSERT_BEFORE "@ + number::dec(line as nat),
        PatchOpView::InsertAfter { line, .. } => " INSERT_AFTER "@ + number::dec(line as nat),
        PatchOpView::ReplaceAt { start, old, .. } => " REPLACE_AT "@ + number::dec(start as nat)
            + " ("@ + number::dec(old.len()) + " OLD line(s))"@,
        PatchOpView::DeleteAt { start, old } => " DELETE_AT "@ + number::dec(start as nat) + " ("@
            + number::dec(old.len()) + " OLD line(s))"@,
    }
}

/// Names the operation with number `ordinal`.
pub fn op_label(ordinal: usize, op: &PatchOp) -> (r: String)
    ensures
        r@ == label_of(ordinal as nat, op.deep_view()),
{
    let tail = match op {
        PatchOp::InsertBefore { line, .. } => " INSERT_BEFORE ".to_owned().concat(&dec_text(*line)),
        PatchOp::InsertAfter { line, .. } => " INSERT_AFTER ".to_owned().concat(&dec_text(*line)),
        PatchOp::ReplaceAt { start, old, .. } => {
            proof {
                assert(old.deep_view().len() == old@.len());
            }
            " REPLACE_AT ".to_owned().concat(&dec_text(*start)).concat(" (").concat(
                &dec_text(old.len()),
            ).concat(" OLD line(s))")
        },
        PatchOp::DeleteAt { start, old } => {
            proof {
                assert(old.deep_view().len() == old@.len());
            }
            " DELETE_AT ".to_owned().concat(&dec_text(*start)).concat(" (").concat(
                &dec_text(old.len()),
            ).concat(" OLD line(s))")
        },
    };
    "op ".to_owned().concat(&dec_text(ordinal)).concat(&tail)
}

/// The lines with indices `start..end`, as line numbers.
pub open spec fn span_text(start: usize, end: usize) -> Seq<char> {
    if end <= start + 1 {
        "L"@ + number::dec((start + 1) as nat)
    } else {
        "L"@ + number::dec((start + 1) as nat) + "-L"@ + number::dec(end as nat)
    }
}

/// Names the lines with indices `start..end`.
pub fn display_span(start: usize, end: usize) -> (r: String)
    requires
        start < usize::MAX,
    ensures
        r@ == span_text(start, end),
{
    if end <= start + 1 {
        "L".to_owned().concat(&dec_text(start + 1))
    } else {
        "L".to_owned().concat(&dec_text(start + 1)).concat("-L").concat(&dec_text(end))
    }
}

/// Whether an insertion at `line` is possible in a file of `total` lines.
pub open spec fn insert_line_verdict(line: usize, total: nat) -> Result<(), Seq<char>> {
    if line == 0 || line > total {
        Err(
            "insert line "@ + number::dec(line as nat) + " out of range for "@ + number::dec(total)
                + " line file"@,
        )
    } else {
        Ok(())
    }
}

/// Checks that an insertion at `line` is possible.
pub fn validate_insert_line(line: usize, total_lines: usize) -> (r: Result<(), String>)
    ensures
        text::result_view(r) == insert_line_verdict(line, total_lines as nat),
{
    if line == 0 || line > total_lines {
        return Err(
            "insert line ".to_owned().concat(&dec_text(line)).concat(" out of range for ").concat(
                &dec_text(total_lines),
            ).concat(" line file"),
        );
    }
    Ok(())
}

/// What is said of an `OLD` block that stands nowhere in the file.
pub open spec fn old_not_found(
    original: Seq<Seq<char>>,
    start_line: usize,
    old: Seq<Seq<char>>,
    op_name: Seq<char>,
) -> Seq<char> {
    let near = blocks::block_matches(blocks::trim_lines(original), blocks::trim_lines(old));
    let head = "OLD mismatch for "@ + op_name + " "@ + number::dec(start_line as nat)
        + ": OLD block was not found at the anchor or elsewhere\nOLD block ("@ + number::dec(
        old.len(),
    ) + " line(s)):\n"@ + blocks::preview(old, None) + "\nActual text at anchor:\n"@
        + blocks::anchor_preview(original, start_line - 1, old.len());
    if near.len() == 0 {
        head
    } else if near.len() == 1 {
        head + "\nWhitespace-trimmed OLD would match at L"@ + number::dec((near[0] + 1) as nat)
            + "; preserve exact indentation/spacing in OLD."@
    } else {
        head + "\nWhitespace-trimmed OLD would match "@ + number::dec(near.len())
            + " locations: "@ + blocks::line_list(near) + ". Use a more specific OLD block."@
    }
}

/// The index at which the block `old`, hinted at line `start_line`, stands: at
/// the hint, or at the only place in the file that holds it.
pub open spec fn anchor_of(
    original: Seq<Seq<char>>,
    start_line: usize,
    old: Seq<Seq<char>>,
    op_name: Seq<char>,
) -> Result<usize, Seq<char>> {
    let found = blocks::block_matches(original, old);
    if old.len() == 0 {
        Err(op_name + " OLD block must not be empty"@)
    } else if start_line == 0 {
        Err("line numbers are 1-based"@)
    } else if blocks::block_at(original, old, start_line - 1) {
        Ok((start_line - 1) as usize)
    } else if found.len() == 1 {
        Ok(found[0])
    } else if found.len() == 0 {
        Err(old_not_found(original, start_line, old, op_name))
    } else {
        Err(
            "OLD mismatch for "@ + op_name + " "@ + number::dec(start_line as nat)
                + ": OLD block matched "@ + number::dec(found.len()) + " locations: "@
                + blocks::line_list(found) + ". Use a more specific OLD block.\nOLD block:\n"@
                + blocks::preview(old, None),
        )
    }
}

proof fn lemma_matches_in_range(h: Seq<Seq<char>>, n: Seq<Seq<char>>)
    requires
        h.len() <= usize::MAX,
    ensures
        forall|i: int|
            0 <= i < blocks::block_matches(h, n).len() ==> #[trigger] blocks::block_matches(h, n)[i]
                < h.len() && blocks::block_at(h, n, blocks::block_matches(h, n)[i] as int),
{
    blocks::lemma_block_positions(h, n, h.len() as int);
}

/// Finds the index at which the block `old`, hinted at line `start_line`,
/// stands.
pub fn resolve_old_anchor(
    original: &[String],
    start_line: usize,
    old: &[String],
    op_name: &str,
) -> (r: Result<usize, String>)
    ensures
        text::result_view(r) == anchor_of(original.deep_view(), start_line, old.deep_view(), op_name@),
        r matches Ok(k) ==> blocks::block_at(original.deep_view(), old.deep_view(), k as int),
{
    let ghost o = original.deep_view();
    let ghost d = old.deep_view();
    let total: usize = original.len();
    proof {
        assert(total == o.len());
        assert(old@.len() == d.len());
        lemma_matches_in_range(o, d);
        lemma_matches_in_range(blocks::trim_lines(o), blocks::trim_lines(d));
    }
    if old.len() == 0 {
        return Err(op_name.to_owned().concat(" OLD block must not be empty"));
    }
    if start_line == 0 {
        return Err("line numbers are 1-based".to_owned());
    }
    if block_stands_at(original, old, start_line - 1) {
        return Ok(start_line - 1);
    }
    let found = find_exact_block_matches(original, old);
    if found.len() == 1 {
        return Ok(found[0]);
    }
    if found.len() > 1 {
        return Err(
            "OLD mismatch for ".to_owned().concat(op_name).concat(" ").concat(
                &dec_text(start_line),
            ).concat(": OLD block matched ").concat(&dec_text(found.len())).concat(
                " locations: ",
            ).concat(&format_line_list(&found)).concat(
                ". Use a more specific OLD block.\nOLD block:\n",
            ).concat(&preview_block(old, None)),
        );
    }
    let head = "OLD mismatch for ".to_owned().concat(op_name).concat(" ").concat(
        &dec_text(start_line),
    ).concat(
        ": OLD block was not found at the anchor or elsewhere\nOLD block (",
    ).concat(&dec_text(old.len())).concat(" line(s)):\n").concat(&preview_block(old, None)).concat(
        "\nActual text at anchor:\n",
    ).concat(&preview_anchor(original, start_line - 1, old.len()));
    let near = find_trimmed_block_matches(original, old);
    if near.len() == 0 {
        return Err(head);
    }
    if near.len() == 1 {
        return Err(
            head.concat("\nWhitespace-trimmed OLD would match at L").concat(
                &dec_text(near[0] + 1),
            ).concat("; preserve exact indentation/spacing in OLD."),
        );
    }
    Err(
        head.concat("\nWhitespace-trimmed OLD would match ").concat(&dec_text(near.len())).concat(
            " locations: ",
        ).concat(&format_line_list(&near)).concat(". Use a more specific OLD block."),
    )
}

/// The operation with number `ordinal`, with its place in the file fixed.
pub open spec fn resolve_one(original: Seq<Seq<char>>, op: PatchOpView, ordinal: nat) -> Result<
    ResolvedView,
    Seq<char>,
> {
    let label = label_of(ordinal, op);
    match op {
        PatchOpView::InsertBefore { line, content } => match insert_line_verdict(
            line,
            original.len(),
        ) {
            Err(e) => Err(e),
            Ok(_) => {
                let at = (line - 1) as usize;
                Ok(ResolvedView { label, start: at, end: at, content })
            },
        },
        PatchOpView::InsertAfter { line, content } => match insert_line_verdict(
            line,
            original.len(),
        ) {
            Err(e) => Err(e),
            Ok(_) => Ok(ResolvedView { label, start: line, end: line, content }),
        },
        PatchOpView::ReplaceAt { start, old, new } => match anchor_of(
            original,
            start,
            old,
            "REPLACE_AT"@,
        ) {
            Err(e) => Err(e),
            Ok(at) => Ok(
                ResolvedView { label, start: at, end: (at + old.len()) as usize, content: new },
            ),
        },
        PatchOpView::DeleteAt { start, old } => match anchor_of(
            original,
            start,
            old,
            "DELETE_AT"@,
        ) {
            Err(e) => Err(e),
            Ok(at) => Ok(
                ResolvedView {
                    label,
                    start: at,
                    end: (at + old.len()) as usize,
                    content: Seq::empty(),
                },
            ),
        },
    }
}

/// The first `n` operations with their places fixed; the first that has none
/// decides the error.
pub open spec fn resolve_first(original: Seq<Seq<char>>, ops: Seq<PatchOpView>, n: int) -> Result<
    Seq<ResolvedView>,
    Seq<char>,
>
    decreases n,
{
    if n <= 0 {
        Ok(Seq::empty())
    } else {
        match resolve_first(original, ops, n - 1) {
            Err(e) => Err(e),
            Ok(done) => match resolve_one(original, ops[n - 1], n as nat) {
                Err(e) => Err(e),
                Ok(op) => Ok(done.push(op)),
            },
        }
    }
}

proof fn lemma_resolve_error(original: Seq<Seq<char>>, ops: Seq<PatchOpView>, n: int, m: int)
    requires
        0 <= n <= m,
        resolve_first(original, ops, n) is Err,
    ensures
        resolve_first(original, ops, m) == resolve_first(original, ops, n),
    decreases m - n,
{
    if n < m {
        lemma_resolve_error(original, ops, n, m - 1);
    }
}

/// Whether an operation lies within a file of `total` lines.
pub open spec fn op_fits(op: ResolvedView, total: nat) -> bool {
    op.start <= op.end <= total
}

fn resolve_op(original: &[String], op: &PatchOp, ordinal: usize) -> (r: Result<ResolvedOp, String>)
    ensures
        text::result_view(r) == resolve_one(original.deep_view(), op.deep_view(), ordinal as nat),
        r matches Ok(x) ==> op_fits(x.deep_view(), original@.len()),
{
    let ghost ov = original.deep_view();
    let total: usize = original.len();
    proof {
        assert(total == ov.len());
    }
    let label = op_label(ordinal, op);
    match op {
        PatchOp::InsertBefore { line, content } => match validate_insert_line(*line, total) {
            Err(e) => Err(e),
            Ok(_) => Ok(
                ResolvedOp {
                    label,
                    start: *line - 1,
                    end: *line - 1,
                    kind: ResolvedKind::Insert { content: copy_texts(content) },
                },
            ),
        },
        PatchOp::InsertAfter { line, content } => match validate_insert_line(*line, total) {
            Err(e) => Err(e),
            Ok(_) => Ok(
                ResolvedOp {
                    label,
                    start: *line,
                    end: *line,
                    kind: ResolvedKind::Insert { content: copy_texts(content) },
                },
            ),
        },
        PatchOp::ReplaceAt { start, old, new } => match resolve_old_anchor(
            original,
            *start,
            old,
            "REPLACE_AT",
        ) {
            Err(e) => Err(e),
            Ok(at) => {
                proof {
                    assert(old.deep_view().len() == old@.len());
                }
                Ok(
                    ResolvedOp {
                        label,
                        start: at,
                        end: at + old.len(),
                        kind: ResolvedKind::Replace { content: copy_texts(new) },
                    },
                )
            },
        },
        PatchOp::DeleteAt { start, old } => match resolve_old_anchor(
            original,
            *start,
            old,
            "DELETE_AT",
        ) {
            Err(e) => Err(e),
            Ok(at) => {
                proof {
                    assert(old.deep_view().len() == old@.len());
                }
                Ok(
                    ResolvedOp {
                        label,
                        start: at,
                        end: at + old.len(),
                        kind: ResolvedKind::Delete,
                    },
                )
            },
        },
    }
}

/// The indices of the operations that replace or delete lines, among the first
/// `n`.
pub open spec fn span_indices(ops: Seq<ResolvedView>, n: int) -> Seq<usize>
    decreases n,
{
    if n <= 0 {
        Seq::empty()
    } else if ops[n - 1].start != ops[n - 1].end {
        span_indices(ops, n - 1).push((n - 1) as usize)
    } else {
        span_indices(ops, n - 1)
    }
}

/// The lines that the operations at `indices` claim.
pub open spec fn span_keys(ops: Seq<ResolvedView>, indices: Seq<usize>) -> Seq<(usize, usize)> {
    Seq::new(indices.len(), |i: int| (ops[indices[i] as int].start, ops[indices[i] as int].end))
}

/// In a list of spans in ascending order, the first index at or after `a` whose
/// span reaches into the next one, or the last index.
pub open spec fn first_span_clash(keys: Seq<(usize, usize)>, order: Seq<usize>, a: int) -> int
    decreases order.len() - a,
{
    if 0 <= a && a + 1 < order.len() && keys[order[a + 1] as int].0 >= keys[order[a] as int].1 {
        first_span_clash(keys, order, a + 1)
    } else {
        a
    }
}

/// What is said of two operations that claim the same lines.
pub open spec fn span_clash_text(x: ResolvedView, y: ResolvedView) -> Seq<char> {
    "patch operations have overlapping replacement/delete spans: "@ + x.label + " covers "@
        + span_text(x.start, x.end) + ", overlaps "@ + y.label + " covers "@ + span_text(
        y.start,
        y.end,
    )
        + ". Use the smallest enclosing REPLACE_AT block for the overlap, split the patch into non-overlapping regions, or retry with a narrower edit_file task for one region/function."@
}

/// Whether the operations that replace or delete lines, taken in the order of
/// the file, each end before the next one starts, and the first two that do
/// not.
pub open spec fn spans_verdict(ops: Seq<ResolvedView>) -> Result<(), Seq<char>> {
    let indices = span_indices(ops, ops.len() as int);
    let keys = span_keys(ops, indices);
    let order = order::sorted(keys);
    let a = first_span_clash(keys, order, 0);
    if a + 1 < order.len() {
        Err(
            span_clash_text(
                ops[indices[order[a] as int] as int],
                ops[indices[order[a + 1] as int] as int],
            ),
        )
    } else {
        Ok(())
    }
}

proof fn lemma_span_indices(ops: Seq<ResolvedView>, n: int)
    requires
        0 <= n <= ops.len() <= usize::MAX,
    ensures
        forall|i: int|
            0 <= i < span_indices(ops, n).len() ==> #[trigger] span_indices(ops, n)[i] < n
                && ops[span_indices(ops, n)[i] as int].start != ops[span_indices(
                ops,
                n,
            )[i] as int].end,
        forall|k: int|
            0 <= k < n && (#[trigger] ops[k]).start != ops[k].end ==> span_indices(
                ops,
                n,
            ).contains(k as usize),
    decreases n,
{
    if n > 0 {
        lemma_span_indices(ops, n - 1);
        let rest = span_indices(ops, n - 1);
        let all = span_indices(ops, n);
        assert forall|k: int| 0 <= k < n && (#[trigger] ops[k]).start != ops[k].end implies all.contains(
            k as usize,
        ) by {
            if k == n - 1 {
                assert(all[all.len() - 1] == k as usize);
            } else {
                assert(rest.contains(k as usize));
                let p = rest.index_of(k as usize);
                assert(all[p] == k as usize);
            }
        }
    }
}

/// Rejects operations that replace or delete the same lines.
pub fn reject_overlapping_spans(ops: &Vec<ResolvedOp>) -> (r: Result<(), String>)
    requires
        forall|i: int| 0 <= i < ops@.len() ==> (#[trigger] ops@[i]).start < usize::MAX || ops@[i].start == ops@[i].end,
        forall|i: int| 0 <= i < ops@.len() ==> (#[trigger] ops@[i]).start <= ops@[i].end,
    ensures
        text::result_view(r) == spans_verdict(ops.deep_view()),
        r is Ok ==> spans_disjoint(ops.deep_view()),
{
    let ghost ov = ops.deep_view();
    let n: usize = ops.len();
    let mut indices: Vec<usize> = Vec::new();
    let mut keys: Vec<(usize, usize)> = Vec::new();
    let mut i: usize = 0;
    while i < n
        invariant
            i <= n == ops.len() == ov.len(),
            ov == ops.deep_view(),
            indices@ == span_indices(ov, i as int),
            keys@ == span_keys(ov, indices@),
        decreases n - i,
    {
        proof {
            assert(ov[i as int] == ops[i as int].deep_view());
        }
        if ops[i].start != ops[i].end {
            let ghost k0 = keys@;
            let ghost i0 = indices@;
            indices.push(i);
            keys.push((ops[i].start, ops[i].end));
            proof {
                assert(keys@ =~= span_keys(ov, indices@));
            }
        }
        i += 1;
    }
    proof {
        lemma_span_indices(ov, n as int);
    }
    let order = sorted_positions(&keys);
    let m: usize = order.len();
    let mut a: usize = 1;
    while a < m
        invariant
            1 <= a,
            a <= m || m == 0,
            m == order.len() == keys.len() == indices.len(),
            n == ops.len() == ov.len(),
            ov == ops.deep_view(),
            indices@ == span_indices(ov, n as int),
            keys@ == span_keys(ov, indices@),
            order@ == order::sorted(keys@),
            order::is_order(keys@, order@, m as int),
            forall|i: int|
                0 <= i < indices@.len() ==> #[trigger] indices@[i] < n && ov[indices@[i] as int].start
                    != ov[indices@[i] as int].end,
            forall|i: int|
                0 <= i < ops@.len() ==> (#[trigger] ops@[i]).start < usize::MAX || ops@[i].start
                    == ops@[i].end,
            first_span_clash(keys@, order@, 0) == first_span_clash(keys@, order@, a - 1),
        decreases m - a,
    {
        let x = keys[order[a - 1]];
        let y = keys[order[a]];
        if y.0 < x.1 {
            let p = &ops[indices[order[a - 1]]];
            let q = &ops[indices[order[a]]];
            proof {
                assert(ov[indices@[order@[a - 1] as int] as int] == p.deep_view());
                assert(ov[indices@[order@[a as int] as int] as int] == q.deep_view());
            }
            return Err(
                "patch operations have overlapping replacement/delete spans: ".to_owned().concat(
                    &p.label,
                ).concat(" covers ").concat(&display_span(p.start, p.end)).concat(
                    ", overlaps ",
                ).concat(&q.label).concat(" covers ").concat(
                    &display_span(q.start, q.end),
                ).concat(
                    ". Use the smallest enclosing REPLACE_AT block for the overlap, split the patch into non-overlapping regions, or retry with a narrower edit_file task for one region/function.",
                ),
            );
        }
        a += 1;
    }
    proof {
        assert forall|i: int| 0 <= i < ov.len() implies (#[trigger] ov[i]).start <= ov[i].end by {
            assert(ov[i] == ops@[i].deep_view());
        }
        lemma_spans_disjoint(ov, order@);
    }
    Ok(())
}

/// The operations of a patch with their places fixed.
pub open spec fn resolve_all(original: Seq<Seq<char>>, ops: Seq<PatchOpView>) -> Result<
    Seq<ResolvedView>,
    Seq<char>,
> {
    match resolve_first(original, ops, ops.len() as int) {
        Err(e) => Err(e),
        Ok(resolved) => match spans_verdict(resolved) {
            Err(e) => Err(e),
            Ok(_) => Ok(resolved),
        },
    }
}

/// Fixes the place of each operation of a patch.
pub fn resolve_ops(original: &[String], ops: &[PatchOp]) -> (r: Result<Vec<ResolvedOp>, String>)
    ensures
        text::result_view(r) == resolve_all(original.deep_view(), ops.deep_view()),
        r matches Ok(v) ==> spans_disjoint(v.deep_view()) && forall|i: int|
            0 <= i < v@.len() ==> op_fits(#[trigger] v.deep_view()[i], original@.len()),
{
    let ghost ov = original.deep_view();
    let ghost pv = ops.deep_view();
    let total: usize = original.len();
    proof {
        assert(total == ov.len());
        assert(ops@.len() == pv.len());
    }
    let mut resolved: Vec<ResolvedOp> = Vec::new();
    let mut i: usize = 0;
    proof {
        assert(resolved.deep_view() =~= Seq::<ResolvedView>::empty());
    }
    while i < ops.len()
        invariant
            i <= ops@.len() == pv.len(),
            ov == original.deep_view(),
            pv == ops.deep_view(),
            total == original@.len(),
            resolve_first(ov, pv, i as int) == Ok::<Seq<ResolvedView>, Seq<char>>(
                resolved.deep_view(),
            ),
            forall|i: int|
                0 <= i < resolved@.len() ==> op_fits(
                    #[trigger] resolved.deep_view()[i],
                    original@.len(),
                ),
        decreases ops.len() - i,
    {
        proof {
            assert(pv[i as int] == ops@[i as int].deep_view());
        }
        match resolve_op(original, &ops[i], i + 1) {
            Err(e) => {
                proof {
                    assert(resolve_first(ov, pv, i + 1) == Err::<Seq<ResolvedView>, Seq<char>>(e@));
                    lemma_resolve_error(ov, pv, i + 1, pv.len() as int);
                }
                return Err(e);
            },
            Ok(op) => {
                let ghost before = resolved.deep_view();
                resolved.push(op);
                proof {
                    assert(resolved.deep_view() =~= before.push(op.deep_view()));
                }
            },
        }
        i += 1;
    }
    proof {
        assert forall|i: int| 0 <= i < resolved@.len() implies (#[trigger] resolved@[i]).start
            < usize::MAX || resolved@[i].start == resolved@[i].end by {
            assert(op_fits(resolved.deep_view()[i], original@.len()));
        }
        assert forall|i: int| 0 <= i < resolved@.len() implies (#[trigger] resolved@[i]).start
            <= resolved@[i].end by {
            assert(op_fits(resolved.deep_view()[i], original@.len()));
        }
    }
    match reject_overlapping_spans(&resolved) {
        Err(e) => Err(e),
        Ok(_) => Ok(resolved),
    }
}

/// Whether two operations that replace or delete lines claim different lines.
pub open spec fn spans_disjoint(ops: Seq<ResolvedView>) -> bool {
    forall|i: int, j: int|
        0 <= i < ops.len() && 0 <= j < ops.len() && i != j && (#[trigger] ops[i]).start
            < ops[i].end && (#[trigger] ops[j]).start < ops[j].end ==> ops[i].end <= ops[j].start
            || ops[j].end <= ops[i].start
}

proof fn lemma_no_clash(keys: Seq<(usize, usize)>, order: Seq<usize>, a: int)
    requires
        0 <= a,
        first_span_clash(keys, order, a) + 1 >= order.len(),
    ensures
        forall|b: int|
            a <= b && b + 1 < order.len() ==> keys[order[b + 1] as int].0 >= keys[
                #[trigger] order[b] as int].1,
    decreases order.len() - a,
{
    if a + 1 < order.len() {
        if keys[order[a + 1] as int].0 >= keys[order[a] as int].1 {
            lemma_no_clash(keys, order, a + 1);
        }
    }
}

proof fn lemma_clash_free_chain(keys: Seq<(usize, usize)>, order: Seq<usize>, b: int, c: int)
    requires
        0 <= b < c < order.len(),
        forall|i: int| 0 <= i < order.len() ==> keys[#[trigger] order[i] as int].0 <= keys[
            order[i] as int].1,
        forall|i: int|
            0 <= i && i + 1 < order.len() ==> keys[order[i + 1] as int].0 >= keys[
                #[trigger] order[i] as int].1,
    ensures
        keys[order[c] as int].0 >= keys[order[b] as int].1,
    decreases c - b,
{
    assert(keys[order[c - 1 + 1] as int].0 >= keys[order[c - 1] as int].1);
    if b < c - 1 {
        lemma_clash_free_chain(keys, order, b, c - 1);
        assert(keys[order[c - 1] as int].0 <= keys[order[c - 1] as int].1);
    }
}

/// Operations without a clash claim different lines.
proof fn lemma_spans_disjoint(ops: Seq<ResolvedView>, order: Seq<usize>)
    requires
        ops.len() <= usize::MAX,
        forall|i: int| 0 <= i < ops.len() ==> (#[trigger] ops[i]).start <= ops[i].end,
        ({
            let indices = span_indices(ops, ops.len() as int);
            let keys = span_keys(ops, indices);
            order::is_order(keys, order, indices.len() as int) && first_span_clash(keys, order, 0)
                + 1 >= order.len()
        }),
    ensures
        spans_disjoint(ops),
{
    let indices = span_indices(ops, ops.len() as int);
    let keys = span_keys(ops, indices);
    lemma_span_indices(ops, ops.len() as int);
    lemma_no_clash(keys, order, 0);
    assert forall|i: int| 0 <= i < order.len() implies keys[#[trigger] order[i] as int].0 <= keys[
        order[i] as int].1 by {
        assert(indices[order[i] as int] < ops.len());
        let o = ops[indices[order[i] as int] as int];
        assert(o.start <= o.end);
    }
    assert forall|i: int, j: int|
        0 <= i < ops.len() && 0 <= j < ops.len() && i != j && (#[trigger] ops[i]).start
            < ops[i].end && (#[trigger] ops[j]).start < ops[j].end implies ops[i].end
        <= ops[j].start || ops[j].end <= ops[i].start by {
        assert(indices.contains(i as usize));
        assert(indices.contains(j as usize));
        let p = indices.index_of(i as usize);
        let q = indices.index_of(j as usize);
        assert(indices[p] == i && indices[q] == j);
        lemma_indices_short(ops, ops.len() as int);
        assert(order.contains(p as usize));
        assert(order.contains(q as usize));
        let b = order.index_of(p as usize);
        let c = order.index_of(q as usize);
        assert(order[b] == p && order[c] == q);
        if b < c {
            lemma_clash_free_chain(keys, order, b, c);
        } else {
            lemma_clash_free_chain(keys, order, c, b);
        }
    }
}

proof fn lemma_indices_short(ops: Seq<ResolvedView>, n: int)
    requires
        0 <= n,
    ensures
        span_indices(ops, n).len() <= n,
    decreases n,
{
    if n > 0 {
        lemma_indices_short(ops, n - 1);
    }
}

/// The lines `ls` after one operation.
pub open spec fn splice(ls: Seq<Seq<char>>, op: ResolvedView) -> Seq<Seq<char>> {
    ls.take(op.start as int) + op.content + ls.skip(op.end as int)
}

/// Keys by which operations are applied: from the end of the file to its
/// start.
pub open spec fn backward_keys(ops: Seq<ResolvedView>) -> Seq<(usize, usize)> {
    Seq::new(
        ops.len(),
        |i: int| ((usize::MAX - ops[i].start) as usize, (usize::MAX - ops[i].end) as usize),
    )
}

/// The lines `ls` after the operations `order[a..]`, one after the other.
pub open spec fn splice_from(
    ls: Seq<Seq<char>>,
    ops: Seq<ResolvedView>,
    order: Seq<usize>,
    a: int,
) -> Seq<Seq<char>>
    decreases order.len() - a,
{
    if 0 <= a < order.len() {
        splice_from(splice(ls, ops[order[a] as int]), ops, order, a + 1)
    } else {
        ls
    }
}

/// The lines `ls` after all operations, which are applied from the end of the
/// file to its start.
pub open spec fn patched_lines(ls: Seq<Seq<char>>, ops: Seq<ResolvedView>) -> Seq<Seq<char>> {
    splice_from(ls, ops, order::sorted(backward_keys(ops)), 0)
}

/// `content` after all operations. A newline at the end is kept.
pub open spec fn patched_text(content: Seq<char>, ops: Seq<ResolvedView>) -> Seq<char> {
    text::ended(
        text::join(patched_lines(text::lines(content), ops), "\n"@),
        text::ends_with(content, "\n"@),
    )
}

fn splice_lines(ls: &Vec<String>, op: &ResolvedOp) -> (r: Vec<String>)
    requires
        op.start <= op.end <= ls@.len(),
    ensures
        r.deep_view() == splice(ls.deep_view(), op.deep_view()),
{
    let ghost lv = ls.deep_view();
    let ghost c = op.deep_view().content;
    let mut out = copy_range(ls, 0, op.start);
    let ghost head = out.deep_view();
    proof {
        assert(head =~= lv.take(op.start as int));
    }
    let mut added = match &op.kind {
        ResolvedKind::Insert { content } => copy_texts(content),
        ResolvedKind::Replace { content } => copy_texts(content),
        ResolvedKind::Delete => Vec::new(),
    };
    proof {
        assert(added.deep_view() =~= c);
    }
    out.append(&mut added);
    proof {
        assert(out.deep_view() =~= head + c);
    }
    let mut tail = copy_range(ls, op.end, ls.len());
    proof {
        assert(tail.deep_view() =~= lv.skip(op.end as int));
    }
    let ghost t = tail.deep_view();
    out.append(&mut tail);
    proof {
        assert(out.deep_view() =~= head + c + t);
    }
    out
}

/// Applies resolved operations to `content`.
pub fn apply_resolved_patch(content: &str, resolved: &Vec<ResolvedOp>) -> (r: String)
    requires
        forall|i: int|
            0 <= i < resolved@.len() ==> op_fits(
                #[trigger] resolved.deep_view()[i],
                text::lines(content@).len(),
            ),
        spans_disjoint(resolved.deep_view()),
    ensures
        r@ == patched_text(content@, resolved.deep_view()),
{
    let ghost ov = resolved.deep_view();
    let n: usize = resolved.len();
    let mut keys: Vec<(usize, usize)> = Vec::new();
    let mut i: usize = 0;
    while i < n
        invariant
            i <= n == resolved.len() == ov.len(),
            ov == resolved.deep_view(),
            keys@ == backward_keys(ov).take(i as int),
        decreases n - i,
    {
        keys.push((usize::MAX - resolved[i].start, usize::MAX - resolved[i].end));
        proof {
            assert(ov[i as int] == resolved@[i as int].deep_view());
            assert(keys@ =~= backward_keys(ov).take(i + 1));
        }
        i += 1;
    }
    proof {
        assert(keys@ =~= backward_keys(ov));
    }
    let order = sorted_positions(&keys);
    let mut lines = split_lines(content);
    proof {
        assert(lines@.len() == lines.deep_view().len());
    }
    let mut a: usize = 0;
    while a < n
        invariant
            a <= n == resolved.len() == ov.len() == order.len(),
            ov == resolved.deep_view(),
            order@ == order::sorted(backward_keys(ov)),
            order::is_order(backward_keys(ov), order@, n as int),
            spans_disjoint(ov),
            forall|i: int| 0 <= i < ov.len() ==> (#[trigger] ov[i]).start <= ov[i].end,
            forall|b: int|
                a <= b < n ==> ov[#[trigger] order@[b] as int].end <= lines.deep_view().len(),
            splice_from(lines.deep_view(), ov, order@, a as int) == patched_lines(
                text::lines(content@),
                ov,
            ),
        decreases n - a,
    {
        let ghost cur = lines.deep_view();
        let p: usize = order[a];
        proof {
            assert(ov[order@[a as int] as int].end <= cur.len());
            assert(ov[p as int] == resolved@[p as int].deep_view());
            assert(lines@.len() == cur.len());
        }
        lines = splice_lines(&lines, &resolved[p]);
        proof {
            let now = lines.deep_view();
            assert forall|b: int| a + 1 <= b < n implies ov[#[trigger] order@[b] as int].end
                <= now.len() by {
                let q = order@[b] as int;
                assert(order::precedes(
                    backward_keys(ov),
                    order@[a as int] as int,
                    order@[b] as int,
                ));
                assert(ov[p as int].start >= ov[q].start);
                assert(ov[q].end <= cur.len());
            }
        }
        a += 1;
    }
    let out = joined(&lines, "\n");
    if has_suffix(content, "\n") && !has_suffix(&out, "\n") {
        out.concat("\n")
    } else {
        out
    }
}

/// `content` after a patch.
pub open spec fn patch_result(content: Seq<char>, ops: Seq<PatchOpView>) -> Result<
    Seq<char>,
    Seq<char>,
> {
    match resolve_all(text::lines(content), ops) {
        Err(e) => Err(e),
        Ok(resolved) => Ok(patched_text(content, resolved)),
    }
}

/// Applies a patch to `content`: all of its operations, or none.
pub fn apply_patch_dry_run(content: &str, ops: &[PatchOp]) -> (r: Result<String, String>)
    ensures
        text::result_view(r) == patch_result(content@, ops.deep_view()),
{
    let lines = split_lines(content);
    proof {
        assert(lines@.len() == lines.deep_view().len());
    }
    match resolve_ops(&lines, ops) {
        Err(e) => Err(e),
        Ok(resolved) => Ok(apply_resolved_patch(content, &resolved)),
    }
}

/// The first index at or after `i` of an operation that reaches outside the
/// lines with indices `lo..hi`, or the length.
pub open spec fn first_outside(ops: Seq<ResolvedView>, lo: int, hi: int, i: int) -> int
    decreases ops.len() - i,
{
    if 0 <= i < ops.len() && lo <= ops[i].start && ops[i].end <= hi {
        first_outside(ops, lo, hi, i + 1)
    } else {
        i
    }
}

/// What is said of a region that a file of `total` lines does not have.
pub open spec fn bad_region(start_line: usize, end_line: usize, total: nat) -> Seq<char> {
    "invalid edit region L"@ + number::dec(start_line as nat) + "-L"@ + number::dec(end_line as nat)
        + " for "@ + number::dec(total) + " line file"@
}

/// `content` after a patch that may touch only the lines
/// `start_line..=end_line`.
pub open spec fn region_patch_result(
    content: Seq<char>,
    ops: Seq<PatchOpView>,
    start_line: usize,
    end_line: usize,
) -> Result<Seq<char>, Seq<char>> {
    let total = text::lines(content).len();
    if start_line == 0 || end_line < start_line || end_line > total {
        Err(bad_region(start_line, end_line, total))
    } else {
        match resolve_all(text::lines(content), ops) {
            Err(e) => Err(e),
            Ok(resolved) => {
                let k = first_outside(resolved, start_line - 1, end_line as int, 0);
                if k < resolved.len() {
                    Err(
                        resolved[k].label + " resolves to "@ + span_text(
                            resolved[k].start,
                            resolved[k].end,
                        ) + ", outside allowed region L"@ + number::dec(start_line as nat) + "-L"@
                            + number::dec(end_line as nat),
                    )
                } else {
                    Ok(patched_text(content, resolved))
                }
            },
        }
    }
}

/// The message on a region that a file of `total` lines does not have.
pub fn bad_region_text(start_line: usize, end_line: usize, total: usize) -> (r: String)
    ensures
        r@ == bad_region(start_line, end_line, total as nat),
{
    "invalid edit region L".to_owned().concat(&dec_text(start_line)).concat("-L").concat(
        &dec_text(end_line),
    ).concat(" for ").concat(&dec_text(total)).concat(" line file")
}

/// Applies a patch that may touch only the lines `start_line..=end_line`.
pub fn apply_patch_dry_run_in_region(
    content: &str,
    ops: &[PatchOp],
    start_line: usize,
    end_line: usize,
) -> (r: Result<String, String>)
    requires
        text::lines(content@).len() < usize::MAX,
    ensures
        text::result_view(r) == region_patch_result(
            content@,
            ops.deep_view(),
            start_line,
            end_line,
        ),
{
    let lines = split_lines(content);
    let total: usize = lines.len();
    proof {
        assert(total == lines.deep_view().len());
    }
    if start_line == 0 || end_line < start_line || end_line > total {
        return Err(bad_region_text(start_line, end_line, total));
    }
    let resolved = match resolve_ops(&lines, ops) {
        Err(e) => {
            return Err(e);
        },
        Ok(v) => v,
    };
    let ghost rv = resolved.deep_view();
    let mut i: usize = 0;
    while i < resolved.len()
        invariant
            i <= resolved.len() == rv.len(),
            rv == resolved.deep_view(),
            start_line > 0,
            total < usize::MAX,
            start_line <= end_line <= total == text::lines(content@).len(),
            resolve_all(text::lines(content@), ops.deep_view()) == Ok::<
                Seq<ResolvedView>,
                Seq<char>,
            >(rv),
            forall|i: int| 0 <= i < rv.len() ==> op_fits(#[trigger] rv[i], total as nat),
            first_outside(rv, start_line - 1, end_line as int, 0) == first_outside(
                rv,
                start_line - 1,
                end_line as int,
                i as int,
            ),
        decreases resolved.len() - i,
    {
        let op = &resolved[i];
        proof {
            assert(rv[i as int] == op.deep_view());
            assert(op_fits(rv[i as int], total as nat));
        }
        if op.start < start_line - 1 || op.end > end_line {
            return Err(
                op.label.clone().concat(" resolves to ").concat(
                    &display_span(op.start, op.end),
                ).concat(", outside allowed region L").concat(&dec_text(start_line)).concat(
                    "-L",
                ).concat(&dec_text(end_line)),
            );
        }
        i += 1;
    }
    Ok(apply_resolved_patch(content, &resolved))
}

proof fn lemma_resolve_fits(original: Seq<Seq<char>>, op: PatchOpView, ordinal: nat)
    requires
        original.len() <= usize::MAX,
    ensures
        resolve_one(original, op, ordinal) matches Ok(x) ==> op_fits(x, original.len()),
{
    match op {
        PatchOpView::ReplaceAt { start, old, new } => {
            lemma_matches_in_range(original, old);
        },
        PatchOpView::DeleteAt { start, old } => {
            lemma_matches_in_range(original, old);
        },
        _ => {},
    }
}

proof fn lemma_resolve_all_fit(original: Seq<Seq<char>>, ops: Seq<PatchOpView>, n: int)
    requires
        original.len() <= usize::MAX,
        0 <= n,
    ensures
        resolve_first(original, ops, n) matches Ok(v) ==> v.len() == n && forall|i: int|
            0 <= i < n ==> op_fits(#[trigger] v[i], original.len()),
    decreases n,
{
    if n > 0 {
        lemma_resolve_all_fit(original, ops, n - 1);
        lemma_resolve_fits(original, ops[n - 1], n as nat);
    }
}

/// The operations of a patch that has a place for each lie within the file and
/// claim different lines.
pub proof fn resolved_ops_are_sound(original: Seq<Seq<char>>, ops: Seq<PatchOpView>)
    requires
        original.len() <= usize::MAX,
        ops.len() <= usize::MAX,
    ensures
        resolve_all(original, ops) matches Ok(v) ==> {
            &&& v.len() == ops.len()
            &&& spans_disjoint(v)
            &&& forall|i: int| 0 <= i < v.len() ==> op_fits(#[trigger] v[i], original.len())
        },
{
    lemma_resolve_all_fit(original, ops, ops.len() as int);
    match resolve_all(original, ops) {
        Ok(v) => {
            let indices = span_indices(v, v.len() as int);
            lemma_indices_short(v, v.len() as int);
            order::lemma_sorted(span_keys(v, indices));
            assert forall|i: int| 0 <= i < v.len() implies (#[trigger] v[i]).start <= v[i].end by {
                assert(op_fits(v[i], original.len()));
            }
            lemma_spans_disjoint(v, order::sorted(span_keys(v, indices)));
        },
        Err(_) => {},
    }
}

/// Operations within the lines with indices `lo..hi` keep the lines above, and
/// the last `below` lines.
proof fn lemma_splice_region(
    ls: Seq<Seq<char>>,
    ops: Seq<ResolvedView>,
    order: Seq<usize>,
    a: int,
    lo: int,
    below: int,
)
    requires
        order::is_order(backward_keys(ops), order, ops.len() as int),
        spans_disjoint(ops),
        forall|i: int| 0 <= i < ops.len() ==> lo <= (#[trigger] ops[i]).start <= ops[i].end,
        0 <= a <= order.len(),
        0 <= lo,
        0 <= below,
        lo + below <= ls.len(),
        forall|b: int|
            a <= b < order.len() ==> ops[#[trigger] order[b] as int].end + below <= ls.len(),
    ensures
        ({
            let out = splice_from(ls, ops, order, a);
            &&& lo + below <= out.len()
            &&& out.take(lo) == ls.take(lo)
            &&& out.skip(out.len() - below) == ls.skip(ls.len() - below)
        }),
    decreases order.len() - a,
{
    if a < order.len() {
        let p = order[a] as int;
        let op = ops[p];
        let now = splice(ls, op);
        assert(now.take(lo) =~= ls.take(lo));
        assert(now.skip(now.len() - below) =~= ls.skip(ls.len() - below));
        assert forall|b: int| a + 1 <= b < order.len() implies ops[#[trigger] order[b] as int].end
            + below <= now.len() by {
            let q = order[b] as int;
            assert(order::precedes(backward_keys(ops), order[a] as int, order[b] as int));
            assert(op.start >= ops[q].start);
            assert(ops[q].end + below <= ls.len());
        }
        lemma_splice_region(now, ops, order, a + 1, lo, below);
    }
}

/// A patch of a region keeps all lines above the region and all lines below it, before
/// they are joined to a text.
pub proof fn region_patch_keeps_the_rest(
    content: Seq<char>,
    ops: Seq<PatchOpView>,
    start_line: usize,
    end_line: usize,
)
    requires
        text::lines(content).len() <= usize::MAX,
        ops.len() <= usize::MAX,
        region_patch_result(content, ops, start_line, end_line) is Ok,
    ensures
        resolve_all(text::lines(content), ops) is Ok,
        ({
            let ls = text::lines(content);
            let out = patched_lines(ls, resolve_all(ls, ops)->Ok_0);
            let below = ls.len() - end_line;
            &&& region_patch_result(content, ops, start_line, end_line) == Ok::<
                Seq<char>,
                Seq<char>,
            >(patched_text(content, resolve_all(ls, ops)->Ok_0))
            &&& start_line - 1 + below <= out.len()
            &&& out.take(start_line - 1) == ls.take(start_line - 1)
            &&& out.skip(out.len() - below) == ls.skip(end_line as int)
        }),
{
    let ls = text::lines(content);
    resolved_ops_are_sound(ls, ops);
    let v = resolve_all(ls, ops)->Ok_0;
    lemma_first_outside(v, start_line - 1, end_line as int, 0);
    order::lemma_sorted(backward_keys(v));
    assert forall|i: int| 0 <= i < v.len() implies start_line - 1 <= (#[trigger] v[i]).start
        <= v[i].end by {
        assert(op_fits(v[i], ls.len()));
    }
    lemma_splice_region(
        ls,
        v,
        order::sorted(backward_keys(v)),
        0,
        start_line - 1,
        ls.len() - end_line,
    );
}

proof fn lemma_kept_above(head: Seq<Seq<char>>, rest: Seq<Seq<char>>, newline: bool)
    requires
        rest.len() > 0,
        forall|k: int| 0 <= k < head.len() ==> text::is_line(#[trigger] head[k]),
    ensures
        ({
            let read = text::lines(text::ended(text::join(head + rest, "\n"@), newline));
            head.len() <= read.len() && read.take(head.len() as int) == head
        }),
{
    let above = text::with_newlines(head);
    let j = text::join(head + rest, "\n"@);
    let t = text::ended(j, newline);
    text::lemma_join_split(head, rest);
    text::lemma_newlines_end(head);
    text::written_lines_read_back(head);
    let more = t.skip(above.len() as int);
    assert(t =~= above + more);
    text::lemma_lines_append(above, more, 0);
    assert(text::lines(t).take(head.len() as int) =~= head);
}

proof fn lemma_kept_below(front: Seq<Seq<char>>, tail: Seq<Seq<char>>, newline: bool)
    requires
        tail.len() > 0,
        forall|k: int| 0 <= k < tail.len() ==> text::is_line(#[trigger] tail[k]),
        !text::loses_last_line(front + tail, newline),
    ensures
        text::lines(text::ended(text::join(front + tail, "\n"@), newline)) == text::lines(
            text::with_newlines(front),
        ) + tail,
{
    let above = text::with_newlines(front);
    let j = text::join(tail, "\n"@);
    assert((front + tail).last() == tail.last());
    text::lemma_join_split(front, tail);
    text::lemma_newlines_end(front);
    if front.len() > 0 {
        text::lemma_join_split(tail.drop_last(), seq![tail.last()]);
        assert(tail =~= tail.drop_last() + seq![tail.last()]);
        assert(text::join(seq![tail.last()], "\n"@) == tail.last());
        assert(j.len() > 0);
    }
    text::lemma_ended_append(above, j, newline);
    text::joined_lines_read_back(tail, newline);
    text::lemma_lines_append(above, text::ended(j, newline), 0);
}

/// The text that a patch of a region gives holds all lines above the region, under
/// their numbers. Left out is a text of those lines alone whose last line is empty: it
/// does not count as a line any more.
pub proof fn region_patch_keeps_lines_above(
    content: Seq<char>,
    ops: Seq<PatchOpView>,
    start_line: usize,
    end_line: usize,
)
    requires
        text::lines(content).len() <= usize::MAX,
        ops.len() <= usize::MAX,
        region_patch_result(content, ops, start_line, end_line) is Ok,
        forall|k: int|
            0 <= k < start_line - 1 ==> text::is_line(#[trigger] text::lines(content)[k]),
        ({
            let ls = text::lines(content);
            let out = patched_lines(ls, resolve_all(ls, ops)->Ok_0);
            text::loses_last_line(out, text::ends_with(content, "\n"@)) ==> out.len() > start_line
                - 1
        }),
    ensures
        ({
            let read = text::lines(region_patch_result(content, ops, start_line, end_line)->Ok_0);
            &&& start_line - 1 <= read.len()
            &&& read.take(start_line - 1) == text::lines(content).take(start_line - 1)
        }),
{
    region_patch_keeps_the_rest(content, ops, start_line, end_line);
    let ls = text::lines(content);
    let out = patched_lines(ls, resolve_all(ls, ops)->Ok_0);
    let newline = text::ends_with(content, "\n"@);
    let lo = start_line - 1;
    let head = out.take(lo);
    assert forall|k: int| 0 <= k < head.len() implies text::is_line(#[trigger] head[k]) by {
        assert(head[k] == ls.take(lo)[k]);
        assert(text::is_line(ls[k]));
    }
    if out.len() > lo {
        assert(out =~= head + out.skip(lo));
        lemma_kept_above(head, out.skip(lo), newline);
    } else {
        assert(out =~= head);
        if lo > 0 {
            text::joined_lines_read_back(out, newline);
        }
        assert(text::lines(text::ended(text::join(out, "\n"@), newline)).take(lo) =~= head);
    }
}

/// The text that a patch of a region gives holds all lines above the region and all
/// lines below it. Left out is a text whose last line, one of those, is empty: it does
/// not count as a line any more, as the newline before it ends the line above.
pub proof fn region_patch_keeps_the_text(
    content: Seq<char>,
    ops: Seq<PatchOpView>,
    start_line: usize,
    end_line: usize,
)
    requires
        text::lines(content).len() <= usize::MAX,
        ops.len() <= usize::MAX,
        region_patch_result(content, ops, start_line, end_line) is Ok,
        forall|k: int|
            0 <= k < text::lines(content).len() && (k < start_line - 1 || end_line <= k)
                ==> text::is_line(#[trigger] text::lines(content)[k]),
        ({
            let ls = text::lines(content);
            let out = patched_lines(ls, resolve_all(ls, ops)->Ok_0);
            text::loses_last_line(out, text::ends_with(content, "\n"@)) ==> end_line == ls.len()
                && out.len() > start_line - 1
        }),
    ensures
        ({
            let ls = text::lines(content);
            let read = text::lines(region_patch_result(content, ops, start_line, end_line)->Ok_0);
            let below = ls.len() - end_line;
            &&& start_line - 1 + below <= read.len()
            &&& read.take(start_line - 1) == ls.take(start_line - 1)
            &&& read.skip(read.len() - below) == ls.skip(end_line as int)
        }),
{
    region_patch_keeps_the_rest(content, ops, start_line, end_line);
    let ls = text::lines(content);
    let out = patched_lines(ls, resolve_all(ls, ops)->Ok_0);
    let newline = text::ends_with(content, "\n"@);
    let t = text::ended(text::join(out, "\n"@), newline);
    let read = text::lines(t);
    let lo = start_line - 1;
    let below = ls.len() - end_line;
    let head = out.take(lo);
    let tail = out.skip(out.len() - below);
    assert forall|k: int| 0 <= k < head.len() implies text::is_line(#[trigger] head[k]) by {
        assert(head[k] == ls.take(lo)[k]);
        assert(text::is_line(ls[k]));
    }
    assert forall|k: int| 0 <= k < tail.len() implies text::is_line(#[trigger] tail[k]) by {
        assert(tail[k] == ls.skip(end_line as int)[k]);
        assert(text::is_line(ls[end_line + k]));
    }
    if below > 0 {
        let mid = out.subrange(lo, out.len() - below);
        let front = head + mid;
        assert(out =~= front + tail);
        lemma_kept_below(front, tail, newline);
        text::lemma_with_newlines_append(head, mid);
        text::written_lines_read_back(head);
        text::lemma_lines_append(text::with_newlines(head), text::with_newlines(mid), 0);
        assert(read.take(lo) =~= head);
        assert(read.skip(read.len() - below) =~= tail);
    } else {
        assert(read.skip(read.len() - below) =~= ls.skip(end_line as int));
        region_patch_keeps_lines_above(content, ops, start_line, end_line);
    }
}

/// What a patch of a region gives, the patch gives without a region too; and where an
/// operation reaches outside the region, nothing is applied.
pub proof fn region_patches_are_all_or_nothing(
    content: Seq<char>,
    ops: Seq<PatchOpView>,
    start_line: usize,
    end_line: usize,
    k: int,
)
    ensures
        region_patch_result(content, ops, start_line, end_line) matches Ok(s) ==> {
            &&& 1 <= start_line <= end_line <= text::lines(content).len()
            &&& patch_result(content, ops) == Ok::<Seq<char>, Seq<char>>(s)
        },
        resolve_all(text::lines(content), ops) matches Ok(v) ==> (0 <= k < v.len() && !(start_line
            - 1 <= v[k].start && v[k].end <= end_line) ==> region_patch_result(
            content,
            ops,
            start_line,
            end_line,
        ) is Err),
{
    match resolve_all(text::lines(content), ops) {
        Ok(v) => {
            if first_outside(v, start_line - 1, end_line as int, 0) >= v.len() {
                lemma_first_outside(v, start_line - 1, end_line as int, 0);
            }
        },
        Err(_) => {},
    }
}

proof fn lemma_first_outside(ops: Seq<ResolvedView>, lo: int, hi: int, i: int)
    requires
        0 <= i <= ops.len(),
        first_outside(ops, lo, hi, i) >= ops.len(),
    ensures
        forall|k: int| i <= k < ops.len() ==> lo <= (#[trigger] ops[k]).start && ops[k].end <= hi,
    decreases ops.len() - i,
{
    if i < ops.len() {
        lemma_first_outside(ops, lo, hi, i + 1);
    }
}

/// A patch without operations keeps every line.
pub proof fn empty_patch_keeps_lines(content: Seq<char>)
    ensures
        patch_result(content, Seq::empty()) == Ok::<Seq<char>, Seq<char>>(
            patched_text(content, Seq::empty()),
        ),
        patched_lines(text::lines(content), Seq::empty()) == text::lines(content),
{
    let none = Seq::<ResolvedView>::empty();
    order::lemma_sorted(span_keys(none, span_indices(none, 0)));
    order::lemma_sorted(backward_keys(none));
}

/// A patch of one operation that has a place puts its content between the lines
/// before that place and the lines behind it.
proof fn lemma_one_op(content: Seq<char>, op: PatchOpView, r: ResolvedView)
    requires
        text::lines(content).len() <= usize::MAX,
        resolve_one(text::lines(content), op, 1) == Ok::<ResolvedView, Seq<char>>(r),
    ensures
        resolve_all(text::lines(content), seq![op]) == Ok::<Seq<ResolvedView>, Seq<char>>(seq![r]),
        patch_result(content, seq![op]) == Ok::<Seq<char>, Seq<char>>(
            text::ended(
                text::join(
                    text::lines(content).take(r.start as int) + r.content + text::lines(
                        content,
                    ).skip(r.end as int),
                    "\n"@,
                ),
                text::ends_with(content, "\n"@),
            ),
        ),
{
    let ls = text::lines(content);
    let v = seq![r];
    reveal_with_fuel(resolve_first, 2);
    assert(resolve_first(ls, seq![op], 0) == Ok::<Seq<ResolvedView>, Seq<char>>(Seq::empty()));
    assert(Seq::<ResolvedView>::empty().push(r) =~= v);
    assert(resolve_first(ls, seq![op], 1) == Ok::<Seq<ResolvedView>, Seq<char>>(v));
    lemma_indices_short(v, 1);
    let keys = span_keys(v, span_indices(v, 1));
    order::lemma_sorted(keys);
    assert(spans_verdict(v) is Ok);
    order::lemma_sorted(backward_keys(v));
    let o = order::sorted(backward_keys(v));
    assert(o.len() == 1 && o[0] == 0);
    reveal_with_fuel(splice_from, 2);
    assert(patched_lines(ls, v) == splice(ls, r));
}

/// Inserting before a line puts the new lines right before it: all lines above stay
/// above the new ones, the line itself and all others come behind them.
pub proof fn insert_before_comes_before(content: Seq<char>, line: usize, new: Seq<Seq<char>>)
    requires
        1 <= line <= text::lines(content).len() <= usize::MAX,
    ensures
        patch_result(content, seq![PatchOpView::InsertBefore { line, content: new }]) == Ok::<
            Seq<char>,
            Seq<char>,
        >(
            text::ended(
                text::join(
                    text::lines(content).take(line - 1) + new + text::lines(content).skip(line - 1),
                    "\n"@,
                ),
                content.len() > 0 && content.last() == '\n',
            ),
        ),
{
    let op = PatchOpView::InsertBefore { line, content: new };
    lemma_one_op(content, op, resolve_one(text::lines(content), op, 1)->Ok_0);
    lemma_ends_in_newline(content);
}

/// Inserting after a line puts the new lines right behind it: the line itself and all
/// lines above stay above the new ones, all others come behind them.
pub proof fn insert_after_comes_after(content: Seq<char>, line: usize, new: Seq<Seq<char>>)
    requires
        1 <= line <= text::lines(content).len() <= usize::MAX,
    ensures
        patch_result(content, seq![PatchOpView::InsertAfter { line, content: new }]) == Ok::<
            Seq<char>,
            Seq<char>,
        >(
            text::ended(
                text::join(
                    text::lines(content).take(line as int) + new + text::lines(content).skip(
                        line as int,
                    ),
                    "\n"@,
                ),
                content.len() > 0 && content.last() == '\n',
            ),
        ),
{
    let op = PatchOpView::InsertAfter { line, content: new };
    lemma_one_op(content, op, resolve_one(text::lines(content), op, 1)->Ok_0);
    lemma_ends_in_newline(content);
}

/// An insertion at a line that the file does not have is refused.
pub proof fn insert_needs_a_line(content: Seq<char>, line: usize, new: Seq<Seq<char>>)
    requires
        line == 0 || line > text::lines(content).len(),
    ensures
        patch_result(content, seq![PatchOpView::InsertBefore { line, content: new }]) is Err,
        patch_result(content, seq![PatchOpView::InsertAfter { line, content: new }]) is Err,
{
    reveal_with_fuel(resolve_first, 2);
}

proof fn lemma_ends_in_newline(content: Seq<char>)
    ensures
        text::ends_with(content, "\n"@) <==> content.len() > 0 && content.last() == '\n',
{
    reveal_strlit("\n");
    let n = content.len() as int;
    if text::ends_with(content, "\n"@) {
        assert(content.subrange(n - 1, n)[0] == content.last());
    }
    if n > 0 && content.last() == '\n' {
        assert(content.subrange(n - 1, n) =~= "\n"@);
    }
}

/// The place of an `OLD` block: the hinted line where it stands there, else the only
/// place where it stands.
proof fn lemma_anchor(ls: Seq<Seq<char>>, start: usize, old: Seq<Seq<char>>, op: Seq<char>, k: int)
    requires
        ls.len() <= usize::MAX,
        start >= 1,
        old.len() > 0,
        0 <= k <= ls.len() - old.len(),
        ls.subrange(k, k + old.len()) == old,
        k == start - 1 || forall|j: int|
            0 <= j <= ls.len() - old.len() && j != k ==> #[trigger] ls.subrange(j, j + old.len())
                != old,
    ensures
        anchor_of(ls, start, old, op) == Ok::<usize, Seq<char>>(k as usize),
{
    assert(blocks::block_at(ls, old, k));
    if blocks::block_at(ls, old, start - 1) {
        assert(ls.subrange(start - 1, start - 1 + old.len()) == old);
    } else {
        let found = blocks::block_matches(ls, old);
        blocks::lemma_block_positions(ls, old, ls.len() as int);
        assert(found.contains(k as usize));
        let p = found.index_of(k as usize);
        assert forall|q: int| 0 <= q < found.len() implies found[q] == k by {
            assert(blocks::block_at(ls, old, found[q] as int));
            assert(ls.subrange(found[q] as int, found[q] + old.len()) == old);
        }
        lemma_positions_ascend(ls, old, ls.len() as int);
        assert(found.len() == 1) by {
            if found.len() > 1 {
                assert(found[0] < found[1]);
            }
        }
    }
}

proof fn lemma_positions_ascend(h: Seq<Seq<char>>, n: Seq<Seq<char>>, m: int)
    requires
        0 <= m <= usize::MAX,
    ensures
        forall|a: int, b: int|
            0 <= a < b < blocks::block_positions(h, n, m).len() ==> #[trigger] blocks::block_positions(
                h,
                n,
                m,
            )[a] < #[trigger] blocks::block_positions(h, n, m)[b],
    decreases m,
{
    if m > 0 {
        lemma_positions_ascend(h, n, m - 1);
        blocks::lemma_block_positions(h, n, m - 1);
        let rest = blocks::block_positions(h, n, m - 1);
        let all = blocks::block_positions(h, n, m);
        assert forall|a: int, b: int| 0 <= a < b < all.len() implies #[trigger] all[a]
            < #[trigger] all[b] by {
            assert(all[a] == rest[a]);
            if b < rest.len() {
                assert(all[b] == rest[b]);
            } else {
                assert(rest[a] < m - 1);
            }
        }
    }
}

/// A replacement whose `OLD` block stands at index `k`, at the hinted line or in no
/// other place, puts exactly the new lines in place of that block.
pub proof fn replaced_block_gives_way(
    content: Seq<char>,
    start: usize,
    old: Seq<Seq<char>>,
    new: Seq<Seq<char>>,
    k: int,
)
    requires
        text::lines(content).len() <= usize::MAX,
        start >= 1,
        old.len() > 0,
        0 <= k <= text::lines(content).len() - old.len(),
        text::lines(content).subrange(k, k + old.len()) == old,
        k == start - 1 || forall|j: int|
            0 <= j <= text::lines(content).len() - old.len() && j != k ==> #[trigger] text::lines(
                content,
            ).subrange(j, j + old.len()) != old,
    ensures
        patch_result(content, seq![PatchOpView::ReplaceAt { start, old, new }]) == Ok::<
            Seq<char>,
            Seq<char>,
        >(
            text::ended(
                text::join(
                    text::lines(content).take(k) + new + text::lines(content).skip(k + old.len()),
                    "\n"@,
                ),
                content.len() > 0 && content.last() == '\n',
            ),
        ),
{
    let ls = text::lines(content);
    let op = PatchOpView::ReplaceAt { start, old, new };
    lemma_anchor(ls, start, old, "REPLACE_AT"@, k);
    lemma_one_op(content, op, resolve_one(ls, op, 1)->Ok_0);
    lemma_ends_in_newline(content);
}

/// A deletion whose `OLD` block stands at index `k`, at the hinted line or in no other
/// place, takes exactly that block out.
pub proof fn deleted_block_is_gone(
    content: Seq<char>,
    start: usize,
    old: Seq<Seq<char>>,
    k: int,
)
    requires
        text::lines(content).len() <= usize::MAX,
        start >= 1,
        old.len() > 0,
        0 <= k <= text::lines(content).len() - old.len(),
        text::lines(content).subrange(k, k + old.len()) == old,
        k == start - 1 || forall|j: int|
            0 <= j <= text::lines(content).len() - old.len() && j != k ==> #[trigger] text::lines(
                content,
            ).subrange(j, j + old.len()) != old,
    ensures
        patch_result(content, seq![PatchOpView::DeleteAt { start, old }]) == Ok::<
            Seq<char>,
            Seq<char>,
        >(
            text::ended(
                text::join(
                    text::lines(content).take(k) + text::lines(content).skip(k + old.len()),
                    "\n"@,
                ),
                content.len() > 0 && content.last() == '\n',
            ),
        ),
{
    let ls = text::lines(content);
    let op = PatchOpView::DeleteAt { start, old };
    lemma_anchor(ls, start, old, "DELETE_AT"@, k);
    lemma_one_op(content, op, resolve_one(ls, op, 1)->Ok_0);
    lemma_ends_in_newline(content);
    assert(ls.take(k) + Seq::<Seq<char>>::empty() =~= ls.take(k));
}

/// A replacement or deletion is refused where its `OLD` block is empty or stands
/// nowhere, and where it stands in several places but not at the hinted line.
pub proof fn unclear_block_is_refused(
    content: Seq<char>,
    start: usize,
    old: Seq<Seq<char>>,
    new: Seq<Seq<char>>,
)
    requires
        text::lines(content).len() <= usize::MAX,
        ({
            let ls = text::lines(content);
            ||| old.len() == 0
            ||| start == 0
            ||| forall|j: int|
                0 <= j <= ls.len() - old.len() ==> #[trigger] ls.subrange(j, j + old.len()) != old
            ||| !(start - 1 <= ls.len() - old.len() && ls.subrange(
                start - 1,
                start - 1 + old.len(),
            ) == old) && exists|i: int, j: int|
                0 <= i < j <= ls.len() - old.len() && #[trigger] ls.subrange(i, i + old.len())
                    == old && #[trigger] ls.subrange(j, j + old.len()) == old
        }),
    ensures
        patch_result(content, seq![PatchOpView::ReplaceAt { start, old, new }]) is Err,
        patch_result(content, seq![PatchOpView::DeleteAt { start, old }]) is Err,
{
    let ls = text::lines(content);
    reveal_with_fuel(resolve_first, 2);
    let found = blocks::block_matches(ls, old);
    if old.len() > 0 && start > 0 {
        blocks::lemma_block_positions(ls, old, ls.len() as int);
        if forall|j: int|
            0 <= j <= ls.len() - old.len() ==> #[trigger] ls.subrange(j, j + old.len()) != old {
            assert(!blocks::block_at(ls, old, start - 1)) by {
                if blocks::block_at(ls, old, start - 1) {
                    assert(ls.subrange(start - 1, start - 1 + old.len()) != old);
                }
            }
            assert(found.len() == 0) by {
                if found.len() > 0 {
                    assert(blocks::block_at(ls, old, found[0] as int));
                    assert(ls.subrange(found[0] as int, found[0] + old.len()) != old);
                }
            }
        } else {
            let (i, j) = choose|i: int, j: int|
                0 <= i < j <= ls.len() - old.len() && #[trigger] ls.subrange(i, i + old.len())
                    == old && #[trigger] ls.subrange(j, j + old.len()) == old;
            assert(blocks::block_at(ls, old, i) && blocks::block_at(ls, old, j));
            assert(found.contains(i as usize) && found.contains(j as usize));
            let a = found.index_of(i as usize);
            let b = found.index_of(j as usize);
            assert(found[a] == i && found[b] == j);
            assert(found.len() >= 2);
        }
        assert(anchor_of(ls, start, old, "REPLACE_AT"@) is Err);
        assert(anchor_of(ls, start, old, "DELETE_AT"@) is Err);
    }
}

/// Operations that all end within the first lines of a file leave the lines behind
/// those as they are.
proof fn lemma_splice_front(
    front: Seq<Seq<char>>,
    back: Seq<Seq<char>>,
    ops: Seq<ResolvedView>,
    order: Seq<usize>,
    a: int,
)
    requires
        order::is_order(backward_keys(ops), order, ops.len() as int),
        spans_disjoint(ops),
        forall|i: int| 0 <= i < ops.len() ==> (#[trigger] ops[i]).start <= ops[i].end,
        0 <= a <= order.len(),
        forall|b: int| a <= b < order.len() ==> ops[#[trigger] order[b] as int].end <= front.len(),
    ensures
        splice_from(front + back, ops, order, a) == splice_from(front, ops, order, a) + back,
    decreases order.len() - a,
{
    if a < order.len() {
        let op = ops[order[a] as int];
        let now = splice(front, op);
        assert(splice(front + back, op) =~= now + back);
        assert forall|b: int| a + 1 <= b < order.len() implies ops[#[trigger] order[b] as int].end
            <= now.len() by {
            let q = order[b] as int;
            assert(order::precedes(backward_keys(ops), order[a] as int, order[b] as int));
            assert(op.start >= ops[q].start);
        }
        lemma_splice_front(now, back, ops, order, a + 1);
    }
}

/// The operations of a patch do not disturb one another: an operation that starts
/// behind the end of all others puts its content right behind what the others make of
/// the lines before it.
pub proof fn operations_keep_apart(ls: Seq<Seq<char>>, ops: Seq<ResolvedView>, op: ResolvedView)
    requires
        ops.len() < usize::MAX,
        spans_disjoint(ops),
        op_fits(op, ls.len()),
        forall|i: int|
            0 <= i < ops.len() ==> (#[trigger] ops[i]).start <= ops[i].end <= op.start
                && ops[i].start < op.start,
    ensures
        patched_lines(ls, ops.push(op)) == patched_lines(ls.take(op.start as int), ops)
            + op.content + ls.skip(op.end as int),
{
    let all = ops.push(op);
    let n = ops.len() as int;
    let keys = backward_keys(ops);
    let more = backward_keys(all);
    order::lemma_sorted(keys);
    order::lemma_sorted(more);
    let o = order::sorted(keys);
    let o2 = seq![n as usize] + o;
    assert(order::is_order(more, o2, n + 1)) by {
        assert forall|a: int, b: int| 0 <= a < b < n + 1 implies order::precedes(
            more,
            #[trigger] o2[a] as int,
            #[trigger] o2[b] as int,
        ) by {
            let q = o[b - 1] as int;
            assert(o2[b] == o[b - 1]);
            assert(more[q] == keys[q]);
            if a == 0 {
                assert(ops[q].start < op.start);
            } else {
                assert(o2[a] == o[a - 1]);
                assert(order::precedes(keys, o[a - 1] as int, o[b - 1] as int));
            }
        }
        assert forall|i: int| 0 <= i < n + 1 implies #[trigger] o2.contains(i as usize) by {
            if i == n {
                assert(o2[0] == i as usize);
            } else {
                assert(o.contains(i as usize));
                let p = o.index_of(i as usize);
                assert(o2[p + 1] == i as usize);
            }
        }
        assert forall|a: int| 0 <= a < n + 1 implies 0 <= #[trigger] o2[a] < n + 1 by {
            if a > 0 {
                assert(o2[a] == o[a - 1]);
            }
        }
    }
    order::lemma_order_unique(more, order::sorted(more), o2, n + 1);
    let front = ls.take(op.start as int);
    let back = op.content + ls.skip(op.end as int);
    assert(all[n] == op);
    assert(splice(ls, op) =~= front + back);
    assert(splice_from(ls, all, o2, 0) == splice_from(front + back, all, o2, 1));
    lemma_shifted_order(front + back, ops, op, o, 0);
    assert forall|b: int| 0 <= b < o.len() implies ops[#[trigger] o[b] as int].end
        <= front.len() by {
        assert(ops[o[b] as int].end <= op.start);
    }
    lemma_splice_front(front, back, ops, o, 0);
    assert(patched_lines(front, ops) + back =~= patched_lines(front, ops) + op.content + ls.skip(
        op.end as int,
    ));
}

proof fn lemma_shifted_order(
    ls: Seq<Seq<char>>,
    ops: Seq<ResolvedView>,
    op: ResolvedView,
    o: Seq<usize>,
    a: int,
)
    requires
        0 <= a <= o.len(),
        forall|b: int| 0 <= b < o.len() ==> 0 <= #[trigger] o[b] < ops.len(),
    ensures
        splice_from(ls, ops.push(op), seq![ops.len() as usize] + o, a + 1) == splice_from(
            ls,
            ops,
            o,
            a,
        ),
    decreases o.len() - a,
{
    if a < o.len() {
        let o2 = seq![ops.len() as usize] + o;
        assert(o2[a + 1] == o[a]);
        assert(ops.push(op)[o[a] as int] == ops[o[a] as int]);
        lemma_shifted_order(splice(ls, ops[o[a] as int]), ops, op, o, a + 1);
    }
}

/// A newline at the end of a file is kept by every patch, and none is put there: the
/// new text is the new lines, joined, and ends in a newline behind them only where the
/// file did.
pub proof fn patch_keeps_the_last_newline(content: Seq<char>, ops: Seq<PatchOpView>)
    ensures
        patch_result(content, ops) matches Ok(s) ==> {
            let j = text::join(
                patched_lines(
                    text::lines(content),
                    resolve_all(text::lines(content), ops)->Ok_0,
                ),
                "\n"@,
            );
            &&& content.len() > 0 && content.last() == '\n' ==> s.len() > 0 && s.last() == '\n'
            &&& s == j || s == j.push('\n')
            &&& !(content.len() > 0 && content.last() == '\n') ==> s == j
            &&& j.len() > 0 && j.last() == '\n' ==> s == j
        },
{
    lemma_ends_in_newline(content);
    match patch_result(content, ops) {
        Ok(s) => {
            let j = text::join(
                patched_lines(
                    text::lines(content),
                    resolve_all(text::lines(content), ops)->Ok_0,
                ),
                "\n"@,
            );
            lemma_ends_in_newline(j);
            reveal_strlit("\n");
            assert(j + "\n"@ =~= j.push('\n'));
        },
        Err(_) => {},
    }
}

} // verus!
