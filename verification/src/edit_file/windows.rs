//! Windows: the slices in which a large file is shown.
use vstd::prelude::*;

verus! {

/// The most lines that one window shows.
pub const WINDOW_SIZE: usize = 800;

/// The lines that two neighbouring windows share when a plan is made.
pub const PREPLAN_READ_OVERLAP: usize = 60;

/// Files of up to this many lines are shown whole.
pub const SMALL_FILE_THRESHOLD: usize = 200;

/// Where a window that starts at `start` ends.
pub open spec fn window_end(total: nat, size: nat, start: nat) -> nat {
    if start + size < total {
        start + size
    } else {
        total
    }
}

/// The windows from line index `start` on.
pub open spec fn windows_from(total: nat, size: nat, overlap: nat, start: nat) -> Seq<
    (usize, usize),
>
    decreases total - start,
    when overlap < size
{
    let end = window_end(total, size, start);
    if end >= total {
        seq![(start as usize, end as usize)]
    } else {
        seq![(start as usize, end as usize)] + windows_from(
            total,
            size,
            overlap,
            (end - overlap) as nat,
        )
    }
}

/// The windows of a file of `total` lines: half-open ranges of line indices of
/// at most `size` lines, of which two neighbours share `overlap` lines.
pub open spec fn windows(total: nat, size: nat, overlap: nat) -> Seq<(usize, usize)> {
    if total <= size {
        seq![(0usize, total as usize)]
    } else {
        windows_from(total, size, overlap, 0)
    }
}

/// Cuts a file of `total_lines` lines into windows.
pub fn build_windows(total_lines: usize, window_size: usize, overlap: usize) -> (r: Vec<
    (usize, usize),
>)
    requires
        total_lines > window_size ==> overlap < window_size,
    ensures
        r@ == windows(total_lines as nat, window_size as nat, overlap as nat),
{
    let mut out: Vec<(usize, usize)> = Vec::new();
    if total_lines <= window_size {
        out.push((0, total_lines));
        return out;
    }
    let ghost total = total_lines as nat;
    let ghost size = window_size as nat;
    let mut start: usize = 0;
    loop
        invariant_except_break
            start < total_lines == total,
            overlap < window_size == size,
            out@ + windows_from(total, size, overlap as nat, start as nat) == windows_from(
                total,
                size,
                overlap as nat,
                0,
            ),
        ensures
            out@ == windows_from(total, size, overlap as nat, 0),
        decreases total_lines - start,
    {
        let ghost before = out@;
        let end: usize = if window_size < total_lines - start {
            start + window_size
        } else {
            total_lines
        };
        out.push((start, end));
        if end >= total_lines {
            proof {
                assert(before + windows_from(total, size, overlap as nat, start as nat) =~= out@);
            }
            break;
        }
        proof {
            assert(before + windows_from(total, size, overlap as nat, start as nat) =~= out@
                + windows_from(total, size, overlap as nat, (end - overlap) as nat));
        }
        start = end - overlap;
    }
    out
}

proof fn lemma_windows(total: nat, size: nat, overlap: nat, start: nat)
    requires
        overlap < size,
        start < total <= usize::MAX,
    ensures
        ({
            let ws = windows_from(total, size, overlap, start);
            &&& ws.len() > 0
            &&& ws[0].0 == start
            &&& ws.last().1 == total
            &&& forall|k: int| 0 <= k < ws.len() ==> (#[trigger] ws[k]).0 < ws[k].1 <= total && ws[k].1 - ws[k].0 <= size
            &&& forall|k: int| 0 <= k && k + 1 < ws.len() ==> ws[k + 1].0 == (#[trigger] ws[k]).1 - overlap
        }),
    decreases total - start,
{
    let end = window_end(total, size, start);
    if end < total {
        let next = (end - overlap) as nat;
        lemma_windows(total, size, overlap, next);
        let rest = windows_from(total, size, overlap, next);
        let ws = windows_from(total, size, overlap, start);
        assert(ws.last() == rest.last());
        assert forall|k: int| 0 <= k < ws.len() implies (#[trigger] ws[k]).0 < ws[k].1 <= total && ws[k].1
            - ws[k].0 <= size by {
            if k > 0 {
                assert(ws[k] == rest[k - 1]);
            }
        }
        assert forall|k: int| 0 <= k && k + 1 < ws.len() implies ws[k + 1].0 == (
        #[trigger] ws[k]).1 - overlap by {
            assert(ws[k + 1] == rest[k]);
            if k > 0 {
                assert(ws[k] == rest[k - 1]);
                assert(rest[k - 1 + 1].0 == rest[k - 1].1 - overlap);
            }
        }
    }
}

/// The windows of a file start at its first line and end at its last, none is
/// longer than `size`, and two neighbours share exactly `overlap` lines: no line
/// is left out.
pub proof fn windows_cover_the_file(total: nat, size: nat, overlap: nat)
    requires
        overlap < size,
        size < total <= usize::MAX,
    ensures
        ({
            let ws = windows(total, size, overlap);
            &&& ws.len() > 0
            &&& ws[0].0 == 0
            &&& ws.last().1 == total
            &&& forall|k: int| 0 <= k < ws.len() ==> (#[trigger] ws[k]).0 < ws[k].1 <= total && ws[k].1 - ws[k].0 <= size
            &&& forall|k: int| 0 <= k && k + 1 < ws.len() ==> ws[k + 1].0 == (#[trigger] ws[k]).1 - overlap
        }),
{
    lemma_windows(total, size, overlap, 0);
}

proof fn lemma_line_in_window(total: nat, size: nat, overlap: nat, start: nat, line: nat)
    requires
        overlap < size,
        start <= line < total <= usize::MAX,
    ensures
        exists|k: int|
            0 <= k < windows_from(total, size, overlap, start).len() && (
            #[trigger] windows_from(total, size, overlap, start)[k]).0 <= line < windows_from(
                total,
                size,
                overlap,
                start,
            )[k].1,
    decreases total - start,
{
    let ws = windows_from(total, size, overlap, start);
    let end = window_end(total, size, start);
    if line < end {
        assert(ws[0].0 <= line < ws[0].1);
    } else {
        let next = (end - overlap) as nat;
        let rest = windows_from(total, size, overlap, next);
        lemma_line_in_window(total, size, overlap, next, line);
        let k = choose|k: int|
            0 <= k < rest.len() && (#[trigger] rest[k]).0 <= line < rest[k].1;
        assert(ws[k + 1] == rest[k]);
    }
}

/// Every line of a file lies in one of its windows.
pub proof fn every_line_has_a_window(total: nat, size: nat, overlap: nat, line: nat)
    requires
        total > size ==> overlap < size,
        line < total <= usize::MAX,
    ensures
        exists|k: int|
            0 <= k < windows(total, size, overlap).len() && (#[trigger] windows(
                total,
                size,
                overlap,
            )[k]).0 <= line < windows(total, size, overlap)[k].1,
{
    if total <= size {
        assert(windows(total, size, overlap)[0].0 <= line < windows(total, size, overlap)[0].1);
    } else {
        lemma_line_in_window(total, size, overlap, 0, line);
    }
}

} // verus!
