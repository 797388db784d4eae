//! Steps and regions that claim the same lines.
use vstd::prelude::*;

use super::parse::{EditPlanStep, EditRegion, EditRegionView, StepView};
use crate::number;
use crate::number::dec_text;
use crate::order;
use crate::order::sorted_positions;
use crate::text;

verus! {

/// A planned step that was set aside because it overlaps an earlier one.
#[derive(Debug)]
pub struct DroppedStep {
    pub step: EditPlanStep,
    pub reason: String,
}

/// A dropped step over texts.
pub struct DroppedView {
    pub step: StepView,
    pub reason: Seq<char>,
}

impl DeepView for DroppedStep {
    type V = DroppedView;

    open spec fn deep_view(&self) -> DroppedView {
        DroppedView { step: self.step.deep_view(), reason: self.reason@ }
    }
}

/// Whether two steps share a line.
pub open spec fn overlaps(a: StepView, b: StepView) -> bool {
    a.start_line() <= b.end_line() && b.start_line() <= a.end_line()
}

/// Whether step `j` comes before step `i` in the file: by first line, by last
/// line, and by position in the plan.
pub open spec fn before(steps: Seq<StepView>, j: int, i: int) -> bool {
    order::precedes(line_keys(steps), j, i)
}

/// The lines of each step.
pub open spec fn line_keys(steps: Seq<StepView>) -> Seq<(usize, usize)> {
    Seq::new(steps.len(), |i: int| (steps[i].start_line(), steps[i].end_line()))
}

/// Whether step `i` is kept: no kept step that comes before it shares a line
/// with it.
pub open spec fn is_kept(steps: Seq<StepView>, i: int) -> bool
    decreases steps[i].start_line(), steps[i].end_line(), i, steps.len() + 1,
{
    0 <= i < steps.len() && free_of(steps, i, steps.len() as int)
}

/// Whether none of the first `n` steps is kept, comes before step `i` and
/// shares a line with it.
pub open spec fn free_of(steps: Seq<StepView>, i: int, n: int) -> bool
    decreases steps[i].start_line(), steps[i].end_line(), i, n,
{
    if n <= 0 || i < 0 {
        true
    } else {
        &&& free_of(steps, i, n - 1)
        &&& before(steps, n - 1, i) && n <= steps.len() && i < steps.len() && is_kept(steps, n - 1)
            ==> !overlaps(steps[n - 1], steps[i])
    }
}

proof fn lemma_free_of(steps: Seq<StepView>, i: int, n: int)
    requires
        0 <= i < steps.len(),
        0 <= n <= steps.len(),
    ensures
        free_of(steps, i, n) == (forall|j: int|
            0 <= j < n && before(steps, j, i) && #[trigger] is_kept(steps, j) ==> !overlaps(
                steps[j],
                steps[i],
            )),
    decreases n,
{
    if n > 0 {
        lemma_free_of(steps, i, n - 1);
        if free_of(steps, i, n) {
            assert forall|j: int|
                0 <= j < n && before(steps, j, i) && #[trigger] is_kept(
                    steps,
                    j,
                ) implies !overlaps(steps[j], steps[i]) by {
                if j == n - 1 {
                    assert(is_kept(steps, n - 1));
                }
            }
        } else if free_of(steps, i, n - 1) {
            assert(is_kept(steps, n - 1));
        }
    }
}

/// What `is_kept` says of a step, over all kept steps.
pub proof fn lemma_kept(steps: Seq<StepView>, i: int)
    requires
        0 <= i < steps.len(),
    ensures
        is_kept(steps, i) == (forall|j: int|
            0 <= j < steps.len() && before(steps, j, i) && #[trigger] is_kept(steps, j)
                ==> !overlaps(steps[j], steps[i])),
{
    lemma_free_of(steps, i, steps.len() as int);
}

/// Whether the kept step `j` is the first in the file that stands in the way of
/// step `i`.
pub open spec fn blocks(steps: Seq<StepView>, j: int, i: int) -> bool {
    &&& 0 <= j < steps.len()
    &&& before(steps, j, i)
    &&& is_kept(steps, j)
    &&& overlaps(steps[j], steps[i])
    &&& forall|k: int|
        0 <= k < steps.len() && before(steps, k, j) && #[trigger] is_kept(steps, k) ==> !overlaps(
            steps[k],
            steps[i],
        )
}

/// The first step in the file that stands in the way of step `i`.
pub open spec fn blocker(steps: Seq<StepView>, i: int) -> int {
    choose|j: int| blocks(steps, j, i)
}

/// Why a step was dropped, given the step that stands in its way.
pub open spec fn overlap_reason(blocker: StepView) -> Seq<char> {
    "overlaps earlier step L"@ + number::dec(blocker.start_line() as nat) + "-L"@ + number::dec(
        blocker.end_line() as nat,
    )
}

/// The kept ones among the first `n` steps, in the order of the plan.
pub open spec fn kept_steps(steps: Seq<StepView>, n: int) -> Seq<StepView>
    decreases n,
{
    if n <= 0 {
        Seq::empty()
    } else if is_kept(steps, n - 1) {
        kept_steps(steps, n - 1).push(steps[n - 1])
    } else {
        kept_steps(steps, n - 1)
    }
}

/// The dropped ones among the first `n` steps, in the order of the plan, each
/// with the first step in the file that stands in its way.
pub open spec fn dropped_steps(steps: Seq<StepView>, n: int) -> Seq<DroppedView>
    decreases n,
{
    if n <= 0 {
        Seq::empty()
    } else if is_kept(steps, n - 1) {
        dropped_steps(steps, n - 1)
    } else {
        dropped_steps(steps, n - 1).push(
            DroppedView {
                step: steps[n - 1],
                reason: overlap_reason(steps[blocker(steps, n - 1)]),
            },
        )
    }
}

/// At most one step is the first in the way of another.
proof fn lemma_one_blocker(steps: Seq<StepView>, j: int, k: int, i: int)
    requires
        blocks(steps, j, i),
        blocks(steps, k, i),
        0 <= i < steps.len(),
    ensures
        j == k,
{
    if j != k {
        assert(before(steps, j, k) || before(steps, k, j));
    }
}


fn overlap_text(step: &EditPlanStep) -> (r: String)
    ensures
        r@ == overlap_reason(step.deep_view()),
{
    "overlaps earlier step L".to_owned().concat(&dec_text(step.start_line())).concat("-L").concat(
        &dec_text(step.end_line()),
    )
}

/// For each step, whether it is kept, and where it is not, the first kept step
/// in the file that stands in its way.
fn settle_overlaps(steps: &Vec<EditPlanStep>) -> (r: Vec<Option<usize>>)
    ensures
        r.len() == steps.len(),
        forall|i: int| 0 <= i < r.len() ==> match #[trigger] r[i] {
            None => is_kept(steps.deep_view(), i),
            Some(j) => !is_kept(steps.deep_view(), i) && blocks(steps.deep_view(), j as int, i),
        },
{
    let ghost sv = steps.deep_view();
    let n: usize = steps.len();
    let mut keys: Vec<(usize, usize)> = Vec::new();
    let mut verdicts: Vec<Option<usize>> = Vec::new();
    let mut i: usize = 0;
    while i < n
        invariant
            i <= n == steps.len(),
            sv == steps.deep_view(),
            keys.len() == i,
            verdicts.len() == i,
            keys@ == line_keys(sv).take(i as int),
        decreases n - i,
    {
        let ghost old_keys = keys@;
        keys.push((steps[i].start_line(), steps[i].end_line()));
        verdicts.push(None);
        proof {
            assert(keys@ =~= line_keys(sv).take(i + 1));
        }
        i += 1;
    }
    proof {
        assert(keys@ =~= line_keys(sv));
    }
    let order = sorted_positions(&keys);
    let mut a: usize = 0;
    while a < n
        invariant
            a <= n == steps.len() == verdicts.len() == order.len() == sv.len(),
            sv == steps.deep_view(),
            order::is_order(line_keys(sv), order@, n as int),
            forall|b: int|
                0 <= b < a ==> match verdicts[#[trigger] order@[b] as int] {
                    None => is_kept(sv, order@[b] as int),
                    Some(j) => !is_kept(sv, order@[b] as int) && blocks(
                        sv,
                        j as int,
                        order@[b] as int,
                    ),
                },
        decreases n - a,
    {
        let i: usize = order[a];
        let mut found: Option<usize> = None;
        let mut b: usize = 0;
        while b < a
            invariant_except_break
                found is None,
            invariant
                b <= a < n == steps.len() == verdicts.len() == order.len() == sv.len(),
                sv == steps.deep_view(),
                i == order@[a as int] < n,
                order::is_order(line_keys(sv), order@, n as int),
                forall|c: int|
                    0 <= c < a ==> match verdicts[#[trigger] order@[c] as int] {
                        None => is_kept(sv, order@[c] as int),
                        Some(j) => !is_kept(sv, order@[c] as int) && blocks(
                            sv,
                            j as int,
                            order@[c] as int,
                        ),
                    },
                forall|c: int|
                    0 <= c < b && is_kept(sv, #[trigger] order@[c] as int) ==> !overlaps(
                        sv[order@[c] as int],
                        sv[i as int],
                    ),
            ensures
                match found {
                    None => b == a,
                    Some(j) => b < a && j == order@[b as int] && is_kept(sv, j as int) && overlaps(
                        sv[j as int],
                        sv[i as int],
                    ),
                },
            decreases a - b,
        {
            let j: usize = order[b];
            proof {
                assert(order@[b as int] < n);
            }
            if verdicts[j].is_none() && steps[j].start_line() <= steps[i].end_line()
                && steps[i].start_line() <= steps[j].end_line() {
                found = Some(j);
                break;
            }
            b += 1;
        }
        proof {
            lemma_kept(sv, i as int);
            match found {
                None => {
                    assert forall|j: int|
                        0 <= j < sv.len() && before(sv, j, i as int) && #[trigger] is_kept(
                            sv,
                            j,
                        ) implies !overlaps(sv[j], sv[i as int]) by {
                        order::lemma_order_position(line_keys(sv), order@, n as int, a as int, j);
                        let c = choose|c: int| 0 <= c < a && #[trigger] order@[c] == j;
                        assert(order@[c] == j);
                    }
                },
                Some(j) => {
                    assert(before(sv, j as int, i as int));
                    assert forall|k: int|
                        0 <= k < sv.len() && before(sv, k, j as int) && #[trigger] is_kept(
                            sv,
                            k,
                        ) implies !overlaps(sv[k], sv[i as int]) by {
                        order::lemma_order_position(line_keys(sv), order@, n as int, b as int, k);
                        let c = choose|c: int| 0 <= c < b && #[trigger] order@[c] == k;
                        assert(order@[c] == k);
                    }
                    assert(blocks(sv, j as int, i as int));
                    assert(!is_kept(sv, i as int));
                },
            }
        }
        let ghost held = verdicts@;
        verdicts[i] = found;
        proof {
            assert forall|b: int| 0 <= b < a + 1 implies match verdicts[#[trigger] order@[b] as int] {
                None => is_kept(sv, order@[b] as int),
                Some(j) => !is_kept(sv, order@[b] as int) && blocks(sv, j as int, order@[b] as int),
            } by {
                if b < a {
                    assert(before(sv, order@[b] as int, order@[a as int] as int));
                    assert(order@[b] != order@[a as int]);
                    assert(verdicts@[order@[b] as int] == held[order@[b] as int]);
                }
            }
        }
        a += 1;
    }
    proof {
        assert forall|i: int| 0 <= i < verdicts.len() implies match #[trigger] verdicts[i] {
            None => is_kept(sv, i),
            Some(j) => !is_kept(sv, i) && blocks(sv, j as int, i),
        } by {
            assert(order@.contains(i as usize));
            let b = order@.index_of(i as usize);
            assert(order@[b] == i);
        }
    }
    verdicts
}

/// Splits planned steps into those that are kept and those that overlap a kept
/// step, both in the order of the plan. Of steps that overlap, the first in the
/// file is kept.
pub fn partition_overlapping_steps(steps: Vec<EditPlanStep>) -> (r: (
    Vec<EditPlanStep>,
    Vec<DroppedStep>,
))
    ensures
        r.0.deep_view() == kept_steps(steps.deep_view(), steps@.len() as int),
        r.1.deep_view() == dropped_steps(steps.deep_view(), steps@.len() as int),
{
    let ghost sv = steps.deep_view();
    let verdicts = settle_overlaps(&steps);
    let mut kept: Vec<EditPlanStep> = Vec::new();
    let mut dropped: Vec<DroppedStep> = Vec::new();
    let mut i: usize = 0;
    proof {
        assert(kept.deep_view() =~= kept_steps(sv, 0));
        assert(dropped.deep_view() =~= dropped_steps(sv, 0));
    }
    while i < steps.len()
        invariant
            i <= steps.len() == verdicts.len(),
            sv == steps.deep_view(),
            forall|i: int| 0 <= i < verdicts.len() ==> match #[trigger] verdicts[i] {
                None => is_kept(sv, i),
                Some(j) => !is_kept(sv, i) && blocks(sv, j as int, i),
            },
            kept.deep_view() == kept_steps(sv, i as int),
            dropped.deep_view() == dropped_steps(sv, i as int),
        decreases steps.len() - i,
    {
        let ghost k0 = kept.deep_view();
        let ghost d0 = dropped.deep_view();
        match verdicts[i] {
            None => {
                kept.push(steps[i].clone());
                proof {
                    assert(kept.deep_view() =~= k0.push(sv[i as int]));
                }
            },
            Some(j) => {
                proof {
                    assert(blocks(sv, j as int, i as int));
                    lemma_one_blocker(sv, j as int, blocker(sv, i as int), i as int);
                }
                dropped.push(
                    DroppedStep { step: steps[i].clone(), reason: overlap_text(&steps[j]) },
                );
                proof {
                    assert(dropped.deep_view() =~= d0.push(
                        DroppedView { step: sv[i as int], reason: overlap_reason(sv[j as int]) },
                    ));
                }
            },
        }
        i += 1;
    }
    (kept, dropped)
}


/// The lines of each region.
pub open spec fn region_keys(regions: Seq<EditRegionView>) -> Seq<(usize, usize)> {
    Seq::new(regions.len(), |i: int| (regions[i].start, regions[i].end))
}

/// In a list of regions in ascending order, the first index at or after `a`
/// whose region reaches the next one, or the last index.
pub open spec fn first_clash(keys: Seq<(usize, usize)>, order: Seq<usize>, a: int) -> int
    decreases order.len() - a,
{
    if 0 <= a && a + 1 < order.len() && keys[order[a + 1] as int].0 > keys[order[a] as int].1 {
        first_clash(keys, order, a + 1)
    } else {
        a
    }
}

/// Whether regions, taken in the order of the file, each end before the next
/// one starts, and the first two that do not.
pub open spec fn regions_verdict(regions: Seq<EditRegionView>) -> Result<(), Seq<char>> {
    let keys = region_keys(regions);
    let order = order::sorted(keys);
    let a = first_clash(keys, order, 0);
    if a + 1 < order.len() {
        let x = keys[order[a] as int];
        let y = keys[order[a + 1] as int];
        Err(
            "region plan has overlapping regions: L"@ + number::dec(x.0 as nat) + "-L"@
                + number::dec(x.1 as nat) + " overlaps L"@ + number::dec(y.0 as nat) + "-L"@
                + number::dec(y.1 as nat),
        )
    } else {
        Ok(())
    }
}

/// Rejects regions that share a line.
pub fn reject_overlapping_regions(regions: &Vec<EditRegion>) -> (r: Result<(), String>)
    ensures
        text::result_view(r) == regions_verdict(regions.deep_view()),
{
    let ghost rv = regions.deep_view();
    let n: usize = regions.len();
    let mut keys: Vec<(usize, usize)> = Vec::new();
    let mut i: usize = 0;
    while i < n
        invariant
            i <= n == regions.len(),
            rv == regions.deep_view(),
            keys@ == region_keys(rv).take(i as int),
        decreases n - i,
    {
        keys.push((regions[i].start, regions[i].end));
        proof {
            assert(keys@ =~= region_keys(rv).take(i + 1));
        }
        i += 1;
    }
    proof {
        assert(keys@ =~= region_keys(rv));
    }
    let order = sorted_positions(&keys);
    let mut a: usize = 1;
    while a < n
        invariant
            1 <= a,
            n == order.len() == keys.len(),
            a <= n || n == 0,
            keys@ == region_keys(rv),
            rv == regions.deep_view(),
            order@ == order::sorted(keys@),
            order::is_order(keys@, order@, n as int),
            first_clash(keys@, order@, 0) == first_clash(keys@, order@, a - 1),
        decreases n - a,
    {
        let x = keys[order[a - 1]];
        let y = keys[order[a]];
        if y.0 <= x.1 {
            return Err(
                "region plan has overlapping regions: L".to_owned().concat(&dec_text(x.0)).concat(
                    "-L",
                ).concat(&dec_text(x.1)).concat(" overlaps L").concat(&dec_text(y.0)).concat(
                    "-L",
                ).concat(&dec_text(y.1)),
            );
        }
        a += 1;
    }
    Ok(())
}

proof fn lemma_kept_source(steps: Seq<StepView>, n: int, a: int)
    requires
        0 <= n <= steps.len(),
        0 <= a < kept_steps(steps, n).len(),
    ensures
        exists|i: int| 0 <= i < n && #[trigger] is_kept(steps, i) && steps[i] == kept_steps(steps, n)[a],
    decreases n,
{
    if n > 0 {
        let rest = kept_steps(steps, n - 1);
        if a < rest.len() {
            lemma_kept_source(steps, n - 1, a);
            let i = choose|i: int|
                0 <= i < n - 1 && #[trigger] is_kept(steps, i) && steps[i] == rest[a];
            assert(is_kept(steps, i));
        } else {
            assert(is_kept(steps, n - 1));
        }
    }
}

/// No two kept steps share a line.
pub proof fn kept_steps_are_disjoint(steps: Seq<StepView>, n: int)
    requires
        0 <= n <= steps.len(),
    ensures
        forall|a: int, b: int|
            0 <= a < b < kept_steps(steps, n).len() ==> !overlaps(
                #[trigger] kept_steps(steps, n)[a],
                #[trigger] kept_steps(steps, n)[b],
            ),
    decreases n,
{
    if n > 0 {
        kept_steps_are_disjoint(steps, n - 1);
        let rest = kept_steps(steps, n - 1);
        let all = kept_steps(steps, n);
        assert forall|a: int, b: int| 0 <= a < b < all.len() implies !overlaps(
            #[trigger] all[a],
            #[trigger] all[b],
        ) by {
            if b < rest.len() {
                assert(all[a] == rest[a] && all[b] == rest[b]);
            } else {
                lemma_kept_source(steps, n - 1, a);
                let i = choose|i: int|
                    0 <= i < n - 1 && #[trigger] is_kept(steps, i) && steps[i] == rest[a];
                assert(before(steps, i, n - 1) || before(steps, n - 1, i));
                lemma_kept(steps, i);
                lemma_kept(steps, n - 1);
                assert(is_kept(steps, i) && is_kept(steps, n - 1));
            }
        }
    }
}

/// Every planned step is either kept or dropped: nothing is lost, nothing comes
/// twice.
pub proof fn partition_loses_nothing(steps: Seq<StepView>, n: int)
    requires
        0 <= n <= steps.len(),
    ensures
        kept_steps(steps, n).to_multiset().add(
            dropped_steps(steps, n).map_values(|d: DroppedView| d.step).to_multiset(),
        ) == steps.take(n).to_multiset(),
    decreases n,
{
    broadcast use vstd::seq_lib::group_to_multiset_ensures;

    let get = |d: DroppedView| d.step;
    if n == 0 {
        assert(steps.take(0) =~= Seq::<StepView>::empty());
        assert(dropped_steps(steps, 0).map_values(get) =~= Seq::<StepView>::empty());
        assert(kept_steps(steps, 0).to_multiset().add(
            dropped_steps(steps, 0).map_values(get).to_multiset(),
        ) =~= steps.take(0).to_multiset());
    } else {
        partition_loses_nothing(steps, n - 1);
        assert(steps.take(n) =~= steps.take(n - 1).push(steps[n - 1]));
        if is_kept(steps, n - 1) {
        } else {
            let d = DroppedView {
                step: steps[n - 1],
                reason: overlap_reason(steps[blocker(steps, n - 1)]),
            };
            assert(dropped_steps(steps, n - 1).push(d).map_values(get) =~= dropped_steps(
                steps,
                n - 1,
            ).map_values(get).push(steps[n - 1]));
        }
        assert(kept_steps(steps, n).to_multiset().add(
            dropped_steps(steps, n).map_values(get).to_multiset(),
        ) =~= steps.take(n).to_multiset());
    }
}

/// Steps that share no line are all kept, in the order of the plan.
pub proof fn disjoint_steps_are_kept(steps: Seq<StepView>, n: int)
    requires
        0 <= n <= steps.len(),
        forall|a: int, b: int|
            0 <= a < steps.len() && 0 <= b < steps.len() && a != b ==> !overlaps(
                #[trigger] steps[a],
                #[trigger] steps[b],
            ),
    ensures
        kept_steps(steps, n) == steps.take(n),
        dropped_steps(steps, n) == Seq::<DroppedView>::empty(),
    decreases n,
{
    if n > 0 {
        disjoint_steps_are_kept(steps, n - 1);
        lemma_kept(steps, n - 1);
        assert(is_kept(steps, n - 1));
        assert(steps.take(n) =~= steps.take(n - 1).push(steps[n - 1]));
    }
}

/// Two steps overlap exactly where they have a line in common.
pub proof fn overlapping_steps_share_a_line(a: StepView, b: StepView)
    requires
        a.start_line() <= a.end_line(),
        b.start_line() <= b.end_line(),
    ensures
        overlaps(a, b) <==> exists|line: usize|
            #![trigger shares_line(a, line)]
            shares_line(a, line) && shares_line(b, line),
{
    if overlaps(a, b) {
        let line = if a.start_line() >= b.start_line() {
            a.start_line()
        } else {
            b.start_line()
        };
        assert(shares_line(a, line) && shares_line(b, line));
    }
}

/// Whether a line is one of those that a step claims.
pub open spec fn shares_line(s: StepView, line: usize) -> bool {
    s.start_line() <= line <= s.end_line()
}

proof fn lemma_first_blocker(steps: Seq<StepView>, i: int, order: Seq<usize>, a: int, j: int)
    requires
        order::is_order(line_keys(steps), order, steps.len() as int),
        steps.len() <= usize::MAX,
        0 <= i < steps.len(),
        0 <= a <= order.len(),
        0 <= j < steps.len(),
        before(steps, j, i),
        is_kept(steps, j),
        overlaps(steps[j], steps[i]),
        forall|b: int|
            0 <= b < a && before(steps, order[b] as int, i) && is_kept(
                steps,
                #[trigger] order[b] as int,
            ) ==> !overlaps(steps[order[b] as int], steps[i]),
    ensures
        exists|k: int| #[trigger] blocks(steps, k, i),
    decreases order.len() - a,
{
    if a == order.len() {
        assert(order.contains(j as usize));
        let b = order.index_of(j as usize);
        assert(order[b] == j);
    } else {
        let k = order[a] as int;
        if before(steps, k, i) && is_kept(steps, k) && overlaps(steps[k], steps[i]) {
            assert forall|m: int|
                0 <= m < steps.len() && before(steps, m, k) && #[trigger] is_kept(
                    steps,
                    m,
                ) implies !overlaps(steps[m], steps[i]) by {
                order::lemma_order_position(line_keys(steps), order, steps.len() as int, a, m);
                let b = choose|b: int| 0 <= b < a && #[trigger] order[b] == m;
                assert(order[b] == m);
                assert(before(steps, m, i));
            }
            assert(blocks(steps, k, i));
        } else {
            lemma_first_blocker(steps, i, order, a + 1, j);
        }
    }
}

proof fn lemma_has_blocker(steps: Seq<StepView>, i: int)
    requires
        steps.len() <= usize::MAX,
        0 <= i < steps.len(),
        !is_kept(steps, i),
    ensures
        blocks(steps, blocker(steps, i), i),
{
    lemma_kept(steps, i);
    let j = choose|j: int|
        0 <= j < steps.len() && before(steps, j, i) && #[trigger] is_kept(steps, j) && overlaps(
            steps[j],
            steps[i],
        );
    order::lemma_sorted(line_keys(steps));
    lemma_first_blocker(steps, i, order::sorted(line_keys(steps)), 0, j);
}

/// A step is dropped only for a step that is kept and has a line in common with it, and the
/// reason names the lines of that step.
pub proof fn dropped_steps_are_told_why(steps: Seq<StepView>, n: int, a: int)
    requires
        steps.len() <= usize::MAX,
        0 <= n <= steps.len(),
        0 <= a < dropped_steps(steps, n).len(),
    ensures
        exists|j: int|
            0 <= j < steps.len() && #[trigger] is_kept(steps, j) && overlaps(
                steps[j],
                dropped_steps(steps, n)[a].step,
            ) && dropped_steps(steps, n)[a].reason == "overlaps earlier step L"@ + number::dec(
                steps[j].start_line() as nat,
            ) + "-L"@ + number::dec(steps[j].end_line() as nat),
    decreases n,
{
    let front = dropped_steps(steps, n - 1);
    if a < front.len() {
        dropped_steps_are_told_why(steps, n - 1, a);
    } else {
        lemma_has_blocker(steps, n - 1);
        assert(is_kept(steps, blocker(steps, n - 1)));
    }
}

/// Whether the region in place `b` of an order ends before the next one starts.
spec fn ends_before_next(keys: Seq<(usize, usize)>, order: Seq<usize>, b: int) -> bool {
    keys[order[b + 1] as int].0 > keys[order[b] as int].1
}

proof fn lemma_first_clash(keys: Seq<(usize, usize)>, order: Seq<usize>, a: int)
    requires
        0 <= a,
    ensures
        a <= first_clash(keys, order, a),
        forall|b: int|
            a <= b < first_clash(keys, order, a) ==> #[trigger] ends_before_next(keys, order, b),
        first_clash(keys, order, a) + 1 < order.len() ==> !ends_before_next(
            keys,
            order,
            first_clash(keys, order, a),
        ),
    decreases order.len() - a,
{
    if a + 1 < order.len() && ends_before_next(keys, order, a) {
        lemma_first_clash(keys, order, a + 1);
    }
}

proof fn lemma_chain(keys: Seq<(usize, usize)>, order: Seq<usize>, b: int, c: int)
    requires
        0 <= b < c < order.len(),
        forall|i: int| 0 <= i < order.len() ==> 0 <= #[trigger] order[i] < keys.len(),
        forall|k: int| 0 <= k < keys.len() ==> (#[trigger] keys[k]).0 <= keys[k].1,
        forall|i: int| b <= i < c ==> #[trigger] ends_before_next(keys, order, i),
    ensures
        keys[order[c] as int].0 > keys[order[b] as int].1,
    decreases c - b,
{
    assert(ends_before_next(keys, order, c - 1));
    if b < c - 1 {
        lemma_chain(keys, order, b, c - 1);
        let m = order[c - 1] as int;
        assert(keys[m].0 <= keys[m].1);
    }
}

proof fn lemma_regions_apart(keys: Seq<(usize, usize)>, order: Seq<usize>, i: int, j: int)
    requires
        order::is_order(keys, order, keys.len() as int),
        keys.len() <= usize::MAX,
        forall|k: int| 0 <= k < keys.len() ==> (#[trigger] keys[k]).0 <= keys[k].1,
        first_clash(keys, order, 0) + 1 >= order.len(),
        0 <= i < keys.len(),
        0 <= j < keys.len(),
        i != j,
    ensures
        keys[i].1 < keys[j].0 || keys[j].1 < keys[i].0,
{
    lemma_first_clash(keys, order, 0);
    assert(order.contains(i as usize));
    assert(order.contains(j as usize));
    let b = order.index_of(i as usize);
    let c = order.index_of(j as usize);
    assert(order[b] == i && order[c] == j);
    if b < c {
        lemma_chain(keys, order, b, c);
    } else {
        lemma_chain(keys, order, c, b);
    }
}

/// A plan of regions is accepted exactly where no two of them have a line in common.
pub proof fn accepted_regions_are_disjoint(regions: Seq<EditRegionView>)
    requires
        regions.len() <= usize::MAX,
        forall|i: int| 0 <= i < regions.len() ==> (#[trigger] regions[i]).start <= regions[i].end,
    ensures
        regions_verdict(regions) is Ok <==> forall|i: int, j: int|
            0 <= i < regions.len() && 0 <= j < regions.len() && i != j ==> (
            #[trigger] regions[i]).end < (#[trigger] regions[j]).start || regions[j].end
                < regions[i].start,
{
    let keys = region_keys(regions);
    order::lemma_sorted(keys);
    let order = order::sorted(keys);
    let a = first_clash(keys, order, 0);
    assert forall|k: int| 0 <= k < keys.len() implies (#[trigger] keys[k]).0 <= keys[k].1 by {
        assert(regions[k].start <= regions[k].end);
    }
    if a + 1 < order.len() {
        lemma_first_clash(keys, order, 0);
        let x = order[a] as int;
        let y = order[a + 1] as int;
        assert(order::precedes(keys, order[a] as int, order[a + 1] as int));
        assert(keys[x].0 <= keys[y].0 <= keys[x].1);
        assert(keys[y].0 <= keys[y].1);
        assert(x != y);
        assert(!(regions[x].end < regions[y].start) && !(regions[y].end < regions[x].start));
        assert(regions_verdict(regions) is Err);
    } else {
        assert(regions_verdict(regions) is Ok);
        assert forall|i: int, j: int|
            0 <= i < regions.len() && 0 <= j < regions.len() && i != j implies (
        #[trigger] regions[i]).end < (#[trigger] regions[j]).start || regions[j].end
            < regions[i].start by {
            lemma_regions_apart(keys, order, i, j);
        }
    }
}

} // verus!
