//! Plans that are written down in the plan format read back as those plans.
use vstd::prelude::*;

use crate::edit_file::overlap;
use crate::edit_file::parse;
use crate::edit_file::parse::{EditRegionView, StepView, MAX_PREPLAN_STEPS};
use crate::edit_file::preplan;
use crate::number;
use crate::text;

verus! {

/// Whether the lines of a block come back from the plan format: there is at
/// least one, each is a line, and none is the line that ends the block.
pub open spec fn is_block(block: Seq<Seq<char>>, sentinel: Seq<char>) -> bool {
    &&& block.len() > 0
    &&& forall|k: int|
        0 <= k < block.len() ==> text::is_line(#[trigger] block[k]) && block[k] != sentinel
}

/// Whether a step is one that the plan format can express: its lines are in
/// order, a task is a single trimmed line, and blocks hold lines that do not end
/// them. A block `new` without lines is not such a block: it is written down as
/// one empty line.
pub open spec fn can_be_written(step: StepView) -> bool {
    match step {
        StepView::SmartEdit(region) => {
            &&& 1 <= region.start <= region.end
            &&& region.task.len() > 0
            &&& text::trim(region.task) == region.task
            &&& forall|k: int| 0 <= k < region.task.len() ==> #[trigger] region.task[k] != '\n'
        },
        StepView::LiteralReplace { scope_start, scope_end, all, old, new } => {
            &&& 1 <= scope_start <= scope_end
            &&& is_block(old, "END_OLD"@)
            &&& !parse::all_blank(old)
            &&& is_block(new, "END_NEW"@)
        },
    }
}

/// The value of an `ALL` line.
spec fn flag_line(all: bool) -> Seq<char> {
    if all {
        "ALL true"@
    } else {
        "ALL false"@
    }
}

/// Two line numbers in a header.
spec fn numbers(a: usize, b: usize) -> Seq<char> {
    number::dec(a as nat) + " "@ + number::dec(b as nat)
}

/// The lines of a step in the plan format.
spec fn step_lines(step: StepView) -> Seq<Seq<char>> {
    match step {
        StepView::SmartEdit(region) => {
            seq![
                "SMART_EDIT"@,
                "REGION "@ + numbers(region.start, region.end),
                "TASK: "@ + region.task,
                Seq::empty(),
            ]
        },
        StepView::LiteralReplace { scope_start, scope_end, all, old, new } => {
            seq![
                "LITERAL_REPLACE"@,
                "SCOPE "@ + numbers(scope_start, scope_end),
                flag_line(all),
                "OLD:"@,
            ] + old + seq!["END_OLD"@, "NEW:"@] + new + seq!["END_NEW"@, Seq::empty()]
        },
    }
}

/// The lines of a plan in the plan format.
spec fn plan_lines(steps: Seq<StepView>) -> Seq<Seq<char>>
    decreases steps.len(),
{
    if steps.len() == 0 {
        Seq::empty()
    } else {
        step_lines(steps[0]) + plan_lines(steps.skip(1))
    }
}

proof fn lemma_trim_same(s: Seq<char>)
    requires
        s.len() > 0,
        !text::is_space(s[0]),
        !text::is_space(s.last()),
    ensures
        text::trim(s) == s,
        text::trim_start(s) == s,
        !text::is_blank(s),
{
    assert(s.subrange(0, s.len() as int) =~= s);
}

proof fn lemma_trimmed_ends(s: Seq<char>)
    requires
        s.len() > 0,
        text::trim(s) == s,
    ensures
        !text::is_space(s[0]),
        !text::is_space(s.last()),
{
    let a = text::skip_space(s, 0);
    text::lemma_skip_space(s, 0);
    text::lemma_back_space(s, a, s.len() as int);
    assert(text::trim(s).len() == s.len());
}

proof fn lemma_strip(p: Seq<char>, r: Seq<char>)
    ensures
        text::strip_prefix(p + r, p) == Some(r),
        text::starts_with(p + r, p),
{
    let s = p + r;
    assert(s.subrange(0, p.len() as int) =~= p);
    assert(s.subrange(p.len() as int, s.len() as int) =~= r);
}

proof fn lemma_two_words(a: Seq<char>, b: Seq<char>)
    requires
        a.len() > 0,
        b.len() > 0,
        forall|k: int| 0 <= k < a.len() ==> !text::is_space(#[trigger] a[k]),
        forall|k: int| 0 <= k < b.len() ==> !text::is_space(#[trigger] b[k]),
    ensures
        text::words(a + seq![' '] + b) == seq![a, b],
{
    let s = a + seq![' '] + b;
    let n = a.len() as int;
    let m = s.len() as int;
    assert(s[0] == a[0]);
    assert(text::skip_space(s, 0) == 0);
    text::lemma_word_end(s, 0);
    let e = text::word_end(s, 0);
    assert(text::is_space(s[n]));
    if e < n {
        assert(s[e] == a[e]);
    }
    assert(e == n);
    assert(s[n + 1] == b[0]);
    assert(text::skip_space(s, n + 1) == n + 1);
    assert(text::skip_space(s, n) == n + 1);
    text::lemma_word_end(s, n + 1);
    let f = text::word_end(s, n + 1);
    if f < m {
        assert(s[f] == b[f - n - 1]);
    }
    assert(f == m);
    assert(text::skip_space(s, m) == m);
    assert(text::words_from(s, m) == Seq::<Seq<char>>::empty());
    assert(s.subrange(0, n) =~= a);
    assert(s.subrange(n + 1, m) =~= b);
    assert(text::words_from(s, n) == seq![b] + Seq::<Seq<char>>::empty());
    assert(text::words(s) =~= seq![a, b]);
}

proof fn lemma_digit_char(c: char)
    requires
        number::is_digit(c),
    ensures
        !text::is_space(c),
        c != '-',
        c != '\n',
        c != '\r',
{
}

proof fn lemma_numbers(a: usize, b: usize, header: Seq<char>, label: Seq<char>)
    requires
        1 <= a <= b,
    ensures
        text::trim(numbers(a, b)) == numbers(a, b),
        parse::region_lines(numbers(a, b), header) == Ok::<(usize, usize), Seq<char>>((a, b)),
        parse::two_line_numbers(numbers(a, b), header, label) == Ok::<(usize, usize), Seq<char>>(
            (a, b),
        ),
        numbers(a, b).len() > 0,
        numbers(a, b).last() != '\r',
        forall|k: int| 0 <= k < numbers(a, b).len() ==> #[trigger] numbers(a, b)[k] != '\n',
{
    reveal_strlit(" ");
    let x = number::dec(a as nat);
    let y = number::dec(b as nat);
    let s = numbers(a, b);
    number::lemma_dec(a as nat);
    number::lemma_dec(b as nat);
    number::number_reads_back(a);
    number::number_reads_back(b);
    assert(s =~= x + seq![' '] + y);
    assert forall|k: int| 0 <= k < s.len() implies #[trigger] s[k] != '\n' && s[k] != '-' by {
        if k < x.len() {
            assert(s[k] == x[k]);
            lemma_digit_char(x[k]);
        } else if k > x.len() {
            assert(s[k] == y[k - x.len() - 1]);
            lemma_digit_char(y[k - x.len() - 1]);
        }
    }
    assert forall|k: int| 0 <= k < x.len() implies !text::is_space(#[trigger] x[k]) by {
        lemma_digit_char(x[k]);
    }
    assert forall|k: int| 0 <= k < y.len() implies !text::is_space(#[trigger] y[k]) by {
        lemma_digit_char(y[k]);
    }
    assert(s[0] == x[0]);
    assert(s.last() == y[y.len() - 1]);
    lemma_digit_char(y[y.len() - 1]);
    lemma_trim_same(s);
    text::lemma_char_from(s, '-', 0);
    lemma_two_words(x, y);
}

proof fn lemma_line_after(p: Seq<char>, r: Seq<char>)
    requires
        forall|k: int| 0 <= k < p.len() ==> #[trigger] p[k] != '\n',
        forall|k: int| 0 <= k < r.len() ==> #[trigger] r[k] != '\n',
        r.len() > 0,
        r.last() != '\r',
    ensures
        text::is_line(p + r),
{
    let s = p + r;
    assert forall|k: int| 0 <= k < s.len() implies #[trigger] s[k] != '\n' by {
        if k < p.len() {
            assert(s[k] == p[k]);
        } else {
            assert(s[k] == r[k - p.len()]);
        }
    }
}

/// Each line of a step is a line.
proof fn lemma_lines_of_step(step: StepView)
    requires
        can_be_written(step),
    ensures
        forall|k: int|
            0 <= k < step_lines(step).len() ==> text::is_line(#[trigger] step_lines(step)[k]),
{
    reveal_strlit("SMART_EDIT");
    reveal_strlit("REGION ");
    reveal_strlit("TASK: ");
    reveal_strlit("LITERAL_REPLACE");
    reveal_strlit("SCOPE ");
    reveal_strlit("ALL true");
    reveal_strlit("ALL false");
    reveal_strlit("OLD:");
    reveal_strlit("END_OLD");
    reveal_strlit("NEW:");
    reveal_strlit("END_NEW");
    let ls = step_lines(step);
    match step {
        StepView::SmartEdit(region) => {
            lemma_numbers(region.start, region.end, Seq::empty(), Seq::empty());
            lemma_line_after("REGION "@, numbers(region.start, region.end));
            lemma_trimmed_ends(region.task);
            lemma_line_after("TASK: "@, region.task);
        },
        StepView::LiteralReplace { scope_start, scope_end, all, old, new } => {
            lemma_numbers(scope_start, scope_end, Seq::empty(), Seq::empty());
            lemma_line_after("SCOPE "@, numbers(scope_start, scope_end));
            assert forall|k: int| 0 <= k < ls.len() implies text::is_line(#[trigger] ls[k]) by {
                if 4 <= k < 4 + old.len() {
                    assert(ls[k] == old[k - 4]);
                } else if 6 + old.len() <= k < 6 + old.len() + new.len() {
                    assert(ls[k] == new[k - 6 - old.len()]);
                }
            }
        },
    }
}

proof fn lemma_newline_push(ls: Seq<Seq<char>>, x: Seq<char>)
    ensures
        text::with_newlines(ls.push(x)) == text::with_newlines(ls) + x.push('\n'),
{
    assert(ls.push(x).drop_last() =~= ls);
}

proof fn lemma_text_of_region(region: EditRegionView)
    ensures
        parse::step_text(StepView::SmartEdit(region)) == text::with_newlines(
            step_lines(StepView::SmartEdit(region)),
        ),
{
    let none = Seq::<Seq<char>>::empty();
    let nl = seq!['\n'];
    let a = "SMART_EDIT"@;
    let b = "REGION "@ + numbers(region.start, region.end);
    let c = "TASK: "@ + region.task;
    let d = Seq::<char>::empty();
    assert("SMART_EDIT\nREGION "@ == a + nl + "REGION "@) by {
        reveal_strlit("SMART_EDIT");
        reveal_strlit("SMART_EDIT\nREGION ");
        reveal_strlit("REGION ");
    }
    assert("\nTASK: "@ == nl + "TASK: "@) by {
        reveal_strlit("TASK: ");
        reveal_strlit("\nTASK: ");
    }
    assert("\n\n"@ == nl + nl) by {
        reveal_strlit("\n\n");
    }
    lemma_newline_push(none, a);
    lemma_newline_push(none.push(a), b);
    lemma_newline_push(none.push(a).push(b), c);
    lemma_newline_push(none.push(a).push(b).push(c), d);
    assert(step_lines(StepView::SmartEdit(region)) =~= none.push(a).push(b).push(c).push(d));
    let head = "SMART_EDIT\nREGION "@ + number::dec(region.start as nat) + " "@ + number::dec(
        region.end as nat,
    );
    assert(head =~= a.push('\n') + b);
    assert(head + "\nTASK: "@ + region.task =~= a.push('\n') + b.push('\n') + c);
    assert(head + "\nTASK: "@ + region.task + "\n\n"@ =~= a.push('\n') + b.push('\n') + c.push('\n')
        + d.push('\n'));
    assert(text::with_newlines(none) + a.push('\n') =~= a.push('\n'));
}

proof fn lemma_top_of_literal(start: usize, end: usize, all: bool)
    ensures
        "LITERAL_REPLACE\nSCOPE "@ + number::dec(start as nat) + " "@ + number::dec(end as nat)
            + "\nALL "@ + (if all {
            "true"@
        } else {
            "false"@
        }) + "\nOLD:\n"@ == text::with_newlines(
            seq!["LITERAL_REPLACE"@, "SCOPE "@ + numbers(start, end), flag_line(all), "OLD:"@],
        ),
{
    let none = Seq::<Seq<char>>::empty();
    let nl = seq!['\n'];
    let v = if all {
        "true"@
    } else {
        "false"@
    };
    let a = "LITERAL_REPLACE"@;
    let b = "SCOPE "@ + numbers(start, end);
    let c = flag_line(all);
    let d = "OLD:"@;
    assert("LITERAL_REPLACE\nSCOPE "@ == a + nl + "SCOPE "@) by {
        reveal_strlit("LITERAL_REPLACE");
        reveal_strlit("LITERAL_REPLACE\nSCOPE ");
        reveal_strlit("SCOPE ");
    }
    assert("\nALL "@ + v == nl + c) by {
        reveal_strlit("ALL true");
        reveal_strlit("ALL false");
        reveal_strlit("true");
        reveal_strlit("false");
        reveal_strlit("\nALL ");
    }
    assert("\nOLD:\n"@ == nl + d + nl) by {
        reveal_strlit("\nOLD:\n");
        reveal_strlit("OLD:");
    }
    lemma_newline_push(none, a);
    lemma_newline_push(none.push(a), b);
    lemma_newline_push(none.push(a).push(b), c);
    lemma_newline_push(none.push(a).push(b).push(c), d);
    assert(seq![a, b, c, d] =~= none.push(a).push(b).push(c).push(d));
    let head = "LITERAL_REPLACE\nSCOPE "@ + number::dec(start as nat) + " "@ + number::dec(
        end as nat,
    );
    assert(head =~= a.push('\n') + b);
    assert(head + "\nALL "@ + v =~= head + ("\nALL "@ + v));
    assert(head + "\nALL "@ + v =~= a.push('\n') + b.push('\n') + c);
    assert(head + "\nALL "@ + v + "\nOLD:\n"@ =~= a.push('\n') + b.push('\n') + c.push('\n')
        + d.push('\n'));
    assert(text::with_newlines(none) + a.push('\n') =~= a.push('\n'));
}

proof fn lemma_two_lines(a: Seq<char>, b: Seq<char>)
    ensures
        text::with_newlines(seq![a, b]) == a.push('\n') + b.push('\n'),
{
    let none = Seq::<Seq<char>>::empty();
    lemma_newline_push(none, a);
    lemma_newline_push(none.push(a), b);
    assert(seq![a, b] =~= none.push(a).push(b));
    assert(text::with_newlines(none) + a.push('\n') =~= a.push('\n'));
}

/// A step in the plan format is its lines, each with a newline behind it.
proof fn lemma_text_of_step(step: StepView)
    requires
        can_be_written(step),
    ensures
        parse::step_text(step) == text::with_newlines(step_lines(step)),
{
    match step {
        StepView::SmartEdit(region) => {
            lemma_text_of_region(region);
        },
        StepView::LiteralReplace { scope_start, scope_end, all, old, new } => {
            lemma_top_of_literal(scope_start, scope_end, all);
            let top = seq![
                "LITERAL_REPLACE"@,
                "SCOPE "@ + numbers(scope_start, scope_end),
                flag_line(all),
                "OLD:"@,
            ];
            let mid = seq!["END_OLD"@, "NEW:"@];
            let end = seq!["END_NEW"@, Seq::<char>::empty()];
            lemma_two_lines("END_OLD"@, "NEW:"@);
            lemma_two_lines("END_NEW"@, Seq::<char>::empty());
            assert("\nEND_OLD\nNEW:\n"@ == "\n"@ + text::with_newlines(mid)) by {
                reveal_strlit("\nEND_OLD\nNEW:\n");
                reveal_strlit("END_OLD");
                reveal_strlit("NEW:");
                reveal_strlit("\n");
            }
            assert("\nEND_NEW\n\n"@ == "\n"@ + text::with_newlines(end)) by {
                reveal_strlit("\nEND_NEW\n\n");
                reveal_strlit("END_NEW");
                reveal_strlit("\n");
            }
            text::lemma_join_newlines(old);
            text::lemma_join_newlines(new);
            text::lemma_with_newlines_append(top, old);
            text::lemma_with_newlines_append(top + old, mid);
            text::lemma_with_newlines_append(top + old + mid, new);
            text::lemma_with_newlines_append(top + old + mid + new, end);
            let o = text::join(old, "\n"@);
            let w = text::join(new, "\n"@);
            let t = text::with_newlines(top);
            let m = "\nEND_OLD\nNEW:\n"@;
            let e = "\nEND_NEW\n\n"@;
            assert(t + o + m =~= t + (o + "\n"@) + text::with_newlines(mid));
            let u = t + o + m;
            assert(u + w + e =~= u + (w + "\n"@) + text::with_newlines(end));
        },
    }
}

proof fn lemma_block_found(ls: Seq<Seq<char>>, i: int, block: Seq<Seq<char>>, sentinel: Seq<char>)
    requires
        is_block(block, sentinel),
        0 <= i,
        i + block.len() < ls.len(),
        ls.subrange(i, i + block.len()) == block,
        ls[i + block.len()] == sentinel,
    ensures
        parse::block_until(ls, i, sentinel) == Ok::<(Seq<Seq<char>>, int), Seq<char>>(
            (block, i + block.len()),
        ),
{
    parse::lemma_line_from(ls, sentinel, i);
    let e = parse::line_from(ls, sentinel, i);
    if e < i + block.len() {
        assert(ls.subrange(i, i + block.len())[e - i] == ls[e]);
        assert(block[e - i] != sentinel);
    }
    assert(e == i + block.len());
}

proof fn lemma_not_filler(line: Seq<char>)
    requires
        line == "SMART_EDIT"@ || line == "LITERAL_REPLACE"@,
    ensures
        !parse::is_plan_filler(line),
{
    reveal_strlit("SMART_EDIT");
    reveal_strlit("LITERAL_REPLACE");
    reveal_strlit("NO_CHANGES");
    reveal_strlit("END");
    lemma_trim_same(line);
    assert(line[0] != 'N');
    assert(line.len() > 3);
}

proof fn lemma_region_read(ls: Seq<Seq<char>>, i: int, region: EditRegionView)
    requires
        can_be_written(StepView::SmartEdit(region)),
        0 <= i,
        i + 4 <= ls.len(),
        ls[i] == "SMART_EDIT"@,
        ls[i + 1] == "REGION "@ + numbers(region.start, region.end),
        ls[i + 2] == "TASK: "@ + region.task,
    ensures
        parse::step_at(ls, i) == Ok::<(StepView, int), Seq<char>>(
            (StepView::SmartEdit(region), i + 3),
        ),
{
    let nums = numbers(region.start, region.end);
    lemma_strip("REGION "@, nums);
    lemma_numbers(region.start, region.end, ls[i + 1], Seq::empty());
    let rest = seq![' '] + region.task;
    assert("TASK: "@ + region.task == "TASK:"@ + rest) by {
        reveal_strlit("TASK:");
        reveal_strlit("TASK: ");
        assert("TASK: "@ =~= "TASK:"@ + seq![' ']);
        assert("TASK: "@ + region.task =~= "TASK:"@ + rest);
    }
    lemma_strip("TASK:"@, rest);
    lemma_trimmed_ends(region.task);
    assert(text::trim(rest) == region.task) by {
        assert(rest[1] == region.task[0]);
        assert(text::skip_space(rest, 1) == 1);
        assert(text::skip_space(rest, 0) == 1);
        assert(rest.last() == region.task.last());
        assert(text::trim(rest) =~= region.task);
    }
}

proof fn lemma_literal_start(line: Seq<char>)
    requires
        line == "LITERAL_REPLACE"@,
    ensures
        line != "SMART_EDIT"@,
        !text::starts_with(line, "REGION "@),
{
    reveal_strlit("LITERAL_REPLACE");
    reveal_strlit("SMART_EDIT");
    reveal_strlit("REGION ");
    assert(line[0] == 'L');
    assert("SMART_EDIT"@[0] == 'S');
    if text::starts_with(line, "REGION "@) {
        assert(line.subrange(0, 7)[0] == 'R');
    }
}

proof fn lemma_old_line(ls: Seq<Seq<char>>, i: int)
    requires
        0 <= i < ls.len(),
        ls[i] == "OLD:"@,
    ensures
        parse::nonblank_from(ls, i) == i,
        ls[i] != "NEW:"@,
{
    reveal_strlit("OLD:");
    reveal_strlit("NEW:");
    lemma_trim_same("OLD:"@);
    assert("OLD:"@[0] == 'O');
    assert("NEW:"@[0] == 'N');
}

#[verifier::spinoff_prover]
#[verifier::rlimit(40)]
proof fn lemma_literal_read(
    ls: Seq<Seq<char>>,
    i: int,
    start: usize,
    end: usize,
    all: bool,
    old: Seq<Seq<char>>,
    new: Seq<Seq<char>>,
)
    requires
        1 <= start <= end,
        is_block(old, "END_OLD"@),
        !parse::all_blank(old),
        is_block(new, "END_NEW"@),
        0 <= i,
        i + 8 + old.len() + new.len() <= ls.len(),
        ls[i] == "LITERAL_REPLACE"@,
        ls[i + 1] == "SCOPE "@ + numbers(start, end),
        ls[i + 2] == flag_line(all),
        ls[i + 3] == "OLD:"@,
        ls.subrange(i + 4, i + 4 + old.len()) == old,
        ls[i + 4 + old.len()] == "END_OLD"@,
        ls[i + 5 + old.len()] == "NEW:"@,
        ls.subrange(i + 6 + old.len(), i + 6 + old.len() + new.len()) == new,
        ls[i + 6 + old.len() + new.len()] == "END_NEW"@,
    ensures
        parse::step_at(ls, i) == Ok::<(StepView, int), Seq<char>>(
            (
                StepView::LiteralReplace { scope_start: start, scope_end: end, all, old, new },
                i + 7 + old.len() + new.len(),
            ),
        ),
{
    lemma_literal_start(ls[i]);
    lemma_strip("SCOPE "@, numbers(start, end));
    lemma_numbers(start, end, ls[i + 1], "scope"@);
    lemma_flag(all);
    lemma_old_line(ls, i + 3);
    lemma_block_found(ls, i + 4, old, "END_OLD"@);
    lemma_block_found(ls, i + 6 + old.len(), new, "END_NEW"@);
    assert(parse::literal_blocks(ls, i + 3, start, end) == Ok::<
        ((Seq<Seq<char>>, Seq<Seq<char>>), int),
        Seq<char>,
    >(((old, new), i + 7 + old.len() + new.len())));
}

/// The lines of a step are read as that step, up to the empty line behind it.
proof fn lemma_step_read(ls: Seq<Seq<char>>, i: int, step: StepView)
    requires
        can_be_written(step),
        0 <= i,
        i + step_lines(step).len() <= ls.len(),
        ls.subrange(i, i + step_lines(step).len()) == step_lines(step),
    ensures
        parse::step_at(ls, i) == Ok::<(StepView, int), Seq<char>>(
            (step, i + step_lines(step).len() - 1),
        ),
        !parse::is_plan_filler(ls[i]),
        parse::is_plan_filler(ls[i + step_lines(step).len() - 1]),
{
    let own = step_lines(step);
    let n = own.len() as int;
    assert forall|k: int| 0 <= k < n implies #[trigger] own[k] == ls[i + k] by {
        assert(ls.subrange(i, i + n)[k] == ls[i + k]);
    }
    assert(own[0] == ls[i]);
    lemma_not_filler(ls[i]);
    assert(own[n - 1] == ls[i + n - 1]);
    text::lemma_trim_empty(ls[i + n - 1]);
    match step {
        StepView::SmartEdit(region) => {
            assert(own[1] == ls[i + 1]);
            assert(own[2] == ls[i + 2]);
            lemma_region_read(ls, i, region);
        },
        StepView::LiteralReplace { scope_start, scope_end, all, old, new } => {
            let o = old.len() as int;
            let w = new.len() as int;
            assert(own[1] == ls[i + 1]);
            assert(own[2] == ls[i + 2]);
            assert(own[3] == ls[i + 3]);
            assert(own[4 + o] == ls[i + (4 + o)]);
            assert(own[5 + o] == ls[i + (5 + o)]);
            assert(own[6 + o + w] == ls[i + (6 + o + w)]);
            assert(ls.subrange(i + 4, i + 4 + o) =~= old) by {
                assert forall|k: int| 0 <= k < o implies ls.subrange(i + 4, i + 4 + o)[k]
                    == old[k] by {
                    assert(own[4 + k] == ls[i + (4 + k)]);
                }
            }
            assert(ls.subrange(i + 6 + o, i + 6 + o + w) =~= new) by {
                assert forall|k: int| 0 <= k < w implies ls.subrange(i + 6 + o, i + 6 + o + w)[k]
                    == new[k] by {
                    assert(own[6 + o + k] == ls[i + (6 + o + k)]);
                }
            }
            lemma_literal_read(ls, i, scope_start, scope_end, all, old, new);
        },
    }
}

proof fn lemma_flag(all: bool)
    ensures
        parse::all_flag(flag_line(all)) == Ok::<bool, Seq<char>>(all),
{
    reveal_strlit("ALL true");
    reveal_strlit("ALL false");
    reveal_strlit("ALL ");
    reveal_strlit("true");
    reveal_strlit("false");
    let v = if all {
        "true"@
    } else {
        "false"@
    };
    assert(flag_line(all) =~= "ALL "@ + v);
    lemma_strip("ALL "@, v);
    assert("true"@.len() == 4);
    assert("false"@.len() == 5);
}

proof fn lemma_plan_read(ls: Seq<Seq<char>>, i: int, steps: Seq<StepView>)
    requires
        forall|k: int| 0 <= k < steps.len() ==> can_be_written(#[trigger] steps[k]),
        0 <= i <= ls.len(),
        ls.skip(i) == plan_lines(steps),
    ensures
        parse::plan_from(ls, i) == Ok::<Seq<StepView>, Seq<char>>(steps),
    decreases steps.len(),
{
    if steps.len() == 0 {
        assert(ls.skip(i).len() == 0);
        assert(steps =~= Seq::<StepView>::empty());
    } else {
        let own = step_lines(steps[0]);
        let rest = steps.skip(1);
        let n = own.len() as int;
        assert(ls.skip(i) == own + plan_lines(rest));
        assert(ls.subrange(i, i + n) =~= own) by {
            assert forall|k: int| 0 <= k < n implies ls.subrange(i, i + n)[k] == own[k] by {
                assert(ls.skip(i)[k] == (own + plan_lines(rest))[k]);
            }
        }
        assert(ls.skip(i + n) =~= plan_lines(rest)) by {
            assert(ls.skip(i).skip(n) =~= (own + plan_lines(rest)).skip(n));
            assert(ls.skip(i + n) =~= ls.skip(i).skip(n));
        }
        lemma_step_read(ls, i, steps[0]);
        assert forall|k: int| 0 <= k < rest.len() implies can_be_written(#[trigger] rest[k]) by {
            assert(rest[k] == steps[k + 1]);
        }
        lemma_plan_read(ls, i + n, rest);
        assert(parse::plan_from(ls, i + n - 1) == parse::plan_from(ls, i + n));
        assert(seq![steps[0]] + rest =~= steps);
    }
}

/// The text of a plan is its lines, each with a newline behind it.
proof fn lemma_text_of_plan(steps: Seq<StepView>)
    requires
        forall|k: int| 0 <= k < steps.len() ==> can_be_written(#[trigger] steps[k]),
    ensures
        parse::plan_text(steps) == text::with_newlines(plan_lines(steps)),
        forall|k: int|
            0 <= k < plan_lines(steps).len() ==> text::is_line(#[trigger] plan_lines(steps)[k]),
    decreases steps.len(),
{
    if steps.len() > 0 {
        let head = steps.drop_last();
        let last = steps.last();
        lemma_text_of_plan(head);
        lemma_text_of_step(last);
        lemma_lines_of_step(last);
        lemma_plan_lines_push(head, last);
        assert(head.push(last) =~= steps);
        text::lemma_with_newlines_append(plan_lines(head), step_lines(last));
        let all = plan_lines(steps);
        assert forall|k: int| 0 <= k < all.len() implies text::is_line(#[trigger] all[k]) by {
            if k < plan_lines(head).len() {
                assert(all[k] == plan_lines(head)[k]);
            } else {
                assert(all[k] == step_lines(last)[k - plan_lines(head).len()]);
            }
        }
    }
}

proof fn lemma_plan_lines_push(steps: Seq<StepView>, step: StepView)
    ensures
        plan_lines(steps.push(step)) == plan_lines(steps) + step_lines(step),
    decreases steps.len(),
{
    let all = steps.push(step);
    if steps.len() == 0 {
        assert(all.skip(1) =~= Seq::<StepView>::empty());
        assert(plan_lines(all.skip(1)) == Seq::<Seq<char>>::empty());
        assert(all[0] == step);
        assert(plan_lines(all) =~= plan_lines(steps) + step_lines(step));
    } else {
        lemma_plan_lines_push(steps.skip(1), step);
        assert(all.skip(1) =~= steps.skip(1).push(step));
        assert(all[0] == steps[0]);
        assert(plan_lines(all) =~= plan_lines(steps) + step_lines(step));
    }
}

proof fn lemma_not_fenced(s: Seq<char>, first: char)
    requires
        s.len() > 0,
        s[0] == first,
        !text::is_space(first),
        first != '`',
    ensures
        parse::unfenced(s) == s,
        !text::is_blank(s),
{
    reveal_strlit("```");
    assert(text::skip_space(s, 0) == 0);
    assert(text::trim_start(s) =~= s);
    if text::starts_with(s, "```"@) {
        assert(s.subrange(0, 3)[0] == '`');
    }
}

/// A plan that the plan format can express reads back from its text as the same
/// plan.
pub proof fn plan_reads_back(steps: Seq<StepView>)
    requires
        steps.len() <= MAX_PREPLAN_STEPS,
        forall|k: int| 0 <= k < steps.len() ==> can_be_written(#[trigger] steps[k]),
    ensures
        parse::plan_of(parse::plan_text(steps)) == Ok::<Seq<StepView>, Seq<char>>(steps),
{
    let t = parse::plan_text(steps);
    if steps.len() == 0 {
        assert(steps =~= Seq::<StepView>::empty());
    } else {
        lemma_text_of_plan(steps);
        let ls = plan_lines(steps);
        text::written_lines_read_back(ls);
        assert(ls.skip(0) =~= ls);
        lemma_plan_read(ls, 0, steps);
        lemma_plan_start(steps);
        lemma_not_fenced(t, t[0]);
    }
}

proof fn lemma_plan_start(steps: Seq<StepView>)
    requires
        steps.len() > 0,
        can_be_written(steps[0]),
    ensures
        parse::plan_text(steps).len() > 0,
        parse::plan_text(steps)[0] == 'S' || parse::plan_text(steps)[0] == 'L',
    decreases steps.len(),
{
    if steps.len() == 1 {
        reveal_strlit("SMART_EDIT\nREGION ");
        reveal_strlit("LITERAL_REPLACE\nSCOPE ");
        assert(parse::plan_text(steps.drop_last()) =~= Seq::<char>::empty());
        assert(parse::plan_text(steps) =~= parse::step_text(steps[0]));
    } else {
        lemma_plan_start(steps.drop_last());
    }
}

/// A plan that can be written, whose steps have no line in common and lie in the file, is
/// taken up from its text as it is: all of its steps, in their order, and none dropped.
pub proof fn written_plans_are_taken_up(steps: Seq<StepView>, total: nat)
    requires
        0 < steps.len() <= MAX_PREPLAN_STEPS,
        forall|k: int| 0 <= k < steps.len() ==> can_be_written(#[trigger] steps[k]),
        forall|k: int| 0 <= k < steps.len() ==> (#[trigger] steps[k]).end_line() <= total,
        forall|a: int, b: int|
            0 <= a < steps.len() && 0 <= b < steps.len() && a != b ==> !overlap::overlaps(
                #[trigger] steps[a],
                #[trigger] steps[b],
            ),
    ensures
        preplan::verdict_of(parse::plan_text(steps), total) == Ok::<
            preplan::PreplanView,
            Seq<char>,
        >(
            preplan::PreplanView::Continue {
                steps,
                dropped: Seq::empty(),
            },
        ),
{
    let t = parse::plan_text(steps);
    plan_reads_back(steps);
    assert(can_be_written(steps[0]));
    lemma_plan_start(steps);
    lemma_not_fenced(t, t[0]);
    overlap::disjoint_steps_are_kept(steps, steps.len() as int);
    assert(steps.take(steps.len() as int) =~= steps);
    preplan::steps_must_lie_in_the_file(steps, total);
    lemma_no_verdict(t);
}

proof fn lemma_no_verdict(t: Seq<char>)
    requires
        t.len() > 0,
        t[0] == 'S' || t[0] == 'L',
        parse::unfenced(t) == t,
    ensures
        !parse::is_complete_verdict(t),
        parse::failed_reason(t) is None,
        parse::after_keyword(t, "NEEDS_CLARIFICATION"@) is None,
{
    reveal_strlit("NO_CHANGES");
    reveal_strlit("COMPLETE");
    reveal_strlit("FAILED");
    reveal_strlit("NEEDS_CLARIFICATION");
    assert("NO_CHANGES"@[0] == 'N' && "COMPLETE"@[0] == 'C');
    assert(text::skip_space(t, 0) == 0);
    assert(text::trim_start(t) =~= t);
    let n = t.len() as int;
    text::lemma_back_space(t, 0, n);
    let b = text::back_space(t, 0, n);
    assert(b >= 1) by {
        if b < 1 {
            assert(text::is_space(t[0]));
        }
    }
    assert(text::trim(t)[0] == t[0]);
    if text::starts_with(t, "FAILED"@) {
        assert(t.subrange(0, 6)[0] == t[0]);
    }
    if text::starts_with(t, "NEEDS_CLARIFICATION"@) {
        assert(t.subrange(0, 19)[0] == t[0]);
    }
}

} // verus!
