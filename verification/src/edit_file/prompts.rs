//! The prompts that the model is given for plans and patches.
use vstd::prelude::*;

use super::apply;
use super::apply::bad_region_text;
use super::inspect;
use super::inspect::{
    render_numbered_slice, CommandView, InspectionCommand,
};
use super::parse;
use super::parse::{parse_patch, EditRegion, EditRegionView, PatchOp, PatchOpView, MAX_FAILED_REASON_CHARS, MAX_PREPLAN_STEPS};
use super::validate;
use super::validate::LspValidationMode;
use crate::number;
use crate::number::dec_text;
use crate::text;
use crate::text::{joined, split_lines, trimmed};

verus! {

/// The standing instruction for the look at one window.
pub const WINDOW_SYSTEM: &'static str = "Observation phase. Output only NOTE lines, SEARCH:/READ: commands, or a NEEDS_CLARIFICATION: <question> line. No edits, no markdown.";

/// The standing instruction for a verdict.
pub const VERDICT_SYSTEM: &'static str = "Verdict phase. Output exactly one of: `COMPLETE` (task done), one or more `LITERAL_REPLACE`/`SMART_EDIT` blocks (more edits), `FAILED: <reason>` (task impossible), `NEEDS_CLARIFICATION: <question>` (task too vague). Start the response with the keyword itself — no header word, no markdown. Empty responses are not valid.";

/// The standing instruction for a patch.
pub const PATCH_SYSTEM: &'static str = "You output only strict patch DSL blocks. No explanations, no markdown.";

/// The standing instruction for a yes or a no.
pub const YES_NO_SYSTEM: &'static str = "You answer with exactly `YES` or `NO`. No other output, no markdown.";

/// What is asked of a window of the file.
pub const WINDOW_RULES: &'static str = ".\n\nIMPORTANT: The planning phase will NOT see the full file — only your NOTEs and inspection results. Your notes are the planner's only window into file content.\n\nOutput zero or more of these lines about landmarks the planner will need:\nNOTE <fact with line number> — function/struct spans, signatures the task touches, the line where a relevant block starts.\nInclude enough verbatim detail (e.g. exact function signatures, parameter lists) that the planner can write LITERAL_REPLACE patches without seeing the file. Line ranges in NOTEs (e.g. L283-290) are automatically READ for the planner.\n\nYou may also request extra context before finalize with:\nSEARCH: <exact text to find>\nREAD: <start>-<end>\n\nSEARCH/READ commands are collected across ALL slices and batch-executed before the finalize phase — their results will reach the planner. Line ranges in your NOTEs also auto-trigger READs, so you only need explicit READ for ranges NOT mentioned in a NOTE. Don't repeat commands.\n\nReference line numbers from the slice. Skip vague observations and anything the planner can derive itself.\n\nIf the task is genuinely too vague, underspecified, or contradictory to execute — e.g. it names no target, or it requires information only the outer agent has — output exactly one line:\nNEEDS_CLARIFICATION: <one specific question>\nThis is RARE. Do NOT use it for implementation decisions you can make yourself (parameter order, types, naming). Do NOT ask about information visible in the file content above — read it. Do NOT use it for tasks where the target doesn't exist yet — that's what the edit is for; plan the edit that creates it. If the task tells you WHAT to do but not HOW, just choose a reasonable approach.\n\nSlice:\n";

/// The verdicts up to the number of steps.
pub const VERDICT_CHOICES: &'static str = "\n\nDecide the verdict for this iteration against the CURRENT file state. Pick exactly one:\n\n(A) TASK ALREADY SATISFIED by the current file state. Output exactly one line:\nCOMPLETE\nUse this when the task is done — whether prior iterations already completed it or the file was already in the desired state. This is a terminal verdict; no further edits will run.\n\n(B) MORE EDITS NEEDED. Begin the response directly with `LITERAL_REPLACE` or `SMART_EDIT` — no header word, no preamble, no code fences. Up to ";

/// On steps, up to the number of lines.
pub const VERDICT_STEPS: &'static str = " non-overlapping steps, each covering at most 5 edit sites. Steps must not share any line, including endpoints — L10-L20 and L20-L30 overlap.\nEvery step must change something. Do not emit a LITERAL_REPLACE whose NEW is identical to its OLD, and do not emit a SMART_EDIT whose task is to verify a region is unchanged or to keep it as-is — just leave those regions out of the plan.\nUse LITERAL_REPLACE when you have the OLD text verbatim from an inspection result and OLD/NEW each span ≤ ";

/// On the forms of steps and the end without one.
pub const VERDICT_FORMS: &'static str = " lines. Otherwise use SMART_EDIT — its execution phase will see the region content.\nNever use LITERAL_REPLACE for whole functions, impl blocks, modules, or test cases.\n\nLITERAL_REPLACE\nSCOPE <start> <end>\nALL true\nOLD:\n<exact text copied verbatim from L<start>-L<end>>\nEND_OLD\nNEW:\n<replacement text>\nEND_NEW\n\nOLD: is required. Copy it from the file content you see above — do not type it from memory. If the region is too large to echo verbatim, use SMART_EDIT instead.\n\nSMART_EDIT\nREGION <start> <end>\nTASK: <specific edit for this region>\n\n(C) TASK CANNOT BE COMPLETED in this file. Output exactly one line:\nFAILED: <one-line reason, under ";

/// The rest on verdicts.
pub const VERDICT_TAIL: &'static str = " chars>\nUse this when the task contradicts file invariants, or prior attempts kept regressing and you have no better idea. Be concrete: name the obstacle. Not \"LSP errors\" but \"changing parameter N of function F breaks 3 call sites in tests/\".\nIf the task description says certain compilation errors are expected (e.g. \"arity error expected — callee updated in next step\"), proceed with the edit rather than emitting FAILED. This is a terminal verdict; no further edits will run.\n\n(D) TASK TOO VAGUE to act on. Output exactly one line:\nNEEDS_CLARIFICATION: <one specific question>\nThis is RARE — use only when the task truly names no target or contradicts the file. Do NOT use it for implementation decisions you can make yourself (parameter placement, types, naming, defaults). Do NOT ask about file content already shown above — read it. If the task tells you WHAT to do, just choose HOW and proceed with (B).\n\nOutput only one of (A)/(B)/(C)/(D). No markdown, no explanation, no empty responses.";

/// What follows the mode of validation in the prompt for a patch of the file.
pub const PATCH_RULES: &'static str = ". Your patch may be rejected if file diagnostics get worse.\nUse this patch DSL exactly:\n\nINSERT_BEFORE <line>\nCONTENT:\n<lines to insert>\nEND\n\nINSERT_AFTER <line>\nCONTENT:\n<lines to insert>\nEND\n\nREPLACE_AT <start_line>\nOLD:\n<exact original lines>\nEND_OLD\nNEW:\n<replacement lines>\nEND_NEW\n\nDELETE_AT <start_line>\nOLD:\n<exact original lines>\nEND_OLD\n\nRules:\n- Output ONLY patch DSL blocks, no markdown or explanations.\n- If no changes are needed, output exactly NO_CHANGES.\n- Line numbers refer to the original file shown below, before any operations apply.\n- For REPLACE_AT/DELETE_AT, OLD determines how many lines are changed.\n- Prefer small, non-overlapping operations. Do not output overlapping REPLACE_AT/DELETE_AT operations.\n- If two edits overlap, use the smallest enclosing REPLACE_AT block that covers the overlap; do not rewrite a much larger block.\n- Preserve indentation and blank lines exactly inside CONTENT/OLD/NEW.\n- Validation is atomic: if any operation fails, no changes are applied.\n\nFile content:\n";

/// What follows the mode of validation in the prompt for a patch of a region.
pub const REGION_RULES: &'static str = ". Your patch may be rejected if file diagnostics get worse.\nReturn a complete patch for this region using the patch DSL exactly:\n\nINSERT_BEFORE <line>\nCONTENT:\n<lines to insert>\nEND\n\nINSERT_AFTER <line>\nCONTENT:\n<lines to insert>\nEND\n\nREPLACE_AT <start_line>\nOLD:\n<exact original lines>\nEND_OLD\nNEW:\n<replacement lines>\nEND_NEW\n\nDELETE_AT <start_line>\nOLD:\n<exact original lines>\nEND_OLD\n\nRules:\n- Output ONLY patch DSL blocks, no markdown or explanations.\n- If no changes are needed, output exactly NO_CHANGES.\n- Preserve indentation and blank lines exactly inside CONTENT/OLD/NEW.\n- Keep edits small and inside the allowed line region.\n\nRegion content:\n";

/// Asks for a corrected patch.
pub const PATCH_REPAIR: &'static str = "\nReturn a corrected patch against the original file. If the failure mentions overlapping spans, use the smallest enclosing REPLACE_AT block that covers the overlap, or split the patch into separate non-overlapping regions. Do not rewrite a much larger block just to avoid overlap.\n";

/// A list item.
pub open spec fn bullet(s: Seq<char>) -> Seq<char> {
    "- "@ + s
}

/// List items, one on a line.
pub open spec fn bullets(items: Seq<Seq<char>>) -> Seq<char> {
    text::join(Seq::new(items.len(), |i: int| bullet(items[i])), "\n"@)
}

/// Renders list items, one on a line.
pub fn bullet_list(items: &Vec<String>) -> (r: String)
    ensures
        r@ == bullets(items.deep_view()),
{
    let ghost iv = items.deep_view();
    let ghost wanted = Seq::new(iv.len(), |i: int| bullet(iv[i]));
    let mut parts: Vec<String> = Vec::new();
    let mut i: usize = 0;
    proof {
        assert(parts.deep_view() =~= wanted.take(0));
    }
    while i < items.len()
        invariant
            i <= items@.len() == iv.len(),
            iv == items.deep_view(),
            wanted == Seq::new(iv.len(), |i: int| bullet(iv[i])),
            parts.deep_view() == wanted.take(i as int),
        decreases items.len() - i,
    {
        let ghost o = parts.deep_view();
        parts.push("- ".to_owned().concat(&items[i]));
        proof {
            assert(parts.deep_view() =~= o.push(wanted[i as int]));
            assert(wanted.take(i + 1) =~= o.push(wanted[i as int]));
        }
        i += 1;
    }
    proof {
        assert(wanted.take(i as int) =~= wanted);
    }
    joined(&parts, "\n")
}

/// An inspection command as it was asked for.
pub open spec fn command_text(c: CommandView) -> Seq<char> {
    match c {
        CommandView::Search(q) => "SEARCH: "@ + q,
        CommandView::Read { start, end } => "READ: "@ + number::dec(start as nat) + "-"@
            + number::dec(end as nat),
    }
}

/// Inspection commands as they were asked for.
pub open spec fn command_texts(cs: Seq<CommandView>) -> Seq<Seq<char>> {
    Seq::new(cs.len(), |i: int| command_text(cs[i]))
}

fn name_commands(commands: &Vec<InspectionCommand>) -> (r: Vec<String>)
    ensures
        r.deep_view() == command_texts(commands.deep_view()),
{
    let ghost cv = commands.deep_view();
    let ghost wanted = command_texts(cv);
    let mut out: Vec<String> = Vec::new();
    let mut i: usize = 0;
    proof {
        assert(out.deep_view() =~= wanted.take(0));
    }
    while i < commands.len()
        invariant
            i <= commands@.len() == cv.len(),
            cv == commands.deep_view(),
            wanted == command_texts(cv),
            out.deep_view() == wanted.take(i as int),
        decreases commands.len() - i,
    {
        let ghost o = out.deep_view();
        proof {
            assert(cv[i as int] == commands@[i as int].deep_view());
        }
        let item = match &commands[i] {
            InspectionCommand::Search(q) => "SEARCH: ".to_owned().concat(q),
            InspectionCommand::Read { start, end } => "READ: ".to_owned().concat(
                &dec_text(*start),
            ).concat("-").concat(&dec_text(*end)),
        };
        out.push(item);
        proof {
            assert(out.deep_view() =~= o.push(wanted[i as int]));
            assert(wanted.take(i + 1) =~= o.push(wanted[i as int]));
        }
        i += 1;
    }
    proof {
        assert(wanted.take(i as int) =~= wanted);
    }
    out
}

/// What was noted and asked for so far.
pub open spec fn gathered(notes: Seq<Seq<char>>, commands: Seq<CommandView>) -> Seq<char> {
    (if notes.len() == 0 {
        Seq::empty()
    } else {
        "Notes gathered so far:\n"@ + bullets(notes) + "\n\n"@
    }) + (if commands.len() == 0 {
        Seq::empty()
    } else {
        "Inspection commands already queued (don't repeat):\n"@ + bullets(command_texts(commands))
            + "\n\n"@
    })
}

fn gathered_text(notes: &Vec<String>, commands: &Vec<InspectionCommand>) -> (r: String)
    ensures
        r@ == gathered(notes.deep_view(), commands.deep_view()),
{
    proof {
        assert(notes@.len() == notes.deep_view().len());
        assert(commands@.len() == commands.deep_view().len());
    }
    let a = if notes.len() == 0 {
        String::new()
    } else {
        "Notes gathered so far:\n".to_owned().concat(&bullet_list(notes)).concat("\n\n")
    };
    let b = if commands.len() == 0 {
        String::new()
    } else {
        "Inspection commands already queued (don't repeat):\n".to_owned().concat(
            &bullet_list(&name_commands(commands)),
        ).concat("\n\n")
    };
    a.concat(&b)
}

/// The prompt for a look at the lines with indices `window.0..window.1`, window
/// `index` of `count`. `history` tells of an earlier attempt.
pub open spec fn window_prompt_text(
    path: Seq<char>,
    task: Seq<char>,
    history: Seq<char>,
    gathered: Seq<char>,
    ls: Seq<Seq<char>>,
    window: (usize, usize),
    index: nat,
    count: nat,
) -> Seq<char> {
    "File: "@ + path + "\nTask: "@ + task + "\n\n"@ + history + gathered + "Slice "@ + number::dec(
        index + 1,
    ) + "/"@ + number::dec(count) + ", lines "@ + number::dec((window.0 + 1) as nat) + "-"@
        + number::dec(window.1 as nat) + " of "@ + number::dec(ls.len()) + WINDOW_RULES@
        + inspect::slice_text(ls, window.0 as int, window.1 as int)
}

/// Makes the prompt for a look at one window of the file.
pub fn window_prompt(
    path_str: &str,
    task: &str,
    history: &str,
    notes: &Vec<String>,
    commands: &Vec<InspectionCommand>,
    lines: &Vec<String>,
    window: (usize, usize),
    index: usize,
    count: usize,
) -> (r: String)
    requires
        window.0 <= window.1,
        window.0 < lines@.len(),
        index < count,
    ensures
        r@ == window_prompt_text(
            path_str@,
            task@,
            history@,
            gathered(notes.deep_view(), commands.deep_view()),
            lines.deep_view(),
            window,
            index as nat,
            count as nat,
        ),
{
    proof {
        assert(lines@.len() == lines.deep_view().len());
    }
    let total: usize = lines.len();
    "File: ".to_owned().concat(path_str).concat("\nTask: ").concat(task).concat("\n\n").concat(
        history,
    ).concat(&gathered_text(notes, commands)).concat("Slice ").concat(&dec_text(index + 1)).concat(
        "/",
    ).concat(&dec_text(count)).concat(", lines ").concat(&dec_text(window.0 + 1)).concat(
        "-",
    ).concat(&dec_text(window.1)).concat(" of ").concat(&dec_text(total)).concat(
        WINDOW_RULES,
    ).concat(&render_numbered_slice(lines, window.0, window.1))
}

/// What is shown of the file when a plan is asked for: a small file whole, of a
/// large one what was noted and found.
pub open spec fn file_view(
    small: bool,
    ls: Seq<Seq<char>>,
    notes: Seq<Seq<char>>,
    results: Seq<char>,
) -> Seq<char> {
    if small {
        if ls.len() == 0 {
            "File content: (empty)\n\n"@
        } else {
            "File content ("@ + number::dec(ls.len()) + " lines):\n"@ + inspect::slice_text(
                ls,
                0,
                ls.len() as int,
            ) + "\n\n"@
        }
    } else {
        (if notes.len() == 0 {
            "Notes: (none)\n\n"@
        } else {
            "Notes:\n"@ + bullets(notes) + "\n\n"@
        }) + (if results.len() == 0 {
            "Inspection results: (none)\n\n"@
        } else {
            "Inspection results:\n"@ + results
        })
    }
}

fn file_view_text(small: bool, lines: &Vec<String>, notes: &Vec<String>, results: &str) -> (r:
    String)
    ensures
        r@ == file_view(small, lines.deep_view(), notes.deep_view(), results@),
{
    proof {
        assert(lines@.len() == lines.deep_view().len());
        assert(notes@.len() == notes.deep_view().len());
    }
    let total: usize = lines.len();
    if small {
        if total == 0 {
            return "File content: (empty)\n\n".to_owned();
        }
        return "File content (".to_owned().concat(&dec_text(total)).concat(" lines):\n").concat(
            &render_numbered_slice(lines, 0, total),
        ).concat("\n\n");
    }
    let a = if notes.len() == 0 {
        "Notes: (none)\n\n".to_owned()
    } else {
        "Notes:\n".to_owned().concat(&bullet_list(notes)).concat("\n\n")
    };
    let b = if results.is_empty() {
        "Inspection results: (none)\n\n".to_owned()
    } else {
        "Inspection results:\n".to_owned().concat(results)
    };
    a.concat(&b)
}

/// Reminds of what line numbers refer to.
pub open spec fn view_note(small: bool) -> Seq<char> {
    if small {
        "You see the full file above — line numbers in any plan must match it exactly."@
    } else {
        "You only see the notes and inspection results above — line numbers in any plan must match the real file."@
    }
}

/// The prompt for a verdict.
pub open spec fn verdict_prompt_text(
    path: Seq<char>,
    task: Seq<char>,
    feedback: Seq<char>,
    view: Seq<char>,
    total: nat,
    small: bool,
    max_literal_lines: usize,
) -> Seq<char> {
    "File: "@ + path + " ("@ + number::dec(total) + " lines)\nTask: "@ + task + "\n\n"@ + feedback
        + view + view_note(small) + VERDICT_CHOICES@ + number::dec(MAX_PREPLAN_STEPS as nat)
        + VERDICT_STEPS@ + number::dec(max_literal_lines as nat) + VERDICT_FORMS@ + number::dec(
        MAX_FAILED_REASON_CHARS as nat,
    ) + VERDICT_TAIL@
}

/// Makes the prompt for a verdict. `feedback` tells of an earlier attempt.
pub fn verdict_prompt(
    path_str: &str,
    task: &str,
    feedback: &str,
    small: bool,
    lines: &Vec<String>,
    notes: &Vec<String>,
    results: &str,
    max_literal_lines: usize,
) -> (r: String)
    ensures
        r@ == verdict_prompt_text(
            path_str@,
            task@,
            feedback@,
            file_view(small, lines.deep_view(), notes.deep_view(), results@),
            lines@.len(),
            small,
            max_literal_lines,
        ),
{
    let note = if small {
        "You see the full file above — line numbers in any plan must match it exactly."
    } else {
        "You only see the notes and inspection results above — line numbers in any plan must match the real file."
    };
    "File: ".to_owned().concat(path_str).concat(" (").concat(&dec_text(lines.len())).concat(
        " lines)\nTask: ",
    ).concat(task).concat("\n\n").concat(feedback).concat(
        &file_view_text(small, lines, notes, results),
    ).concat(note).concat(VERDICT_CHOICES).concat(&dec_text(MAX_PREPLAN_STEPS)).concat(
        VERDICT_STEPS,
    ).concat(&dec_text(max_literal_lines)).concat(VERDICT_FORMS).concat(
        &dec_text(MAX_FAILED_REASON_CHARS),
    ).concat(VERDICT_TAIL)
}

/// The window of a file, where it has more than one.
pub open spec fn window_label(
    index: nat,
    count: nat,
    window: (usize, usize),
    total: nat,
) -> Seq<char> {
    if count > 1 {
        "(window "@ + number::dec(index + 1) + "/"@ + number::dec(count) + ", lines "@
            + number::dec((window.0 + 1) as nat) + "-"@ + number::dec(window.1 as nat) + " of "@
            + number::dec(total) + ")"@
    } else {
        "("@ + number::dec(total) + " lines)"@
    }
}

/// The prompt for a patch of one window of the file.
pub open spec fn patch_prompt_text(
    path: Seq<char>,
    task: Seq<char>,
    ls: Seq<Seq<char>>,
    window: (usize, usize),
    index: nat,
    count: nat,
    repair_feedback: Option<Seq<char>>,
    signature_grounding: Option<Seq<char>>,
    mode: LspValidationMode,
) -> Seq<char> {
    let grounding = match signature_grounding {
        Some(note) => "\n"@ + note + "\n"@,
        None => Seq::empty(),
    };
    let repair = match repair_feedback {
        Some(f) => "\nPrevious patch was not applied.\nFailure: "@ + f + PATCH_REPAIR@,
        None => Seq::empty(),
    };
    "You are editing one file: "@ + path + " "@ + window_label(index, count, window, ls.len())
        + ".\nTask: "@ + task + "\n"@ + grounding + repair
        + "\nReturn a complete patch for all changes needed in this file/window.\nLSP validation mode: "@
        + validate::mode_name(mode) + PATCH_RULES@ + inspect::slice_text(
        ls,
        window.0 as int,
        window.1 as int,
    )
}

/// An optional text by its view.
pub open spec fn option_view(o: Option<&str>) -> Option<Seq<char>> {
    match o {
        Some(s) => Some(s@),
        None => None,
    }
}

/// Makes the prompt for a patch of one window of the file.
pub fn patch_prompt(
    path_str: &str,
    task: &str,
    lines: &Vec<String>,
    window: (usize, usize),
    index: usize,
    count: usize,
    repair_feedback: Option<&str>,
    signature_grounding: Option<&str>,
    lsp_validation: LspValidationMode,
) -> (r: String)
    requires
        window.0 <= window.1,
        window.0 <= lines@.len(),
        window.0 < usize::MAX,
        index < count,
    ensures
        r@ == patch_prompt_text(
            path_str@,
            task@,
            lines.deep_view(),
            window,
            index as nat,
            count as nat,
            option_view(repair_feedback),
            option_view(signature_grounding),
            lsp_validation,
        ),
{
    proof {
        assert(lines@.len() == lines.deep_view().len());
    }
    let total: usize = lines.len();
    let label = if count > 1 {
        "(window ".to_owned().concat(&dec_text(index + 1)).concat("/").concat(
            &dec_text(count),
        ).concat(", lines ").concat(&dec_text(window.0 + 1)).concat("-").concat(
            &dec_text(window.1),
        ).concat(" of ").concat(&dec_text(total)).concat(")")
    } else {
        "(".to_owned().concat(&dec_text(total)).concat(" lines)")
    };
    let grounding = match signature_grounding {
        Some(note) => "\n".to_owned().concat(note).concat("\n"),
        None => String::new(),
    };
    let repair = match repair_feedback {
        Some(f) => "\nPrevious patch was not applied.\nFailure: ".to_owned().concat(f).concat(
            PATCH_REPAIR,
        ),
        None => String::new(),
    };
    "You are editing one file: ".to_owned().concat(path_str).concat(" ").concat(&label).concat(
        ".\nTask: ",
    ).concat(task).concat("\n").concat(&grounding).concat(&repair).concat(
        "\nReturn a complete patch for all changes needed in this file/window.\nLSP validation mode: ",
    ).concat(lsp_validation.as_str()).concat(PATCH_RULES).concat(
        &render_numbered_slice(lines, window.0, window.1),
    )
}

/// The patches of the windows of a file, as far as they have come in.
#[derive(Debug)]
pub struct PatchResponse {
    pub ops: Vec<PatchOp>,
    pub output: String,
    pub raw_parts: Vec<String>,
}

/// A patch response over texts.
pub struct PatchResponseView {
    pub ops: Seq<PatchOpView>,
    pub output: Seq<char>,
    pub raw_parts: Seq<Seq<char>>,
}

impl DeepView for PatchResponse {
    type V = PatchResponseView;

    open spec fn deep_view(&self) -> PatchResponseView {
        PatchResponseView {
            ops: self.ops.deep_view(),
            output: self.output@,
            raw_parts: self.raw_parts.deep_view(),
        }
    }
}

/// The patches behind the reply on window `index`.
pub open spec fn with_patch_reply(before: PatchResponseView, index: nat, reply: Seq<char>) -> Result<
    PatchResponseView,
    Seq<char>,
> {
    match parse::patch_of(reply) {
        Err(e) => Err(e),
        Ok(ops) => Ok(
            PatchResponseView {
                ops: before.ops + ops,
                output: if ops.len() == 0 {
                    before.output
                } else {
                    before.output + ("Window "@ + number::dec(index + 1) + ": "@ + number::dec(
                        ops.len(),
                    ) + " operation(s) found\n"@)
                },
                raw_parts: before.raw_parts.push(text::trim(reply)),
            },
        ),
    }
}

impl PatchResponse {
    /// No patches yet.
    pub fn new() -> (r: PatchResponse)
        ensures
            r.deep_view() == (PatchResponseView {
                ops: Seq::empty(),
                output: Seq::empty(),
                raw_parts: Seq::empty(),
            }),
    {
        let r = PatchResponse { ops: Vec::new(), output: String::new(), raw_parts: Vec::new() };
        proof {
            assert(r.ops.deep_view() =~= Seq::<PatchOpView>::empty());
            assert(r.raw_parts.deep_view() =~= Seq::<Seq<char>>::empty());
        }
        r
    }

    /// Takes the reply on window `index`.
    pub fn take_reply(self, index: usize, reply: &str) -> (r: Result<PatchResponse, String>)
        requires
            index < usize::MAX,
        ensures
            text::result_view(r) == with_patch_reply(self.deep_view(), index as nat, reply@),
    {
        let mut ops = match parse_patch(reply) {
            Err(e) => {
                return Err(e);
            },
            Ok(v) => v,
        };
        let ghost new_ops = ops.deep_view();
        proof {
            assert(ops@.len() == new_ops.len());
        }
        let mut all = self.ops;
        let mut output = self.output;
        let mut raw_parts = self.raw_parts;
        let ghost before_ops = all.deep_view();
        let ghost before_raw = raw_parts.deep_view();
        let part = trimmed(reply);
        let ghost pv = part@;
        raw_parts.push(part);
        proof {
            assert(raw_parts.deep_view() =~= before_raw.push(pv));
        }
        if ops.len() > 0 {
            output.append(
                &"Window ".to_owned().concat(&dec_text(index + 1)).concat(": ").concat(
                    &dec_text(ops.len()),
                ).concat(" operation(s) found\n"),
            );
        }
        all.append(&mut ops);
        proof {
            assert(all.deep_view() =~= before_ops + new_ops);
        }
        Ok(PatchResponse { ops: all, output, raw_parts })
    }

    /// The replies as one text.
    pub fn raw_text(&self) -> (r: String)
        ensures
            r@ == text::join(self.raw_parts.deep_view(), "\n---\n"@),
    {
        joined(&self.raw_parts, "\n---\n")
    }
}

/// The prompt for a patch of a region.
pub open spec fn region_prompt_text(
    path: Seq<char>,
    task: Seq<char>,
    content: Seq<char>,
    region: EditRegionView,
    mode: LspValidationMode,
) -> Result<Seq<char>, Seq<char>> {
    let ls = text::lines(content);
    if region.start == 0 || region.end < region.start || region.end > ls.len() {
        Err(apply::bad_region(region.start, region.end, ls.len()))
    } else {
        let range = number::dec(region.start as nat) + "-"@ + number::dec(region.end as nat);
        Ok(
            "You are editing one line region in "@ + path + ": lines "@ + range + ".\nTask: "@
                + task + "\nYou may edit ONLY lines "@ + range
                + ". Do not target lines outside this region.\nLSP validation mode: "@
                + validate::mode_name(mode) + REGION_RULES@ + inspect::slice_text(
                ls,
                region.start - 1,
                region.end as int,
            ),
        )
    }
}

/// Makes the prompt for a patch of a region.
pub fn region_prompt(
    path_str: &str,
    task: &str,
    content: &str,
    region: &EditRegion,
    lsp_validation: LspValidationMode,
) -> (r: Result<String, String>)
    ensures
        text::result_view(r) == region_prompt_text(
            path_str@,
            task@,
            content@,
            region.deep_view(),
            lsp_validation,
        ),
{
    let lines = split_lines(content);
    let total: usize = lines.len();
    proof {
        assert(total == lines.deep_view().len());
    }
    if region.start == 0 || region.end < region.start || region.end > total {
        return Err(bad_region_text(region.start, region.end, total));
    }
    let range = dec_text(region.start).concat("-").concat(&dec_text(region.end));
    Ok(
        "You are editing one line region in ".to_owned().concat(path_str).concat(
            ": lines ",
        ).concat(&range).concat(".\nTask: ").concat(task).concat(
            "\nYou may edit ONLY lines ",
        ).concat(&range).concat(
            ". Do not target lines outside this region.\nLSP validation mode: ",
        ).concat(lsp_validation.as_str()).concat(REGION_RULES).concat(
            &render_numbered_slice(&lines, region.start - 1, region.end),
        ),
    )
}

/// The patch of a region, and what is reported of it.
pub open spec fn region_reply(reply: Seq<char>, region: EditRegionView) -> Result<
    (Seq<PatchOpView>, Seq<char>),
    Seq<char>,
> {
    match parse::patch_of(reply) {
        Err(e) => Err(e),
        Ok(ops) => Ok(
            (
                ops,
                if ops.len() == 0 {
                    Seq::empty()
                } else {
                    "Region L"@ + number::dec(region.start as nat) + "-L"@ + number::dec(
                        region.end as nat,
                    ) + ": "@ + number::dec(ops.len()) + " operation(s) found\n"@
                },
            ),
        ),
    }
}

/// Takes the reply to the prompt for a patch of a region.
pub fn take_region_reply(reply: &str, region: &EditRegion) -> (r: Result<
    (Vec<PatchOp>, String),
    String,
>)
    ensures
        text::result_view(r) == region_reply(reply@, region.deep_view()),
{
    match parse_patch(reply) {
        Err(e) => Err(e),
        Ok(ops) => {
            proof {
                assert(ops@.len() == ops.deep_view().len());
            }
            let output = if ops.len() == 0 {
                String::new()
            } else {
                "Region L".to_owned().concat(&dec_text(region.start)).concat("-L").concat(
                    &dec_text(region.end),
                ).concat(": ").concat(&dec_text(ops.len())).concat(" operation(s) found\n")
            };
            Ok((ops, output))
        },
    }
}

/// A command that is named in a prompt reads back as that command.
pub proof fn named_commands_read_back(c: CommandView)
    requires
        match c {
            CommandView::Search(q) => q.len() > 0 && !text::is_space(q[0]) && !text::is_space(
                q.last(),
            ),
            CommandView::Read { start, end } => 1 <= start <= end,
        },
    ensures
        inspect::line_meaning(command_text(c), true) == inspect::LineView::Command(c),
{
    match c {
        CommandView::Search(q) => {
            inspect::searches_are_read(q, true);
        },
        CommandView::Read { start, end } => {
            inspect::reads_are_read(start, end, true);
        },
    }
}

/// A list shows each of its items behind a dash.
pub proof fn bullets_show_their_items(items: Seq<Seq<char>>, i: int)
    requires
        0 <= i < items.len(),
    ensures
        text::has_text(bullets(items), "- "@ + items[i]),
{
    text::parts_are_found(Seq::new(items.len(), |k: int| bullet(items[k])), "\n"@, i);
}

/// The prompt on a window shows each of its lines with its number, and names the file, the
/// task, and what was told before.
pub proof fn window_prompts_show_the_window(
    path: Seq<char>,
    task: Seq<char>,
    history: Seq<char>,
    known: Seq<char>,
    ls: Seq<Seq<char>>,
    window: (usize, usize),
    index: nat,
    count: nat,
    k: int,
)
    requires
        window.0 <= k < window.1,
        k < ls.len(),
    ensures
        ({
            let s = window_prompt_text(path, task, history, known, ls, window, index, count);
            &&& text::has_text(s, number::padded_dec((k + 1) as nat, 4) + "│"@ + ls[k])
            &&& text::starts_with(s, "File: "@ + path + "\nTask: "@ + task + "\n\n"@ + history + known)
        }),
{
    let s = window_prompt_text(path, task, history, known, ls, window, index, count);
    let slice = inspect::slice_text(ls, window.0 as int, window.1 as int);
    let p = number::padded_dec((k + 1) as nat, 4) + "│"@ + ls[k];
    inspect::slices_show_their_lines(ls, window.0 as int, window.1 as int, k);
    let front = s.take(s.len() - slice.len());
    assert(s =~= front + slice);
    text::found_in_either(front, slice, p);
    let h = "File: "@ + path + "\nTask: "@ + task + "\n\n"@ + history + known;
    assert(s.subrange(0, h.len() as int) =~= h);
}

/// A small file is shown whole; of another, the notes and the results of inspections are
/// shown.
pub proof fn file_views_show_what_is_known(
    ls: Seq<Seq<char>>,
    notes: Seq<Seq<char>>,
    results: Seq<char>,
    i: int,
)
    ensures
        0 <= i < ls.len() ==> text::has_text(
            file_view(true, ls, notes, results),
            number::padded_dec((i + 1) as nat, 4) + "│"@ + ls[i],
        ),
        0 <= i < notes.len() ==> text::has_text(
            file_view(false, ls, notes, results),
            "- "@ + notes[i],
        ),
        results.len() > 0 ==> text::has_text(file_view(false, ls, notes, results), results),
{
    if 0 <= i < ls.len() {
        let p = number::padded_dec((i + 1) as nat, 4) + "│"@ + ls[i];
        let slice = inspect::slice_text(ls, 0, ls.len() as int);
        let head = "File content ("@ + number::dec(ls.len()) + " lines):\n"@;
        inspect::slices_show_their_lines(ls, 0, ls.len() as int, i);
        text::found_in_either(head, slice, p);
        text::found_in_either(head + slice, "\n\n"@, p);
    }
    let a = if notes.len() == 0 {
        "Notes: (none)\n\n"@
    } else {
        "Notes:\n"@ + bullets(notes) + "\n\n"@
    };
    let b = if results.len() == 0 {
        "Inspection results: (none)\n\n"@
    } else {
        "Inspection results:\n"@ + results
    };
    if 0 <= i < notes.len() {
        let p = "- "@ + notes[i];
        bullets_show_their_items(notes, i);
        text::found_in_either("Notes:\n"@, bullets(notes), p);
        text::found_in_either("Notes:\n"@ + bullets(notes), "\n\n"@, p);
        text::found_in_either(a, b, p);
    }
    text::found_in_either("Inspection results:\n"@, results, results);
    text::found_in_either(a, b, results);
}

/// The prompt for a verdict begins with the file and the task, and goes on with what was
/// told before and the view of the file.
pub proof fn verdict_prompts_show_the_file(
    path: Seq<char>,
    task: Seq<char>,
    feedback: Seq<char>,
    view: Seq<char>,
    total: nat,
    small: bool,
    max_literal_lines: usize,
)
    ensures
        text::starts_with(
            verdict_prompt_text(path, task, feedback, view, total, small, max_literal_lines),
            "File: "@ + path + " ("@ + number::dec(total) + " lines)\nTask: "@ + task + "\n\n"@
                + feedback + view,
        ),
        text::has_text(
            verdict_prompt_text(path, task, feedback, view, total, small, max_literal_lines),
            number::dec(max_literal_lines as nat) + VERDICT_FORMS@,
        ),
{
    let s = verdict_prompt_text(path, task, feedback, view, total, small, max_literal_lines);
    let h = "File: "@ + path + " ("@ + number::dec(total) + " lines)\nTask: "@ + task + "\n\n"@
        + feedback + view;
    assert(s.subrange(0, h.len() as int) =~= h);
    let a = h + view_note(small) + VERDICT_CHOICES@ + number::dec(MAX_PREPLAN_STEPS as nat)
        + VERDICT_STEPS@;
    let p = number::dec(max_literal_lines as nat) + VERDICT_FORMS@;
    let b = number::dec(MAX_FAILED_REASON_CHARS as nat) + VERDICT_TAIL@;
    assert(s =~= a + p + b);
    text::found_between(a, p, b);
}

/// The prompt for a patch shows each line of its window with its number, names the file, the
/// task and the mode, and tells why the last patch was not applied.
pub proof fn patch_prompts_show_the_window(
    path: Seq<char>,
    task: Seq<char>,
    ls: Seq<Seq<char>>,
    window: (usize, usize),
    index: nat,
    count: nat,
    repair_feedback: Option<Seq<char>>,
    signature_grounding: Option<Seq<char>>,
    mode: LspValidationMode,
    k: int,
)
    requires
        window.0 <= k < window.1,
        k < ls.len(),
    ensures
        ({
            let s = patch_prompt_text(
                path,
                task,
                ls,
                window,
                index,
                count,
                repair_feedback,
                signature_grounding,
                mode,
            );
            &&& text::has_text(s, number::padded_dec((k + 1) as nat, 4) + "│"@ + ls[k])
            &&& text::starts_with(s, "You are editing one file: "@ + path)
            &&& text::has_text(s, "\nTask: "@ + task + "\n"@)
            &&& repair_feedback matches Some(f) ==> text::has_text(s, "\nFailure: "@ + f)
            &&& text::has_text(s, "LSP validation mode: "@ + validate::mode_name(mode))
        }),
{
    let s = patch_prompt_text(
        path,
        task,
        ls,
        window,
        index,
        count,
        repair_feedback,
        signature_grounding,
        mode,
    );
    let slice = inspect::slice_text(ls, window.0 as int, window.1 as int);
    let p = number::padded_dec((k + 1) as nat, 4) + "│"@ + ls[k];
    let h = "You are editing one file: "@ + path;
    let grounding = match signature_grounding {
        Some(note) => "\n"@ + note + "\n"@,
        None => Seq::empty(),
    };
    let repair = match repair_feedback {
        Some(f) => "\nPrevious patch was not applied.\nFailure: "@ + f + PATCH_REPAIR@,
        None => Seq::empty(),
    };
    let label = h + " "@ + window_label(index, count, window, ls.len());
    let ask =
        "\nReturn a complete patch for all changes needed in this file/window.\nLSP validation mode: "@;
    let name = validate::mode_name(mode);
    let line = ".\nTask: "@ + task + "\n"@;
    lemma_patch_parts(label, ".\nTask: "@, task, "\n"@, grounding, repair, ask, name, PATCH_RULES@, slice);
    inspect::slices_show_their_lines(ls, window.0 as int, window.1 as int, k);
    text::found_through(s, slice, p);
    assert(text::starts_with(s, h)) by {
        assert(s.subrange(0, h.len() as int) =~= h);
    }
    lemma_task_line(task);
    text::found_through(s, line, "\nTask: "@ + task + "\n"@);
    lemma_mode_line(name);
    text::found_through(s, ask + name, "LSP validation mode: "@ + name);
    match repair_feedback {
        Some(f) => {
            lemma_failure_line(f);
            text::found_through(s, repair, "\nFailure: "@ + f);
        },
        None => {},
    }
}

proof fn lemma_behind(s: Seq<char>, a: Seq<char>, b: Seq<char>, c: Seq<char>, d: Seq<char>, p: Seq<char>)
    requires
        text::has_text(s, p),
    ensures
        text::has_text(s + a + b + c + d, p),
        text::has_text(s + a + b, p),
{
    text::found_in_either(s, a, p);
    text::found_in_either(s + a, b, p);
    text::found_in_either(s + a + b, c, p);
    text::found_in_either(s + a + b + c, d, p);
}

proof fn lemma_patch_parts(
    label: Seq<char>,
    t: Seq<char>,
    task: Seq<char>,
    nl: Seq<char>,
    grounding: Seq<char>,
    repair: Seq<char>,
    ask: Seq<char>,
    name: Seq<char>,
    rules: Seq<char>,
    slice: Seq<char>,
)
    ensures
        ({
            let s = label + t + task + nl + grounding + repair + ask + name + rules + slice;
            &&& text::has_text(s, t + task + nl)
            &&& text::has_text(s, repair)
            &&& text::has_text(s, ask + name)
            &&& text::has_text(s, slice)
        }),
{
    let line = t + task + nl;
    let h = label + t + task + nl;
    assert(h =~= label + line);
    text::found_in_either(label, line, line);
    let g = h + grounding + repair;
    lemma_behind(h, grounding, repair, ask, name, line);
    lemma_behind(g, ask, name, rules, slice, line);
    text::found_in_either(h + grounding, repair, repair);
    lemma_behind(g, ask, name, rules, slice, repair);
    let m = g + ask + name;
    assert(m =~= g + (ask + name));
    text::found_in_either(g, ask + name, ask + name);
    lemma_behind(m, rules, slice, rules, slice, ask + name);
    text::found_in_either(m + rules, slice, slice);
}

proof fn lemma_task_line(task: Seq<char>)
    ensures
        text::has_text(".\nTask: "@ + task + "\n"@, "\nTask: "@ + task + "\n"@),
{
    reveal_strlit(".\nTask: ");
    reveal_strlit("\nTask: ");
    let s = ".\nTask: "@ + task + "\n"@;
    let p = "\nTask: "@ + task + "\n"@;
    assert(s.subrange(1, 1 + p.len() as int) =~= p);
    assert(text::occurs_at(s, p, 1));
}

proof fn lemma_mode_line(name: Seq<char>)
    ensures
        text::has_text(
            "\nReturn a complete patch for all changes needed in this file/window.\nLSP validation mode: "@
                + name,
            "LSP validation mode: "@ + name,
        ),
{
    reveal_strlit(
        "\nReturn a complete patch for all changes needed in this file/window.\nLSP validation mode: ",
    );
    reveal_strlit("LSP validation mode: ");
    let s = "\nReturn a complete patch for all changes needed in this file/window.\nLSP validation mode: "@
        + name;
    let p = "LSP validation mode: "@ + name;
    let k = s.len() - p.len();
    assert(s.subrange(k, k + p.len() as int) =~= p);
    assert(text::occurs_at(s, p, k));
}

proof fn lemma_failure_line(f: Seq<char>)
    ensures
        text::has_text(
            "\nPrevious patch was not applied.\nFailure: "@ + f + PATCH_REPAIR@,
            "\nFailure: "@ + f,
        ),
{
    reveal_strlit("\nPrevious patch was not applied.\nFailure: ");
    reveal_strlit("\nFailure: ");
    let a = "\nPrevious patch was not applied.\nFailure: "@;
    let s = a + f + PATCH_REPAIR@;
    let p = "\nFailure: "@ + f;
    let k = a.len() - "\nFailure: "@.len();
    assert(s.subrange(k, k + p.len() as int) =~= p);
    assert(text::occurs_at(s, p, k));
}

/// The operations of several windows are gathered in their order, and a reply that is no
/// patch is an error.
pub proof fn operations_are_gathered(before: PatchResponseView, index: nat, reply: Seq<char>)
    ensures
        match parse::patch_of(reply) {
            Err(e) => with_patch_reply(before, index, reply) == Err::<PatchResponseView, Seq<char>>(
                e,
            ),
            Ok(ops) => with_patch_reply(before, index, reply) matches Ok(r) && r.ops == before.ops
                + ops && r.raw_parts == before.raw_parts.push(text::trim(reply))
                && text::starts_with(r.output, before.output),
        },
{
    match with_patch_reply(before, index, reply) {
        Ok(r) => {
            assert(r.output.subrange(0, before.output.len() as int) =~= before.output);
        },
        Err(_) => {},
    }
}

/// The prompt on a region is made exactly where the file has the region; it shows each of
/// its lines with its number, and no line may be edited but those.
pub proof fn region_prompts_show_the_region(
    path: Seq<char>,
    task: Seq<char>,
    content: Seq<char>,
    region: EditRegionView,
    mode: LspValidationMode,
    k: int,
)
    ensures
        region_prompt_text(path, task, content, region, mode) is Ok <==> 1 <= region.start
            <= region.end <= text::lines(content).len(),
        region_prompt_text(path, task, content, region, mode) matches Ok(s) ==> {
            &&& region.start <= k <= region.end ==> text::has_text(
                s,
                number::padded_dec(k as nat, 4) + "│"@ + text::lines(content)[k - 1],
            )
            &&& text::starts_with(
                s,
                "You are editing one line region in "@ + path + ": lines "@ + number::dec(
                    region.start as nat,
                ) + "-"@ + number::dec(region.end as nat) + ".\nTask: "@ + task
                    + "\nYou may edit ONLY lines "@ + number::dec(region.start as nat) + "-"@
                    + number::dec(region.end as nat),
            )
        },
{
    let ls = text::lines(content);
    match region_prompt_text(path, task, content, region, mode) {
        Ok(s) => {
            let slice = inspect::slice_text(ls, region.start - 1, region.end as int);
            let front = s.take(s.len() - slice.len());
            assert(s =~= front + slice);
            if region.start <= k <= region.end {
                let p = number::padded_dec(k as nat, 4) + "│"@ + ls[k - 1];
                inspect::slices_show_their_lines(ls, region.start - 1, region.end as int, k - 1);
                text::found_in_either(front, slice, p);
            }
            let h = "You are editing one line region in "@ + path + ": lines "@ + number::dec(
                region.start as nat,
            ) + "-"@ + number::dec(region.end as nat) + ".\nTask: "@ + task
                + "\nYou may edit ONLY lines "@ + number::dec(region.start as nat) + "-"@
                + number::dec(region.end as nat);
            assert(s.subrange(0, h.len() as int) =~= h);
        },
        Err(_) => {},
    }
}

/// What is read of a reply on a region are its operations; where there are any, they are
/// counted.
pub proof fn region_replies_are_patches(reply: Seq<char>, region: EditRegionView)
    ensures
        match parse::patch_of(reply) {
            Err(e) => region_reply(reply, region) == Err::<
                (Seq<PatchOpView>, Seq<char>),
                Seq<char>,
            >(e),
            Ok(ops) => region_reply(reply, region) matches Ok(r) && r.0 == ops && (r.1.len() == 0
                <==> ops.len() == 0),
        },
{
    reveal_strlit("Region L");
}

/// The prompt on a window tells which it is of how many, and its lines, counted from 1.
pub proof fn windows_are_numbered(
    path: Seq<char>,
    task: Seq<char>,
    history: Seq<char>,
    known: Seq<char>,
    ls: Seq<Seq<char>>,
    window: (usize, usize),
    index: nat,
    count: nat,
)
    ensures
        text::has_text(
            window_prompt_text(path, task, history, known, ls, window, index, count),
            "Slice "@ + number::dec(index + 1) + "/"@ + number::dec(count) + ", lines "@
                + number::dec((window.0 + 1) as nat) + "-"@ + number::dec(window.1 as nat)
                + " of "@ + number::dec(ls.len()),
        ),
        count > 1 ==> window_label(index, count, window, ls.len()) == "(window "@ + number::dec(
            index + 1,
        ) + "/"@ + number::dec(count) + ", lines "@ + number::dec((window.0 + 1) as nat) + "-"@
            + number::dec(window.1 as nat) + " of "@ + number::dec(ls.len()) + ")"@,
{
    let s = window_prompt_text(path, task, history, known, ls, window, index, count);
    let p = "Slice "@ + number::dec(index + 1) + "/"@ + number::dec(count) + ", lines "@
        + number::dec((window.0 + 1) as nat) + "-"@ + number::dec(window.1 as nat) + " of "@
        + number::dec(ls.len());
    let a = "File: "@ + path + "\nTask: "@ + task + "\n\n"@ + history + known;
    let b = WINDOW_RULES@ + inspect::slice_text(ls, window.0 as int, window.1 as int);
    assert(s =~= a + p + b);
    text::found_between(a, p, b);
}

/// The prompt for a verdict tells whether the whole file is seen, or only notes on it.
pub proof fn verdict_prompts_tell_what_is_seen(
    path: Seq<char>,
    task: Seq<char>,
    feedback: Seq<char>,
    view: Seq<char>,
    total: nat,
    small: bool,
    max_literal_lines: usize,
)
    ensures
        text::has_text(
            verdict_prompt_text(path, task, feedback, view, total, small, max_literal_lines),
            if small {
                "You see the full file above"@
            } else {
                "You only see the notes and inspection results above"@
            },
        ),
{
    let s = verdict_prompt_text(path, task, feedback, view, total, small, max_literal_lines);
    let a = "File: "@ + path + " ("@ + number::dec(total) + " lines)\nTask: "@ + task + "\n\n"@
        + feedback + view;
    let b = VERDICT_CHOICES@ + number::dec(MAX_PREPLAN_STEPS as nat) + VERDICT_STEPS@
        + number::dec(max_literal_lines as nat) + VERDICT_FORMS@ + number::dec(
        MAX_FAILED_REASON_CHARS as nat,
    ) + VERDICT_TAIL@;
    assert(s =~= a + view_note(small) + b);
    text::found_between(a, view_note(small), b);
    lemma_view_note(small);
    text::found_through(
        s,
        view_note(small),
        if small {
            "You see the full file above"@
        } else {
            "You only see the notes and inspection results above"@
        },
    );
}

proof fn lemma_view_note(small: bool)
    ensures
        text::has_text(
            view_note(small),
            if small {
                "You see the full file above"@
            } else {
                "You only see the notes and inspection results above"@
            },
        ),
{
    if small {
        reveal_strlit(
            "You see the full file above — line numbers in any plan must match it exactly.",
        );
        reveal_strlit("You see the full file above");
        let p = "You see the full file above"@;
        assert(view_note(small).subrange(0, p.len() as int) =~= p);
        assert(text::occurs_at(view_note(small), p, 0));
    } else {
        reveal_strlit(
            "You only see the notes and inspection results above — line numbers in any plan must match the real file.",
        );
        reveal_strlit("You only see the notes and inspection results above");
        let p = "You only see the notes and inspection results above"@;
        assert(view_note(small).subrange(0, p.len() as int) =~= p);
        assert(text::occurs_at(view_note(small), p, 0));
    }
}

} // verus!
