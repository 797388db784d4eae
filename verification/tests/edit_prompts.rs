//! Tests of the prompts, word by word.
use miniswe_tools::edit_file::inspect::InspectionCommand;
use miniswe_tools::edit_file::parse::EditRegion;
use miniswe_tools::edit_file::prompts::{patch_prompt, region_prompt, verdict_prompt, window_prompt};
use miniswe_tools::edit_file::relocate::{relocation_prompt, Relocation, Strategy};
use miniswe_tools::edit_file::validate::LspValidationMode;

fn texts(v: &[&str]) -> Vec<String> {
    v.iter().map(|s| s.to_string()).collect()
}

#[test]
fn relocation_is_asked_word_by_word() {
    let found = Relocation {
        located_at: (3, 4),
        strategy: Strategy::ByteExact,
        file_old: texts(&["x", "y"]),
    };
    assert_eq!(relocation_prompt("p.rs", 1, 2, "OLD", &found), r#"An edit-plan step for p.rs declared SCOPE L1-L2, but the byte-exact LITERAL_REPLACE did not match there. Searching the whole file found a byte-exact match at L3-L4. Confirm whether that new range is the same edit target you intended.

OLD as written by the planner:
----
OLD
----

Actual file text at L3-L4:
----
x
y
----

Reply with exactly `YES` if L3-L4 is the intended target, or `NO` if it isn't. Output only the single word, no other text."#);
}

#[test]
fn a_region_is_asked_for_word_by_word() {
    let region = EditRegion { start: 2, end: 3, task: "unused".to_string() };
    assert_eq!(
        region_prompt("p.rs", "T", "one\ntwo\nthree\n", &region, LspValidationMode::Off).unwrap(),
        r#"You are editing one line region in p.rs: lines 2-3.
Task: T
You may edit ONLY lines 2-3. Do not target lines outside this region.
LSP validation mode: off. Your patch may be rejected if file diagnostics get worse.
Return a complete patch for this region using the patch DSL exactly:

INSERT_BEFORE <line>
CONTENT:
<lines to insert>
END

INSERT_AFTER <line>
CONTENT:
<lines to insert>
END

REPLACE_AT <start_line>
OLD:
<exact original lines>
END_OLD
NEW:
<replacement lines>
END_NEW

DELETE_AT <start_line>
OLD:
<exact original lines>
END_OLD

Rules:
- Output ONLY patch DSL blocks, no markdown or explanations.
- If no changes are needed, output exactly NO_CHANGES.
- Preserve indentation and blank lines exactly inside CONTENT/OLD/NEW.
- Keep edits small and inside the allowed line region.

Region content:
   2│two
   3│three"#
    );
}

#[test]
fn a_patch_is_asked_for_word_by_word() {
    let lines = texts(&["one", "two", "three"]);
    assert_eq!(
        patch_prompt(
            "p.rs",
            "T",
            &lines,
            (1, 3),
            1,
            3,
            Some("WHY"),
            Some("SIG"),
            LspValidationMode::Auto
        ),
        r#"You are editing one file: p.rs (window 2/3, lines 2-3 of 3).
Task: T

SIG

Previous patch was not applied.
Failure: WHY
Return a corrected patch against the original file. If the failure mentions overlapping spans, use the smallest enclosing REPLACE_AT block that covers the overlap, or split the patch into separate non-overlapping regions. Do not rewrite a much larger block just to avoid overlap.

Return a complete patch for all changes needed in this file/window.
LSP validation mode: auto. Your patch may be rejected if file diagnostics get worse.
Use this patch DSL exactly:

INSERT_BEFORE <line>
CONTENT:
<lines to insert>
END

INSERT_AFTER <line>
CONTENT:
<lines to insert>
END

REPLACE_AT <start_line>
OLD:
<exact original lines>
END_OLD
NEW:
<replacement lines>
END_NEW

DELETE_AT <start_line>
OLD:
<exact original lines>
END_OLD

Rules:
- Output ONLY patch DSL blocks, no markdown or explanations.
- If no changes are needed, output exactly NO_CHANGES.
- Line numbers refer to the original file shown below, before any operations apply.
- For REPLACE_AT/DELETE_AT, OLD determines how many lines are changed.
- Prefer small, non-overlapping operations. Do not output overlapping REPLACE_AT/DELETE_AT operations.
- If two edits overlap, use the smallest enclosing REPLACE_AT block that covers the overlap; do not rewrite a much larger block.
- Preserve indentation and blank lines exactly inside CONTENT/OLD/NEW.
- Validation is atomic: if any operation fails, no changes are applied.

File content:
   2│two
   3│three"#
    );
    assert_eq!(
        patch_prompt("p.rs", "T", &lines, (0, 3), 0, 1, None, None, LspValidationMode::Require),
        r#"You are editing one file: p.rs (3 lines).
Task: T

Return a complete patch for all changes needed in this file/window.
LSP validation mode: require. Your patch may be rejected if file diagnostics get worse.
Use this patch DSL exactly:

INSERT_BEFORE <line>
CONTENT:
<lines to insert>
END

INSERT_AFTER <line>
CONTENT:
<lines to insert>
END

REPLACE_AT <start_line>
OLD:
<exact original lines>
END_OLD
NEW:
<replacement lines>
END_NEW

DELETE_AT <start_line>
OLD:
<exact original lines>
END_OLD

Rules:
- Output ONLY patch DSL blocks, no markdown or explanations.
- If no changes are needed, output exactly NO_CHANGES.
- Line numbers refer to the original file shown below, before any operations apply.
- For REPLACE_AT/DELETE_AT, OLD determines how many lines are changed.
- Prefer small, non-overlapping operations. Do not output overlapping REPLACE_AT/DELETE_AT operations.
- If two edits overlap, use the smallest enclosing REPLACE_AT block that covers the overlap; do not rewrite a much larger block.
- Preserve indentation and blank lines exactly inside CONTENT/OLD/NEW.
- Validation is atomic: if any operation fails, no changes are applied.

File content:
   1│one
   2│two
   3│three"#
    );
}

#[test]
fn a_window_is_asked_about_word_by_word() {
    let commands = vec![
        InspectionCommand::Search("q".to_string()),
        InspectionCommand::Read { start: 3, end: 9 },
    ];
    assert_eq!(
        window_prompt(
            "p.rs",
            "T",
            "HIST",
            &texts(&["n1", "n2"]),
            &commands,
            &texts(&["one", "two", "three"]),
            (0, 2),
            0,
            2
        ),
        r#"File: p.rs
Task: T

HISTNotes gathered so far:
- n1
- n2

Inspection commands already queued (don't repeat):
- SEARCH: q
- READ: 3-9

Slice 1/2, lines 1-2 of 3.

IMPORTANT: The planning phase will NOT see the full file — only your NOTEs and inspection results. Your notes are the planner's only window into file content.

Output zero or more of these lines about landmarks the planner will need:
NOTE <fact with line number> — function/struct spans, signatures the task touches, the line where a relevant block starts.
Include enough verbatim detail (e.g. exact function signatures, parameter lists) that the planner can write LITERAL_REPLACE patches without seeing the file. Line ranges in NOTEs (e.g. L283-290) are automatically READ for the planner.

You may also request extra context before finalize with:
SEARCH: <exact text to find>
READ: <start>-<end>

SEARCH/READ commands are collected across ALL slices and batch-executed before the finalize phase — their results will reach the planner. Line ranges in your NOTEs also auto-trigger READs, so you only need explicit READ for ranges NOT mentioned in a NOTE. Don't repeat commands.

Reference line numbers from the slice. Skip vague observations and anything the planner can derive itself.

If the task is genuinely too vague, underspecified, or contradictory to execute — e.g. it names no target, or it requires information only the outer agent has — output exactly one line:
NEEDS_CLARIFICATION: <one specific question>
This is RARE. Do NOT use it for implementation decisions you can make yourself (parameter order, types, naming). Do NOT ask about information visible in the file content above — read it. Do NOT use it for tasks where the target doesn't exist yet — that's what the edit is for; plan the edit that creates it. If the task tells you WHAT to do but not HOW, just choose a reasonable approach.

Slice:
   1│one
   2│two"#
    );
}

#[test]
fn a_verdict_is_asked_for_word_by_word() {
    let none: Vec<String> = Vec::new();
    assert_eq!(
        verdict_prompt("p.rs", "T", "FB", true, &texts(&["one", "two"]), &none, "", 9),
        r#"File: p.rs (2 lines)
Task: T

FBFile content (2 lines):
   1│one
   2│two

You see the full file above — line numbers in any plan must match it exactly.

Decide the verdict for this iteration against the CURRENT file state. Pick exactly one:

(A) TASK ALREADY SATISFIED by the current file state. Output exactly one line:
COMPLETE
Use this when the task is done — whether prior iterations already completed it or the file was already in the desired state. This is a terminal verdict; no further edits will run.

(B) MORE EDITS NEEDED. Begin the response directly with `LITERAL_REPLACE` or `SMART_EDIT` — no header word, no preamble, no code fences. Up to 100 non-overlapping steps, each covering at most 5 edit sites. Steps must not share any line, including endpoints — L10-L20 and L20-L30 overlap.
Every step must change something. Do not emit a LITERAL_REPLACE whose NEW is identical to its OLD, and do not emit a SMART_EDIT whose task is to verify a region is unchanged or to keep it as-is — just leave those regions out of the plan.
Use LITERAL_REPLACE when you have the OLD text verbatim from an inspection result and OLD/NEW each span ≤ 9 lines. Otherwise use SMART_EDIT — its execution phase will see the region content.
Never use LITERAL_REPLACE for whole functions, impl blocks, modules, or test cases.

LITERAL_REPLACE
SCOPE <start> <end>
ALL true
OLD:
<exact text copied verbatim from L<start>-L<end>>
END_OLD
NEW:
<replacement text>
END_NEW

OLD: is required. Copy it from the file content you see above — do not type it from memory. If the region is too large to echo verbatim, use SMART_EDIT instead.

SMART_EDIT
REGION <start> <end>
TASK: <specific edit for this region>

(C) TASK CANNOT BE COMPLETED in this file. Output exactly one line:
FAILED: <one-line reason, under 200 chars>
Use this when the task contradicts file invariants, or prior attempts kept regressing and you have no better idea. Be concrete: name the obstacle. Not "LSP errors" but "changing parameter N of function F breaks 3 call sites in tests/".
If the task description says certain compilation errors are expected (e.g. "arity error expected — callee updated in next step"), proceed with the edit rather than emitting FAILED. This is a terminal verdict; no further edits will run.

(D) TASK TOO VAGUE to act on. Output exactly one line:
NEEDS_CLARIFICATION: <one specific question>
This is RARE — use only when the task truly names no target or contradicts the file. Do NOT use it for implementation decisions you can make yourself (parameter placement, types, naming, defaults). Do NOT ask about file content already shown above — read it. If the task tells you WHAT to do, just choose HOW and proceed with (B).

Output only one of (A)/(B)/(C)/(D). No markdown, no explanation, no empty responses."#
    );
    assert_eq!(
        verdict_prompt("p.rs", "T", "", false, &texts(&["one", "two"]), &texts(&["n1"]), "RES", 9),
        r#"File: p.rs (2 lines)
Task: T

Notes:
- n1

Inspection results:
RESYou only see the notes and inspection results above — line numbers in any plan must match the real file.

Decide the verdict for this iteration against the CURRENT file state. Pick exactly one:

(A) TASK ALREADY SATISFIED by the current file state. Output exactly one line:
COMPLETE
Use this when the task is done — whether prior iterations already completed it or the file was already in the desired state. This is a terminal verdict; no further edits will run.

(B) MORE EDITS NEEDED. Begin the response directly with `LITERAL_REPLACE` or `SMART_EDIT` — no header word, no preamble, no code fences. Up to 100 non-overlapping steps, each covering at most 5 edit sites. Steps must not share any line, including endpoints — L10-L20 and L20-L30 overlap.
Every step must change something. Do not emit a LITERAL_REPLACE whose NEW is identical to its OLD, and do not emit a SMART_EDIT whose task is to verify a region is unchanged or to keep it as-is — just leave those regions out of the plan.
Use LITERAL_REPLACE when you have the OLD text verbatim from an inspection result and OLD/NEW each span ≤ 9 lines. Otherwise use SMART_EDIT — its execution phase will see the region content.
Never use LITERAL_REPLACE for whole functions, impl blocks, modules, or test cases.

LITERAL_REPLACE
SCOPE <start> <end>
ALL true
OLD:
<exact text copied verbatim from L<start>-L<end>>
END_OLD
NEW:
<replacement text>
END_NEW

OLD: is required. Copy it from the file content you see above — do not type it from memory. If the region is too large to echo verbatim, use SMART_EDIT instead.

SMART_EDIT
REGION <start> <end>
TASK: <specific edit for this region>

(C) TASK CANNOT BE COMPLETED in this file. Output exactly one line:
FAILED: <one-line reason, under 200 chars>
Use this when the task contradicts file invariants, or prior attempts kept regressing and you have no better idea. Be concrete: name the obstacle. Not "LSP errors" but "changing parameter N of function F breaks 3 call sites in tests/".
If the task description says certain compilation errors are expected (e.g. "arity error expected — callee updated in next step"), proceed with the edit rather than emitting FAILED. This is a terminal verdict; no further edits will run.

(D) TASK TOO VAGUE to act on. Output exactly one line:
NEEDS_CLARIFICATION: <one specific question>
This is RARE — use only when the task truly names no target or contradicts the file. Do NOT use it for implementation decisions you can make yourself (parameter placement, types, naming, defaults). Do NOT ask about file content already shown above — read it. If the task tells you WHAT to do, just choose HOW and proceed with (B).

Output only one of (A)/(B)/(C)/(D). No markdown, no explanation, no empty responses."#
    );
    assert_eq!(
        verdict_prompt("p.rs", "T", "", true, &none, &none, "", 9),
        r#"File: p.rs (0 lines)
Task: T

File content: (empty)

You see the full file above — line numbers in any plan must match it exactly.

Decide the verdict for this iteration against the CURRENT file state. Pick exactly one:

(A) TASK ALREADY SATISFIED by the current file state. Output exactly one line:
COMPLETE
Use this when the task is done — whether prior iterations already completed it or the file was already in the desired state. This is a terminal verdict; no further edits will run.

(B) MORE EDITS NEEDED. Begin the response directly with `LITERAL_REPLACE` or `SMART_EDIT` — no header word, no preamble, no code fences. Up to 100 non-overlapping steps, each covering at most 5 edit sites. Steps must not share any line, including endpoints — L10-L20 and L20-L30 overlap.
Every step must change something. Do not emit a LITERAL_REPLACE whose NEW is identical to its OLD, and do not emit a SMART_EDIT whose task is to verify a region is unchanged or to keep it as-is — just leave those regions out of the plan.
Use LITERAL_REPLACE when you have the OLD text verbatim from an inspection result and OLD/NEW each span ≤ 9 lines. Otherwise use SMART_EDIT — its execution phase will see the region content.
Never use LITERAL_REPLACE for whole functions, impl blocks, modules, or test cases.

LITERAL_REPLACE
SCOPE <start> <end>
ALL true
OLD:
<exact text copied verbatim from L<start>-L<end>>
END_OLD
NEW:
<replacement text>
END_NEW

OLD: is required. Copy it from the file content you see above — do not type it from memory. If the region is too large to echo verbatim, use SMART_EDIT instead.

SMART_EDIT
REGION <start> <end>
TASK: <specific edit for this region>

(C) TASK CANNOT BE COMPLETED in this file. Output exactly one line:
FAILED: <one-line reason, under 200 chars>
Use this when the task contradicts file invariants, or prior attempts kept regressing and you have no better idea. Be concrete: name the obstacle. Not "LSP errors" but "changing parameter N of function F breaks 3 call sites in tests/".
If the task description says certain compilation errors are expected (e.g. "arity error expected — callee updated in next step"), proceed with the edit rather than emitting FAILED. This is a terminal verdict; no further edits will run.

(D) TASK TOO VAGUE to act on. Output exactly one line:
NEEDS_CLARIFICATION: <one specific question>
This is RARE — use only when the task truly names no target or contradicts the file. Do NOT use it for implementation decisions you can make yourself (parameter placement, types, naming, defaults). Do NOT ask about file content already shown above — read it. If the task tells you WHAT to do, just choose HOW and proceed with (B).

Output only one of (A)/(B)/(C)/(D). No markdown, no explanation, no empty responses."#
    );
}
