//! The tools as the model sees them: their names, descriptions and help texts.
use vstd::prelude::*;

use crate::fast::dispatch;
use crate::refactor;
use crate::text;

verus! {

/// Which edit tools the model is given.
#[derive(Debug, Clone, Copy, PartialEq, Eq, Structural)]
pub enum EditMode {
    /// Edits are planned from a description of the task.
    Smart,
    /// Edits are made by line number.
    Fast,
}

/// Help on the `file` tool where edits are planned.
pub const FILE_HELP_SMART: &'static str = "Available actions for `file`:

- read: Read a file. Params: path (required), start_line, end_line
- delete: Delete an existing file. Params: path (required)
  Example: {\"action\":\"delete\",\"path\":\"src/bin/old.rs\"}
- search: Search codebase. Params: query (literal text, no regex) OR pattern (regex); exactly one required. Also: scope, max_results
- shell: Run a command. Params: command (required), timeout
  Example: {\"action\":\"shell\",\"command\":\"cargo check\",\"timeout\":30}
- revert: Revert files to a previous round. Params: to_round, path (both optional)

For text edits use edit_file (semantic, planner-driven). For full-file overwrites use write_file. There is no longer a deterministic search-and-replace action.";

/// Help on the `file` tool where edits are made by line number.
pub const FILE_HELP_FAST: &'static str = "Available actions for `file`:

- read: Read a file. Params: path (required), start_line, end_line
- delete: Delete an existing file. Params: path (required)
  Example: {\"action\":\"delete\",\"path\":\"src/bin/old.rs\"}
- search: Search codebase. Params: query (literal text, no regex) OR pattern (regex); exactly one required. Also: scope, max_results
- shell: Run a command. Params: command (required), timeout
  Example: {\"action\":\"shell\",\"command\":\"cargo check\",\"timeout\":30}
- revert: Revert files to a previous round. Params: to_round, path (both optional)

For partial edits use replace_range or insert_at; if an edit regresses, revert that revision instead of layering more edits. For full-file overwrites use write_file.";

/// Help on the `code` tool.
pub const CODE_HELP: &'static str = "Available actions for `code`:

- goto_definition: Jump to definition. Params: path, line, column (all required)
- find_references: Find all references. Params: path, line, column (all required)
- diagnostics: Get compiler errors/warnings. Params: path (optional)
- repo_map: Get project structure with signatures. Params: keywords (optional)
- project_info: Get project metadata, guidelines, lessons. No params.
- architecture_notes: Get architecture overview from .ai/README.md. No params.";

/// Help on the `web` tool.
pub const WEB_HELP: &'static str = "Available actions for `web`:

- search: Search the web. Params: query (required), max_results
  General web search uses Serper when configured.
  Recommended setup: put the raw key in `~/.miniswe/serper.key`.
  Without a Serper key, `web(search)` falls back to GitHub repository search only.
- fetch: Fetch a URL as markdown. Params: url (required), selector";

/// Help on the `plan` tool.
pub const PLAN_HELP: &'static str = "Available actions for `plan`:

- set: Create a plan. Params: steps (array) or content (markdown)
  Each step has: description, compile (bool, default true), reason (if compile=false)
- check: Mark step done. Params: step (number). Runs compile gate if compile=true.
- refine: Split a step into substeps. Params: step (number), substeps (array)
- show: View current plan. No params.
- scratchpad: Save working notes. Params: content (required, must have ## Current Task and ## Plan sections)";

/// The help text of the `file` tool.
pub open spec fn file_help_text(mode: EditMode) -> Seq<char> {
    match mode {
        EditMode::Smart => FILE_HELP_SMART@,
        EditMode::Fast => FILE_HELP_FAST@,
    }
}

/// The help text of the `file` tool.
pub fn file_help(edit_mode: EditMode) -> (r: &'static str)
    ensures
        r@ == file_help_text(edit_mode),
{
    match edit_mode {
        EditMode::Smart => FILE_HELP_SMART,
        EditMode::Fast => FILE_HELP_FAST,
    }
}

/// The help text of the `code` tool.
pub fn code_help() -> (r: &'static str)
    ensures
        r@ == CODE_HELP@,
{
    CODE_HELP
}

/// The help text of the `web` tool.
pub fn web_help() -> (r: &'static str)
    ensures
        r@ == WEB_HELP@,
{
    WEB_HELP
}

/// The help text of the `plan` tool.
pub fn plan_help() -> (r: &'static str)
    ensures
        r@ == PLAN_HELP@,
{
    PLAN_HELP
}

/// What `refactor` is for, up to the tools that it stands in for.
pub const REFACTOR_TEXT: &'static str = "ATOMIC multi-file refactor — updates the definition AND every callsite in one call. Use this WHENEVER the task is:\n• adding a parameter (e.g. 'add a flag', 'add a context arg', 'extend signature with X')\n• removing a parameter\n• renaming a function, method, type, or variable across the codebase\n\nDO NOT enumerate or edit callsites yourself with ";

/// What `refactor` is for, behind the tools that it stands in for.
pub const REFACTOR_TAIL: &'static str = " for these tasks — that's manual, error-prone, and the exact thing this tool exists to avoid. One refactor call is faster and atomic.\n\nTarget is resolved by `name` via LSP, so exact line/column isn't needed. Actions: add_param, drop_param, rename. Use action='help' for parameter details and worked examples.";

/// The schema of the arguments of `refactor`.
pub const REFACTOR_SCHEMA: &'static str = "{\"type\": \"object\", \"properties\": {\"action\": {\"type\": \"string\", \"description\": \"One of: add_param, drop_param, rename, help\"}, \"path\": {\"type\": \"string\", \"description\": \"File containing the function DEFINITION or a reference to the symbol (relative to project root). If you only have a callsite, use code(goto_definition) first.\"}, \"name\": {\"type\": \"string\", \"description\": \"Function/symbol name. Resolved via LSP — works even if your line number is approximate.\"}, \"line\": {\"type\": \"integer\", \"description\": \"1-based line hint. For add_param/drop_param: optional, disambiguates when multiple methods share `name`. For rename: required — line where `name` appears.\"}, \"new_param\": {\"type\": \"string\", \"description\": \"For add_param: the new parameter declaration as it should appear in the signature, e.g. 'system_prompt_override: Option<&str>'\"}, \"position\": {\"type\": \"string\", \"description\": \"For add_param: where to insert. Either 'start' or 'after:<existing_param_name>'. Use after:<last_param> to append at the end.\"}, \"callsite_fill_in\": {\"type\": \"string\", \"description\": \"For add_param: the literal expression to insert at every existing callsite, e.g. 'None'\"}, \"param\": {\"type\": \"string\", \"description\": \"For drop_param: the name of the parameter to remove\"}, \"new_name\": {\"type\": \"string\", \"description\": \"For rename: the new symbol name\"}}, \"required\": [\"action\"]}";

/// What `file` is for.
pub const FILE_TEXT: &'static str = "File operations: read, search, shell, delete, revert. Use action='help' for details. ";

/// The schema of the arguments of `file`.
pub const FILE_SCHEMA: &'static str = "{\"type\": \"object\", \"properties\": {\"action\": {\"type\": \"string\", \"description\": \"One of: read, delete, search, shell, revert, help\"}, \"path\": {\"type\": \"string\", \"description\": \"File path (required for read/delete/revert)\"}, \"start_line\": {\"type\": \"integer\", \"description\": \"Start line for action='read'\"}, \"end_line\": {\"type\": \"integer\", \"description\": \"End line for action='read'\"}, \"query\": {\"type\": \"string\", \"description\": \"Search text (for search)\"}, \"pattern\": {\"type\": \"string\", \"description\": \"Regex pattern (for search)\"}, \"scope\": {\"type\": \"string\", \"description\": \"Search scope (for search)\"}, \"max_results\": {\"type\": \"integer\", \"description\": \"Max results (for search)\"}, \"command\": {\"type\": \"string\", \"description\": \"Shell command (for shell)\"}, \"timeout\": {\"type\": \"integer\", \"description\": \"Timeout in seconds (for shell)\"}, \"to_round\": {\"type\": \"integer\", \"description\": \"Round to revert to (for revert)\"}}, \"required\": [\"action\"]}";

/// What `code` is for.
pub const CODE_TEXT: &'static str = "Code intelligence: goto_definition, find_references, diagnostics, repo_map, project_info, architecture_notes. Use action='help' for details.";

/// The schema of the arguments of `code`.
pub const CODE_SCHEMA: &'static str = "{\"type\": \"object\", \"properties\": {\"action\": {\"type\": \"string\", \"description\": \"One of: goto_definition, find_references, diagnostics, repo_map, project_info, architecture_notes, help\"}, \"path\": {\"type\": \"string\", \"description\": \"File path (for goto_definition, find_references, diagnostics)\"}, \"line\": {\"type\": \"integer\", \"description\": \"Line number (for goto_definition, find_references)\"}, \"column\": {\"type\": \"integer\", \"description\": \"Column number (for goto_definition, find_references)\"}, \"keywords\": {\"type\": \"string\", \"description\": \"Keywords to focus repo map on (for repo_map)\"}}, \"required\": [\"action\"]}";

/// What `web` is for.
pub const WEB_TEXT: &'static str = "Web access: search the web or fetch a URL. General web search uses Serper when configured. If no Serper key is configured, web(search) falls back to GitHub repository search only. Recommended setup: put your Serper key in ~/.miniswe/serper.key. Use action='help' for details.";

/// The schema of the arguments of `web`.
pub const WEB_SCHEMA: &'static str = "{\"type\": \"object\", \"properties\": {\"action\": {\"type\": \"string\", \"description\": \"One of: search, fetch, help\"}, \"query\": {\"type\": \"string\", \"description\": \"Search query (for search)\"}, \"url\": {\"type\": \"string\", \"description\": \"URL to fetch (for fetch)\"}, \"max_results\": {\"type\": \"integer\", \"description\": \"Max results (for search)\"}, \"selector\": {\"type\": \"string\", \"description\": \"CSS selector (for fetch)\"}}, \"required\": [\"action\"]}";

/// What `plan` is for, up to the edit tools that it unlocks.
pub const PLAN_TEXT: &'static str = "Plan and track work. Actions: 'set' (create plan from `steps` or `content` — UNLOCKS the edit tools ";

/// What `plan` is for, behind the edit tools that it unlocks.
pub const PLAN_TAIL: &'static str = "), 'check' REQUIRES `step` (1-indexed step number; marks done with compile gate), 'refine' REQUIRES `step` AND `substeps` (replaces target step with substeps), 'show' (view plan), 'scratchpad' (save notes), 'help' (full details). Call 'set' ONCE early in the session before editing.";

/// The schema of the arguments of `plan`.
pub const PLAN_SCHEMA: &'static str = "{\"type\": \"object\", \"properties\": {\"action\": {\"type\": \"string\", \"description\": \"One of: set, check, refine, show, scratchpad, help\"}, \"content\": {\"type\": \"string\", \"description\": \"For set: plan in markdown. For scratchpad: notes content.\"}, \"steps\": {\"type\": \"array\", \"description\": \"For action='set': structured step list. Each item is {step: string (the action text), compile?: boolean (default true)}.\", \"items\": {\"type\": \"object\", \"properties\": {\"step\": {\"type\": \"string\", \"description\": \"What to do in this step.\"}, \"compile\": {\"type\": \"boolean\", \"description\": \"Whether the project should compile after this step. Default true.\"}}, \"required\": [\"step\"]}}, \"step\": {\"type\": \"integer\", \"description\": \"REQUIRED when action is 'check' or 'refine'. 1-indexed step number from the current plan.\"}, \"substeps\": {\"type\": \"array\", \"description\": \"REQUIRED when action is 'refine'. Array of substep objects that replace the target step. Same item shape as the 'steps' array.\", \"items\": {\"type\": \"object\", \"properties\": {\"step\": {\"type\": \"string\", \"description\": \"What to do in this substep.\"}, \"compile\": {\"type\": \"boolean\", \"description\": \"Whether the project should compile after this substep. Default true.\"}}, \"required\": [\"step\"]}}}, \"required\": [\"action\"]}";

/// What `edit_file` is for.
pub const EDIT_FILE_TEXT: &'static str = "Apply a semantic code change across one file using an atomic patch. Best for multi-line edits, repeated call-site updates, changed function callers, or 5+ similar edits that need per-site reasoning. Supports optional LSP validation.";

/// The schema of the arguments of `edit_file`.
pub const EDIT_FILE_SCHEMA: &'static str = "{\"type\": \"object\", \"properties\": {\"path\": {\"type\": \"string\", \"description\": \"File path relative to project root\"}, \"task\": {\"type\": \"string\", \"description\": \"What to change and why. Be specific: include types, parameter names, values.\"}, \"lsp_validation\": {\"type\": \"string\", \"enum\": [\"auto\", \"require\", \"off\"], \"description\": \"Optional validation policy: auto (default) uses LSP if available, require fails if LSP is unavailable or diagnostics worsen, off skips LSP validation.\"}}, \"required\": [\"path\", \"task\"]}";

/// What `write_file` is for, where edits are planned.
pub const WRITE_FILE_SMART: &'static str = "Create or overwrite a file. Provide complete file contents in `content`, or omit `content` to create a new empty file. Do not use for partial edits to existing code; use edit_file instead.";

/// What `write_file` is for, where edits are made by line number.
pub const WRITE_FILE_FAST: &'static str = "Create a NEW file. Provide complete contents in `content`. WARNING: regenerating existing files often drops imports/braces/struct fields. For editing existing files, use replace_range/insert_at/refactor instead.";

/// The schema of the arguments of `write_file`.
pub const WRITE_FILE_SCHEMA: &'static str = "{\"type\": \"object\", \"properties\": {\"path\": {\"type\": \"string\", \"description\": \"File path relative to project root\"}, \"content\": {\"type\": \"string\", \"description\": \"Complete replacement file contents. Omit only to create a new empty file.\"}}, \"required\": [\"path\"]}";

/// What `replace_range` is for.
pub const REPLACE_RANGE_TEXT: &'static str = "Replace lines [start..=end] (1-based, inclusive) with `content`. Empty content deletes. Keep the range TIGHT — anything in the range that isn't in `content` is gone. To ADD new lines, use insert_at. For signature changes / renames, use refactor. Per-edit AST+LSP feedback comes back in the response; if you see a regression, call `revert`.";

/// The schema of the arguments of `replace_range`.
pub const REPLACE_RANGE_SCHEMA: &'static str = "{\"type\": \"object\", \"properties\": {\"path\": {\"type\": \"string\", \"description\": \"File path relative to project root\"}, \"start\": {\"type\": \"integer\", \"description\": \"First line to replace (1-based, inclusive)\"}, \"end\": {\"type\": \"integer\", \"description\": \"Last line to replace (1-based, inclusive)\"}, \"content\": {\"type\": \"string\", \"description\": \"Replacement text. Empty string deletes [start..=end].\"}}, \"required\": [\"path\", \"start\", \"end\", \"content\"]}";

/// What `insert_at` is for.
pub const INSERT_AT_TEXT: &'static str = "Insert `content` after line `after_line` (1-based). Use after_line=0 to insert at the top of the file, after_line=<last line> to append. Use `replace_range` when you need to replace or delete existing lines. For adding a parameter to a function (which also requires inserting an argument at every callsite), use `refactor(add_param)` instead — one atomic call beats hand-editing each callsite.";

/// The schema of the arguments of `insert_at`.
pub const INSERT_AT_SCHEMA: &'static str = "{\"type\": \"object\", \"properties\": {\"path\": {\"type\": \"string\", \"description\": \"File path relative to project root\"}, \"after_line\": {\"type\": \"integer\", \"description\": \"Line to insert after (0 = top of file, N = after current line N)\"}, \"content\": {\"type\": \"string\", \"description\": \"Text to insert. Cannot be empty.\"}}, \"required\": [\"path\", \"after_line\", \"content\"]}";

/// What `revert` is for.
pub const REVERT_TEXT: &'static str = "Restore `path` to a named prior revision. Pick the rev number from the revision table attached to every edit's feedback. Reverting to rev_N marks rev_{N+1}.. as tombstones (`[reverted]` rows that stay in the table so you can see what you undid — use `show_rev` for details). The next edit gets a fresh monotonic number, never a recycled one. Tombstones cannot be the target of another revert.";

/// The schema of the arguments of `revert`.
pub const REVERT_SCHEMA: &'static str = "{\"type\": \"object\", \"properties\": {\"path\": {\"type\": \"string\", \"description\": \"File path relative to project root\"}, \"rev\": {\"type\": \"integer\", \"description\": \"Revision number to restore (0 = original / pristine). Must be a live rev, not a tombstone.\"}}, \"required\": [\"path\", \"rev\"]}";

/// What `show_rev` is for.
pub const SHOW_REV_TEXT: &'static str = "Show the full stored details for a specific revision of `path`: operation, arguments, outcome, and the verbatim payload (new_text / inserted text) capped at 2 KB. Works for both live revs and tombstones — useful for deciding whether your next edit would be a byte-identical replay of an edit you already reverted.";

/// The schema of the arguments of `show_rev`.
pub const SHOW_REV_SCHEMA: &'static str = "{\"type\": \"object\", \"properties\": {\"path\": {\"type\": \"string\", \"description\": \"File path relative to project root\"}, \"rev\": {\"type\": \"integer\", \"description\": \"Revision number to inspect (0 = pristine)\"}}, \"required\": [\"path\", \"rev\"]}";

/// What `check` is for.
pub const CHECK_TEXT: &'static str = "Run the project's compiler (cargo / tsc / go vet / mvn / gradle) and report errors. Per-edit feedback already shows LSP state; reach for this when you want a deeper, synchronous confirmation that the whole project builds.";

/// The schema of the arguments of `check`.
pub const CHECK_SCHEMA: &'static str = "{\"type\": \"object\", \"properties\": {}}";

/// What `add_function_param` is for.
pub const ADD_FUNCTION_PARAM_TEXT: &'static str = "Add a parameter to a function and update its definition AND every callsite in ONE atomic call (resolved by name via LSP). Use for 'add a flag', 'thread a context arg', etc. Do not hand-edit callsites for this.";

/// The schema of the arguments of `add_function_param`.
pub const ADD_FUNCTION_PARAM_SCHEMA: &'static str = "{\"type\": \"object\", \"properties\": {\"path\": {\"type\": \"string\", \"description\": \"File containing the function DEFINITION (relative to project root).\"}, \"function\": {\"type\": \"string\", \"description\": \"Function/method name. Resolved via LSP.\"}, \"param\": {\"type\": \"string\", \"description\": \"Full new parameter declaration as it appears in the signature, e.g. 'shout: bool'.\"}, \"call_value\": {\"type\": \"string\", \"description\": \"Literal expression to pass at every existing callsite, e.g. 'false' or an in-scope variable name.\"}, \"after\": {\"type\": \"string\", \"description\": \"Optional: existing parameter name to insert after. Omit to append at the end (the common case).\"}, \"line\": {\"type\": \"integer\", \"description\": \"Optional 1-based line hint to disambiguate overloaded names.\"}}, \"required\": [\"path\", \"function\", \"param\", \"call_value\"]}";

/// What `drop_function_param` is for.
pub const DROP_FUNCTION_PARAM_TEXT: &'static str = "Remove a parameter from a function and update its definition AND every callsite in ONE atomic call (resolved by name via LSP).";

/// The schema of the arguments of `drop_function_param`.
pub const DROP_FUNCTION_PARAM_SCHEMA: &'static str = "{\"type\": \"object\", \"properties\": {\"path\": {\"type\": \"string\", \"description\": \"File containing the function DEFINITION.\"}, \"function\": {\"type\": \"string\", \"description\": \"Function/method name.\"}, \"param\": {\"type\": \"string\", \"description\": \"Name of the parameter to remove.\"}, \"line\": {\"type\": \"integer\", \"description\": \"Optional 1-based line hint.\"}}, \"required\": [\"path\", \"function\", \"param\"]}";

/// What `rename_symbol` is for.
pub const RENAME_SYMBOL_TEXT: &'static str = "Rename a function/method/type/variable across the codebase (definition + all references) in ONE atomic call.";

/// The schema of the arguments of `rename_symbol`.
pub const RENAME_SYMBOL_SCHEMA: &'static str = "{\"type\": \"object\", \"properties\": {\"path\": {\"type\": \"string\", \"description\": \"A file where the symbol appears (relative to project root).\"}, \"line\": {\"type\": \"integer\", \"description\": \"1-based line where `name` appears.\"}, \"name\": {\"type\": \"string\", \"description\": \"Current symbol name.\"}, \"new_name\": {\"type\": \"string\", \"description\": \"New symbol name.\"}}, \"required\": [\"path\", \"line\", \"name\", \"new_name\"]}";

/// What `mcp_use` is for.
pub const MCP_USE_TEXT: &'static str = "Call a tool on a connected MCP server.";

/// The schema of the arguments of `mcp_use`.
pub const MCP_USE_SCHEMA: &'static str = "{\"type\": \"object\", \"properties\": {\"server\": {\"type\": \"string\", \"description\": \"MCP server name (from [MCP:name] in context)\"}, \"tool\": {\"type\": \"string\", \"description\": \"Tool name on that server\"}, \"arguments\": {\"type\": \"object\", \"description\": \"Arguments to pass to the tool\"}}, \"required\": [\"server\", \"tool\"]}";

/// What `spawn_agents` is for.
pub const SPAWN_AGENTS_TEXT: &'static str = "Run multiple independent agent sub-tasks concurrently. Each agent gets its own prompt and runs to completion with full tool access. All agents share the same LLM concurrency limit. Returns all agents' outputs when every agent has finished.";

/// The schema of the arguments of `spawn_agents`.
pub const SPAWN_AGENTS_SCHEMA: &'static str = "{\"type\": \"object\", \"properties\": {\"agents\": {\"type\": \"array\", \"description\": \"List of agents to run\", \"items\": {\"type\": \"object\", \"properties\": {\"label\": {\"type\": \"string\", \"description\": \"Short label for this agent (shown in output)\"}, \"prompt\": {\"type\": \"string\", \"description\": \"Full task prompt for this agent\"}}, \"required\": [\"label\", \"prompt\"]}}}, \"required\": [\"agents\"]}";

/// How files are edited, where edits are planned.
pub const EDIT_HINT_SMART: &'static str = "For code edits use edit_file; for full-file overwrites use write_file.";

/// How files are edited, where edits are made by line number.
pub const EDIT_HINT_FAST: &'static str = "For surgical line-precise code edits use replace_range or insert_at; for structural rewrites (e.g. wrapping a block in if-let) use replace_range over the enclosing block; for full-file overwrites use write_file.";

/// The tools that edit parts of a file, where edits are planned.
pub const EDIT_TOOLS_SMART: &'static str = "edit_file";

/// The tools that edit parts of a file, where edits are made by line number.
pub const EDIT_TOOLS_FAST: &'static str = "replace_range/insert_at";

/// The edit tools that a plan unlocks, where edits are planned.
pub const UNLOCKED_SMART: &'static str = "refactor/edit_file/write_file";

/// The edit tools that a plan unlocks, where edits are made by line number.
pub const UNLOCKED_FAST: &'static str = "refactor/write_file/replace_range/insert_at";

/// A tool as the model sees it: a function with a name, a description and a schema
/// of its arguments, as JSON.
#[derive(Debug)]
pub struct ToolDefinition {
    pub name: String,
    pub description: String,
    pub parameters: String,
}

/// A definition over texts.
pub struct DefinitionView {
    pub name: Seq<char>,
    pub description: Seq<char>,
    pub parameters: Seq<char>,
}

impl DeepView for ToolDefinition {
    type V = DefinitionView;

    open spec fn deep_view(&self) -> DefinitionView {
        DefinitionView {
            name: self.name@,
            description: self.description@,
            parameters: self.parameters@,
        }
    }
}

/// A definition of three texts.
pub open spec fn definition(
    name: Seq<char>,
    description: Seq<char>,
    parameters: Seq<char>,
) -> DefinitionView {
    DefinitionView { name, description, parameters }
}

fn define(name: &str, description: &str, parameters: &str) -> (r: ToolDefinition)
    ensures
        r.deep_view() == definition(name@, description@, parameters@),
{
    ToolDefinition {
        name: name.to_owned(),
        description: description.to_owned(),
        parameters: parameters.to_owned(),
    }
}

/// How files are edited.
pub open spec fn edit_hint(mode: EditMode) -> Seq<char> {
    match mode {
        EditMode::Smart => EDIT_HINT_SMART@,
        EditMode::Fast => EDIT_HINT_FAST@,
    }
}

/// The tools that edit parts of a file.
pub open spec fn edit_tools(mode: EditMode) -> Seq<char> {
    match mode {
        EditMode::Smart => EDIT_TOOLS_SMART@,
        EditMode::Fast => EDIT_TOOLS_FAST@,
    }
}

/// The edit tools that a plan unlocks.
pub open spec fn unlocked_tools(mode: EditMode) -> Seq<char> {
    match mode {
        EditMode::Smart => UNLOCKED_SMART@,
        EditMode::Fast => UNLOCKED_FAST@,
    }
}

/// What `write_file` is for.
pub open spec fn write_file_text(mode: EditMode) -> Seq<char> {
    match mode {
        EditMode::Smart => WRITE_FILE_SMART@,
        EditMode::Fast => WRITE_FILE_FAST@,
    }
}

/// The tools that every model is given.
pub open spec fn main_tools(mode: EditMode) -> Seq<DefinitionView> {
    seq![
        definition(
            "refactor"@,
            REFACTOR_TEXT@ + edit_tools(mode) + REFACTOR_TAIL@,
            REFACTOR_SCHEMA@,
        ),
        definition("file"@, FILE_TEXT@ + edit_hint(mode), FILE_SCHEMA@),
        definition("code"@, CODE_TEXT@, CODE_SCHEMA@),
        definition("web"@, WEB_TEXT@, WEB_SCHEMA@),
        definition("plan"@, PLAN_TEXT@ + unlocked_tools(mode) + PLAN_TAIL@, PLAN_SCHEMA@),
        definition("edit_file"@, EDIT_FILE_TEXT@, EDIT_FILE_SCHEMA@),
        definition("write_file"@, write_file_text(mode), WRITE_FILE_SCHEMA@),
    ]
}

/// The tools that every model is given. Of the tools that only one mode offers,
/// their descriptions name those of `edit_mode`.
pub fn tool_definitions(edit_mode: EditMode) -> (r: Vec<ToolDefinition>)
    ensures
        r.deep_view() == main_tools(edit_mode),
{
    let hint = match edit_mode {
        EditMode::Smart => EDIT_HINT_SMART,
        EditMode::Fast => EDIT_HINT_FAST,
    };
    let write_text = match edit_mode {
        EditMode::Smart => WRITE_FILE_SMART,
        EditMode::Fast => WRITE_FILE_FAST,
    };
    let tools = match edit_mode {
        EditMode::Smart => EDIT_TOOLS_SMART,
        EditMode::Fast => EDIT_TOOLS_FAST,
    };
    let unlocked = match edit_mode {
        EditMode::Smart => UNLOCKED_SMART,
        EditMode::Fast => UNLOCKED_FAST,
    };
    let refactor_text = REFACTOR_TEXT.to_owned().concat(tools).concat(REFACTOR_TAIL);
    let plan_text = PLAN_TEXT.to_owned().concat(unlocked).concat(PLAN_TAIL);
    let mut out: Vec<ToolDefinition> = Vec::new();
    out.push(define("refactor", &refactor_text, REFACTOR_SCHEMA));
    out.push(define("file", &FILE_TEXT.to_owned().concat(hint), FILE_SCHEMA));
    out.push(define("code", CODE_TEXT, CODE_SCHEMA));
    out.push(define("web", WEB_TEXT, WEB_SCHEMA));
    out.push(define("plan", &plan_text, PLAN_SCHEMA));
    out.push(define("edit_file", EDIT_FILE_TEXT, EDIT_FILE_SCHEMA));
    out.push(define("write_file", write_text, WRITE_FILE_SCHEMA));
    proof {
        assert(out.deep_view() =~= main_tools(edit_mode));
    }
    out
}

/// The tools that edit by line number.
pub open spec fn fast_tools() -> Seq<DefinitionView> {
    seq![
        definition("replace_range"@, REPLACE_RANGE_TEXT@, REPLACE_RANGE_SCHEMA@),
        definition("insert_at"@, INSERT_AT_TEXT@, INSERT_AT_SCHEMA@),
        definition("revert"@, REVERT_TEXT@, REVERT_SCHEMA@),
        definition("show_rev"@, SHOW_REV_TEXT@, SHOW_REV_SCHEMA@),
        definition("check"@, CHECK_TEXT@, CHECK_SCHEMA@),
    ]
}

/// The tools that edit by line number.
pub fn fast_mode_tool_definitions() -> (r: Vec<ToolDefinition>)
    ensures
        r.deep_view() == fast_tools(),
{
    let mut out: Vec<ToolDefinition> = Vec::new();
    out.push(define("replace_range", REPLACE_RANGE_TEXT, REPLACE_RANGE_SCHEMA));
    out.push(define("insert_at", INSERT_AT_TEXT, INSERT_AT_SCHEMA));
    out.push(define("revert", REVERT_TEXT, REVERT_SCHEMA));
    out.push(define("show_rev", SHOW_REV_TEXT, SHOW_REV_SCHEMA));
    out.push(define("check", CHECK_TEXT, CHECK_SCHEMA));
    proof {
        assert(out.deep_view() =~= fast_tools());
    }
    out
}

/// The refactorings as tools of their own.
pub open spec fn flat_tools() -> Seq<DefinitionView> {
    seq![
        definition("add_function_param"@, ADD_FUNCTION_PARAM_TEXT@, ADD_FUNCTION_PARAM_SCHEMA@),
        definition("drop_function_param"@, DROP_FUNCTION_PARAM_TEXT@, DROP_FUNCTION_PARAM_SCHEMA@),
        definition("rename_symbol"@, RENAME_SYMBOL_TEXT@, RENAME_SYMBOL_SCHEMA@),
    ]
}

/// The refactorings as tools of their own.
pub fn flat_refactor_tool_definitions() -> (r: Vec<ToolDefinition>)
    ensures
        r.deep_view() == flat_tools(),
{
    let mut out: Vec<ToolDefinition> = Vec::new();
    out.push(define("add_function_param", ADD_FUNCTION_PARAM_TEXT, ADD_FUNCTION_PARAM_SCHEMA));
    out.push(define("drop_function_param", DROP_FUNCTION_PARAM_TEXT, DROP_FUNCTION_PARAM_SCHEMA));
    out.push(define("rename_symbol", RENAME_SYMBOL_TEXT, RENAME_SYMBOL_SCHEMA));
    proof {
        assert(out.deep_view() =~= flat_tools());
    }
    out
}

/// The tool that calls tools of other servers.
pub fn mcp_tool_definition() -> (r: ToolDefinition)
    ensures
        r.deep_view() == definition("mcp_use"@, MCP_USE_TEXT@, MCP_USE_SCHEMA@),
{
    define("mcp_use", MCP_USE_TEXT, MCP_USE_SCHEMA)
}

/// The tool that runs several agents.
pub fn spawn_agents_tool_definition() -> (r: ToolDefinition)
    ensures
        r.deep_view() == definition("spawn_agents"@, SPAWN_AGENTS_TEXT@, SPAWN_AGENTS_SCHEMA@),
{
    define("spawn_agents", SPAWN_AGENTS_TEXT, SPAWN_AGENTS_SCHEMA)
}

/// The tools that edit by line number are those that a call by name reaches, and each
/// reaches its own.
pub proof fn offered_tools_can_be_called()
    ensures
        fast_tools().len() == 5,
        forall|i: int|
            0 <= i < fast_tools().len() ==> dispatch::tool_of(#[trigger] fast_tools()[i].name)
                is Ok,
        forall|i: int, j: int|
            0 <= i < j < fast_tools().len() ==> dispatch::tool_of(#[trigger] fast_tools()[i].name)
                != dispatch::tool_of(#[trigger] fast_tools()[j].name),
{
    dispatch::tools_are_told_apart(Seq::empty());
}

/// The refactorings that are tools of their own are those that are mapped to the grouped
/// one.
pub proof fn offered_refactorings_are_mapped(a: serde_json::Value)
    ensures
        flat_tools().len() == 3,
        forall|i: int|
            0 <= i < flat_tools().len() ==> refactor::grouped_args(
                #[trigger] flat_tools()[i].name,
                a,
            ) is Some,
{
}

/// The descriptions of the main tools name the edit tools that their mode offers, whole,
/// and there are the same tools in both modes.
pub proof fn descriptions_fit_the_mode(mode: EditMode)
    ensures
        main_tools(mode).len() == 7,
        forall|i: int|
            0 <= i < 7 ==> (#[trigger] main_tools(mode)[i]).name == main_tools(
                EditMode::Smart,
            )[i].name && main_tools(mode)[i].parameters == main_tools(EditMode::Smart)[i].parameters,
        text::has_text(
            main_tools(mode)[0].description,
            match mode {
                EditMode::Smart => "edit_file"@,
                EditMode::Fast => "replace_range/insert_at"@,
            },
        ),
        text::has_text(
            main_tools(mode)[1].description,
            match mode {
                EditMode::Smart => EDIT_HINT_SMART@,
                EditMode::Fast => EDIT_HINT_FAST@,
            },
        ),
        text::has_text(
            main_tools(mode)[4].description,
            match mode {
                EditMode::Smart => "refactor/edit_file/write_file"@,
                EditMode::Fast => "refactor/write_file/replace_range/insert_at"@,
            },
        ),
{
    text::found_in_either(REFACTOR_TEXT@, edit_tools(mode), edit_tools(mode));
    text::found_in_either(REFACTOR_TEXT@ + edit_tools(mode), REFACTOR_TAIL@, edit_tools(mode));
    text::found_in_either(FILE_TEXT@, edit_hint(mode), edit_hint(mode));
    text::found_in_either(PLAN_TEXT@, unlocked_tools(mode), unlocked_tools(mode));
    text::found_in_either(PLAN_TEXT@ + unlocked_tools(mode), PLAN_TAIL@, unlocked_tools(mode));
}

} // verus!
