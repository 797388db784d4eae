//! The tools by name, and the actions of those that group several.
use vstd::prelude::*;

use crate::args;
use crate::args::{get_str_or, number_required, read_field, text_required, ArgValue, ArgView};
use crate::definitions;
use crate::definitions::{code_help, file_help, plan_help, web_help, EditMode};
use crate::text;
use crate::text::same_text;
use crate::tool;
use crate::tool::{ToolResult, ToolView};

verus! {

/// A tool, or the answer that it needs no more than.
#[derive(Debug)]
pub enum ToolStep {
    File,
    Code,
    Web,
    WriteFile,
    Scratchpad,
    Answer(ToolResult),
}

/// A tool over texts.
pub enum ToolStepView {
    File,
    Code,
    Web,
    WriteFile,
    Scratchpad,
    Answer(ToolView),
}

impl DeepView for ToolStep {
    type V = ToolStepView;

    open spec fn deep_view(&self) -> ToolStepView {
        match *self {
            ToolStep::File => ToolStepView::File,
            ToolStep::Code => ToolStepView::Code,
            ToolStep::Web => ToolStepView::Web,
            ToolStep::WriteFile => ToolStepView::WriteFile,
            ToolStep::Scratchpad => ToolStepView::Scratchpad,
            ToolStep::Answer(t) => ToolStepView::Answer(t.deep_view()),
        }
    }
}

/// The tool of a name. Of the plan, only help and the scratchpad can be reached by
/// name.
pub open spec fn tool_step_of(name: Seq<char>, action: Seq<char>) -> Result<
    ToolStepView,
    Seq<char>,
> {
    if name == "file"@ {
        Ok(ToolStepView::File)
    } else if name == "code"@ {
        Ok(ToolStepView::Code)
    } else if name == "web"@ {
        Ok(ToolStepView::Web)
    } else if name == "write_file"@ {
        Ok(ToolStepView::WriteFile)
    } else if name == "plan"@ {
        if action == "help"@ {
            Ok(ToolStepView::Answer(tool::ok_view(definitions::PLAN_HELP@)))
        } else if action == "scratchpad"@ {
            Ok(ToolStepView::Scratchpad)
        } else {
            Err("plan tool must be dispatched by caller with round context"@)
        }
    } else {
        Err("Unknown tool: "@ + name)
    }
}

/// Finds the tool of a name.
pub fn tool_step(name: &str, action: &str) -> (r: Result<ToolStep, String>)
    ensures
        text::result_view(r) == tool_step_of(name@, action@),
{
    if same_text(name, "file") {
        Ok(ToolStep::File)
    } else if same_text(name, "code") {
        Ok(ToolStep::Code)
    } else if same_text(name, "web") {
        Ok(ToolStep::Web)
    } else if same_text(name, "write_file") {
        Ok(ToolStep::WriteFile)
    } else if same_text(name, "plan") {
        if same_text(action, "help") {
            Ok(ToolStep::Answer(ToolResult::ok(plan_help().to_owned())))
        } else if same_text(action, "scratchpad") {
            Ok(ToolStep::Scratchpad)
        } else {
            Err("plan tool must be dispatched by caller with round context".to_owned())
        }
    } else {
        Err("Unknown tool: ".to_owned().concat(name))
    }
}

/// The action that the arguments of a call name, or nothing.
pub fn read_action(args: &serde_json::Value) -> (r: String)
    ensures
        r@ == args::text_or(args::field(*args, "action"@), Seq::empty()),
{
    let none = String::new();
    get_str_or(args, "action", &none)
}

/// What an action on files needs.
#[derive(Debug)]
pub enum FileStep {
    Read,
    Delete,
    Search,
    Shell,
    Answer(ToolResult),
}

/// What an action on files needs, over texts.
pub enum FileStepView {
    Read,
    Delete,
    Search,
    Shell,
    Answer(ToolView),
}

impl DeepView for FileStep {
    type V = FileStepView;

    open spec fn deep_view(&self) -> FileStepView {
        match *self {
            FileStep::Read => FileStepView::Read,
            FileStep::Delete => FileStepView::Delete,
            FileStep::Search => FileStepView::Search,
            FileStep::Shell => FileStepView::Shell,
            FileStep::Answer(t) => FileStepView::Answer(t.deep_view()),
        }
    }
}

/// What is answered to an action that is no longer there.
pub const NO_WRITE: &'static str = "file(action='write') is no longer supported. Use write_file(path, content) to create or overwrite a file, or write_file(path) to create a new empty file.";

/// What is answered to an action that cannot be reached by name.
pub const NO_REVERT: &'static str = "Revert must be called through the run loop (needs snapshot manager).";

/// How to edit a part of a file, where plans are made.
pub const PARTIAL_SMART: &'static str = "call edit_file with {\"path\":\"<file>\",\"task\":\"<what to change and why>\"} and let the planner produce the patch";

/// How to edit a part of a file, where edits are direct.
pub const PARTIAL_FAST: &'static str = "use replace_range(path,start,end,content) or insert_at(path,after_line,content)";

/// What is answered to a replacement: how it is done instead.
pub open spec fn replace_refusal(mode: EditMode) -> Seq<char> {
    "file(action='replace') is no longer supported. For partial edits, "@ + (match mode {
        EditMode::Smart => PARTIAL_SMART@,
        EditMode::Fast => PARTIAL_FAST@,
    }) + ". For full-file overwrites use write_file(path, content)."@
}

/// What is answered to an unknown action of a group.
pub open spec fn unknown_action(group: Seq<char>, action: Seq<char>) -> ToolView {
    tool::err_view(
        "Unknown "@ + group + " action: '"@ + action
            + "'. Use 'help' to see available actions."@,
    )
}

fn refuse_action(group: &str, action: &str) -> (r: ToolResult)
    ensures
        r.deep_view() == unknown_action(group@, action@),
{
    ToolResult::err(
        "Unknown ".to_owned().concat(group).concat(" action: '").concat(action).concat(
            "'. Use 'help' to see available actions.",
        ),
    )
}

/// What an action on files needs.
pub open spec fn file_step_of(action: Seq<char>, mode: EditMode) -> FileStepView {
    if action == "help"@ {
        FileStepView::Answer(tool::ok_view(definitions::file_help_text(mode)))
    } else if action == "read"@ {
        FileStepView::Read
    } else if action == "write"@ {
        FileStepView::Answer(tool::err_view(NO_WRITE@))
    } else if action == "delete"@ {
        FileStepView::Delete
    } else if action == "replace"@ {
        FileStepView::Answer(tool::err_view(replace_refusal(mode)))
    } else if action == "search"@ {
        FileStepView::Search
    } else if action == "shell"@ {
        FileStepView::Shell
    } else if action == "revert"@ {
        FileStepView::Answer(tool::err_view(NO_REVERT@))
    } else {
        FileStepView::Answer(unknown_action("file"@, action))
    }
}

/// Finds out what an action on files needs.
pub fn file_step(action: &str, mode: EditMode) -> (r: FileStep)
    ensures
        r.deep_view() == file_step_of(action@, mode),
{
    if same_text(action, "help") {
        FileStep::Answer(ToolResult::ok(file_help(mode).to_owned()))
    } else if same_text(action, "read") {
        FileStep::Read
    } else if same_text(action, "write") {
        FileStep::Answer(ToolResult::err(NO_WRITE.to_owned()))
    } else if same_text(action, "delete") {
        FileStep::Delete
    } else if same_text(action, "replace") {
        let hint = match mode {
            EditMode::Smart => PARTIAL_SMART,
            EditMode::Fast => PARTIAL_FAST,
        };
        FileStep::Answer(
            ToolResult::err(
                "file(action='replace') is no longer supported. For partial edits, ".to_owned().concat(
                    hint,
                ).concat(". For full-file overwrites use write_file(path, content)."),
            ),
        )
    } else if same_text(action, "search") {
        FileStep::Search
    } else if same_text(action, "shell") {
        FileStep::Shell
    } else if same_text(action, "revert") {
        FileStep::Answer(ToolResult::err(NO_REVERT.to_owned()))
    } else {
        FileStep::Answer(refuse_action("file", action))
    }
}

/// What an action on code needs. Line and column are numbered from 0.
#[derive(Debug)]
pub enum CodeStep {
    GotoDefinition { path: String, line: u32, column: u32 },
    FindReferences { path: String, line: u32, column: u32 },
    Diagnostics,
    RepoMap { keywords: String },
    ProjectInfo,
    ArchitectureNotes,
    Answer(ToolResult),
}

/// What an action on code needs, over texts.
pub enum CodeStepView {
    GotoDefinition { path: Seq<char>, line: u32, column: u32 },
    FindReferences { path: Seq<char>, line: u32, column: u32 },
    Diagnostics,
    RepoMap { keywords: Seq<char> },
    ProjectInfo,
    ArchitectureNotes,
    Answer(ToolView),
}

impl DeepView for CodeStep {
    type V = CodeStepView;

    open spec fn deep_view(&self) -> CodeStepView {
        match *self {
            CodeStep::GotoDefinition { path, line, column } => CodeStepView::GotoDefinition {
                path: path@,
                line,
                column,
            },
            CodeStep::FindReferences { path, line, column } => CodeStepView::FindReferences {
                path: path@,
                line,
                column,
            },
            CodeStep::Diagnostics => CodeStepView::Diagnostics,
            CodeStep::RepoMap { keywords } => CodeStepView::RepoMap { keywords: keywords@ },
            CodeStep::ProjectInfo => CodeStepView::ProjectInfo,
            CodeStep::ArchitectureNotes => CodeStepView::ArchitectureNotes,
            CodeStep::Answer(t) => CodeStepView::Answer(t.deep_view()),
        }
    }
}

/// A number from 1 on as one from 0 on; 0 stays.
pub open spec fn zero_based(n: u64) -> u32 {
    if n == 0 {
        0
    } else {
        ((n - 1) as u64) as u32
    }
}

fn to_zero_based(n: u64) -> (r: u32)
    ensures
        r == zero_based(n),
{
    if n == 0 {
        0
    } else {
        (n - 1) as u32
    }
}

/// A place in the code: file, line and column, the last two numbered from 0.
#[derive(Debug)]
pub struct CodePlace {
    pub path: String,
    pub line: u32,
    pub column: u32,
}

/// A place over texts.
pub struct PlaceView {
    pub path: Seq<char>,
    pub line: u32,
    pub column: u32,
}

impl DeepView for CodePlace {
    type V = PlaceView;

    open spec fn deep_view(&self) -> PlaceView {
        PlaceView { path: self.path@, line: self.line, column: self.column }
    }
}

/// The place that three arguments name. All of them must be given.
pub open spec fn place_of(path: ArgView, line: ArgView, column: ArgView) -> Result<
    PlaceView,
    Seq<char>,
> {
    match args::required_text(path, "path"@) {
        Err(e) => Err(e),
        Ok(p) => match args::required_number(line, "line"@) {
            Err(e) => Err(e),
            Ok(l) => match args::required_number(column, "column"@) {
                Err(e) => Err(e),
                Ok(c) => Ok(PlaceView { path: p, line: zero_based(l), column: zero_based(c) }),
            },
        },
    }
}

fn read_place(path: ArgValue, line: ArgValue, column: ArgValue) -> (r: Result<CodePlace, String>)
    ensures
        text::result_view(r) == place_of(path.deep_view(), line.deep_view(), column.deep_view()),
{
    match text_required(path, "path") {
        Err(e) => Err(e),
        Ok(p) => match number_required(line, "line") {
            Err(e) => Err(e),
            Ok(l) => match number_required(column, "column") {
                Err(e) => Err(e),
                Ok(c) => Ok(
                    CodePlace { path: p, line: to_zero_based(l), column: to_zero_based(c) },
                ),
            },
        },
    }
}

/// What an action on code needs. An action on a place needs all of it.
pub open spec fn code_step_of(
    action: Seq<char>,
    path: ArgView,
    line: ArgView,
    column: ArgView,
    keywords: Seq<char>,
) -> CodeStepView {
    if action == "help"@ {
        CodeStepView::Answer(tool::ok_view(definitions::CODE_HELP@))
    } else if action == "goto_definition"@ {
        match place_of(path, line, column) {
            Err(e) => CodeStepView::Answer(tool::err_view(e)),
            Ok(p) => CodeStepView::GotoDefinition { path: p.path, line: p.line, column: p.column },
        }
    } else if action == "find_references"@ {
        match place_of(path, line, column) {
            Err(e) => CodeStepView::Answer(tool::err_view(e)),
            Ok(p) => CodeStepView::FindReferences { path: p.path, line: p.line, column: p.column },
        }
    } else if action == "diagnostics"@ {
        CodeStepView::Diagnostics
    } else if action == "repo_map"@ {
        CodeStepView::RepoMap { keywords }
    } else if action == "project_info"@ {
        CodeStepView::ProjectInfo
    } else if action == "architecture_notes"@ {
        CodeStepView::ArchitectureNotes
    } else {
        CodeStepView::Answer(unknown_action("code"@, action))
    }
}

/// Finds out what an action on code needs.
pub fn code_step(
    action: &str,
    path: ArgValue,
    line: ArgValue,
    column: ArgValue,
    keywords: String,
) -> (r: CodeStep)
    ensures
        r.deep_view() == code_step_of(
            action@,
            path.deep_view(),
            line.deep_view(),
            column.deep_view(),
            keywords@,
        ),
{
    if same_text(action, "help") {
        CodeStep::Answer(ToolResult::ok(code_help().to_owned()))
    } else if same_text(action, "goto_definition") {
        match read_place(path, line, column) {
            Err(e) => CodeStep::Answer(ToolResult::err(e)),
            Ok(p) => CodeStep::GotoDefinition { path: p.path, line: p.line, column: p.column },
        }
    } else if same_text(action, "find_references") {
        match read_place(path, line, column) {
            Err(e) => CodeStep::Answer(ToolResult::err(e)),
            Ok(p) => CodeStep::FindReferences { path: p.path, line: p.line, column: p.column },
        }
    } else if same_text(action, "diagnostics") {
        CodeStep::Diagnostics
    } else if same_text(action, "repo_map") {
        CodeStep::RepoMap { keywords }
    } else if same_text(action, "project_info") {
        CodeStep::ProjectInfo
    } else if same_text(action, "architecture_notes") {
        CodeStep::ArchitectureNotes
    } else {
        CodeStep::Answer(refuse_action("code", action))
    }
}

/// Reads an action on code from the arguments of a call.
pub fn read_code_step(args: &serde_json::Value) -> (r: CodeStep)
    ensures
        r.deep_view() == code_step_of(
            args::text_or(args::field(*args, "action"@), Seq::empty()),
            args::field(*args, "path"@),
            args::field(*args, "line"@),
            args::field(*args, "column"@),
            args::text_or(args::field(*args, "keywords"@), Seq::empty()),
        ),
{
    let none = String::new();
    let action = read_action(args);
    let keywords = get_str_or(args, "keywords", &none);
    code_step(
        &action,
        read_field(args, "path"),
        read_field(args, "line"),
        read_field(args, "column"),
        keywords,
    )
}

/// The command that shows the errors of a project where no language server does.
pub fn diagnostics_command(project_root: &str) -> (r: String)
    ensures
        r@ == "cd "@ + project_root@
            + " && cargo check --message-format=short 2>&1 | head -50"@,
{
    "cd ".to_owned().concat(project_root).concat(
        " && cargo check --message-format=short 2>&1 | head -50",
    )
}

/// What an action on the web needs.
#[derive(Debug)]
pub enum WebStep {
    Search { query: String },
    Fetch { url: String },
    Answer(ToolResult),
}

/// What an action on the web needs, over texts.
pub enum WebStepView {
    Search { query: Seq<char> },
    Fetch { url: Seq<char> },
    Answer(ToolView),
}

impl DeepView for WebStep {
    type V = WebStepView;

    open spec fn deep_view(&self) -> WebStepView {
        match *self {
            WebStep::Search { query } => WebStepView::Search { query: query@ },
            WebStep::Fetch { url } => WebStepView::Fetch { url: url@ },
            WebStep::Answer(t) => WebStepView::Answer(t.deep_view()),
        }
    }
}

/// What an action on the web needs.
pub open spec fn web_step_of(action: Seq<char>, query: Seq<char>, url: Seq<char>) -> WebStepView {
    if action == "help"@ {
        WebStepView::Answer(tool::ok_view(definitions::WEB_HELP@))
    } else if action == "search"@ {
        WebStepView::Search { query }
    } else if action == "fetch"@ {
        WebStepView::Fetch { url }
    } else {
        WebStepView::Answer(unknown_action("web"@, action))
    }
}

/// Finds out what an action on the web needs.
pub fn web_step(action: &str, query: String, url: String) -> (r: WebStep)
    ensures
        r.deep_view() == web_step_of(action@, query@, url@),
{
    if same_text(action, "help") {
        WebStep::Answer(ToolResult::ok(web_help().to_owned()))
    } else if same_text(action, "search") {
        WebStep::Search { query }
    } else if same_text(action, "fetch") {
        WebStep::Fetch { url }
    } else {
        WebStep::Answer(refuse_action("web", action))
    }
}

/// Reads an action on the web from the arguments of a call.
pub fn read_web_step(args: &serde_json::Value) -> (r: WebStep)
    ensures
        r.deep_view() == web_step_of(
            args::text_or(args::field(*args, "action"@), Seq::empty()),
            args::text_or(args::field(*args, "query"@), Seq::empty()),
            args::text_or(args::field(*args, "url"@), Seq::empty()),
        ),
{
    let none = String::new();
    let action = read_action(args);
    let query = get_str_or(args, "query", &none);
    let url = get_str_or(args, "url", &none);
    web_step(&action, query, url)
}

/// A place numbered from 1 is handed on numbered from 0, to the action that was asked
/// for: the file, the line and the column each where they belong.
pub proof fn places_are_handed_on(
    path: Seq<char>,
    line: u64,
    column: u64,
    line_text: Seq<char>,
    column_text: Seq<char>,
    keywords: Seq<char>,
)
    requires
        1 <= line <= u32::MAX,
        1 <= column <= u32::MAX,
    ensures
        code_step_of(
            "goto_definition"@,
            ArgView::Text(path),
            (ArgView::Number { text: line_text, unsigned: Some(line) }),
            (ArgView::Number { text: column_text, unsigned: Some(column) }),
            keywords,
        ) matches CodeStepView::GotoDefinition { path: p, line: l, column: c } && p == path && l + 1
            == line && c + 1 == column,
        code_step_of(
            "find_references"@,
            ArgView::Text(path),
            (ArgView::Number { text: line_text, unsigned: Some(line) }),
            (ArgView::Number { text: column_text, unsigned: Some(column) }),
            keywords,
        ) matches CodeStepView::FindReferences { path: p, line: l, column: c } && p == path && l + 1
            == line && c + 1 == column,
{
    reveal_strlit("help");
    reveal_strlit("goto_definition");
    reveal_strlit("find_references");
    assert("goto_definition"@.len() != "help"@.len());
    assert("find_references"@.len() != "help"@.len());
    assert("find_references"@[0] != "goto_definition"@[0]);
}

/// A code action on a place is refused exactly where the file is no text, or line or
/// column is no non-negative integer; a refusal is a failure.
pub proof fn places_must_be_given(
    path: ArgView,
    line: ArgView,
    column: ArgView,
    keywords: Seq<char>,
)
    ensures
        code_step_of("goto_definition"@, path, line, column, keywords) matches CodeStepView::Answer(
            t,
        ) ==> !t.success,
        code_step_of("find_references"@, path, line, column, keywords) matches CodeStepView::Answer(
            t,
        ) ==> !t.success,
        code_step_of("goto_definition"@, path, line, column, keywords) is GotoDefinition <==> (path
            is Text && (line matches ArgView::Number { unsigned, .. } && unsigned is Some) && (column
            matches ArgView::Number { unsigned, .. } && unsigned is Some)),
        code_step_of("find_references"@, path, line, column, keywords) is FindReferences <==> (path
            is Text && (line matches ArgView::Number { unsigned, .. } && unsigned is Some) && (column
            matches ArgView::Number { unsigned, .. } && unsigned is Some)),
{
    reveal_strlit("help");
    reveal_strlit("goto_definition");
    reveal_strlit("find_references");
    assert("goto_definition"@.len() != "help"@.len());
    assert("find_references"@.len() != "help"@.len());
    assert("find_references"@[0] != "goto_definition"@[0]);
}

/// Every other code action is a step of its own; help is a success, and an action that is
/// none of these fails and is named.
pub proof fn code_actions_are_told_apart(
    action: Seq<char>,
    path: ArgView,
    line: ArgView,
    column: ArgView,
    keywords: Seq<char>,
)
    ensures
        code_step_of("diagnostics"@, path, line, column, keywords) is Diagnostics,
        code_step_of("repo_map"@, path, line, column, keywords) matches CodeStepView::RepoMap {
            keywords: k,
        } && k == keywords,
        code_step_of("project_info"@, path, line, column, keywords) is ProjectInfo,
        code_step_of("architecture_notes"@, path, line, column, keywords) is ArchitectureNotes,
        code_step_of("help"@, path, line, column, keywords) matches CodeStepView::Answer(t)
            && t.success && t.content == definitions::CODE_HELP@,
        !(action == "help"@ || action == "goto_definition"@ || action == "find_references"@
            || action == "diagnostics"@ || action == "repo_map"@ || action == "project_info"@
            || action == "architecture_notes"@) ==> (code_step_of(
            action,
            path,
            line,
            column,
            keywords,
        ) matches CodeStepView::Answer(t) && !t.success && text::has_text(t.content, action)),
{
    reveal_strlit("help");
    reveal_strlit("goto_definition");
    reveal_strlit("find_references");
    reveal_strlit("diagnostics");
    reveal_strlit("repo_map");
    reveal_strlit("project_info");
    reveal_strlit("architecture_notes");
    assert("help"@.len() == 4 && "goto_definition"@.len() == 15 && "find_references"@.len() == 15
        && "diagnostics"@.len() == 11 && "repo_map"@.len() == 8 && "project_info"@.len() == 12
        && "architecture_notes"@.len() == 18);
    unknown_actions_are_named("code"@, action);
}

/// The answer to an unknown action fails, and names its group and the action.
pub proof fn unknown_actions_are_named(group: Seq<char>, action: Seq<char>)
    ensures
        !unknown_action(group, action).success,
        text::has_text(unknown_action(group, action).content, group + " action: '"@ + action + "'"@),
        text::has_text(unknown_action(group, action).content, action),
{
    reveal_strlit("'. Use 'help' to see available actions.");
    reveal_strlit("'");
    let end = "'. Use 'help' to see available actions."@;
    let p = group + " action: '"@ + action + "'"@;
    let s = "Unknown "@ + group + " action: '"@ + action + end;
    assert(end =~= "'"@ + end.skip(1));
    assert(s =~= "Unknown "@ + p + end.skip(1));
    text::found_in_either("Unknown "@, p, p);
    text::found_in_either("Unknown "@ + p, end.skip(1), p);
    text::found_in_either(group + " action: '"@, action, action);
    text::found_in_either(group + " action: '"@ + action, "'"@, action);
    text::found_through(s, p, action);
}

/// The actions on files that there are go each to a step of their own; all others are
/// answered, and only help with success.
pub proof fn file_actions_are_told_apart(action: Seq<char>, mode: EditMode)
    ensures
        file_step_of(action, mode) is Read <==> action == "read"@,
        file_step_of(action, mode) is Delete <==> action == "delete"@,
        file_step_of(action, mode) is Search <==> action == "search"@,
        file_step_of(action, mode) is Shell <==> action == "shell"@,
        file_step_of(action, mode) matches FileStepView::Answer(t) ==> (t.success <==> action
            == "help"@),
        action == "help"@ ==> (file_step_of(action, mode) matches FileStepView::Answer(t)
            && t.content == definitions::file_help_text(mode)),
        action == "write"@ || action == "replace"@ ==> (file_step_of(
            action,
            mode,
        ) matches FileStepView::Answer(t) && text::has_text(t.content, "write_file(path, content)"@)),
{
    reveal_strlit("help");
    reveal_strlit("read");
    reveal_strlit("write");
    reveal_strlit("delete");
    reveal_strlit("replace");
    reveal_strlit("search");
    reveal_strlit("shell");
    reveal_strlit("revert");
    assert("help"@[0] != "read"@[0]);
    assert("delete"@[0] != "search"@[0] && "delete"@[0] != "revert"@[0]);
    assert("search"@[0] != "revert"@[0]);
    assert("write"@[0] != "shell"@[0]);
    assert("help"@.len() == 4 && "read"@.len() == 4 && "write"@.len() == 5 && "delete"@.len() == 6
        && "replace"@.len() == 7 && "search"@.len() == 6 && "shell"@.len() == 5 && "revert"@.len()
        == 6);
    let w = "write_file(path, content)"@;
    assert(text::has_text(NO_WRITE@, w)) by {
        reveal_strlit("write_file(path, content)");
        reveal_strlit(
            "file(action='write') is no longer supported. Use write_file(path, content) to create or overwrite a file, or write_file(path) to create a new empty file.",
        );
        assert(NO_WRITE@.subrange(49, 74) =~= w);
        assert(text::occurs_at(NO_WRITE@, w, 49));
    }
    let tail = ". For full-file overwrites use write_file(path, content)."@;
    assert(text::has_text(tail, w)) by {
        reveal_strlit("write_file(path, content)");
        reveal_strlit(". For full-file overwrites use write_file(path, content).");
        assert(tail.subrange(31, 56) =~= w);
        assert(text::occurs_at(tail, w, 31));
    }
    let head = "file(action='replace') is no longer supported. For partial edits, "@;
    let hint = match mode {
        EditMode::Smart => PARTIAL_SMART@,
        EditMode::Fast => PARTIAL_FAST@,
    };
    text::found_in_either(head + hint, tail, w);
}

/// The actions on the web go each to a step of their own, with what was asked for; all
/// others are answered, and only help with success.
pub proof fn web_actions_are_told_apart(action: Seq<char>, query: Seq<char>, url: Seq<char>)
    ensures
        action == "search"@ <==> web_step_of(action, query, url) is Search,
        action == "fetch"@ <==> web_step_of(action, query, url) is Fetch,
        web_step_of(action, query, url) matches WebStepView::Search { query: q } ==> q == query,
        web_step_of(action, query, url) matches WebStepView::Fetch { url: u } ==> u == url,
        web_step_of(action, query, url) matches WebStepView::Answer(t) ==> (t.success <==> action
            == "help"@),
{
    reveal_strlit("help");
    reveal_strlit("search");
    reveal_strlit("fetch");
    assert("help"@.len() == 4 && "search"@.len() == 6 && "fetch"@.len() == 5);
}

proof fn lemma_tool_names()
    ensures
        "file"@ != "code"@,
        "file"@ != "web"@,
        "file"@ != "write_file"@,
        "file"@ != "plan"@,
        "code"@ != "web"@,
        "code"@ != "write_file"@,
        "code"@ != "plan"@,
        "web"@ != "write_file"@,
        "web"@ != "plan"@,
        "write_file"@ != "plan"@,
        "help"@ != "scratchpad"@,
{
    reveal_strlit("file");
    reveal_strlit("code");
    reveal_strlit("web");
    reveal_strlit("write_file");
    reveal_strlit("plan");
    reveal_strlit("help");
    reveal_strlit("scratchpad");
    assert("file"@[0] != "code"@[0] && "file"@[0] != "plan"@[0] && "code"@[0] != "plan"@[0]);
    assert("file"@.len() == 4 && "code"@.len() == 4 && "web"@.len() == 3 && "write_file"@.len()
        == 10 && "plan"@.len() == 4 && "help"@.len() == 4 && "scratchpad"@.len() == 10);
}

/// Each tool has a name of its own; a name that is none is refused and told.
pub proof fn tool_names_are_told_apart(name: Seq<char>, action: Seq<char>)
    ensures
        name == "file"@ <==> tool_step_of(name, action) matches Ok(ToolStepView::File),
        name == "code"@ <==> tool_step_of(name, action) matches Ok(ToolStepView::Code),
        name == "web"@ <==> tool_step_of(name, action) matches Ok(ToolStepView::Web),
        name == "write_file"@ <==> tool_step_of(name, action) matches Ok(ToolStepView::WriteFile),
        (name == "plan"@ && action == "scratchpad"@) <==> tool_step_of(name, action) matches Ok(
            ToolStepView::Scratchpad,
        ),
        !(name == "file"@ || name == "code"@ || name == "web"@ || name == "write_file"@ || name
            == "plan"@) ==> (tool_step_of(name, action) matches Err(e) && text::has_text(e, name)),
        tool_step_of(name, action) matches Ok(ToolStepView::Answer(t)) ==> t.success && name
            == "plan"@ && action == "help"@,
{
    lemma_tool_names();
    text::found_in_either("Unknown tool: "@, name, name);
}

} // verus!
