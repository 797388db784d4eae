//! The direct edit tools by name.
use vstd::prelude::*;

use crate::text;
use crate::text::same_text;

verus! {

/// A direct edit tool.
#[derive(Debug, Clone, Copy, PartialEq, Eq, Structural)]
pub enum FastTool {
    ReplaceRange,
    InsertAt,
    Revert,
    ShowRev,
    Check,
}

/// The tool of a name, or an error.
pub open spec fn tool_of(name: Seq<char>) -> Result<FastTool, Seq<char>> {
    if name == "replace_range"@ {
        Ok(FastTool::ReplaceRange)
    } else if name == "insert_at"@ {
        Ok(FastTool::InsertAt)
    } else if name == "revert"@ {
        Ok(FastTool::Revert)
    } else if name == "show_rev"@ {
        Ok(FastTool::ShowRev)
    } else if name == "check"@ {
        Ok(FastTool::Check)
    } else {
        Err("Unknown fast-mode tool: "@ + name)
    }
}

/// A tool, or an error, by its view.
pub open spec fn tool_view(r: Result<FastTool, String>) -> Result<FastTool, Seq<char>> {
    match r {
        Ok(t) => Ok(t),
        Err(e) => Err(e@),
    }
}

/// Finds the tool of a name.
pub fn fast_tool(name: &str) -> (r: Result<FastTool, String>)
    ensures
        tool_view(r) == tool_of(name@),
{
    if same_text(name, "replace_range") {
        Ok(FastTool::ReplaceRange)
    } else if same_text(name, "insert_at") {
        Ok(FastTool::InsertAt)
    } else if same_text(name, "revert") {
        Ok(FastTool::Revert)
    } else if same_text(name, "show_rev") {
        Ok(FastTool::ShowRev)
    } else if same_text(name, "check") {
        Ok(FastTool::Check)
    } else {
        Err("Unknown fast-mode tool: ".to_owned().concat(name))
    }
}

impl FastTool {
    /// Whether a call that went well changes the file that it names.
    pub fn changes_file(self) -> (r: bool)
        ensures
            r == (self == FastTool::ReplaceRange || self == FastTool::InsertAt || self
                == FastTool::Revert),
    {
        match self {
            FastTool::ReplaceRange => true,
            FastTool::InsertAt => true,
            FastTool::Revert => true,
            FastTool::ShowRev => false,
            FastTool::Check => false,
        }
    }
}

/// Each direct edit tool has a name of its own, and no other name is one of a tool.
pub proof fn tools_are_told_apart(name: Seq<char>)
    ensures
        tool_of("replace_range"@) == Ok::<FastTool, Seq<char>>(FastTool::ReplaceRange),
        tool_of("insert_at"@) == Ok::<FastTool, Seq<char>>(FastTool::InsertAt),
        tool_of("revert"@) == Ok::<FastTool, Seq<char>>(FastTool::Revert),
        tool_of("show_rev"@) == Ok::<FastTool, Seq<char>>(FastTool::ShowRev),
        tool_of("check"@) == Ok::<FastTool, Seq<char>>(FastTool::Check),
        tool_of(name) is Ok <==> (name == "replace_range"@ || name == "insert_at"@ || name
            == "revert"@ || name == "show_rev"@ || name == "check"@),
        tool_of(name) matches Err(e) ==> text::has_text(e, name),
{
    reveal_strlit("replace_range");
    reveal_strlit("insert_at");
    reveal_strlit("revert");
    reveal_strlit("show_rev");
    reveal_strlit("check");
    assert("replace_range"@.len() == 13 && "insert_at"@.len() == 9 && "revert"@.len() == 6
        && "show_rev"@.len() == 8 && "check"@.len() == 5);
    text::found_in_either("Unknown fast-mode tool: "@, name, name);
}

} // verus!
