//! What a tool answers.
use vstd::prelude::*;

verus! {

/// The answer of a tool: a text, and whether the tool did what was asked.
#[derive(Debug)]
pub struct ToolResult {
    pub content: String,
    pub success: bool,
}

/// An answer over texts.
pub struct ToolView {
    pub content: Seq<char>,
    pub success: bool,
}

impl DeepView for ToolResult {
    type V = ToolView;

    open spec fn deep_view(&self) -> ToolView {
        ToolView { content: self.content@, success: self.success }
    }
}

/// An answer of a tool that did what was asked.
pub open spec fn ok_view(content: Seq<char>) -> ToolView {
    ToolView { content, success: true }
}

/// An answer of a tool that did not do what was asked.
pub open spec fn err_view(content: Seq<char>) -> ToolView {
    ToolView { content, success: false }
}

impl ToolResult {
    /// The answer of a tool that did what was asked.
    pub fn ok(content: String) -> (r: ToolResult)
        ensures
            r.deep_view() == ok_view(content@),
    {
        ToolResult { content, success: true }
    }

    /// The answer of a tool that did not do what was asked.
    pub fn err(content: String) -> (r: ToolResult)
        ensures
            r.deep_view() == err_view(content@),
    {
        ToolResult { content, success: false }
    }
}

/// An answer holds the text that it was made with, and tells success from failure.
pub proof fn answers_hold_their_text(content: Seq<char>)
    ensures
        ok_view(content).content == content,
        err_view(content).content == content,
        ok_view(content).success,
        !err_view(content).success,
{
}

} // verus!
