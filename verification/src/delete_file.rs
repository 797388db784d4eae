//! Deleting a file.
use vstd::prelude::*;

use crate::text;
use crate::tool;
use crate::tool::{ToolResult, ToolView};

verus! {

/// What stands at a path.
#[derive(Debug, Clone, Copy, PartialEq, Eq, Structural)]
pub enum PathKind {
    Nothing,
    Directory,
    File,
}

/// Why what stands at a path is not deleted; nothing where it is.
pub open spec fn refusal_of(path: Seq<char>, kind: PathKind) -> Option<ToolView> {
    match kind {
        PathKind::Nothing => Some(
            tool::err_view(
                "File not found: "@ + path
                    + ". Use file(action='read') to inspect files or file(action='search') to locate them."@,
            ),
        ),
        PathKind::Directory => Some(
            tool::err_view(
                path
                    + " is a directory. file(action='delete') only deletes regular files."@,
            ),
        ),
        PathKind::File => None,
    }
}

/// Says why what stands at a path is not deleted, if it is not.
pub fn delete_refusal(path_str: &str, kind: PathKind) -> (r: Option<ToolResult>)
    ensures
        r.deep_view() == refusal_of(path_str@, kind),
{
    match kind {
        PathKind::Nothing => Some(
            ToolResult::err(
                "File not found: ".to_owned().concat(path_str).concat(
                    ". Use file(action='read') to inspect files or file(action='search') to locate them.",
                ),
            ),
        ),
        PathKind::Directory => Some(
            ToolResult::err(
                path_str.to_owned().concat(
                    " is a directory. file(action='delete') only deletes regular files.",
                ),
            ),
        ),
        PathKind::File => None,
    }
}

/// Answers that a file was deleted.
pub fn report_deleted(path_str: &str) -> (r: ToolResult)
    ensures
        r.deep_view() == tool::ok_view("Deleted "@ + path_str@),
{
    ToolResult::ok("Deleted ".to_owned().concat(path_str))
}

/// Only a file is deleted: the call fails for anything else, and names the path.
pub proof fn only_files_are_deleted(path: Seq<char>, kind: PathKind)
    ensures
        refusal_of(path, kind) is None <==> kind == PathKind::File,
        refusal_of(path, kind) matches Some(t) ==> !t.success && text::has_text(t.content, path),
{
    let more =
        ". Use file(action='read') to inspect files or file(action='search') to locate them."@;
    text::found_in_either("File not found: "@, path, path);
    text::found_in_either("File not found: "@ + path, more, path);
    text::found_in_either(
        path,
        " is a directory. file(action='delete') only deletes regular files."@,
        path,
    );
}

} // verus!
