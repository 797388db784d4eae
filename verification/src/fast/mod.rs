//! Direct edits by line number, and the history of revisions they leave.
pub mod ast;
pub mod auto_revert;
pub mod check;
pub mod dispatch;
pub mod feedback;
pub mod insert_at;
pub mod lines;
pub mod replace_range;
pub mod revert;
pub mod revisions;
pub mod rewind_candidate;
pub mod show_rev;
