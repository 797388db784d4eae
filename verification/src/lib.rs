//! Verified core of the file-editing tools: the textual formats they read and
//! write, the edits they apply to a file held in memory, and the history kept
//! of every change.
pub mod text;
pub mod number;
pub mod edit_file;
pub mod order;
pub mod bytes;
pub mod fast;
pub mod definitions;
pub mod tool;
pub mod unicode;
pub mod args;
pub mod refactor;
pub mod cargo_check;
pub mod code_intel;
pub mod delete_file;
pub mod describe_code;
pub mod dispatch;
pub mod edit;
pub mod edit_orchestration;
