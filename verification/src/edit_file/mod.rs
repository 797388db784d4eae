//! Planned edits of one file: the plan and patch formats, and their application.
pub mod apply;
pub mod blocks;
pub mod inspect;
pub mod literal;
pub mod overlap;
pub mod parse;
pub mod preplan;
pub mod prompts;
pub mod relocate;
pub mod repair;
pub mod retry;
pub mod run;
pub mod validate;
pub mod windows;
pub mod written;
