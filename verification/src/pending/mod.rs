//! Pending-tail processing: termination of partial Markdown constructs.
pub mod balance;
pub mod terminator;
pub use terminator::{terminate_markdown, TerminatorOptions};
