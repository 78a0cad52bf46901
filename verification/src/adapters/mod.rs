//! Adapters from streamed blocks to Markdown parsers.
pub mod pulldown;
