//! Stream options.
use vstd::prelude::*;
use crate::pending::TerminatorOptions;

verus! {

#[derive(Debug, Clone, Copy, PartialEq, Eq, Structural)]
pub enum FootnotesMode {
    /// If footnotes are detected, treat the whole document as a single block.
    SingleBlock,
    /// Keep blocks but allow adapters to selectively re-parse via invalidation events.
    Invalidate,
}

#[derive(Debug, Clone, Copy, PartialEq, Eq, Structural)]
pub enum ReferenceDefinitionsMode {
    /// Keep blocks stable; reference definitions may be interpreted late by adapters.
    StabilityFirst,
    /// Emit invalidation events so adapters can selectively re-parse affected blocks.
    Invalidate,
}

#[derive(Debug, Clone)]
pub struct Options {
    pub footnotes: FootnotesMode,
    pub reference_definitions: ReferenceDefinitionsMode,
    pub terminator: TerminatorOptions,
    pub terminator_window_bytes: usize,
    /// Optional hard cap for the internal buffer: committed prefixes are dropped once exceeded.
    pub max_buffer_bytes: Option<usize>,
    /// Asks for the pending display of fenced JSON code blocks to be repaired. The stream itself
    /// leaves such a display as it is; the repair is installed as a pending transformer by the
    /// code that owns a JSON repair.
    pub json_repair_in_fences: bool,
}

impl Default for Options {
    fn default() -> (r: Self)
        ensures
            r.footnotes == FootnotesMode::SingleBlock,
            r.reference_definitions == ReferenceDefinitionsMode::StabilityFirst,
            r.terminator.setext_headings && r.terminator.links && r.terminator.images
                && r.terminator.emphasis && r.terminator.inline_code && r.terminator.strikethrough
                && r.terminator.katex_block,
            r.terminator.incomplete_link_url@ == "streamdown:incomplete-link"@,
            r.terminator.window_bytes == 16 * 1024,
            r.terminator_window_bytes == 16 * 1024,
            r.max_buffer_bytes is None,
            !r.json_repair_in_fences,
    {
        Options {
            footnotes: FootnotesMode::SingleBlock,
            reference_definitions: ReferenceDefinitionsMode::StabilityFirst,
            terminator: TerminatorOptions::default(),
            terminator_window_bytes: 16 * 1024,
            max_buffer_bytes: None,
            json_repair_in_fences: false,
        }
    }
}

impl Options {
    /// An identical copy.
    pub fn duplicate(&self) -> (r: Self)
        ensures
            r == *self,
    {
        Options {
            footnotes: self.footnotes,
            reference_definitions: self.reference_definitions,
            terminator: self.terminator.duplicate(),
            terminator_window_bytes: self.terminator_window_bytes,
            max_buffer_bytes: self.max_buffer_bytes,
            json_repair_in_fences: self.json_repair_in_fences,
        }
    }
}

} // verus!
