//! Blocks and updates produced by the stream.
use vstd::prelude::*;
use vstd::utf8::*;
use crate::syntax::{
    fence_info, fence_open, first_line, first_word, lower_word, opt_view, parse_code_fence_header_from_block,
    CodeFenceHeader,
};

verus! {

#[derive(Debug, Clone, Copy, PartialEq, Eq, Structural, PartialOrd, Ord, Hash)]
pub struct BlockId(pub u64);

#[derive(Debug, Clone, Copy, PartialEq, Eq, Structural)]
pub enum BlockStatus {
    Committed,
    Pending,
}

#[derive(Debug, Clone, Copy, PartialEq, Eq, Structural)]
pub enum BlockKind {
    Paragraph,
    Heading,
    ThematicBreak,
    CodeFence,
    List,
    BlockQuote,
    Table,
    HtmlBlock,
    MathBlock,
    FootnoteDefinition,
    Unknown,
}

#[derive(Debug, Clone, PartialEq, Eq)]
pub struct Block {
    pub id: BlockId,
    pub status: BlockStatus,
    pub kind: BlockKind,
    pub raw: String,
    /// Optional display string for pending blocks (remend-like termination, JSON repair, etc.).
    pub display: Option<String>,
}

pub open spec fn opt_string_view(o: Option<String>) -> Option<Seq<char>> {
    match o {
        Some(s) => Some(s@),
        None => None,
    }
}

/// Copy an optional string.
pub fn copy_opt_string(o: &Option<String>) -> (r: Option<String>)
    ensures
        r == *o,
{
    match o {
        Some(s) => Some(s.clone()),
        None => None,
    }
}

impl Block {
    /// The display string if present, else the raw text.
    pub fn display_or_raw(&self) -> (r: &str)
        ensures
            r@ == match self.display {
                Some(d) => d@,
                None => self.raw@,
            },
    {
        match &self.display {
            Some(d) => d.as_str(),
            None => self.raw.as_str(),
        }
    }

    /// An identical copy of the block.
    /// The fence header of a code-fence block.
    pub fn code_fence_header(&self) -> (r: Option<CodeFenceHeader<'_>>)
        ensures
            self.kind != BlockKind::CodeFence ==> r is None,
            self.kind == BlockKind::CodeFence ==> match fence_open(
                first_line(encode_utf8(self.raw@)),
            ) {
                None => r is None,
                Some((c, n, k)) => r matches Some(h) && h.fence_char == c as char && h.fence_len
                    == n && h.info@ == fence_info(first_line(encode_utf8(self.raw@)), k, n)
                    && crate::reference::opt_str_view(h.language) == lower_word(first_word(h.info@)),
            },
    {
        if self.kind != BlockKind::CodeFence {
            return None;
        }
        parse_code_fence_header_from_block(self.raw.as_str())
    }

    /// The language of a code-fence block: the first word of its info string, lowercased if
    /// ASCII.
    pub fn code_fence_language(&self) -> (r: Option<String>)
        ensures
            self.kind != BlockKind::CodeFence ==> r is None,
            self.kind == BlockKind::CodeFence ==> match fence_open(
                first_line(encode_utf8(self.raw@)),
            ) {
                None => r is None,
                Some((c, n, k)) => crate::reference::opt_str_view(r) == lower_word(
                    first_word(fence_info(first_line(encode_utf8(self.raw@)), k, n)),
                ),
            },
    {
        match self.code_fence_header() {
            Some(h) => h.language,
            None => None,
        }
    }

    pub fn duplicate(&self) -> (r: Block)
        ensures
            r == *self,
    {
        Block {
            id: self.id,
            status: self.status,
            kind: self.kind,
            raw: self.raw.clone(),
            display: copy_opt_string(&self.display),
        }
    }
}

/// A borrowed view of the current pending block.
///
/// This is intended for high-frequency streaming UIs that want to avoid allocating/cloning
/// the pending tail on every tick.
#[derive(Debug, Clone, Copy, PartialEq, Eq)]
pub struct PendingBlockRef<'a> {
    pub id: BlockId,
    pub kind: BlockKind,
    pub raw: &'a str,
    /// Optional terminated/transformed display string for pending.
    pub display: Option<&'a str>,
}

impl<'a> PendingBlockRef<'a> {
    pub fn display_or_raw(&self) -> (r: &'a str)
        ensures
            r@ == match self.display {
                Some(d) => d@,
                None => self.raw@,
            },
    {
        match self.display {
            Some(d) => d,
            None => self.raw,
        }
    }
}

#[derive(Debug, Clone, PartialEq, Eq)]
pub struct Update {
    pub committed: Vec<Block>,
    pub pending: Option<Block>,
    /// If true, consumers must drop all previously rendered state and rebuild from this update.
    pub reset: bool,
    /// Optional list of committed block IDs that adapters may want to re-parse.
    pub invalidated: Vec<BlockId>,
}

#[derive(Debug, Clone, PartialEq, Eq)]
pub struct AppliedUpdate {
    pub reset: bool,
    pub invalidated: Vec<BlockId>,
}

/// A borrowed update view that avoids allocating the pending block.
#[derive(Debug, Clone, PartialEq, Eq)]
pub struct UpdateRef<'a> {
    pub committed: &'a [Block],
    pub pending: Option<PendingBlockRef<'a>>,
    pub reset: bool,
    pub invalidated: Vec<BlockId>,
}

/// Copy a sequence of blocks.
pub fn copy_blocks(bs: &[Block]) -> (r: Vec<Block>)
    ensures
        r@ == bs@,
{
    let mut out: Vec<Block> = Vec::with_capacity(bs.len());
    let mut i: usize = 0;
    while i < bs.len()
        invariant
            i <= bs@.len(),
            out@ == bs@.subrange(0, i as int),
        decreases bs@.len() - i,
    {
        out.push(bs[i].duplicate());
        i += 1;
    }
    assert(out@ =~= bs@);
    out
}

/// Copy a sequence of block ids.
pub fn copy_ids(ids: &Vec<BlockId>) -> (r: Vec<BlockId>)
    ensures
        r@ == ids@,
{
    let mut out: Vec<BlockId> = Vec::with_capacity(ids.len());
    let mut i: usize = 0;
    while i < ids.len()
        invariant
            i <= ids@.len(),
            out@ == ids@.subrange(0, i as int),
        decreases ids@.len() - i,
    {
        out.push(ids[i]);
        i += 1;
    }
    assert(out@ =~= ids@);
    out
}

impl<'a> UpdateRef<'a> {
    pub fn is_empty(&self) -> (r: bool)
        ensures
            r == (self.committed@.len() == 0 && self.pending is None && !self.reset
                && self.invalidated@.len() == 0),
    {
        self.committed.len() == 0 && self.pending.is_none() && !self.reset
            && self.invalidated.len() == 0
    }

    /// Convert to an owned [`Update`].
    pub fn to_owned(&self) -> (r: Update)
        ensures
            r.committed@ == self.committed@,
            r.reset == self.reset,
            r.invalidated@ == self.invalidated@,
            match self.pending {
                None => r.pending is None,
                Some(p) => r.pending matches Some(b) && b.id == p.id && b.status
                    == BlockStatus::Pending && b.kind == p.kind && b.raw@ == p.raw@
                    && opt_string_view(b.display) == match p.display {
                    Some(d) => Some(d@),
                    None => None::<Seq<char>>,
                },
            },
    {
        let pending = match &self.pending {
            Some(p) => Some(
                Block {
                    id: p.id,
                    status: BlockStatus::Pending,
                    kind: p.kind,
                    raw: p.raw.to_owned(),
                    display: match p.display {
                        Some(d) => Some(d.to_owned()),
                        None => None,
                    },
                },
            ),
            None => None,
        };
        Update {
            committed: copy_blocks(self.committed),
            pending,
            reset: self.reset,
            invalidated: copy_ids(&self.invalidated),
        }
    }
}

/// The committed blocks a consumer holds after applying an update: a reset drops what it held,
/// then the update's blocks are appended.
pub open spec fn applied_committed(held: Seq<Block>, u: Update) -> Seq<Block> {
    (if u.reset {
        Seq::<Block>::empty()
    } else {
        held
    }) + u.committed@
}

impl Update {
    pub fn empty() -> (r: Self)
        ensures
            r.committed@.len() == 0,
            r.pending is None,
            !r.reset,
            r.invalidated@.len() == 0,
    {
        Update { committed: Vec::new(), pending: None, reset: false, invalidated: Vec::new() }
    }

    pub fn is_empty(&self) -> (r: bool)
        ensures
            r == (self.committed@.len() == 0 && self.pending is None && !self.reset
                && self.invalidated@.len() == 0),
    {
        self.committed.len() == 0 && self.pending.is_none() && !self.reset
            && self.invalidated.len() == 0
    }

    /// The committed blocks followed by the pending block, if any.
    pub fn blocks(&self) -> (r: Vec<&Block>)
        ensures
            r@.len() == self.committed@.len() + (if self.pending is Some { 1int } else { 0 }),
            forall|i: int| 0 <= i < self.committed@.len() ==> *r@[i] == self.committed@[i],
            self.pending matches Some(p) ==> *r@[self.committed@.len() as int] == p,
    {
        let mut out: Vec<&Block> = Vec::new();
        let mut i: usize = 0;
        while i < self.committed.len()
            invariant
                i <= self.committed@.len(),
                out@.len() == i,
                forall|j: int| 0 <= j < i ==> *out@[j] == self.committed@[j],
            decreases self.committed@.len() - i,
        {
            out.push(&self.committed[i]);
            i += 1;
        }
        if let Some(p) = &self.pending {
            out.push(p);
        }
        out
    }

    /// Apply this update to a committed list and a pending slot.
    pub fn apply_to(self, committed: &mut Vec<Block>, pending: &mut Option<Block>) -> (r:
        AppliedUpdate)
        ensures
            final(committed)@ == applied_committed(old(committed)@, self),
            *final(pending) == self.pending,
            r.reset == self.reset,
            r.invalidated@ == self.invalidated@,
    {
        if self.reset {
            committed.clear();
            *pending = None;
        }
        let ghost before = committed@;
        let mut incoming = self.committed;
        committed.append(&mut incoming);
        *pending = self.pending;
        AppliedUpdate { reset: self.reset, invalidated: self.invalidated }
    }
}

} // verus!
