//! A UI-friendly document state container for streaming Markdown.
use vstd::prelude::*;
use crate::types::{AppliedUpdate, Block, BlockId, Update};

verus! {

/// Keeps only the stable, renderable state:
/// - committed blocks (append-only)
/// - an optional pending block (can change every tick)
///
/// It intentionally does not own the parser (`MdStream`) to stay render- and pipeline-agnostic.
#[derive(Debug, Default, Clone, PartialEq, Eq)]
pub struct DocumentState {
    committed: Vec<Block>,
    pending: Option<Block>,
}

impl DocumentState {
    pub closed spec fn committed_view(&self) -> Seq<Block> {
        self.committed@
    }

    pub closed spec fn pending_view(&self) -> Option<Block> {
        self.pending
    }

    pub fn new() -> (r: Self)
        ensures
            r.committed_view().len() == 0,
            r.pending_view() is None,
    {
        DocumentState { committed: Vec::new(), pending: None }
    }

    pub fn committed(&self) -> (r: &[Block])
        ensures
            r@ == self.committed_view(),
    {
        self.committed.as_slice()
    }

    pub fn pending(&self) -> (r: Option<&Block>)
        ensures
            match self.pending_view() {
                Some(p) => r matches Some(q) && *q == p,
                None => r is None,
            },
    {
        match &self.pending {
            Some(p) => Some(p),
            None => None,
        }
    }

    pub fn pending_mut(&mut self) -> (r: Option<&mut Block>)
        ensures
            match old(self).pending_view() {
                Some(p) => r matches Some(q) && *q == p && final(self).pending_view() == Some(
                    *final(q),
                ),
                None => r is None && final(self).pending_view() is None,
            },
            final(self).committed_view() == old(self).committed_view(),
    {
        match &mut self.pending {
            Some(p) => Some(p),
            None => None,
        }
    }

    /// Committed blocks followed by the pending block, if any.
    pub fn blocks(&self) -> (r: Vec<&Block>)
        ensures
            r@.len() == self.committed_view().len() + (if self.pending_view() is Some {
                1int
            } else {
                0
            }),
            forall|i: int|
                0 <= i < self.committed_view().len() ==> *r@[i] == self.committed_view()[i],
            self.pending_view() matches Some(p) ==> *r@[self.committed_view().len() as int] == p,
    {
        let mut out: Vec<&Block> = Vec::new();
        let mut i: usize = 0;
        while i < self.committed.len()
            invariant
                i <= self.committed@.len(),
                out@.len() == i,
                forall|j: int| 0 <= j < i ==> *out@[j] == self.committed@[j],
            decreases self.committed@.len() - i,
        {
            out.push(&self.committed[i]);
            i += 1;
        }
        if let Some(p) = &self.pending {
            out.push(p);
        }
        out
    }

    pub fn clear(&mut self)
        ensures
            final(self).committed_view().len() == 0,
            final(self).pending_view() is None,
    {
        self.committed.clear();
        self.pending = None;
    }

    /// Apply an update: on `reset` drop everything first; then append the committed blocks and
    /// replace the pending block.
    pub fn apply(&mut self, update: Update) -> (r: AppliedUpdate)
        ensures
            final(self).committed_view() == crate::types::applied_committed(old(self).committed_view(), update),
            final(self).pending_view() == update.pending,
            r.reset == update.reset,
            r.invalidated@ == update.invalidated@,
    {
        update.apply_to(&mut self.committed, &mut self.pending)
    }

    /// The first committed block with this id.
    pub fn find_committed(&self, id: BlockId) -> (r: Option<&Block>)
        ensures
            match r {
                Some(b) => exists|i: int|
                    0 <= i < self.committed_view().len() && self.committed_view()[i] == *b
                        && b.id == id && forall|j: int|
                        0 <= j < i ==> self.committed_view()[j].id != id,
                None => forall|i: int|
                    0 <= i < self.committed_view().len() ==> self.committed_view()[i].id != id,
            },
    {
        let mut i: usize = 0;
        while i < self.committed.len()
            invariant
                i <= self.committed@.len(),
                forall|j: int| 0 <= j < i ==> self.committed@[j].id != id,
            decreases self.committed@.len() - i,
        {
            if self.committed[i].id == id {
                return Some(&self.committed[i]);
            }
            i += 1;
        }
        None
    }

    /// The first committed block with this id, mutably.
    pub fn find_committed_mut(&mut self, id: BlockId) -> (r: Option<&mut Block>)
        ensures
            match r {
                Some(b) => exists|i: int|
                    0 <= i < old(self).committed_view().len() && old(self).committed_view()[i]
                        == *b && b.id == id && final(self).committed_view() == old(
                        self,
                    ).committed_view().update(i, *final(b)) && forall|j: int|
                        0 <= j < i ==> old(self).committed_view()[j].id != id,
                None => forall|i: int|
                    0 <= i < old(self).committed_view().len() ==> old(self).committed_view()[i].id
                        != id,
            },
            final(self).pending_view() == old(self).pending_view(),
    {
        let mut i: usize = 0;
        let n = self.committed.len();
        while i < n
            invariant
                n == self.committed@.len(),
                i <= n,
                self == old(self),
                forall|j: int| 0 <= j < i ==> self.committed@[j].id != id,
            decreases n - i,
        {
            if self.committed[i].id == id {
                return Some(&mut self.committed[i]);
            }
            i += 1;
        }
        None
    }
}

} // verus!
