//! Block analyzers: per-block metadata computed as blocks are emitted.
use vstd::prelude::*;
use vstd::utf8::*;
use vstd::string::StringSliceAdditionalSpecFns;
use std::collections::HashMap;
use crate::options::Options;
use crate::stream::MdStream;
use crate::syntax::{
    closing_fence, fence_info, fence_open, first_line, first_word, is_code_fence_closing_line,
    lower_word, opt_view, parse_code_fence_header_from_block,
};
use crate::text::{
    as_str, ascii_lower, bytes_blank, bytes_eq, bytes_trim, bytes_trim_start, find_byte,
    find_byte_exec, is_ascii_alpha, is_blank, lemma_encode_valid, lemma_find_byte,
    lemma_valid_slice, matches_at, rfind_before, slice, starts_with, string_of, to_ascii_lower,
    to_vec, trim, trim_start,
};
use crate::types::{Block, BlockId, BlockKind, BlockStatus, Update};

verus! {

broadcast use vstd::std_specs::hash::group_hash_axioms, vstd::string::group_string_axioms;

pub trait BlockAnalyzer {
    type Meta;

    fn analyze_block(&mut self, block: &Block) -> (r: Option<Self::Meta>)
        ensures
            old(self).may_analyze(*block, r, final(self)),
    ;

    /// `r` is what this analyzer may report for `block`, leaving itself as `after` (nothing is
    /// said of an analyzer that does not define it).
    open spec fn may_analyze(&self, block: Block, r: Option<Self::Meta>, after: &Self) -> bool {
        true
    }

    fn reset(&mut self) {
    }
}

impl BlockAnalyzer for () {
    type Meta = ();

    fn analyze_block(&mut self, _block: &Block) -> (r: Option<Self::Meta>)
        ensures
            r is None,
    {
        None
    }

    open spec fn may_analyze(&self, block: Block, r: Option<Self::Meta>, after: &Self) -> bool {
        r is None && *after == *self
    }
}

/// What a pair of analyzers reports from its two reports: nothing when neither reports
/// anything, else both reports.
pub open spec fn pair_report<X, Y>(ra: Option<X>, rb: Option<Y>, r: Option<(Option<X>, Option<Y>)>) -> bool {
    if ra is None && rb is None {
        r is None
    } else {
        r == Some((ra, rb))
    }
}

impl<A, B> BlockAnalyzer for (A, B) where A: BlockAnalyzer, B: BlockAnalyzer {
    type Meta = (Option<A::Meta>, Option<B::Meta>);

    fn analyze_block(&mut self, block: &Block) -> (r: Option<Self::Meta>)
        ensures
            r matches Some(m) ==> m.0 is Some || m.1 is Some,
    {
        let ghost s0 = *self;
        let a = self.0.analyze_block(block);
        let b = self.1.analyze_block(block);
        let ghost ga = a;
        let ghost gb = b;
        let r = if a.is_none() && b.is_none() {
            None
        } else {
            Some((a, b))
        };
        proof {
            assert(pair_report(ga, gb, r));
            assert(s0.0.may_analyze(*block, ga, &self.0));
            assert(s0.1.may_analyze(*block, gb, &self.1));
            assert(s0.may_analyze(*block, r, self));
        }
        r
    }

    open spec fn may_analyze(&self, block: Block, r: Option<Self::Meta>, after: &Self) -> bool {
        exists|ra: Option<A::Meta>, rb: Option<B::Meta>|
            #![trigger self.0.may_analyze(block, ra, &after.0), self.1.may_analyze(block, rb, &after.1)]
            self.0.may_analyze(block, ra, &after.0) && self.1.may_analyze(block, rb, &after.1) && pair_report(ra, rb, r)
    }

    fn reset(&mut self) {
        self.0.reset();
        self.1.reset();
    }
}

#[derive(Debug, Clone, PartialEq, Eq)]
pub struct BlockMeta<M> {
    pub id: BlockId,
    pub meta: M,
}

#[derive(Debug, Clone, PartialEq, Eq)]
pub struct AnalyzedUpdate<M> {
    pub update: Update,
    pub committed_meta: Vec<BlockMeta<M>>,
    pub pending_meta: Option<BlockMeta<M>>,
}

/// A block id occurs among the blocks.
pub open spec fn id_in(id: BlockId, bs: Seq<Block>) -> bool {
    exists|j: int| 0 <= j < bs.len() && bs[j].id == id
}

/// Every metadata entry belongs to one of the blocks.
pub open spec fn metas_of<M>(ms: Seq<BlockMeta<M>>, bs: Seq<Block>) -> bool {
    forall|i: int| 0 <= i < ms.len() ==> #[trigger] id_in(ms[i].id, bs)
}

/// The metadata entries made from the first `n` reports: one per block the analyzer reported
/// something for, in order.
pub open spec fn metas_from<M>(bs: Seq<Block>, outs: Seq<Option<M>>, n: int) -> Seq<BlockMeta<M>>
    decreases n,
{
    if n <= 0 {
        Seq::empty()
    } else {
        match outs[n - 1] {
            Some(m) => metas_from(bs, outs, n - 1).push(BlockMeta { id: bs[n - 1].id, meta: m }),
            None => metas_from(bs, outs, n - 1),
        }
    }
}

/// The analyzer went through `states` reporting `outs` for the blocks in turn.
pub open spec fn analyzer_run<A: BlockAnalyzer>(states: Seq<A>, bs: Seq<Block>, outs: Seq<Option<A::Meta>>) -> bool {
    &&& states.len() == bs.len() + 1
    &&& outs.len() == bs.len()
    &&& forall|i: int| 0 <= i < bs.len() ==> #[trigger] states[i].may_analyze(bs[i], outs[i], &states[i + 1])
}

/// What an analyzed update reports: the analyzer (as it was, or as its reset left it after a
/// reset) analyzed each committed block in turn and then the pending block; the committed
/// metadata are its reports, in order, for the blocks it reported on, and the pending metadata
/// its report on the pending block.
pub open spec fn analyzed<A: BlockAnalyzer>(
    before: A,
    update: Update,
    after: A,
    committed_meta: Seq<BlockMeta<A::Meta>>,
    pending_meta: Option<BlockMeta<A::Meta>>,
) -> bool {
    exists|states: Seq<A>, outs: Seq<Option<A::Meta>>|
        #![trigger analyzer_run(states, update.committed@, outs)]
        analyzer_run(states, update.committed@, outs) && (!update.reset ==> states[0] == before)
            && committed_meta == metas_from(update.committed@, outs, outs.len() as int) && match update.pending {
            Some(p) => exists|po: Option<A::Meta>|
                #![trigger states.last().may_analyze(p, po, &after)]
                states.last().may_analyze(p, po, &after) && pending_meta == (match po {
                    Some(m) => Some(BlockMeta { id: p.id, meta: m }),
                    None => None,
                }),
            None => pending_meta is None && after == states.last(),
        }
}

/// The metadata map an update starts from: the old one, or none after a reset.
pub open spec fn meta_base<M>(m: Map<u64, M>, reset: bool) -> Map<u64, M> {
    if reset {
        Map::empty()
    } else {
        m
    }
}

/// The block ids of a list of metadata entries.
pub open spec fn meta_ids<M>(ms: Seq<BlockMeta<M>>) -> Set<u64> {
    Set::new(|id: u64| exists|i: int| 0 <= i < ms.len() && ms[i].id.0 == id)
}

/// A stream whose emitted blocks are run through an analyzer.
pub struct AnalyzedStream<A> where A: BlockAnalyzer {
    inner: MdStream,
    analyzer: A,
    committed_meta: HashMap<u64, A::Meta>,
}

impl<A> AnalyzedStream<A> where A: BlockAnalyzer, A::Meta: Clone {
    pub closed spec fn wf(&self) -> bool {
        self.inner.wf()
    }

    pub closed spec fn inner_view(&self) -> MdStream {
        self.inner
    }

    /// The metadata of committed blocks, by id.
    pub closed spec fn meta_view(&self) -> Map<u64, A::Meta> {
        self.committed_meta@
    }

    pub fn new(opts: Options, analyzer: A) -> (r: Self)
        ensures
            r.wf(),
            r.meta_view() == Map::<u64, A::Meta>::empty(),
            r.inner_view().committed_view().len() == 0,
            r.inner_view().fresh(),
            r.inner_view().plugin_count() == 0,
            r.inner_view().transformer_count() == 0,
            r.inner_view().options() == (Options {
                terminator: crate::pending::TerminatorOptions {
                    window_bytes: opts.terminator_window_bytes,
                    ..opts.terminator
                },
                ..opts
            }),
            r.analyzer_view() == analyzer,
    {
        AnalyzedStream { inner: MdStream::new(opts), analyzer, committed_meta: HashMap::new() }
    }

    pub fn inner(&self) -> (r: &MdStream)
        ensures
            *r == self.inner_view(),
    {
        &self.inner
    }

    pub fn inner_mut(&mut self) -> (r: &mut MdStream)
        ensures
            *r == old(self).inner_view(),
            final(self).inner_view() == *final(r),
    {
        &mut self.inner
    }

    pub closed spec fn analyzer_view(&self) -> A {
        self.analyzer
    }

    pub fn analyzer(&self) -> (r: &A)
        ensures
            *r == self.analyzer_view(),
    {
        &self.analyzer
    }

    pub fn analyzer_mut(&mut self) -> (r: &mut A)
        ensures
            *r == old(self).analyzer_view(),
            final(self).analyzer_view() == *final(r),
            final(self).meta_view() == old(self).meta_view(),
            final(self).wf() == old(self).wf(),
    {
        &mut self.analyzer
    }

    /// The metadata recorded for a committed block.
    pub fn meta_for(&self, id: BlockId) -> (r: Option<&A::Meta>)
        ensures
            match r {
                Some(m) => self.meta_view().contains_key(id.0) && *m == self.meta_view()[id.0],
                None => !self.meta_view().contains_key(id.0),
            },
    {
        self.committed_meta.get(&id.0)
    }

    pub fn append(&mut self, chunk: &str) -> (r: AnalyzedUpdate<A::Meta>)
        requires
            old(self).wf(),
        ensures
            final(self).wf(),
            crate::stream::committed_step(
                old(self).inner_view().committed_view(),
                final(self).inner_view().committed_view(),
                r.update.reset,
                r.update.committed@,
            ),
            forall|i: int|
                0 <= i < r.update.committed@.len() ==> crate::stream::split::committed_ok(
                    #[trigger] r.update.committed@[i],
                ),
            final(self).inner_view().pending_ok(r.update.pending),
            (chunk@.len() > 0 || old(self).inner_view().pending_cr_view()) && old(self).inner_view().plugin_count() == 0
                && !(old(self).inner_view().cursor().mode is CustomBoundary) ==> crate::stream::split::blocks_v(r.update.committed@)
                == crate::stream::append_commits(
                old(self).inner_view().buffer_view() + crate::stream::lines::spec_normalize(
                    old(self).inner_view().pending_cr_view(),
                    chunk.spec_bytes(),
                ).0,
                old(self).inner_view().cursor(),
                old(self).inner_view().processed_view(),
                final(self).inner_view().single_block_mode(),
            ),
            metas_of(r.committed_meta@, r.update.committed@),
            r.pending_meta matches Some(m) ==> r.update.pending matches Some(p) && m.id == p.id,
            crate::stream::is_suffix(
                final(self).inner_view().buffer_view(),
                old(self).inner_view().buffer_view() + crate::stream::lines::spec_normalize(
                    old(self).inner_view().pending_cr_view(),
                    chunk.spec_bytes(),
                ).0,
            ),
            final(self).inner_view().pending_cr_view() == crate::stream::lines::spec_normalize(
                old(self).inner_view().pending_cr_view(),
                chunk.spec_bytes(),
            ).1,
            final(self).inner_view().options() == old(self).inner_view().options(),
            final(self).inner_view().usage_view() == crate::stream::split::usage_after(
                old(self).inner_view().usage_view(),
                r.update.committed@,
            ),
            crate::stream::split::id_set(r.update.invalidated@) == crate::stream::split::invalidated_after(
                old(self).inner_view().usage_view(),
                r.update.committed@,
                crate::stream::split::invalidation_on(old(self).inner_view().options()),
            ),
            chunk@.len() == 0 && !old(self).inner_view().pending_cr_view() ==> !r.update.reset
                && r.update.committed@.len() == 0
                && final(self).inner_view().buffer_view() == old(self).inner_view().buffer_view(),
            (chunk@.len() > 0 || old(self).inner_view().pending_cr_view()) ==> ({
                let norm = crate::stream::lines::spec_normalize(
                    old(self).inner_view().pending_cr_view(),
                    chunk.spec_bytes(),
                ).0;
                &&& r.update.reset == (crate::stream::footnote_found(old(self).inner_view(), norm)
                    && old(self).inner_view().options().footnotes == crate::options::FootnotesMode::SingleBlock
                    && old(self).inner_view().committed_view().len() > 0)
                &&& final(self).inner_view().footnotes_seen() == (old(self).inner_view().footnotes_seen()
                    || crate::stream::footnote_found(old(self).inner_view(), norm))
            }),
            analyzed(old(self).analyzer_view(), r.update, final(self).analyzer_view(), r.committed_meta@, r.pending_meta),
            final(self).meta_view().dom() == meta_base(old(self).meta_view(), r.update.reset).dom().union(
                meta_ids(r.committed_meta@),
            ),
    {
        let update = self.inner.append(chunk);
        self.analyze_update(update)
    }

    pub fn finalize(&mut self) -> (r: AnalyzedUpdate<A::Meta>)
        requires
            old(self).wf(),
        ensures
            final(self).wf(),
            crate::stream::finalize_post(old(self).inner_view(), final(self).inner_view(), r.update),
            final(self).inner_view().usage_view() == crate::stream::split::usage_after(
                old(self).inner_view().usage_view(),
                r.update.committed@,
            ),
            crate::stream::split::id_set(r.update.invalidated@) == crate::stream::split::invalidated_after(
                old(self).inner_view().usage_view(),
                r.update.committed@,
                crate::stream::split::invalidation_on(old(self).inner_view().options()),
            ),
            metas_of(r.committed_meta@, r.update.committed@),
            analyzed(old(self).analyzer_view(), r.update, final(self).analyzer_view(), r.committed_meta@, r.pending_meta),
            final(self).meta_view().dom() == meta_base(old(self).meta_view(), r.update.reset).dom().union(
                meta_ids(r.committed_meta@),
            ),
    {
        let update = self.inner.finalize();
        self.analyze_update(update)
    }

    pub fn reset(&mut self)
        requires
            old(self).wf(),
        ensures
            final(self).wf(),
            final(self).meta_view() == Map::<u64, A::Meta>::empty(),
            final(self).inner_view().fresh(),
            final(self).inner_view().options() == old(self).inner_view().options(),
            final(self).inner_view().plugin_count() == old(self).inner_view().plugin_count(),
            final(self).inner_view().transformer_count() == old(self).inner_view().transformer_count(),
    {
        self.inner.reset();
        self.analyzer.reset();
        self.committed_meta.clear();
    }

    fn analyze_update(&mut self, update: Update) -> (r: AnalyzedUpdate<A::Meta>)
        requires
            old(self).wf(),
        ensures
            final(self).wf(),
            final(self).inner_view() == old(self).inner_view(),
            r.update == update,
            metas_of(r.committed_meta@, update.committed@),
            r.pending_meta matches Some(m) ==> update.pending matches Some(p) && m.id == p.id,
            analyzed(old(self).analyzer_view(), update, final(self).analyzer_view(), r.committed_meta@, r.pending_meta),
            final(self).meta_view().dom() == meta_base(old(self).meta_view(), update.reset).dom().union(
                meta_ids(r.committed_meta@),
            ),
    {
        if update.reset {
            self.analyzer.reset();
            self.committed_meta.clear();
        }
        proof {
            assert(meta_ids(Seq::<BlockMeta<A::Meta>>::empty()) =~= Set::<u64>::empty());
            if update.reset {
                assert(self.committed_meta@ =~= Map::<u64, A::Meta>::empty());
            }
            assert(self.committed_meta@.dom() =~= meta_base(old(self).committed_meta@, update.reset).dom().union(
                Set::<u64>::empty(),
            ));
        }
        let ghost a0 = self.analyzer;
        let ghost mut states: Seq<A> = seq![self.analyzer];
        let ghost mut outs: Seq<Option<A::Meta>> = Seq::empty();
        let mut committed_meta: Vec<BlockMeta<A::Meta>> = Vec::new();
        let mut k: usize = 0;
        while k < update.committed.len()
            invariant
                k <= update.committed@.len(),
                self.wf(),
                self.inner == old(self).inner,
                metas_of(committed_meta@, update.committed@),
                states.len() == k + 1,
                outs.len() == k,
                states[0] == a0,
                !update.reset ==> a0 == old(self).analyzer,
                states[k as int] == self.analyzer,
                forall|i: int| 0 <= i < k ==> #[trigger] states[i].may_analyze(update.committed@[i], outs[i], &states[i + 1]),
                committed_meta@ == metas_from(update.committed@, outs, k as int),
                self.committed_meta@.dom() == meta_base(old(self).committed_meta@, update.reset).dom().union(
                    meta_ids(committed_meta@),
                ),
            decreases update.committed@.len() - k,
        {
            let block = &update.committed[k];
            let ghost before = self.analyzer;
            let res = self.analyzer.analyze_block(block);
            proof {
                assert(before.may_analyze(update.committed@[k as int], res, &self.analyzer));
                let s1 = states.push(self.analyzer);
                let o1 = outs.push(res);
                assert forall|i: int| 0 <= i < k + 1 implies #[trigger] s1[i].may_analyze(update.committed@[i], o1[i], &s1[i + 1]) by {
                    if i < k {
                        assert(s1[i] == states[i] && s1[i + 1] == states[i + 1] && o1[i] == outs[i]);
                    }
                }
                assert(metas_from(update.committed@, o1, k as int) == metas_from(update.committed@, outs, k as int)) by {
                    lemma_metas_from_push(update.committed@, outs, res, k as int);
                }
                states = s1;
                outs = o1;
            }
            if let Some(meta) = res {
                let ghost v0 = self.committed_meta@;
                self.committed_meta.insert(block.id.0, meta.clone());
                let ghost pre = committed_meta@;
                committed_meta.push(BlockMeta { id: block.id, meta });
                proof {
                    assert(self.committed_meta@.dom() =~= v0.dom().insert(block.id.0));
                    assert(meta_ids(committed_meta@) =~= meta_ids(pre).insert(block.id.0)) by {
                        assert forall|id: u64| meta_ids(committed_meta@).contains(id) implies meta_ids(pre).insert(block.id.0).contains(id) by {
                            let i = choose|i: int| 0 <= i < committed_meta@.len() && committed_meta@[i].id.0 == id;
                            if i < pre.len() {
                                assert(committed_meta@[i] == pre[i]);
                            }
                        }
                        assert forall|id: u64| meta_ids(pre).insert(block.id.0).contains(id) implies meta_ids(committed_meta@).contains(id) by {
                            if id == block.id.0 {
                                assert(committed_meta@[pre.len() as int].id.0 == id);
                            } else {
                                let i = choose|i: int| 0 <= i < pre.len() && pre[i].id.0 == id;
                                assert(committed_meta@[i] == pre[i]);
                            }
                        }
                    }
                }
                assert(id_in(block.id, update.committed@)) by {
                    assert(update.committed@[k as int].id == block.id);
                }
                assert forall|i: int| 0 <= i < committed_meta@.len() implies #[trigger] id_in(
                    committed_meta@[i].id,
                    update.committed@,
                ) by {
                    if i < pre.len() {
                        assert(committed_meta@[i] == pre[i]);
                    }
                }
            }
            k += 1;
        }
        let ghost last = self.analyzer;
        let pending_meta = match &update.pending {
            Some(p) => {
                let res = self.analyzer.analyze_block(p);
                proof {
                    assert(last.may_analyze(*p, res, &self.analyzer));
                }
                match res {
                    Some(meta) => Some(BlockMeta { id: p.id, meta }),
                    None => None,
                }
            },
            None => None,
        };
        proof {
            assert(analyzer_run(states, update.committed@, outs));
            assert(states.last() == last);
        }
        AnalyzedUpdate { update, committed_meta, pending_meta }
    }
}

proof fn lemma_metas_from_push<M>(bs: Seq<Block>, outs: Seq<Option<M>>, x: Option<M>, n: int)
    requires
        0 <= n <= outs.len(),
    ensures
        metas_from(bs, outs.push(x), n) == metas_from(bs, outs, n),
    decreases n,
{
    if n > 0 {
        lemma_metas_from_push(bs, outs, x, n - 1);
        assert(outs.push(x)[n - 1] == outs[n - 1]);
    }
}

// ---------------------------------------------------------------------------------------------
// Code fences.
// ---------------------------------------------------------------------------------------------

#[derive(Debug, Clone, Copy, PartialEq, Eq, Structural)]
pub enum CodeFenceClass {
    Mermaid,
    Json,
    Other,
}

#[derive(Debug, Clone, PartialEq, Eq)]
pub struct CodeFenceMeta {
    pub info: String,
    pub language: Option<String>,
    pub class: CodeFenceClass,
}

#[derive(Debug, Default, Clone)]
pub struct CodeFenceAnalyzer;

/// The class of a fence language (compared ASCII-case-insensitively).
pub open spec fn spec_fence_class(lang: Option<Seq<char>>) -> CodeFenceClass {
    match lang {
        None => CodeFenceClass::Other,
        Some(l) => {
            let b = ascii_lower(encode_utf8(l));
            if b == seq![109u8, 101u8, 114u8, 109u8, 97u8, 105u8, 100u8] {
                CodeFenceClass::Mermaid
            } else if crate::stream::display::json_language(b) && b == crate::stream::display::first_word_bytes(b) {
                CodeFenceClass::Json
            } else {
                CodeFenceClass::Other
            }
        },
    }
}

proof fn lemma_lower_encode_ascii(l: Seq<char>)
    requires
        forall|i: int| 0 <= i < l.len() ==> (crate::text::ascii_lower_char(#[trigger] l[i]) as u32) < 128,
    ensures
        ascii_lower(encode_utf8(l)) == crate::text::ascii_lower_chars(l).map_values(|c: char| c as u8),
    decreases l.len(),
{
    if l.len() > 0 {
        let c = l[0];
        let v = c as u32;
        assert((crate::text::ascii_lower_char(l[0]) as u32) < 128);
        assert(v < 128);
        assert((v & 0x7Fu32) == v) by (bit_vector)
            requires
                v < 128u32,
        ;
        assert(encode_scalar(v) == seq![v as u8]);
        let rest = l.drop_first();
        assert forall|i: int| 0 <= i < rest.len() implies (crate::text::ascii_lower_char(#[trigger] rest[i]) as u32) < 128 by {
            assert(rest[i] == l[i + 1]);
        }
        lemma_lower_encode_ascii(rest);
        assert(encode_utf8(l) == encode_scalar(v) + encode_utf8(rest));
        assert(ascii_lower(encode_utf8(l)) =~= seq![crate::text::lower_byte(v as u8)] + ascii_lower(
            encode_utf8(rest),
        ));
        assert(crate::text::ascii_lower_chars(l).map_values(|c: char| c as u8) =~= seq![
            crate::text::ascii_lower_char(c) as u8,
        ] + crate::text::ascii_lower_chars(rest).map_values(|c: char| c as u8));
    } else {
        assert(ascii_lower(encode_utf8(l)) =~= Seq::<u8>::empty());
        assert(crate::text::ascii_lower_chars(l).map_values(|c: char| c as u8) =~= Seq::<u8>::empty());
    }
}

/// The JSON dialects: `json`, `jsonc`, `json5`, `jsonl` and `jsonp`.
pub open spec fn json_dialect(w: Seq<char>) -> bool {
    ||| w == seq!['j', 's', 'o', 'n']
    ||| w == seq!['j', 's', 'o', 'n', 'c']
    ||| w == seq!['j', 's', 'o', 'n', '5']
    ||| w == seq!['j', 's', 'o', 'n', 'l']
    ||| w == seq!['j', 's', 'o', 'n', 'p']
}

/// A fence language that reads, ignoring ASCII case, as one of the JSON dialects is classed
/// JSON; one that reads as `mermaid` is classed Mermaid.
pub proof fn law_fence_class_of_known_languages(l: Seq<char>)
    ensures
        json_dialect(crate::text::ascii_lower_chars(l)) ==> spec_fence_class(Some(l)) == CodeFenceClass::Json,
        crate::text::ascii_lower_chars(l) == seq!['m', 'e', 'r', 'm', 'a', 'i', 'd'] ==> spec_fence_class(Some(l))
            == CodeFenceClass::Mermaid,
{
    let w = crate::text::ascii_lower_chars(l);
    if json_dialect(w) || w == seq!['m', 'e', 'r', 'm', 'a', 'i', 'd'] {
        assert(w.len() == l.len());
        assert(w.len() <= 7);
        assert forall|i: int| 0 <= i < l.len() implies (crate::text::ascii_lower_char(#[trigger] l[i]) as u32) < 128 by {
            assert(w[i] == crate::text::ascii_lower_char(l[i]));
            assert(i < 7);
            if i == 0 {
            } else if i == 1 {
            } else if i == 2 {
            } else if i == 3 {
            } else if i == 4 {
            } else if i == 5 {
            } else {
                assert(i == 6);
            }
        }
        lemma_lower_encode_ascii(l);
        let b = ascii_lower(encode_utf8(l));
        assert(b == w.map_values(|c: char| c as u8));
        reveal_with_fuel(crate::stream::display::word_end, 8);
        if w == seq!['j', 's', 'o', 'n'] {
            assert(b =~= seq![106u8, 115u8, 111u8, 110u8]);
        } else if w == seq!['j', 's', 'o', 'n', 'c'] {
            assert(b =~= seq![106u8, 115u8, 111u8, 110u8, 99u8]);
        } else if w == seq!['j', 's', 'o', 'n', '5'] {
            assert(b =~= seq![106u8, 115u8, 111u8, 110u8, 53u8]);
        } else if w == seq!['j', 's', 'o', 'n', 'l'] {
            assert(b =~= seq![106u8, 115u8, 111u8, 110u8, 108u8]);
        } else if w == seq!['j', 's', 'o', 'n', 'p'] {
            assert(b =~= seq![106u8, 115u8, 111u8, 110u8, 112u8]);
        } else {
            assert(b =~= seq![109u8, 101u8, 114u8, 109u8, 97u8, 105u8, 100u8]);
        }
        assert(crate::stream::display::first_word_bytes(b) =~= b);
        assert(ascii_lower(b) =~= b);
    }
}

/// What the code-fence analyzer reports is classed by its (lowercased) language: a JSON
/// dialect is classed JSON, `mermaid` Mermaid, and a fence with no language Other.
pub proof fn law_code_fence_meta_class(block: Block, r: Option<CodeFenceMeta>)
    requires
        code_fence_meta_of(block, r),
        r is Some,
    ensures
        r.unwrap().language is None ==> r.unwrap().class == CodeFenceClass::Other,
        (r.unwrap().language matches Some(x) && json_dialect(x@)) ==> r.unwrap().class == CodeFenceClass::Json,
        (r.unwrap().language matches Some(x) && x@ == seq!['m', 'e', 'r', 'm', 'a', 'i', 'd'])
            ==> r.unwrap().class == CodeFenceClass::Mermaid,
{
    let m = r.unwrap();
    if let Some(x) = m.language {
        law_fence_class_of_known_languages(x@);
        assert(crate::text::ascii_lower_chars(x@) =~= x@) by {
            let f = first_word(m.info@).unwrap();
            assert(x@ == crate::text::ascii_lower_chars(f));
            assert forall|i: int| 0 <= i < x@.len() implies crate::text::ascii_lower_char(x@[i]) == x@[i] by {
                assert(x@[i] == crate::text::ascii_lower_char(f[i]));
            }
        }
    }
}

/// What the code-fence analyzer reports for a block.
pub open spec fn code_fence_meta_of(block: Block, r: Option<CodeFenceMeta>) -> bool {
    &&& block.kind != BlockKind::CodeFence ==> r is None
    &&& (block.kind == BlockKind::CodeFence ==> match fence_open(
        first_line(encode_utf8(block.raw@)),
    ) {
        None => r is None,
        Some((c, n, k)) => (r matches Some(m) && m.info@ == fence_info(
            first_line(encode_utf8(block.raw@)),
            k,
            n,
        ) && crate::reference::opt_str_view(m.language) == lower_word(first_word(m.info@))
            && m.class == spec_fence_class(crate::reference::opt_str_view(m.language))),
    })
}

impl CodeFenceAnalyzer {
    pub fn classify_language(language: Option<&str>) -> (r: CodeFenceClass)
        ensures
            r == spec_fence_class(opt_view(language)),
    {
        let l = match language {
            None => return CodeFenceClass::Other,
            Some(l) => l,
        };
        let b = to_ascii_lower(l.as_bytes());
        let mermaid: &[u8] = &[109u8, 101u8, 114u8, 109u8, 97u8, 105u8, 100u8];
        assert(mermaid@ =~= seq![109u8, 101u8, 114u8, 109u8, 97u8, 105u8, 100u8]);
        if bytes_eq(&b, mermaid) {
            return CodeFenceClass::Mermaid;
        }
        if crate::stream::display::is_json_language(&b) && is_single_word(&b) {
            return CodeFenceClass::Json;
        }
        CodeFenceClass::Other
    }

    /// The metadata of a code-fence block: its info string, language and class.
    pub fn analyze(&self, block: &Block) -> (r: Option<CodeFenceMeta>)
        ensures
            code_fence_meta_of(*block, r),
    {
        if block.kind != BlockKind::CodeFence {
            return None;
        }
        let h = match parse_code_fence_header_from_block(block.raw.as_str()) {
            None => return None,
            Some(h) => h,
        };
        let class = match &h.language {
            Some(l) => Self::classify_language(Some(l.as_str())),
            None => Self::classify_language(None),
        };
        Some(CodeFenceMeta { info: h.info.to_owned(), language: h.language, class })
    }
}

fn is_single_word(b: &[u8]) -> (r: bool)
    ensures
        r == (b@ == crate::stream::display::first_word_bytes(b@)),
{
    let mut e: usize = 0;
    while e < b.len() && !crate::text::is_ascii_ws(b[e])
        invariant
            e <= b@.len(),
            crate::stream::display::word_end(b@, 0) == crate::stream::display::word_end(b@, e as int),
        decreases b@.len() - e,
    {
        e += 1;
    }
    assert(e < b@.len() ==> b@.subrange(0, e as int).len() != b@.len());
    assert(e == b@.len() ==> b@.subrange(0, e as int) =~= b@);
    e == b.len()
}

impl BlockAnalyzer for CodeFenceAnalyzer {
    type Meta = CodeFenceMeta;

    fn analyze_block(&mut self, block: &Block) -> (r: Option<Self::Meta>)
        ensures
            code_fence_meta_of(*block, r),
            *final(self) == *old(self),
    {
        self.analyze(block)
    }

    open spec fn may_analyze(&self, block: Block, r: Option<Self::Meta>, after: &Self) -> bool {
        code_fence_meta_of(block, r) && *after == *self
    }
}

// ---------------------------------------------------------------------------------------------
// Math blocks.
// ---------------------------------------------------------------------------------------------

#[derive(Debug, Clone, PartialEq, Eq)]
pub struct MathMeta {
    pub balanced: bool,
}

#[derive(Debug, Default, Clone)]
pub struct MathAnalyzer;

/// What the math analyzer reports for a block.
pub open spec fn math_meta_of(block: Block, r: Option<MathMeta>) -> bool {
    &&& block.kind != BlockKind::MathBlock ==> r is None
    &&& (block.kind == BlockKind::MathBlock ==> (r matches Some(m) && m.balanced == (
    crate::stream::classify::dollars_from(encode_utf8(block.raw@), 0) % 2 == 0)))
}

/// The math analyzer reports a math block (one without backslashes) balanced exactly when it
/// holds an even number of `$$` delimiters (read left to right, without overlap), and nothing
/// for other blocks; the hint analyzer's unbalanced-math flag says the opposite.
pub proof fn law_math_balance(block: Block, r: Option<MathMeta>, h: Option<BlockHintMeta>)
    requires
        math_meta_of(block, r),
        hint_meta_of(block, h),
        forall|k: int| 0 <= k < encode_utf8(block.raw@).len() ==> encode_utf8(block.raw@)[k] != 92,
    ensures
        block.kind != BlockKind::MathBlock ==> r is None,
        block.kind == BlockKind::MathBlock ==> r is Some && (r.unwrap().balanced <==> crate::text::count_from(
            encode_utf8(block.raw@),
            seq![36u8, 36u8],
            0,
        ) % 2 == 0),
        block.kind == BlockKind::MathBlock && block.status == BlockStatus::Pending ==> (h.unwrap().flags
            / 4 == 1 <==> !r.unwrap().balanced),
{
    crate::stream::classify::lemma_dollars_plain(encode_utf8(block.raw@), 0);
}

impl MathAnalyzer {
    /// Whether a math block's unescaped `$$` delimiters are balanced.
    pub fn analyze(&self, block: &Block) -> (r: Option<MathMeta>)
        ensures
            math_meta_of(*block, r),
    {
        if block.kind != BlockKind::MathBlock {
            return None;
        }
        let count = crate::stream::classify::count_double_dollars(block.raw.as_str().as_bytes());
        Some(MathMeta { balanced: count % 2 == 0 })
    }
}

impl BlockAnalyzer for MathAnalyzer {
    type Meta = MathMeta;

    fn analyze_block(&mut self, block: &Block) -> (r: Option<Self::Meta>)
        ensures
            math_meta_of(*block, r),
            *final(self) == *old(self),
    {
        self.analyze(block)
    }

    open spec fn may_analyze(&self, block: Block, r: Option<Self::Meta>, after: &Self) -> bool {
        math_meta_of(block, r) && *after == *self
    }
}

// ---------------------------------------------------------------------------------------------
// Hints for pending blocks.
// ---------------------------------------------------------------------------------------------

#[derive(Debug, Clone, Copy, PartialEq, Eq, Structural)]
pub struct BlockHintMeta {
    pub flags: u32,
}

impl BlockHintMeta {
    pub const DISPLAY_TRANSFORMED: u32 = 1u32;
    pub const UNCLOSED_CODE_FENCE: u32 = 2u32;
    pub const UNBALANCED_MATH: u32 = 4u32;

    pub fn likely_incomplete(&self) -> (r: bool)
        ensures
            r == (self.flags != 0),
    {
        self.flags != 0
    }

    pub fn has(&self, flag: u32) -> (r: bool)
        ensures
            r == (self.flags & flag != 0),
    {
        (self.flags & flag) != 0
    }
}

#[derive(Debug, Default, Clone)]
pub struct BlockHintAnalyzer;

/// Start of the last line holding a non-whitespace character, scanning lines that end at or
/// before `end` (lines split at line feeds).
pub open spec fn last_nonempty_from(t: Seq<u8>, end: int) -> Option<(int, int)>
    decreases end + 1,
{
    if end < 0 || end > t.len() {
        None
    } else {
        let start = match rfind_before(t.subrange(0, end), seq![10u8], end) {
            Some(k) => k + 1,
            None => 0,
        };
        if !bytes_blank(t.subrange(start, end)) {
            Some((start, end))
        } else if start == 0 {
            None
        } else {
            proof {
                lemma_rfind_nl(t, end);
            }
            last_nonempty_from(t, start - 1)
        }
    }
}

pub proof fn lemma_rfind_nl(t: Seq<u8>, end: int)
    requires
        0 <= end <= t.len(),
    ensures
        rfind_before(t.subrange(0, end), seq![10u8], end) matches Some(k) ==> 0 <= k < end && t[k]
            == 10,
{
    crate::pending::terminator::lemma_rfind_before(t.subrange(0, end), seq![10u8], end);
    if let Some(k) = rfind_before(t.subrange(0, end), seq![10u8], end) {
        assert(t.subrange(0, end).subrange(k, k + 1)[0] == t[k]);
    }
}

fn last_nonempty_line(t: &[u8]) -> (r: Option<(usize, usize)>)
    requires
        valid_utf8(t@),
    ensures
        match r {
            Some((a, b)) => last_nonempty_from(t@, t@.len() as int) == Some((a as int, b as int))
                && a <= b <= t@.len() && (a == 0 || t@[a - 1] == 10) && (b == t@.len() || t@[b as int]
                == 10),
            None => last_nonempty_from(t@, t@.len() as int) is None,
        },
{
    let nl: &[u8] = &[10u8];
    assert(nl@ =~= seq![10u8]);
    let mut end = t.len();
    loop
        invariant
            end <= t@.len(),
            valid_utf8(t@),
            nl@ == seq![10u8],
            end == t@.len() || t@[end as int] == 10,
            last_nonempty_from(t@, t@.len() as int) == last_nonempty_from(t@, end as int),
        decreases end,
    {
        let head = slice(t, 0, end);
        proof {
            lemma_rfind_nl(t@, end as int);
        }
        let start = match crate::text::rfind_pat(head, nl, end) {
            Some(k) => k + 1,
            None => 0,
        };
        proof {
            lemma_valid_slice(t@, start as int, end as int);
        }
        if !is_blank(slice(t, start, end)) {
            return Some((start, end));
        }
        if start == 0 {
            return None;
        }
        end = start - 1;
    }
}

/// A code fence whose last non-blank line closes it.
pub open spec fn spec_fence_closed(t: Seq<u8>) -> bool {
    match fence_open(first_line(t)) {
        None => false,
        Some((c, n, k)) => match last_nonempty_from(t, t.len() as int) {
            None => false,
            Some((a, b)) => closing_fence(t.subrange(a, b), c as char, n as int),
        },
    }
}

pub fn code_fence_is_closed(text: &str) -> (r: bool)
    ensures
        r == spec_fence_closed(text.spec_bytes()),
{
    let h = match parse_code_fence_header_from_block(text) {
        None => return false,
        Some(h) => h,
    };
    let b = text.as_bytes();
    proof {
        lemma_encode_valid(text@);
    }
    let (a, e) = match last_nonempty_line(b) {
        None => return false,
        Some(x) => x,
    };
    proof {
        lemma_valid_slice(b@, a as int, e as int);
        crate::text::lemma_roundtrip(b@.subrange(a as int, e as int));
    }
    let last = as_str(slice(b, a, e));
    is_code_fence_closing_line(last, h.fence_char, h.fence_len)
}

/// The hint flags of a pending block.
pub open spec fn spec_hint_flags(b: Block) -> u32 {
    let t = if (b.display matches Some(d) && d@ != b.raw@) {
        1u32
    } else {
        0u32
    };
    let f = if b.kind == BlockKind::CodeFence && !spec_fence_closed(encode_utf8(b.raw@)) {
        2u32
    } else {
        0u32
    };
    let m = if b.kind == BlockKind::MathBlock && crate::stream::classify::dollars_from(
        encode_utf8(b.raw@),
        0,
    ) % 2 == 1 {
        4u32
    } else {
        0u32
    };
    (t + f + m) as u32
}

/// What the hint analyzer reports for a block.
pub open spec fn hint_meta_of(block: Block, r: Option<BlockHintMeta>) -> bool {
    &&& block.status != BlockStatus::Pending ==> r is None
    &&& (block.status == BlockStatus::Pending ==> r == Some(
        BlockHintMeta { flags: spec_hint_flags(block) },
    ))
}

/// The hints of a pending block say its display was transformed exactly when it has a display
/// that differs from its raw text; a block that is neither a code fence nor a math block gets no
/// other hint, so it is likely incomplete exactly then. Blocks that are not pending get none.
pub proof fn law_hint_display_transformed(block: Block, r: Option<BlockHintMeta>)
    requires
        hint_meta_of(block, r),
    ensures
        block.status != BlockStatus::Pending ==> r is None,
        block.status == BlockStatus::Pending ==> r is Some,
        block.status == BlockStatus::Pending ==> (r.unwrap().flags % 2 == 1 <==> (block.display matches Some(
            d,
        ) && d@ != block.raw@)),
        block.status == BlockStatus::Pending && block.kind != BlockKind::CodeFence && block.kind
            != BlockKind::MathBlock ==> (r.unwrap().flags == 0 <==> !(block.display matches Some(d)
            && d@ != block.raw@)),
        block.status == BlockStatus::Pending ==> ((r.unwrap().flags / 2) % 2 == 1 <==> (block.kind
            == BlockKind::CodeFence && !spec_fence_closed(encode_utf8(block.raw@)))),
        block.status == BlockStatus::Pending ==> (r.unwrap().flags / 4 == 1 <==> (block.kind
            == BlockKind::MathBlock && crate::stream::classify::dollars_from(encode_utf8(block.raw@), 0)
            % 2 == 1)),
{
}

impl BlockHintAnalyzer {
    /// Hints for a pending block: display transformed, unclosed code fence, unbalanced math.
    pub fn analyze(&self, block: &Block) -> (r: Option<BlockHintMeta>)
        ensures
            hint_meta_of(*block, r),
    {
        if block.status != BlockStatus::Pending {
            return None;
        }
        let mut flags: u32 = 0;
        if let Some(d) = &block.display {
            if *d != block.raw {
                flags = flags + 1;
            }
        }
        if block.kind == BlockKind::CodeFence && !code_fence_is_closed(block.raw.as_str()) {
            flags = flags + 2;
        }
        if block.kind == BlockKind::MathBlock {
            let count = crate::stream::classify::count_double_dollars(block.raw.as_str().as_bytes());
            if count % 2 == 1 {
                flags = flags + 4;
            }
        }
        Some(BlockHintMeta { flags })
    }
}

impl BlockAnalyzer for BlockHintAnalyzer {
    type Meta = BlockHintMeta;

    fn analyze_block(&mut self, block: &Block) -> (r: Option<Self::Meta>)
        ensures
            hint_meta_of(*block, r),
            *final(self) == *old(self),
    {
        self.analyze(block)
    }

    open spec fn may_analyze(&self, block: Block, r: Option<Self::Meta>, after: &Self) -> bool {
        hint_meta_of(block, r) && *after == *self
    }
}


// ---------------------------------------------------------------------------------------------
// Custom tag blocks (`<tool_call>` ... `</tool_call>`).
// ---------------------------------------------------------------------------------------------

#[derive(Debug, Clone, PartialEq, Eq)]
pub struct TaggedBlockMeta {
    pub tag: String,
    pub attributes: Option<String>,
    pub closed: bool,
    /// Raw content between the opening and closing tag lines (everything after the opening line
    /// while the closing tag has not arrived).
    pub content: String,
}

#[derive(Debug, Clone)]
pub struct TaggedBlockAnalyzer {
    /// If set, only tags in this allowlist produce meta.
    pub allowed_tags: Option<Vec<String>>,
    pub case_insensitive: bool,
}

impl Default for TaggedBlockAnalyzer {
    fn default() -> (r: Self)
        ensures
            r.allowed_tags is None,
            r.case_insensitive,
    {
        TaggedBlockAnalyzer { allowed_tags: None, case_insensitive: true }
    }
}

/// An opening custom tag at the start of a line (after leading whitespace): its name (lowercased
/// when case-insensitive) and its trimmed attributes.
pub open spec fn spec_opening_tag(line: Seq<u8>, ci: bool) -> Option<(Seq<u8>, Seq<u8>)> {
    let s = bytes_trim_start(line);
    if s.len() == 0 || s[0] != 60 || matches_at(s, 0, seq![60u8, 47u8]) {
        None
    } else {
        match find_byte(s, 62, 0) {
            None => None,
            Some(gt) => {
                let inside = s.subrange(1, gt);
                if inside.len() == 0 || !crate::text::ascii_alpha(inside[0]) {
                    None
                } else {
                    let ne = 1 + crate::boundary::custom_tag_run(inside, 1);
                    Some(
                        (
                            crate::boundary::norm_name(inside.subrange(0, ne), ci),
                            bytes_trim(inside.subrange(ne, inside.len() as int)),
                        ),
                    )
                }
            },
        }
    }
}

proof fn lemma_tag_run_over_name(name: Seq<u8>, rest: Seq<u8>, j: int)
    requires
        1 <= j <= name.len(),
        forall|k: int| 0 <= k < name.len() ==> crate::boundary::custom_tag_char(#[trigger] name[k]),
        rest.len() == 0 || !crate::boundary::custom_tag_char(rest[0]),
    ensures
        crate::boundary::custom_tag_run(name + rest, j) == name.len() - j,
    decreases name.len() - j,
{
    let x = name + rest;
    if j < name.len() {
        assert(x[j] == name[j]);
        lemma_tag_run_over_name(name, rest, j + 1);
    } else if rest.len() > 0 {
        assert(x[j] == rest[0]);
    }
}

/// An opening tag line `<name attrs>` (after leading whitespace), whose name starts with a
/// letter and is a run of tag characters: the tag is the name (lowercased when matching
/// ignores case) and the attributes are the text between the name and the first `>`, trimmed;
/// what follows the `>` plays no part.
pub proof fn law_opening_tag_name_and_attributes(
    line: Seq<u8>,
    name: Seq<u8>,
    rest: Seq<u8>,
    after: Seq<u8>,
    ci: bool,
)
    requires
        bytes_trim_start(line) == seq![60u8] + name + rest + seq![62u8] + after,
        name.len() > 0,
        crate::text::ascii_alpha(name[0]),
        forall|k: int| 0 <= k < name.len() ==> crate::boundary::custom_tag_char(#[trigger] name[k]),
        rest.len() == 0 || !crate::boundary::custom_tag_char(rest[0]),
        forall|k: int| 0 <= k < rest.len() ==> #[trigger] rest[k] != 62,
    ensures
        spec_opening_tag(line, ci) == Some((crate::boundary::norm_name(name, ci), bytes_trim(rest))),
{
    let s = bytes_trim_start(line);
    let gt: int = (1 + name.len() + rest.len()) as int;
    assert(s[0] == 60);
    assert(s[1] == name[0]);
    assert(!matches_at(s, 0, seq![60u8, 47u8])) by {
        if matches_at(s, 0, seq![60u8, 47u8]) {
            assert(s.subrange(0, 2)[1] == s[1]);
        }
    }
    assert forall|t: int| 0 <= t < gt implies s[t] != 62 by {
        if t >= 1 && t < 1 + name.len() {
            assert(s[t] == name[t - 1]);
        } else if t >= 1 + name.len() {
            assert(s[t] == rest[t - 1 - name.len()]);
        }
    }
    assert(s[gt] == 62);
    crate::text::lemma_find_byte_at(s, 62, 0, gt);
    let inside = s.subrange(1, gt);
    assert(inside =~= name + rest);
    lemma_tag_run_over_name(name, rest, 1);
    assert(inside.subrange(0, name.len() as int) =~= name);
    assert(inside.subrange(name.len() as int, inside.len() as int) =~= rest);
}

/// The tagged-block analyzer reports, for a block opening with `<name attrs>` (a tag it
/// accepts), that tag, and as attributes the trimmed text between the name and the first `>`:
/// none when that text is blank.
pub proof fn law_tagged_block_attributes(
    a: TaggedBlockAnalyzer,
    block: Block,
    r: Option<TaggedBlockMeta>,
    name: Seq<u8>,
    rest: Seq<u8>,
    after: Seq<u8>,
)
    requires
        tagged_meta_of(a, block, r),
        bytes_trim_start(crate::syntax::first_line(encode_utf8(block.raw@))) == seq![60u8] + name
            + rest + seq![62u8] + after,
        name.len() > 0,
        crate::text::ascii_alpha(name[0]),
        forall|k: int| 0 <= k < name.len() ==> crate::boundary::custom_tag_char(#[trigger] name[k]),
        rest.len() == 0 || !crate::boundary::custom_tag_char(rest[0]),
        forall|k: int| 0 <= k < rest.len() ==> #[trigger] rest[k] != 62,
        tag_allowed(a.allowed(), crate::boundary::norm_name(name, a.case_insensitive), a.case_insensitive),
    ensures
        r is Some,
        encode_utf8(r.unwrap().tag@) == crate::boundary::norm_name(name, a.case_insensitive),
        bytes_trim(rest).len() == 0 ==> r.unwrap().attributes is None,
        bytes_trim(rest).len() > 0 ==> (r.unwrap().attributes matches Some(x) && encode_utf8(x@)
            == bytes_trim(rest)),
{
    law_opening_tag_name_and_attributes(
        crate::syntax::first_line(encode_utf8(block.raw@)),
        name,
        rest,
        after,
        a.case_insensitive,
    );
}

/// A standalone closing tag line for `tag`.
pub open spec fn spec_closing_tag(line: Seq<u8>, tag: Seq<u8>, ci: bool) -> bool {
    let s = bytes_trim_start(line);
    if !matches_at(s, 0, seq![60u8, 47u8]) {
        false
    } else {
        match find_byte(s, 62, 0) {
            None => false,
            Some(gt) => {
                let inside = s.subrange(2, gt);
                inside.len() > 0 && crate::text::ascii_alpha(inside[0]) && {
                    let ne = 1 + crate::boundary::custom_tag_run(inside, 1);
                    crate::boundary::norm_name(inside.subrange(0, ne), ci) == tag && bytes_blank(
                        inside.subrange(ne, inside.len() as int),
                    )
                }
            },
        }
    }
}

fn parse_custom_opening_tag(line: &[u8], ci: bool) -> (r: Option<(Vec<u8>, Vec<u8>)>)
    requires
        valid_utf8(line@),
    ensures
        match r {
            None => spec_opening_tag(line@, ci) is None,
            Some((n, a)) => spec_opening_tag(line@, ci) == Some((n@, a@)) && valid_utf8(a@)
                && crate::text::all_ascii(n@),
        },
{
    let s = trim_start(line);
    let close: &[u8] = &[60u8, 47u8];
    assert(close@ =~= seq![60u8, 47u8]);
    if s.len() == 0 || s[0] != 60 || starts_with(s, close) {
        return None;
    }
    proof {
        lemma_find_byte(s@, 62, 0);
    }
    let gt = match find_byte_exec(s, 62, 0) {
        None => return None,
        Some(g) => g,
    };
    let inside = slice(s, 1, gt);
    if inside.len() == 0 || !is_ascii_alpha(inside[0]) {
        return None;
    }
    let ne = 1 + crate::boundary::custom_tag_run_exec(inside, 1);
    let name = crate::boundary::norm_name_exec(slice(inside, 0, ne), ci);
    proof {
        lemma_valid_slice(s@, 1, gt as int);
        crate::boundary::lemma_custom_tag_run(inside@, 1);
        lemma_valid_slice(inside@, ne as int, inside@.len() as int);
        assert forall|q: int| 0 <= q < name@.len() implies name@[q] < 128 by {
            assert(inside@.subrange(0, ne as int)[q] == inside@[q]);
        }
    }
    let attrs = to_vec(trim(slice(inside, ne, inside.len())));
    Some((name, attrs))
}

fn is_custom_closing_tag(line: &[u8], tag: &[u8], ci: bool) -> (r: bool)
    requires
        valid_utf8(line@),
    ensures
        r == spec_closing_tag(line@, tag@, ci),
{
    let s = trim_start(line);
    let close: &[u8] = &[60u8, 47u8];
    assert(close@ =~= seq![60u8, 47u8]);
    if !starts_with(s, close) {
        return false;
    }
    proof {
        lemma_find_byte(s@, 62, 0);
    }
    let gt = match find_byte_exec(s, 62, 0) {
        None => return false,
        Some(g) => g,
    };
    if gt < 2 {
        proof {
            assert(s@[0] == 60 && s@[1] == 47);
        }
        return false;
    }
    let inside = slice(s, 2, gt);
    if inside.len() == 0 || !is_ascii_alpha(inside[0]) {
        return false;
    }
    let ne = 1 + crate::boundary::custom_tag_run_exec(inside, 1);
    let name = crate::boundary::norm_name_exec(slice(inside, 0, ne), ci);
    if !bytes_eq(&name, tag) {
        return false;
    }
    proof {
        lemma_valid_slice(s@, 2, gt as int);
        crate::boundary::lemma_custom_tag_run(inside@, 1);
        lemma_valid_slice(inside@, ne as int, inside@.len() as int);
    }
    is_blank(slice(inside, ne, inside.len()))
}

/// The tag block's content: the lines after the first, without the closing tag line when the
/// last non-blank line is one; and whether it was.
pub open spec fn spec_tag_content(raw: Seq<u8>, tag: Seq<u8>, ci: bool) -> (bool, Seq<u8>) {
    let body_start = match find_byte(raw, 10, 0) {
        Some(k) => k + 1,
        None => raw.len() as int,
    };
    let body = raw.subrange(body_start, raw.len() as int);
    match last_nonempty_from(body, body.len() as int) {
        Some((a, b)) => if spec_closing_tag(body.subrange(a, b), tag, ci) {
            let after = if b < body.len() {
                b + 1
            } else {
                b
            };
            (true, body.subrange(0, a) + body.subrange(after, body.len() as int))
        } else {
            (false, body)
        },
        None => (false, body),
    }
}

fn split_tag_block_content(raw: &[u8], tag: &[u8], ci: bool) -> (r: (bool, Vec<u8>))
    requires
        valid_utf8(raw@),
    ensures
        (r.0, r.1@) == spec_tag_content(raw@, tag@, ci),
        valid_utf8(r.1@),
{
    let n = raw.len();
    proof {
        lemma_find_byte(raw@, 10, 0);
    }
    let body_start = match find_byte_exec(raw, 10, 0) {
        Some(k) => k + 1,
        None => n,
    };
    proof {
        lemma_valid_slice(raw@, body_start as int, n as int);
    }
    let body = slice(raw, body_start, n);
    let bn = body.len();
    match last_nonempty_line(body) {
        Some((a, b)) => {
            proof {
                lemma_valid_slice(body@, a as int, b as int);
            }
            if is_custom_closing_tag(slice(body, a, b), tag, ci) {
                let after = if b < bn {
                    b + 1
                } else {
                    b
                };
                let mut out = to_vec(slice(body, 0, a));
                proof {
                    lemma_valid_slice(body@, 0, a as int);
                    lemma_valid_slice(body@, after as int, bn as int);
                    valid_utf8_concat(out@, body@.subrange(after as int, bn as int));
                }
                crate::text::extend(&mut out, slice(body, after, bn));
                (true, out)
            } else {
                (false, to_vec(body))
            }
        },
        None => (false, to_vec(body)),
    }
}

/// Whether the tag is allowed by the list (compared lowercased when case-insensitive).
pub open spec fn tag_allowed(allowed: Option<Seq<Seq<char>>>, tag: Seq<u8>, ci: bool) -> bool {
    match allowed {
        None => true,
        Some(list) => allowed_from(list, 0, tag, ci),
    }
}

/// Some name of the list from position `i` on matches the tag.
pub open spec fn allowed_from(list: Seq<Seq<char>>, i: int, tag: Seq<u8>, ci: bool) -> bool
    decreases list.len() - i,
{
    if i < 0 || i >= list.len() {
        false
    } else {
        allowed_at(list, i, tag, ci) || allowed_from(list, i + 1, tag, ci)
    }
}

pub open spec fn allowed_at(list: Seq<Seq<char>>, i: int, tag: Seq<u8>, ci: bool) -> bool {
    crate::boundary::norm_name(encode_utf8(list[i]), ci) == tag
}

/// What the tagged-block analyzer reports for a block.
pub open spec fn tagged_meta_of(a: TaggedBlockAnalyzer, block: Block, r: Option<TaggedBlockMeta>) -> bool {
    match spec_opening_tag(crate::syntax::first_line(encode_utf8(block.raw@)), a.case_insensitive) {
        None => r is None,
        Some((tag, attrs)) => if !tag_allowed(a.allowed(), tag, a.case_insensitive) {
            r is None
        } else {
            r matches Some(m) && encode_utf8(m.tag@) == tag && (if attrs.len() == 0 {
                m.attributes is None
            } else {
                m.attributes matches Some(x) && encode_utf8(x@) == attrs
            }) && (m.closed, encode_utf8(m.content@)) == spec_tag_content(
                encode_utf8(block.raw@),
                tag,
                a.case_insensitive,
            )
        },
    }
}

impl TaggedBlockAnalyzer {
    pub open spec fn allowed(&self) -> Option<Seq<Seq<char>>> {
        match self.allowed_tags {
            Some(v) => Some(crate::boundary::names_view(v@)),
            None => None,
        }
    }

    fn is_allowed(&self, tag: &[u8]) -> (r: bool)
        ensures
            r == tag_allowed(self.allowed(), tag@, self.case_insensitive),
    {
        match &self.allowed_tags {
            None => true,
            Some(list) => {
                let ghost l = crate::boundary::names_view(list@);
                let mut k: usize = 0;
                while k < list.len()
                    invariant
                        k <= list@.len(),
                        l == crate::boundary::names_view(list@),
                        self.allowed() == Some(l),
                        allowed_from(l, 0, tag@, self.case_insensitive) == allowed_from(
                            l,
                            k as int,
                            tag@,
                            self.case_insensitive,
                        ),
                    decreases list@.len() - k,
                {
                    let t = crate::boundary::norm_name_exec(
                        list[k].as_str().as_bytes(),
                        self.case_insensitive,
                    );
                    assert(l[k as int] == list@[k as int]@);
                    if bytes_eq(&t, tag) {
                        return true;
                    }
                    k += 1;
                }
                false
            },
        }
    }

    /// The tag, attributes, closedness and content of a block that opens with a custom tag.
    pub fn analyze(&self, block: &Block) -> (r: Option<TaggedBlockMeta>)
        ensures
            tagged_meta_of(*self, *block, r),
    {
        let raw = block.raw.as_str().as_bytes();
        proof {
            lemma_encode_valid(block.raw@);
            lemma_find_byte(raw@, 10, 0);
        }
        let first_end = match find_byte_exec(raw, 10, 0) {
            Some(k) => k,
            None => raw.len(),
        };
        proof {
            lemma_valid_slice(raw@, 0, first_end as int);
        }
        assert(raw@.subrange(0, first_end as int) =~= crate::syntax::first_line(raw@));
        let (tag, attrs) = match parse_custom_opening_tag(slice(raw, 0, first_end), self.case_insensitive) {
            None => return None,
            Some(x) => x,
        };
        if !self.is_allowed(&tag) {
            return None;
        }
        let (closed, content) = split_tag_block_content(raw, &tag, self.case_insensitive);
        proof {
            crate::text::lemma_ascii_valid(tag@);
        }
        let tag_s = string_of(&tag);
        let attributes = if attrs.len() == 0 {
            None
        } else {
            Some(string_of(&attrs))
        };
        let content_s = string_of(&content);
        proof {
            crate::text::lemma_roundtrip(tag@);
            crate::text::lemma_roundtrip(attrs@);
            crate::text::lemma_roundtrip(content@);
        }
        Some(TaggedBlockMeta { tag: tag_s, attributes, closed, content: content_s })
    }
}

impl BlockAnalyzer for TaggedBlockAnalyzer {
    type Meta = TaggedBlockMeta;

    fn analyze_block(&mut self, block: &Block) -> (r: Option<Self::Meta>)
        ensures
            tagged_meta_of(*old(self), *block, r),
            *final(self) == *old(self),
    {
        self.analyze(block)
    }

    open spec fn may_analyze(&self, block: Block, r: Option<Self::Meta>, after: &Self) -> bool {
        tagged_meta_of(*self, block, r) && *after == *self
    }
}

} // verus!
