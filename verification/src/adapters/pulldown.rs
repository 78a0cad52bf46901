//! Per-block event caching for `pulldown-cmark`, with late reference definitions: committed
//! blocks are parsed once, with the definitions known so far prepended, and re-parsed when the
//! stream reports them as invalidated.
use vstd::prelude::*;
use vstd::utf8::*;
use vstd::string::StringSliceAdditionalSpecFns;
use std::collections::HashMap;
use pulldown_cmark::{Event, Options as PulldownOptions, Parser};
use crate::types::{Block, BlockId, Update};
use crate::text::{
    find_byte, lemma_find_byte, lemma_valid_slice, slice, string_push, string_push_str,
};
use crate::reference::{extract_reference_definition_line, spec_definition_label};

verus! {

broadcast use vstd::std_specs::hash::group_hash_axioms, vstd::string::group_string_axioms;

#[verifier::external_type_specification]
#[verifier::external_body]
pub struct ExPulldownEvent<'a>(Event<'a>);

/// The events `pulldown-cmark` produces for a text under the given option bits.
pub uninterp spec fn pulldown_events(input: Seq<char>, options: u32) -> Seq<Event<'static>>;

/// `pulldown_cmark::Parser::new_ext` on the text, with the options made from the bits by
/// `Options::from_bits_truncate`, run to the end, each event made owned by
/// `Event::into_static`. The parser reads nothing but its two arguments, so the events are a
/// function of the text and the option bits. Left unsaid: that the parser never panics, which
/// its source does not make evident.
#[verifier::external_body]
fn parse_events_static(input: &str, options: u32) -> (r: Vec<Event<'static>>)
    ensures
        r@ == pulldown_events(input@, options),
{
    Parser::new_ext(input, PulldownOptions::from_bits_truncate(options)).map(|e| e.into_static()).collect()
}

#[derive(Debug, Clone)]
pub struct PulldownAdapterOptions {
    /// `pulldown_cmark::Options` flags, as given by `Options::bits`.
    pub pulldown: u32,
    /// If true, pending blocks are parsed from `display` (terminated) when available.
    pub prefer_display_for_pending: bool,
}

impl Default for PulldownAdapterOptions {
    fn default() -> (r: Self)
        ensures
            r.pulldown == 0,
            r.prefer_display_for_pending,
    {
        PulldownAdapterOptions { pulldown: 0, prefer_display_for_pending: true }
    }
}

/// Strict lexicographic order on bytes (the order of `String`'s `Ord`).
pub open spec fn lex_lt(a: Seq<u8>, b: Seq<u8>) -> bool
    decreases a.len(),
{
    if a.len() == 0 {
        b.len() > 0
    } else if b.len() == 0 {
        false
    } else if a[0] != b[0] {
        a[0] < b[0]
    } else {
        lex_lt(a.drop_first(), b.drop_first())
    }
}

pub proof fn lemma_lex_irrefl(a: Seq<u8>)
    ensures
        !lex_lt(a, a),
    decreases a.len(),
{
    if a.len() > 0 {
        lemma_lex_irrefl(a.drop_first());
    }
}

pub proof fn lemma_lex_asym(a: Seq<u8>, b: Seq<u8>)
    ensures
        lex_lt(a, b) ==> !lex_lt(b, a),
    decreases a.len(),
{
    if a.len() > 0 && b.len() > 0 && a[0] == b[0] {
        lemma_lex_asym(a.drop_first(), b.drop_first());
    }
}

pub proof fn lemma_lex_total(a: Seq<u8>, b: Seq<u8>)
    ensures
        a != b ==> lex_lt(a, b) || lex_lt(b, a),
    decreases a.len(),
{
    if a.len() > 0 && b.len() > 0 && a[0] == b[0] {
        lemma_lex_total(a.drop_first(), b.drop_first());
        if a.drop_first() == b.drop_first() {
            assert(a =~= seq![a[0]] + a.drop_first());
            assert(b =~= seq![b[0]] + b.drop_first());
        }
    } else if a.len() == 0 && b.len() == 0 {
        assert(a =~= b);
    }
}

fn bytes_lt(a: &[u8], b: &[u8]) -> (r: bool)
    ensures
        r == lex_lt(a@, b@),
{
    let mut i: usize = 0;
    assert(a@.skip(0) =~= a@);
    assert(b@.skip(0) =~= b@);
    while i < a.len() && i < b.len()
        invariant
            i <= a@.len(),
            i <= b@.len(),
            lex_lt(a@, b@) == lex_lt(a@.skip(i as int), b@.skip(i as int)),
        decreases a@.len() - i,
    {
        if a[i] != b[i] {
            return a[i] < b[i];
        }
        assert(a@.skip(i as int).drop_first() =~= a@.skip(i + 1));
        assert(b@.skip(i as int).drop_first() =~= b@.skip(i + 1));
        i += 1;
    }
    a.len() < b.len()
}

/// Definitions as (label, line) pairs, labels in increasing order: insert the pair, replacing
/// the one with the same label.
pub open spec fn upsert(
    defs: Seq<(Seq<char>, Seq<char>)>,
    label: Seq<char>,
    line: Seq<char>,
) -> Seq<(Seq<char>, Seq<char>)>
    decreases defs.len(),
{
    if defs.len() == 0 {
        seq![(label, line)]
    } else if defs[0].0 == label {
        seq![(label, line)] + defs.drop_first()
    } else if lex_lt(encode_utf8(label), encode_utf8(defs[0].0)) {
        seq![(label, line)] + defs
    } else {
        seq![defs[0]] + upsert(defs.drop_first(), label, line)
    }
}

/// Record the definition on `line`, if it holds one.
pub open spec fn add_line(defs: Seq<(Seq<char>, Seq<char>)>, line: Seq<u8>) -> Seq<(Seq<char>, Seq<char>)> {
    match spec_definition_label(line) {
        Some(l) => upsert(defs, l, crate::text::ws_trim_end(decode_utf8(line))),
        None => defs,
    }
}

/// Record the definitions of the lines of `b` from byte `from` on (lines split at `\n`).
pub open spec fn collect_from(defs: Seq<(Seq<char>, Seq<char>)>, b: Seq<u8>, from: int) -> Seq<(Seq<char>, Seq<char>)>
    decreases b.len() - from,
{
    if from < 0 || from > b.len() {
        defs
    } else {
        match find_byte(b, 10, from) {
            Some(i) => if i < from || i >= b.len() {
                defs
            } else {
                collect_from(add_line(defs, b.subrange(from, i)), b, i + 1)
            },
            None => add_line(defs, b.subrange(from, b.len() as int)),
        }
    }
}

/// The definition lines, one per line.
pub open spec fn join_defs(defs: Seq<(Seq<char>, Seq<char>)>) -> Seq<char>
    decreases defs.len(),
{
    if defs.len() == 0 {
        Seq::empty()
    } else if defs.len() == 1 {
        defs[0].1
    } else {
        join_defs(defs.drop_last()) + seq!['\n'] + defs.last().1
    }
}

/// The text handed to the parser: the definitions, a blank line, then the block.
pub open spec fn with_defs(defs_text: Seq<char>, raw: Seq<char>) -> Seq<char> {
    if defs_text.len() == 0 {
        raw
    } else {
        defs_text + seq!['\n', '\n'] + raw
    }
}

/// The adapter's state: raw text per committed block id, the definitions, events per id.
pub open spec fn model_step(
    m: (Map<u64, Seq<char>>, Seq<(Seq<char>, Seq<char>)>, Map<u64, Seq<Event<'static>>>),
    b: Block,
    bits: u32,
) -> (Map<u64, Seq<char>>, Seq<(Seq<char>, Seq<char>)>, Map<u64, Seq<Event<'static>>>) {
    let defs = collect_from(m.1, encode_utf8(b.raw@), 0);
    (
        m.0.insert(b.id.0, b.raw@),
        defs,
        m.2.insert(b.id.0, pulldown_events(with_defs(join_defs(defs), b.raw@), bits)),
    )
}

/// The state after the committed blocks, in order.
pub open spec fn model_blocks(
    m: (Map<u64, Seq<char>>, Seq<(Seq<char>, Seq<char>)>, Map<u64, Seq<Event<'static>>>),
    bs: Seq<Block>,
    bits: u32,
) -> (Map<u64, Seq<char>>, Seq<(Seq<char>, Seq<char>)>, Map<u64, Seq<Event<'static>>>)
    decreases bs.len(),
{
    if bs.len() == 0 {
        m
    } else {
        model_step(model_blocks(m, bs.drop_last(), bits), bs.last(), bits)
    }
}

/// The state after re-parsing the invalidated blocks that are known, in order.
pub open spec fn model_invalidate(
    m: (Map<u64, Seq<char>>, Seq<(Seq<char>, Seq<char>)>, Map<u64, Seq<Event<'static>>>),
    ids: Seq<BlockId>,
    bits: u32,
) -> (Map<u64, Seq<char>>, Seq<(Seq<char>, Seq<char>)>, Map<u64, Seq<Event<'static>>>)
    decreases ids.len(),
{
    if ids.len() == 0 {
        m
    } else {
        let m1 = model_invalidate(m, ids.drop_last(), bits);
        let k = ids.last().0;
        if m1.0.contains_key(k) {
            (m1.0, m1.1, m1.2.insert(k, pulldown_events(with_defs(join_defs(m1.1), m1.0[k]), bits)))
        } else {
            m1
        }
    }
}

pub open spec fn empty_model() -> (Map<u64, Seq<char>>, Seq<(Seq<char>, Seq<char>)>, Map<u64, Seq<Event<'static>>>) {
    (Map::empty(), Seq::empty(), Map::empty())
}

#[derive(Debug)]
pub struct PulldownAdapter {
    opts: PulldownAdapterOptions,
    committed_raw: HashMap<u64, String>,
    committed_cache: HashMap<u64, Vec<Event<'static>>>,
    defs: Vec<(String, String)>,
    reference_definitions: String,
}

pub open spec fn pairs_view(v: Seq<(String, String)>) -> Seq<(Seq<char>, Seq<char>)> {
    Seq::new(v.len(), |i: int| (v[i].0@, v[i].1@))
}

impl PulldownAdapter {
    pub closed spec fn options_view(&self) -> PulldownAdapterOptions {
        self.opts
    }

    pub closed spec fn raw_view(&self) -> Map<u64, Seq<char>> {
        Map::new(|k: u64| self.committed_raw@.contains_key(k), |k: u64| self.committed_raw@[k]@)
    }

    pub closed spec fn cache_view(&self) -> Map<u64, Seq<Event<'static>>> {
        Map::new(|k: u64| self.committed_cache@.contains_key(k), |k: u64| self.committed_cache@[k]@)
    }

    pub closed spec fn defs_view(&self) -> Seq<(Seq<char>, Seq<char>)> {
        pairs_view(self.defs@)
    }

    /// The definitions as text, kept in step with the pairs.
    pub closed spec fn wf(&self) -> bool {
        self.reference_definitions@ == join_defs(self.defs_view())
    }

    pub open spec fn model(&self) -> (Map<u64, Seq<char>>, Seq<(Seq<char>, Seq<char>)>, Map<u64, Seq<Event<'static>>>) {
        (self.raw_view(), self.defs_view(), self.cache_view())
    }

    pub fn new(opts: PulldownAdapterOptions) -> (r: Self)
        ensures
            r.wf(),
            r.options_view() == opts,
            r.model() == empty_model(),
    {
        let r = PulldownAdapter {
            opts,
            committed_raw: HashMap::new(),
            committed_cache: HashMap::new(),
            defs: Vec::new(),
            reference_definitions: String::new(),
        };
        assert(r.raw_view() =~= Map::empty());
        assert(r.cache_view() =~= Map::empty());
        assert(r.defs_view() =~= Seq::empty());
        r
    }

    pub fn clear(&mut self)
        ensures
            final(self).wf(),
            final(self).options_view() == old(self).options_view(),
            final(self).model() == empty_model(),
    {
        self.committed_raw.clear();
        self.committed_cache.clear();
        self.defs = Vec::new();
        self.reference_definitions = String::new();
        assert(self.raw_view() =~= Map::empty());
        assert(self.cache_view() =~= Map::empty());
        assert(self.defs_view() =~= Seq::empty());
    }
}

/// Insert or replace a definition, keeping labels in increasing order.
fn upsert_definition(defs: &mut Vec<(String, String)>, label: String, line: String)
    ensures
        pairs_view(final(defs)@) == upsert(pairs_view(old(defs)@), label@, line@),
{
    let ghost d0 = pairs_view(defs@);
    let n = defs.len();
    let mut i: usize = 0;
    assert(d0.skip(0) =~= d0);
    assert(d0.take(0) =~= Seq::<(Seq<char>, Seq<char>)>::empty());
    while i < n && bytes_lt(defs[i].0.as_str().as_bytes(), label.as_str().as_bytes())
        invariant
            n == defs@.len(),
            d0 == pairs_view(defs@),
            i <= n,
            upsert(d0, label@, line@) == d0.take(i as int) + upsert(d0.skip(i as int), label@, line@),
        decreases n - i,
    {
        proof {
            let a = encode_utf8(d0[i as int].0);
            let l = encode_utf8(label@);
            lemma_lex_irrefl(l);
            lemma_lex_asym(a, l);
            assert(d0.skip(i as int)[0] == d0[i as int]);
            assert(d0.skip(i as int).drop_first() =~= d0.skip(i + 1));
            assert(d0.take(i + 1) =~= d0.take(i as int) + seq![d0[i as int]]);
        }
        i += 1;
    }
    let ghost v = pairs_view(defs@);
    if i < n && defs[i].0 == label {
        proof {
            assert(d0.skip(i as int)[0] == d0[i as int]);
            assert(d0.skip(i as int).drop_first() =~= d0.skip(i + 1));
        }
        defs.remove(i);
        defs.insert(i, (label, line));
        proof {
            assert(pairs_view(defs@) =~= d0.take(i as int) + (seq![(label@, line@)] + d0.skip(i + 1)));
        }
    } else {
        proof {
            if i < n {
                let a = encode_utf8(d0[i as int].0);
                let l = encode_utf8(label@);
                lemma_lex_total(a, l);
                if a == l {
                    encode_utf8_decode_utf8(d0[i as int].0);
                    encode_utf8_decode_utf8(label@);
                }
                assert(d0.skip(i as int)[0] == d0[i as int]);
            } else {
                assert(d0.skip(i as int) =~= Seq::<(Seq<char>, Seq<char>)>::empty());
            }
        }
        defs.insert(i, (label, line));
        proof {
            assert(pairs_view(defs@) =~= d0.take(i as int) + (seq![(label@, line@)] + d0.skip(i as int)));
        }
    }
}

/// The definition lines joined by newlines.
fn join_definitions(defs: &Vec<(String, String)>) -> (r: String)
    ensures
        r@ == join_defs(pairs_view(defs@)),
{
    let ghost d = pairs_view(defs@);
    let mut out = String::new();
    let mut k: usize = 0;
    assert(d.take(0) =~= Seq::<(Seq<char>, Seq<char>)>::empty());
    while k < defs.len()
        invariant
            k <= defs@.len(),
            d == pairs_view(defs@),
            out@ == join_defs(d.take(k as int)),
        decreases defs@.len() - k,
    {
        let ghost before = out@;
        if k > 0 {
            string_push(&mut out, '\n');
        }
        string_push_str(&mut out, defs[k].1.as_str());
        proof {
            let t = d.take(k + 1);
            assert(t.drop_last() =~= d.take(k as int));
            if k == 0 {
                assert(out@ =~= t[0].1);
            } else {
                assert(out@ =~= join_defs(t.drop_last()) + seq!['\n'] + t.last().1);
            }
        }
        k += 1;
    }
    assert(d.take(defs@.len() as int) =~= d);
    out
}

impl PulldownAdapter {
    /// Record the single-line definitions in `raw`, the latest per label.
    fn collect_reference_definitions(&mut self, raw: &str)
        requires
            old(self).wf(),
        ensures
            final(self).wf(),
            final(self).defs_view() == collect_from(old(self).defs_view(), raw.spec_bytes(), 0),
            final(self).raw_view() == old(self).raw_view(),
            final(self).cache_view() == old(self).cache_view(),
            final(self).options_view() == old(self).options_view(),
    {
        let b = raw.as_bytes();
        proof {
            crate::text::lemma_encode_valid(raw@);
        }
        let n = b.len();
        let mut start: usize = 0;
        let mut i: usize = 0;
        let ghost target = collect_from(self.defs_view(), b@, 0);
        while i < n
            invariant
                start <= i <= n,
                n == b@.len(),
                b@ == raw.spec_bytes(),
                valid_utf8(b@),
                start == 0 || b@[start - 1] == 10,
                forall|t: int| start <= t < i ==> b@[t] != 10,
                target == collect_from(self.defs_view(), b@, start as int),
                self.raw_view() == old(self).raw_view(),
                self.cache_view() == old(self).cache_view(),
                self.options_view() == old(self).options_view(),
            decreases n - i,
        {
            if b[i] == 10 {
                proof {
                    lemma_valid_slice(b@, start as int, i as int);
                    crate::text::lemma_find_byte_at(b@, 10, start as int, i as int);
                }
                let line = slice(b, start, i);
                if let Some((label, def_line)) = extract_reference_definition_line(line) {
                    upsert_definition(&mut self.defs, label, def_line);
                }
                start = i + 1;
            }
            i += 1;
        }
        proof {
            lemma_valid_slice(b@, start as int, n as int);
            crate::text::lemma_find_byte_none(b@, 10, start as int);
        }
        let line = slice(b, start, n);
        if let Some((label, def_line)) = extract_reference_definition_line(line) {
            upsert_definition(&mut self.defs, label, def_line);
        }
        self.reference_definitions = join_definitions(&self.defs);
    }
}

impl PulldownAdapter {
    fn parse_with_definitions(&self, raw: &str) -> (r: Vec<Event<'static>>)
        requires
            self.wf(),
        ensures
            r@ == pulldown_events(with_defs(join_defs(self.defs_view()), raw@), self.opts.pulldown),
    {
        if self.reference_definitions.as_str().is_empty() {
            return parse_events_static(raw, self.opts.pulldown);
        }
        let mut input = String::new();
        string_push_str(&mut input, self.reference_definitions.as_str());
        string_push(&mut input, '\n');
        string_push(&mut input, '\n');
        string_push_str(&mut input, raw);
        assert(input@ =~= with_defs(join_defs(self.defs_view()), raw@));
        parse_events_static(input.as_str(), self.opts.pulldown)
    }

    /// Bring the caches up to date with an update: a reset clears them; each committed block
    /// is stored and parsed with the definitions known once it is in; then each invalidated
    /// block that is known is parsed again with all definitions.
    pub fn apply_update(&mut self, update: &Update)
        requires
            old(self).wf(),
        ensures
            final(self).wf(),
            final(self).options_view() == old(self).options_view(),
            final(self).model() == model_invalidate(
                model_blocks(
                    if update.reset {
                        empty_model()
                    } else {
                        old(self).model()
                    },
                    update.committed@,
                    old(self).options_view().pulldown,
                ),
                update.invalidated@,
                old(self).options_view().pulldown,
            ),
    {
        if update.reset {
            self.clear();
        }
        let ghost m0 = self.model();
        let ghost bits = self.opts.pulldown;
        let ghost bs = update.committed@;
        let mut k: usize = 0;
        assert(bs.take(0) =~= Seq::<Block>::empty());
        while k < update.committed.len()
            invariant
                self.wf(),
                k <= bs.len(),
                bs == update.committed@,
                bits == self.opts.pulldown,
                self.options_view() == old(self).options_view(),
                self.model() == model_blocks(m0, bs.take(k as int), bits),
            decreases bs.len() - k,
        {
            let block = &update.committed[k];
            let ghost before = self.model();
            self.committed_raw.insert(block.id.0, block.raw.clone());
            self.collect_reference_definitions(block.raw.as_str());
            let events = self.parse_with_definitions(block.raw.as_str());
            self.committed_cache.insert(block.id.0, events);
            proof {
                let t = bs.take(k + 1);
                assert(t.drop_last() =~= bs.take(k as int));
                assert(t.last() == *block);
                assert(self.raw_view() =~= before.0.insert(block.id.0, block.raw@));
                assert(self.cache_view() =~= before.2.insert(
                    block.id.0,
                    pulldown_events(with_defs(join_defs(self.defs_view()), block.raw@), bits),
                ));
            }
            k += 1;
        }
        assert(bs.take(bs.len() as int) =~= bs);
        let ghost m1 = self.model();
        let ghost ids = update.invalidated@;
        let mut q: usize = 0;
        assert(ids.take(0) =~= Seq::<BlockId>::empty());
        while q < update.invalidated.len()
            invariant
                self.wf(),
                q <= ids.len(),
                ids == update.invalidated@,
                bits == self.opts.pulldown,
                self.options_view() == old(self).options_view(),
                self.model() == model_invalidate(m1, ids.take(q as int), bits),
            decreases ids.len() - q,
        {
            let id = update.invalidated[q].0;
            let ghost before = self.model();
            proof {
                let t = ids.take(q + 1);
                assert(t.drop_last() =~= ids.take(q as int));
                assert(t.last().0 == id);
            }
            let events = match self.committed_raw.get(&id) {
                None => None,
                Some(raw) => Some(self.parse_with_definitions(raw.as_str())),
            };
            if let Some(ev) = events {
                self.committed_cache.insert(id, ev);
                proof {
                    assert(self.cache_view() =~= before.2.insert(
                        id,
                        pulldown_events(with_defs(join_defs(before.1), before.0[id]), bits),
                    ));
                }
            }
            q += 1;
        }
        assert(ids.take(ids.len() as int) =~= ids);
    }

    /// The cached events of a committed block.
    pub fn committed_events(&self, id: BlockId) -> (r: Option<&[Event<'static>]>)
        ensures
            match r {
                Some(ev) => self.cache_view().contains_key(id.0) && ev@ == self.cache_view()[id.0],
                None => !self.cache_view().contains_key(id.0),
            },
    {
        match self.committed_cache.get(&id.0) {
            Some(v) => Some(v.as_slice()),
            None => None,
        }
    }

    /// Parse the pending block (its display when preferred and present) with the definitions
    /// known so far.
    pub fn parse_pending(&self, pending: &Block) -> (r: Vec<Event<'static>>)
        requires
            self.wf(),
        ensures
            r@ == pulldown_events(
                with_defs(
                    join_defs(self.defs_view()),
                    if self.options_view().prefer_display_for_pending && pending.display is Some {
                        pending.display.unwrap()@
                    } else {
                        pending.raw@
                    },
                ),
                self.options_view().pulldown,
            ),
    {
        let input: &str = if self.opts.prefer_display_for_pending {
            match &pending.display {
                Some(d) => d.as_str(),
                None => pending.raw.as_str(),
            }
        } else {
            pending.raw.as_str()
        };
        self.parse_with_definitions(input)
    }
}

impl Default for PulldownAdapter {
    fn default() -> (r: Self)
        ensures
            r.wf(),
            r.options_view().pulldown == 0,
            r.options_view().prefer_display_for_pending,
            r.model() == empty_model(),
    {
        PulldownAdapter::new(PulldownAdapterOptions::default())
    }
}

} // verus!
