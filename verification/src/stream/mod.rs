//! The streaming block splitter.
pub mod classify;
pub mod display;
pub mod html;
pub mod lines;
pub mod split;
pub mod laws;

use vstd::prelude::*;
use vstd::utf8::*;
use vstd::string::StringSliceAdditionalSpecFns;
use crate::boundary::{BoundaryPlugin, BoundaryUpdate, PluginEntry};
use crate::options::{FootnotesMode, Options, ReferenceDefinitionsMode};
use crate::transform::{window_fix_result, PendingTransformer, TransformerEntry};
use crate::types::{Block, BlockId, BlockKind, BlockStatus, Update};
use crate::stream::lines::{Line, lines_ok, line_ok, append_to_lines, normalize_newlines, rebuild_lines, spec_normalize};
use crate::stream::split::{committed_ok, grew_together, lemma_grew_refl, lemma_grew_trans};
use crate::stream::display::spec_base_display;
use crate::pending::terminator::spec_terminate;
use crate::text::{bytes_blank, is_blank, lemma_valid_slice, slice, string_of, to_vec};
use crate::types::{PendingBlockRef, UpdateRef};

verus! {

/// How the current block is being accumulated.
pub enum BlockMode {
    Unknown,
    Paragraph,
    Heading,
    ThematicBreak,
    CodeFence { fence_char: u8, fence_len: usize, info: Option<Vec<u8>> },
    CustomBoundary { plugin_index: usize, started: bool },
    List,
    BlockQuote,
    HtmlBlock { stack: Vec<String>, in_comment: bool },
    Table,
    MathBlock { open_count: usize },
    FootnoteDefinition,
}

/// A block mode with its owned data as plain values.
pub enum ModeView {
    Unknown,
    Paragraph,
    Heading,
    ThematicBreak,
    CodeFence { fence_char: u8, fence_len: usize, info: Option<Seq<u8>> },
    CustomBoundary { plugin_index: usize, started: bool },
    List,
    BlockQuote,
    HtmlBlock { stack: Seq<Seq<char>>, in_comment: bool },
    Table,
    MathBlock { open_count: usize },
    FootnoteDefinition,
}

pub open spec fn mode_view(m: BlockMode) -> ModeView {
    match m {
        BlockMode::Unknown => ModeView::Unknown,
        BlockMode::Paragraph => ModeView::Paragraph,
        BlockMode::Heading => ModeView::Heading,
        BlockMode::ThematicBreak => ModeView::ThematicBreak,
        BlockMode::CodeFence { fence_char, fence_len, info } => ModeView::CodeFence {
            fence_char,
            fence_len,
            info: match info {
                Some(v) => Some(v@),
                None => None,
            },
        },
        BlockMode::CustomBoundary { plugin_index, started } => ModeView::CustomBoundary {
            plugin_index,
            started,
        },
        BlockMode::List => ModeView::List,
        BlockMode::BlockQuote => ModeView::BlockQuote,
        BlockMode::HtmlBlock { stack, in_comment } => ModeView::HtmlBlock {
            stack: crate::stream::html::stack_view(stack@),
            in_comment,
        },
        BlockMode::Table => ModeView::Table,
        BlockMode::MathBlock { open_count } => ModeView::MathBlock { open_count },
        BlockMode::FootnoteDefinition => ModeView::FootnoteDefinition,
    }
}

/// The block ids that used a normalised reference label.
pub struct RefUsage {
    pub label: String,
    pub ids: Vec<BlockId>,
}

pub struct MdStream {
    opts: Options,
    buffer: Vec<u8>,
    lines: Vec<Line>,
    committed: Vec<Block>,
    processed_line: usize,
    current_block_start_line: usize,
    current_block_id: BlockId,
    next_block_id: u64,
    current_mode: BlockMode,
    pending_display_cache: Option<String>,
    pending_transformers: Vec<TransformerEntry>,
    boundary_plugins: Vec<PluginEntry>,
    active_boundary_plugin: Option<usize>,
    footnotes_detected: bool,
    footnote_scan_tail: Vec<u8>,
    pending_cr: bool,
    reference_usage_index: Vec<RefUsage>,
    finalized_len: Option<usize>,
}

/// A line step says nothing of where the splitter has got to in its lines.
proof fn lemma_line_step_ignores_processed(
    s0: MdStream,
    s1: MdStream,
    s2: MdStream,
    out0: Seq<(u64, BlockKind, Seq<u8>)>,
    out1: Seq<(u64, BlockKind, Seq<u8>)>,
    i: int,
)
    requires
        crate::stream::split::plugin_line_step(s0, s1, out0, out1, i),
        crate::stream::split::plugin_open(s0, s1, out0, out1, i),
        s1.cursor() == s2.cursor(),
        s1.plugins_view() == s2.plugins_view(),
    ensures
        crate::stream::split::plugin_line_step(s0, s2, out0, out1, i),
        crate::stream::split::plugin_open(s0, s2, out0, out1, i),
{
    if crate::stream::split::plugin_open_step(s0, s1, out0, out1, i) {
        let (sm, om) = choose|sm: MdStream, om: Seq<(u64, BlockKind, Seq<u8>)>|
            #[trigger] crate::stream::split::opened_at(s0, sm, out0, om, i) && (sm.cursor().mode matches ModeView::CustomBoundary {
                plugin_index,
                started,
            } ==> crate::stream::split::plugin_step(sm, s1, om, out1, plugin_index as int, started, i));
        assert(crate::stream::split::opened_at(s0, sm, out0, om, i));
        assert(crate::stream::split::plugin_open_step(s0, s2, out0, out1, i));
    }
}

impl MdStream {
    /// The internal invariant.
    pub closed spec fn wf(&self) -> bool {
        &&& valid_utf8(self.buffer@)
        &&& lines_ok(self.buffer@, self.lines@)
        &&& crate::stream::lines::lines_exact(self.buffer@, self.lines@)
        &&& self.processed_line <= self.lines@.len()
        &&& self.current_block_start_line <= self.lines@.len()
        &&& self.current_block_id.0 + 1 == self.next_block_id
        &&& self.current_block_id.0 >= 1
        &&& ids_ok(self.committed@, self.current_block_id.0, self.single_block_mode())
    }

    /// The bytes held by the stream (what has been appended, minus a compacted prefix).
    pub closed spec fn buffer_view(&self) -> Seq<u8> {
        self.buffer@
    }

    /// The committed blocks since the last reset.
    pub closed spec fn committed_view(&self) -> Seq<Block> {
        self.committed@
    }

    pub closed spec fn options(&self) -> Options {
        self.opts
    }

    pub closed spec fn lines_view(&self) -> Seq<Line> {
        self.lines@
    }

    /// Where the splitter stands: the first line of the block in progress, its mode, its id.
    pub closed spec fn cursor(&self) -> crate::stream::split::Cursor {
        crate::stream::split::Cursor {
            start: self.current_block_start_line as int,
            mode: mode_view(self.current_mode),
            id: self.current_block_id.0,
        }
    }

    /// The (label, block id) pairs of the reference usage index.
    pub closed spec fn usage_view(&self) -> Set<(Seq<char>, u64)> {
        crate::stream::split::index_pairs(self.reference_usage_index@)
    }

    /// The lines before this one have been split already.
    pub closed spec fn processed_view(&self) -> int {
        self.processed_line as int
    }

    pub closed spec fn mode(&self) -> BlockMode {
        self.current_mode
    }

    pub closed spec fn block_id(&self) -> BlockId {
        self.current_block_id
    }

    pub closed spec fn block_start(&self) -> usize {
        self.current_block_start_line
    }

    pub closed spec fn lines_len(&self) -> int {
        self.lines@.len() as int
    }

    pub closed spec fn plugin_count(&self) -> int {
        self.boundary_plugins@.len() as int
    }

    /// The text, the line table, the options, the plugins and the line cursor agree.
    pub closed spec fn same_text(&self, other: &Self) -> bool {
        &&& self.buffer@ == other.buffer@
        &&& self.lines@ == other.lines@
        &&& self.opts == other.opts
        &&& self.boundary_plugins@.len() == other.boundary_plugins@.len()
        &&& self.processed_line == other.processed_line
        &&& self.pending_cr == other.pending_cr
        &&& self.footnotes_detected == other.footnotes_detected
        &&& self.footnote_scan_tail@ == other.footnote_scan_tail@
        &&& self.finalized_len == other.finalized_len
    }

    /// The pending transformers, in the order they run.
    pub closed spec fn transformers_view(&self) -> Seq<TransformerEntry> {
        self.pending_transformers@
    }

    /// The boundary plugins, in the order they are asked.
    pub closed spec fn plugins_view(&self) -> Seq<PluginEntry> {
        self.boundary_plugins@
    }

    /// `r` is an answer boundary plugin `i` may give to whether a line with this text starts its
    /// block.
    pub closed spec fn plugin_may_start(&self, i: int, line: Seq<char>, r: bool) -> bool {
        self.boundary_plugins@[i].may_start(line, r)
    }

    /// `r` is an answer boundary plugin `i`, as it stands, may give for a line with this text
    /// inside its block.
    pub closed spec fn plugin_may_update(&self, i: int, line: Seq<char>, r: BoundaryUpdate) -> bool {
        self.boundary_plugins@[i].may_update(line, r)
    }

    /// A footnote has been seen in the text so far.
    pub closed spec fn footnotes_seen(&self) -> bool {
        self.footnotes_detected
    }

    /// The end of the text kept for the footnote scan, so that a footnote split across chunks
    /// is still found.
    pub closed spec fn footnote_tail(&self) -> Seq<u8> {
        self.footnote_scan_tail@
    }

    /// A stream with nothing in it: no text, no committed block, nothing held back, the splitter
    /// at the first line in no block, the next block numbered 1, no recorded reference use and no
    /// footnote seen.
    pub open spec fn fresh(&self) -> bool {
        &&& self.buffer_view().len() == 0
        &&& self.committed_view().len() == 0
        &&& !self.pending_cr_view()
        &&& self.cursor() == crate::stream::split::Cursor { start: 0, mode: ModeView::Unknown, id: 1 }
        &&& self.processed_view() == 0
        &&& self.usage_view() == Set::<(Seq<char>, u64)>::empty()
        &&& !self.footnotes_seen()
        &&& self.footnote_tail().len() == 0
        &&& self.pending_start() is None
        &&& self.block_id() == BlockId(1)
    }

    pub(crate) proof fn lemma_wf_line(&self, i: int)
        requires
            self.wf(),
            0 <= i < self.lines_len(),
        ensures
            crate::stream::lines::line_ok(self.buffer_view(), self.lines_view()[i]),
            valid_utf8(self.buffer_view()),
    {
    }

    pub fn new(opts: Options) -> (r: Self)
        ensures
            r.wf(),
            r.options() == (Options {
                terminator: crate::pending::TerminatorOptions {
                    window_bytes: opts.terminator_window_bytes,
                    ..opts.terminator
                },
                ..opts
            }),
            r.fresh(),
            r.plugin_count() == 0,
            r.transformer_count() == 0,
    {
        let mut opts = opts;
        opts.terminator.window_bytes = opts.terminator_window_bytes;
        let mut lines: Vec<Line> = Vec::new();
        lines.push(Line { start: 0, end: 0, has_newline: false });
        let s = MdStream {
            opts,
            buffer: Vec::new(),
            lines,
            committed: Vec::new(),
            processed_line: 0,
            current_block_start_line: 0,
            current_block_id: BlockId(1),
            next_block_id: 2,
            current_mode: BlockMode::Unknown,
            pending_display_cache: None,
            pending_transformers: Vec::new(),
            boundary_plugins: Vec::new(),
            active_boundary_plugin: None,
            footnotes_detected: false,
            footnote_scan_tail: Vec::new(),
            pending_cr: false,
            reference_usage_index: Vec::new(),
            finalized_len: None,
        };
        proof {
            assert(s.buffer@ =~= Seq::<u8>::empty());
            crate::stream::lines::lemma_empty_ok(s.lines@);
            assert(crate::stream::split::index_pairs(s.reference_usage_index@) =~= Set::<(Seq<char>, u64)>::empty());
        }
        s
    }

    pub fn buffer(&self) -> (r: &str)
        requires
            self.wf(),
        ensures
            r@ == decode_utf8(self.buffer_view()),
    {
        crate::text::as_str(self.buffer.as_slice())
    }
}


/// Committed block ids never go down along the list and never pass the id of the block in
/// progress; in single-block mode every committed block is block 1.
pub open spec fn ids_ok(c: Seq<Block>, cur: u64, single: bool) -> bool {
    &&& forall|i: int, j: int| 0 <= i < j < c.len() ==> c[i].id.0 <= c[j].id.0
    &&& forall|i: int| 0 <= i < c.len() ==> #[trigger] c[i].id.0 <= cur
    &&& single ==> forall|i: int| 0 <= i < c.len() ==> #[trigger] c[i].id == BlockId(1)
}

/// How an update moves the committed blocks of the stream that produced it: after a reset
/// there are none (and the update carries none), otherwise the update's blocks are appended.
pub open spec fn committed_step(c0: Seq<Block>, c1: Seq<Block>, reset: bool, added: Seq<Block>) -> bool {
    &&& reset ==> added.len() == 0 && c1.len() == 0
    &&& !reset ==> c1 == c0 + added
}

/// What `finalize` does: it commits the block that `final_commit` describes, if any (never a
/// blank one), nothing stays pending, and nothing is left to finalize; a stream with nothing left
/// commits nothing. A block whose kind was still open is classified by its first line, where a
/// boundary plugin that claims that line makes it `Unknown`.
pub open spec fn finalize_post(s0: MdStream, s1: MdStream, r: Update) -> bool {
    &&& match s0.final_commit() {
        None => r.committed@.len() == 0,
        Some(c) => r.committed@.len() == 1 && encode_utf8(r.committed@[0].raw@) == c.0
            && r.committed@[0].id == c.1 && ((s0.plugin_count() == 0 || !(s0.cursor().mode is Unknown))
            ==> r.committed@[0].kind == c.2) && (r.committed@[0].kind == c.2 || r.committed@[0].kind
            == BlockKind::Unknown),
    }
    &&& s1.wf()
    &&& r.pending is None
    &&& !r.reset
    &&& s1.committed_view() == s0.committed_view() + r.committed@
    &&& forall|i: int| 0 <= i < r.committed@.len() ==> committed_ok(#[trigger] r.committed@[i])
    &&& r.committed@.len() <= 1
    &&& s1.drained()
    &&& s0.drained() ==> r.committed@.len() == 0
}

/// The footnote scan finds a first footnote once `text` arrives: none was seen before, and
/// the kept tail followed by `text` holds one.
pub open spec fn footnote_found(s: MdStream, text: Seq<u8>) -> bool {
    !s.footnotes_seen() && crate::stream::classify::spec_detect_footnotes(s.footnote_tail() + text)
}

/// The tail the footnote scan keeps once `text` arrives: while no footnote is found, the last
/// bytes (a window of 256, cut at a character boundary) of the old tail followed by `text`.
pub open spec fn footnote_tail_after(s: MdStream, text: Seq<u8>) -> Seq<u8> {
    let c = s.footnote_tail() + text;
    if s.footnotes_seen() || crate::stream::classify::spec_detect_footnotes(c) {
        s.footnote_tail()
    } else {
        c.subrange(crate::pending::terminator::spec_tail_start(c, 256), c.len() as int)
    }
}

/// The text kept once the buffer is compacted: with a cap set and exceeded, and outside
/// single-block footnote mode, the text from the first line of the block in progress (line
/// `start`) on; otherwise all of it.
pub open spec fn compacted(buf: Seq<u8>, start: int, max: Option<usize>, single: bool) -> Seq<u8> {
    match max {
        None => buf,
        Some(m) => if buf.len() <= m || single {
            buf
        } else {
            let lines = crate::stream::lines::canon_lines(buf);
            let k: int = if 0 <= start < lines.len() {
                lines[start].start as int
            } else {
                buf.len() as int
            };
            buf.subrange(k, buf.len() as int)
        },
    }
}

/// The blocks (as id, kind and raw bytes) that appending text commits when no boundary plugin
/// takes part: with `buf` the text held after the append, the complete lines from the first one
/// not yet processed are processed one after the other, then the open last line may end the
/// block in progress.
pub open spec fn append_commits(
    buf: Seq<u8>,
    c: crate::stream::split::Cursor,
    processed: int,
    single: bool,
) -> Seq<(u64, BlockKind, Seq<u8>)> {
    let lines = crate::stream::lines::canon_lines(buf);
    crate::stream::split::tail_view(
        buf,
        lines,
        crate::stream::split::run_view(buf, lines, (c, Seq::empty()), processed, lines.len() - 1, single),
        single,
    ).1
}

/// Where the splitter stands after an append (without plugins): the cursor, and the first line
/// not processed yet.
pub open spec fn append_cursor(
    buf: Seq<u8>,
    c: crate::stream::split::Cursor,
    processed: int,
    single: bool,
) -> crate::stream::split::Cursor {
    let lines = crate::stream::lines::canon_lines(buf);
    crate::stream::split::tail_view(
        buf,
        lines,
        crate::stream::split::run_view(buf, lines, (c, Seq::empty()), processed, lines.len() - 1, single),
        single,
    ).0
}

pub open spec fn append_processed(buf: Seq<u8>, processed: int) -> int {
    let n = crate::stream::lines::canon_lines(buf).len() - 1;
    if processed > n {
        processed
    } else {
        n
    }
}

/// `a` is a suffix of `b`.
pub open spec fn is_suffix(a: Seq<u8>, b: Seq<u8>) -> bool {
    a.len() <= b.len() && a == b.subrange(b.len() - a.len(), b.len() as int)
}

impl MdStream {
    /// Where the pending block starts in the buffer, if there is one.
    pub closed spec fn pending_start(&self) -> Option<int> {
        if self.single_block_mode() {
            if self.buffer@.len() > 0 {
                Some(0)
            } else {
                None
            }
        } else if self.current_block_start_line < self.lines@.len() && self.lines@[self.current_block_start_line as int].start
            < self.buffer@.len() {
            Some(self.lines@[self.current_block_start_line as int].start as int)
        } else {
            None
        }
    }

    /// Footnotes were seen and the whole document is one block.
    pub closed spec fn single_block_mode(&self) -> bool {
        self.opts.footnotes == FootnotesMode::SingleBlock && self.footnotes_detected
    }

    pub closed spec fn transformer_count(&self) -> int {
        self.pending_transformers@.len() as int
    }

    pub closed spec fn pending_cr_view(&self) -> bool {
        self.pending_cr
    }

    /// What the stream reports as its pending block.
    pub open spec fn pending_ok(&self, p: Option<Block>) -> bool {
        match self.pending_start() {
            None => p is None,
            Some(k) => p matches Some(b) && b.status == BlockStatus::Pending && encode_utf8(b.raw@)
                == self.buffer_view().subrange(k, self.buffer_view().len() as int) && b.raw@.len()
                > 0 && b.display is Some && (if self.single_block_mode() {
                b.id == BlockId(1) && b.kind == BlockKind::Unknown
            } else {
                b.id == self.block_id() && b.kind == crate::stream::split::mode_kind(self.mode())
            }) && (self.transformer_count() == 0 ==> encode_utf8(b.display.unwrap()@)
                == self.pending_base(k)) && self.pending_transformed(b, k),
        }
    }

    /// The display of the pending block starting at byte `k` before the pending transformers:
    /// the terminated text (with a code fence closed outside single-block mode).
    pub open spec fn pending_base(&self, k: int) -> Seq<u8> {
        if self.single_block_mode() {
            spec_terminate(self.buffer_view().subrange(k, self.buffer_view().len() as int), self.options().terminator)
        } else {
            spec_base_display(
                self.buffer_view().subrange(k, self.buffer_view().len() as int),
                self.mode(),
                self.options(),
            )
        }
    }

    /// The pending block's display is what the pending transformers make, in turn, of its
    /// display before them.
    pub open spec fn pending_transformed(&self, b: Block, k: int) -> bool {
        exists|outs: Seq<Option<Seq<char>>>|
            crate::stream::display::transformer_answers(
                self.transformers_view(),
                b.kind,
                b.raw@,
                decode_utf8(self.pending_base(k)),
                outs,
            ) && b.display.unwrap()@ == crate::stream::display::display_after(
                decode_utf8(self.pending_base(k)),
                outs,
                self.transformer_count(),
            )
    }

    /// The text `finalize` works on: the buffer, with a held-back `\r` as a line feed.
    pub open spec fn final_text(&self) -> Seq<u8> {
        if self.pending_cr_view() {
            self.buffer_view().push(10u8)
        } else {
            self.buffer_view()
        }
    }

    /// The block `finalize` commits, as its raw text, id and kind (the kind as no boundary plugin
    /// claims it): in single-block mode the whole text as block 1 unless it was finalized already;
    /// otherwise the text from the start of the block in progress. Nothing when that text is
    /// empty or blank.
    pub closed spec fn final_commit(&self) -> Option<(Seq<u8>, BlockId, BlockKind)> {
        let t = self.final_text();
        if self.single_block_mode() {
            if t.len() == 0 || self.finalized_len == Some(t.len() as usize) || bytes_blank(t) {
                None
            } else {
                Some((t, BlockId(1), BlockKind::Unknown))
            }
        } else if self.current_block_start_line < self.lines@.len() {
            let l = self.lines@[self.current_block_start_line as int];
            if t.len() <= l.start || bytes_blank(t.subrange(l.start as int, t.len() as int)) {
                None
            } else {
                let kind = if self.current_mode is Unknown {
                    crate::stream::split::spec_start_kind(self.buffer@.subrange(l.start as int, l.end as int))
                } else {
                    crate::stream::split::mode_kind(self.current_mode)
                };
                Some((t.subrange(l.start as int, t.len() as int), self.current_block_id, kind))
            }
        } else {
            None
        }
    }

    /// Nothing is left for `finalize` to commit.
    pub closed spec fn drained(&self) -> bool {
        &&& !self.pending_cr
        &&& if self.single_block_mode() {
            self.finalized_len == Some(self.buffer@.len() as usize) || bytes_blank(self.buffer@)
        } else {
            self.current_block_start_line >= self.lines@.len() || bytes_blank(
                self.buffer@.subrange(
                    self.lines@[self.current_block_start_line as int].start as int,
                    self.buffer@.len() as int,
                ),
            )
        }
    }

    /// A stream with Streamdown-compatible defaults: incomplete links and images are handled by
    /// the built-in pending transformers instead of the terminator. The first transformer puts
    /// the options' placeholder URL into an incomplete link, the second drops an incomplete
    /// image; both look at the options' tail window.
    pub fn streamdown_defaults() -> (r: Self)
        ensures
            r.wf(),
            r.buffer_view().len() == 0,
            r.committed_view().len() == 0,
            !r.options().terminator.links && !r.options().terminator.images,
            r.options().terminator.incomplete_link_url@ == "streamdown:incomplete-link"@,
            r.options().terminator_window_bytes == 16 * 1024,
            r.fresh(),
            r.plugin_count() == 0,
            r.transformer_count() == 2,
            forall|k: BlockKind, raw: Seq<char>, d: Seq<char>, o: Option<Seq<char>>|
                #[trigger] r.transformers_view()[0].may_transform(k, raw, d, o) == window_fix_result(
                    k,
                    d,
                    r.options().terminator_window_bytes as int,
                    encode_utf8(r.options().terminator.incomplete_link_url@),
                    true,
                    false,
                    o,
                ),
            forall|k: BlockKind, raw: Seq<char>, d: Seq<char>, o: Option<Seq<char>>|
                #[trigger] r.transformers_view()[1].may_transform(k, raw, d, o) == window_fix_result(
                    k,
                    d,
                    r.options().terminator_window_bytes as int,
                    Seq::empty(),
                    false,
                    true,
                    o,
                ),
    {
        let mut opts = Options::default();
        opts.terminator.links = false;
        opts.terminator.images = false;
        let url = opts.terminator.incomplete_link_url.as_str().to_owned();
        let window = opts.terminator_window_bytes;
        let mut s = MdStream::new(opts);
        let t1 = crate::transform::IncompleteLinkPlaceholderTransformer {
            incomplete_link_url: url,
            window_bytes: window,
        };
        let t2 = crate::transform::IncompleteImageDropTransformer { window_bytes: window };
        let e1 = TransformerEntry::holding(t1);
        let e2 = TransformerEntry::holding(t2);
        let mut ts: Vec<TransformerEntry> = Vec::new();
        ts.push(e1);
        ts.push(e2);
        s.pending_transformers = ts;
        s
    }

    /// Add a transformer at the end of the pending-display chain.
    pub fn push_pending_transformer<T>(&mut self, transformer: T) where
        T: PendingTransformer + 'static,

        ensures
            final(self).same_stream(old(self)),
            old(self).wf() ==> final(self).wf(),
            final(self).transformer_count() == old(self).transformer_count() + 1,
            final(self).plugin_count() == old(self).plugin_count(),
            final(self).transformers_view().drop_last() == old(self).transformers_view(),
            forall|k: BlockKind, raw: Seq<char>, d: Seq<char>, o: Option<Seq<char>>|
                #[trigger] final(self).transformers_view().last().may_transform(k, raw, d, o)
                    == transformer.may_transform(k, raw, d, o),
    {
        let e = TransformerEntry::holding(transformer);
        self.pending_transformers.push(e);
        self.pending_display_cache = None;
        proof {
            assert(self.pending_transformers@.drop_last() =~= old(self).pending_transformers@);
        }
    }

    /// The stream with a transformer added at the end of the pending-display chain.
    pub fn with_pending_transformer<T>(self, transformer: T) -> (r: Self) where
        T: PendingTransformer + 'static,

        ensures
            r.same_stream(&self),
            self.wf() ==> r.wf(),
            r.transformer_count() == self.transformer_count() + 1,
            r.plugin_count() == self.plugin_count(),
            r.transformers_view().drop_last() == self.transformers_view(),
            forall|k: BlockKind, raw: Seq<char>, d: Seq<char>, o: Option<Seq<char>>|
                #[trigger] r.transformers_view().last().may_transform(k, raw, d, o)
                    == transformer.may_transform(k, raw, d, o),
    {
        let mut s = self;
        s.push_pending_transformer(transformer);
        s
    }

    /// Add a boundary plugin after those already installed.
    pub fn push_boundary_plugin<T>(&mut self, plugin: T) where T: BoundaryPlugin + 'static,
        ensures
            final(self).same_stream(old(self)),
            old(self).wf() ==> final(self).wf(),
            final(self).plugin_count() == old(self).plugin_count() + 1,
            final(self).transformer_count() == old(self).transformer_count(),
            final(self).transformers_view() == old(self).transformers_view(),
            forall|i: int, l: Seq<char>, a: bool|
                0 <= i < old(self).plugin_count() ==> final(self).plugin_may_start(i, l, a)
                    == old(self).plugin_may_start(i, l, a),
            final(self).plugins_view().drop_last() == old(self).plugins_view(),
            forall|l: Seq<char>, a: bool|
                #[trigger] final(self).plugin_may_start(old(self).plugin_count(), l, a) == plugin.may_start(l, a),
            forall|l: Seq<char>, u: BoundaryUpdate|
                #[trigger] final(self).plugin_may_update(old(self).plugin_count(), l, u) == plugin.may_update(l, u),
    {
        let e = PluginEntry::holding(plugin);
        self.boundary_plugins.push(e);
        self.pending_display_cache = None;
        proof {
            assert(self.boundary_plugins@.drop_last() =~= old(self).boundary_plugins@);
        }
    }

    /// The stream with a boundary plugin added after those already installed.
    pub fn with_boundary_plugin<T>(self, plugin: T) -> (r: Self) where
        T: BoundaryPlugin + 'static,

        ensures
            r.same_stream(&self),
            self.wf() ==> r.wf(),
            r.plugin_count() == self.plugin_count() + 1,
            r.transformer_count() == self.transformer_count(),
            r.transformers_view() == self.transformers_view(),
            forall|i: int, l: Seq<char>, a: bool|
                0 <= i < self.plugin_count() ==> r.plugin_may_start(i, l, a) == self.plugin_may_start(i, l, a),
            r.plugins_view().drop_last() == self.plugins_view(),
            forall|l: Seq<char>, a: bool|
                #[trigger] r.plugin_may_start(self.plugin_count(), l, a) == plugin.may_start(l, a),
            forall|l: Seq<char>, u: BoundaryUpdate|
                #[trigger] r.plugin_may_update(self.plugin_count(), l, u) == plugin.may_update(l, u),
    {
        let mut s = self;
        s.push_boundary_plugin(plugin);
        s
    }

    /// The committed blocks and the pending one (if any).
    pub fn snapshot_blocks(&self) -> (r: Vec<Block>)
        requires
            self.wf(),
        ensures
            self.pending_start() is None ==> r@ == self.committed_view(),
            self.pending_start() is Some ==> r@.len() == self.committed_view().len() + 1
                && r@.subrange(0, self.committed_view().len() as int) == self.committed_view()
                && self.pending_ok(Some(r@.last())),
    {
        let mut blocks = crate::types::copy_blocks(self.committed.as_slice());
        if let Some(p) = self.pending_block_snapshot() {
            let ghost pre = blocks@;
            blocks.push(p);
            assert(blocks@.subrange(0, pre.len() as int) =~= pre);
        }
        blocks
    }

    /// Keep the footnote scan tail and switch to single-block mode when a footnote appears.
    fn scan_footnotes(&mut self, chunk: &[u8], update: &mut Update)
        requires
            old(self).wf(),
            valid_utf8(chunk@),
            old(update).committed@.len() == 0,
            !old(update).reset,
        ensures
            final(self).wf(),
            final(self).buffer_view() == old(self).buffer_view(),
            final(self).lines_view() == old(self).lines_view(),
            final(self).options() == old(self).options(),
            final(self).pending_cr_view() == old(self).pending_cr_view(),
            final(update).committed@.len() == 0,
            final(update).pending == old(update).pending,
            final(update).reset ==> final(self).committed_view().len() == 0
                && final(self).single_block_mode(),
            !final(update).reset ==> final(self).committed_view() == old(self).committed_view(),
            final(self).cursor() == old(self).cursor(),
            final(self).processed_view() == old(self).processed_view(),
            final(self).plugin_count() == old(self).plugin_count(),
            final(self).plugins_view() == old(self).plugins_view(),
            final(self).usage_view() == old(self).usage_view(),
            final(update).invalidated@ == old(update).invalidated@,
            final(self).footnotes_seen() == (old(self).footnotes_seen() || footnote_found(*old(self), chunk@)),
            final(self).footnote_tail() == footnote_tail_after(*old(self), chunk@),
            final(update).reset == (footnote_found(*old(self), chunk@) && old(self).options().footnotes
                == FootnotesMode::SingleBlock && old(self).committed_view().len() > 0),
    {
        if self.footnotes_detected {
            return;
        }
        let mut combined = to_vec(self.footnote_scan_tail.as_slice());
        crate::text::extend(&mut combined, chunk);
        if crate::stream::classify::detect_footnotes(&combined) {
            self.footnotes_detected = true;
            if self.opts.footnotes == FootnotesMode::SingleBlock && self.committed.len() > 0 {
                update.reset = true;
                self.committed.clear();
            }
        } else {
            let off = crate::pending::terminator::tail_start(&combined, 256);
            self.footnote_scan_tail = to_vec(slice(&combined, off, combined.len()));
        }
    }

    /// Drop the committed prefix of the buffer once it exceeds `max_buffer_bytes`.
    fn maybe_compact_buffer(&mut self)
        requires
            old(self).wf(),
        ensures
            final(self).wf(),
            is_suffix(final(self).buffer_view(), old(self).buffer_view()),
            final(self).committed_view() == old(self).committed_view(),
            final(self).options() == old(self).options(),
            final(self).pending_cr_view() == old(self).pending_cr_view(),
            final(self).transformer_count() == old(self).transformer_count(),
            final(self).single_block_mode() == old(self).single_block_mode(),
            old(self).options().max_buffer_bytes is None ==> *final(self) == *old(self),
            final(self).usage_view() == old(self).usage_view(),
            final(self).buffer_view() == compacted(
                old(self).buffer_view(),
                old(self).cursor().start,
                old(self).options().max_buffer_bytes,
                old(self).single_block_mode(),
            ),
            final(self).cursor().mode == old(self).cursor().mode,
            final(self).cursor().id == old(self).cursor().id,
            final(self).footnotes_seen() == old(self).footnotes_seen(),
            final(self).footnote_tail() == old(self).footnote_tail(),
    {
        proof {
            assert(self.buffer@.subrange(0, self.buffer@.len() as int) =~= self.buffer@);
            crate::stream::lines::lemma_exact_canon(self.buffer@, self.lines@);
        }
        let max = match self.opts.max_buffer_bytes {
            None => return,
            Some(m) => m,
        };
        if self.buffer.len() <= max {
            return;
        }
        if self.opts.footnotes == FootnotesMode::SingleBlock && self.footnotes_detected {
            return;
        }
        let start = self.current_block_start_line;
        let keep_from = if start < self.lines.len() {
            proof {
                self.lemma_wf_line(start as int);
            }
            self.lines[start].start
        } else {
            self.buffer.len()
        };
        if keep_from == 0 {
            return;
        }
        let n = self.buffer.len();
        proof {
            lemma_valid_slice(self.buffer@, keep_from as int, n as int);
        }
        let kept = to_vec(slice(self.buffer.as_slice(), keep_from, n));
        self.buffer = kept;
        self.lines = rebuild_lines(self.buffer.as_slice());
        let processed = if self.processed_line >= start {
            self.processed_line - start
        } else {
            0
        };
        self.processed_line = if processed > self.lines.len() {
            self.lines.len()
        } else {
            processed
        };
        self.current_block_start_line = 0;
        self.pending_display_cache = None;
        self.finalized_len = match self.finalized_len {
            Some(f) => Some(
                if f >= keep_from {
                    f - keep_from
                } else {
                    0
                },
            ),
            None => None,
        };
    }

    /// Feed a chunk: normalise line endings, split completed lines into blocks, and report the
    /// blocks committed by this chunk and the current pending block.
    #[verifier::rlimit(80)]
    pub fn append(&mut self, chunk: &str) -> (r: Update)
        requires
            old(self).wf(),
        ensures
            final(self).wf(),
            committed_step(old(self).committed_view(), final(self).committed_view(), r.reset, r.committed@),
            forall|i: int| 0 <= i < r.committed@.len() ==> committed_ok(#[trigger] r.committed@[i]),
            is_suffix(
                final(self).buffer_view(),
                old(self).buffer_view() + spec_normalize(
                    old(self).pending_cr_view(),
                    chunk.spec_bytes(),
                ).0,
            ),
            final(self).pending_cr_view() == spec_normalize(
                old(self).pending_cr_view(),
                chunk.spec_bytes(),
            ).1,
            final(self).pending_ok(r.pending),
            final(self).options() == old(self).options(),
            final(self).usage_view() == crate::stream::split::usage_after(old(self).usage_view(), r.committed@),
            crate::stream::split::id_set(r.invalidated@) == crate::stream::split::invalidated_after(
                old(self).usage_view(),
                r.committed@,
                crate::stream::split::invalidation_on(old(self).options()),
            ),
            chunk@.len() == 0 && !old(self).pending_cr_view() ==> !r.reset && r.committed@.len() == 0
                && final(self).buffer_view() == old(self).buffer_view(),
            chunk@.len() == 0 && !old(self).pending_cr_view() ==> *final(self) == *old(self),
            (chunk@.len() > 0 || old(self).pending_cr_view()) ==> ({
                let norm = spec_normalize(old(self).pending_cr_view(), chunk.spec_bytes()).0;
                &&& r.reset == (footnote_found(*old(self), norm) && old(self).options().footnotes
                    == FootnotesMode::SingleBlock && old(self).committed_view().len() > 0)
                &&& final(self).footnotes_seen() == (old(self).footnotes_seen() || footnote_found(
                    *old(self),
                    norm,
                ))
                &&& final(self).footnote_tail() == footnote_tail_after(*old(self), norm)
            }),
            final(self).single_block_mode() == (final(self).options().footnotes == FootnotesMode::SingleBlock
                && final(self).footnotes_seen()),
            (chunk@.len() > 0 || old(self).pending_cr_view()) ==> crate::stream::split::plugin_append(
                *old(self),
                old(self).buffer_view() + spec_normalize(old(self).pending_cr_view(), chunk.spec_bytes()).0,
                final(self).single_block_mode(),
                crate::stream::split::blocks_v(r.committed@),
            ),
            (chunk@.len() > 0 || old(self).pending_cr_view()) && old(self).plugin_count() == 0 && !(old(
                self,
            ).cursor().mode is CustomBoundary) ==> crate::stream::split::blocks_v(r.committed@)
                == append_commits(
                old(self).buffer_view() + spec_normalize(
                    old(self).pending_cr_view(),
                    chunk.spec_bytes(),
                ).0,
                old(self).cursor(),
                old(self).processed_view(),
                final(self).single_block_mode(),
            ),
            (chunk@.len() > 0 || old(self).pending_cr_view()) && old(self).plugin_count() == 0 && !(old(
                self,
            ).cursor().mode is CustomBoundary) && old(self).options().max_buffer_bytes is None ==> ({
                let buf = old(self).buffer_view() + spec_normalize(
                    old(self).pending_cr_view(),
                    chunk.spec_bytes(),
                ).0;
                &&& final(self).buffer_view() == buf
                &&& final(self).cursor() == append_cursor(
                    buf,
                    old(self).cursor(),
                    old(self).processed_view(),
                    final(self).single_block_mode(),
                )
                &&& final(self).processed_view() == append_processed(buf, old(self).processed_view())
            }),
            (chunk@.len() > 0 || old(self).pending_cr_view()) && old(self).plugin_count() == 0 && !(old(
                self,
            ).cursor().mode is CustomBoundary) ==> ({
                let buf = old(self).buffer_view() + spec_normalize(
                    old(self).pending_cr_view(),
                    chunk.spec_bytes(),
                ).0;
                let c1 = append_cursor(buf, old(self).cursor(), old(self).processed_view(), final(self).single_block_mode());
                &&& final(self).buffer_view() == compacted(
                    buf,
                    c1.start,
                    old(self).options().max_buffer_bytes,
                    final(self).single_block_mode(),
                )
                &&& final(self).cursor().mode == c1.mode
                &&& final(self).cursor().id == c1.id
            }),
    {
        let mut update = Update::empty();
        let cb = chunk.as_bytes();
        proof {
            crate::text::lemma_encode_valid(chunk@);
        }
        if cb.len() == 0 && !self.pending_cr {
            proof {
                assert(spec_normalize(false, cb@).0 =~= Seq::<u8>::empty());
                assert(self.buffer@ + Seq::<u8>::empty() =~= self.buffer@);
                assert(self.buffer@.subrange(0, self.buffer@.len() as int) =~= self.buffer@);
                assert(self.committed@ + update.committed@ =~= self.committed@);
            }
            update.pending = self.pending_block_snapshot();
            return update;
        }
        let (norm, pcr) = normalize_newlines(cb, self.pending_cr);
        self.pending_cr = pcr;
        self.scan_footnotes(&norm, &mut update);
        let ghost fs1 = self.footnotes_seen();
        let ghost ft1 = self.footnote_tail();
        let ghost x0 = self.usage_view();
        proof {
            assert(update.committed@ =~= Seq::<Block>::empty());
            assert(update.invalidated@ =~= Seq::<BlockId>::empty());
            crate::stream::split::lemma_inv_grew_refl(x0, update.invalidated@, update.committed@, crate::stream::split::invalidation_on(self.opts));
        }
        let ghost c0 = self.committed@;
        let ghost reset0 = update.reset;
        let ghost b0 = self.buffer@;
        append_to_lines(&mut self.buffer, &mut self.lines, &norm);
        self.pending_display_cache = None;
        let ghost b1 = self.buffer@;
        let ghost l1 = self.lines@;
        let ghost p0 = self.processed_line as int;
        let ghost st0 = (self.cursor(), crate::stream::split::blocks_v(update.committed@));
        let ghost single1 = self.single_block_mode();
        let ghost plain = self.plugin_count() == 0 && !(self.cursor().mode is CustomBoundary);
        proof {
            lemma_grew_refl(self.committed@, update.committed@);
            assert(update.committed@ =~= Seq::<Block>::empty());
            crate::stream::lines::lemma_exact_canon(b1, l1);
        }
        let ghost mut states: Seq<MdStream> = seq![*self];
        let ghost mut outs: Seq<Seq<(u64, BlockKind, Seq<u8>)>> = seq![crate::stream::split::blocks_v(update.committed@)];
        let ghost plugins0 = self.plugins_view();
        proof {
            assert(crate::stream::split::blocks_v(update.committed@) =~= Seq::<(u64, BlockKind, Seq<u8>)>::empty());
        }
        while self.processed_line < self.lines.len()
            invariant
                states.len() == self.processed_line - p0 + 1,
                outs.len() == states.len(),
                crate::stream::split::plugin_run(states, outs, p0),
                states[0].cursor() == st0.0,
                states[0].plugins_view() == plugins0,
                states[0].single_block_mode() == single1,
                outs[0] == Seq::<(u64, BlockKind, Seq<u8>)>::empty(),
                forall|j: int| 0 <= j < states.len() ==> #[trigger] states[j].buffer_view() == b1 && states[j].lines_view() == l1,
                states.last() == *self,
                outs.last() == crate::stream::split::blocks_v(update.committed@),
                self.wf(),
                self.buffer@ == b1,
                self.lines@ == l1,
                self.single_block_mode() == single1,
                self.plugin_count() == 0 ==> plain == !(st0.0.mode is CustomBoundary),
                plain ==> self.plugin_count() == 0 && !(self.cursor().mode is CustomBoundary),
                self.processed_line == p0 || self.processed_line <= l1.len() - 1,
                p0 <= self.processed_line,
                plain ==> (self.cursor(), crate::stream::split::blocks_v(update.committed@))
                    == crate::stream::split::run_view(b1, l1, st0, p0, self.processed_line as int, single1),
                x0 == old(self).usage_view(),
                crate::stream::split::inv_grew(
                    x0,
                    Seq::empty(),
                    Seq::empty(),
                    self.usage_view(),
                    update.invalidated@,
                    update.committed@,
                    crate::stream::split::invalidation_on(old(self).opts),
                ),
                self.options() == old(self).options(),
                self.pending_cr == pcr,
                grew_together(c0, self.committed@, Seq::empty(), update.committed@),
                update.pending is None,
                update.reset ==> c0.len() == 0 && self.single_block_mode()
                    && update.committed@.len() == 0,
                update.reset == reset0,
                !reset0 ==> c0 == old(self).committed@,
                self.footnotes_seen() == fs1,
                self.footnote_tail() == ft1,
            ensures
                self.processed_line >= self.lines@.len() || !self.lines@[self.processed_line as int].has_newline,
            decreases self.lines@.len() - self.processed_line,
        {
            if !self.lines[self.processed_line].has_newline {
                break;
            }
            let ghost c1 = self.committed@;
            let ghost u1 = update.committed@;
            let pl = self.processed_line;
            let ghost x1 = self.usage_view();
            let ghost v1 = update.invalidated@;
            let ghost sa = *self;
            let ghost oa = crate::stream::split::blocks_v(update.committed@);
            self.process_line(pl, &mut update);
            let ghost sb = *self;
            proof {
                lemma_grew_trans(c0, c1, self.committed@, Seq::empty(), u1, update.committed@);
                crate::stream::split::lemma_inv_grew_trans(
                    x0,
                    Seq::empty(),
                    Seq::empty(),
                    x1,
                    v1,
                    u1,
                    self.usage_view(),
                    update.invalidated@,
                    update.committed@,
                    crate::stream::split::invalidation_on(self.opts),
                );
            }
            self.processed_line = self.processed_line + 1;
            proof {
                let ob = crate::stream::split::blocks_v(update.committed@);
                assert(crate::stream::split::plugin_line_step(sa, sb, oa, ob, pl as int));
                assert(crate::stream::split::plugin_open(sa, sb, oa, ob, pl as int));
                assert(sb.cursor() == self.cursor());
                assert(sb.plugins_view() == self.plugins_view());
                lemma_line_step_ignores_processed(sa, sb, *self, oa, ob, pl as int);
                let states1 = states.push(*self);
                let outs1 = outs.push(ob);
                assert forall|j: int| 0 <= j < states1.len() - 1 implies #[trigger] crate::stream::split::run_step(states1, outs1, p0, j) by {
                    if j < states.len() - 1 {
                        assert(crate::stream::split::run_step(states, outs, p0, j));
                        assert(states1[j] == states[j] && states1[j + 1] == states[j + 1]);
                        assert(outs1[j] == outs[j] && outs1[j + 1] == outs[j + 1]);
                    } else {
                        assert(j == states.len() - 1);
                        assert(p0 + j == pl);
                    }
                }
                states = states1;
                outs = outs1;
            }
        }
        proof {
            let pl = self.processed_line as int;
            if pl >= l1.len() {
                assert(pl == p0);
            } else {
                assert(pl == l1.len() - 1);
            }
            let st1 = crate::stream::split::run_view(b1, l1, st0, p0, pl, single1);
            assert(crate::stream::split::run_view(b1, l1, st0, p0, l1.len() - 1, single1) == st1);
        }
        let ghost c2 = self.committed@;
        let ghost u2 = update.committed@;
        let ghost stl = (self.cursor(), crate::stream::split::blocks_v(update.committed@));
        let ghost x2 = self.usage_view();
        let ghost v2 = update.invalidated@;
        self.process_incomplete_tail_boundary(&mut update);
        proof {
            let u3 = update.committed@;
            assert(u3.subrange(0, u2.len() as int) == u2);
            assert(crate::stream::split::blocks_v(u3).subrange(0, u2.len() as int) =~= crate::stream::split::blocks_v(u2));
        }
        let ghost u3 = update.committed@;
        proof {
            crate::stream::split::lemma_inv_grew_trans(
                x0,
                Seq::empty(),
                Seq::empty(),
                x2,
                v2,
                u2,
                self.usage_view(),
                update.invalidated@,
                update.committed@,
                crate::stream::split::invalidation_on(self.opts),
            );
        }
        let ghost committed_model = crate::stream::split::blocks_v(update.committed@);
        let ghost cursor_model = self.cursor();
        let ghost processed_model = self.processed_line as int;
        proof {
            if plain {
                assert(committed_model == crate::stream::split::tail_view(b1, l1, stl, single1).1);
                assert(cursor_model == crate::stream::split::tail_view(b1, l1, stl, single1).0);
            }
            assert(processed_model == append_processed(b1, p0));
        }
        proof {
            lemma_grew_trans(c0, c2, self.committed@, Seq::empty(), u2, update.committed@);
            assert(update.committed@.subrange(0, 0) =~= Seq::<Block>::empty());
            assert(update.committed@.subrange(0, update.committed@.len() as int) =~= update.committed@);
        }
        self.maybe_compact_buffer();
        update.pending = self.pending_block_snapshot();
        proof {
            assert(b1 == b0 + norm@);
            assert(crate::stream::split::blocks_v(update.committed@) == committed_model);
            assert(st0.1 =~= Seq::<(u64, BlockKind, Seq<u8>)>::empty());
            assert(st0 == (old(self).cursor(), Seq::<(u64, BlockKind, Seq<u8>)>::empty()));
            assert(p0 == old(self).processed_view());
            assert(single1 == self.single_block_mode());
            assert(update.committed@.subrange(0, update.committed@.len() as int) =~= update.committed@);
            assert(update.invalidated@.subrange(0, update.invalidated@.len() as int) =~= update.invalidated@);
            if self.opts.max_buffer_bytes is None {
                assert(self.cursor() == cursor_model);
                assert(self.processed_view() == processed_model);
            }
            assert(update.committed@ == u3);
            assert(l1 == crate::stream::lines::canon_lines(b1));
            assert(plugins0 == old(self).plugins_view());
            assert(crate::stream::split::appended_run(
                *old(self),
                b1,
                single1,
                crate::stream::split::blocks_v(update.committed@),
                states,
                outs,
            ));
            assert(crate::stream::split::plugin_run(states, outs, old(self).processed_view()));
        }
        update
    }

    /// End of input: commit what is left.
    #[verifier::rlimit(40)]
    pub fn finalize(&mut self) -> (r: Update)
        requires
            old(self).wf(),
        ensures
            finalize_post(*old(self), *final(self), r),
            final(self).buffer_view() == old(self).final_text(),
            !final(self).pending_cr_view(),
            final(self).footnotes_seen() == old(self).footnotes_seen(),
            final(self).footnote_tail() == old(self).footnote_tail(),
            final(self).usage_view() == crate::stream::split::usage_after(old(self).usage_view(), r.committed@),
            crate::stream::split::id_set(r.invalidated@) == crate::stream::split::invalidated_after(
                old(self).usage_view(),
                r.committed@,
                crate::stream::split::invalidation_on(old(self).options()),
            ),
    {
        let mut update = Update::empty();
        if self.pending_cr {
            let nl: &[u8] = &[10u8];
            proof {
                assert(crate::text::all_ascii(nl@));
                crate::text::lemma_ascii_valid(nl@);
            }
            append_to_lines(&mut self.buffer, &mut self.lines, nl);
            self.pending_cr = false;
        }
        proof {
            let o = *old(self);
            assert(self.buffer@ =~= o.final_text());
            let sl = self.current_block_start_line as int;
            if sl < o.lines@.len() {
                let ol = o.lines@[sl];
                let nl = self.lines@[sl];
                assert(nl.start == ol.start);
                if sl < o.lines@.len() - 1 {
                    assert(nl == ol);
                } else if o.pending_cr {
                    assert(nl.end == o.buffer@.len());
                }
                assert(self.buffer@.subrange(nl.start as int, nl.end as int) =~= o.buffer@.subrange(
                    ol.start as int,
                    ol.end as int,
                ));
            } else if sl < self.lines@.len() {
                assert(self.lines@[sl].start > o.buffer@.len());
            }
        }
        let ghost c0 = self.committed@;
        let ghost x0 = self.usage_view();
        proof {
            assert(update.committed@ =~= Seq::<Block>::empty());
            assert(update.invalidated@ =~= Seq::<BlockId>::empty());
            crate::stream::split::lemma_inv_grew_refl(x0, update.invalidated@, update.committed@, crate::stream::split::invalidation_on(self.opts));
        }
        if self.opts.footnotes == FootnotesMode::SingleBlock && self.footnotes_detected {
            let n = self.buffer.len();
            let done = match self.finalized_len {
                Some(f) => f == n,
                None => false,
            };
            if n > 0 && !done {
                if is_blank(self.buffer.as_slice()) {
                    assert(self.committed@ + update.committed@ =~= self.committed@);
                    proof {
                    crate::stream::split::lemma_inv_grew_whole(x0, self.usage_view(), update.invalidated@, update.committed@, crate::stream::split::invalidation_on(self.opts));
                }
                return update;
                }
                let raw = string_of(self.buffer.as_slice());
                let block = Block {
                    id: BlockId(1),
                    status: BlockStatus::Committed,
                    kind: BlockKind::Unknown,
                    raw,
                    display: None,
                };
                self.push_committed_block(block, &mut update);
                self.finalized_len = Some(n);
                assert(self.committed@ =~= c0 + update.committed@);
            } else {
                assert(self.committed@ + update.committed@ =~= self.committed@);
                if n == 0 {
                    proof {
                        assert(self.buffer@ =~= Seq::<u8>::empty());
                        assert(decode_utf8(self.buffer@).len() == 0);
                    }
                }
            }
            proof {
                    crate::stream::split::lemma_inv_grew_whole(x0, self.usage_view(), update.invalidated@, update.committed@, crate::stream::split::invalidation_on(self.opts));
                }
                return update;
        }
        if self.current_block_start_line < self.lines.len() {
            let end_line = self.lines.len() - 1;
            proof {
                self.lemma_wf_line(self.current_block_start_line as int);
            }
            let start_off = self.lines[self.current_block_start_line].start;
            let end_off = self.buffer.len();
            if end_off > start_off {
                proof {
                    lemma_valid_slice(self.buffer@, start_off as int, end_off as int);
                }
                let raw_bytes = slice(self.buffer.as_slice(), start_off, end_off);
                if is_blank(raw_bytes) {
                    assert(self.committed@ + update.committed@ =~= self.committed@);
                    proof {
                    crate::stream::split::lemma_inv_grew_whole(x0, self.usage_view(), update.invalidated@, update.committed@, crate::stream::split::invalidation_on(self.opts));
                }
                return update;
                }
                let raw = string_of(raw_bytes);
                let unknown = match self.current_mode {
                    BlockMode::Unknown => true,
                    _ => false,
                };
                if unknown {
                    let first = self.line_of(self.current_block_start_line);
                    self.current_mode = self.start_mode_for_line(first);
                }
                let block = Block {
                    id: self.current_block_id,
                    status: BlockStatus::Committed,
                    kind: crate::stream::split::kind_for_mode(&self.current_mode),
                    raw,
                    display: None,
                };
                proof {
                    let c = self.committed@;
                    let nb = c.push(block);
                    assert forall|i: int, j: int| 0 <= i < j < nb.len() implies nb[i].id.0 <= nb[j].id.0 by {
                        assert(nb[i] == c[i]);
                        if j < c.len() {
                            assert(nb[j] == c[j]);
                        }
                    }
                    assert forall|i: int| 0 <= i < nb.len() implies #[trigger] nb[i].id.0 <= self.current_block_id.0 by {
                        if i < c.len() {
                            assert(nb[i] == c[i]);
                        }
                    }
                }
                self.push_committed_block(block, &mut update);
                self.current_block_start_line = end_line + 1;
                assert(self.committed@ =~= c0 + update.committed@);
                proof {
                    crate::stream::split::lemma_inv_grew_whole(x0, self.usage_view(), update.invalidated@, update.committed@, crate::stream::split::invalidation_on(self.opts));
                }
                return update;
            }
        }
        assert(self.committed@ + update.committed@ =~= self.committed@);
        proof {
            crate::stream::split::lemma_inv_grew_whole(x0, self.usage_view(), update.invalidated@, update.committed@, crate::stream::split::invalidation_on(self.opts));
        }
        update
    }

    /// Forget everything: the stream is as new, with its options, transformers and plugins
    /// (which are reset too).
    pub fn reset(&mut self)
        requires
            old(self).wf(),
        ensures
            final(self).wf(),
            final(self).fresh(),
            final(self).options() == old(self).options(),
            final(self).plugin_count() == old(self).plugin_count(),
            final(self).transformer_count() == old(self).transformer_count(),
            final(self).transformers_view() == old(self).transformers_view(),
    {
        let mut k: usize = 0;
        let ghost nt = self.pending_transformers@.len();
        while k < self.pending_transformers.len()
            invariant
                k <= self.pending_transformers@.len(),
                self.pending_transformers@.len() == nt,
                self.pending_transformers@ == old(self).pending_transformers@,
                self.opts == old(self).opts,
            decreases self.pending_transformers@.len() - k,
        {
            self.pending_transformers[k].reset();
            k += 1;
        }
        let mut k: usize = 0;
        let ghost np = self.boundary_plugins@.len();
        while k < self.boundary_plugins.len()
            invariant
                k <= self.boundary_plugins@.len(),
                self.boundary_plugins@.len() == np,
                self.pending_transformers@.len() == nt,
                self.pending_transformers@ == old(self).pending_transformers@,
                self.opts == old(self).opts,
            decreases self.boundary_plugins@.len() - k,
        {
            self.boundary_plugins[k].reset();
            k += 1;
        }
        self.buffer.clear();
        self.lines.clear();
        self.lines.push(Line { start: 0, end: 0, has_newline: false });
        self.committed.clear();
        self.processed_line = 0;
        self.current_block_start_line = 0;
        self.current_block_id = BlockId(1);
        self.next_block_id = 2;
        self.current_mode = BlockMode::Unknown;
        self.pending_display_cache = None;
        self.active_boundary_plugin = None;
        self.footnotes_detected = false;
        self.footnote_scan_tail.clear();
        self.pending_cr = false;
        self.reference_usage_index.clear();
        self.finalized_len = None;
        proof {
            assert(self.buffer@ =~= Seq::<u8>::empty());
            crate::stream::lines::lemma_empty_ok(self.lines@);
            assert(crate::stream::split::index_pairs(self.reference_usage_index@) =~= Set::<(Seq<char>, u64)>::empty());
        }
    }
}


impl MdStream {
    /// Like `append`, but the committed blocks and the pending text are borrowed from the stream
    /// instead of copied.
    pub fn append_ref(&mut self, chunk: &str) -> (r: UpdateRef<'_>)
        requires
            old(self).wf(),
        ensures
            final(self).wf(),
            committed_step(old(self).committed_view(), final(self).committed_view(), r.reset, r.committed@),
            forall|i: int| 0 <= i < r.committed@.len() ==> committed_ok(#[trigger] r.committed@[i]),
            match final(self).pending_start() {
                None => r.pending is None,
                Some(k) => r.pending matches Some(p) && encode_utf8(p.raw@)
                    == final(self).buffer_view().subrange(k, final(self).buffer_view().len() as int)
                    && p.display is Some,
            },
            (chunk@.len() > 0 || old(self).pending_cr_view()) ==> crate::stream::split::plugin_append(
                *old(self),
                old(self).buffer_view() + spec_normalize(old(self).pending_cr_view(), chunk.spec_bytes()).0,
                final(self).single_block_mode(),
                crate::stream::split::blocks_v(r.committed@),
            ),
            (chunk@.len() > 0 || old(self).pending_cr_view()) && old(self).plugin_count() == 0 && !(old(
                self,
            ).cursor().mode is CustomBoundary) ==> crate::stream::split::blocks_v(r.committed@)
                == append_commits(
                old(self).buffer_view() + spec_normalize(
                    old(self).pending_cr_view(),
                    chunk.spec_bytes(),
                ).0,
                old(self).cursor(),
                old(self).processed_view(),
                final(self).single_block_mode(),
            ),
            is_suffix(
                final(self).buffer_view(),
                old(self).buffer_view() + spec_normalize(
                    old(self).pending_cr_view(),
                    chunk.spec_bytes(),
                ).0,
            ),
            final(self).pending_cr_view() == spec_normalize(
                old(self).pending_cr_view(),
                chunk.spec_bytes(),
            ).1,
            final(self).options() == old(self).options(),
            final(self).usage_view() == crate::stream::split::usage_after(old(self).usage_view(), r.committed@),
            crate::stream::split::id_set(r.invalidated@) == crate::stream::split::invalidated_after(
                old(self).usage_view(),
                r.committed@,
                crate::stream::split::invalidation_on(old(self).options()),
            ),
            chunk@.len() == 0 && !old(self).pending_cr_view() ==> !r.reset && r.committed@.len() == 0
                && final(self).buffer_view() == old(self).buffer_view(),
            (chunk@.len() > 0 || old(self).pending_cr_view()) ==> ({
                let norm = spec_normalize(old(self).pending_cr_view(), chunk.spec_bytes()).0;
                &&& r.reset == (footnote_found(*old(self), norm) && old(self).options().footnotes
                    == FootnotesMode::SingleBlock && old(self).committed_view().len() > 0)
                &&& final(self).footnotes_seen() == (old(self).footnotes_seen() || footnote_found(
                    *old(self),
                    norm,
                ))
                &&& final(self).footnote_tail() == footnote_tail_after(*old(self), norm)
            }),
            final(self).single_block_mode() == (final(self).options().footnotes == FootnotesMode::SingleBlock
                && final(self).footnotes_seen()),
            (chunk@.len() > 0 || old(self).pending_cr_view()) && old(self).plugin_count() == 0 && !(old(
                self,
            ).cursor().mode is CustomBoundary) && old(self).options().max_buffer_bytes is None ==> ({
                let buf = old(self).buffer_view() + spec_normalize(
                    old(self).pending_cr_view(),
                    chunk.spec_bytes(),
                ).0;
                &&& final(self).buffer_view() == buf
                &&& final(self).cursor() == append_cursor(
                    buf,
                    old(self).cursor(),
                    old(self).processed_view(),
                    final(self).single_block_mode(),
                )
                &&& final(self).processed_view() == append_processed(buf, old(self).processed_view())
            }),
            (chunk@.len() > 0 || old(self).pending_cr_view()) && old(self).plugin_count() == 0 && !(old(
                self,
            ).cursor().mode is CustomBoundary) ==> ({
                let buf = old(self).buffer_view() + spec_normalize(
                    old(self).pending_cr_view(),
                    chunk.spec_bytes(),
                ).0;
                let c1 = append_cursor(buf, old(self).cursor(), old(self).processed_view(), final(self).single_block_mode());
                &&& final(self).buffer_view() == compacted(
                    buf,
                    c1.start,
                    old(self).options().max_buffer_bytes,
                    final(self).single_block_mode(),
                )
                &&& final(self).cursor().mode == c1.mode
                &&& final(self).cursor().id == c1.id
            }),
    {
        let u = self.append(chunk);
        let reset = u.reset;
        let invalidated = u.invalidated;
        let n = u.committed.len();
        let total = self.committed.len();
        let head = match &u.pending {
            Some(p) => Some((p.id, p.kind)),
            None => None,
        };
        self.pending_display_cache = match u.pending {
            Some(p) => p.display,
            None => None,
        };
        let start = self.pending_start_exec();
        let this: &MdStream = self;
        let committed = vstd::slice::slice_subrange(this.committed.as_slice(), total - n, total);
        proof {
            assert(committed@ =~= u.committed@);
        }
        let pending = match (head, start) {
            (Some((id, kind)), Some(off)) => {
                let bl = this.buffer.len();
                proof {
                    lemma_valid_slice(this.buffer@, off as int, bl as int);
                }
                let rb = slice(this.buffer.as_slice(), off, bl);
                let raw = crate::text::as_str(rb);
                proof {
                    crate::text::lemma_roundtrip(rb@);
                }
                let display = match &this.pending_display_cache {
                    Some(d) => Some(d.as_str()),
                    None => None,
                };
                Some(PendingBlockRef { id, kind, raw, display })
            },
            _ => None,
        };
        UpdateRef { committed, pending, reset, invalidated }
    }
}

} // verus!
