//! Block splitting: block modes, boundaries and commits.
use vstd::prelude::*;
use vstd::utf8::*;
use crate::boundary::{BoundaryPlugin, BoundaryUpdate, PluginEntry};
use crate::options::ReferenceDefinitionsMode;
use crate::reference::{extract_reference_definition_label, reference_usages_in_order};
use crate::stream::classify::{
    count_double_dollars, dollars_from, fence_end, fence_start, is_blockquote_start, is_empty_line,
    is_footnote_continuation, is_footnote_definition_start, is_heading, is_list_continuation,
    is_list_item_start, is_table_delimiter, is_thematic_break, setext_underline_char,
    spec_blockquote_start, spec_fence_start, spec_footnote_continuation,
    spec_footnote_definition_start, spec_heading, spec_list_continuation, spec_list_item_start,
    spec_fence_end, spec_setext_underline, spec_table_delimiter, spec_thematic_break,
};
use crate::stream::html::{html_block_start, html_scan, html_state_bytes, spec_html_block_start};
use crate::stream::lines::{end_nl, end_with_newline, lemma_span_valid, line_bytes, line_ok, lines_ok, Line};
use crate::stream::{mode_view, BlockMode, MdStream, ModeView, RefUsage};
use crate::text::{
    as_str, bytes_blank, bytes_trim, bytes_trim_start, contains_byte, contains_pat, is_blank,
    lemma_valid_slice, matches_at, run_len, run_len_exec, slice, starts_with, string_of, trim,
    trim_start,
};
use crate::types::{Block, BlockId, BlockKind, BlockStatus, Update};

verus! {

/// The kind of block that a mode accumulates.
pub open spec fn mode_kind(m: BlockMode) -> BlockKind {
    match m {
        BlockMode::Paragraph => BlockKind::Paragraph,
        BlockMode::Heading => BlockKind::Heading,
        BlockMode::ThematicBreak => BlockKind::ThematicBreak,
        BlockMode::CodeFence { .. } => BlockKind::CodeFence,
        BlockMode::CustomBoundary { .. } => BlockKind::Unknown,
        BlockMode::List => BlockKind::List,
        BlockMode::BlockQuote => BlockKind::BlockQuote,
        BlockMode::HtmlBlock { .. } => BlockKind::HtmlBlock,
        BlockMode::Table => BlockKind::Table,
        BlockMode::MathBlock { .. } => BlockKind::MathBlock,
        BlockMode::FootnoteDefinition => BlockKind::FootnoteDefinition,
        BlockMode::Unknown => BlockKind::Unknown,
    }
}

pub fn kind_for_mode(m: &BlockMode) -> (r: BlockKind)
    ensures
        r == mode_kind(*m),
{
    match m {
        BlockMode::Paragraph => BlockKind::Paragraph,
        BlockMode::Heading => BlockKind::Heading,
        BlockMode::ThematicBreak => BlockKind::ThematicBreak,
        BlockMode::CodeFence { .. } => BlockKind::CodeFence,
        BlockMode::CustomBoundary { .. } => BlockKind::Unknown,
        BlockMode::List => BlockKind::List,
        BlockMode::BlockQuote => BlockKind::BlockQuote,
        BlockMode::HtmlBlock { .. } => BlockKind::HtmlBlock,
        BlockMode::Table => BlockKind::Table,
        BlockMode::MathBlock { .. } => BlockKind::MathBlock,
        BlockMode::FootnoteDefinition => BlockKind::FootnoteDefinition,
        BlockMode::Unknown => BlockKind::Unknown,
    }
}

/// The kind of block a line starts, when no boundary plugin claims it.
pub open spec fn spec_start_kind(line: Seq<u8>) -> BlockKind {
    if spec_heading(line) {
        BlockKind::Heading
    } else if spec_thematic_break(line) is Some {
        BlockKind::ThematicBreak
    } else if spec_fence_start(line) is Some {
        BlockKind::CodeFence
    } else if spec_footnote_definition_start(line) {
        BlockKind::FootnoteDefinition
    } else if spec_blockquote_start(line) {
        BlockKind::BlockQuote
    } else if spec_list_item_start(line) {
        BlockKind::List
    } else if spec_html_block_start(line) {
        BlockKind::HtmlBlock
    } else if dollars_from(line, 0) % 2 == 1 && matches_at(
        bytes_trim_start(line),
        0,
        seq![36u8, 36u8],
    ) {
        BlockKind::MathBlock
    } else {
        BlockKind::Paragraph
    }
}

/// The mode a block starting at `line` gets, when no boundary plugin claims it.
pub open spec fn spec_start_mode(line: Seq<u8>) -> ModeView {
    if spec_heading(line) {
        ModeView::Heading
    } else if spec_thematic_break(line) is Some {
        ModeView::ThematicBreak
    } else if spec_fence_start(line) is Some {
        let ch = spec_fence_start(line).unwrap().0;
        let s = bytes_trim_start(line);
        let info = bytes_trim(s.subrange(run_len(s, ch, 0), s.len() as int));
        ModeView::CodeFence {
            fence_char: ch,
            fence_len: spec_fence_start(line).unwrap().1 as usize,
            info: if info.len() == 0 {
                None
            } else {
                Some(info)
            },
        }
    } else if spec_footnote_definition_start(line) {
        ModeView::FootnoteDefinition
    } else if spec_blockquote_start(line) {
        ModeView::BlockQuote
    } else if spec_list_item_start(line) {
        ModeView::List
    } else if spec_html_block_start(line) {
        ModeView::HtmlBlock { stack: Seq::empty(), in_comment: false }
    } else if dollars_from(line, 0) % 2 == 1 && matches_at(
        bytes_trim_start(line),
        0,
        seq![36u8, 36u8],
    ) {
        ModeView::MathBlock { open_count: 0 }
    } else {
        ModeView::Paragraph
    }
}

/// A block takes the kind of the line that starts it: the mode it is accumulated in has that
/// kind, and the kinds follow the line classes in order (an ATX heading, then a thematic break,
/// then a fence opening, a footnote definition, a block quote, a list item, an HTML block, a
/// display-math opening, and otherwise a paragraph).
pub proof fn law_block_kind_of_first_line(line: Seq<u8>)
    ensures
        view_kind(spec_start_mode(line)) == spec_start_kind(line),
        spec_heading(line) ==> spec_start_kind(line) == BlockKind::Heading,
        !spec_heading(line) && spec_thematic_break(line) is Some ==> spec_start_kind(line)
            == BlockKind::ThematicBreak,
        !spec_heading(line) && spec_thematic_break(line) is None && spec_fence_start(line) is Some
            ==> spec_start_kind(line) == BlockKind::CodeFence,
        !spec_heading(line) && spec_thematic_break(line) is None && spec_fence_start(line) is None
            && !spec_footnote_definition_start(line) && spec_blockquote_start(line) ==> spec_start_kind(line)
            == BlockKind::BlockQuote,
        !spec_heading(line) && spec_thematic_break(line) is None && spec_fence_start(line) is None
            && !spec_footnote_definition_start(line) && !spec_blockquote_start(line)
            && spec_list_item_start(line) ==> spec_start_kind(line) == BlockKind::List,
        view_kind(ModeView::Paragraph) == BlockKind::Paragraph,
        view_kind(ModeView::Table) == BlockKind::Table,
        view_kind(ModeView::List) == BlockKind::List,
        view_kind(ModeView::BlockQuote) == BlockKind::BlockQuote,
        view_kind(ModeView::Heading) == BlockKind::Heading,
{
}

/// The splitter's position: the line where the block in progress starts, its mode and its id.
pub struct Cursor {
    pub start: int,
    pub mode: ModeView,
    pub id: u64,
}

/// A committed block as (id, kind, raw bytes).
pub open spec fn block_v(b: Block) -> (u64, BlockKind, Seq<u8>) {
    (b.id.0, b.kind, encode_utf8(b.raw@))
}

pub open spec fn blocks_v(bs: Seq<Block>) -> Seq<(u64, BlockKind, Seq<u8>)> {
    bs.map_values(|b: Block| block_v(b))
}

/// The id after `id`; the last ids stay put once they run out.
pub open spec fn next_id(id: u64) -> u64 {
    if id < u64::MAX - 1 {
        (id + 1) as u64
    } else {
        id
    }
}

pub open spec fn line_text(buf: Seq<u8>, lines: Seq<Line>, i: int) -> Seq<u8> {
    buf.subrange(lines[i].start as int, lines[i].end as int)
}

/// The cursor moved past line `e`: a new block, mode not yet known.
pub open spec fn advance_cursor(c: Cursor, e: int) -> Cursor {
    Cursor { start: e + 1, mode: ModeView::Unknown, id: next_id(c.id) }
}

/// Committing the block in progress through line `e`: its text (line feeds included) is
/// emitted unless blank, and the cursor moves past `e`; nothing happens when there is no such
/// span.
#[verifier::opaque]
pub open spec fn commit_view(
    buf: Seq<u8>,
    lines: Seq<Line>,
    st: (Cursor, Seq<(u64, BlockKind, Seq<u8>)>),
    e: int,
) -> (Cursor, Seq<(u64, BlockKind, Seq<u8>)>) {
    let c = st.0;
    if c.start < 0 || c.start >= lines.len() || e < c.start || e >= lines.len() {
        st
    } else {
        let so = lines[c.start].start as int;
        let eo = end_nl(lines[e]);
        if eo <= so {
            st
        } else if bytes_blank(buf.subrange(so, eo)) {
            (advance_cursor(c, e), st.1)
        } else {
            (advance_cursor(c, e), st.1.push((c.id, view_kind(c.mode), buf.subrange(so, eo))))
        }
    }
}

/// The kind of block a mode accumulates.
pub open spec fn view_kind(m: ModeView) -> BlockKind {
    match m {
        ModeView::Paragraph => BlockKind::Paragraph,
        ModeView::Heading => BlockKind::Heading,
        ModeView::ThematicBreak => BlockKind::ThematicBreak,
        ModeView::CodeFence { .. } => BlockKind::CodeFence,
        ModeView::CustomBoundary { .. } => BlockKind::Unknown,
        ModeView::List => BlockKind::List,
        ModeView::BlockQuote => BlockKind::BlockQuote,
        ModeView::HtmlBlock { .. } => BlockKind::HtmlBlock,
        ModeView::Table => BlockKind::Table,
        ModeView::MathBlock { .. } => BlockKind::MathBlock,
        ModeView::FootnoteDefinition => BlockKind::FootnoteDefinition,
        ModeView::Unknown => BlockKind::Unknown,
    }
}

/// A heading or thematic break ends with its line.
#[verifier::opaque]
pub open spec fn single_line_view(
    buf: Seq<u8>,
    lines: Seq<Line>,
    st: (Cursor, Seq<(u64, BlockKind, Seq<u8>)>),
    i: int,
) -> (Cursor, Seq<(u64, BlockKind, Seq<u8>)>) {
    if st.0.mode is Heading || st.0.mode is ThematicBreak {
        commit_view(buf, lines, st, i)
    } else {
        st
    }
}

pub open spec fn with_mode(
    st: (Cursor, Seq<(u64, BlockKind, Seq<u8>)>),
    m: ModeView,
) -> (Cursor, Seq<(u64, BlockKind, Seq<u8>)>) {
    (Cursor { start: st.0.start, mode: m, id: st.0.id }, st.1)
}

/// How line `i` moves the block in progress on, by its mode: an unknown mode is set from the
/// line; a code fence ends at its closing line; a math block at balanced `$$`; a paragraph
/// becomes a setext heading (and ends) or a table; an HTML block ends once its tags close.
/// Boundary-plugin blocks are left to their plugin.
#[verifier::opaque]
pub open spec fn update_view(
    buf: Seq<u8>,
    lines: Seq<Line>,
    st: (Cursor, Seq<(u64, BlockKind, Seq<u8>)>),
    i: int,
) -> (Cursor, Seq<(u64, BlockKind, Seq<u8>)>) {
    let c = st.0;
    let line = line_text(buf, lines, i);
    match c.mode {
        ModeView::Unknown => single_line_view(buf, lines, with_mode(st, spec_start_mode(line)), i),
        ModeView::CodeFence { fence_char, fence_len, .. } => if i > c.start && spec_fence_end(
            line,
            fence_char,
            fence_len as int,
        ) {
            commit_view(buf, lines, st, i)
        } else {
            st
        },
        ModeView::MathBlock { open_count } => {
            let p = ((open_count % 2 + dollars_from(line, 0) % 2) % 2) as usize;
            let st1 = with_mode(st, ModeView::MathBlock { open_count: p });
            if p == 0 {
                commit_view(buf, lines, st1, i)
            } else {
                st1
            }
        },
        ModeView::Paragraph => if spec_setext_underline(line) is Some && c.start < usize::MAX
            && c.start + 1 == i && i > 0 && !bytes_blank(line_text(buf, lines, i - 1)) {
            commit_view(buf, lines, with_mode(st, ModeView::Heading), i)
        } else if spec_table_delimiter(line) && i > 0 && line_text(buf, lines, i - 1).contains(
            124u8,
        ) {
            with_mode(st, ModeView::Table)
        } else {
            st
        },
        ModeView::HtmlBlock { stack, in_comment } => {
            let h = html_scan(line, 0, stack, in_comment);
            let st1 = with_mode(st, ModeView::HtmlBlock { stack: h.0, in_comment: h.1 });
            if !h.1 && h.0.len() == 0 {
                commit_view(buf, lines, st1, i)
            } else {
                st1
            }
        },
        _ => st,
    }
}

/// How a complete line `i` moves the splitter on: the first line of a block sets its mode
/// (and a heading or thematic break ends at once); a later line that starts a new block ends the
/// one in progress at the previous line and starts the next; any line then updates the mode.
/// In single-block footnote mode nothing is split.
#[verifier::opaque]
pub open spec fn process_view(
    buf: Seq<u8>,
    lines: Seq<Line>,
    st: (Cursor, Seq<(u64, BlockKind, Seq<u8>)>),
    i: int,
    single: bool,
) -> (Cursor, Seq<(u64, BlockKind, Seq<u8>)>) {
    if !lines[i].has_newline || single {
        st
    } else if i == st.0.start || i == 0 {
        let st1 = with_mode(st, spec_start_mode(line_text(buf, lines, i)));
        update_view(buf, lines, single_line_view(buf, lines, st1, i), i)
    } else if spec_boundary(
        st.0.mode,
        line_text(buf, lines, i - 1),
        line_text(buf, lines, i),
        st.0.start,
        i,
        false,
    ) {
        let st1 = commit_view(buf, lines, st, i - 1);
        let st2 = with_mode(st1, spec_start_mode(line_text(buf, lines, i)));
        update_view(buf, lines, single_line_view(buf, lines, st2, i), i)
    } else {
        update_view(buf, lines, st, i)
    }
}

/// With the last line still open after a complete line, the open line may already show that a
/// new block starts: the block in progress then ends at the complete line, and the open line
/// sets the mode of the next one (a list keeps going while the open line may become an item).
#[verifier::opaque]
pub open spec fn tail_view(
    buf: Seq<u8>,
    lines: Seq<Line>,
    st: (Cursor, Seq<(u64, BlockKind, Seq<u8>)>),
    single: bool,
) -> (Cursor, Seq<(u64, BlockKind, Seq<u8>)>) {
    let n = lines.len();
    if n < 2 || lines[n - 1].has_newline || !lines[n - 2].has_newline || single {
        st
    } else if st.0.mode is List && crate::stream::classify::spec_list_item_prefix(
        line_text(buf, lines, n - 1),
    ) {
        st
    } else if spec_boundary(
        st.0.mode,
        line_text(buf, lines, n - 2),
        line_text(buf, lines, n - 1),
        st.0.start,
        n - 1,
        false,
    ) {
        with_mode(commit_view(buf, lines, st, n - 2), spec_start_mode(line_text(buf, lines, n - 1)))
    } else {
        st
    }
}

/// Processing complete lines `from..to` one after the other.
pub open spec fn run_view(
    buf: Seq<u8>,
    lines: Seq<Line>,
    st: (Cursor, Seq<(u64, BlockKind, Seq<u8>)>),
    from: int,
    to: int,
    single: bool,
) -> (Cursor, Seq<(u64, BlockKind, Seq<u8>)>)
    decreases to - from,
{
    if to <= from {
        st
    } else {
        process_view(buf, lines, run_view(buf, lines, st, from, to - 1, single), to - 1, single)
    }
}

pub proof fn lemma_view_kind(m: BlockMode)
    ensures
        view_kind(mode_view(m)) == mode_kind(m),
{
}

/// A committed block as the stream emits it.
pub open spec fn committed_ok(b: Block) -> bool {
    &&& b.status == BlockStatus::Committed
    &&& b.display is None
    &&& !crate::text::all_whitespace(b.raw@)
}

/// `c1` is `c0` with the blocks that `u1` has beyond `u0` appended.
pub open spec fn grew_together(c0: Seq<Block>, c1: Seq<Block>, u0: Seq<Block>, u1: Seq<Block>) -> bool {
    &&& u1.len() >= u0.len()
    &&& u1.subrange(0, u0.len() as int) == u0
    &&& c1 == c0 + u1.subrange(u0.len() as int, u1.len() as int)
    &&& forall|i: int| u0.len() <= i < u1.len() ==> committed_ok(#[trigger] u1[i])
}

pub proof fn lemma_grew_refl(c: Seq<Block>, u: Seq<Block>)
    ensures
        grew_together(c, c, u, u),
{
    assert(u.subrange(0, u.len() as int) =~= u);
    assert(c + u.subrange(u.len() as int, u.len() as int) =~= c);
}

pub proof fn lemma_grew_push(c: Seq<Block>, u: Seq<Block>, b: Block)
    requires
        committed_ok(b),
    ensures
        grew_together(c, c.push(b), u, u.push(b)),
{
    assert(u.push(b).subrange(0, u.len() as int) =~= u);
    assert(c.push(b) =~= c + u.push(b).subrange(u.len() as int, u.len() + 1 as int));
}

pub proof fn lemma_grew_trans(
    c0: Seq<Block>,
    c1: Seq<Block>,
    c2: Seq<Block>,
    u0: Seq<Block>,
    u1: Seq<Block>,
    u2: Seq<Block>,
)
    requires
        grew_together(c0, c1, u0, u1),
        grew_together(c1, c2, u1, u2),
    ensures
        grew_together(c0, c2, u0, u2),
{
    assert(u2.subrange(0, u0.len() as int) =~= u1.subrange(0, u0.len() as int));
    assert(c2 =~= c0 + u2.subrange(u0.len() as int, u2.len() as int));
    assert forall|i: int| u0.len() <= i < u2.len() implies committed_ok(#[trigger] u2[i]) by {
        if i < u1.len() {
            assert(u2.subrange(0, u1.len() as int)[i] == u2[i]);
        }
    }
}

/// The (label, block id) pairs recorded in a reference usage index.
pub open spec fn index_pairs(idx: Seq<RefUsage>) -> Set<(Seq<char>, u64)> {
    Set::new(
        |p: (Seq<char>, u64)|
            exists|i: int, j: int|
                0 <= i < idx.len() && 0 <= j < idx[i].ids@.len() && idx[i].label@ == p.0
                    && #[trigger] idx[i].ids@[j].0 == p.1,
    )
}

/// The block ids, other than `except`, recorded for one of `labels`.
pub open spec fn users_of(usage: Set<(Seq<char>, u64)>, labels: Set<Seq<char>>, except: u64) -> Set<u64> {
    Set::new(|b: u64| b != except && exists|l: Seq<char>| labels.contains(l) && #[trigger] usage.contains((l, b)))
}

/// The ids of a list of block ids.
pub open spec fn id_set(v: Seq<BlockId>) -> Set<u64> {
    Set::new(|b: u64| exists|i: int| 0 <= i < v.len() && #[trigger] v[i].0 == b)
}

/// The label defined on a line, as a set of at most one label.
pub open spec fn label_set(line: Seq<u8>) -> Set<Seq<char>> {
    match crate::reference::spec_definition_label(line) {
        Some(l) => set![l],
        None => Set::empty(),
    }
}

/// The labels defined on the lines of `raw` from byte `from` on (lines split at line feeds).
pub open spec fn def_labels_from(raw: Seq<u8>, from: int) -> Set<Seq<char>>
    decreases raw.len() - from,
{
    if from < 0 || from > raw.len() {
        Set::empty()
    } else {
        match crate::text::find_byte(raw, 10, from) {
            Some(i) => if i < from || i >= raw.len() {
                Set::empty()
            } else {
                label_set(raw.subrange(from, i)).union(def_labels_from(raw, i + 1))
            },
            None => label_set(raw.subrange(from, raw.len() as int)),
        }
    }
}

/// The usage index after a committed block: outside code fences, each label its text uses
/// (`[text][label]`, `[label][]`, `[label]`) is recorded with the block's id.
pub open spec fn usages_added(usage: Set<(Seq<char>, u64)>, b: Block) -> Set<(Seq<char>, u64)> {
    let raw = encode_utf8(b.raw@);
    if b.kind != BlockKind::CodeFence && raw.contains(91u8) {
        usage.union(
            Set::new(
                |p: (Seq<char>, u64)| p.1 == b.id.0 && crate::reference::usage_scan(raw, 0).contains(p.0),
            ),
        )
    } else {
        usage
    }
}

/// The blocks a committed block invalidates, given the usage index once it is recorded: when
/// invalidation is on and the block (not a code fence) holds `]:`, every other block recorded
/// for a label that one of its lines defines.
pub open spec fn invalidated_by(usage: Set<(Seq<char>, u64)>, b: Block, invalidate: bool) -> Set<u64> {
    let raw = encode_utf8(b.raw@);
    if invalidate && b.kind != BlockKind::CodeFence && crate::text::find_from(raw, seq![93u8, 58u8], 0) is Some {
        users_of(usage, def_labels_from(raw, 0), b.id.0)
    } else {
        Set::empty()
    }
}

/// Invalidation of earlier blocks by late reference definitions is on.
pub open spec fn invalidation_on(o: crate::options::Options) -> bool {
    o.reference_definitions == ReferenceDefinitionsMode::Invalidate
}

/// The usage index after committing `bs` in order.
pub open spec fn usage_after(usage: Set<(Seq<char>, u64)>, bs: Seq<Block>) -> Set<(Seq<char>, u64)>
    decreases bs.len(),
{
    if bs.len() == 0 {
        usage
    } else {
        usages_added(usage_after(usage, bs.drop_last()), bs.last())
    }
}

/// The blocks invalidated while committing `bs` in order.
pub open spec fn invalidated_after(usage: Set<(Seq<char>, u64)>, bs: Seq<Block>, on: bool) -> Set<u64>
    decreases bs.len(),
{
    if bs.len() == 0 {
        Set::empty()
    } else {
        invalidated_after(usage, bs.drop_last(), on).union(
            invalidated_by(usage_after(usage, bs), bs.last(), on),
        )
    }
}

/// An update grew from (`i0`, `u0`) to (`i1`, `u1`) while the usage index went from `x0` to
/// `x1`: the index records the new blocks' usages and the new invalidations are theirs.
pub open spec fn inv_grew(
    x0: Set<(Seq<char>, u64)>,
    i0: Seq<BlockId>,
    u0: Seq<Block>,
    x1: Set<(Seq<char>, u64)>,
    i1: Seq<BlockId>,
    u1: Seq<Block>,
    on: bool,
) -> bool {
    &&& u0.len() <= u1.len()
    &&& i0.len() <= i1.len()
    &&& i1.subrange(0, i0.len() as int) == i0
    &&& x1 == usage_after(x0, u1.subrange(u0.len() as int, u1.len() as int))
    &&& id_set(i1.subrange(i0.len() as int, i1.len() as int)) == invalidated_after(
        x0,
        u1.subrange(u0.len() as int, u1.len() as int),
        on,
    )
}

pub proof fn lemma_after_concat(x: Set<(Seq<char>, u64)>, a: Seq<Block>, b: Seq<Block>, on: bool)
    ensures
        usage_after(x, a + b) == usage_after(usage_after(x, a), b),
        invalidated_after(x, a + b, on) == invalidated_after(x, a, on).union(
            invalidated_after(usage_after(x, a), b, on),
        ),
    decreases b.len(),
{
    if b.len() == 0 {
        assert(a + b =~= a);
        assert(invalidated_after(x, a, on).union(Set::empty()) =~= invalidated_after(x, a, on));
    } else {
        lemma_after_concat(x, a, b.drop_last(), on);
        assert((a + b).drop_last() =~= a + b.drop_last());
        assert((a + b).last() == b.last());
        assert(invalidated_after(x, a, on).union(invalidated_after(usage_after(x, a), b.drop_last(), on)).union(
            invalidated_by(usage_after(usage_after(x, a), b), b.last(), on),
        ) =~= invalidated_after(x, a, on).union(
            invalidated_after(usage_after(x, a), b.drop_last(), on).union(
                invalidated_by(usage_after(usage_after(x, a), b), b.last(), on),
            ),
        ));
    }
}

proof fn lemma_id_set_concat(a: Seq<BlockId>, b: Seq<BlockId>)
    ensures
        id_set(a + b) == id_set(a).union(id_set(b)),
{
    assert forall|v: u64| id_set(a + b).contains(v) <==> id_set(a).union(id_set(b)).contains(v) by {
        if id_set(a + b).contains(v) {
            let i = choose|i: int| 0 <= i < (a + b).len() && #[trigger] (a + b)[i].0 == v;
            if i < a.len() {
                assert(a[i].0 == v);
            } else {
                assert(b[i - a.len()].0 == v);
            }
        }
        if id_set(a).contains(v) {
            let i = choose|i: int| 0 <= i < a.len() && #[trigger] a[i].0 == v;
            assert((a + b)[i].0 == v);
        }
        if id_set(b).contains(v) {
            let i = choose|i: int| 0 <= i < b.len() && #[trigger] b[i].0 == v;
            assert((a + b)[a.len() + i].0 == v);
        }
    }
    assert(id_set(a + b) =~= id_set(a).union(id_set(b)));
}

pub proof fn lemma_inv_grew_refl(x: Set<(Seq<char>, u64)>, i: Seq<BlockId>, u: Seq<Block>, on: bool)
    ensures
        inv_grew(x, i, u, x, i, u, on),
{
    assert(i.subrange(0, i.len() as int) =~= i);
    assert(u.subrange(u.len() as int, u.len() as int) =~= Seq::<Block>::empty());
    assert(i.subrange(i.len() as int, i.len() as int) =~= Seq::<BlockId>::empty());
    assert(id_set(Seq::<BlockId>::empty()) =~= Set::<u64>::empty());
}

pub proof fn lemma_inv_grew_trans(
    x0: Set<(Seq<char>, u64)>,
    i0: Seq<BlockId>,
    u0: Seq<Block>,
    x1: Set<(Seq<char>, u64)>,
    i1: Seq<BlockId>,
    u1: Seq<Block>,
    x2: Set<(Seq<char>, u64)>,
    i2: Seq<BlockId>,
    u2: Seq<Block>,
    on: bool,
)
    requires
        inv_grew(x0, i0, u0, x1, i1, u1, on),
        inv_grew(x1, i1, u1, x2, i2, u2, on),
        u2.subrange(0, u1.len() as int) == u1,
    ensures
        inv_grew(x0, i0, u0, x2, i2, u2, on),
{
    let a = u1.subrange(u0.len() as int, u1.len() as int);
    let b = u2.subrange(u1.len() as int, u2.len() as int);
    assert(u2.subrange(u0.len() as int, u2.len() as int) =~= a + b) by {
        assert(u2.subrange(0, u1.len() as int) == u1);
        assert forall|k: int| 0 <= k < a.len() implies a[k] == u2[u0.len() + k] by {
            assert(u2.subrange(0, u1.len() as int)[u0.len() + k] == u2[u0.len() + k]);
        }
    }
    lemma_after_concat(x0, a, b, on);
    let ia = i1.subrange(i0.len() as int, i1.len() as int);
    let ib = i2.subrange(i1.len() as int, i2.len() as int);
    assert(i2.subrange(i0.len() as int, i2.len() as int) =~= ia + ib) by {
        assert forall|k: int| 0 <= k < ia.len() implies ia[k] == i2[i0.len() + k] by {
            assert(i2.subrange(0, i1.len() as int)[i0.len() + k] == i2[i0.len() + k]);
        }
    }
    lemma_id_set_concat(ia, ib);
    assert(i2.subrange(0, i0.len() as int) =~= i2.subrange(0, i1.len() as int).subrange(0, i0.len() as int));
}

pub proof fn lemma_inv_grew_whole(
    x0: Set<(Seq<char>, u64)>,
    x1: Set<(Seq<char>, u64)>,
    i1: Seq<BlockId>,
    c1: Seq<Block>,
    on: bool,
)
    requires
        inv_grew(x0, Seq::empty(), Seq::empty(), x1, i1, c1, on),
    ensures
        x1 == usage_after(x0, c1),
        id_set(i1) == invalidated_after(x0, c1, on),
{
    assert(c1.subrange(0, c1.len() as int) =~= c1);
    assert(i1.subrange(0, i1.len() as int) =~= i1);
}

pub proof fn lemma_users_union(usage: Set<(Seq<char>, u64)>, a: Set<Seq<char>>, c: Set<Seq<char>>, except: u64)
    ensures
        users_of(usage, a.union(c), except) == users_of(usage, a, except).union(users_of(usage, c, except)),
{
    assert forall|b: u64| users_of(usage, a.union(c), except).contains(b) <==> users_of(usage, a, except).union(
        users_of(usage, c, except),
    ).contains(b) by {
        if users_of(usage, a.union(c), except).contains(b) {
            let l = choose|l: Seq<char>| a.union(c).contains(l) && #[trigger] usage.contains((l, b));
            if a.contains(l) {
                assert(users_of(usage, a, except).contains(b));
            } else {
                assert(users_of(usage, c, except).contains(b));
            }
        }
        if users_of(usage, a, except).contains(b) {
            let l = choose|l: Seq<char>| a.contains(l) && #[trigger] usage.contains((l, b));
            assert(a.union(c).contains(l));
        }
        if users_of(usage, c, except).contains(b) {
            let l = choose|l: Seq<char>| c.contains(l) && #[trigger] usage.contains((l, b));
            assert(a.union(c).contains(l));
        }
    }
    assert(users_of(usage, a.union(c), except) =~= users_of(usage, a, except).union(users_of(usage, c, except)));
}

/// Insert `id` into a strictly increasing list of ids, keeping it strictly increasing.
pub open spec fn ids_sorted(v: Seq<BlockId>) -> bool {
    forall|i: int, j: int| 0 <= i < j < v.len() ==> v[i].0 < v[j].0
}

fn insert_sorted(v: &mut Vec<BlockId>, id: BlockId)
    requires
        ids_sorted(old(v)@),
    ensures
        ids_sorted(final(v)@),
        final(v)@.to_set() == old(v)@.to_set().insert(id),
{
    let mut k: usize = 0;
    while k < v.len() && v[k].0 < id.0
        invariant
            k <= v@.len(),
            forall|q: int| 0 <= q < k ==> v@[q].0 < id.0,
        decreases v@.len() - k,
    {
        k += 1;
    }
    if k < v.len() && v[k].0 == id.0 {
        assert(v@.to_set().insert(id) =~= v@.to_set()) by {
            assert(v@[k as int] == id);
        }
        return;
    }
    let ghost pre = v@;
    v.insert(k, id);
    assert(v@ == pre.insert(k as int, id));
    assert(ids_sorted(v@)) by {
        assert forall|i: int, j: int| 0 <= i < j < v@.len() implies v@[i].0 < v@[j].0 by {
            if j < k {
            } else if j == k {
            } else if i < k {
                assert(v@[j] == pre[j - 1]);
                if j - 1 > k {
                    assert(pre[k as int].0 < pre[j - 1].0);
                }
            } else if i == k {
                assert(v@[j] == pre[j - 1]);
                if j - 1 > k {
                    assert(pre[k as int].0 < pre[j - 1].0);
                }
            } else {
                assert(v@[i] == pre[i - 1]);
                assert(v@[j] == pre[j - 1]);
            }
        }
    }
    assert(v@.to_set() =~= pre.to_set().insert(id)) by {
        assert forall|x: BlockId| v@.to_set().contains(x) <==> pre.to_set().insert(id).contains(x) by {
            if v@.to_set().contains(x) {
                let i = choose|i: int| 0 <= i < v@.len() && v@[i] == x;
                if i < k {
                    assert(pre[i] == x);
                } else if i > k {
                    assert(pre[i - 1] == x);
                }
            }
            if pre.to_set().contains(x) {
                let i = choose|i: int| 0 <= i < pre.len() && pre[i] == x;
                if i < k {
                    assert(v@[i] == x);
                } else {
                    assert(v@[i + 1] == x);
                }
            }
            if x == id {
                assert(v@[k as int] == x);
            }
        }
    }
}

impl MdStream {
    /// The bytes of line `i`.
    pub(crate) fn line_of(&self, i: usize) -> (r: &[u8])
        requires
            self.wf(),
            i < self.lines_len(),
        ensures
            valid_utf8(r@),
            r@ == self.buffer_view().subrange(
                self.lines_view()[i as int].start as int,
                self.lines_view()[i as int].end as int,
            ),
    {
        proof {
            self.lemma_wf_line(i as int);
        }
        line_bytes(self.buffer.as_slice(), &self.lines[i])
    }

    /// The first boundary plugin that claims the line as a start, asking them in order.
    fn plugin_matching(&self, line: &[u8]) -> (r: Option<usize>)
        requires
            valid_utf8(line@),
        ensures
            r matches Some(k) ==> k < self.plugin_count(),
            self.plugin_count() == 0 ==> r is None,
            r matches Some(k) ==> self.plugin_may_start(k as int, decode_utf8(line@), true),
            forall|j: int|
                0 <= j < (match r {
                    Some(k) => k as int,
                    None => self.plugin_count(),
                }) ==> #[trigger] self.plugin_may_start(j, decode_utf8(line@), false),
    {
        let s = as_str(line);
        let mut k: usize = 0;
        while k < self.boundary_plugins.len()
            invariant
                k <= self.boundary_plugins@.len(),
                s@ == decode_utf8(line@),
                forall|j: int| 0 <= j < k ==> #[trigger] self.plugin_may_start(j, decode_utf8(line@), false),
            decreases self.boundary_plugins@.len() - k,
        {
            if self.boundary_plugins[k].matches_start(s) {
                return Some(k);
            }
            k += 1;
        }
        None
    }

    /// The mode a block starting at `line` gets.
    pub(crate) fn start_mode_for_line(&self, line: &[u8]) -> (r: BlockMode)
        requires
            valid_utf8(line@),
        ensures
            r matches BlockMode::CustomBoundary { plugin_index, started } ==> plugin_index
                < self.plugin_count() && !started,
            !(r is CustomBoundary) ==> mode_kind(r) == spec_start_kind(line@),
            !(r is CustomBoundary) ==> mode_view(r) == spec_start_mode(line@),
            self.plugin_count() == 0 ==> !(r is CustomBoundary),
            r matches BlockMode::CustomBoundary { plugin_index, started } ==> self.plugin_may_start(
                plugin_index as int,
                decode_utf8(line@),
                true,
            ),
            forall|j: int|
                0 <= j < (match r {
                    BlockMode::CustomBoundary { plugin_index, started } => plugin_index as int,
                    _ => self.plugin_count(),
                }) ==> #[trigger] self.plugin_may_start(j, decode_utf8(line@), false),
    {
        if let Some(idx) = self.plugin_matching(line) {
            return BlockMode::CustomBoundary { plugin_index: idx, started: false };
        }
        if is_heading(line) {
            return BlockMode::Heading;
        }
        if is_thematic_break(line) {
            return BlockMode::ThematicBreak;
        }
        if let Some((ch, len)) = fence_start(line) {
            let s = trim_start(line);
            let idx = run_len_exec(s, ch, 0);
            proof {
                crate::text::lemma_run_len(s@, ch, 0);
                if idx > 0 {
                    assert(s@[idx - 1] == ch);
                }
                lemma_valid_slice(s@, idx as int, s@.len() as int);
            }
            let info = trim(slice(s, idx, s.len()));
            let info = if info.len() == 0 {
                None
            } else {
                Some(crate::text::to_vec(info))
            };
            return BlockMode::CodeFence { fence_char: ch, fence_len: len, info };
        }
        if is_footnote_definition_start(line) {
            return BlockMode::FootnoteDefinition;
        }
        if is_blockquote_start(line) {
            return BlockMode::BlockQuote;
        }
        if is_list_item_start(line) {
            return BlockMode::List;
        }
        if html_block_start(line) {
            let stack: Vec<String> = Vec::new();
            assert(crate::stream::html::stack_view(stack@) =~= Seq::<Seq<char>>::empty());
            return BlockMode::HtmlBlock { stack, in_comment: false };
        }
        let dollars = count_double_dollars(line);
        let dd: &[u8] = &[36u8, 36u8];
        assert(dd@ =~= seq![36u8, 36u8]);
        if dollars % 2 == 1 && starts_with(trim_start(line), dd) {
            return BlockMode::MathBlock { open_count: 0 };
        }
        BlockMode::Paragraph
    }

    /// Advance the block cursor past `end_line` with a fresh id.
    fn advance_block(&mut self, end_line: usize)
        requires
            old(self).wf(),
            end_line < old(self).lines_len(),
        ensures
            final(self).plugins_view() == old(self).plugins_view(),
            final(self).wf(),
            final(self).same_text(old(self)),
            final(self).committed_view() == old(self).committed_view(),
            final(self).cursor() == advance_cursor(old(self).cursor(), end_line as int),
            final(self).usage_view() == old(self).usage_view(),
    {
        let n = self.lines.len();
        self.current_block_start_line = end_line + 1;
        if self.next_block_id < u64::MAX {
            self.current_block_id = BlockId(self.next_block_id);
            self.next_block_id = self.next_block_id + 1;
        }
        self.current_mode = BlockMode::Unknown;
        self.active_boundary_plugin = None;
        self.pending_display_cache = None;
    }

    /// Commit lines `current_block_start_line..=end_line` as one block (unless blank).
    pub(crate) fn commit_block(&mut self, end_line: usize, update: &mut Update)
        requires
            old(self).wf(),
            !old(self).single_block_mode(),
        ensures
            final(self).plugins_view() == old(self).plugins_view(),
            final(self).wf(),
            final(self).same_text(old(self)),
            grew_together(
                old(self).committed_view(),
                final(self).committed_view(),
                old(update).committed@,
                final(update).committed@,
            ),
            final(update).reset == old(update).reset,
            final(update).pending == old(update).pending,
            !(old(self).cursor().mode is CustomBoundary) ==> !(final(self).cursor().mode is CustomBoundary),
            (final(self).cursor(), blocks_v(final(update).committed@)) == commit_view(
                old(self).buffer_view(),
                old(self).lines_view(),
                (old(self).cursor(), blocks_v(old(update).committed@)),
                end_line as int,
            ),
            inv_grew(
                old(self).usage_view(),
                old(update).invalidated@,
                old(update).committed@,
                final(self).usage_view(),
                final(update).invalidated@,
                final(update).committed@,
                invalidation_on(old(self).options()),
            ),
    {
        proof {
            lemma_inv_grew_refl(self.usage_view(), update.invalidated@, update.committed@, invalidation_on(self.opts));
        }
        let ghost ix0 = self.usage_view();
        let ghost iv0 = update.invalidated@;
        let ghost ic0 = update.committed@;
        proof {
            reveal(commit_view);
        }
        proof {
            lemma_grew_refl(self.committed@, update.committed@);
        }
        if self.current_block_start_line >= self.lines.len() {
            return;
        }
        if end_line < self.current_block_start_line || end_line >= self.lines.len() {
            return;
        }
        proof {
            self.lemma_wf_line(self.current_block_start_line as int);
            self.lemma_wf_line(end_line as int);
        }
        let start_off = self.lines[self.current_block_start_line].start;
        let end_off = end_with_newline(&self.lines[end_line]);
        if end_off <= start_off {
            return;
        }
        proof {
            lemma_span_valid(
                self.buffer@,
                self.lines@[self.current_block_start_line as int],
                self.lines@[end_line as int],
            );
        }
        let raw_bytes = slice(self.buffer.as_slice(), start_off, end_off);
        if is_blank(raw_bytes) {
            self.advance_block(end_line);
            return;
        }
        let raw = string_of(raw_bytes);
        let block = Block {
            id: self.current_block_id,
            status: BlockStatus::Committed,
            kind: kind_for_mode(&self.current_mode),
            raw,
            display: None,
        };
        let ghost c0 = self.committed@;
        let ghost u0 = update.committed@;
        proof {
            let cur = self.current_block_id.0;
            assert(crate::stream::ids_ok(c0, cur, false));
            let c1 = c0.push(block);
            assert forall|i: int, j: int| 0 <= i < j < c1.len() implies c1[i].id.0 <= c1[j].id.0 by {
                if j < c0.len() {
                    assert(c1[i] == c0[i] && c1[j] == c0[j]);
                } else {
                    assert(c1[i] == c0[i]);
                    assert(c0[i].id.0 <= cur);
                }
            }
            assert forall|i: int| 0 <= i < c1.len() implies #[trigger] c1[i].id.0 <= cur by {
                if i < c0.len() {
                    assert(c1[i] == c0[i]);
                }
            }
            assert(crate::stream::ids_ok(c1, cur, self.single_block_mode()));
        }
        self.push_committed_block(block, update);
        proof {
            lemma_grew_push(c0, u0, block);
            lemma_view_kind(self.current_mode);
            assert(blocks_v(update.committed@) =~= blocks_v(u0).push(block_v(block)));
        }
        self.advance_block(end_line);
    }

    fn index_usage(&mut self, label: String, id: BlockId)
        requires
            old(self).wf(),
        ensures
            final(self).plugins_view() == old(self).plugins_view(),
            final(self).wf(),
            final(self).same_text(old(self)),
            final(self).committed_view() == old(self).committed_view(),
            final(self).cursor() == old(self).cursor(),
            final(self).usage_view() == old(self).usage_view().insert((label@, id.0)),
    {
        let ghost idx0 = self.reference_usage_index@;
        let mut k: usize = 0;
        while k < self.reference_usage_index.len()
            invariant
                k <= self.reference_usage_index@.len(),
                self.reference_usage_index@ == idx0,
                old(self).usage_view() == index_pairs(idx0),
                self.wf(),
                self.same_text(old(self)),
                self.boundary_plugins@ == old(self).boundary_plugins@,
                self.committed_view() == old(self).committed_view(),
                self.cursor() == old(self).cursor(),
            decreases self.reference_usage_index@.len() - k,
        {
            if self.reference_usage_index[k].label == label {
                let mut j: usize = 0;
                let n = self.reference_usage_index[k].ids.len();
                while j < n
                    invariant
                        k < self.reference_usage_index@.len(),
                        self.reference_usage_index@ == idx0,
                        old(self).usage_view() == index_pairs(idx0),
                        idx0[k as int].label@ == label@,
                        n == self.reference_usage_index@[k as int].ids@.len(),
                        j <= n,
                        self.wf(),
                        self.same_text(old(self)),
                        self.boundary_plugins@ == old(self).boundary_plugins@,
                        self.committed_view() == old(self).committed_view(),
                        self.cursor() == old(self).cursor(),
                    decreases n - j,
                {
                    if self.reference_usage_index[k].ids[j] == id {
                        proof {
                            let p = (label@, id.0);
                            assert(idx0[k as int].ids@[j as int].0 == p.1);
                            assert(index_pairs(idx0).contains(p));
                            assert(index_pairs(idx0).insert(p) =~= index_pairs(idx0));
                            assert(self.reference_usage_index@ == idx0);
                            assert(self.usage_view() == index_pairs(idx0));
                        }
                        return;
                    }
                    j += 1;
                }
                let ghost ids0 = self.reference_usage_index@[k as int].ids@;
                self.reference_usage_index[k].ids.push(id);
                proof {
                    let idx1 = self.reference_usage_index@;
                    let p = (label@, id.0);
                    assert(idx1.len() == idx0.len());
                    assert(idx1[k as int].ids@ == ids0.push(id));
                    assert forall|q: (Seq<char>, u64)| index_pairs(idx1).contains(q) <==> index_pairs(
                        idx0,
                    ).insert(p).contains(q) by {
                        if index_pairs(idx1).contains(q) {
                            let (i, j) = choose|i: int, j: int|
                                0 <= i < idx1.len() && 0 <= j < idx1[i].ids@.len() && idx1[i].label@
                                    == q.0 && #[trigger] idx1[i].ids@[j].0 == q.1;
                            if i == k && j == ids0.len() {
                            } else {
                                assert(idx0[i].ids@[j] == idx1[i].ids@[j]);
                            }
                        }
                        if index_pairs(idx0).contains(q) {
                            let (i, j) = choose|i: int, j: int|
                                0 <= i < idx0.len() && 0 <= j < idx0[i].ids@.len() && idx0[i].label@
                                    == q.0 && #[trigger] idx0[i].ids@[j].0 == q.1;
                            assert(idx1[i].ids@[j] == idx0[i].ids@[j]);
                        }
                        if q == p {
                            assert(idx1[k as int].ids@[ids0.len() as int].0 == p.1);
                        }
                    }
                    assert(index_pairs(idx1) =~= index_pairs(idx0).insert(p));
                    assert(self.usage_view() == index_pairs(idx1));
                }
                return;
            }
            k += 1;
        }
        let mut ids: Vec<BlockId> = Vec::new();
        ids.push(id);
        let ghost lab = label@;
        self.reference_usage_index.push(RefUsage { label, ids });
        proof {
            let idx1 = self.reference_usage_index@;
            let p = (lab, id.0);
            assert(idx1 == idx0.push(idx1.last()));
            assert forall|q: (Seq<char>, u64)| index_pairs(idx1).contains(q) <==> index_pairs(
                idx0,
            ).insert(p).contains(q) by {
                if index_pairs(idx1).contains(q) {
                    let (i, j) = choose|i: int, j: int|
                        0 <= i < idx1.len() && 0 <= j < idx1[i].ids@.len() && idx1[i].label@ == q.0
                            && #[trigger] idx1[i].ids@[j].0 == q.1;
                    if i < idx0.len() {
                        assert(idx0[i] == idx1[i]);
                    }
                }
                if index_pairs(idx0).contains(q) {
                    let (i, j) = choose|i: int, j: int|
                        0 <= i < idx0.len() && 0 <= j < idx0[i].ids@.len() && idx0[i].label@ == q.0
                            && #[trigger] idx0[i].ids@[j].0 == q.1;
                    assert(idx1[i] == idx0[i]);
                    assert(idx1[i].ids@[j].0 == q.1);
                }
                if q == p {
                    assert(idx1[idx0.len() as int].ids@[0].0 == p.1);
                }
            }
            assert(index_pairs(idx1) =~= index_pairs(idx0).insert(p));
        }
    }

    /// Ids recorded for `label`, other than `except`, added to `out`.
    fn collect_usages(&self, label: &String, except: BlockId, out: &mut Vec<BlockId>)
        requires
            ids_sorted(old(out)@),
        ensures
            ids_sorted(final(out)@),
            !old(out)@.contains(except) ==> !final(out)@.contains(except),
            id_set(final(out)@) == id_set(old(out)@).union(
                users_of(self.usage_view(), set![label@], except.0),
            ),
    {
        let ghost idx = self.reference_usage_index@;
        let ghost target = users_of(self.usage_view(), set![label@], except.0);
        let mut k: usize = 0;
        while k < self.reference_usage_index.len()
            invariant
                k <= self.reference_usage_index@.len(),
                idx == self.reference_usage_index@,
                target == users_of(index_pairs(idx), set![label@], except.0),
                ids_sorted(out@),
                !old(out)@.contains(except) ==> !out@.contains(except),
                id_set(out@) == id_set(old(out)@).union(
                    Set::new(
                        |b: u64|
                            b != except.0 && exists|i: int, j: int|
                                0 <= i < k && 0 <= j < idx[i].ids@.len() && idx[i].label@ == label@
                                    && #[trigger] idx[i].ids@[j].0 == b,
                    ),
                ),
            decreases self.reference_usage_index@.len() - k,
        {
            let ghost before = id_set(out@);
            if self.reference_usage_index[k].label == *label {
                let ids = &self.reference_usage_index[k].ids;
                let mut j: usize = 0;
                while j < ids.len()
                    invariant
                        j <= ids@.len(),
                        k < idx.len(),
                        ids@ == idx[k as int].ids@,
                        idx[k as int].label@ == label@,
                        ids_sorted(out@),
                        !old(out)@.contains(except) ==> !out@.contains(except),
                        id_set(out@) == before.union(
                            Set::new(|b: u64| b != except.0 && exists|jj: int| 0 <= jj < j && #[trigger] ids@[jj].0 == b),
                        ),
                    decreases ids@.len() - j,
                {
                    let ghost pre = out@;
                    if ids[j] != except {
                        insert_sorted(out, ids[j]);
                        proof {
                            if !pre.contains(except) && out@.contains(except) {
                                assert(out@.to_set().contains(except));
                                assert(pre.to_set().contains(except));
                            }
                            assert forall|b: u64| id_set(out@).contains(b) <==> id_set(pre).insert(ids@[j as int].0).contains(b) by {
                                if id_set(out@).contains(b) {
                                    let i = choose|i: int| 0 <= i < out@.len() && #[trigger] out@[i].0 == b;
                                    assert(out@.to_set().contains(out@[i]));
                                }
                                if id_set(pre).contains(b) {
                                    let i = choose|i: int| 0 <= i < pre.len() && #[trigger] pre[i].0 == b;
                                    assert(pre.to_set().contains(pre[i]));
                                    assert(out@.to_set().contains(pre[i]));
                                }
                                if b == ids@[j as int].0 {
                                    assert(out@.to_set().contains(ids@[j as int]));
                                }
                            }
                            assert(id_set(out@) =~= id_set(pre).insert(ids@[j as int].0));
                        }
                    }
                    proof {
                        let s_new = Set::new(|b: u64| b != except.0 && exists|jj: int| 0 <= jj < j + 1 && #[trigger] ids@[jj].0 == b);
                        let s_old = Set::new(|b: u64| b != except.0 && exists|jj: int| 0 <= jj < j && #[trigger] ids@[jj].0 == b);
                        assert forall|b: u64| s_new.contains(b) <==> (s_old.contains(b) || (b == ids@[j as int].0 && b != except.0)) by {
                            if s_new.contains(b) {
                                let jj = choose|jj: int| 0 <= jj < j + 1 && #[trigger] ids@[jj].0 == b;
                                if jj < j {
                                    assert(s_old.contains(b));
                                }
                            }
                            if s_old.contains(b) {
                                let jj = choose|jj: int| 0 <= jj < j && #[trigger] ids@[jj].0 == b;
                                assert(ids@[jj].0 == b);
                            }
                        }
                        if ids@[j as int] != except {
                            assert(s_new =~= s_old.insert(ids@[j as int].0));
                        } else {
                            assert(s_new =~= s_old);
                        }
                        assert(id_set(out@) =~= before.union(s_new));
                    }
                    j += 1;
                }
            }
            proof {
                let s_new = Set::new(
                    |b: u64|
                        b != except.0 && exists|i: int, j: int|
                            0 <= i < k + 1 && 0 <= j < idx[i].ids@.len() && idx[i].label@ == label@
                                && #[trigger] idx[i].ids@[j].0 == b,
                );
                let s_old = Set::new(
                    |b: u64|
                        b != except.0 && exists|i: int, j: int|
                            0 <= i < k && 0 <= j < idx[i].ids@.len() && idx[i].label@ == label@
                                && #[trigger] idx[i].ids@[j].0 == b,
                );
                let s_k = Set::new(
                    |b: u64|
                        b != except.0 && idx[k as int].label@ == label@ && exists|jj: int|
                            0 <= jj < idx[k as int].ids@.len() && #[trigger] idx[k as int].ids@[jj].0 == b,
                );
                assert forall|b: u64| s_new.contains(b) <==> (s_old.contains(b) || s_k.contains(b)) by {
                    if s_new.contains(b) {
                        let (i, j) = choose|i: int, j: int|
                            0 <= i < k + 1 && 0 <= j < idx[i].ids@.len() && idx[i].label@ == label@
                                && #[trigger] idx[i].ids@[j].0 == b;
                        if i < k {
                            assert(s_old.contains(b));
                        } else {
                            assert(idx[k as int].ids@[j].0 == b);
                        }
                    }
                    if s_old.contains(b) {
                        let (i, j) = choose|i: int, j: int|
                            0 <= i < k && 0 <= j < idx[i].ids@.len() && idx[i].label@ == label@
                                && #[trigger] idx[i].ids@[j].0 == b;
                        assert(idx[i].ids@[j].0 == b);
                    }
                    if s_k.contains(b) {
                        let jj = choose|jj: int| 0 <= jj < idx[k as int].ids@.len() && #[trigger] idx[k as int].ids@[jj].0 == b;
                        assert(idx[k as int].ids@[jj].0 == b);
                    }
                }
                assert(id_set(out@) =~= id_set(old(out)@).union(s_new));
            }
            k += 1;
        }
        proof {
            let s_all = Set::new(
                |b: u64|
                    b != except.0 && exists|i: int, j: int|
                        0 <= i < idx.len() && 0 <= j < idx[i].ids@.len() && idx[i].label@ == label@
                            && #[trigger] idx[i].ids@[j].0 == b,
            );
            assert forall|b: u64| s_all.contains(b) <==> target.contains(b) by {
                if s_all.contains(b) {
                    let (i, j) = choose|i: int, j: int|
                        0 <= i < idx.len() && 0 <= j < idx[i].ids@.len() && idx[i].label@ == label@
                            && #[trigger] idx[i].ids@[j].0 == b;
                    assert(index_pairs(idx).contains((label@, b)));
                    assert(set![label@].contains(label@));
                }
                if target.contains(b) {
                    let l = choose|l: Seq<char>| set![label@].contains(l) && #[trigger] index_pairs(idx).contains((l, b));
                    assert(l == label@);
                    let (i, j) = choose|i: int, j: int|
                        0 <= i < idx.len() && 0 <= j < idx[i].ids@.len() && idx[i].label@ == l
                            && #[trigger] idx[i].ids@[j].0 == b;
                    assert(idx[i].ids@[j].0 == b);
                }
            }
            assert(s_all =~= target);
        }
    }

    /// Record the block, index its reference usages and, when enabled, report the blocks that
    /// used labels it defines.
    pub(crate) fn push_committed_block(&mut self, block: Block, update: &mut Update)
        requires
            old(self).wf(),
            committed_ok(block),
            crate::stream::ids_ok(
                old(self).committed_view().push(block),
                old(self).block_id().0,
                old(self).single_block_mode(),
            ),
        ensures
            final(self).plugins_view() == old(self).plugins_view(),
            final(self).wf(),
            final(self).same_text(old(self)),
            final(self).committed_view() == old(self).committed_view().push(block),
            final(update).committed@ == old(update).committed@.push(block),
            final(update).reset == old(update).reset,
            final(update).pending == old(update).pending,
            final(update).invalidated@.len() >= old(update).invalidated@.len(),
            final(self).cursor() == old(self).cursor(),
            forall|i: int|
                old(update).invalidated@.len() <= i < final(update).invalidated@.len()
                    ==> #[trigger] final(update).invalidated@[i] != block.id,
            final(self).usage_view() == usages_added(old(self).usage_view(), block),
            inv_grew(
                old(self).usage_view(),
                old(update).invalidated@,
                old(update).committed@,
                final(self).usage_view(),
                final(update).invalidated@,
                final(update).committed@,
                invalidation_on(old(self).options()),
            ),
            final(update).invalidated@.subrange(0, old(update).invalidated@.len() as int) == old(
                update,
            ).invalidated@,
            ids_sorted(
                final(update).invalidated@.subrange(
                    old(update).invalidated@.len() as int,
                    final(update).invalidated@.len() as int,
                ),
            ),
            id_set(
                final(update).invalidated@.subrange(
                    old(update).invalidated@.len() as int,
                    final(update).invalidated@.len() as int,
                ),
            ) == invalidated_by(
                final(self).usage_view(),
                block,
                old(self).options().reference_definitions == ReferenceDefinitionsMode::Invalidate,
            ),
    {
        let raw = block.raw.as_str().as_bytes();
        proof {
            crate::text::lemma_encode_valid(block.raw@);
        }
        let ghost u0 = self.usage_view();
        if block.kind != BlockKind::CodeFence && contains_byte(raw, 91) {
            let used = reference_usages_in_order(raw);
            let mut k: usize = 0;
            while k < used.len()
                invariant
                    self.wf(),
                    self.same_text(old(self)),
                    self.boundary_plugins@ == old(self).boundary_plugins@,
                    self.committed_view() == old(self).committed_view(),
                    self.cursor() == old(self).cursor(),
                    k <= used@.len(),
                    u0 == old(self).usage_view(),
                    self.usage_view() == u0.union(
                        Set::new(
                            |p: (Seq<char>, u64)| p.1 == block.id.0 && exists|t: int| 0 <= t < k && #[trigger] used@[t]@ == p.0,
                        ),
                    ),
                decreases used@.len() - k,
            {
                let ghost pre = self.usage_view();
                self.index_usage(used[k].clone(), block.id);
                proof {
                    let s_new = Set::new(
                        |p: (Seq<char>, u64)| p.1 == block.id.0 && exists|t: int| 0 <= t < k + 1 && #[trigger] used@[t]@ == p.0,
                    );
                    let s_old = Set::new(
                        |p: (Seq<char>, u64)| p.1 == block.id.0 && exists|t: int| 0 <= t < k && #[trigger] used@[t]@ == p.0,
                    );
                    assert forall|p: (Seq<char>, u64)| s_new.contains(p) <==> s_old.insert((used@[k as int]@, block.id.0)).contains(p) by {
                        if s_new.contains(p) {
                            let t = choose|t: int| 0 <= t < k + 1 && #[trigger] used@[t]@ == p.0;
                            if t < k {
                                assert(s_old.contains(p));
                            }
                        }
                        if s_old.contains(p) {
                            let t = choose|t: int| 0 <= t < k && #[trigger] used@[t]@ == p.0;
                            assert(used@[t]@ == p.0);
                        }
                        if p == (used@[k as int]@, block.id.0) {
                            assert(used@[k as int]@ == p.0);
                        }
                    }
                    assert(s_new =~= s_old.insert((used@[k as int]@, block.id.0)));
                    assert(self.usage_view() =~= u0.union(s_new));
                }
                k += 1;
            }
            proof {
                let raw_v = encode_utf8(block.raw@);
                let s_all = Set::new(
                    |p: (Seq<char>, u64)| p.1 == block.id.0 && exists|t: int| 0 <= t < used@.len() && #[trigger] used@[t]@ == p.0,
                );
                let s_spec = Set::new(
                    |p: (Seq<char>, u64)| p.1 == block.id.0 && crate::reference::usage_scan(raw_v, 0).contains(p.0),
                );
                assert(crate::reference::strings_view(used@) == crate::reference::usage_scan(raw_v, 0));
                assert forall|p: (Seq<char>, u64)| s_all.contains(p) <==> s_spec.contains(p) by {
                    if s_all.contains(p) {
                        let t = choose|t: int| 0 <= t < used@.len() && #[trigger] used@[t]@ == p.0;
                        assert(crate::reference::strings_view(used@)[t] == p.0);
                    }
                    if s_spec.contains(p) {
                        let t = choose|t: int| 0 <= t < crate::reference::usage_scan(raw_v, 0).len() && crate::reference::usage_scan(raw_v, 0)[t] == p.0;
                        assert(crate::reference::strings_view(used@)[t] == used@[t]@);
                        assert(used@[t]@ == p.0);
                    }
                }
                assert(s_all =~= s_spec);
            }
        } else {
            proof {
                assert(u0 == usages_added(u0, block));
            }
        }
        let ghost u1 = self.usage_view();
        let def: &[u8] = &[93u8, 58u8];
        if self.opts.reference_definitions == ReferenceDefinitionsMode::Invalidate && block.kind
            != BlockKind::CodeFence && contains_pat(raw, def) {
            let mut inv: Vec<BlockId> = Vec::new();
            let n = raw.len();
            let mut start: usize = 0;
            let mut i: usize = 0;
            let ghost acc: Set<Seq<char>> = Set::empty();
            proof {
                assert(id_set(inv@) =~= users_of(u1, acc, block.id.0));
                assert(acc.union(def_labels_from(raw@, 0)) =~= def_labels_from(raw@, 0));
            }
            while i < n
                invariant
                    start <= i <= n,
                    n == raw@.len(),
                    valid_utf8(raw@),
                    start == 0 || raw@[start - 1] == 10,
                    forall|t: int| start <= t < i ==> raw@[t] != 10,
                    ids_sorted(inv@),
                    !inv@.contains(block.id),
                    u1 == self.usage_view(),
                    id_set(inv@) == users_of(u1, acc, block.id.0),
                    def_labels_from(raw@, 0) == acc.union(def_labels_from(raw@, start as int)),
                decreases n - i,
            {
                if raw[i] == 10 {
                    proof {
                        lemma_valid_slice(raw@, start as int, i as int);
                        crate::text::lemma_find_byte_at(raw@, 10, start as int, i as int);
                    }
                    let line = slice(raw, start, i);
                    let ghost ls = label_set(line@);
                    if let Some(label) = extract_reference_definition_label(line) {
                        self.collect_usages(&label, block.id, &mut inv);
                        proof {
                            assert(ls == set![label@]);
                            lemma_users_union(u1, acc, ls, block.id.0);
                        }
                    } else {
                        proof {
                            assert(ls == Set::<Seq<char>>::empty());
                            assert(acc.union(ls) =~= acc);
                        }
                    }
                    proof {
                        assert(def_labels_from(raw@, start as int) == ls.union(def_labels_from(raw@, i + 1)));
                        assert(acc.union(ls.union(def_labels_from(raw@, i + 1))) =~= acc.union(ls).union(def_labels_from(raw@, i + 1)));
                        acc = acc.union(ls);
                    }
                    start = i + 1;
                }
                i += 1;
            }
            proof {
                lemma_valid_slice(raw@, start as int, n as int);
                crate::text::lemma_find_byte_none(raw@, 10, start as int);
            }
            let line = slice(raw, start, n);
            let ghost ls = label_set(line@);
            if let Some(label) = extract_reference_definition_label(line) {
                self.collect_usages(&label, block.id, &mut inv);
                proof {
                    assert(ls == set![label@]);
                    lemma_users_union(u1, acc, ls, block.id.0);
                }
            } else {
                proof {
                    assert(ls == Set::<Seq<char>>::empty());
                    assert(acc.union(ls) =~= acc);
                }
            }
            proof {
                assert(def_labels_from(raw@, start as int) == ls);
                assert(id_set(inv@) == users_of(u1, def_labels_from(raw@, 0), block.id.0));
            }
            let mut q: usize = 0;
            let ghost inv0 = update.invalidated@;
            while q < inv.len()
                invariant
                    q <= inv@.len(),
                    !inv@.contains(block.id),
                    update.invalidated@ == inv0 + inv@.subrange(0, q as int),
                    update.committed@ == old(update).committed@,
                    update.reset == old(update).reset,
                    update.pending == old(update).pending,
                    inv0 == old(update).invalidated@,
                decreases inv@.len() - q,
            {
                update.invalidated.push(inv[q]);
                assert(inv0 + inv@.subrange(0, q + 1) =~= (inv0 + inv@.subrange(0, q as int)).push(
                    inv@[q as int],
                ));
                q += 1;
            }
            assert forall|i: int|
                old(update).invalidated@.len() <= i < update.invalidated@.len() implies #[trigger] update.invalidated@[i]
                != block.id by {
                assert(update.invalidated@[i] == inv@[i - inv0.len()]);
            }
            proof {
                assert(update.invalidated@.subrange(inv0.len() as int, update.invalidated@.len() as int) =~= inv@);
                assert(update.invalidated@.subrange(0, inv0.len() as int) =~= inv0);
            }
        } else {
            proof {
                assert(update.invalidated@.subrange(
                    old(update).invalidated@.len() as int,
                    update.invalidated@.len() as int,
                ) =~= Seq::<BlockId>::empty());
                assert(update.invalidated@.subrange(0, old(update).invalidated@.len() as int) =~= old(update).invalidated@);
                assert(id_set(Seq::<BlockId>::empty()) =~= Set::<u64>::empty());
            }
        }
        let copy = block.duplicate();
        self.committed.push(copy);
        let ghost c_before = update.committed@;
        update.committed.push(block);
        proof {
            let nb = update.committed@.subrange(c_before.len() as int, update.committed@.len() as int);
            assert(nb =~= seq![block]);
            assert(nb.drop_last() =~= Seq::<Block>::empty());
            assert(usage_after(u0, nb.drop_last()) == u0);
            assert(usage_after(u0, nb) == usages_added(u0, block));
            assert(invalidated_after(u0, nb.drop_last(), invalidation_on(self.opts)) =~= Set::<u64>::empty());
            assert(Set::<u64>::empty().union(invalidated_by(usage_after(u0, nb), block, invalidation_on(self.opts))) =~= invalidated_by(usage_after(u0, nb), block, invalidation_on(self.opts)));
        }
    }
}


/// Whether `curr` starts a new block after `prev`, in mode `m`, for a block that started at line
/// `start`, `curr` being line `idx`; `plugin_starts` tells whether a boundary plugin claims `curr`.
pub open spec fn spec_boundary(
    m: ModeView,
    prev: Seq<u8>,
    curr: Seq<u8>,
    start: int,
    idx: int,
    plugin_starts: bool,
) -> bool {
    if m is CodeFence || m is CustomBoundary {
        false
    } else if (m matches ModeView::MathBlock { open_count } && open_count % 2 == 1) {
        false
    } else if (m matches ModeView::HtmlBlock { stack, in_comment } && (in_comment || stack.len()
        > 0)) {
        false
    } else if m is FootnoteDefinition {
        !(bytes_blank(curr) || spec_footnote_continuation(curr))
    } else if bytes_blank(prev) && !bytes_blank(curr) {
        !(m is List && spec_list_continuation(curr)) && !(m is BlockQuote
            && spec_blockquote_start(curr))
    } else if (m is Paragraph || m is Unknown) && spec_setext_underline(curr) is Some
        && !bytes_blank(prev) && start + 1 == idx {
        false
    } else if spec_heading(curr) || spec_thematic_break(curr) is Some || spec_fence_start(
        curr,
    ) is Some || plugin_starts || spec_footnote_definition_start(curr) {
        true
    } else if spec_blockquote_start(curr) && !spec_blockquote_start(prev) && !(m is BlockQuote) {
        true
    } else if spec_list_item_start(curr) && !spec_list_item_start(prev) && !(m is List) {
        true
    } else {
        (m is Paragraph || m is Unknown) && spec_table_delimiter(curr) && prev.contains(124u8)
            && idx >= 1 && start < idx - 1
    }
}

/// The cursor of a boundary plugin's block once the plugin has been started.
pub open spec fn started_cursor(c: Cursor, k: int) -> Cursor {
    Cursor { start: c.start, mode: ModeView::CustomBoundary { plugin_index: k as usize, started: true }, id: c.id }
}

/// A line inside a boundary plugin's block (plugin `k`, started or not): only that plugin is
/// touched; the line goes to that plugin (as it stood, once started; as its `start` on this line
/// left it, otherwise), and the block ends with this line exactly when the plugin's answer is
/// `Close`; otherwise the block goes on, now started. With no such plugin nothing changes.
pub open spec fn plugin_step(
    s0: MdStream,
    s1: MdStream,
    out0: Seq<(u64, BlockKind, Seq<u8>)>,
    out1: Seq<(u64, BlockKind, Seq<u8>)>,
    k: int,
    started: bool,
    i: int,
) -> bool {
    if k >= s0.plugin_count() {
        s1.cursor() == s0.cursor() && out1 == out0
    } else {
        &&& s1.plugins_view().len() == s0.plugins_view().len()
        &&& forall|j: int| 0 <= j < s0.plugins_view().len() && j != k ==> #[trigger] s1.plugins_view()[j] == s0.plugins_view()[j]
        &&& exists|p: PluginEntry, u: BoundaryUpdate|
            #![trigger p.may_update(decode_utf8(line_text(s0.buffer_view(), s0.lines_view(), i)), u)]
            (started ==> p == s0.plugins_view()[k]) && p.may_update(
                decode_utf8(line_text(s0.buffer_view(), s0.lines_view(), i)),
                u,
            ) && if u == BoundaryUpdate::Close {
                (s1.cursor(), out1) == commit_view(s0.buffer_view(), s0.lines_view(), (started_cursor(s0.cursor(), k), out0), i)
            } else {
                &&& s1.cursor() == started_cursor(s0.cursor(), k)
                &&& out1 == out0
            }
    }
}

/// Line `i` processed, as far as boundary plugins go: inside a plugin's block, a complete line
/// other than the block's first (outside single-block mode) is a `plugin_step` of that plugin.
pub open spec fn plugin_line_step(
    s0: MdStream,
    s1: MdStream,
    out0: Seq<(u64, BlockKind, Seq<u8>)>,
    out1: Seq<(u64, BlockKind, Seq<u8>)>,
    i: int,
) -> bool {
    s0.cursor().mode matches ModeView::CustomBoundary { plugin_index, started } ==> (
    (s0.lines_view()[i].has_newline && !s0.single_block_mode() && i != s0.cursor().start && i != 0)
        ==> plugin_step(s0, s1, out0, out1, plugin_index as int, started, i))
}

/// `ps` is an answer the plugins, asked in turn, may give to whether some plugin claims a line
/// with this text as the start of its block.
pub open spec fn plugins_answer(s: MdStream, line: Seq<char>, ps: bool) -> bool {
    &&& ps ==> exists|k: int| 0 <= k < s.plugin_count() && #[trigger] s.plugin_may_start(k, line, true)
    &&& !ps ==> forall|j: int| 0 <= j < s.plugin_count() ==> #[trigger] s.plugin_may_start(j, line, false)
}

/// The mode a block opening at a line with this text gets, as far as plugins go: the block of
/// the first plugin that claims the line (the plugins before it do not), not yet started; or,
/// when no plugin claims it, a mode of no plugin.
pub open spec fn claimed_mode(s: MdStream, line: Seq<char>, m: ModeView) -> bool {
    match m {
        ModeView::CustomBoundary { plugin_index, started } => {
            &&& !started
            &&& plugin_index < s.plugin_count()
            &&& s.plugin_may_start(plugin_index as int, line, true)
            &&& forall|j: int| 0 <= j < plugin_index ==> #[trigger] s.plugin_may_start(j, line, false)
        },
        _ => forall|j: int| 0 <= j < s.plugin_count() ==> #[trigger] s.plugin_may_start(j, line, false),
    }
}

/// The splitter `sm` stands where a block opens at line `i` of `s0`'s text: same text and
/// plugins, in the mode the plugins' answers give, with what was committed before.
pub open spec fn opened_at(
    s0: MdStream,
    sm: MdStream,
    out0: Seq<(u64, BlockKind, Seq<u8>)>,
    om: Seq<(u64, BlockKind, Seq<u8>)>,
    i: int,
) -> bool {
    &&& sm.plugins_view() == s0.plugins_view()
    &&& sm.buffer_view() == s0.buffer_view()
    &&& sm.lines_view() == s0.lines_view()
    &&& om.len() >= out0.len()
    &&& om.subrange(0, out0.len() as int) == out0
    &&& claimed_mode(s0, decode_utf8(line_text(s0.buffer_view(), s0.lines_view(), i)), sm.cursor().mode)
}

/// A block opens at line `i`: the line goes to the plugin that claimed it, as the first line of
/// its block.
pub open spec fn plugin_open_step(
    s0: MdStream,
    s1: MdStream,
    out0: Seq<(u64, BlockKind, Seq<u8>)>,
    out1: Seq<(u64, BlockKind, Seq<u8>)>,
    i: int,
) -> bool {
    exists|sm: MdStream, om: Seq<(u64, BlockKind, Seq<u8>)>|
        #[trigger] opened_at(s0, sm, out0, om, i) && (sm.cursor().mode matches ModeView::CustomBoundary {
            plugin_index,
            started,
        } ==> plugin_step(sm, s1, om, out1, plugin_index as int, started, i))
}

/// Line `i` processed, as far as a block opening there goes: at the first line of the block in
/// progress, and at a line where the plugins' answer makes a boundary, a block opens (outside
/// single-block mode, for a complete line).
pub open spec fn plugin_open(
    s0: MdStream,
    s1: MdStream,
    out0: Seq<(u64, BlockKind, Seq<u8>)>,
    out1: Seq<(u64, BlockKind, Seq<u8>)>,
    i: int,
) -> bool {
    let buf = s0.buffer_view();
    let lines = s0.lines_view();
    (lines[i].has_newline && !s0.single_block_mode()) ==> {
        &&& i == s0.cursor().start ==> plugin_open_step(s0, s1, out0, out1, i)
        &&& (i != s0.cursor().start && i != 0) ==> exists|ps: bool|
            #[trigger] plugins_answer(s0, decode_utf8(line_text(buf, lines, i)), ps) && (spec_boundary(
                s0.cursor().mode,
                line_text(buf, lines, i - 1),
                line_text(buf, lines, i),
                s0.cursor().start,
                i,
                ps,
            ) ==> plugin_open_step(s0, s1, out0, out1, i))
    }
}

/// Step `j` of a run of lines from line `from`: line `from + j` processed from `states[j]`
/// (with `outs[j]` committed so far) to `states[j + 1]` (with `outs[j + 1]`).
pub open spec fn run_step(
    states: Seq<MdStream>,
    outs: Seq<Seq<(u64, BlockKind, Seq<u8>)>>,
    from: int,
    j: int,
) -> bool {
    &&& plugin_line_step(states[j], states[j + 1], outs[j], outs[j + 1], from + j)
    &&& plugin_open(states[j], states[j + 1], outs[j], outs[j + 1], from + j)
}

/// Lines `from`, `from + 1`, ... processed one after the other, as far as boundary plugins go.
pub open spec fn plugin_run(
    states: Seq<MdStream>,
    outs: Seq<Seq<(u64, BlockKind, Seq<u8>)>>,
    from: int,
) -> bool {
    &&& states.len() >= 1
    &&& outs.len() == states.len()
    &&& forall|j: int| 0 <= j < states.len() - 1 ==> #[trigger] run_step(states, outs, from, j)
}

/// The run of an append from `s0` once its text has grown to `buf`: it starts where `s0`
/// stands, with nothing committed, covers every complete line not processed before, keeps
/// the text, and what it commits begins `committed`.
pub open spec fn appended_run(
    s0: MdStream,
    buf: Seq<u8>,
    single: bool,
    committed: Seq<(u64, BlockKind, Seq<u8>)>,
    states: Seq<MdStream>,
    outs: Seq<Seq<(u64, BlockKind, Seq<u8>)>>,
) -> bool {
    &&& states[0].cursor() == s0.cursor()
    &&& states[0].plugins_view() == s0.plugins_view()
    &&& states[0].single_block_mode() == single
    &&& outs[0] == Seq::<(u64, BlockKind, Seq<u8>)>::empty()
    &&& s0.processed_view() + states.len() - 1 == crate::stream::append_processed(buf, s0.processed_view())
    &&& forall|j: int|
        0 <= j < states.len() ==> #[trigger] states[j].buffer_view() == buf && states[j].lines_view()
            == crate::stream::lines::canon_lines(buf)
    &&& committed.len() >= outs.last().len()
    &&& committed.subrange(0, outs.last().len() as int) == outs.last()
}

/// An append from `s0`, as far as boundary plugins go: the complete lines it processes go in
/// turn through the splitter (inside a plugin's block, to that plugin), and the blocks they
/// commit begin the blocks it reports.
pub open spec fn plugin_append(
    s0: MdStream,
    buf: Seq<u8>,
    single: bool,
    committed: Seq<(u64, BlockKind, Seq<u8>)>,
) -> bool {
    exists|states: Seq<MdStream>, outs: Seq<Seq<(u64, BlockKind, Seq<u8>)>>|
        #[trigger] plugin_run(states, outs, s0.processed_view()) && appended_run(s0, buf, single, committed, states, outs)
}

impl MdStream {
    /// Whether some boundary plugin claims `line` as a start.
    pub(crate) fn any_plugin_starts(&self, line: &[u8]) -> (r: bool)
        requires
            valid_utf8(line@),
        ensures
            self.plugin_count() == 0 ==> !r,
            r ==> exists|k: int| 0 <= k < self.plugin_count() && #[trigger] self.plugin_may_start(k, decode_utf8(line@), true),
            !r ==> forall|j: int|
                0 <= j < self.plugin_count() ==> #[trigger] self.plugin_may_start(j, decode_utf8(line@), false),
    {
        self.plugin_matching(line).is_some()
    }

    pub(crate) fn is_new_block_boundary(
        &self,
        prev: &[u8],
        curr: &[u8],
        idx: usize,
        plugin_starts: bool,
    ) -> (r: bool)
        requires
            valid_utf8(prev@),
            valid_utf8(curr@),
        ensures
            r == spec_boundary(
                mode_view(self.mode()),
                prev@,
                curr@,
                self.block_start() as int,
                idx as int,
                plugin_starts,
            ),
    {
        match &self.current_mode {
            BlockMode::CodeFence { .. } => return false,
            BlockMode::CustomBoundary { .. } => return false,
            BlockMode::MathBlock { open_count } => {
                if *open_count % 2 == 1 {
                    return false;
                }
            },
            BlockMode::HtmlBlock { stack, in_comment } => {
                if *in_comment || stack.len() > 0 {
                    return false;
                }
            },
            _ => {},
        }
        let is_fn_def = match self.current_mode {
            BlockMode::FootnoteDefinition => true,
            _ => false,
        };
        let curr_blank = is_empty_line(curr);
        if is_fn_def {
            return !(curr_blank || is_footnote_continuation(curr));
        }
        let prev_blank = is_empty_line(prev);
        let is_list = match self.current_mode {
            BlockMode::List => true,
            _ => false,
        };
        let is_quote = match self.current_mode {
            BlockMode::BlockQuote => true,
            _ => false,
        };
        if prev_blank && !curr_blank {
            if is_list && is_list_continuation(curr) {
                return false;
            }
            if is_quote && is_blockquote_start(curr) {
                return false;
            }
            return true;
        }
        let para_like = match self.current_mode {
            BlockMode::Paragraph => true,
            BlockMode::Unknown => true,
            _ => false,
        };
        if para_like && setext_underline_char(curr).is_some() && !prev_blank
            && self.current_block_start_line < usize::MAX && self.current_block_start_line + 1
            == idx {
            return false;
        }
        if is_heading(curr) || is_thematic_break(curr) || fence_start(curr).is_some()
            || plugin_starts || is_footnote_definition_start(curr) {
            return true;
        }
        if is_blockquote_start(curr) && !is_blockquote_start(prev) && !is_quote {
            return true;
        }
        if is_list_item_start(curr) && !is_list_item_start(prev) && !is_list {
            return true;
        }
        para_like && is_table_delimiter(curr) && contains_byte(prev, 124) && idx >= 1
            && self.current_block_start_line < idx - 1
    }

    /// Commit a heading or thematic break right after its line.
    fn maybe_commit_single_line(&mut self, i: usize, update: &mut Update)
        requires
            old(self).wf(),
            !old(self).single_block_mode(),
        ensures
            final(self).plugins_view() == old(self).plugins_view(),
            !(old(self).cursor().mode is CustomBoundary) ==> !(final(self).cursor().mode is CustomBoundary),
            (final(self).cursor(), blocks_v(final(update).committed@)) == single_line_view(
                old(self).buffer_view(),
                old(self).lines_view(),
                (old(self).cursor(), blocks_v(old(update).committed@)),
                i as int,
            ),
            final(self).wf(),
            final(self).same_text(old(self)),
            grew_together(
                old(self).committed_view(),
                final(self).committed_view(),
                old(update).committed@,
                final(update).committed@,
            ),
            final(update).reset == old(update).reset,
            final(update).pending == old(update).pending,
            inv_grew(
                old(self).usage_view(),
                old(update).invalidated@,
                old(update).committed@,
                final(self).usage_view(),
                final(update).invalidated@,
                final(update).committed@,
                invalidation_on(old(self).options()),
            ),
    {
        proof {
            lemma_inv_grew_refl(self.usage_view(), update.invalidated@, update.committed@, invalidation_on(self.opts));
        }
        let ghost ix0 = self.usage_view();
        let ghost iv0 = update.invalidated@;
        let ghost ic0 = update.committed@;
        proof {
            reveal(single_line_view);
        }
        let single = match self.current_mode {
            BlockMode::Heading => true,
            BlockMode::ThematicBreak => true,
            _ => false,
        };
        if single {
            self.commit_block(i, update);
        } else {
            proof {
                lemma_grew_refl(self.committed@, update.committed@);
            }
        }
    }

    /// Per-line state transitions of the current block.
    fn update_mode_with_line(&mut self, i: usize, update: &mut Update)
        requires
            old(self).wf(),
            !old(self).single_block_mode(),
            i < old(self).lines_len(),
        ensures
            old(self).plugin_count() == 0 && !(old(self).cursor().mode is CustomBoundary) ==> (
            final(self).cursor(), blocks_v(final(update).committed@)) == update_view(
                old(self).buffer_view(),
                old(self).lines_view(),
                (old(self).cursor(), blocks_v(old(update).committed@)),
                i as int,
            ),
            old(self).plugin_count() == 0 && !(old(self).cursor().mode is CustomBoundary) ==> !(final(self).cursor().mode is CustomBoundary),
            final(self).wf(),
            final(self).same_text(old(self)),
            grew_together(
                old(self).committed_view(),
                final(self).committed_view(),
                old(update).committed@,
                final(update).committed@,
            ),
            final(update).reset == old(update).reset,
            final(update).pending == old(update).pending,
            inv_grew(
                old(self).usage_view(),
                old(update).invalidated@,
                old(update).committed@,
                final(self).usage_view(),
                final(update).invalidated@,
                final(update).committed@,
                invalidation_on(old(self).options()),
            ),
            old(self).cursor().mode matches ModeView::CustomBoundary { plugin_index, started } ==> plugin_step(
                *old(self),
                *final(self),
                blocks_v(old(update).committed@),
                blocks_v(final(update).committed@),
                plugin_index as int,
                started,
                i as int,
            ),
    {
        proof {
            lemma_inv_grew_refl(self.usage_view(), update.invalidated@, update.committed@, invalidation_on(self.opts));
        }
        let ghost ix0 = self.usage_view();
        let ghost iv0 = update.invalidated@;
        let ghost ic0 = update.committed@;
        proof {
            reveal(update_view);
        }
        proof {
            self.lemma_wf_line(i as int);
            lemma_grew_refl(self.committed@, update.committed@);
        }
        let ghost c0 = self.committed@;
        let ghost u0 = update.committed@;
        let ghost s0 = *self;
        match self.current_mode {
            BlockMode::Unknown => {
                let line = line_bytes(self.buffer.as_slice(), &self.lines[i]);
                self.current_mode = self.start_mode_for_line(line);
                self.maybe_commit_single_line(i, update);
            },
            BlockMode::CodeFence { fence_char, fence_len, .. } => {
                let line = line_bytes(self.buffer.as_slice(), &self.lines[i]);
                if i > self.current_block_start_line && fence_end(line, fence_char, fence_len) {
                    self.commit_block(i, update);
                }
            },
            BlockMode::CustomBoundary { plugin_index, started } => {
                let idx = plugin_index;
                if idx >= self.boundary_plugins.len() {
                    return;
                }
                self.active_boundary_plugin = Some(idx);
                let line = line_bytes(self.buffer.as_slice(), &self.lines[i]);
                let ls = as_str(line);
                if !started {
                    self.boundary_plugins[idx].start(ls);
                    self.current_mode = BlockMode::CustomBoundary { plugin_index: idx, started: true };
                }
                let ghost pv = self.boundary_plugins@;
                let ghost s1 = *self;
                let line = line_bytes(self.buffer.as_slice(), &self.lines[i]);
                let ls = as_str(line);
                let u = self.boundary_plugins[idx].update(ls);
                proof {
                    assert(pv[idx as int].may_update(ls@, u));
                    assert(ls@ == decode_utf8(line_text(s0.buffer_view(), s0.lines_view(), i as int)));
                    assert(forall|j: int| 0 <= j < pv.len() && j != idx ==> #[trigger] self.boundary_plugins@[j] == pv[j]);
                    assert(started ==> pv == s0.boundary_plugins@);
                }
                if u == BoundaryUpdate::Close {
                    self.active_boundary_plugin = None;
                    self.commit_block(i, update);
                    proof {
                        assert(s1.cursor() == started_cursor(s0.cursor(), idx as int));
                    }
                }
            },
            BlockMode::MathBlock { open_count } => {
                let line = line_bytes(self.buffer.as_slice(), &self.lines[i]);
                let d = count_double_dollars(line);
                let parity = (open_count % 2 + d % 2) % 2;
                self.current_mode = BlockMode::MathBlock { open_count: parity };
                if parity == 0 {
                    self.commit_block(i, update);
                }
            },
            BlockMode::Paragraph => {
                let line = line_bytes(self.buffer.as_slice(), &self.lines[i]);
                if setext_underline_char(line).is_some() && self.current_block_start_line
                    < usize::MAX && self.current_block_start_line + 1 == i && i > 0 {
                    proof {
                        self.lemma_wf_line(i - 1);
                    }
                    let prev = line_bytes(self.buffer.as_slice(), &self.lines[i - 1]);
                    if !is_empty_line(prev) {
                        self.current_mode = BlockMode::Heading;
                        self.commit_block(i, update);
                        return;
                    }
                }
                let line = line_bytes(self.buffer.as_slice(), &self.lines[i]);
                if is_table_delimiter(line) && i > 0 {
                    proof {
                        self.lemma_wf_line(i - 1);
                    }
                    let prev = line_bytes(self.buffer.as_slice(), &self.lines[i - 1]);
                    if contains_byte(prev, 124) {
                        self.current_mode = BlockMode::Table;
                    }
                }
            },
            BlockMode::HtmlBlock { .. } => {
                let done = match &mut self.current_mode {
                    BlockMode::HtmlBlock { stack, in_comment } => {
                        let line = line_bytes(self.buffer.as_slice(), &self.lines[i]);
                        html_state_bytes(line, stack, in_comment);
                        !*in_comment && stack.len() == 0
                    },
                    _ => false,
                };
                if done {
                    self.commit_block(i, update);
                }
            },
            _ => {},
        }
    }

    /// Process a complete line (ending with a line feed).
    #[verifier::rlimit(50)]
    pub(crate) fn process_line(&mut self, i: usize, update: &mut Update)
        requires
            old(self).wf(),
            i < old(self).lines_len(),
        ensures
            final(self).wf(),
            final(self).same_text(old(self)),
            grew_together(
                old(self).committed_view(),
                final(self).committed_view(),
                old(update).committed@,
                final(update).committed@,
            ),
            final(update).reset == old(update).reset,
            final(update).pending == old(update).pending,
            old(self).single_block_mode() ==> final(update).committed@ == old(update).committed@,
            plugin_line_step(
                *old(self),
                *final(self),
                blocks_v(old(update).committed@),
                blocks_v(final(update).committed@),
                i as int,
            ),
            plugin_open(
                *old(self),
                *final(self),
                blocks_v(old(update).committed@),
                blocks_v(final(update).committed@),
                i as int,
            ),
            old(self).plugin_count() == 0 && !(old(self).cursor().mode is CustomBoundary) ==> !(final(self).cursor().mode is CustomBoundary),
            old(self).plugin_count() == 0 && !(old(self).cursor().mode is CustomBoundary) ==> (final(self).cursor(), blocks_v(final(update).committed@)) == process_view(
                old(self).buffer_view(),
                old(self).lines_view(),
                (old(self).cursor(), blocks_v(old(update).committed@)),
                i as int,
                old(self).single_block_mode(),
            ),
            inv_grew(
                old(self).usage_view(),
                old(update).invalidated@,
                old(update).committed@,
                final(self).usage_view(),
                final(update).invalidated@,
                final(update).committed@,
                invalidation_on(old(self).options()),
            ),
    {
        proof {
            lemma_inv_grew_refl(self.usage_view(), update.invalidated@, update.committed@, invalidation_on(self.opts));
        }
        let ghost ix0 = self.usage_view();
        let ghost iv0 = update.invalidated@;
        let ghost ic0 = update.committed@;
        proof {
            reveal(process_view);
        }
        proof {
            lemma_grew_refl(self.committed@, update.committed@);
        }
        if !self.lines[i].has_newline {
            return;
        }
        if self.opts.footnotes == crate::options::FootnotesMode::SingleBlock
            && self.footnotes_detected {
            return;
        }
        let ghost c0 = self.committed@;
        let ghost u0 = update.committed@;
        let ghost s0 = *self;
        if i == self.current_block_start_line || i == 0 {
            let line = self.line_of(i);
            self.current_mode = self.start_mode_for_line(line);
            let ghost c1 = self.committed@;
            let ghost u1 = update.committed@;
            self.maybe_commit_single_line(i, update);
            let ghost c2 = self.committed@;
            let ghost u2 = update.committed@;
            let ghost x2 = self.usage_view();
            let ghost v2 = update.invalidated@;
            let ghost s2 = *self;
            self.update_mode_with_line(i, update);
            proof {
                lemma_grew_trans(c0, c2, self.committed@, u0, u2, update.committed@);
                lemma_inv_grew_trans(ix0, iv0, ic0, x2, v2, u2, self.usage_view(), update.invalidated@, update.committed@, invalidation_on(self.opts));
                reveal(single_line_view);
                assert(blocks_v(u2).subrange(0, blocks_v(u0).len() as int) =~= blocks_v(u0));
                let line_i = line_text(s0.buffer_view(), s0.lines_view(), i as int);
                assert(s2.plugins_view() == s0.plugins_view());
                assert(claimed_mode(s0, decode_utf8(line_i), s2.cursor().mode));
                assert(opened_at(s0, s2, blocks_v(u0), blocks_v(u2), i as int));
            }
            return;
        }
        let prev = self.line_of(i - 1);
        let curr = self.line_of(i);
        let ps = self.any_plugin_starts(curr);
        let boundary = self.is_new_block_boundary(prev, curr, i, ps);
        if boundary {
            let next = self.start_mode_for_line(curr);
            self.commit_block(i - 1, update);
            let ghost c1 = self.committed@;
            let ghost u1 = update.committed@;
            let ghost x1 = self.usage_view();
            let ghost v1 = update.invalidated@;
            self.current_mode = next;
            let ghost s1m = *self;
            proof {
                assert(s1m.cursor().mode == mode_view(next));
                assert(s1m.plugins_view() == s0.plugins_view());
            }
            self.maybe_commit_single_line(i, update);
            let ghost c2 = self.committed@;
            let ghost u2 = update.committed@;
            let ghost x2 = self.usage_view();
            let ghost v2 = update.invalidated@;
            proof {
                lemma_grew_trans(c0, c1, c2, u0, u1, u2);
                lemma_inv_grew_trans(ix0, iv0, ic0, x1, v1, u1, x2, v2, u2, invalidation_on(self.opts));
            }
            let ghost s2 = *self;
            self.update_mode_with_line(i, update);
            proof {
                lemma_grew_trans(c0, c2, self.committed@, u0, u2, update.committed@);
                lemma_inv_grew_trans(ix0, iv0, ic0, x2, v2, u2, self.usage_view(), update.invalidated@, update.committed@, invalidation_on(self.opts));
                reveal(single_line_view);
                assert(blocks_v(u2).subrange(0, blocks_v(u0).len() as int) =~= blocks_v(u0));
                assert(s2.plugins_view() == s0.plugins_view());
                assert(s2.buffer_view() == s0.buffer_view());
                assert(s2.lines_view() == s0.lines_view());
                assert(curr@ == line_text(s0.buffer_view(), s0.lines_view(), i as int));
                if next is CustomBoundary {
                    assert(s2.cursor().mode == mode_view(next));
                }
                assert(claimed_mode(s0, decode_utf8(curr@), s2.cursor().mode));
                assert(opened_at(s0, s2, blocks_v(u0), blocks_v(u2), i as int));
                assert(plugin_open_step(s0, *self, blocks_v(u0), blocks_v(update.committed@), i as int));
                assert(plugins_answer(s0, decode_utf8(line_text(s0.buffer_view(), s0.lines_view(), i as int)), ps));
            }
            return;
        }
        proof {
            assert(plugins_answer(s0, decode_utf8(line_text(s0.buffer_view(), s0.lines_view(), i as int)), ps));
        }
        self.update_mode_with_line(i, update);
    }

    /// With the last line still open, a blank line followed by new text may already end the
    /// previous block.
    pub(crate) fn process_incomplete_tail_boundary(&mut self, update: &mut Update)
        requires
            old(self).wf(),
        ensures
            final(self).wf(),
            final(self).same_text(old(self)),
            grew_together(
                old(self).committed_view(),
                final(self).committed_view(),
                old(update).committed@,
                final(update).committed@,
            ),
            final(update).reset == old(update).reset,
            final(update).pending == old(update).pending,
            old(self).single_block_mode() ==> final(update).committed@ == old(update).committed@,
            old(self).plugin_count() == 0 && !(old(self).cursor().mode is CustomBoundary) ==> !(final(self).cursor().mode is CustomBoundary),
            old(self).plugin_count() == 0 && !(old(self).cursor().mode is CustomBoundary) ==> (final(self).cursor(), blocks_v(final(update).committed@)) == tail_view(
                old(self).buffer_view(),
                old(self).lines_view(),
                (old(self).cursor(), blocks_v(old(update).committed@)),
                old(self).single_block_mode(),
            ),
            inv_grew(
                old(self).usage_view(),
                old(update).invalidated@,
                old(update).committed@,
                final(self).usage_view(),
                final(update).invalidated@,
                final(update).committed@,
                invalidation_on(old(self).options()),
            ),
    {
        proof {
            lemma_inv_grew_refl(self.usage_view(), update.invalidated@, update.committed@, invalidation_on(self.opts));
        }
        let ghost ix0 = self.usage_view();
        let ghost iv0 = update.invalidated@;
        let ghost ic0 = update.committed@;
        proof {
            reveal(tail_view);
        }
        proof {
            lemma_grew_refl(self.committed@, update.committed@);
        }
        let n = self.lines.len();
        if n < 2 {
            return;
        }
        let last = n - 1;
        if self.lines[last].has_newline || !self.lines[last - 1].has_newline {
            return;
        }
        if self.opts.footnotes == crate::options::FootnotesMode::SingleBlock
            && self.footnotes_detected {
            return;
        }
        let prev = self.line_of(last - 1);
        let curr = self.line_of(last);
        let is_list = match self.current_mode {
            BlockMode::List => true,
            _ => false,
        };
        if is_list && crate::stream::classify::is_list_item_prefix(curr) {
            return;
        }
        let ps = self.any_plugin_starts(curr);
        if self.is_new_block_boundary(prev, curr, last, ps) {
            self.commit_block(last - 1, update);
            let curr = self.line_of(last);
            self.current_mode = self.start_mode_for_line(curr);
        }
    }
}

/// Two texts with line tables that agree on their first `m` lines, which lie in the shorter
/// text, a prefix of the longer one.
pub open spec fn agree_upto(b1: Seq<u8>, l1: Seq<Line>, b2: Seq<u8>, l2: Seq<Line>, m: int) -> bool {
    &&& 0 <= m <= l1.len()
    &&& m <= l2.len()
    &&& b1.len() <= b2.len()
    &&& b2.subrange(0, b1.len() as int) == b1
    &&& forall|j: int| 0 <= j < m ==> #[trigger] l1[j] == l2[j] && l1[j].start <= l1[j].end
        && end_nl(l1[j]) <= b1.len()
}

proof fn lemma_text_local(b1: Seq<u8>, l1: Seq<Line>, b2: Seq<u8>, l2: Seq<Line>, m: int, so: int, eo: int)
    requires
        agree_upto(b1, l1, b2, l2, m),
        0 <= so <= eo <= b1.len(),
    ensures
        b1.subrange(so, eo) == b2.subrange(so, eo),
{
    assert(b1.subrange(so, eo) =~= b2.subrange(0, b1.len() as int).subrange(so, eo));
}

proof fn lemma_line_local(b1: Seq<u8>, l1: Seq<Line>, b2: Seq<u8>, l2: Seq<Line>, m: int, j: int)
    requires
        agree_upto(b1, l1, b2, l2, m),
        0 <= j < m,
    ensures
        line_text(b1, l1, j) == line_text(b2, l2, j),
        l1[j] == l2[j],
{
    assert(l1[j] == l2[j]);
    lemma_text_local(b1, l1, b2, l2, m, l1[j].start as int, l1[j].end as int);
}

proof fn lemma_commit_local(
    b1: Seq<u8>,
    l1: Seq<Line>,
    b2: Seq<u8>,
    l2: Seq<Line>,
    m: int,
    st: (Cursor, Seq<(u64, BlockKind, Seq<u8>)>),
    e: int,
)
    requires
        agree_upto(b1, l1, b2, l2, m),
        0 <= e < m,
    ensures
        commit_view(b1, l1, st, e) == commit_view(b2, l2, st, e),
{
    reveal(commit_view);
    let c = st.0;
    if 0 <= c.start <= e {
        assert(l1[c.start] == l2[c.start]);
        assert(l1[e] == l2[e]);
        let so = l1[c.start].start as int;
        let eo = end_nl(l1[e]);
        if so < eo {
            lemma_text_local(b1, l1, b2, l2, m, so, eo);
        }
    }
}

proof fn lemma_single_local(
    b1: Seq<u8>,
    l1: Seq<Line>,
    b2: Seq<u8>,
    l2: Seq<Line>,
    m: int,
    st: (Cursor, Seq<(u64, BlockKind, Seq<u8>)>),
    i: int,
)
    requires
        agree_upto(b1, l1, b2, l2, m),
        0 <= i < m,
    ensures
        single_line_view(b1, l1, st, i) == single_line_view(b2, l2, st, i),
{
    reveal(single_line_view);
    lemma_commit_local(b1, l1, b2, l2, m, st, i);
}

proof fn lemma_update_local(
    b1: Seq<u8>,
    l1: Seq<Line>,
    b2: Seq<u8>,
    l2: Seq<Line>,
    m: int,
    st: (Cursor, Seq<(u64, BlockKind, Seq<u8>)>),
    i: int,
)
    requires
        agree_upto(b1, l1, b2, l2, m),
        0 <= i < m,
    ensures
        update_view(b1, l1, st, i) == update_view(b2, l2, st, i),
{
    reveal(update_view);
    lemma_line_local(b1, l1, b2, l2, m, i);
    if i > 0 {
        lemma_line_local(b1, l1, b2, l2, m, i - 1);
    }
    let line = line_text(b1, l1, i);
    lemma_commit_local(b1, l1, b2, l2, m, st, i);
    lemma_commit_local(b1, l1, b2, l2, m, with_mode(st, ModeView::Heading), i);
    lemma_single_local(b1, l1, b2, l2, m, with_mode(st, spec_start_mode(line)), i);
    match st.0.mode {
        ModeView::MathBlock { open_count } => {
            let p = ((open_count % 2 + dollars_from(line, 0) % 2) % 2) as usize;
            lemma_commit_local(b1, l1, b2, l2, m, with_mode(st, ModeView::MathBlock { open_count: p }), i);
        },
        ModeView::HtmlBlock { stack, in_comment } => {
            let h = html_scan(line, 0, stack, in_comment);
            lemma_commit_local(
                b1,
                l1,
                b2,
                l2,
                m,
                with_mode(st, ModeView::HtmlBlock { stack: h.0, in_comment: h.1 }),
                i,
            );
        },
        _ => {},
    }
}

proof fn lemma_process_local(
    b1: Seq<u8>,
    l1: Seq<Line>,
    b2: Seq<u8>,
    l2: Seq<Line>,
    m: int,
    st: (Cursor, Seq<(u64, BlockKind, Seq<u8>)>),
    i: int,
    single: bool,
)
    requires
        agree_upto(b1, l1, b2, l2, m),
        0 <= i < m,
    ensures
        process_view(b1, l1, st, i, single) == process_view(b2, l2, st, i, single),
{
    reveal(process_view);
    lemma_line_local(b1, l1, b2, l2, m, i);
    if i > 0 {
        lemma_line_local(b1, l1, b2, l2, m, i - 1);
        lemma_commit_local(b1, l1, b2, l2, m, st, i - 1);
    }
    let line = line_text(b1, l1, i);
    let st1 = with_mode(st, spec_start_mode(line));
    lemma_single_local(b1, l1, b2, l2, m, st1, i);
    lemma_update_local(b1, l1, b2, l2, m, single_line_view(b1, l1, st1, i), i);
    lemma_update_local(b1, l1, b2, l2, m, st, i);
    if i > 0 {
        let st2 = with_mode(commit_view(b1, l1, st, i - 1), spec_start_mode(line));
        lemma_single_local(b1, l1, b2, l2, m, st2, i);
        lemma_update_local(b1, l1, b2, l2, m, single_line_view(b1, l1, st2, i), i);
    }
}

pub(crate) proof fn lemma_run_local(
    b1: Seq<u8>,
    l1: Seq<Line>,
    b2: Seq<u8>,
    l2: Seq<Line>,
    m: int,
    st: (Cursor, Seq<(u64, BlockKind, Seq<u8>)>),
    from: int,
    to: int,
    single: bool,
)
    requires
        agree_upto(b1, l1, b2, l2, m),
        0 <= from,
        to <= m,
    ensures
        run_view(b1, l1, st, from, to, single) == run_view(b2, l2, st, from, to, single),
    decreases to - from,
{
    if to > from {
        lemma_run_local(b1, l1, b2, l2, m, st, from, to - 1, single);
        lemma_process_local(b1, l1, b2, l2, m, run_view(b1, l1, st, from, to - 1, single), to - 1, single);
    }
}

pub(crate) proof fn lemma_run_compose(
    b: Seq<u8>,
    l: Seq<Line>,
    st: (Cursor, Seq<(u64, BlockKind, Seq<u8>)>),
    from: int,
    mid: int,
    to: int,
    single: bool,
)
    requires
        from <= mid <= to,
    ensures
        run_view(b, l, st, from, to, single) == run_view(b, l, run_view(b, l, st, from, mid, single), mid, to, single),
    decreases to - mid,
{
    if to > mid {
        lemma_run_compose(b, l, st, from, mid, to - 1, single);
    }
}

/// The model only ever appends to the blocks it has emitted: running it after some blocks gives
/// those blocks followed by what it emits from scratch.
pub open spec fn emits_after(
    r: (Cursor, Seq<(u64, BlockKind, Seq<u8>)>),
    fresh: (Cursor, Seq<(u64, BlockKind, Seq<u8>)>),
    e: Seq<(u64, BlockKind, Seq<u8>)>,
) -> bool {
    r.0 == fresh.0 && r.1 == e + fresh.1
}

proof fn lemma_commit_sep(b: Seq<u8>, l: Seq<Line>, c: Cursor, e: Seq<(u64, BlockKind, Seq<u8>)>, k: int)
    ensures
        emits_after(commit_view(b, l, (c, e), k), commit_view(b, l, (c, Seq::empty()), k), e),
{
    reveal(commit_view);
    assert(e + Seq::<(u64, BlockKind, Seq<u8>)>::empty() =~= e);
    let c0 = c;
    if !(c0.start < 0 || c0.start >= l.len() || k < c0.start || k >= l.len()) {
        let so = l[c0.start].start as int;
        let eo = end_nl(l[k]);
        if eo > so && !bytes_blank(b.subrange(so, eo)) {
            let x = (c0.id, view_kind(c0.mode), b.subrange(so, eo));
            assert(e.push(x) =~= e + Seq::<(u64, BlockKind, Seq<u8>)>::empty().push(x));
        }
    }
}

proof fn lemma_single_sep(b: Seq<u8>, l: Seq<Line>, c: Cursor, e: Seq<(u64, BlockKind, Seq<u8>)>, k: int)
    ensures
        emits_after(single_line_view(b, l, (c, e), k), single_line_view(b, l, (c, Seq::empty()), k), e),
{
    reveal(single_line_view);
    lemma_commit_sep(b, l, c, e, k);
    assert(e + Seq::<(u64, BlockKind, Seq<u8>)>::empty() =~= e);
}

proof fn lemma_update_sep(b: Seq<u8>, l: Seq<Line>, c: Cursor, e: Seq<(u64, BlockKind, Seq<u8>)>, i: int)
    ensures
        emits_after(update_view(b, l, (c, e), i), update_view(b, l, (c, Seq::empty()), i), e),
{
    reveal(update_view);
    assert(e + Seq::<(u64, BlockKind, Seq<u8>)>::empty() =~= e);
    let line = line_text(b, l, i);
    lemma_commit_sep(b, l, c, e, i);
    lemma_commit_sep(b, l, Cursor { start: c.start, mode: ModeView::Heading, id: c.id }, e, i);
    lemma_single_sep(b, l, Cursor { start: c.start, mode: spec_start_mode(line), id: c.id }, e, i);
    match c.mode {
        ModeView::MathBlock { open_count } => {
            let p = ((open_count % 2 + dollars_from(line, 0) % 2) % 2) as usize;
            lemma_commit_sep(b, l, Cursor { start: c.start, mode: ModeView::MathBlock { open_count: p }, id: c.id }, e, i);
        },
        ModeView::HtmlBlock { stack, in_comment } => {
            let h = html_scan(line, 0, stack, in_comment);
            lemma_commit_sep(
                b,
                l,
                Cursor { start: c.start, mode: ModeView::HtmlBlock { stack: h.0, in_comment: h.1 }, id: c.id },
                e,
                i,
            );
        },
        _ => {},
    }
}

proof fn lemma_process_sep(b: Seq<u8>, l: Seq<Line>, c: Cursor, e: Seq<(u64, BlockKind, Seq<u8>)>, i: int, single: bool)
    ensures
        emits_after(process_view(b, l, (c, e), i, single), process_view(b, l, (c, Seq::empty()), i, single), e),
{
    reveal(process_view);
    assert(e + Seq::<(u64, BlockKind, Seq<u8>)>::empty() =~= e);
    let line = line_text(b, l, i);
    let c1 = Cursor { start: c.start, mode: spec_start_mode(line), id: c.id };
    lemma_single_sep(b, l, c1, e, i);
    let s1 = single_line_view(b, l, (c1, Seq::empty()), i);
    lemma_update_sep(b, l, s1.0, e + s1.1, i);
    lemma_update_sep(b, l, s1.0, s1.1, i);
    assert(e + (s1.1 + update_view(b, l, (s1.0, Seq::empty()), i).1) =~= (e + s1.1) + update_view(b, l, (s1.0, Seq::empty()), i).1);
    lemma_update_sep(b, l, c, e, i);
    lemma_commit_sep(b, l, c, e, i - 1);
    let k = commit_view(b, l, (c, Seq::empty()), i - 1);
    let c2 = Cursor { start: k.0.start, mode: spec_start_mode(line), id: k.0.id };
    lemma_single_sep(b, l, c2, k.1, i);
    lemma_single_sep(b, l, c2, e + k.1, i);
    lemma_single_sep(b, l, c2, e, i);
    let s2 = single_line_view(b, l, (c2, Seq::empty()), i);
    lemma_update_sep(b, l, s2.0, e + k.1 + s2.1, i);
    lemma_update_sep(b, l, s2.0, k.1 + s2.1, i);
    assert(e + k.1 + s2.1 =~= e + (k.1 + s2.1));
    assert(e + (k.1 + s2.1 + update_view(b, l, (s2.0, Seq::empty()), i).1) =~= e + (k.1 + s2.1) + update_view(b, l, (s2.0, Seq::empty()), i).1);
}

pub(crate) proof fn lemma_run_sep(b: Seq<u8>, l: Seq<Line>, c: Cursor, e: Seq<(u64, BlockKind, Seq<u8>)>, from: int, to: int, single: bool)
    ensures
        emits_after(run_view(b, l, (c, e), from, to, single), run_view(b, l, (c, Seq::empty()), from, to, single), e),
    decreases to - from,
{
    assert(e + Seq::<(u64, BlockKind, Seq<u8>)>::empty() =~= e);
    if to > from {
        lemma_run_sep(b, l, c, e, from, to - 1, single);
        let r0 = run_view(b, l, (c, Seq::empty()), from, to - 1, single);
        lemma_process_sep(b, l, r0.0, e + r0.1, to - 1, single);
        lemma_process_sep(b, l, r0.0, r0.1, to - 1, single);
        let f = process_view(b, l, (r0.0, Seq::empty()), to - 1, single);
        assert(e + r0.1 + f.1 =~= e + (r0.1 + f.1));
    }
}

pub(crate) proof fn lemma_tail_sep(b: Seq<u8>, l: Seq<Line>, c: Cursor, e: Seq<(u64, BlockKind, Seq<u8>)>, single: bool)
    ensures
        emits_after(tail_view(b, l, (c, e), single), tail_view(b, l, (c, Seq::empty()), single), e),
{
    reveal(tail_view);
    assert(e + Seq::<(u64, BlockKind, Seq<u8>)>::empty() =~= e);
    let n = l.len();
    if n >= 2 {
        lemma_commit_sep(b, l, c, e, n - 2);
    }
}

proof fn lemma_empty_line_starts_nothing(m: ModeView, prev: Seq<u8>, start: int, idx: int)
    ensures
        !spec_boundary(m, prev, Seq::empty(), start, idx, false),
        !crate::stream::classify::spec_list_item_prefix(Seq::empty()),
{
    let e = Seq::<u8>::empty();
    assert(decode_utf8(e) =~= Seq::<char>::empty());
    assert(crate::text::ws_trim_start(Seq::<char>::empty()) =~= Seq::<char>::empty());
    assert(crate::text::ws_trim_end(Seq::<char>::empty()) =~= Seq::<char>::empty());
    assert(encode_utf8(Seq::<char>::empty()) =~= e);
    assert(bytes_trim_start(e) =~= e);
    assert(bytes_trim(e) =~= e);
    assert(bytes_blank(e));
    assert(crate::text::strip3(e) =~= e);
}

/// After a line feed the open last line is empty, and an empty line never shows a new block.
pub(crate) proof fn lemma_tail_after_newline(
    b: Seq<u8>,
    c: Cursor,
    single: bool,
)
    requires
        b.len() <= usize::MAX,
        b.len() > 0,
        b.last() == 10,
    ensures
        tail_view(b, crate::stream::lines::canon_lines(b), (c, Seq::empty()), single) == (c, Seq::<(u64, BlockKind, Seq<u8>)>::empty()),
{
    reveal(tail_view);
    let l = crate::stream::lines::canon_lines(b);
    crate::stream::lines::lemma_canon_ends_with_newline(b);
    let n = l.len();
    assert(line_text(b, l, n - 1) =~= Seq::<u8>::empty());
    lemma_empty_line_starts_nothing(c.mode, line_text(b, l, n - 2), c.start, n - 1);
}

} // verus!
