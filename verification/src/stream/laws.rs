//! Laws of the stream that relate several calls.
use vstd::prelude::*;
use crate::types::{applied_committed, Block, Update};
use crate::stream::{
    append_commits, append_cursor, append_processed, committed_step, compacted, finalize_post,
    footnote_found, footnote_tail_after, ids_ok, MdStream,
};
use crate::stream::lines::{
    canon_lines, end_nl, lemma_lines_from_extend, lemma_lines_from_newlines, lemma_norm_run, lines_from,
    norm_scan, spec_normalize,
};
use crate::stream::split::{
    agree_upto, commit_view, def_labels_from, id_set, invalidated_after, invalidated_by, lemma_run_compose,
    lemma_run_local, lemma_run_sep, lemma_tail_after_newline, lemma_tail_sep, run_view, tail_view,
    usage_after, usages_added, Cursor, single_line_view, update_view, process_view, with_mode, line_text,
};
use crate::stream::ModeView;
use crate::stream::lines::{Line, lemma_lines_from_chain};
use crate::text::bytes_blank;
use crate::types::{BlockId, BlockKind};
use vstd::utf8::encode_utf8;

verus! {

/// A consumer that applies every update of a stream (as `DocumentState::apply` and
/// `Update::apply_to` do) holds exactly the stream's committed blocks afterwards, provided it
/// held them before.
pub proof fn law_applying_updates_tracks_stream(
    stream_before: Seq<Block>,
    stream_after: Seq<Block>,
    u: Update,
    held: Seq<Block>,
)
    requires
        committed_step(stream_before, stream_after, u.reset, u.committed@),
        held == stream_before,
    ensures
        applied_committed(held, u) == stream_after,
{
    if u.reset {
        assert(Seq::<Block>::empty() + u.committed@ =~= Seq::<Block>::empty());
    }
}

/// Committed blocks never change: across two updates without a reset, the blocks committed
/// before are still there, unchanged and in place.
pub proof fn law_committed_blocks_are_stable(
    c0: Seq<Block>,
    c1: Seq<Block>,
    c2: Seq<Block>,
    u1: Update,
    u2: Update,
)
    requires
        committed_step(c0, c1, u1.reset, u1.committed@),
        committed_step(c1, c2, u2.reset, u2.committed@),
        !u1.reset,
        !u2.reset,
    ensures
        c2.len() >= c0.len(),
        c2.subrange(0, c0.len() as int) == c0,
        c2 == c0 + u1.committed@ + u2.committed@,
{
    assert(c2.subrange(0, c0.len() as int) =~= c0);
}

/// Finalizing twice in a row: the second call commits nothing, reports no pending block and
/// leaves the committed blocks as they were.
pub proof fn law_finalize_is_idempotent(s0: MdStream, s1: MdStream, u1: Update, s2: MdStream, u2: Update)
    requires
        finalize_post(s0, s1, u1),
        finalize_post(s1, s2, u2),
    ensures
        u2.committed@.len() == 0,
        u2.pending is None,
        !u2.reset,
        s2.committed_view() == s1.committed_view(),
{
    assert(s1.committed_view() + u2.committed@ =~= s1.committed_view());
}

/// Block ids as cache keys: along the committed blocks ids never go down, none is above the id
/// of the block in progress (so blocks committed later never get a smaller id), and in
/// single-block footnote mode every committed block is block 1.
pub proof fn law_committed_ids_are_monotone(s: MdStream)
    requires
        s.wf(),
    ensures
        ids_ok(s.committed_view(), s.block_id().0, s.single_block_mode()),
{
}

/// Splitting does not depend on where the text is cut at line ends: appending `a` (ending
/// with a line feed) and then `b` commits the same blocks, in the same order, as appending
/// `a + b` at once, and leaves the splitter in the same place (without boundary plugins and with
/// the footnote mode unchanged; `x` is the text already held).
pub proof fn law_splitting_ignores_cuts_at_line_ends(
    x: Seq<u8>,
    a: Seq<u8>,
    b: Seq<u8>,
    c: Cursor,
    p: int,
    single: bool,
)
    requires
        a.len() > 0,
        a.last() == 10,
        0 <= p < canon_lines(x + a).len(),
        (x + a + b).len() <= usize::MAX,
    ensures
        ({
            let c1 = append_cursor(x + a, c, p, single);
            let p1 = append_processed(x + a, p);
            &&& append_commits(x + a, c, p, single) + append_commits(x + a + b, c1, p1, single)
                == append_commits(x + a + b, c, p, single)
            &&& append_cursor(x + a + b, c1, p1, single) == append_cursor(x + a + b, c, p, single)
            &&& append_processed(x + a + b, p1) == append_processed(x + a + b, p)
        }),
{
    let b1 = x + a;
    let b2 = x + a + b;
    let l1 = canon_lines(b1);
    let l2 = canon_lines(b2);
    assert(b1.last() == 10);
    lemma_lines_from_extend(b1, b, 0);
    lemma_lines_from_newlines(b1, 0);
    let m = l1.len() - 1;
    assert(l2 == l1.drop_last() + lines_from(b2, b1.len() as int));
    assert(b2.subrange(0, b1.len() as int) =~= b1);
    assert forall|j: int| 0 <= j < m implies #[trigger] l1[j] == l2[j] && l1[j].start <= l1[j].end
        && end_nl(l1[j]) <= b1.len() by {
        assert(l2[j] == l1.drop_last()[j]);
        assert(l1[j].has_newline);
    }
    assert(agree_upto(b1, l1, b2, l2, m));
    let e = Seq::<(u64, BlockKind, Seq<u8>)>::empty();
    let r1 = run_view(b1, l1, (c, e), p, m, single);
    lemma_run_local(b1, l1, b2, l2, m, (c, e), p, m, single);
    lemma_tail_sep(b1, l1, r1.0, r1.1, single);
    lemma_tail_after_newline(b1, r1.0, single);
    assert(r1.1 + e =~= r1.1);
    let n2 = l2.len() - 1;
    assert(m <= n2);
    lemma_run_compose(b2, l2, (c, e), p, m, n2, single);
    lemma_run_sep(b2, l2, r1.0, r1.1, m, n2, single);
    let r2 = run_view(b2, l2, (r1.0, e), m, n2, single);
    lemma_tail_sep(b2, l2, r2.0, r1.1 + r2.1, single);
    lemma_tail_sep(b2, l2, r2.0, r2.1, single);
    let t = tail_view(b2, l2, (r2.0, e), single);
    assert(r1.1 + (r2.1 + t.1) =~= r1.1 + r2.1 + t.1);
}

/// Block `blk` records a use of reference label `l` (as `extract_reference_usages` finds it):
/// it is not a code fence, it holds a `[`, and `l` is among its normalized usages.
pub open spec fn records_use(blk: Block, l: Seq<char>) -> bool {
    let raw = encode_utf8(blk.raw@);
    &&& blk.kind != BlockKind::CodeFence
    &&& raw.contains(91u8)
    &&& crate::reference::usage_scan(raw, 0).contains(l)
}

/// Block `blk` defines reference label `l`: it is not a code fence, it holds `]:`, and one of
/// its lines is a single-line definition of `l`.
pub open spec fn defines_label(blk: Block, l: Seq<char>) -> bool {
    let raw = encode_utf8(blk.raw@);
    &&& blk.kind != BlockKind::CodeFence
    &&& crate::text::find_from(raw, seq![93u8, 58u8], 0) is Some
    &&& def_labels_from(raw, 0).contains(l)
}

/// The usage index holds a (label, block) pair exactly when it held it before or one of the
/// blocks committed since, with that id, records a use of the label.
#[verifier::spinoff_prover]
pub proof fn law_usage_index_records_committed_uses(
    x0: Set<(Seq<char>, u64)>,
    bs: Seq<Block>,
    l: Seq<char>,
    b: u64,
)
    ensures
        usage_after(x0, bs).contains((l, b)) <==> (x0.contains((l, b)) || exists|k: int|
            0 <= k < bs.len() && #[trigger] bs[k].id.0 == b && records_use(bs[k], l)),
    decreases bs.len(),
{
    if bs.len() > 0 {
        let d = bs.drop_last();
        law_usage_index_records_committed_uses(x0, d, l, b);
        let n = bs.len() - 1;
        if exists|k: int| 0 <= k < bs.len() && #[trigger] bs[k].id.0 == b && records_use(bs[k], l) {
            let k = choose|k: int| 0 <= k < bs.len() && #[trigger] bs[k].id.0 == b && records_use(bs[k], l);
            if k < n {
                assert(d[k] == bs[k]);
            }
        }
        if exists|k: int| 0 <= k < d.len() && #[trigger] d[k].id.0 == b && records_use(d[k], l) {
            let k = choose|k: int| 0 <= k < d.len() && #[trigger] d[k].id.0 == b && records_use(d[k], l);
            assert(bs[k] == d[k]);
        }
    }
}

/// A paragraph whose previous line holds a `|`, followed by a table delimiter row (once trimmed:
/// not empty, only `|`, `:`, `-`, spaces and tabs, with a `-`) that is not a setext underline,
/// becomes a table: the block goes on, in table mode, and is committed with kind `Table`.
pub proof fn law_delimiter_row_makes_a_table(
    buf: Seq<u8>,
    lines: Seq<Line>,
    st: (Cursor, Seq<(u64, BlockKind, Seq<u8>)>),
    i: int,
)
    requires
        st.0.mode == ModeView::Paragraph,
        i > 0,
        line_text(buf, lines, i - 1).contains(124u8),
        crate::stream::classify::spec_setext_underline(line_text(buf, lines, i)) is None,
        ({
            let s = crate::text::bytes_trim(line_text(buf, lines, i));
            &&& s.len() > 0
            &&& forall|k: int| 0 <= k < s.len() ==> crate::stream::classify::delimiter_row_char(#[trigger] s[k])
            &&& exists|k: int| 0 <= k < s.len() && s[k] == 45u8
        }),
    ensures
        update_view(buf, lines, st, i) == with_mode(st, ModeView::Table),
        crate::stream::split::view_kind(ModeView::Table) == BlockKind::Table,
{
    reveal(update_view);
    crate::stream::classify::law_table_delimiter_rows(line_text(buf, lines, i));
}

/// The usage index accumulates across updates: committing `a` and then `b` records what
/// committing `a` followed by `b` at once records. From a fresh stream (whose index is empty)
/// the index is thus the record of every block committed since.
pub proof fn law_usage_index_accumulates(x: Set<(Seq<char>, u64)>, a: Seq<Block>, b: Seq<Block>)
    ensures
        usage_after(usage_after(x, a), b) == usage_after(x, a + b),
    decreases b.len(),
{
    if b.len() == 0 {
        assert(a + b =~= a);
    } else {
        law_usage_index_accumulates(x, a, b.drop_last());
        assert((a + b).drop_last() =~= a + b.drop_last());
        assert((a + b).last() == b.last());
    }
}

/// Invalidation accumulates across updates: what committing `a` and then `b` reports is what
/// committing `a` followed by `b` at once reports, the second update looking at the index the
/// first left.
pub proof fn law_invalidation_accumulates(
    x: Set<(Seq<char>, u64)>,
    a: Seq<Block>,
    b: Seq<Block>,
    on: bool,
)
    ensures
        invalidated_after(x, a + b, on) == invalidated_after(x, a, on).union(
            invalidated_after(usage_after(x, a), b, on),
        ),
    decreases b.len(),
{
    if b.len() == 0 {
        assert(a + b =~= a);
        assert(invalidated_after(x, a, on).union(Set::empty()) =~= invalidated_after(x, a, on));
    } else {
        law_invalidation_accumulates(x, a, b.drop_last(), on);
        law_usage_index_accumulates(x, a, b);
        assert((a + b).drop_last() =~= a + b.drop_last());
        assert((a + b).last() == b.last());
        assert(invalidated_after(x, a + b, on) =~= invalidated_after(x, a, on).union(
            invalidated_after(usage_after(x, a), b, on),
        ));
    }
}

/// Late reference definitions: once a definition is committed, the blocks committed before it
/// that used its label are reported for re-parsing. Exactly: with invalidation on, a block id
/// is reported when a block committed by the update defines a label that the usage index (as
/// it stands once that block is recorded) holds for that id, the defining block itself
/// excepted, and no other id is; with invalidation off nothing is reported.
pub proof fn law_late_definitions_invalidate_earlier_uses(
    x0: Set<(Seq<char>, u64)>,
    bs: Seq<Block>,
    invalidated: Seq<BlockId>,
    on: bool,
    b: u64,
)
    requires
        id_set(invalidated) == invalidated_after(x0, bs, on),
    ensures
        (exists|i: int| 0 <= i < invalidated.len() && #[trigger] invalidated[i].0 == b) <==> (on
            && exists|k: int, l: Seq<char>|
            0 <= k < bs.len() && #[trigger] defines_label(bs[k], l) && b != bs[k].id.0 && usage_after(
                x0,
                bs.subrange(0, k + 1),
            ).contains((l, b))),
        !on ==> invalidated.len() == 0,
{
    lemma_invalidated_after_exact(x0, bs, on, b);
    assert((exists|i: int| 0 <= i < invalidated.len() && #[trigger] invalidated[i].0 == b) <==> id_set(
        invalidated,
    ).contains(b));
    if !on && invalidated.len() > 0 {
        lemma_invalidated_after_exact(x0, bs, on, invalidated[0].0);
        assert(id_set(invalidated).contains(invalidated[0].0));
    }
}

proof fn lemma_invalidated_after_exact(x0: Set<(Seq<char>, u64)>, bs: Seq<Block>, on: bool, b: u64)
    ensures
        invalidated_after(x0, bs, on).contains(b) <==> (on && exists|k: int, l: Seq<char>|
            0 <= k < bs.len() && #[trigger] defines_label(bs[k], l) && b != bs[k].id.0 && usage_after(
                x0,
                bs.subrange(0, k + 1),
            ).contains((l, b))),
    decreases bs.len(),
{
    if bs.len() > 0 {
        let d = bs.drop_last();
        let n = bs.len() - 1;
        lemma_invalidated_after_exact(x0, d, on, b);
        assert(bs.subrange(0, n + 1) =~= bs);
        if invalidated_after(x0, bs, on).contains(b) {
            if invalidated_after(x0, d, on).contains(b) {
                let (k, l) = choose|k: int, l: Seq<char>|
                    0 <= k < d.len() && #[trigger] defines_label(d[k], l) && b != d[k].id.0 && usage_after(
                        x0,
                        d.subrange(0, k + 1),
                    ).contains((l, b));
                assert(bs[k] == d[k]);
                assert(d.subrange(0, k + 1) =~= bs.subrange(0, k + 1));
                assert(defines_label(bs[k], l));
            } else {
                let u = usage_after(x0, bs);
                let raw = encode_utf8(bs[n].raw@);
                assert(invalidated_by(u, bs[n], on).contains(b));
                let l = choose|l: Seq<char>| def_labels_from(raw, 0).contains(l) && #[trigger] u.contains((l, b));
                assert(defines_label(bs[n], l));
            }
        }
        if on && exists|k: int, l: Seq<char>|
            0 <= k < bs.len() && #[trigger] defines_label(bs[k], l) && b != bs[k].id.0 && usage_after(
                x0,
                bs.subrange(0, k + 1),
            ).contains((l, b)) {
            let (k, l) = choose|k: int, l: Seq<char>|
                0 <= k < bs.len() && #[trigger] defines_label(bs[k], l) && b != bs[k].id.0 && usage_after(
                    x0,
                    bs.subrange(0, k + 1),
                ).contains((l, b));
            if k < n {
                assert(d[k] == bs[k]);
                assert(d.subrange(0, k + 1) =~= bs.subrange(0, k + 1));
                assert(defines_label(d[k], l));
            } else {
                let u = usage_after(x0, bs);
                let raw = encode_utf8(bs[n].raw@);
                assert(u.contains((l, b)));
                assert(invalidated_by(u, bs[n], on).contains(b));
            }
        }
    }
}

/// The text a stream holds once all of `t` has arrived and the stream is finalized: the
/// normalised text, with a held-back final `\r` as a line feed.
pub open spec fn normalized_text(t: Seq<u8>) -> Seq<u8> {
    let n = spec_normalize(false, t);
    if n.1 {
        n.0.push(10u8)
    } else {
        n.0
    }
}

proof fn lemma_norm_scan_no_cr(c: Seq<u8>, i: int)
    ensures
        !norm_scan(c, i).0.contains(13u8),
    decreases c.len() - i,
{
    if 0 <= i < c.len() {
        if c[i] != 13 {
            lemma_norm_scan_no_cr(c, i + 1);
            assert(!(seq![c[i]] + norm_scan(c, i + 1).0).contains(13u8)) by {
                let t = seq![c[i]] + norm_scan(c, i + 1).0;
                assert forall|q: int| 0 <= q < t.len() implies t[q] != 13u8 by {
                    if q > 0 {
                        assert(t[q] == norm_scan(c, i + 1).0[q - 1]);
                    }
                }
            }
        } else if i + 1 < c.len() && c[i + 1] == 10 {
            lemma_norm_scan_no_cr(c, i + 2);
            let t = seq![10u8] + norm_scan(c, i + 2).0;
            assert forall|q: int| 0 <= q < t.len() implies t[q] != 13u8 by {
                if q > 0 {
                    assert(t[q] == norm_scan(c, i + 2).0[q - 1]);
                }
            }
        } else if i + 1 < c.len() {
            lemma_norm_scan_no_cr(c, i + 1);
            let t = seq![10u8] + norm_scan(c, i + 1).0;
            assert forall|q: int| 0 <= q < t.len() implies t[q] != 13u8 by {
                if q > 0 {
                    assert(t[q] == norm_scan(c, i + 1).0[q - 1]);
                }
            }
        }
    }
}

/// Line endings: once a stream has taken the whole text, it holds no carriage return (`\r\n`
/// and a lone `\r` both became `\n`), and text that had none is held unchanged. So text
/// written with `\r\n` or `\r` line ends is split like the same text written with `\n`.
pub proof fn law_line_endings_become_line_feeds(t: Seq<u8>)
    ensures
        !normalized_text(t).contains(13u8),
        !t.contains(13u8) ==> normalized_text(t) == t,
        normalized_text(normalized_text(t)) == normalized_text(t),
{
    lemma_norm_scan_no_cr(t, 0);
    let n = spec_normalize(false, t);
    let r = normalized_text(t);
    if n.1 {
        assert forall|q: int| 0 <= q < r.len() implies r[q] != 13u8 by {
            if q < n.0.len() {
                assert(r[q] == n.0[q]);
            }
        }
    }
    assert(!r.contains(13u8));
    assert forall|q: int| 0 <= q < r.len() implies r[q] != 13 by {}
    lemma_norm_run(r, 0, r.len() as int);
    assert(r.subrange(0, r.len() as int) =~= r);
    assert(norm_scan(r, r.len() as int).0 =~= Seq::<u8>::empty());
    assert(r + Seq::<u8>::empty() =~= r);
    if !t.contains(13u8) {
        assert forall|q: int| 0 <= q < t.len() implies t[q] != 13 by {}
        lemma_norm_run(t, 0, t.len() as int);
        assert(t.subrange(0, t.len() as int) =~= t);
        assert(t + Seq::<u8>::empty() =~= t);
    }
}

/// Line-ending style does not change splitting: appending a text written with `\r\n` or lone
/// `\r` line ends, or the same text written with `\n` (its `normalized_text`), to a stream that
/// holds no `\r` back leaves the same text in the stream and commits the same blocks, leaving
/// the splitter in the same place. (A final lone `\r` is held back until the next chunk or
/// `finalize`, where it becomes the `\n` the other text ends with.)
pub proof fn law_line_ending_style_does_not_matter(t: Seq<u8>, x: Seq<u8>, c: Cursor, p: int, single: bool)
    ensures
        !spec_normalize(false, normalized_text(t)).1,
        !spec_normalize(false, t).1 ==> spec_normalize(false, t).0 == spec_normalize(false, normalized_text(t)).0,
        spec_normalize(false, t).1 ==> spec_normalize(false, t).0.push(10u8) == spec_normalize(
            false,
            normalized_text(t),
        ).0,
        !spec_normalize(false, t).1 ==> append_commits(x + spec_normalize(false, t).0, c, p, single)
            == append_commits(x + spec_normalize(false, normalized_text(t)).0, c, p, single)
            && append_cursor(x + spec_normalize(false, t).0, c, p, single) == append_cursor(
            x + spec_normalize(false, normalized_text(t)).0,
            c,
            p,
            single,
        ),
{
    law_line_endings_become_line_feeds(t);
    let r = normalized_text(t);
    assert forall|q: int| 0 <= q < r.len() implies r[q] != 13 by {}
    lemma_norm_run(r, 0, r.len() as int);
    assert(r.subrange(0, r.len() as int) =~= r);
    assert(norm_scan(r, r.len() as int).0 =~= Seq::<u8>::empty());
    assert(r + Seq::<u8>::empty() =~= r);
}

/// Buffer compaction (`max_buffer_bytes`) drops only text before the block in progress: what
/// it keeps is a suffix of the text that holds that block from its first line on, and once
/// that block fits under the cap (outside single-block footnote mode) so does the kept text.
pub proof fn law_compaction_keeps_block_in_progress(
    buf: Seq<u8>,
    start: int,
    max: Option<usize>,
    single: bool,
)
    requires
        buf.len() <= usize::MAX,
        0 <= start < canon_lines(buf).len(),
    ensures
        ({
            let k = canon_lines(buf)[start].start as int;
            let kept = compacted(buf, start, max, single);
            &&& kept == buf.subrange(buf.len() - kept.len(), buf.len() as int)
            &&& kept.len() >= buf.len() - k
            &&& (max matches Some(m) ==> (!single && buf.len() - k <= m ==> kept.len() <= m))
        }),
{
    lemma_lines_from_newlines(buf, 0);
    assert(canon_lines(buf)[start].start <= buf.len());
    assert(buf.subrange(0, buf.len() as int) =~= buf);
}

/// The reset signal comes at most once (until the stream is reset): a stream that has seen a
/// footnote finds no first footnote again and keeps its scan tail, so no later append reports
/// a reset (appends report one only when a first footnote is found).
pub proof fn law_reset_comes_at_most_once(s: MdStream, t: Seq<u8>)
    requires
        s.footnotes_seen(),
    ensures
        !footnote_found(s, t),
        footnote_tail_after(s, t) == s.footnote_tail(),
{
}

/// Block ids in the splitter's output rise: each committed block has a larger id than the ones
/// before it, none is below `lo`, and the block in progress has a larger id still (ids stop
/// rising only once they reach `u64::MAX - 1`).
pub open spec fn ids_rising(lo: u64, st: (Cursor, Seq<(u64, BlockKind, Seq<u8>)>)) -> bool {
    &&& lo <= st.0.id
    &&& forall|i: int, j: int| 0 <= i < j < st.1.len() ==> st.1[i].0 < st.1[j].0 || st.1[i].0 >= u64::MAX - 1
    &&& forall|i: int| 0 <= i < st.1.len() ==> lo <= st.1[i].0 && (st.1[i].0 < st.0.id || (st.0.id >= u64::MAX - 1 && st.1[i].0 <= st.0.id))
}

proof fn lemma_commit_ids(lo: u64, buf: Seq<u8>, lines: Seq<crate::stream::lines::Line>, st: (Cursor, Seq<(u64, BlockKind, Seq<u8>)>), e: int)
    requires
        ids_rising(lo, st),
    ensures
        ids_rising(lo, commit_view(buf, lines, st, e)),
{
    reveal(commit_view);
    let r = commit_view(buf, lines, st, e);
    if r.1.len() == st.1.len() + 1 {
        assert forall|i: int, j: int| 0 <= i < j < r.1.len() implies r.1[i].0 < r.1[j].0 || r.1[i].0 >= u64::MAX - 1 by {
            assert(r.1[i] == st.1[i]);
            if j < st.1.len() {
                assert(r.1[j] == st.1[j]);
            }
        }
        assert forall|i: int| 0 <= i < r.1.len() implies lo <= r.1[i].0 && (r.1[i].0 < r.0.id || (r.0.id >= u64::MAX - 1 && r.1[i].0 <= r.0.id)) by {
            if i < st.1.len() {
                assert(r.1[i] == st.1[i]);
            }
        }
    }
}

proof fn lemma_single_ids(lo: u64, buf: Seq<u8>, lines: Seq<crate::stream::lines::Line>, st: (Cursor, Seq<(u64, BlockKind, Seq<u8>)>), i: int)
    requires
        ids_rising(lo, st),
    ensures
        ids_rising(lo, single_line_view(buf, lines, st, i)),
{
    reveal(single_line_view);
    lemma_commit_ids(lo, buf, lines, st, i);
}

proof fn lemma_update_ids(lo: u64, buf: Seq<u8>, lines: Seq<crate::stream::lines::Line>, st: (Cursor, Seq<(u64, BlockKind, Seq<u8>)>), i: int)
    requires
        ids_rising(lo, st),
    ensures
        ids_rising(lo, update_view(buf, lines, st, i)),
{
    reveal(update_view);
    let c = st.0;
    let line = line_text(buf, lines, i);
    match c.mode {
        ModeView::Unknown => {
            lemma_single_ids(lo, buf, lines, with_mode(st, crate::stream::split::spec_start_mode(line)), i);
        },
        ModeView::MathBlock { open_count } => {
            let p = ((open_count % 2 + crate::stream::classify::dollars_from(line, 0) % 2) % 2) as usize;
            lemma_commit_ids(lo, buf, lines, with_mode(st, ModeView::MathBlock { open_count: p }), i);
        },
        ModeView::Paragraph => {
            lemma_commit_ids(lo, buf, lines, with_mode(st, ModeView::Heading), i);
        },
        ModeView::HtmlBlock { stack, in_comment } => {
            let h = crate::stream::html::html_scan(line, 0, stack, in_comment);
            lemma_commit_ids(lo, buf, lines, with_mode(st, ModeView::HtmlBlock { stack: h.0, in_comment: h.1 }), i);
        },
        _ => {
            lemma_commit_ids(lo, buf, lines, st, i);
        },
    }
}

proof fn lemma_process_ids(lo: u64, buf: Seq<u8>, lines: Seq<crate::stream::lines::Line>, st: (Cursor, Seq<(u64, BlockKind, Seq<u8>)>), i: int, single: bool)
    requires
        ids_rising(lo, st),
    ensures
        ids_rising(lo, process_view(buf, lines, st, i, single)),
{
    reveal(process_view);
    let st1 = with_mode(st, crate::stream::split::spec_start_mode(line_text(buf, lines, i)));
    lemma_single_ids(lo, buf, lines, st1, i);
    lemma_update_ids(lo, buf, lines, single_line_view(buf, lines, st1, i), i);
    let c1 = commit_view(buf, lines, st, i - 1);
    lemma_commit_ids(lo, buf, lines, st, i - 1);
    let st2 = with_mode(c1, crate::stream::split::spec_start_mode(line_text(buf, lines, i)));
    lemma_single_ids(lo, buf, lines, st2, i);
    lemma_update_ids(lo, buf, lines, single_line_view(buf, lines, st2, i), i);
    lemma_update_ids(lo, buf, lines, st, i);
}

proof fn lemma_run_ids(lo: u64, buf: Seq<u8>, lines: Seq<crate::stream::lines::Line>, st: (Cursor, Seq<(u64, BlockKind, Seq<u8>)>), from: int, to: int, single: bool)
    requires
        ids_rising(lo, st),
    ensures
        ids_rising(lo, run_view(buf, lines, st, from, to, single)),
    decreases to - from,
{
    if to > from {
        lemma_run_ids(lo, buf, lines, st, from, to - 1, single);
        lemma_process_ids(lo, buf, lines, run_view(buf, lines, st, from, to - 1, single), to - 1, single);
    }
}

proof fn lemma_tail_ids(lo: u64, buf: Seq<u8>, lines: Seq<crate::stream::lines::Line>, st: (Cursor, Seq<(u64, BlockKind, Seq<u8>)>), single: bool)
    requires
        ids_rising(lo, st),
    ensures
        ids_rising(lo, tail_view(buf, lines, st, single)),
{
    reveal(tail_view);
    let n = lines.len();
    lemma_commit_ids(lo, buf, lines, st, n - 2);
}

/// Block ids of an append (without boundary plugins) rise: the blocks it commits have ids that
/// strictly increase, none below the id of the block that was in progress, and the block then
/// in progress (the pending block) has an id above all of them; ids stop rising only once they
/// reach `u64::MAX - 1`.
pub proof fn law_append_ids_rise(buf: Seq<u8>, c: Cursor, p: int, single: bool)
    ensures
        ({
            let out = append_commits(buf, c, p, single);
            let c1 = append_cursor(buf, c, p, single);
            &&& c.id <= c1.id
            &&& forall|i: int, j: int| 0 <= i < j < out.len() ==> out[i].0 < out[j].0 || out[i].0 >= u64::MAX - 1
            &&& forall|i: int| 0 <= i < out.len() ==> c.id <= out[i].0 && (out[i].0 < c1.id || c1.id >= u64::MAX - 1)
        }),
{
    let lines = canon_lines(buf);
    let st0 = (c, Seq::<(u64, BlockKind, Seq<u8>)>::empty());
    lemma_run_ids(c.id, buf, lines, st0, p, lines.len() - 1, single);
    lemma_tail_ids(c.id, buf, lines, run_view(buf, lines, st0, p, lines.len() - 1, single), single);
}

/// Where line `k` starts in the text (the end of the text past the last line).
pub open spec fn line_pos(buf: Seq<u8>, lines: Seq<Line>, k: int) -> int {
    if 0 <= k < lines.len() {
        lines[k].start as int
    } else {
        buf.len() as int
    }
}

/// The non-blank pieces of text between consecutive cut lines, for the first `n` cuts.
pub open spec fn pieces(buf: Seq<u8>, lines: Seq<Line>, cuts: Seq<int>, n: int) -> Seq<Seq<u8>>
    decreases n,
{
    if n <= 1 {
        Seq::empty()
    } else {
        let piece = buf.subrange(line_pos(buf, lines, cuts[n - 2]), line_pos(buf, lines, cuts[n - 1]));
        if bytes_blank(piece) {
            pieces(buf, lines, cuts, n - 1)
        } else {
            pieces(buf, lines, cuts, n - 1).push(piece)
        }
    }
}

/// The raw texts of committed blocks.
pub open spec fn raws(out: Seq<(u64, BlockKind, Seq<u8>)>) -> Seq<Seq<u8>> {
    Seq::new(out.len(), |i: int| out[i].2)
}

/// The blocks `out` are the non-blank pieces of text between rising cut lines that end at line
/// `start`.
pub open spec fn cut_at(buf: Seq<u8>, lines: Seq<Line>, cuts: Seq<int>, start: int, out: Seq<(u64, BlockKind, Seq<u8>)>) -> bool {
    &&& cuts.len() >= 1
    &&& cuts.last() == start
    &&& forall|i: int| 0 <= i < cuts.len() - 1 ==> #[trigger] cuts[i] < cuts[i + 1]
    &&& raws(out) == pieces(buf, lines, cuts, cuts.len() as int)
}

/// The splitter's blocks so far are consecutive slices of the text from line `lo` on, blank
/// pieces dropped, up to the block in progress.
pub open spec fn slices_ok(buf: Seq<u8>, lines: Seq<Line>, lo: int, st: (Cursor, Seq<(u64, BlockKind, Seq<u8>)>)) -> bool {
    exists|cuts: Seq<int>| #![trigger cut_at(buf, lines, cuts, st.0.start, st.1)] cuts[0] == lo && cut_at(buf, lines, cuts, st.0.start, st.1)
}

proof fn lemma_pieces_push(buf: Seq<u8>, lines: Seq<Line>, cuts: Seq<int>, x: int, n: int)
    requires
        0 <= n <= cuts.len(),
    ensures
        pieces(buf, lines, cuts.push(x), n) == pieces(buf, lines, cuts, n),
    decreases n,
{
    if n > 1 {
        lemma_pieces_push(buf, lines, cuts, x, n - 1);
        assert(cuts.push(x)[n - 2] == cuts[n - 2]);
        assert(cuts.push(x)[n - 1] == cuts[n - 1]);
    }
}

proof fn lemma_mode_slices(buf: Seq<u8>, lines: Seq<Line>, lo: int, st: (Cursor, Seq<(u64, BlockKind, Seq<u8>)>), m: ModeView)
    requires
        slices_ok(buf, lines, lo, st),
    ensures
        slices_ok(buf, lines, lo, with_mode(st, m)),
{
    let cuts = choose|cuts: Seq<int>| cuts[0] == lo && cut_at(buf, lines, cuts, st.0.start, st.1);
    let st1 = with_mode(st, m);
    assert(cut_at(buf, lines, cuts, st1.0.start, st1.1));
}

proof fn lemma_commit_slices(buf: Seq<u8>, lines: Seq<Line>, lo: int, st: (Cursor, Seq<(u64, BlockKind, Seq<u8>)>), e: int)
    requires
        buf.len() <= usize::MAX,
        lines == canon_lines(buf),
        slices_ok(buf, lines, lo, st),
    ensures
        slices_ok(buf, lines, lo, commit_view(buf, lines, st, e)),
{
    reveal(commit_view);
    let c = st.0;
    if !(c.start < 0 || c.start >= lines.len() || e < c.start || e >= lines.len()) {
        let so = lines[c.start].start as int;
        let eo = end_nl(lines[e]);
        if eo > so {
            lemma_lines_from_chain(buf, 0);
            assert(line_pos(buf, lines, e + 1) == eo) by {
                if e + 1 < lines.len() {
                    assert(lines[e + 1].start == end_nl(lines[e]));
                } else {
                    assert(lines[e] == lines.last());
                }
            }
            let cuts = choose|cuts: Seq<int>| cuts[0] == lo && cut_at(buf, lines, cuts, st.0.start, st.1);
            let n = cuts.len() as int;
            let cuts1 = cuts.push(e + 1);
            lemma_pieces_push(buf, lines, cuts, e + 1, n);
            assert(cuts1[n - 1] == c.start && cuts1[n] == e + 1);
            let r = commit_view(buf, lines, st, e);
            assert forall|i: int| 0 <= i < cuts1.len() - 1 implies #[trigger] cuts1[i] < cuts1[i + 1] by {
                if i < n - 1 {
                    assert(cuts1[i] == cuts[i] && cuts1[i + 1] == cuts[i + 1]);
                }
            }
            if !bytes_blank(buf.subrange(so, eo)) {
                assert(raws(r.1) =~= raws(st.1).push(buf.subrange(so, eo)));
            }
            assert(cut_at(buf, lines, cuts1, r.0.start, r.1));
            assert(cuts1[0] == lo);
        }
    }
}

proof fn lemma_single_slices(buf: Seq<u8>, lines: Seq<Line>, lo: int, st: (Cursor, Seq<(u64, BlockKind, Seq<u8>)>), i: int)
    requires
        buf.len() <= usize::MAX,
        lines == canon_lines(buf),
        slices_ok(buf, lines, lo, st),
    ensures
        slices_ok(buf, lines, lo, single_line_view(buf, lines, st, i)),
{
    reveal(single_line_view);
    lemma_commit_slices(buf, lines, lo, st, i);
}

proof fn lemma_update_slices(buf: Seq<u8>, lines: Seq<Line>, lo: int, st: (Cursor, Seq<(u64, BlockKind, Seq<u8>)>), i: int)
    requires
        buf.len() <= usize::MAX,
        lines == canon_lines(buf),
        slices_ok(buf, lines, lo, st),
    ensures
        slices_ok(buf, lines, lo, update_view(buf, lines, st, i)),
{
    reveal(update_view);
    let c = st.0;
    let line = line_text(buf, lines, i);
    match c.mode {
        ModeView::Unknown => {
            let m = crate::stream::split::spec_start_mode(line);
            lemma_mode_slices(buf, lines, lo, st, m);
            lemma_single_slices(buf, lines, lo, with_mode(st, m), i);
        },
        ModeView::MathBlock { open_count } => {
            let p = ((open_count % 2 + crate::stream::classify::dollars_from(line, 0) % 2) % 2) as usize;
            let m = ModeView::MathBlock { open_count: p };
            lemma_mode_slices(buf, lines, lo, st, m);
            lemma_commit_slices(buf, lines, lo, with_mode(st, m), i);
        },
        ModeView::Paragraph => {
            lemma_mode_slices(buf, lines, lo, st, ModeView::Heading);
            lemma_mode_slices(buf, lines, lo, st, ModeView::Table);
            lemma_commit_slices(buf, lines, lo, with_mode(st, ModeView::Heading), i);
        },
        ModeView::HtmlBlock { stack, in_comment } => {
            let h = crate::stream::html::html_scan(line, 0, stack, in_comment);
            let m = ModeView::HtmlBlock { stack: h.0, in_comment: h.1 };
            lemma_mode_slices(buf, lines, lo, st, m);
            lemma_commit_slices(buf, lines, lo, with_mode(st, m), i);
        },
        _ => {
            lemma_commit_slices(buf, lines, lo, st, i);
        },
    }
}

proof fn lemma_process_slices(buf: Seq<u8>, lines: Seq<Line>, lo: int, st: (Cursor, Seq<(u64, BlockKind, Seq<u8>)>), i: int, single: bool)
    requires
        buf.len() <= usize::MAX,
        lines == canon_lines(buf),
        slices_ok(buf, lines, lo, st),
    ensures
        slices_ok(buf, lines, lo, process_view(buf, lines, st, i, single)),
{
    reveal(process_view);
    let m = crate::stream::split::spec_start_mode(line_text(buf, lines, i));
    let st1 = with_mode(st, m);
    lemma_mode_slices(buf, lines, lo, st, m);
    lemma_single_slices(buf, lines, lo, st1, i);
    lemma_update_slices(buf, lines, lo, single_line_view(buf, lines, st1, i), i);
    let c1 = commit_view(buf, lines, st, i - 1);
    lemma_commit_slices(buf, lines, lo, st, i - 1);
    let st2 = with_mode(c1, m);
    lemma_mode_slices(buf, lines, lo, c1, m);
    lemma_single_slices(buf, lines, lo, st2, i);
    lemma_update_slices(buf, lines, lo, single_line_view(buf, lines, st2, i), i);
    lemma_update_slices(buf, lines, lo, st, i);
}

proof fn lemma_run_slices(buf: Seq<u8>, lines: Seq<Line>, lo: int, st: (Cursor, Seq<(u64, BlockKind, Seq<u8>)>), from: int, to: int, single: bool)
    requires
        buf.len() <= usize::MAX,
        lines == canon_lines(buf),
        slices_ok(buf, lines, lo, st),
    ensures
        slices_ok(buf, lines, lo, run_view(buf, lines, st, from, to, single)),
    decreases to - from,
{
    if to > from {
        lemma_run_slices(buf, lines, lo, st, from, to - 1, single);
        lemma_process_slices(buf, lines, lo, run_view(buf, lines, st, from, to - 1, single), to - 1, single);
    }
}

proof fn lemma_tail_slices(buf: Seq<u8>, lines: Seq<Line>, lo: int, st: (Cursor, Seq<(u64, BlockKind, Seq<u8>)>), single: bool)
    requires
        buf.len() <= usize::MAX,
        lines == canon_lines(buf),
        slices_ok(buf, lines, lo, st),
    ensures
        slices_ok(buf, lines, lo, tail_view(buf, lines, st, single)),
{
    reveal(tail_view);
    let n = lines.len();
    lemma_commit_slices(buf, lines, lo, st, n - 2);
    let c1 = commit_view(buf, lines, st, n - 2);
    lemma_mode_slices(buf, lines, lo, c1, crate::stream::split::spec_start_mode(line_text(buf, lines, n - 1)));
}

/// Blocks are consecutive slices of the text: the blocks an append commits (without boundary
/// plugins) are, in order, the non-blank pieces of the text between rising cut lines, from the
/// first line of the block that was in progress to the first line of the block now in progress
/// (whose text, from that line on, is the pending block). Only blank pieces fall between blocks.
pub proof fn law_append_blocks_are_consecutive_slices(buf: Seq<u8>, c: Cursor, p: int, single: bool)
    requires
        buf.len() <= usize::MAX,
    ensures
        exists|cuts: Seq<int>|
            #![trigger cut_at(buf, canon_lines(buf), cuts, append_cursor(buf, c, p, single).start, append_commits(buf, c, p, single))]
            cuts[0] == c.start && cut_at(
                buf,
                canon_lines(buf),
                cuts,
                append_cursor(buf, c, p, single).start,
                append_commits(buf, c, p, single),
            ),
{
    let lines = canon_lines(buf);
    let st0 = (c, Seq::<(u64, BlockKind, Seq<u8>)>::empty());
    let cuts0 = seq![c.start];
    assert(raws(st0.1) =~= Seq::<Seq<u8>>::empty());
    assert(cut_at(buf, lines, cuts0, st0.0.start, st0.1));
    lemma_run_slices(buf, lines, c.start, st0, p, lines.len() - 1, single);
    let st1 = run_view(buf, lines, st0, p, lines.len() - 1, single);
    lemma_tail_slices(buf, lines, c.start, st1, single);
    let st2 = tail_view(buf, lines, st1, single);
    let cuts = choose|cuts: Seq<int>| cuts[0] == c.start && cut_at(buf, lines, cuts, st2.0.start, st2.1);
    assert(cut_at(buf, lines, cuts, append_cursor(buf, c, p, single).start, append_commits(buf, c, p, single)));
}

} // verus!
