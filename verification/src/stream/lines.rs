//! The line table over the stream buffer.
use vstd::prelude::*;
use vstd::utf8::*;
use crate::text::{extend, lemma_valid_slice, slice};

verus! {

/// A line of the buffer: `start..end` excludes the line feed, which is present when
/// `has_newline`.
#[derive(Clone, Copy)]
pub struct Line {
    pub start: usize,
    pub end: usize,
    pub has_newline: bool,
}

/// A line's bounds lie in the buffer, begin after a line feed (or at the start) and end at a line
/// feed (or at the end).
pub open spec fn line_ok(buf: Seq<u8>, l: Line) -> bool {
    &&& l.start <= l.end <= buf.len()
    &&& (l.start == 0 || buf[l.start - 1] == 10)
    &&& (l.end == buf.len() || buf[l.end as int] == 10)
    &&& (l.has_newline ==> l.end < buf.len())
}

/// The line table: at least one line, all well placed, the last one open and reaching the end.
pub open spec fn lines_ok(buf: Seq<u8>, lines: Seq<Line>) -> bool {
    &&& lines.len() >= 1
    &&& forall|i: int| 0 <= i < lines.len() ==> line_ok(buf, #[trigger] lines[i])
    &&& forall|i: int| 0 <= i < lines.len() - 1 ==> (#[trigger] lines[i]).has_newline
    &&& !lines.last().has_newline
    &&& lines.last().end == buf.len()
}

/// The line table is exact: the lines follow one another from the start of the buffer, and no
/// line holds a line feed.
pub closed spec fn lines_exact(buf: Seq<u8>, lines: Seq<Line>) -> bool {
    &&& lines_ok(buf, lines)
    &&& lines[0].start == 0
    &&& forall|i: int| 0 < i < lines.len() ==> #[trigger] lines[i].start == lines[i - 1].end + 1
    &&& forall|i: int, k: int|
        #![trigger lines[i], buf[k]]
        0 <= i < lines.len() && lines[i].start <= k < lines[i].end ==> buf[k] != 10
}

/// The lines of `buf` from byte `p` on, split at line feeds.
pub open spec fn lines_from(buf: Seq<u8>, p: int) -> Seq<Line>
    decreases buf.len() - p,
{
    if p < 0 || p > buf.len() {
        Seq::empty()
    } else {
        match crate::text::find_byte(buf, 10, p) {
            Some(q) => if q < p || q >= buf.len() {
                Seq::empty()
            } else {
                seq![Line { start: p as usize, end: q as usize, has_newline: true }] + lines_from(
                    buf,
                    q + 1,
                )
            },
            None => seq![Line { start: p as usize, end: buf.len() as usize, has_newline: false }],
        }
    }
}

/// The line table of a buffer.
pub open spec fn canon_lines(buf: Seq<u8>) -> Seq<Line> {
    lines_from(buf, 0)
}

proof fn lemma_exact_from(buf: Seq<u8>, lines: Seq<Line>, j: int)
    requires
        lines_exact(buf, lines),
        0 <= j < lines.len(),
    ensures
        lines.subrange(j, lines.len() as int) == lines_from(buf, lines[j].start as int),
    decreases lines.len() - j,
{
    let l = lines[j];
    assert(line_ok(buf, l));
    assert forall|k: int| l.start <= k < l.end implies buf[k] != 10 by {
        assert(lines[j] == l);
    }
    if j == lines.len() - 1 {
        crate::text::lemma_find_byte_none(buf, 10, l.start as int);
        assert(lines.subrange(j, lines.len() as int) =~= seq![l]);
    } else {
        assert(l.has_newline);
        crate::text::lemma_find_byte_at(buf, 10, l.start as int, l.end as int);
        assert(lines[j + 1].start == l.end + 1);
        lemma_exact_from(buf, lines, j + 1);
        assert(lines.subrange(j, lines.len() as int) =~= seq![l] + lines.subrange(j + 1, lines.len() as int));
    }
}

/// An exact line table is the line table of its buffer.
pub proof fn lemma_exact_canon(buf: Seq<u8>, lines: Seq<Line>)
    requires
        lines_exact(buf, lines),
    ensures
        lines == canon_lines(buf),
{
    lemma_exact_from(buf, lines, 0);
    assert(lines.subrange(0, lines.len() as int) =~= lines);
}

pub proof fn lemma_empty_ok(lines: Seq<Line>)
    requires
        lines == seq![Line { start: 0, end: 0, has_newline: false }],
    ensures
        lines_ok(Seq::empty(), lines),
        lines_exact(Seq::empty(), lines),
{
}

/// End of a line including its line feed.
pub open spec fn end_nl(l: Line) -> int {
    if l.has_newline {
        l.end + 1
    } else {
        l.end as int
    }
}

pub fn end_with_newline(l: &Line) -> (r: usize)
    requires
        l.has_newline ==> l.end < usize::MAX,
    ensures
        r == end_nl(*l),
{
    if l.has_newline {
        l.end + 1
    } else {
        l.end
    }
}

pub proof fn lemma_line_valid(buf: Seq<u8>, l: Line)
    requires
        valid_utf8(buf),
        line_ok(buf, l),
    ensures
        valid_utf8(buf.subrange(l.start as int, l.end as int)),
        end_nl(l) <= buf.len(),
{
    lemma_valid_slice(buf, l.start as int, l.end as int);
}

/// The text from a line start to a line end (including its line feed) is valid UTF-8.
pub proof fn lemma_span_valid(buf: Seq<u8>, a: Line, b: Line)
    requires
        valid_utf8(buf),
        line_ok(buf, a),
        line_ok(buf, b),
        a.start <= end_nl(b),
    ensures
        valid_utf8(buf.subrange(a.start as int, end_nl(b))),
        end_nl(b) <= buf.len(),
{
    lemma_valid_slice(buf, a.start as int, end_nl(b));
}

/// The bytes of a line.
pub fn line_bytes<'a>(buf: &'a [u8], l: &Line) -> (r: &'a [u8])
    requires
        valid_utf8(buf@),
        line_ok(buf@, *l),
    ensures
        r@ == buf@.subrange(l.start as int, l.end as int),
        valid_utf8(r@),
{
    proof {
        lemma_line_valid(buf@, *l);
    }
    slice(buf, l.start, l.end)
}

/// Lines of `buf`, given lines that cover `buf[..from]` plus an open last line starting at or
/// before `from`: the scan continues from `from`.
fn scan_newlines(buf: &[u8], lines: &mut Vec<Line>, from: usize)
    requires
        old(lines)@.len() >= 1,
        forall|i: int| 0 <= i < old(lines)@.len() ==> line_ok(buf@, #[trigger] old(lines)@[i]),
        forall|i: int| 0 <= i < old(lines)@.len() - 1 ==> (#[trigger] old(lines)@[i]).has_newline,
        !old(lines)@.last().has_newline,
        old(lines)@.last().end == buf@.len(),
        old(lines)@.last().start <= from <= buf@.len(),
        old(lines)@[0].start == 0,
        forall|i: int| 0 < i < old(lines)@.len() ==> #[trigger] old(lines)@[i].start == old(lines)@[i - 1].end + 1,
        forall|i: int, k: int|
            #![trigger old(lines)@[i], buf@[k]]
            0 <= i < old(lines)@.len() - 1 && old(lines)@[i].start <= k < old(lines)@[i].end ==> buf@[k] != 10,
        forall|k: int| old(lines)@.last().start <= k < from ==> buf@[k] != 10,
    ensures
        lines_ok(buf@, final(lines)@),
        lines_exact(buf@, final(lines)@),
        final(lines)@.len() >= old(lines)@.len(),
        forall|i: int| 0 <= i < old(lines)@.len() - 1 ==> final(lines)@[i] == old(lines)@[i],
        final(lines)@[old(lines)@.len() - 1].start == old(lines)@.last().start,
        from < buf@.len() && buf@[from as int] == 10 ==> final(lines)@[old(lines)@.len() - 1].end
            == from,
        forall|k: int| old(lines)@.len() <= k < final(lines)@.len() ==> final(lines)@[k].start > from,
{
    let n = buf.len();
    let mut i = from;
    let ghost l0 = lines@;
    while i < n
        invariant
            from <= i <= n == buf@.len(),
            lines@.len() >= l0.len() >= 1,
            forall|k: int| 0 <= k < lines@.len() ==> line_ok(buf@, #[trigger] lines@[k]),
            forall|k: int| 0 <= k < lines@.len() - 1 ==> (#[trigger] lines@[k]).has_newline,
            !lines@.last().has_newline,
            lines@.last().end == n,
            lines@.last().start <= i,
            forall|k: int| 0 <= k < l0.len() - 1 ==> lines@[k] == l0[k],
            lines@[l0.len() - 1].start == l0.last().start,
            from < n && buf@[from as int] == 10 && i > from ==> lines@.len() > l0.len() && lines@[l0.len() - 1].end == from,
            i == from ==> lines@ == l0,
            forall|k: int| l0.len() <= k < lines@.len() ==> lines@[k].start > from,
            lines@[0].start == 0,
            forall|q: int| 0 < q < lines@.len() ==> #[trigger] lines@[q].start == lines@[q - 1].end + 1,
            forall|q: int, k: int|
                #![trigger lines@[q], buf@[k]]
                0 <= q < lines@.len() - 1 && lines@[q].start <= k < lines@[q].end ==> buf@[k] != 10,
            forall|k: int| lines@.last().start <= k < i ==> buf@[k] != 10,
        decreases n - i,
    {
        if buf[i] == 10 {
            let last = lines.len() - 1;
            let st = lines[last].start;
            lines.set(last, Line { start: st, end: i, has_newline: true });
            lines.push(Line { start: i + 1, end: n, has_newline: false });
        }
        i += 1;
    }
}

/// Append `chunk` to the buffer and extend the line table.
pub fn append_to_lines(buffer: &mut Vec<u8>, lines: &mut Vec<Line>, chunk: &[u8])
    requires
        valid_utf8(old(buffer)@),
        valid_utf8(chunk@),
        lines_ok(old(buffer)@, old(lines)@),
        lines_exact(old(buffer)@, old(lines)@),
    ensures
        final(buffer)@ == old(buffer)@ + chunk@,
        valid_utf8(final(buffer)@),
        lines_ok(final(buffer)@, final(lines)@),
        lines_exact(final(buffer)@, final(lines)@),
        final(lines)@.len() >= old(lines)@.len(),
        forall|i: int| 0 <= i < old(lines)@.len() - 1 ==> final(lines)@[i] == old(lines)@[i],
        final(lines)@[old(lines)@.len() - 1].start == old(lines)@.last().start,
        chunk@.len() > 0 && chunk@[0] == 10 ==> final(lines)@[old(lines)@.len() - 1].end == old(
            buffer,
        )@.len(),        forall|k: int| old(lines)@.len() <= k < final(lines)@.len() ==> final(lines)@[k].start > old(
            buffer,
        )@.len(),
{
    let start_offset = buffer.len();
    let ghost b0 = buffer@;
    extend(buffer, chunk);
    proof {
        valid_utf8_concat(b0, chunk@);
    }
    let last = lines.len() - 1;
    let st = lines[last].start;
    lines.set(last, Line { start: st, end: buffer.len(), has_newline: false });
    assert forall|i: int| 0 <= i < lines@.len() implies line_ok(buffer@, #[trigger] lines@[i]) by {
        if i < last {
            assert(line_ok(b0, lines@[i]));
            assert(lines@[i].has_newline);
            assert(buffer@[lines@[i].end as int] == b0[lines@[i].end as int]);
            if lines@[i].start > 0 {
                assert(buffer@[lines@[i].start - 1] == b0[lines@[i].start - 1]);
            }
        } else {
            if st > 0 {
                assert(buffer@[st - 1] == b0[st - 1]);
            }
        }
    }
    proof {
        assert forall|i: int| 0 < i < lines@.len() implies #[trigger] lines@[i].start == lines@[i
            - 1].end + 1 by {
            assert(old(lines)@[i].start == old(lines)@[i - 1].end + 1);
        }
        assert forall|i: int, k: int|
            #![trigger lines@[i], buffer@[k]]
            0 <= i < lines@.len() - 1 && lines@[i].start <= k < lines@[i].end implies buffer@[k] != 10 by {
            assert(old(lines)@[i] == lines@[i]);
            assert(b0[k] != 10);
        }
        assert forall|k: int| lines@.last().start <= k < start_offset implies buffer@[k] != 10 by {
            let ol = old(lines)@[last as int];
            assert(ol.end == b0.len());
            assert(b0[k] != 10);
        }
    }
    scan_newlines(buffer.as_slice(), lines, start_offset);
}

/// The line table of a whole buffer.
pub fn rebuild_lines(buffer: &[u8]) -> (r: Vec<Line>)
    ensures
        lines_ok(buffer@, r@),
        lines_exact(buffer@, r@),
        r@[0].start == 0,
{
    let mut lines: Vec<Line> = Vec::new();
    lines.push(Line { start: 0, end: buffer.len(), has_newline: false });
    scan_newlines(buffer, &mut lines, 0);
    lines
}


/// Line-ending normalisation from position `i`: `\r\n` and a lone `\r` become `\n`; a `\r` at
/// the very end is held back (the flag), as it may start a `\r\n` split across chunks.
pub open spec fn norm_scan(c: Seq<u8>, i: int) -> (Seq<u8>, bool)
    decreases c.len() - i,
{
    if i < 0 || i >= c.len() {
        (Seq::empty(), false)
    } else if c[i] != 13 {
        (seq![c[i]] + norm_scan(c, i + 1).0, norm_scan(c, i + 1).1)
    } else if i + 1 < c.len() && c[i + 1] == 10 {
        (seq![10u8] + norm_scan(c, i + 2).0, norm_scan(c, i + 2).1)
    } else if i + 1 == c.len() {
        (Seq::empty(), true)
    } else {
        (seq![10u8] + norm_scan(c, i + 1).0, norm_scan(c, i + 1).1)
    }
}

/// Normalisation of a chunk given whether the previous chunk ended with a held-back `\r`.
pub open spec fn spec_normalize(pending_cr: bool, c: Seq<u8>) -> (Seq<u8>, bool) {
    if pending_cr {
        let s: int = if c.len() > 0 && c[0] == 10 {
            1
        } else {
            0
        };
        (seq![10u8] + norm_scan(c, s).0, norm_scan(c, s).1)
    } else {
        norm_scan(c, 0)
    }
}

pub(crate) proof fn lemma_norm_run(c: Seq<u8>, i: int, k: int)
    requires
        0 <= i <= k <= c.len(),
        forall|q: int| i <= q < k ==> c[q] != 13,
    ensures
        norm_scan(c, i).0 == c.subrange(i, k) + norm_scan(c, k).0,
        norm_scan(c, i).1 == norm_scan(c, k).1,
    decreases k - i,
{
    if i < k {
        lemma_norm_run(c, i + 1, k);
        assert(c.subrange(i, k) =~= seq![c[i]] + c.subrange(i + 1, k));
    } else {
        assert(c.subrange(i, k) =~= Seq::<u8>::empty());
    }
}

/// Normalise line endings of a chunk.
pub fn normalize_newlines(chunk: &[u8], pending_cr: bool) -> (r: (Vec<u8>, bool))
    requires
        valid_utf8(chunk@),
    ensures
        (r.0@, r.1) == spec_normalize(pending_cr, chunk@),
        valid_utf8(r.0@),
{
    let n = chunk.len();
    let mut out: Vec<u8> = Vec::new();
    let mut i: usize = 0;
    if pending_cr {
        if n > 0 && chunk[0] == 10 {
            i = 1;
        }
        out.push(10);
        proof {
            assert(crate::text::all_ascii(out@));
            crate::text::lemma_ascii_valid(out@);
        }
    }
    let ghost prefix = out@;
    let ghost total = spec_normalize(pending_cr, chunk@);
    assert(total.0 == out@ + norm_scan(chunk@, i as int).0);
    loop
        invariant
            i <= n == chunk@.len(),
            valid_utf8(chunk@),
            valid_utf8(out@),
            i == 0 || chunk@[i - 1] < 128,
            total == spec_normalize(pending_cr, chunk@),
            total.0 == out@ + norm_scan(chunk@, i as int).0,
            total.1 == norm_scan(chunk@, i as int).1,
        decreases n - i,
    {
        proof {
            crate::text::lemma_find_byte(chunk@, 13, i as int);
        }
        let k = match crate::text::find_byte_exec(chunk, 13, i) {
            Some(k) => k,
            None => n,
        };
        proof {
            lemma_norm_run(chunk@, i as int, k as int);
            crate::text::lemma_valid_slice(chunk@, i as int, k as int);
            valid_utf8_concat(out@, chunk@.subrange(i as int, k as int));
        }
        let ghost before = out@;
        extend(&mut out, slice(chunk, i, k));
        assert(total.0 == out@ + norm_scan(chunk@, k as int).0);
        if k == n {
            assert(norm_scan(chunk@, k as int).0 =~= Seq::<u8>::empty());
            assert(out@ + Seq::<u8>::empty() =~= out@);
            return (out, false);
        }
        if k + 1 < n && chunk[k + 1] == 10 {
            proof {
                assert(crate::text::all_ascii(seq![10u8]));
                crate::pending::balance::lemma_append_ascii(out@, seq![10u8]);
                assert(out@.push(10) =~= out@ + seq![10u8]);
            }
            out.push(10);
            i = k + 2;
        } else if k + 1 == n {
            assert(out@ + Seq::<u8>::empty() =~= out@);
            return (out, true);
        } else {
            proof {
                assert(crate::text::all_ascii(seq![10u8]));
                crate::pending::balance::lemma_append_ascii(out@, seq![10u8]);
                assert(out@.push(10) =~= out@ + seq![10u8]);
            }
            out.push(10);
            i = k + 1;
        }
    }
}

proof fn lemma_norm_shift(a: Seq<u8>, b: Seq<u8>, k: int)
    requires
        0 <= k <= b.len(),
    ensures
        norm_scan(a + b, a.len() + k) == norm_scan(b, k),
    decreases b.len() - k,
{
    let ab = a + b;
    if k < b.len() {
        assert(ab[a.len() + k] == b[k]);
        if k + 1 < b.len() {
            assert(ab[a.len() + k + 1] == b[k + 1]);
        }
        lemma_norm_shift(a, b, k + 1);
        if k + 2 <= b.len() {
            lemma_norm_shift(a, b, k + 2);
        }
    }
}

proof fn lemma_norm_split(a: Seq<u8>, b: Seq<u8>, i: int)
    requires
        0 <= i <= a.len(),
        b.len() > 0,
    ensures
        norm_scan(a + b, i).0 == norm_scan(a, i).0 + spec_normalize(norm_scan(a, i).1, b).0,
        norm_scan(a + b, i).1 == spec_normalize(norm_scan(a, i).1, b).1,
    decreases a.len() - i,
{
    let ab = a + b;
    if i == a.len() {
        lemma_norm_shift(a, b, 0);
        assert(Seq::<u8>::empty() + norm_scan(b, 0).0 =~= norm_scan(b, 0).0);
    } else {
        assert(ab[i] == a[i]);
        if i + 1 < a.len() {
            assert(ab[i + 1] == a[i + 1]);
        }
        if a[i] != 13 {
            lemma_norm_split(a, b, i + 1);
            assert(seq![a[i]] + norm_scan(a, i + 1).0 + spec_normalize(norm_scan(a, i + 1).1, b).0
                =~= seq![a[i]] + (norm_scan(a, i + 1).0 + spec_normalize(norm_scan(a, i + 1).1, b).0));
        } else if i + 1 < a.len() && a[i + 1] == 10 {
            lemma_norm_split(a, b, i + 2);
            assert(seq![10u8] + norm_scan(a, i + 2).0 + spec_normalize(norm_scan(a, i + 2).1, b).0
                =~= seq![10u8] + (norm_scan(a, i + 2).0 + spec_normalize(norm_scan(a, i + 2).1, b).0));
        } else if i + 1 == a.len() {
            assert(ab[i + 1] == b[0]);
            if b[0] == 10 {
                lemma_norm_shift(a, b, 1);
            } else {
                lemma_norm_shift(a, b, 0);
            }
            assert(Seq::<u8>::empty() + spec_normalize(true, b).0 =~= spec_normalize(true, b).0);
        } else {
            lemma_norm_split(a, b, i + 1);
            assert(seq![10u8] + norm_scan(a, i + 1).0 + spec_normalize(norm_scan(a, i + 1).1, b).0
                =~= seq![10u8] + (norm_scan(a, i + 1).0 + spec_normalize(norm_scan(a, i + 1).1, b).0));
        }
    }
}

/// Line-ending normalisation does not depend on where the text is cut into chunks: normalising
/// `a + b` gives what normalising `a` and then `b` (with the `\r` held back from `a`) gives,
/// for non-empty chunks.
pub proof fn law_normalize_chunking(pending_cr: bool, a: Seq<u8>, b: Seq<u8>)
    requires
        a.len() > 0,
        b.len() > 0,
    ensures
        spec_normalize(pending_cr, a + b).0 == spec_normalize(pending_cr, a).0 + spec_normalize(
            spec_normalize(pending_cr, a).1,
            b,
        ).0,
        spec_normalize(pending_cr, a + b).1 == spec_normalize(spec_normalize(pending_cr, a).1, b).1,
{
    let ab = a + b;
    if pending_cr {
        let s: int = if a[0] == 10 {
            1
        } else {
            0
        };
        assert(ab[0] == a[0]);
        lemma_norm_split(a, b, s);
        assert(seq![10u8] + norm_scan(a, s).0 + spec_normalize(norm_scan(a, s).1, b).0 =~= seq![10u8]
            + (norm_scan(a, s).0 + spec_normalize(norm_scan(a, s).1, b).0));
    } else {
        lemma_norm_split(a, b, 0);
    }
}

proof fn lemma_find_byte_extend(b1: Seq<u8>, b2: Seq<u8>, c: u8, p: int, q: int)
    requires
        0 <= p,
        crate::text::find_byte(b1, c, p) == Some(q),
    ensures
        crate::text::find_byte(b1 + b2, c, p) == Some(q),
{
    crate::text::lemma_find_byte(b1, c, p);
    let b = b1 + b2;
    assert forall|t: int| p <= t < q implies b[t] != c by {
        assert(b[t] == b1[t]);
    }
    assert(b[q] == b1[q]);
    crate::text::lemma_find_byte_at(b, c, p, q);
}

/// Extending a text that ends with a line feed keeps its complete lines: the lines of the
/// longer text from `p` are those of the shorter one, its empty last line replaced by the lines
/// of the extension.
pub proof fn lemma_lines_from_extend(b1: Seq<u8>, b2: Seq<u8>, p: int)
    requires
        0 <= p <= b1.len(),
        b1.len() > 0,
        b1.last() == 10,
    ensures
        lines_from(b1, p).len() >= 1,
        lines_from(b1, p).last() == (Line { start: b1.len() as usize, end: b1.len() as usize, has_newline: false }),
        lines_from(b1 + b2, p) == lines_from(b1, p).drop_last() + lines_from(b1 + b2, b1.len() as int),
        lines_from(b1 + b2, b1.len() as int).len() >= 1,
    decreases b1.len() - p,
{
    let b = b1 + b2;
    if p < b1.len() {
        crate::text::lemma_find_byte(b1, 10, p);
        match crate::text::find_byte(b1, 10, p) {
            Some(q) => {
                lemma_find_byte_extend(b1, b2, 10, p, q);
                lemma_lines_from_extend(b1, b2, q + 1);
                let l = Line { start: p as usize, end: q as usize, has_newline: true };
                let rest = lines_from(b1, q + 1);
                assert(lines_from(b1, p) == seq![l] + rest);
                assert((seq![l] + rest).drop_last() =~= seq![l] + rest.drop_last());
                assert(lines_from(b, p) == seq![l] + lines_from(b, q + 1));
                assert(seq![l] + (rest.drop_last() + lines_from(b, b1.len() as int)) =~= seq![l]
                    + rest.drop_last() + lines_from(b, b1.len() as int));
            },
            None => {
                assert(b1[b1.len() - 1] == 10);
                assert(false);
            },
        }
    } else {
        crate::text::lemma_find_byte(b1, 10, p);
        assert(lines_from(b1, p) =~= seq![Line { start: b1.len() as usize, end: b1.len() as usize, has_newline: false }]);
        assert(lines_from(b1, p).drop_last() =~= Seq::<Line>::empty());
        assert(Seq::<Line>::empty() + lines_from(b, b1.len() as int) =~= lines_from(b, b1.len() as int));
    }
    if b.len() == b1.len() {
        crate::text::lemma_find_byte(b, 10, b1.len() as int);
    } else {
        crate::text::lemma_find_byte(b, 10, b1.len() as int);
    }
}

#[verifier::spinoff_prover]
#[verifier::rlimit(30)]
pub proof fn lemma_lines_from_newlines(b: Seq<u8>, p: int)
    requires
        b.len() <= usize::MAX,
    ensures
        forall|j: int| 0 <= j < lines_from(b, p).len() - 1 ==> #[trigger] lines_from(b, p)[j].has_newline,
        forall|j: int| 0 <= j < lines_from(b, p).len() ==> #[trigger] lines_from(b, p)[j].start
            <= lines_from(b, p)[j].end <= b.len() && (lines_from(b, p)[j].has_newline
            ==> lines_from(b, p)[j].end < b.len()),
    decreases b.len() - p,
{
    if 0 <= p <= b.len() {
        match crate::text::find_byte(b, 10, p) {
            Some(q) => {
                if p <= q < b.len() {
                    lemma_lines_from_newlines(b, q + 1);
                    let l = Line { start: p as usize, end: q as usize, has_newline: true };
                    assert(lines_from(b, p) == seq![l] + lines_from(b, q + 1));
                    assert(lines_from(b, p)[0] == l);
                    assert(l.start as int == p && l.end as int == q);
                    assert forall|j: int| 0 <= j < lines_from(b, p).len() - 1 implies #[trigger] lines_from(
                        b,
                        p,
                    )[j].has_newline by {
                        if j > 0 {
                            assert(lines_from(b, p)[j] == lines_from(b, q + 1)[j - 1]);
                        }
                    }
                    assert forall|j: int| 0 <= j < lines_from(b, p).len() implies #[trigger] lines_from(
                        b,
                        p,
                    )[j].start <= lines_from(b, p)[j].end <= b.len() && (lines_from(b, p)[j].has_newline
                        ==> lines_from(b, p)[j].end < b.len()) by {
                        let rest = lines_from(b, q + 1);
                        assert(lines_from(b, p).len() == 1 + rest.len());
                        if j > 0 {
                            assert(lines_from(b, p)[j] == rest[j - 1]);
                            assert(0 <= j - 1 < rest.len());
                            let x = rest[j - 1];
                            assert(x.start <= x.end <= b.len() && (x.has_newline ==> x.end < b.len()));
                        } else {
                            assert(lines_from(b, p)[j] == l);
                        }
                    }
                } else {
                    assert(lines_from(b, p) =~= Seq::<Line>::empty());
                }
            },
            None => {
                let l = Line { start: p as usize, end: b.len() as usize, has_newline: false };
                assert(lines_from(b, p) == seq![l]);
                assert(l.start as int == p && l.end as int == b.len());
                assert forall|j: int| 0 <= j < lines_from(b, p).len() implies #[trigger] lines_from(
                    b,
                    p,
                )[j].start <= lines_from(b, p)[j].end <= b.len() && (lines_from(b, p)[j].has_newline
                    ==> lines_from(b, p)[j].end < b.len()) by {
                    assert(j == 0);
                    assert(lines_from(b, p)[j] == l);
                }
            },
        }
    } else {
        assert(lines_from(b, p) =~= Seq::<Line>::empty());
    }
}

/// The lines of `b` from `p` follow one another: each starts right after the line feed that ends
/// the one before, the first starts at `p`, and the last is open and ends at the end of `b`.
pub proof fn lemma_lines_from_chain(b: Seq<u8>, p: int)
    requires
        b.len() <= usize::MAX,
        0 <= p <= b.len(),
    ensures
        lines_from(b, p).len() >= 1,
        lines_from(b, p)[0].start == p,
        forall|j: int| 0 <= j < lines_from(b, p).len() - 1 ==> #[trigger] lines_from(b, p)[j + 1].start
            == end_nl(lines_from(b, p)[j]),
        !lines_from(b, p).last().has_newline,
        lines_from(b, p).last().end == b.len(),
    decreases b.len() - p,
{
    lemma_lines_from_newlines(b, p);
    match crate::text::find_byte(b, 10, p) {
        Some(q) => {
            crate::text::lemma_find_byte(b, 10, p);
            lemma_lines_from_chain(b, q + 1);
            lemma_lines_from_newlines(b, q + 1);
            let l = Line { start: p as usize, end: q as usize, has_newline: true };
            let rest = lines_from(b, q + 1);
            assert(lines_from(b, p) == seq![l] + rest);
            assert forall|j: int| 0 <= j < lines_from(b, p).len() - 1 implies #[trigger] lines_from(b, p)[j + 1].start
                == end_nl(lines_from(b, p)[j]) by {
                assert(lines_from(b, p)[0] == l);
                if j == 0 {
                    assert(lines_from(b, p)[1] == rest[0]);
                    assert(rest[0].start == q + 1);
                } else {
                    let jj = j - 1;
                    assert(lines_from(b, p)[j] == rest[jj]);
                    assert(lines_from(b, p)[j + 1] == rest[jj + 1]);
                    assert(rest[jj + 1].start == end_nl(rest[jj]));
                }
            }
            assert(lines_from(b, p).last() == rest.last());
        },
        None => {},
    }
}

/// The line table of a text that ends with a line feed: at least two lines, the last one empty
/// and open, the one before it complete.
pub proof fn lemma_canon_ends_with_newline(b: Seq<u8>)
    requires
        b.len() <= usize::MAX,
        b.len() > 0,
        b.last() == 10,
    ensures
        canon_lines(b).len() >= 2,
        canon_lines(b).last() == (Line { start: b.len() as usize, end: b.len() as usize, has_newline: false }),
        canon_lines(b)[canon_lines(b).len() - 2].has_newline,
{
    lemma_lines_from_extend(b, Seq::empty(), 0);
    assert(b + Seq::<u8>::empty() =~= b);
    crate::text::lemma_find_byte(b, 10, 0);
    match crate::text::find_byte(b, 10, 0) {
        Some(q) => {
            lemma_lines_from_extend(b, Seq::empty(), q + 1);
        },
        None => {
            assert(b[b.len() - 1] == 10);
        },
    }
    lemma_lines_from_newlines(b, 0);
}

} // verus!
