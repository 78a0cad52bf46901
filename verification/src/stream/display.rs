//! The pending block and what it displays.
use vstd::prelude::*;
use vstd::utf8::*;
use vstd::string::StringSliceAdditionalSpecFns;
use crate::options::FootnotesMode;
use crate::pending::terminator::{spec_terminate, terminate_markdown_bytes};
use crate::stream::classify::{fence_end, fence_start, spec_fence_end, spec_fence_start};
use crate::stream::lines::{line_ok, lines_ok};
use crate::stream::split::{kind_for_mode, mode_kind};
use crate::stream::{BlockMode, MdStream};
use crate::text::{
    as_str, ascii_lower, bytes_eq, extend, find_byte, find_byte_exec, first_token, lemma_encode_valid,
    lemma_find_byte, lemma_valid_slice, rfind_before, rfind_pat, slice, string_of, to_ascii_lower,
    to_vec,
};
use crate::transform::{PendingTransformInput, PendingTransformer, TransformerEntry};
use crate::types::{Block, BlockId, BlockKind, BlockStatus};

verus! {

broadcast use vstd::string::group_string_axioms;

/// The last line of a text, its final line feed aside; `None` when it is the first line.
pub open spec fn last_line_start(t: Seq<u8>) -> Option<int> {
    let body = if t.len() > 0 && t[t.len() - 1] == 10 {
        t.subrange(0, t.len() - 1)
    } else {
        t
    };
    match rfind_before(body, seq![10u8], body.len() as int) {
        Some(k) => Some(k + 1),
        None => None,
    }
}

pub open spec fn body_end(t: Seq<u8>) -> int {
    if t.len() > 0 && t[t.len() - 1] == 10 {
        t.len() - 1
    } else {
        t.len() as int
    }
}

/// A pending code fence is displayed closed: unless its last line already closes it, a line
/// feed (when missing) and a closing fence are appended.
pub open spec fn spec_close_fence(display: Seq<u8>, raw: Seq<u8>, fc: u8, fl: int) -> Seq<u8> {
    let closed = match last_line_start(raw) {
        Some(k) => spec_fence_end(raw.subrange(k, body_end(raw)), fc, fl),
        None => false,
    };
    if closed {
        display
    } else {
        let nl = if display.len() > 0 && display[display.len() - 1] == 10 {
            Seq::<u8>::empty()
        } else {
            seq![10u8]
        };
        display + nl + Seq::new(fl as nat, |i: int| fc) + seq![10u8]
    }
}

fn close_fence(display: Vec<u8>, raw: &[u8], fc: u8, fl: usize) -> (r: Vec<u8>)
    requires
        valid_utf8(display@),
        valid_utf8(raw@),
        fc < 128,
    ensures
        r@ == spec_close_fence(display@, raw@, fc, fl as int),
        valid_utf8(r@),
{
    let n = raw.len();
    let be: usize = if n > 0 && raw[n - 1] == 10 {
        n - 1
    } else {
        n
    };
    let body = slice(raw, 0, be);
    let nl: &[u8] = &[10u8];
    assert(nl@ =~= seq![10u8]);
    let closed = match rfind_pat(body, nl, be) {
        Some(k) => {
            proof {
                lemma_valid_slice(raw@, k + 1, be as int);
                assert(body@.subrange(0, body@.len() as int) =~= body@);
            }
            assert(raw@.subrange(0, be as int) == body@);
            fence_end(slice(raw, k + 1, be), fc, fl)
        },
        None => false,
    };
    assert(body@ =~= raw@.subrange(0, body_end(raw@)));
    assert(be == body_end(raw@));
    assert(body@ =~= (if raw@.len() > 0 && raw@[raw@.len() - 1] == 10 {
        raw@.subrange(0, raw@.len() - 1)
    } else {
        raw@
    }));
    assert(last_line_start(raw@) == match rfind_before(body@, seq![10u8], be as int) {
        Some(k) => Some(k + 1),
        None => None,
    });
    assert(closed == match last_line_start(raw@) {
        Some(k) => spec_fence_end(raw@.subrange(k, body_end(raw@)), fc, fl as int),
        None => false,
    });
    if closed {
        return display;
    }
    let mut out = display;
    let ghost d0 = out@;
    let dl = out.len();
    let add_nl = !(dl > 0 && out[dl - 1] == 10);
    if add_nl {
        out.push(10);
    }
    let ghost d1 = out@;
    let mut k: usize = 0;
    while k < fl
        invariant
            k <= fl,
            out@ == d1 + Seq::new(k as nat, |i: int| fc),
        decreases fl - k,
    {
        out.push(fc);
        assert(d1 + Seq::new((k + 1) as nat, |i: int| fc) =~= (d1 + Seq::new(k as nat, |i: int| fc)).push(fc));
        k += 1;
    }
    out.push(10);
    proof {
        let added = out@.subrange(d0.len() as int, out@.len() as int);
        assert(crate::text::all_ascii(added));
        assert(out@ =~= d0 + added);
        crate::pending::balance::lemma_append_ascii(d0, added);
        if add_nl {
            assert(d1 =~= d0 + seq![10u8]);
        } else {
            assert(d1 =~= d0 + Seq::<u8>::empty());
        }
    }
    out
}

/// The language of a fence info string is a JSON dialect.
pub open spec fn json_language(info: Seq<u8>) -> bool {
    let l = ascii_lower(first_word_bytes(info));
    l == seq![106u8, 115u8, 111u8, 110u8] || l == seq![106u8, 115u8, 111u8, 110u8, 99u8] || l
        == seq![106u8, 115u8, 111u8, 110u8, 53u8] || l == seq![106u8, 115u8, 111u8, 110u8, 108u8]
        || l == seq![106u8, 115u8, 111u8, 110u8, 112u8]
}

/// The first whitespace-free word (bytes up to the first space, tab, line feed or carriage
/// return).
pub open spec fn first_word_bytes(info: Seq<u8>) -> Seq<u8> {
    info.subrange(0, word_end(info, 0))
}

pub open spec fn word_end(b: Seq<u8>, i: int) -> int
    decreases b.len() - i,
{
    if i < 0 || i >= b.len() || crate::text::ascii_ws(b[i]) {
        i
    } else {
        word_end(b, i + 1)
    }
}

pub fn is_json_language(info: &[u8]) -> (r: bool)
    ensures
        r == json_language(info@),
{
    let mut e: usize = 0;
    while e < info.len() && !crate::text::is_ascii_ws(info[e])
        invariant
            e <= info@.len(),
            word_end(info@, 0) == word_end(info@, e as int),
        decreases info@.len() - e,
    {
        e += 1;
    }
    let l = to_ascii_lower(slice(info, 0, e));
    let j1: &[u8] = &[106u8, 115u8, 111u8, 110u8];
    let j2: &[u8] = &[106u8, 115u8, 111u8, 110u8, 99u8];
    let j3: &[u8] = &[106u8, 115u8, 111u8, 110u8, 53u8];
    let j4: &[u8] = &[106u8, 115u8, 111u8, 110u8, 108u8];
    let j5: &[u8] = &[106u8, 115u8, 111u8, 110u8, 112u8];
    assert(j1@ =~= seq![106u8, 115u8, 111u8, 110u8]);
    assert(j2@ =~= seq![106u8, 115u8, 111u8, 110u8, 99u8]);
    assert(j3@ =~= seq![106u8, 115u8, 111u8, 110u8, 53u8]);
    assert(j4@ =~= seq![106u8, 115u8, 111u8, 110u8, 108u8]);
    assert(j5@ =~= seq![106u8, 115u8, 111u8, 110u8, 112u8]);
    bytes_eq(&l, j1) || bytes_eq(&l, j2) || bytes_eq(&l, j3) || bytes_eq(&l, j4) || bytes_eq(
        &l,
        j5,
    )
}

/// Start of the first line after the opening one that starts a fence (the closing fence), in
/// `body`, scanning line starts from `i`.
pub open spec fn fence_line_from(body: Seq<u8>, i: int) -> Option<int>
    decreases body.len() - i,
{
    if i < 0 || i >= body.len() {
        None
    } else {
        match find_byte(body, 10, i) {
            None => None,
            Some(nl) => if nl < i || nl >= body.len() {
                None
            } else {
                let ls = nl + 1;
                let le = match find_byte(body, 10, ls) {
                    Some(e) => e,
                    None => body.len() as int,
                };
                if ls <= le && spec_fence_start(body.subrange(ls, le)) is Some {
                    Some(ls)
                } else {
                    fence_line_from(body, ls)
                }
            }
        }
    }
}

/// The body of a JSON fence handed to the repair: the lines after the opening one, up to a
/// closing fence line; `None` when there is no line after the opening one.
pub open spec fn json_fence_body(raw: Seq<u8>) -> Option<Seq<u8>> {
    match find_byte(raw, 10, 0) {
        None => None,
        Some(first_nl) => {
            let body0 = raw.subrange(first_nl + 1, raw.len() as int);
            Some(
                match fence_line_from(body0, 0) {
                    Some(k) => body0.subrange(0, k),
                    None => body0,
                },
            )
        },
    }
}

/// The display of a JSON fence given what the repair made of its body: the opening line, then
/// the repaired body; `None` when the fence has no body line or the repair failed.
pub open spec fn json_display_with(raw: Seq<u8>, repaired: Option<Seq<char>>) -> Option<Seq<u8>> {
    match find_byte(raw, 10, 0) {
        None => None,
        Some(first_nl) => match repaired {
            None => None,
            Some(rep) => Some(raw.subrange(0, first_nl + 1) + encode_utf8(rep)),
        },
    }
}

proof fn lemma_fence_line_from(body: Seq<u8>, i: int)
    requires
        0 <= i,
    ensures
        fence_line_from(body, i) matches Some(k) ==> i < k <= body.len() && body[k - 1] == 10,
    decreases body.len() - i,
{
    if 0 <= i < body.len() {
        lemma_find_byte(body, 10, i);
        if let Some(nl) = find_byte(body, 10, i) {
            let ls = nl + 1;
            lemma_find_byte(body, 10, ls);
            lemma_fence_line_from(body, ls);
        }
    }
}

fn fence_cut(body: &[u8]) -> (r: Option<usize>)
    ensures
        crate::text::opt_int(r) == fence_line_from(body@, 0),
{
    let n = body.len();
    let mut i: usize = 0;
    while i < n
        invariant
            i <= n == body@.len(),
            fence_line_from(body@, 0) == fence_line_from(body@, i as int),
        decreases n - i,
    {
        proof {
            lemma_find_byte(body@, 10, i as int);
        }
        let nl = match find_byte_exec(body, 10, i) {
            None => return None,
            Some(nl) => nl,
        };
        let ls = nl + 1;
        proof {
            lemma_find_byte(body@, 10, ls as int);
        }
        let le = match find_byte_exec(body, 10, ls) {
            Some(e) => e,
            None => n,
        };
        if ls <= le && fence_start(slice(body, ls, le)).is_some() {
            return Some(ls);
        }
        i = ls;
    }
    None
}

/// The text of an optional string slice.
pub open spec fn opt_text_view(o: Option<&str>) -> Option<Seq<char>> {
    match o {
        Some(t) => Some(t@),
        None => None,
    }
}

/// The display of a JSON fence once its body has been repaired (`repaired` is what the repair
/// gave, `None` when it failed): the opening line followed by the repaired body.
pub fn json_display_with_repair(raw: &[u8], repaired: Option<&str>) -> (r: Option<Vec<u8>>)
    requires
        valid_utf8(raw@),
    ensures
        match r {
            Some(v) => json_display_with(raw@, opt_text_view(repaired)) == Some(v@)
                && valid_utf8(v@),
            None => json_display_with(raw@, opt_text_view(repaired)) is None,
        },
{
    proof {
        lemma_find_byte(raw@, 10, 0);
    }
    let first_nl = match find_byte_exec(raw, 10, 0) {
        None => return None,
        Some(k) => k,
    };
    let rep = match repaired {
        None => return None,
        Some(t) => t,
    };
    let n = raw.len();
    assert(first_nl < n);
    let mut out = to_vec(slice(raw, 0, first_nl + 1));
    proof {
        lemma_valid_slice(raw@, 0, first_nl + 1);
        lemma_encode_valid(rep@);
        valid_utf8_concat(out@, encode_utf8(rep@));
    }
    extend(&mut out, rep.as_bytes());
    Some(out)
}

/// The body of a JSON fence that a repair is handed: the lines after the opening one, up to a
/// closing fence line; `None` when there is no line after the opening one.
pub fn json_fence_body_of(raw: &[u8]) -> (r: Option<Vec<u8>>)
    requires
        valid_utf8(raw@),
    ensures
        match r {
            Some(v) => json_fence_body(raw@) == Some(v@) && valid_utf8(v@),
            None => json_fence_body(raw@) is None,
        },
{
    proof {
        lemma_find_byte(raw@, 10, 0);
    }
    let first_nl = match find_byte_exec(raw, 10, 0) {
        None => return None,
        Some(k) => k,
    };
    let n = raw.len();
    let body0 = slice(raw, first_nl + 1, n);
    proof {
        lemma_fence_line_from(body0@, 0);
    }
    let cut = match fence_cut(body0) {
        Some(k) => k,
        None => body0.len(),
    };
    assert(body0@.subrange(0, body0@.len() as int) =~= body0@);
    let body = slice(body0, 0, cut);
    proof {
        lemma_valid_slice(raw@, first_nl + 1, n as int);
        lemma_valid_slice(body0@, 0, cut as int);
    }
    Some(to_vec(body))
}

/// The display of a pending block before the pending transformers: the terminated text, with a
/// code fence closed. The library repairs no JSON itself: a JSON fence is repaired by a pending
/// transformer that hands the body (`json_fence_body_of`) to a repair and builds the display
/// with `json_display_with_repair`.
pub open spec fn spec_base_display(raw: Seq<u8>, mode: BlockMode, o: crate::options::Options) -> Seq<u8> {
    let t = spec_terminate(raw, o.terminator);
    match mode {
        BlockMode::CodeFence { fence_char, fence_len, info } => {
            if fence_char < 128 {
                spec_close_fence(t, raw, fence_char, fence_len as int)
            } else {
                t
            }
        },
        _ => t,
    }
}

/// The display after the first `k` transformer answers, starting from `display`: an answer
/// `Some(text)` replaces the display, `None` leaves it.
pub open spec fn display_after(display: Seq<char>, outs: Seq<Option<Seq<char>>>, k: int) -> Seq<char>
    decreases k,
{
    if k <= 0 {
        display
    } else {
        match outs[k - 1] {
            Some(t) => t,
            None => display_after(display, outs, k - 1),
        }
    }
}

/// `outs` are answers the pending transformers `ts` may give in turn, each handed the block's
/// kind, its raw text and the display so far.
pub open spec fn transformer_answers(
    ts: Seq<TransformerEntry>,
    kind: BlockKind,
    raw: Seq<char>,
    display: Seq<char>,
    outs: Seq<Option<Seq<char>>>,
) -> bool {
    &&& outs.len() == ts.len()
    &&& forall|j: int|
        0 <= j < ts.len() ==> ts[j].may_transform(kind, raw, display_after(display, outs, j), #[trigger] outs[j])
}

proof fn lemma_display_after_push(display: Seq<char>, outs: Seq<Option<Seq<char>>>, x: Option<Seq<char>>, j: int)
    requires
        0 <= j <= outs.len(),
    ensures
        display_after(display, outs.push(x), j) == display_after(display, outs, j),
    decreases j,
{
    if j > 0 {
        lemma_display_after_push(display, outs, x, j - 1);
        assert(outs.push(x)[j - 1] == outs[j - 1]);
    }
}

impl MdStream {
    /// Two streams hold the same text and stand at the same place: what was committed, the
    /// options, the held-back `\r`, the splitter's cursor and processed line, the usage index and
    /// the footnote state agree (their extensions may differ).
    pub open spec fn same_stream(&self, other: &Self) -> bool {
        &&& self.buffer_view() == other.buffer_view()
        &&& self.committed_view() == other.committed_view()
        &&& self.options() == other.options()
        &&& self.pending_cr_view() == other.pending_cr_view()
        &&& self.cursor() == other.cursor()
        &&& self.processed_view() == other.processed_view()
        &&& self.usage_view() == other.usage_view()
        &&& self.footnotes_seen() == other.footnotes_seen()
        &&& self.footnote_tail() == other.footnote_tail()
        &&& self.single_block_mode() == other.single_block_mode()
        &&& self.pending_start() == other.pending_start()
        &&& self.block_id() == other.block_id()
    }

    pub(crate) fn pending_start_exec(&self) -> (r: Option<usize>)
        requires
            self.wf(),
        ensures
            crate::text::opt_int(r) == self.pending_start(),
            r matches Some(k) ==> k < self.buffer_view().len() && (k == 0 || self.buffer_view()[k - 1] == 10),
    {
        if self.opts.footnotes == FootnotesMode::SingleBlock && self.footnotes_detected {
            if self.buffer.len() > 0 {
                return Some(0);
            }
            return None;
        }
        if self.current_block_start_line >= self.lines.len() {
            return None;
        }
        proof {
            self.lemma_wf_line(self.current_block_start_line as int);
        }
        let off = self.lines[self.current_block_start_line].start;
        if off >= self.buffer.len() {
            return None;
        }
        Some(off)
    }

    /// Run the pending transformers over a display.
    fn transform_pending_display(&self, kind: BlockKind, raw: &str, display: String) -> (r: String)
        ensures
            self.transformer_count() == 0 ==> r == display,
            exists|outs: Seq<Option<Seq<char>>>|
                transformer_answers(self.transformers_view(), kind, raw@, display@, outs) && r@ == display_after(
                    display@,
                    outs,
                    self.transformer_count(),
                ),
    {
        let ghost ts = self.pending_transformers@;
        let ghost d0 = display@;
        let ghost mut outs: Seq<Option<Seq<char>>> = Seq::empty();
        let mut d = display;
        let mut k: usize = 0;
        while k < self.pending_transformers.len()
            invariant
                k <= self.pending_transformers@.len(),
                ts == self.pending_transformers@,
                self.transformer_count() == 0 ==> d == display,
                d0 == display@,
                outs.len() == k,
                forall|j: int|
                    0 <= j < k ==> ts[j].may_transform(kind, raw@, display_after(d0, outs, j), #[trigger] outs[j]),
                d@ == display_after(d0, outs, k as int),
            decreases self.pending_transformers@.len() - k,
        {
            let ghost prev = d@;
            let next = self.pending_transformers[k].transform(PendingTransformInput { kind, raw, display: d.as_str() });
            let ghost o = crate::reference::opt_str_view(next);
            if let Some(nd) = next {
                d = nd;
            }
            proof {
                let outs1 = outs.push(o);
                assert forall|j: int| 0 <= j <= k implies display_after(d0, outs1, j) == display_after(d0, outs, j) by {
                    lemma_display_after_push(d0, outs, o, j);
                }
                assert forall|j: int| 0 <= j < k + 1 implies ts[j].may_transform(kind, raw@, display_after(d0, outs1, j), #[trigger] outs1[j]) by {
                    if j < k {
                        assert(outs1[j] == outs[j]);
                    }
                }
                outs = outs1;
            }
            k += 1;
        }
        proof {
            assert(transformer_answers(ts, kind, raw@, d0, outs));
        }
        d
    }

    fn base_display(&self, raw: &[u8]) -> (r: Vec<u8>)
        requires
            valid_utf8(raw@),
        ensures
            r@ == spec_base_display(raw@, self.mode(), self.options()),
            valid_utf8(r@),
    {
        let t = terminate_markdown_bytes(raw, &self.opts.terminator);
        match &self.current_mode {
            BlockMode::CodeFence { fence_char, fence_len, info } => {
                if *fence_char < 128 {
                    close_fence(t, raw, *fence_char, *fence_len)
                } else {
                    t
                }
            },
            _ => t,
        }
    }

    /// The pending block, computed from the current state.
    pub(crate) fn pending_block_snapshot(&self) -> (r: Option<Block>)
        requires
            self.wf(),
        ensures
            self.pending_ok(r),
    {
        let off = match self.pending_start_exec() {
            None => return None,
            Some(k) => k,
        };
        let n = self.buffer.len();
        proof {
            lemma_valid_slice(self.buffer@, off as int, n as int);
        }
        let raw_bytes = slice(self.buffer.as_slice(), off, n);
        let raw = string_of(raw_bytes);
        proof {
            lemma_encode_valid(raw@);
            crate::reference::lemma_encode_nonempty(raw@);
        }
        if self.opts.footnotes == FootnotesMode::SingleBlock && self.footnotes_detected {
            let t = terminate_markdown_bytes(raw_bytes, &self.opts.terminator);
            let d0 = string_of(&t);
            proof {
                lemma_encode_valid(d0@);
            }
            let ghost g0 = d0@;
            let d = self.transform_pending_display(BlockKind::Unknown, raw.as_str(), d0);
            let blk = Block {
                id: BlockId(1),
                status: BlockStatus::Pending,
                kind: BlockKind::Unknown,
                raw,
                display: Some(d),
            };
            proof {
                let k = off as int;
                assert(self.pending_base(k) == t@);
                assert(decode_utf8(self.pending_base(k)) == g0);
                let outs = choose|outs: Seq<Option<Seq<char>>>|
                    transformer_answers(self.transformers_view(), BlockKind::Unknown, blk.raw@, g0, outs) && d@
                        == display_after(g0, outs, self.transformer_count());
                assert(transformer_answers(self.transformers_view(), blk.kind, blk.raw@, decode_utf8(self.pending_base(k)), outs));
                assert(self.pending_transformed(blk, k));
            }
            return Some(blk);
        }
        let kind = kind_for_mode(&self.current_mode);
        let b = self.base_display(raw_bytes);
        let d0 = string_of(&b);
        proof {
            lemma_encode_valid(d0@);
        }
        let ghost g0 = d0@;
        let d = self.transform_pending_display(kind, raw.as_str(), d0);
        let blk = Block { id: self.current_block_id, status: BlockStatus::Pending, kind, raw, display: Some(d) };
        proof {
            let k = off as int;
            assert(self.pending_base(k) == b@);
            assert(decode_utf8(self.pending_base(k)) == g0);
            let outs = choose|outs: Seq<Option<Seq<char>>>|
                transformer_answers(self.transformers_view(), kind, blk.raw@, g0, outs) && d@ == display_after(
                    g0,
                    outs,
                    self.transformer_count(),
                );
            assert(transformer_answers(self.transformers_view(), blk.kind, blk.raw@, decode_utf8(self.pending_base(k)), outs));
            assert(self.pending_transformed(blk, k));
        }
        Some(blk)
    }
}

} // verus!
