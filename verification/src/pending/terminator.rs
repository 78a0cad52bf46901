//! Termination of a streaming Markdown tail (remend-like), so that partial constructs render
//! predictably.
use vstd::prelude::*;
use vstd::utf8::*;
use vstd::string::StringSliceAdditionalSpecFns;
use crate::pending::balance::{
    apply_setext_heading_protection, balance_inline_code, balance_katex_block,
    balance_strikethrough, handle_incomplete_bold, handle_incomplete_bold_italic,
    handle_incomplete_double_underscore_italic, handle_incomplete_single_asterisk_italic,
    handle_incomplete_single_underscore_italic, spec_balance_inline_code, spec_balance_katex,
    spec_close_double, spec_close_single_star, spec_close_single_under, spec_close_strike,
    spec_close_triple, spec_setext,
};
use crate::syntax::{is_space_or_tab, list_marker_prefix, list_marker_prefix_bytes};
use crate::text::{
    all_ascii, ascii_alnum, as_str, char_is_alphanumeric, char_is_whitespace, contains_byte,
    count_pat, count_pat_exec, ends_with, extend, find_pat_from, find_from, is_ascii_alnum,
    is_ascii_digit, ascii_digit, is_cut, lemma_ascii_cut, lemma_ascii_valid, lemma_encode_valid,
    lemma_valid_slice, ascii_cut, matches_at, matches_at_exec, opt_int, rfind_before, rfind_pat,
    slice, to_vec, unicode_alphanumeric, unicode_whitespace, lemma_roundtrip, string_of,
    bytes_trim, trim, lemma_valid_concat3, lemma_cut_boundary, lemma_valid_subrange,
};

verus! {

broadcast use vstd::string::group_string_axioms;

#[derive(Debug, Clone)]
pub struct TerminatorOptions {
    pub setext_headings: bool,
    pub links: bool,
    pub images: bool,
    pub emphasis: bool,
    pub inline_code: bool,
    pub strikethrough: bool,
    pub katex_block: bool,
    pub incomplete_link_url: String,
    /// Tail-only scan window for termination logic.
    pub window_bytes: usize,
}

impl Default for TerminatorOptions {
    fn default() -> (r: Self)
        ensures
            r.setext_headings && r.links && r.images && r.emphasis && r.inline_code
                && r.strikethrough && r.katex_block,
            r.incomplete_link_url@ == "streamdown:incomplete-link"@,
            r.window_bytes == 16 * 1024,
    {
        TerminatorOptions {
            setext_headings: true,
            links: true,
            images: true,
            emphasis: true,
            inline_code: true,
            strikethrough: true,
            katex_block: true,
            incomplete_link_url: "streamdown:incomplete-link".to_owned(),
            window_bytes: 16 * 1024,
        }
    }
}

impl TerminatorOptions {
    /// An identical copy.
    pub fn duplicate(&self) -> (r: Self)
        ensures
            r == *self,
    {
        TerminatorOptions {
            setext_headings: self.setext_headings,
            links: self.links,
            images: self.images,
            emphasis: self.emphasis,
            inline_code: self.inline_code,
            strikethrough: self.strikethrough,
            katex_block: self.katex_block,
            incomplete_link_url: self.incomplete_link_url.clone(),
            window_bytes: self.window_bytes,
        }
    }
}

// Bytes used below: '\n' 10, ' ' 32, '!' 33, '$' 36, '(' 40, ')' 41, '*' 42, '+' 43, '-' 45,
// '.' 46, '=' 61, '[' 91, '\\' 92, ']' 93, '_' 95, '`' 96, '~' 126.

/// Odd number of "```" in a multi-line text: an unclosed fenced code block.
pub open spec fn spec_incomplete_multiline_code(t: Seq<u8>) -> bool {
    t.contains(10u8) && count_pat(t, seq![96u8, 96u8, 96u8]) % 2 == 1
}

pub(crate) fn is_inside_incomplete_multiline_code_block(text: &[u8]) -> (r: bool)
    ensures
        r == spec_incomplete_multiline_code(text@),
{
    let tick3: &[u8] = &[96u8, 96u8, 96u8];
    contains_byte(text, 10) && count_pat_exec(text, tick3) % 2 == 1
}

/// Word characters: ASCII alphanumerics, `_`, or Unicode alphanumerics.
pub open spec fn spec_word_char(c: char) -> bool {
    ('a' <= c <= 'z') || ('A' <= c <= 'Z') || ('0' <= c <= '9') || c == '_'
        || unicode_alphanumeric(c)
}

pub(crate) fn is_word_char(c: char) -> (r: bool)
    ensures
        r == spec_word_char(c),
{
    ('a' <= c && c <= 'z') || ('A' <= c && c <= 'Z') || ('0' <= c && c <= '9') || c == '_'
        || char_is_alphanumeric(c)
}

/// Whitespace or one of the emphasis/code markers `_ ~ * \``.
pub open spec fn ws_or_marker(c: char) -> bool {
    unicode_whitespace(c) || c == '_' || c == '~' || c == '*' || c == '`'
}

pub open spec fn spec_ws_or_markers_only(b: Seq<u8>) -> bool {
    forall|i: int| 0 <= i < decode_utf8(b).len() ==> #[trigger] ws_or_marker(decode_utf8(b)[i])
}

pub(crate) fn whitespace_or_markers_only(b: &[u8]) -> (r: bool)
    requires
        valid_utf8(b@),
    ensures
        r == spec_ws_or_markers_only(b@),
{
    let s = as_str(b);
    for c in it: s.chars()
        invariant
            it.seq() == s@,
            valid_utf8(b@),
            s@ == decode_utf8(b@),
            forall|i: int| 0 <= i < it.index() ==> #[trigger] ws_or_marker(s@[i]),
    {
        assert(c == s@[it.index() as int]);
        if !(char_is_whitespace(c) || c == '_' || c == '~' || c == '*' || c == '`') {
            assert(!ws_or_marker(decode_utf8(b@)[it.index() as int]));
            return false;
        }
    }
    true
}

pub open spec fn is_tick3_at(t: Seq<u8>, i: int) -> bool {
    0 <= i && i + 3 <= t.len() && t[i] == 96 && t[i + 1] == 96 && t[i + 2] == 96
}

/// Byte `i` belongs to a "```" run of exactly the window around it.
pub open spec fn spec_part_of_triple_backtick(t: Seq<u8>, i: int) -> bool {
    is_tick3_at(t, i) || (i >= 1 && i + 1 < t.len() && is_tick3_at(t, i - 1)) || (i >= 2
        && is_tick3_at(t, i - 2))
}

pub(crate) fn tick3_at(t: &[u8], i: usize) -> (r: bool)
    ensures
        r == is_tick3_at(t@, i as int),
{
    i < t.len() && t.len() - i >= 3 && t[i] == 96 && t[i + 1] == 96 && t[i + 2] == 96
}

pub(crate) fn is_part_of_triple_backtick(text: &[u8], i: usize) -> (r: bool)
    ensures
        r == spec_part_of_triple_backtick(text@, i as int),
{
    if tick3_at(text, i) {
        return true;
    }
    let n = text.len();
    if i >= 1 && i < n && n - i > 1 && tick3_at(text, i - 1) {
        return true;
    }
    if i >= 2 && tick3_at(text, i - 2) {
        return true;
    }
    false
}

/// Scan state for inline/multi-line code up to `pos`, starting at `i`.
pub open spec fn code_scan(t: Seq<u8>, pos: int, i: int, inl: bool, ml: bool) -> bool
    decreases t.len() - i,
{
    if i < 0 || i >= pos || i >= t.len() {
        inl || ml
    } else if i + 2 < t.len() && t[i] == 96 && t[i + 1] == 96 && t[i + 2] == 96 {
        code_scan(t, pos, i + 3, inl, !ml)
    } else if !ml && t[i] == 96 {
        code_scan(t, pos, i + 1, !inl, ml)
    } else {
        code_scan(t, pos, i + 1, inl, ml)
    }
}

/// Position `pos` is inside inline code or a fenced block (toggling on backticks).
pub open spec fn spec_inside_code(t: Seq<u8>, pos: int) -> bool {
    code_scan(t, pos, 0, false, false)
}

pub(crate) fn is_inside_code_block(text: &[u8], position: usize) -> (r: bool)
    ensures
        r == spec_inside_code(text@, position as int),
{
    let mut in_inline = false;
    let mut in_multiline = false;
    let mut i: usize = 0;
    while i < position && i < text.len()
        invariant
            code_scan(text@, position as int, 0, false, false) == code_scan(
                text@,
                position as int,
                i as int,
                in_inline,
                in_multiline,
            ),
        decreases text@.len() - i,
    {
        if text.len() - i > 2 && text[i] == 96 && text[i + 1] == 96 && text[i + 2] == 96 {
            in_multiline = !in_multiline;
            i += 3;
            continue;
        }
        if !in_multiline && text[i] == 96 {
            in_inline = !in_inline;
        }
        i += 1;
    }
    in_inline || in_multiline
}

/// The first character boundary at or after `k`.
pub open spec fn next_cut(t: Seq<u8>, k: int) -> int
    decreases t.len() - k,
{
    if k < 0 || k >= t.len() || !is_continuation_byte(t[k]) {
        k
    } else {
        next_cut(t, k + 1)
    }
}

/// Start of the tail window of at most `w` bytes, moved forward to a character boundary.
pub open spec fn spec_tail_start(t: Seq<u8>, w: int) -> int {
    if t.len() <= w {
        0
    } else {
        next_cut(t, t.len() - w)
    }
}

proof fn lemma_next_cut(t: Seq<u8>, k: int)
    requires
        0 <= k <= t.len(),
    ensures
        k <= next_cut(t, k) <= t.len(),
        is_cut(t, next_cut(t, k)),
    decreases t.len() - k,
{
    if k < t.len() && is_continuation_byte(t[k]) {
        lemma_next_cut(t, k + 1);
    }
}

pub fn tail_start(text: &[u8], window_bytes: usize) -> (r: usize)
    ensures
        r == spec_tail_start(text@, window_bytes as int),
        r <= text@.len(),
        is_cut(text@, r as int),
{
    if text.len() <= window_bytes {
        return 0;
    }
    let mut s = text.len() - window_bytes;
    proof {
        lemma_next_cut(text@, s as int);
    }
    while s < text.len() && 0x80 <= text[s] && text[s] <= 0xbf
        invariant
            s <= text@.len(),
            next_cut(text@, s as int) == spec_tail_start(text@, window_bytes as int),
        decreases text@.len() - s,
    {
        s += 1;
    }
    s
}

/// Scan for `$` math up to `pos`: `$$` toggles a display block, a single `$` toggles inline math
/// outside a block, `\$` is skipped.
pub open spec fn math_scan(t: Seq<u8>, pos: int, i: int, inl: bool, blk: bool) -> bool
    decreases t.len() - i,
{
    if i < 0 || i >= pos || i >= t.len() {
        inl || blk
    } else if t[i] == 92 && i + 1 < t.len() && t[i + 1] == 36 {
        math_scan(t, pos, i + 2, inl, blk)
    } else if t[i] == 36 && i + 1 < t.len() && t[i + 1] == 36 {
        math_scan(t, pos, i + 2, false, !blk)
    } else if t[i] == 36 && !blk {
        math_scan(t, pos, i + 1, !inl, blk)
    } else {
        math_scan(t, pos, i + 1, inl, blk)
    }
}

pub open spec fn spec_within_math(t: Seq<u8>, pos: int) -> bool {
    math_scan(t, pos, 0, false, false)
}

pub(crate) fn is_within_math_block(text: &[u8], position: usize) -> (r: bool)
    ensures
        r == spec_within_math(text@, position as int),
{
    let mut in_inline = false;
    let mut in_block = false;
    let mut i: usize = 0;
    while i < position && i < text.len()
        invariant
            math_scan(text@, position as int, 0, false, false) == math_scan(
                text@,
                position as int,
                i as int,
                in_inline,
                in_block,
            ),
        decreases text@.len() - i,
    {
        if text[i] == 92 && i + 1 < text.len() && text[i + 1] == 36 {
            i += 2;
            continue;
        }
        if text[i] == 36 {
            if i + 1 < text.len() && text[i + 1] == 36 {
                in_block = !in_block;
                in_inline = false;
                i += 2;
                continue;
            }
            if !in_block {
                in_inline = !in_inline;
            }
        }
        i += 1;
    }
    in_inline || in_block
}

/// From `j` on the same line, a `)` comes before any line feed.
pub open spec fn close_paren_ahead(t: Seq<u8>, j: int) -> bool
    decreases t.len() - j,
{
    if j < 0 || j >= t.len() {
        false
    } else if t[j] == 41 {
        true
    } else if t[j] == 10 {
        false
    } else {
        close_paren_ahead(t, j + 1)
    }
}

/// Scanning back from `i` on the same line, the nearest `(` or `)` is a `(` right after `]`,
/// and a `)` follows `pos` on the line.
pub open spec fn url_back(t: Seq<u8>, pos: int, i: int) -> bool
    decreases i,
{
    if i <= 0 || i > t.len() {
        false
    } else if t[i - 1] == 10 || t[i - 1] == 41 {
        false
    } else if t[i - 1] == 40 {
        i - 1 > 0 && t[i - 2] == 93 && close_paren_ahead(t, pos)
    } else {
        url_back(t, pos, i - 1)
    }
}

pub open spec fn spec_within_link_url(t: Seq<u8>, pos: int) -> bool {
    url_back(t, pos, pos)
}

fn close_paren_ahead_exec(text: &[u8], from: usize) -> (r: bool)
    ensures
        r == close_paren_ahead(text@, from as int),
{
    let mut j = from;
    while j < text.len()
        invariant
            close_paren_ahead(text@, from as int) == close_paren_ahead(text@, j as int),
        decreases text@.len() - j,
    {
        if text[j] == 41 {
            return true;
        }
        if text[j] == 10 {
            return false;
        }
        j += 1;
    }
    false
}

pub(crate) fn is_within_link_or_image_url(text: &[u8], position: usize) -> (r: bool)
    requires
        position <= text@.len(),
    ensures
        r == spec_within_link_url(text@, position as int),
{
    let mut i = position;
    while i > 0
        invariant
            i <= position <= text@.len(),
            url_back(text@, position as int, position as int) == url_back(
                text@,
                position as int,
                i as int,
            ),
        decreases i,
    {
        let b = text[i - 1];
        if b == 10 || b == 41 {
            return false;
        }
        if b == 40 {
            if i - 1 > 0 && text[i - 2] == 93 {
                return close_paren_ahead_exec(text, position);
            }
            return false;
        }
        i -= 1;
    }
    false
}

/// `trim_trailing_single_space`: one trailing space (but not two) is dropped.
pub open spec fn spec_trim_single_space(t: Seq<u8>) -> Seq<u8> {
    if t.len() >= 1 && t[t.len() - 1] == 32 && !(t.len() >= 2 && t[t.len() - 2] == 32) {
        t.subrange(0, t.len() - 1)
    } else {
        t
    }
}

pub(crate) fn trim_trailing_single_space(text: &[u8]) -> (r: &[u8])
    ensures
        r@ == spec_trim_single_space(text@),
        valid_utf8(text@) ==> valid_utf8(r@),
{
    let n = text.len();
    if n >= 1 && text[n - 1] == 32 && !(n >= 2 && text[n - 2] == 32) {
        proof {
            if valid_utf8(text@) {
                lemma_valid_slice(text@, 0, n - 1);
            }
        }
        slice(text, 0, n - 1)
    } else {
        text
    }
}

/// Walk back from `i` over brackets, tracking nesting depth, to the `[` matching depth 1.
pub open spec fn open_bracket_back(t: Seq<u8>, i: int, depth: int) -> Option<int>
    decreases i,
{
    if i <= 0 || i > t.len() {
        None
    } else if t[i - 1] == 93 {
        open_bracket_back(t, i - 1, depth + 1)
    } else if t[i - 1] == 91 {
        if depth - 1 == 0 {
            Some(i - 1)
        } else {
            open_bracket_back(t, i - 1, depth - 1)
        }
    } else {
        open_bracket_back(t, i - 1, depth)
    }
}

pub open spec fn spec_matching_open(t: Seq<u8>, close: int) -> Option<int> {
    open_bracket_back(t, close, 1)
}

proof fn lemma_open_bracket_back(t: Seq<u8>, i: int, depth: int)
    requires
        0 <= i <= t.len(),
    ensures
        open_bracket_back(t, i, depth) matches Some(k) ==> 0 <= k < i && t[k] == 91,
    decreases i,
{
    if i > 0 {
        lemma_open_bracket_back(t, i - 1, depth + 1);
        lemma_open_bracket_back(t, i - 1, depth - 1);
        lemma_open_bracket_back(t, i - 1, depth);
    }
}

pub(crate) fn find_matching_open_bracket(text: &[u8], close_index: usize) -> (r: Option<usize>)
    requires
        close_index < text@.len(),
    ensures
        opt_int(r) == spec_matching_open(text@, close_index as int),
        r matches Some(k) ==> k < close_index && text@[k as int] == 91,
{
    proof {
        lemma_open_bracket_back(text@, close_index as int, 1);
    }
    let n = text.len();
    let mut depth: usize = 1;
    let mut i = close_index;
    while i > 0
        invariant
            i <= close_index < text@.len(),
            text@.len() == n,
            1 <= depth <= close_index - i + 1,
            spec_matching_open(text@, close_index as int) == open_bracket_back(
                text@,
                i as int,
                depth as int,
            ),
        decreases i,
    {
        let b = text[i - 1];
        if b == 93 {
            depth += 1;
        } else if b == 91 {
            depth -= 1;
            if depth == 0 {
                return Some(i - 1);
            }
        }
        i -= 1;
    }
    None
}

/// Walk forward from `i` to the `]` that brings the depth to zero.
pub open spec fn close_bracket_fwd(t: Seq<u8>, i: int, depth: int) -> Option<int>
    decreases t.len() - i,
{
    if i < 0 || i >= t.len() {
        None
    } else if t[i] == 91 {
        close_bracket_fwd(t, i + 1, depth + 1)
    } else if t[i] == 93 {
        if depth - 1 == 0 {
            Some(i)
        } else {
            close_bracket_fwd(t, i + 1, depth - 1)
        }
    } else {
        close_bracket_fwd(t, i + 1, depth)
    }
}

pub open spec fn spec_matching_close(t: Seq<u8>, open: int) -> Option<int> {
    close_bracket_fwd(t, open + 1, 1)
}

pub(crate) fn find_matching_close_bracket(text: &[u8], open_index: usize) -> (r: bool)
    requires
        open_index < text@.len(),
    ensures
        r == spec_matching_close(text@, open_index as int) is Some,
{
    let n = text.len();
    let mut depth: usize = 1;
    let mut i = open_index + 1;
    while i < text.len()
        invariant
            open_index + 1 <= i <= text@.len(),
            1 <= depth <= i - open_index,
            spec_matching_close(text@, open_index as int) == close_bracket_fwd(
                text@,
                i as int,
                depth as int,
            ),
        decreases text@.len() - i,
    {
        let b = text[i];
        if b == 91 {
            depth += 1;
        } else if b == 93 {
            depth -= 1;
            if depth == 0 {
                return true;
            }
        }
        i += 1;
    }
    false
}


// ---------------------------------------------------------------------------------------------
// Incomplete links and images.
// ---------------------------------------------------------------------------------------------

/// First pass: the last eligible "](" with no ")" after it.
pub open spec fn link_phase1(t: Seq<u8>, url: Seq<u8>, links: bool, images: bool, search: int) -> Option<
    Seq<u8>,
>
    decreases search,
{
    match rfind_before(t, seq![93u8, 40u8], search) {
        None => link_phase2(t, url, links, images, t.len() as int),
        Some(idx) => {
            if idx < 0 || idx >= search {
                None
            } else if spec_inside_code(t, idx) {
                link_phase1(t, url, links, images, idx)
            } else if t.subrange(idx + 2, t.len() as int).contains(41u8) {
                link_phase1(t, url, links, images, idx)
            } else {
                match spec_matching_open(t, idx) {
                    None => link_phase1(t, url, links, images, idx),
                    Some(ob) => {
                        let is_image = ob > 0 && t[ob - 1] == 33;
                        if spec_inside_code(t, ob) {
                            link_phase1(t, url, links, images, idx)
                        } else if (is_image && !images) || (!is_image && !links) {
                            link_phase1(t, url, links, images, idx)
                        } else if is_image {
                            Some(t.subrange(0, ob - 1))
                        } else {
                            Some(t.subrange(0, idx) + seq![93u8, 40u8] + url + seq![41u8])
                        }
                    },
                }
            }
        },
    }
}

/// Second pass: scanning back for a `[` (not in code) whose text is never closed.
pub open spec fn link_phase2(t: Seq<u8>, url: Seq<u8>, links: bool, images: bool, i: int) -> Option<
    Seq<u8>,
>
    decreases i,
{
    if i <= 0 || i > t.len() {
        None
    } else {
        let k = i - 1;
        if t[k] == 91 && !spec_inside_code(t, k) {
            let is_image = k > 0 && t[k - 1] == 33;
            let open = if is_image {
                k - 1
            } else {
                k
            };
            if (is_image && !images) || (!is_image && !links) {
                link_phase2(t, url, links, images, k)
            } else if !t.subrange(k + 1, t.len() as int).contains(93u8) || spec_matching_close(
                t,
                k,
            ) is None {
                if is_image {
                    Some(t.subrange(0, open))
                } else {
                    Some(t + seq![93u8, 40u8] + url + seq![41u8])
                }
            } else {
                link_phase2(t, url, links, images, k)
            }
        } else {
            link_phase2(t, url, links, images, k)
        }
    }
}

proof fn lemma_open_back_plain(t: Seq<u8>, start: int, i: int)
    requires
        0 <= start < i <= t.len(),
        t[start] == 91,
        forall|k: int| start < k < i ==> t[k] != 91 && t[k] != 93,
    ensures
        open_bracket_back(t, i, 1) == Some(start),
    decreases i,
{
    if i - 1 > start {
        lemma_open_back_plain(t, start, i - 1);
    }
}

proof fn lemma_code_scan_plain(t: Seq<u8>, pos: int, i: int)
    requires
        0 <= pos <= t.len(),
        forall|k: int| 0 <= k < pos ==> t[k] != 96,
    ensures
        !code_scan(t, pos, i, false, false),
    decreases t.len() - i,
{
    if !(i < 0 || i >= pos || i >= t.len()) {
        lemma_code_scan_plain(t, pos, i + 1);
    }
}

proof fn lemma_rfind_last(t: Seq<u8>, p: Seq<u8>, at: int, end: int)
    requires
        p.len() > 0,
        0 <= at,
        at + p.len() <= end <= t.len(),
        matches_at(t, at, p),
        forall|q: int| at < q && q + p.len() <= end ==> !matches_at(t, q, p),
    ensures
        rfind_before(t, p, end) == Some(at),
    decreases end,
{
    if end - p.len() > at {
        lemma_rfind_last(t, p, at, end - 1);
    }
}

/// A link whose URL is still being written is completed with the placeholder URL: a text
/// `a` + `[` + `x` + `](` + `u`, where the link text `x` holds no bracket, nothing before the
/// `](` holds a backtick, the `[` is not preceded by `!`, and the URL so far `u` holds no `]` or
/// `)`, becomes `a[x](url)` when links are handled.
pub proof fn law_incomplete_link_url_completed(
    a: Seq<u8>,
    x: Seq<u8>,
    u: Seq<u8>,
    url: Seq<u8>,
    images: bool,
)
    requires
        forall|k: int| 0 <= k < a.len() ==> a[k] != 96,
        a.len() == 0 || a[a.len() - 1] != 33,
        forall|k: int| 0 <= k < x.len() ==> x[k] != 91 && x[k] != 93 && x[k] != 96,
        forall|k: int| 0 <= k < u.len() ==> u[k] != 93 && u[k] != 41,
    ensures
        spec_fix_link(a + seq![91u8] + x + seq![93u8, 40u8] + u, url, true, images) == Some(
            a + seq![91u8] + x + seq![93u8, 40u8] + url + seq![41u8],
        ),
{
    let t = a + seq![91u8] + x + seq![93u8, 40u8] + u;
    let ob = a.len() as int;
    let idx: int = ob + 1 + x.len();
    let pat = seq![93u8, 40u8];
    assert(t[ob] == 91);
    assert(t[idx] == 93 && t[idx + 1] == 40);
    assert(t.subrange(idx, idx + 2) =~= pat);
    assert forall|q: int| idx < q && q + 2 <= t.len() implies !matches_at(t, q, pat) by {
        if matches_at(t, q, pat) {
            assert(t.subrange(q, q + 2)[0] == t[q]);
            if q == idx + 1 {
            } else {
                assert(t[q] == u[q - idx - 2]);
            }
        }
    }
    lemma_rfind_last(t, pat, idx, t.len() as int);
    assert(t.subrange(idx + 2, t.len() as int) =~= u);
    assert(!u.contains(41u8));
    assert forall|k: int| ob < k < idx implies t[k] != 91 && t[k] != 93 by {
        assert(t[k] == x[k - ob - 1]);
    }
    lemma_open_back_plain(t, ob, idx);
    assert forall|k: int| 0 <= k < idx implies t[k] != 96 by {
        if k < ob {
            assert(t[k] == a[k]);
        } else if k > ob {
            assert(t[k] == x[k - ob - 1]);
        }
    }
    lemma_code_scan_plain(t, idx, 0);
    lemma_code_scan_plain(t, ob, 0);
    if ob > 0 {
        assert(t[ob - 1] == a[ob - 1]);
    }
    assert(t.subrange(0, idx) =~= a + seq![91u8] + x);
}

/// An image whose URL is still being written is dropped: a text `a` + `![` + `x` + `](` + `u`
/// (with the same conditions on the parts) becomes `a` when images are handled.
pub proof fn law_incomplete_image_dropped(a: Seq<u8>, x: Seq<u8>, u: Seq<u8>, url: Seq<u8>, links: bool)
    requires
        forall|k: int| 0 <= k < a.len() ==> a[k] != 96,
        forall|k: int| 0 <= k < x.len() ==> x[k] != 91 && x[k] != 93 && x[k] != 96,
        forall|k: int| 0 <= k < u.len() ==> u[k] != 93 && u[k] != 41,
    ensures
        spec_fix_link(a + seq![33u8, 91u8] + x + seq![93u8, 40u8] + u, url, links, true) == Some(a),
{
    let t = a + seq![33u8, 91u8] + x + seq![93u8, 40u8] + u;
    let ob: int = (a.len() + 1) as int;
    let idx: int = ob + 1 + x.len();
    let pat = seq![93u8, 40u8];
    assert(t[ob] == 91);
    assert(t[ob - 1] == 33);
    assert(t[idx] == 93 && t[idx + 1] == 40);
    assert(t.subrange(idx, idx + 2) =~= pat);
    assert forall|q: int| idx < q && q + 2 <= t.len() implies !matches_at(t, q, pat) by {
        if matches_at(t, q, pat) {
            assert(t.subrange(q, q + 2)[0] == t[q]);
            if q == idx + 1 {
            } else {
                assert(t[q] == u[q - idx - 2]);
            }
        }
    }
    lemma_rfind_last(t, pat, idx, t.len() as int);
    assert(t.subrange(idx + 2, t.len() as int) =~= u);
    assert(!u.contains(41u8));
    assert forall|k: int| ob < k < idx implies t[k] != 91 && t[k] != 93 by {
        assert(t[k] == x[k - ob - 1]);
    }
    lemma_open_back_plain(t, ob, idx);
    assert forall|k: int| 0 <= k < idx implies t[k] != 96 by {
        if k < ob - 1 {
            assert(t[k] == a[k]);
        } else if k > ob {
            assert(t[k] == x[k - ob - 1]);
        }
    }
    lemma_code_scan_plain(t, idx, 0);
    lemma_code_scan_plain(t, ob, 0);
    assert(t.subrange(0, ob - 1) =~= a);
}

/// Repair an incomplete link or image at the tail: an unfinished URL becomes
/// `[text](incomplete_url)`, an unfinished link text is closed with `](incomplete_url)`, and an
/// incomplete image is dropped.
pub open spec fn spec_fix_link(t: Seq<u8>, url: Seq<u8>, links: bool, images: bool) -> Option<
    Seq<u8>,
> {
    link_phase1(t, url, links, images, t.len() as int)
}

pub proof fn lemma_rfind_before(t: Seq<u8>, p: Seq<u8>, end: int)
    ensures
        rfind_before(t, p, end) matches Some(k) ==> 0 <= k && k + p.len() <= end && end <= t.len()
            && matches_at(t, k, p),
    decreases end,
{
    if !(p.len() == 0 || end < p.len() || end > t.len()) && !matches_at(t, end - p.len(), p) {
        lemma_rfind_before(t, p, end - 1);
    }
}

pub(crate) fn suffix_contains(text: &[u8], from: usize, c: u8) -> (r: bool)
    requires
        from <= text@.len(),
    ensures
        r == text@.subrange(from as int, text@.len() as int).contains(c),
{
    let s = slice(text, from, text.len());
    contains_byte(s, c)
}

pub(crate) fn append_placeholder(out: &mut Vec<u8>, url: &[u8])
    ensures
        final(out)@ == old(out)@ + seq![93u8, 40u8] + url@ + seq![41u8],
{
    out.push(93);
    out.push(40);
    extend(out, url);
    out.push(41);
}

proof fn lemma_placeholder_valid(a: Seq<u8>, url: Seq<u8>)
    requires
        valid_utf8(a),
        valid_utf8(url),
    ensures
        valid_utf8(a + seq![93u8, 40u8] + url + seq![41u8]),
{
    assert(all_ascii(seq![93u8, 40u8]));
    assert(all_ascii(seq![41u8]));
    lemma_ascii_valid(seq![93u8, 40u8]);
    lemma_ascii_valid(seq![41u8]);
    lemma_valid_concat3(a, seq![93u8, 40u8], url);
    vstd::utf8::valid_utf8_concat(a + seq![93u8, 40u8] + url, seq![41u8]);
}

pub fn fix_incomplete_link_or_image(
    text: &[u8],
    incomplete_url: &[u8],
    links_enabled: bool,
    images_enabled: bool,
) -> (r: Option<Vec<u8>>)
    ensures
        match r {
            Some(v) => spec_fix_link(text@, incomplete_url@, links_enabled, images_enabled) == Some(
                v@,
            ),
            None => spec_fix_link(text@, incomplete_url@, links_enabled, images_enabled) is None,
        },
        r matches Some(v) ==> (valid_utf8(text@) && valid_utf8(incomplete_url@) ==> valid_utf8(v@)),
{
    let ghost t = text@;
    let ghost url = incomplete_url@;
    let pat: &[u8] = &[93u8, 40u8];
    let n = text.len();
    let mut search = n;
    loop
        invariant
            search <= n == text@.len(),
            t == text@,
            url == incomplete_url@,
            pat@ == seq![93u8, 40u8],
            spec_fix_link(t, url, links_enabled, images_enabled) == link_phase1(
                t,
                url,
                links_enabled,
                images_enabled,
                search as int,
            ),
        ensures
            spec_fix_link(t, url, links_enabled, images_enabled) == link_phase2(
                t,
                url,
                links_enabled,
                images_enabled,
                n as int,
            ),
        decreases search,
    {
        proof {
            lemma_rfind_before(t, pat@, search as int);
        }
        match rfind_pat(text, pat, search) {
            None => {
                break ;
            },
            Some(idx) => {
                search = idx;
                if is_inside_code_block(text, idx) {
                    continue ;
                }
                if suffix_contains(text, idx + 2, 41) {
                    continue ;
                }
                let ob = match find_matching_open_bracket(text, idx) {
                    None => {
                        continue ;
                    },
                    Some(ob) => ob,
                };
                if is_inside_code_block(text, ob) {
                    continue ;
                }
                let is_image = ob > 0 && text[ob - 1] == 33;
                if is_image && !images_enabled {
                    continue ;
                }
                if !is_image && !links_enabled {
                    continue ;
                }
                if is_image {
                    proof {
                        if valid_utf8(t) {
                            lemma_valid_slice(t, 0, ob - 1);
                        }
                    }
                    return Some(to_vec(slice(text, 0, ob - 1)));
                }
                let mut out = to_vec(slice(text, 0, idx));
                proof {
                    if valid_utf8(t) && valid_utf8(url) {
                        lemma_valid_slice(t, 0, idx as int);
                        lemma_placeholder_valid(out@, url);
                    }
                }
                append_placeholder(&mut out, incomplete_url);
                return Some(out);
            },
        }
    }
    let mut i = n;
    while i > 0
        invariant
            i <= n == text@.len(),
            t == text@,
            url == incomplete_url@,
            spec_fix_link(t, url, links_enabled, images_enabled) == link_phase2(
                t,
                url,
                links_enabled,
                images_enabled,
                i as int,
            ),
        decreases i,
    {
        i -= 1;
        if text[i] == 91 && !is_inside_code_block(text, i) {
            let is_image = i > 0 && text[i - 1] == 33;
            let open_index = if is_image {
                i - 1
            } else {
                i
            };
            if is_image && !images_enabled {
                continue ;
            }
            if !is_image && !links_enabled {
                continue ;
            }
            if !suffix_contains(text, i + 1, 93) || !find_matching_close_bracket(text, i) {
                if is_image {
                    proof {
                        if valid_utf8(t) {
                            lemma_valid_slice(t, 0, open_index as int);
                        }
                    }
                    return Some(to_vec(slice(text, 0, open_index)));
                }
                let mut out = to_vec(text);
                proof {
                    if valid_utf8(t) && valid_utf8(url) {
                        lemma_placeholder_valid(out@, url);
                    }
                }
                append_placeholder(&mut out, incomplete_url);
                return Some(out);
            }
        }
    }
    None
}

// ---------------------------------------------------------------------------------------------
// Line-level helpers.
// ---------------------------------------------------------------------------------------------

/// Start of the line holding position `i`.
pub open spec fn line_start_of(t: Seq<u8>, i: int) -> int
    decreases i,
{
    if i <= 0 || i > t.len() {
        0
    } else if t[i - 1] == 10 {
        i
    } else {
        line_start_of(t, i - 1)
    }
}

proof fn lemma_line_start_of(t: Seq<u8>, i: int)
    requires
        0 <= i <= t.len(),
    ensures
        0 <= line_start_of(t, i) <= i,
        forall|k: int| line_start_of(t, i) <= k < i ==> t[k] != 10,
        line_start_of(t, i) > 0 ==> t[line_start_of(t, i) - 1] == 10,
    decreases i,
{
    if i > 0 && t[i - 1] != 10 {
        lemma_line_start_of(t, i - 1);
    }
}

pub(crate) fn line_start(text: &[u8], i: usize) -> (r: usize)
    requires
        i <= text@.len(),
    ensures
        r == line_start_of(text@, i as int),
        r <= i,
{
    proof {
        lemma_line_start_of(text@, i as int);
    }
    let mut k = i;
    while k > 0 && text[k - 1] != 10
        invariant
            k <= i <= text@.len(),
            line_start_of(text@, i as int) == line_start_of(text@, k as int),
        decreases k,
    {
        k -= 1;
    }
    k
}

/// Length of the run of ASCII digits starting at `from`.
pub open spec fn digit_run(t: Seq<u8>, from: int) -> int
    decreases t.len() - from,
{
    if from < 0 || from >= t.len() || !ascii_digit(t[from]) {
        0
    } else {
        1 + digit_run(t, from + 1)
    }
}

proof fn lemma_digit_run(t: Seq<u8>, from: int)
    requires
        0 <= from <= t.len(),
    ensures
        0 <= digit_run(t, from) <= t.len() - from,
    decreases t.len() - from,
{
    if from < t.len() && ascii_digit(t[from]) {
        lemma_digit_run(t, from + 1);
    }
}

/// A list marker (`*`, `+`, `-` or an ordered number) starts at `bi`, after at most three
/// spaces at the start of its line, and is followed by a space or tab.
pub open spec fn spec_list_marker_at(t: Seq<u8>, bi: int) -> bool {
    let ls = line_start_of(t, bi);
    let j = ls + crate::text::strip3_len(t.subrange(ls, t.len() as int));
    if j >= t.len() {
        false
    } else if j == bi && (t[j] == 42 || t[j] == 43 || t[j] == 45) {
        j + 1 < t.len() && (t[j + 1] == 32 || t[j + 1] == 9)
    } else if j <= bi && bi < t.len() && ascii_digit(t[bi]) {
        let k = j + digit_run(t, j);
        k > j && k == bi && k < t.len() && (t[k] == 46 || t[k] == 41) && k + 1 < t.len() && (
        t[k + 1] == 32 || t[k + 1] == 9)
    } else {
        false
    }
}

pub(crate) fn is_list_marker_at(text: &[u8], byte_index: usize) -> (r: bool)
    requires
        byte_index <= text@.len(),
    ensures
        r == spec_list_marker_at(text@, byte_index as int),
{
    let n = text.len();
    let ls = line_start(text, byte_index);
    let rest = slice(text, ls, n);
    let j = ls + crate::text::strip3_len_exec(rest);
    if j >= n {
        return false;
    }
    if j == byte_index && (text[j] == 42 || text[j] == 43 || text[j] == 45) {
        return j + 1 < n && is_space_or_tab(text[j + 1]);
    }
    if j <= byte_index && byte_index < n && is_ascii_digit(text[byte_index]) {
        proof {
            lemma_digit_run(text@, j as int);
        }
        let mut k = j;
        while k < n && is_ascii_digit(text[k])
            invariant
                j <= k <= n == text@.len(),
                digit_run(text@, j as int) == (k - j) + digit_run(text@, k as int),
            decreases n - k,
        {
            k += 1;
        }
        if k > j && k == byte_index && k < n && (text[k] == 46 || text[k] == 41) {
            return k + 1 < n && is_space_or_tab(text[k + 1]);
        }
    }
    false
}

/// End of the line holding position `i` (the next line feed, or the end of the text).
pub open spec fn line_end_of(t: Seq<u8>, i: int) -> int {
    match crate::text::find_byte(t, 10, i) {
        Some(k) => k,
        None => t.len() as int,
    }
}

/// Number of bytes equal to `c` in `t[lo..hi]`.
pub open spec fn count_byte(t: Seq<u8>, lo: int, hi: int, c: u8) -> int
    decreases hi - lo,
{
    if lo >= hi {
        0
    } else {
        count_byte(t, lo, hi - 1, c) + (if t[hi - 1] == c {
            1int
        } else {
            0
        })
    }
}

/// The marker's line holds only the marker, spaces and tabs, with at least three markers.
pub open spec fn spec_hr_line(t: Seq<u8>, mi: int, marker: u8) -> bool {
    let ls = line_start_of(t, mi);
    let le = line_end_of(t, mi);
    (forall|k: int| ls <= k < le ==> t[k] == marker || t[k] == 32 || t[k] == 9) && count_byte(
        t,
        ls,
        le,
        marker,
    ) >= 3
}

pub(crate) fn is_horizontal_rule_line(text: &[u8], marker_index: usize, marker: u8) -> (r: bool)
    requires
        marker_index <= text@.len(),
    ensures
        r == spec_hr_line(text@, marker_index as int, marker),
{
    let n = text.len();
    let ls = line_start(text, marker_index);
    proof {
        crate::text::lemma_find_byte(text@, 10, marker_index as int);
    }
    let le = match crate::text::find_byte_exec(text, 10, marker_index) {
        Some(k) => k,
        None => n,
    };
    let mut count: usize = 0;
    let mut k = ls;
    while k < le
        invariant
            ls <= k <= le <= n == text@.len(),
            le == line_end_of(text@, marker_index as int),
            ls == line_start_of(text@, marker_index as int),
            count == count_byte(text@, ls as int, k as int, marker),
            count <= k - ls,
            forall|q: int| ls <= q < k ==> text@[q] == marker || text@[q] == 32 || text@[q] == 9,
        decreases le - k,
    {
        let b = text[k];
        if b == marker {
            count += 1;
        } else if b != 32 && b != 9 {
            return false;
        }
        k += 1;
    }
    count >= 3
}

// ---------------------------------------------------------------------------------------------
// Asterisk and underscore counting.
// ---------------------------------------------------------------------------------------------

/// Runs of `*`: each run of length `n >= 3` contributes `n / 3`.
pub open spec fn triple_scan(t: Seq<u8>, i: int, count: int, consec: int) -> int
    decreases t.len() - i,
{
    if i < 0 || i >= t.len() {
        count + (if consec >= 3 {
            consec / 3
        } else {
            0
        })
    } else if t[i] == 42 {
        triple_scan(t, i + 1, count, consec + 1)
    } else {
        triple_scan(
            t,
            i + 1,
            count + (if consec >= 3 {
                consec / 3
            } else {
                0
            }),
            0,
        )
    }
}

pub open spec fn spec_count_triple_asterisks(t: Seq<u8>) -> int {
    triple_scan(t, 0, 0, 0)
}

pub(crate) fn count_triple_asterisks(text: &[u8]) -> (r: usize)
    ensures
        r == spec_count_triple_asterisks(text@),
{
    let mut count: usize = 0;
    let mut consecutive: usize = 0;
    let mut i: usize = 0;
    while i < text.len()
        invariant
            i <= text@.len(),
            count + consecutive <= i,
            spec_count_triple_asterisks(text@) == triple_scan(
                text@,
                i as int,
                count as int,
                consecutive as int,
            ),
        decreases text@.len() - i,
    {
        if text[i] == 42 {
            consecutive += 1;
        } else {
            if consecutive >= 3 {
                count += consecutive / 3;
            }
            consecutive = 0;
        }
        i += 1;
    }
    if consecutive >= 3 {
        count += consecutive / 3;
    }
    count
}

pub open spec fn byte_before(t: Seq<u8>, i: int) -> u8 {
    if i > 0 && i - 1 < t.len() {
        t[i - 1]
    } else {
        0
    }
}

pub open spec fn byte_after(t: Seq<u8>, i: int) -> u8 {
    if 0 <= i + 1 < t.len() {
        t[i + 1]
    } else {
        0
    }
}

/// Both neighbours are word characters (taking each byte as a character).
pub open spec fn word_internal(t: Seq<u8>, i: int) -> bool {
    let prev = byte_before(t, i);
    let next = byte_after(t, i);
    prev != 0 && next != 0 && spec_word_char(prev as char) && spec_word_char(next as char)
}

/// An asterisk at `index` does not count as a single-asterisk italic marker.
pub open spec fn spec_skip_asterisk(t: Seq<u8>, index: int) -> bool {
    let prev = byte_before(t, index);
    let next = byte_after(t, index);
    if prev == 92 {
        true
    } else if spec_inside_code(t, index) {
        true
    } else if t.contains(36u8) && spec_within_math(t, index) {
        true
    } else if prev != 42 && next == 42 {
        !(byte_after(t, index + 1) == 42)
    } else if prev == 42 {
        true
    } else if word_internal(t, index) {
        true
    } else {
        spec_list_marker_at(t, index)
    }
}

pub(crate) fn prev_byte(text: &[u8], i: usize) -> (r: u8)
    ensures
        r == byte_before(text@, i as int),
{
    if i > 0 && i - 1 < text.len() {
        text[i - 1]
    } else {
        0
    }
}

pub(crate) fn next_byte(text: &[u8], i: usize) -> (r: u8)
    ensures
        r == byte_after(text@, i as int),
{
    if i < text.len() && text.len() - i > 1 {
        text[i + 1]
    } else {
        0
    }
}

pub(crate) fn is_word_internal(text: &[u8], i: usize) -> (r: bool)
    ensures
        r == word_internal(text@, i as int),
{
    let prev = prev_byte(text, i);
    let next = next_byte(text, i);
    prev != 0 && next != 0 && is_word_char(prev as char) && is_word_char(next as char)
}

pub(crate) fn should_skip_asterisk(text: &[u8], index: usize) -> (r: bool)
    requires
        index < text.len(),
    ensures
        r == spec_skip_asterisk(text@, index as int),
{
    let prev = prev_byte(text, index);
    let next = next_byte(text, index);
    if prev == 92 {
        return true;
    }
    if is_inside_code_block(text, index) {
        return true;
    }
    if contains_byte(text, 36) && is_within_math_block(text, index) {
        return true;
    }
    if prev != 42 && next == 42 {
        let next_next = next_byte(text, index + 1);
        if next_next == 42 {
            return false;
        }
        return true;
    }
    if prev == 42 {
        return true;
    }
    if is_word_internal(text, index) {
        return true;
    }
    if is_list_marker_at(text, index) {
        return true;
    }
    false
}

/// Number of positions `< n` holding a counted single asterisk.
pub open spec fn count_single_star(t: Seq<u8>, n: int) -> int
    decreases n,
{
    if n <= 0 || n > t.len() {
        0
    } else {
        count_single_star(t, n - 1) + (if t[n - 1] == 42 && !spec_skip_asterisk(t, n - 1) {
            1int
        } else {
            0
        })
    }
}

pub open spec fn spec_count_single_asterisks(t: Seq<u8>) -> int {
    count_single_star(t, t.len() as int)
}

pub(crate) fn count_single_asterisks(text: &[u8]) -> (r: usize)
    ensures
        r == spec_count_single_asterisks(text@),
{
    let mut count: usize = 0;
    let mut i: usize = 0;
    while i < text.len()
        invariant
            i <= text@.len(),
            count == count_single_star(text@, i as int),
            count <= i,
        decreases text@.len() - i,
    {
        if text[i] == 42 && !should_skip_asterisk(text, i) {
            count += 1;
        }
        i += 1;
    }
    count
}

/// An underscore at `index` does not count as a single-underscore italic marker.
pub open spec fn spec_skip_underscore(t: Seq<u8>, index: int) -> bool {
    let prev = byte_before(t, index);
    let next = byte_after(t, index);
    if prev == 92 {
        true
    } else if spec_inside_code(t, index) {
        true
    } else if t.contains(36u8) && spec_within_math(t, index) {
        true
    } else if spec_within_link_url(t, index) {
        true
    } else if prev == 95 || next == 95 {
        true
    } else {
        word_internal(t, index)
    }
}

pub(crate) fn should_skip_underscore(text: &[u8], index: usize) -> (r: bool)
    requires
        index < text@.len(),
    ensures
        r == spec_skip_underscore(text@, index as int),
{
    let prev = prev_byte(text, index);
    let next = next_byte(text, index);
    if prev == 92 {
        return true;
    }
    if is_inside_code_block(text, index) {
        return true;
    }
    if contains_byte(text, 36) && is_within_math_block(text, index) {
        return true;
    }
    if is_within_link_or_image_url(text, index) {
        return true;
    }
    if prev == 95 || next == 95 {
        return true;
    }
    is_word_internal(text, index)
}

pub open spec fn count_single_under(t: Seq<u8>, n: int) -> int
    decreases n,
{
    if n <= 0 || n > t.len() {
        0
    } else {
        count_single_under(t, n - 1) + (if t[n - 1] == 95 && !spec_skip_underscore(t, n - 1) {
            1int
        } else {
            0
        })
    }
}

pub open spec fn spec_count_single_underscores(t: Seq<u8>) -> int {
    count_single_under(t, t.len() as int)
}

pub(crate) fn count_single_underscores(text: &[u8]) -> (r: usize)
    ensures
        r == spec_count_single_underscores(text@),
{
    let mut count: usize = 0;
    let mut i: usize = 0;
    while i < text.len()
        invariant
            i <= text@.len(),
            count == count_single_under(text@, i as int),
            count <= i,
        decreases text@.len() - i,
    {
        if text[i] == 95 && !should_skip_underscore(text, i) {
            count += 1;
        }
        i += 1;
    }
    count
}


// ---------------------------------------------------------------------------------------------
// The whole termination pass.
// ---------------------------------------------------------------------------------------------

/// The emphasis passes in order: `***`, `**`, `__`, `*`, `_`.
pub open spec fn spec_emphasis(t: Seq<u8>) -> Seq<u8> {
    spec_close_single_under(
        spec_close_single_star(spec_close_double(spec_close_double(spec_close_triple(t), 42), 95)),
    )
}

/// `p` ends with the link placeholder `](url)`.
pub open spec fn ends_with_placeholder(p: Seq<u8>, url: Seq<u8>) -> bool {
    let suf = seq![93u8, 40u8] + url + seq![41u8];
    suf.len() <= p.len() && matches_at(p, p.len() - suf.len(), suf)
}

/// The passes after link fixing, each when its option is on.
pub open spec fn spec_inline_passes(t: Seq<u8>, o: TerminatorOptions) -> Seq<u8> {
    let t3 = if o.emphasis {
        spec_emphasis(t)
    } else {
        t
    };
    let t4 = if o.inline_code {
        spec_balance_inline_code(t3)
    } else {
        t3
    };
    let t5 = if o.strikethrough {
        spec_close_strike(t4)
    } else {
        t4
    };
    if o.katex_block {
        spec_balance_katex(t5)
    } else {
        t5
    }
}

/// The display-math pass of termination, on a text without backticks: with the math option on,
/// an odd number of `$$` delimiters gets a closing `$$` after the text (nothing else changes when
/// the other inline passes are off), an even number leaves the text; with the option off the text
/// is left.
pub proof fn law_inline_passes_close_display_math(t: Seq<u8>, o: TerminatorOptions)
    requires
        forall|k: int| 0 <= k < t.len() ==> t[k] != 96,
        !o.emphasis,
        !o.inline_code,
        !o.strikethrough,
    ensures
        !o.katex_block ==> spec_inline_passes(t, o) == t,
        o.katex_block && crate::text::count_from(t, seq![36u8, 36u8], 0) % 2 == 0 ==> spec_inline_passes(t, o) == t,
        o.katex_block && crate::text::count_from(t, seq![36u8, 36u8], 0) % 2 == 1 ==> ({
            let r = spec_inline_passes(t, o);
            &&& r.len() >= t.len() + 2
            &&& r.subrange(0, t.len() as int) == t
            &&& r.subrange(r.len() - 2, r.len() as int) == seq![36u8, 36u8]
        }),
{
    crate::pending::balance::law_katex_closes_odd_display_math(t);
}

/// What termination makes of a tail window.
pub open spec fn spec_terminate_tail(tail: Seq<u8>, o: TerminatorOptions) -> Seq<u8> {
    let t1 = if o.setext_headings {
        spec_setext(tail)
    } else {
        tail
    };
    let url = encode_utf8(o.incomplete_link_url@);
    if spec_incomplete_multiline_code(t1) {
        t1
    } else if o.links || o.images {
        match spec_fix_link(t1, url, o.links, o.images) {
            Some(p) => if ends_with_placeholder(p, url) {
                p
            } else {
                spec_inline_passes(p, o)
            },
            None => spec_inline_passes(t1, o),
        }
    } else {
        spec_inline_passes(t1, o)
    }
}

/// Termination of a Markdown tail: a single trailing space is dropped, the text before the
/// scan window is kept as it is, and the window is terminated.
pub open spec fn spec_terminate(text: Seq<u8>, o: TerminatorOptions) -> Seq<u8> {
    if text.len() == 0 {
        seq![]
    } else {
        let t = spec_trim_single_space(text);
        let off = spec_tail_start(t, o.window_bytes as int);
        t.subrange(0, off) + spec_terminate_tail(t.subrange(off, t.len() as int), o)
    }
}

fn inline_passes(t: Vec<u8>, opts: &TerminatorOptions) -> (r: Vec<u8>)
    requires
        valid_utf8(t@),
    ensures
        r@ == spec_inline_passes(t@, *opts),
        valid_utf8(r@),
{
    let mut tail = t;
    if opts.emphasis {
        tail = handle_incomplete_bold_italic(&tail);
        tail = handle_incomplete_bold(&tail);
        tail = handle_incomplete_double_underscore_italic(&tail);
        tail = handle_incomplete_single_asterisk_italic(&tail);
        tail = handle_incomplete_single_underscore_italic(&tail);
    }
    if opts.inline_code {
        tail = balance_inline_code(&tail);
    }
    if opts.strikethrough {
        tail = balance_strikethrough(&tail);
    }
    if opts.katex_block {
        tail = balance_katex_block(&tail);
    }
    tail
}

fn terminate_tail(tail: &[u8], opts: &TerminatorOptions) -> (r: Vec<u8>)
    requires
        valid_utf8(tail@),
    ensures
        r@ == spec_terminate_tail(tail@, *opts),
        valid_utf8(r@),
{
    let t1 = if opts.setext_headings {
        apply_setext_heading_protection(tail)
    } else {
        to_vec(tail)
    };
    if is_inside_incomplete_multiline_code_block(&t1) {
        return t1;
    }
    let url = opts.incomplete_link_url.as_str().as_bytes();
    proof {
        lemma_encode_valid(opts.incomplete_link_url@);
    }
    if opts.links || opts.images {
        match fix_incomplete_link_or_image(&t1, url, opts.links, opts.images) {
            Some(p) => {
                let mut suf: Vec<u8> = Vec::new();
                append_placeholder(&mut suf, url);
                assert(suf@ =~= seq![93u8, 40u8] + url@ + seq![41u8]);
                if ends_with(&p, &suf) {
                    return p;
                }
                inline_passes(p, opts)
            },
            None => inline_passes(t1, opts),
        }
    } else {
        inline_passes(t1, opts)
    }
}

/// Terminate a streaming Markdown tail held as UTF-8 bytes.
pub fn terminate_markdown_bytes(text: &[u8], opts: &TerminatorOptions) -> (r: Vec<u8>)
    requires
        valid_utf8(text@),
    ensures
        r@ == spec_terminate(text@, *opts),
        valid_utf8(r@),
{
    if text.len() == 0 {
        return Vec::new();
    }
    let t = trim_trailing_single_space(text);
    let off = tail_start(t, opts.window_bytes);
    proof {
        lemma_valid_subrange(t@, 0, off as int);
        lemma_valid_subrange(t@, off as int, t@.len() as int);
    }
    let mut out = to_vec(slice(t, 0, off));
    let tail = terminate_tail(slice(t, off, t.len()), opts);
    proof {
        valid_utf8_concat(out@, tail@);
    }
    extend(&mut out, &tail);
    out
}

/// Terminate a streaming Markdown tail to avoid partial rendering artifacts.
///
/// This function is intentionally conservative and only modifies the pending tail.
pub fn terminate_markdown(text: &str, opts: &TerminatorOptions) -> (r: String)
    ensures
        encode_utf8(r@) == spec_terminate(text.spec_bytes(), *opts),
{
    proof {
        lemma_encode_valid(text@);
    }
    let v = terminate_markdown_bytes(text.as_bytes(), opts);
    string_of(&v)
}

/// The terminator only rewrites the tail: the text before its scan window (which starts at a
/// character boundary within the last `window_bytes` bytes) comes out unchanged at the front of
/// the result.
pub proof fn law_terminate_keeps_head(text: Seq<u8>, o: TerminatorOptions)
    requires
        text.len() > 0,
    ensures
        ({
            let t = spec_trim_single_space(text);
            let off = spec_tail_start(t, o.window_bytes as int);
            &&& 0 <= off <= t.len() <= text.len()
            &&& t.len() > o.window_bytes ==> off >= t.len() - o.window_bytes
            &&& spec_terminate(text, o).len() >= off
            &&& spec_terminate(text, o).subrange(0, off) == text.subrange(0, off)
        }),
{
    let t = spec_trim_single_space(text);
    let w = o.window_bytes as int;
    if t.len() > w {
        lemma_next_cut(t, t.len() - w);
    }
    let off = spec_tail_start(t, w);
    let r = spec_terminate(text, o);
    assert(r.subrange(0, off) =~= t.subrange(0, off));
    assert(t.subrange(0, off) =~= text.subrange(0, off));
}

} // verus!
