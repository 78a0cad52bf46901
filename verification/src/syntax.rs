//! Small Markdown syntax helpers exposed for adapters and analyzers.
use vstd::prelude::*;
use vstd::utf8::*;
use vstd::string::StringSliceAdditionalSpecFns;
use crate::text::{
    first_token, lemma_encode_valid, run_len, run_len_exec, strip3, strip3_len, strip3_len_exec,
    sub_str, take_until_ws, trim_end_str, trim_start_str, trim_str, ws_trim, ws_trim_end,
    ws_trim_start, find_byte, find_byte_exec, lemma_run_len, opt_int, ascii_lower_chars,
    ascii_lowercase_str,
};

verus! {

broadcast use vstd::string::group_string_axioms;

#[derive(Debug, Clone, PartialEq, Eq)]
pub struct CodeFenceHeader<'a> {
    pub fence_char: char,
    pub fence_len: usize,
    /// Entire info string (trimmed), excluding fence markers.
    pub info: &'a str,
    /// First token of `info`, lowercased if ASCII (its ASCII letters lowercased). `None` means
    /// "no language".
    pub language: Option<String>,
}

/// The opening fence of a line: after up to three spaces, a run of at least three backticks
/// or tildes. Gives the fence character, the run length and the offset where the run starts.
pub open spec fn fence_open(b: Seq<u8>) -> Option<(u8, int, int)> {
    let k = strip3_len(b);
    let s = strip3(b);
    if s.len() < 3 {
        None
    } else if s[0] != 96 && s[0] != 126 {
        None
    } else if run_len(s, s[0], 0) < 3 {
        None
    } else {
        Some((s[0], run_len(s, s[0], 0), k))
    }
}

/// The info string of a fence opening line: the rest of the line after the run, trimmed.
pub open spec fn fence_info(b: Seq<u8>, start: int, len: int) -> Seq<char> {
    ws_trim(decode_utf8(b.subrange(start + len, b.len() as int)))
}

/// A language as reported: the word with its ASCII letters lowercased.
pub open spec fn lower_word(o: Option<Seq<char>>) -> Option<Seq<char>> {
    match o {
        Some(w) => Some(ascii_lower_chars(w)),
        None => None,
    }
}

/// `info.split_whitespace().next()`.
pub open spec fn first_word(info: Seq<char>) -> Option<Seq<char>> {
    if ws_trim_start(info).len() == 0 {
        None
    } else {
        Some(take_until_ws(ws_trim_start(info)))
    }
}

pub open spec fn opt_view(o: Option<&str>) -> Option<Seq<char>> {
    match o {
        Some(s) => Some(s@),
        None => None,
    }
}

pub fn is_space_or_tab(b: u8) -> (r: bool)
    ensures
        r == (b == 32 || b == 9),
{
    b == 32 || b == 9
}

/// Parse a CommonMark-ish fence opening line: up to 3 leading spaces, then ``` or ~~~ (>= 3),
/// then the info string.
pub fn parse_code_fence_header(line: &str) -> (r: Option<CodeFenceHeader<'_>>)
    ensures
        match fence_open(line.spec_bytes()) {
            None => r is None,
            Some((c, n, k)) => r matches Some(h) && h.fence_char == c as char && h.fence_len == n
                && h.info@ == fence_info(line.spec_bytes(), k, n) && crate::reference::opt_str_view(h.language)
                == lower_word(first_word(h.info@)),
        },
{
    let b = line.as_bytes();
    let k = strip3_len_exec(b);
    if b.len() - k < 3 {
        return None;
    }
    let c = b[k];
    if c != 96 && c != 126 {
        return None;
    }
    let n = run_len_exec(b, c, k);
    proof {
        let s = strip3(b@);
        assert(s =~= b@.subrange(k as int, b@.len() as int));
        lemma_run_len_shift(b@, c, k as int);
        lemma_run_len(b@, c, k as int);
    }
    if n < 3 {
        return None;
    }
    let rest = sub_str(line, k + n, b.len());
    let info = trim_str(rest);
    let t = trim_start_str(info);
    let language = if t.as_bytes().len() == 0 {
        None
    } else {
        Some(ascii_lowercase_str(first_token(t)))
    };
    proof {
        if t.spec_bytes().len() > 0 {
            assert(t@.len() > 0) by {
                if t@.len() == 0 {
                    assert(encode_utf8(t@) =~= Seq::<u8>::empty());
                }
            }
        } else {
            assert(t@.len() == 0) by {
                if t@.len() > 0 {
                    encode_utf8_first_scalar(t@);
                }
            }
        }
    }
    Some(CodeFenceHeader { fence_char: c as char, fence_len: n, info, language })
}

pub proof fn lemma_run_len_shift(b: Seq<u8>, c: u8, k: int)
    requires
        0 <= k <= b.len(),
    ensures
        run_len(b.subrange(k, b.len() as int), c, 0) == run_len(b, c, k),
{
    lemma_run_len_shift_at(b, c, k, 0);
}

proof fn lemma_run_len_shift_at(b: Seq<u8>, c: u8, k: int, j: int)
    requires
        0 <= k <= b.len(),
        0 <= j,
    ensures
        run_len(b.subrange(k, b.len() as int), c, j) == run_len(b, c, k + j),
    decreases b.len() - k - j,
{
    let s = b.subrange(k, b.len() as int);
    if j < s.len() {
        assert(s[j] == b[k + j]);
        if b[k + j] == c {
            lemma_run_len_shift_at(b, c, k, j + 1);
        }
    }
}

/// The bytes before the first line feed (the whole text when there is none).
pub open spec fn first_line(b: Seq<u8>) -> Seq<u8> {
    match find_byte(b, 10, 0) {
        Some(k) => b.subrange(0, k),
        None => b,
    }
}

/// Parse the fence header from the first line of a block.
pub fn parse_code_fence_header_from_block(text: &str) -> (r: Option<CodeFenceHeader<'_>>)
    ensures
        match fence_open(first_line(text.spec_bytes())) {
            None => r is None,
            Some((c, n, k)) => r matches Some(h) && h.fence_char == c as char && h.fence_len == n
                && h.info@ == fence_info(first_line(text.spec_bytes()), k, n) && crate::reference::opt_str_view(
                h.language,
            ) == lower_word(first_word(h.info@)),
        },
{
    let b = text.as_bytes();
    let end = match find_byte_exec(b, 10, 0) {
        Some(k) => k,
        None => b.len(),
    };
    let first = sub_str(text, 0, end);
    proof {
        assert(b@.subrange(0, b@.len() as int) =~= b@);
        lemma_encode_valid(first@);
        match find_byte(b@, 10, 0) {
            Some(k) => {
                assert(end == k);
            },
            None => {
                assert(end == b@.len());
            },
        }
        assert(first.spec_bytes() == first_line(text.spec_bytes()));
    }
    parse_code_fence_header(first)
}

/// Closing fence: after up to 3 spaces and trailing whitespace removed, only `fence_char`,
/// at least `fence_len` times.
pub open spec fn closing_fence(line: Seq<u8>, fence_char: char, fence_len: int) -> bool {
    let t = ws_trim_end(decode_utf8(strip3(line)));
    (forall|i: int| 0 <= i < t.len() ==> t[i] == fence_char) && t.len() >= fence_len
}

pub fn is_code_fence_closing_line(line: &str, fence_char: char, fence_len: usize) -> (r: bool)
    ensures
        r == closing_fence(line.spec_bytes(), fence_char, fence_len as int),
{
    let b = line.as_bytes();
    let k = strip3_len_exec(b);
    let s = sub_str(line, k, b.len());
    let t = trim_end_str(s);
    let mut count: usize = 0;
    for ch in it: t.chars()
        invariant
            it.seq() == t@,
            count == if it.index() < fence_len { it.index() as int } else { fence_len as int },
            forall|i: int| 0 <= i < it.index() ==> t@[i] == fence_char,
            t@ == ws_trim_end(decode_utf8(strip3(line.spec_bytes()))),
    {
        assert(ch == t@[it.index() as int]);
        if ch != fence_char {
            return false;
        }
        if count < fence_len {
            count += 1;
        }
    }
    count >= fence_len
}

/// `^[ \t]*[-*+][ \t]+$`.
pub open spec fn list_marker_prefix(b: Seq<u8>) -> bool {
    let i = sp_tab_run(b, 0);
    &&& i < b.len()
    &&& (b[i] == 45 || b[i] == 42 || b[i] == 43)
    &&& i + 1 < b.len()
    &&& forall|j: int| i + 1 <= j < b.len() ==> (b[j] == 32 || b[j] == 9)
}

/// Length of the run of spaces and tabs starting at `from`.
pub open spec fn sp_tab_run(b: Seq<u8>, from: int) -> int
    decreases b.len() - from,
{
    if from < 0 || from >= b.len() || !(b[from] == 32 || b[from] == 9) {
        0
    } else {
        1 + sp_tab_run(b, from + 1)
    }
}

pub proof fn lemma_sp_tab_run(b: Seq<u8>, from: int)
    requires
        0 <= from <= b.len(),
    ensures
        0 <= sp_tab_run(b, from) <= b.len() - from,
        forall|t: int| from <= t < from + sp_tab_run(b, from) ==> (b[t] == 32 || b[t] == 9),
        from + sp_tab_run(b, from) < b.len() ==> !(b[from + sp_tab_run(b, from)] == 32
            || b[from + sp_tab_run(b, from)] == 9),
    decreases b.len() - from,
{
    if from < b.len() && (b[from] == 32 || b[from] == 9) {
        lemma_sp_tab_run(b, from + 1);
    }
}

pub fn sp_tab_run_exec(b: &[u8], from: usize) -> (r: usize)
    requires
        from <= b@.len(),
    ensures
        r == sp_tab_run(b@, from as int),
        from + r <= b@.len(),
{
    proof {
        lemma_sp_tab_run(b@, from as int);
    }
    let mut i = from;
    while i < b.len() && is_space_or_tab(b[i])
        invariant
            from <= i <= b@.len(),
            sp_tab_run(b@, from as int) == (i - from) + sp_tab_run(b@, i as int),
        decreases b@.len() - i,
    {
        i += 1;
    }
    i - from
}

/// Equivalent to remend's list item pattern `^[\s]*[-*+][\s]+$` (spaces and tabs).
pub fn is_list_marker_line_prefix(line: &str) -> (r: bool)
    ensures
        r == list_marker_prefix(line.spec_bytes()),
{
    let b = line.as_bytes();
    list_marker_prefix_bytes(b)
}

#[verifier::loop_isolation(false)]
pub fn list_marker_prefix_bytes(b: &[u8]) -> (r: bool)
    ensures
        r == list_marker_prefix(b@),
{
    let i = sp_tab_run_exec(b, 0);
    if i >= b.len() {
        return false;
    }
    let marker = b[i];
    if marker != 45 && marker != 42 && marker != 43 {
        return false;
    }
    let mut j = i + 1;
    if j >= b.len() {
        return false;
    }
    while j < b.len()
        invariant
            i + 1 <= j <= b@.len(),
            forall|t: int| i + 1 <= t < j ==> (b@[t] == 32 || b@[t] == 9),
        decreases b@.len() - j,
    {
        if !is_space_or_tab(b[j]) {
            return false;
        }
        j += 1;
    }
    true
}

} // verus!
