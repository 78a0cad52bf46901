//! Byte-level text utilities shared by the block splitter, the terminator and the plugins.
//!
//! Text is handled as UTF-8 bytes. Every public function of the crate that takes a `&str`
//! works on `s.as_bytes()`, whose model is `encode_utf8(s@)`.
use vstd::prelude::*;
use vstd::utf8::*;
use vstd::string::StringSliceAdditionalSpecFns;

verus! {

broadcast use vstd::string::group_string_axioms;

// ---------------------------------------------------------------------------------------------
// Names for what std's Unicode-aware functions compute.
// ---------------------------------------------------------------------------------------------

/// What `char::is_whitespace` returns for a character (Unicode `White_Space`).
pub uninterp spec fn unicode_whitespace(c: char) -> bool;

/// What `char::is_alphanumeric` returns for a character (Unicode `Alphabetic` or `Numeric`).
pub uninterp spec fn unicode_alphanumeric(c: char) -> bool;

/// The characters that `char::to_lowercase` yields for a character.
pub uninterp spec fn unicode_lowercase(c: char) -> Seq<char>;

/// ASCII whitespace as far as `char::is_whitespace` is concerned: U+0009..U+000D and U+0020.
pub open spec fn ascii_whitespace_char(c: char) -> bool {
    c == ' ' || c == '\t' || c == '\n' || c == '\r' || c == '\u{0B}' || c == '\u{0C}'
}

/// Drop leading whitespace characters.
pub open spec fn ws_trim_start(cs: Seq<char>) -> Seq<char>
    decreases cs.len(),
{
    if cs.len() > 0 && unicode_whitespace(cs[0]) {
        ws_trim_start(cs.drop_first())
    } else {
        cs
    }
}

/// Drop trailing whitespace characters.
pub open spec fn ws_trim_end(cs: Seq<char>) -> Seq<char>
    decreases cs.len(),
{
    if cs.len() > 0 && unicode_whitespace(cs.last()) {
        ws_trim_end(cs.drop_last())
    } else {
        cs
    }
}

/// Drop leading and trailing whitespace characters.
pub open spec fn ws_trim(cs: Seq<char>) -> Seq<char> {
    ws_trim_end(ws_trim_start(cs))
}

/// True when every character is whitespace (`str::trim` gives the empty string).
pub open spec fn all_whitespace(cs: Seq<char>) -> bool {
    forall|i: int| 0 <= i < cs.len() ==> #[trigger] unicode_whitespace(cs[i])
}

/// Byte-level views of the trimming functions (on valid UTF-8).
pub open spec fn bytes_trim_start(b: Seq<u8>) -> Seq<u8> {
    encode_utf8(ws_trim_start(decode_utf8(b)))
}

pub open spec fn bytes_trim_end(b: Seq<u8>) -> Seq<u8> {
    encode_utf8(ws_trim_end(decode_utf8(b)))
}

pub open spec fn bytes_trim(b: Seq<u8>) -> Seq<u8> {
    encode_utf8(ws_trim(decode_utf8(b)))
}

/// The bytes of a line are blank: only whitespace characters.
pub open spec fn bytes_blank(b: Seq<u8>) -> bool {
    all_whitespace(decode_utf8(b))
}

// ---------------------------------------------------------------------------------------------
// Trusted items for std's UTF-8 and Unicode functions.
// ---------------------------------------------------------------------------------------------

/// `std::str::from_utf8`: succeeds exactly on valid UTF-8 input, and the string it returns
/// decodes those bytes.
#[verifier::external_body]
fn str_from_utf8(b: &[u8]) -> (r: Option<&str>)
    ensures
        r is Some <==> valid_utf8(b@),
        r matches Some(s) ==> s@ == decode_utf8(b@),
{
    std::str::from_utf8(b).ok()
}

/// `char::is_whitespace`: the Unicode `White_Space` property; on ASCII it holds exactly for
/// U+0009..U+000D and the space.
#[verifier::external_body]
pub(crate) fn char_is_whitespace(c: char) -> (r: bool)
    ensures
        r == unicode_whitespace(c),
        (c as u32) < 128 ==> (r <==> ascii_whitespace_char(c)),
{
    c.is_whitespace()
}

/// `char::is_alphanumeric`: Unicode `Alphabetic` or `Numeric`; on ASCII it holds exactly for
/// letters and digits.
#[verifier::external_body]
pub(crate) fn char_is_alphanumeric(c: char) -> (r: bool)
    ensures
        r == unicode_alphanumeric(c),
        (c as u32) < 128 ==> (r <==> (('a' <= c <= 'z') || ('A' <= c <= 'Z') || ('0' <= c <= '9'))),
{
    c.is_alphanumeric()
}

/// `char::to_lowercase`, collected: the lowercase mapping of a character; for ASCII it is the
/// single character with `A..Z` mapped to `a..z`.
#[verifier::external_body]
pub(crate) fn char_to_lowercase(c: char) -> (r: Vec<char>)
    ensures
        r@ == unicode_lowercase(c),
        (c as u32) < 128 ==> r@ == seq![ascii_lower_char(c)],
{
    c.to_lowercase().collect()
}


/// `String::push`: appends the character to the end of the string.
#[verifier::external_body]
pub(crate) fn string_push(s: &mut String, c: char)
    ensures
        final(s)@ == old(s)@.push(c),
{
    s.push(c)
}

/// `String::push_str`: appends the string slice to the end of the string.
#[verifier::external_body]
pub(crate) fn string_push_str(s: &mut String, t: &str)
    ensures
        final(s)@ == old(s)@ + t@,
{
    s.push_str(t)
}

/// `str::trim_start`: drops leading whitespace characters.
#[verifier::external_body]
fn str_trim_start(s: &str) -> (r: &str)
    ensures
        r@ == ws_trim_start(s@),
{
    s.trim_start()
}

/// `str::trim_end`: drops trailing whitespace characters.
#[verifier::external_body]
fn str_trim_end(s: &str) -> (r: &str)
    ensures
        r@ == ws_trim_end(s@),
{
    s.trim_end()
}

pub open spec fn ascii_lower_char(c: char) -> char {
    if 'A' <= c <= 'Z' {
        ((c as u32) + 32) as char
    } else {
        c
    }
}

/// `to_ascii_lowercase` on characters: ASCII letters lowercased, every other character kept.
pub open spec fn ascii_lower_chars(cs: Seq<char>) -> Seq<char> {
    cs.map_values(|c: char| ascii_lower_char(c))
}

/// `str::to_ascii_lowercase`.
pub fn ascii_lowercase_str(s: &str) -> (r: String)
    ensures
        r@ == ascii_lower_chars(s@),
{
    let mut out = String::new();
    assert(out@ =~= ascii_lower_chars(s@.subrange(0, 0)));
    for c in it: s.chars()
        invariant
            it.seq() == s@,
            out@ == ascii_lower_chars(s@.subrange(0, it.index() as int)),
    {
        let ghost idx = it.index() as int;
        assert(c == s@[idx]);
        let u = c as u32;
        let l = if 65 <= u && u <= 90 {
            ((u + 32) as u8) as char
        } else {
            c
        };
        assert(l == ascii_lower_char(c));
        string_push(&mut out, l);
        assert(ascii_lower_chars(s@.subrange(0, idx + 1)) =~= ascii_lower_chars(s@.subrange(0, idx)).push(l));
    }
    assert(s@.subrange(0, s@.len() as int) =~= s@);
    out
}

// ---------------------------------------------------------------------------------------------
// UTF-8 lemmas.
// ---------------------------------------------------------------------------------------------

/// A position where a valid UTF-8 sequence may be cut: its ends, or before a non-continuation byte.
pub open spec fn is_cut(b: Seq<u8>, i: int) -> bool {
    i == 0 || i == b.len() || (0 <= i < b.len() && !is_continuation_byte(b[i]))
}

pub open spec fn all_ascii(b: Seq<u8>) -> bool {
    forall|i: int| 0 <= i < b.len() ==> #[trigger] b[i] < 128
}

pub proof fn lemma_ascii_valid(b: Seq<u8>)
    requires
        all_ascii(b),
    ensures
        valid_utf8(b),
    decreases b.len(),
{
    if b.len() > 0 {
        assert(is_leading_byte_width_1(b[0]));
        assert(valid_first_scalar(b));
        assert(length_of_first_scalar(b) == 1);
        let rest = pop_first_scalar(b);
        assert(rest =~= b.subrange(1, b.len() as int));
        assert(all_ascii(rest)) by {
            assert forall|i: int| 0 <= i < rest.len() implies #[trigger] rest[i] < 128 by {
                assert(rest[i] == b[i + 1]);
            }
        }
        lemma_ascii_valid(rest);
    }
}

pub proof fn lemma_cut_boundary(b: Seq<u8>, i: int)
    requires
        valid_utf8(b),
        is_cut(b, i),
    ensures
        is_char_boundary(b, i),
{
    is_char_boundary_start_end_of_seq(b);
    if 0 < i < b.len() {
        is_char_boundary_iff_not_is_continuation_byte(b, i);
    }
}

pub proof fn lemma_valid_subrange(b: Seq<u8>, i: int, j: int)
    requires
        valid_utf8(b),
        0 <= i <= j <= b.len(),
        is_cut(b, i),
        is_cut(b, j),
    ensures
        valid_utf8(b.subrange(i, j)),
{
    lemma_cut_boundary(b, j);
    valid_utf8_split(b, j);
    let p = b.subrange(0, j);
    assert(is_cut(p, i)) by {
        if 0 < i < j {
            assert(p[i] == b[i]);
        }
    }
    lemma_cut_boundary(p, i);
    valid_utf8_split(p, i);
    assert(p.subrange(i, p.len() as int) =~= b.subrange(i, j));
}

pub proof fn lemma_valid_concat3(a: Seq<u8>, b: Seq<u8>, c: Seq<u8>)
    requires
        valid_utf8(a),
        valid_utf8(b),
        valid_utf8(c),
    ensures
        valid_utf8(a + b + c),
{
    valid_utf8_concat(a, b);
    valid_utf8_concat(a + b, c);
}

pub proof fn lemma_encode_concat(a: Seq<char>, b: Seq<char>)
    ensures
        encode_utf8(a + b) == encode_utf8(a) + encode_utf8(b),
    decreases a.len(),
{
    if a.len() == 0 {
        assert(a + b =~= b);
    } else {
        lemma_encode_concat(a.drop_first(), b);
        assert((a + b).drop_first() =~= a.drop_first() + b);
        assert((a + b)[0] == a[0]);
    }
}

pub proof fn lemma_roundtrip(b: Seq<u8>)
    requires
        valid_utf8(b),
    ensures
        encode_utf8(decode_utf8(b)) == b,
{
    decode_utf8_encode_utf8(b);
}

pub proof fn lemma_encode_valid(cs: Seq<char>)
    ensures
        valid_utf8(encode_utf8(cs)),
        decode_utf8(encode_utf8(cs)) == cs,
{
    encode_utf8_valid_utf8(cs);
    encode_utf8_decode_utf8(cs);
}

// ---------------------------------------------------------------------------------------------
// Conversions between bytes and strings.
// ---------------------------------------------------------------------------------------------

/// View valid UTF-8 bytes as a string slice.
pub fn as_str(b: &[u8]) -> (s: &str)
    requires
        valid_utf8(b@),
    ensures
        s@ == decode_utf8(b@),
        s.spec_bytes() == b@,
{
    proof {
        lemma_roundtrip(b@);
    }
    match str_from_utf8(b) {
        Some(s) => s,
        None => {
            proof {
                assert(false);
            }
            ""
        },
    }
}

/// Build an owned string from valid UTF-8 bytes.
pub fn string_of(b: &[u8]) -> (s: String)
    requires
        valid_utf8(b@),
    ensures
        s@ == decode_utf8(b@),
        encode_utf8(s@) == b@,
{
    let st = as_str(b);
    proof {
        lemma_roundtrip(b@);
    }
    st.to_owned()
}

/// Copy a slice into a vector.
pub fn to_vec(b: &[u8]) -> (v: Vec<u8>)
    ensures
        v@ == b@,
{
    let mut v: Vec<u8> = Vec::with_capacity(b.len());
    let mut i: usize = 0;
    while i < b.len()
        invariant
            i <= b@.len(),
            v@ == b@.subrange(0, i as int),
        decreases b@.len() - i,
    {
        v.push(b[i]);
        i += 1;
    }
    assert(v@ =~= b@);
    v
}

/// Append a slice to a vector.
pub fn extend(v: &mut Vec<u8>, b: &[u8])
    ensures
        final(v)@ == old(v)@ + b@,
{
    let mut i: usize = 0;
    let ghost v0 = v@;
    while i < b.len()
        invariant
            i <= b@.len(),
            v@ == v0 + b@.subrange(0, i as int),
        decreases b@.len() - i,
    {
        v.push(b[i]);
        i += 1;
        assert(v0 + b@.subrange(0, i as int) =~= v0 + b@.subrange(0, i - 1) + seq![b@[i - 1]]);
    }
    assert(b@.subrange(0, b@.len() as int) =~= b@);
}

/// The sub-slice `b[start..end]`.
pub fn slice(b: &[u8], start: usize, end: usize) -> (r: &[u8])
    requires
        start <= end <= b@.len(),
    ensures
        r@ == b@.subrange(start as int, end as int),
{
    vstd::slice::slice_subrange(b, start, end)
}

// ---------------------------------------------------------------------------------------------
// Trimming on bytes.
// ---------------------------------------------------------------------------------------------

pub fn trim_start(b: &[u8]) -> (r: &[u8])
    requires
        valid_utf8(b@),
    ensures
        r@ == bytes_trim_start(b@),
        valid_utf8(r@),
{
    let s = as_str(b);
    let t = str_trim_start(s);
    proof {
        encode_utf8_valid_utf8(t@);
    }
    t.as_bytes()
}

pub fn trim_end(b: &[u8]) -> (r: &[u8])
    requires
        valid_utf8(b@),
    ensures
        r@ == bytes_trim_end(b@),
        valid_utf8(r@),
{
    let s = as_str(b);
    let t = str_trim_end(s);
    proof {
        encode_utf8_valid_utf8(t@);
    }
    t.as_bytes()
}

pub fn trim(b: &[u8]) -> (r: &[u8])
    requires
        valid_utf8(b@),
    ensures
        r@ == bytes_trim(b@),
        valid_utf8(r@),
{
    let t1 = trim_start(b);
    proof {
        lemma_encode_valid(ws_trim_start(decode_utf8(b@)));
    }
    trim_end(t1)
}

pub proof fn lemma_trim_start_empty(cs: Seq<char>)
    ensures
        ws_trim_start(cs).len() == 0 <==> all_whitespace(cs),
    decreases cs.len(),
{
    if cs.len() > 0 && unicode_whitespace(cs[0]) {
        lemma_trim_start_empty(cs.drop_first());
        if all_whitespace(cs.drop_first()) {
            assert forall|i: int| 0 <= i < cs.len() implies #[trigger] unicode_whitespace(cs[i]) by {
                if i > 0 {
                    assert(cs[i] == cs.drop_first()[i - 1]);
                }
            }
        }
    }
}

pub proof fn lemma_trim_end_empty_of_empty(cs: Seq<char>)
    ensures
        ws_trim_end(cs).len() == 0 <==> all_whitespace(cs),
    decreases cs.len(),
{
    if cs.len() > 0 && unicode_whitespace(cs.last()) {
        lemma_trim_end_empty_of_empty(cs.drop_last());
        if all_whitespace(cs.drop_last()) {
            assert forall|i: int| 0 <= i < cs.len() implies #[trigger] unicode_whitespace(cs[i]) by {
                if i < cs.len() - 1 {
                    assert(cs[i] == cs.drop_last()[i]);
                }
            }
        }
    }
}

pub proof fn lemma_trim_end_of_trim_start_blank(cs: Seq<char>)
    ensures
        ws_trim(cs).len() == 0 <==> all_whitespace(cs),
{
    lemma_trim_start_empty(cs);
    lemma_trim_end_empty_of_empty(ws_trim_start(cs));
    lemma_trim_start_all(cs);
}

proof fn lemma_trim_start_all(cs: Seq<char>)
    ensures
        all_whitespace(ws_trim_start(cs)) ==> ws_trim_start(cs).len() == 0,
    decreases cs.len(),
{
    if cs.len() > 0 && unicode_whitespace(cs[0]) {
        lemma_trim_start_all(cs.drop_first());
    } else if cs.len() > 0 {
        assert(!unicode_whitespace(ws_trim_start(cs)[0]));
    }
}

/// `line.trim().is_empty()`: the bytes hold only whitespace characters.
pub fn is_blank(b: &[u8]) -> (r: bool)
    requires
        valid_utf8(b@),
    ensures
        r == bytes_blank(b@),
{
    let t = trim(b);
    proof {
        lemma_trim_end_of_trim_start_blank(decode_utf8(b@));
        let cs = ws_trim(decode_utf8(b@));
        if cs.len() > 0 {
            encode_utf8_first_scalar(cs);
        }
    }
    t.len() == 0
}


/// A byte right after an ASCII byte of valid UTF-8 starts a character.
pub proof fn lemma_cut_after_ascii(b: Seq<u8>, i: int)
    requires
        valid_utf8(b),
        0 < i <= b.len(),
        b[i - 1] < 128,
    ensures
        is_cut(b, i),
{
    if i < b.len() {
        lemma_cut_boundary(b, i - 1);
        valid_utf8_split(b, i - 1);
        let s = b.subrange(i - 1, b.len() as int);
        assert(s[0] == b[i - 1]);
        assert(valid_first_scalar(s));
        assert(length_of_first_scalar(s) == 1);
        let rest = pop_first_scalar(s);
        assert(rest =~= b.subrange(i, b.len() as int));
        assert(rest.len() > 0);
        assert(valid_utf8(rest));
        assert(valid_first_scalar(rest));
        assert(rest[0] == b[i]);
    }
}

/// Cutting right before or right after an ASCII byte keeps valid UTF-8 valid.
pub open spec fn ascii_cut(b: Seq<u8>, i: int) -> bool {
    i == 0 || i == b.len() || (0 <= i < b.len() && b[i] < 128) || (0 < i <= b.len() && b[i - 1] < 128)
}

pub proof fn lemma_ascii_cut(b: Seq<u8>, i: int)
    requires
        valid_utf8(b),
        ascii_cut(b, i),
    ensures
        is_cut(b, i),
{
    if 0 < i < b.len() && b[i] >= 128 {
        lemma_cut_after_ascii(b, i);
    }
}

pub proof fn lemma_valid_slice(b: Seq<u8>, i: int, j: int)
    requires
        valid_utf8(b),
        0 <= i <= j <= b.len(),
        ascii_cut(b, i),
        ascii_cut(b, j),
    ensures
        valid_utf8(b.subrange(i, j)),
{
    lemma_ascii_cut(b, i);
    lemma_ascii_cut(b, j);
    lemma_valid_subrange(b, i, j);
}

/// Sub-string by byte offsets at ASCII-adjacent positions.
pub fn sub_str(s: &str, start: usize, end: usize) -> (r: &str)
    requires
        start <= end <= s.spec_bytes().len(),
        ascii_cut(s.spec_bytes(), start as int),
        ascii_cut(s.spec_bytes(), end as int),
    ensures
        r.spec_bytes() == s.spec_bytes().subrange(start as int, end as int),
        r@ == decode_utf8(s.spec_bytes().subrange(start as int, end as int)),
{
    proof {
        lemma_encode_valid(s@);
        lemma_ascii_cut(s.spec_bytes(), end as int);
        lemma_cut_boundary(s.spec_bytes(), end as int);
    }
    let (a, _) = s.split_at(end);
    proof {
        let ab = a.spec_bytes();
        lemma_encode_valid(a@);
        assert(ab =~= s.spec_bytes().subrange(0, end as int));
        lemma_ascii_cut(s.spec_bytes(), start as int);
        assert(is_cut(ab, start as int)) by {
            if 0 < start < end {
                assert(ab[start as int] == s.spec_bytes()[start as int]);
            }
        }
        lemma_cut_boundary(ab, start as int);
    }
    let (_, r) = a.split_at(start);
    proof {
        assert(r.spec_bytes() =~= s.spec_bytes().subrange(start as int, end as int));
        lemma_encode_valid(r@);
    }
    r
}

pub fn trim_str(s: &str) -> (r: &str)
    ensures
        r@ == ws_trim(s@),
{
    str_trim_end(str_trim_start(s))
}

pub fn trim_start_str(s: &str) -> (r: &str)
    ensures
        r@ == ws_trim_start(s@),
{
    str_trim_start(s)
}

pub fn trim_end_str(s: &str) -> (r: &str)
    ensures
        r@ == ws_trim_end(s@),
{
    str_trim_end(s)
}

/// An optional index as an integer.
pub open spec fn opt_int(o: Option<usize>) -> Option<int> {
    match o {
        Some(k) => Some(k as int),
        None => None,
    }
}

// ---------------------------------------------------------------------------------------------
// Byte searches.
// ---------------------------------------------------------------------------------------------

/// `b[i..]` starts with `p`.
pub open spec fn matches_at(b: Seq<u8>, i: int, p: Seq<u8>) -> bool {
    0 <= i && i + p.len() <= b.len() && b.subrange(i, i + p.len()) == p
}

/// First position `>= from` where `p` occurs.
pub open spec fn find_from(b: Seq<u8>, p: Seq<u8>, from: int) -> Option<int>
    decreases b.len() + 1 - from,
{
    if p.len() == 0 || from < 0 || from + p.len() > b.len() {
        None
    } else if matches_at(b, from, p) {
        Some(from)
    } else {
        find_from(b, p, from + 1)
    }
}

/// Last position `i` with `i + p.len() <= end` where `p` occurs (`b[..end].rfind(p)`).
pub open spec fn rfind_before(b: Seq<u8>, p: Seq<u8>, end: int) -> Option<int>
    decreases end,
{
    if p.len() == 0 || end < p.len() || end > b.len() {
        None
    } else if matches_at(b, end - p.len(), p) {
        Some(end - p.len())
    } else {
        rfind_before(b, p, end - 1)
    }
}

/// Number of non-overlapping occurrences of `p` scanning from `from` (`match_indices(p).count()`).
pub open spec fn count_from(b: Seq<u8>, p: Seq<u8>, from: int) -> nat
    decreases b.len() - from,
{
    if p.len() == 0 || from < 0 || from + p.len() > b.len() {
        0
    } else if matches_at(b, from, p) {
        1 + count_from(b, p, from + p.len())
    } else {
        count_from(b, p, from + 1)
    }
}

pub open spec fn count_pat(b: Seq<u8>, p: Seq<u8>) -> nat {
    count_from(b, p, 0)
}

pub fn matches_at_exec(b: &[u8], i: usize, p: &[u8]) -> (r: bool)
    ensures
        r == matches_at(b@, i as int, p@),
{
    if i > b.len() || p.len() > b.len() - i {
        return false;
    }
    let mut k: usize = 0;
    while k < p.len()
        invariant
            i + p@.len() <= b@.len(),
            b@.len() == b.len(),
            k <= p@.len(),
            forall|t: int| 0 <= t < k ==> b@[i + t] == p@[t],
        decreases p@.len() - k,
    {
        if b[i + k] != p[k] {
            assert(b@.subrange(i as int, i + p@.len())[k as int] != p@[k as int]);
            return false;
        }
        k += 1;
    }
    assert(b@.subrange(i as int, i + p@.len()) =~= p@);
    true
}

pub fn find_pat_from(b: &[u8], p: &[u8], from: usize) -> (r: Option<usize>)
    requires
        p@.len() > 0,
    ensures
        opt_int(r) == find_from(b@, p@, from as int),
        r matches Some(k) ==> from <= k && k + p@.len() <= b@.len() && matches_at(b@, k as int, p@),
{
    let mut i = from;
    while i <= b.len() && p.len() <= b.len() - i
        invariant
            from <= i,
            p@.len() > 0,
            find_from(b@, p@, from as int) == find_from(b@, p@, i as int),
        decreases b@.len() + 1 - i,
    {
        if matches_at_exec(b, i, p) {
            return Some(i);
        }
        i += 1;
    }
    None
}

pub fn rfind_pat(b: &[u8], p: &[u8], end: usize) -> (r: Option<usize>)
    requires
        end <= b@.len(),
        p@.len() > 0,
    ensures
        opt_int(r) == rfind_before(b@, p@, end as int),
        r matches Some(k) ==> k + p@.len() <= end && matches_at(b@, k as int, p@),
{
    let mut e = end;
    while e >= p.len()
        invariant
            e <= end <= b@.len(),
            p@.len() > 0,
            rfind_before(b@, p@, end as int) == rfind_before(b@, p@, e as int),
        decreases e,
    {
        if matches_at_exec(b, e - p.len(), p) {
            return Some(e - p.len());
        }
        e -= 1;
    }
    None
}

pub fn contains_pat(b: &[u8], p: &[u8]) -> (r: bool)
    requires
        p@.len() > 0,
    ensures
        r == find_from(b@, p@, 0) is Some,
{
    find_pat_from(b, p, 0).is_some()
}

pub fn count_pat_exec(b: &[u8], p: &[u8]) -> (r: usize)
    ensures
        r == count_pat(b@, p@),
{
    if p.len() == 0 {
        return 0;
    }
    let mut i: usize = 0;
    let mut n: usize = 0;
    while i <= b.len() && p.len() <= b.len() - i
        invariant
            p@.len() > 0,
            n + count_from(b@, p@, i as int) == count_pat(b@, p@),
            n <= i,
        decreases b@.len() + 1 - i,
    {
        if matches_at_exec(b, i, p) {
            n += 1;
            i += p.len();
        } else {
            i += 1;
        }
    }
    n
}

/// First index `>= from` holding the byte `c`.
pub open spec fn find_byte(b: Seq<u8>, c: u8, from: int) -> Option<int>
    decreases b.len() - from,
{
    if from < 0 || from >= b.len() {
        None
    } else if b[from] == c {
        Some(from)
    } else {
        find_byte(b, c, from + 1)
    }
}

pub proof fn lemma_find_byte(b: Seq<u8>, c: u8, from: int)
    requires
        0 <= from,
    ensures
        find_byte(b, c, from) matches Some(k) ==> from <= k < b.len() && b[k] == c && forall|t: int|
            from <= t < k ==> b[t] != c,
        find_byte(b, c, from) is None ==> forall|t: int| from <= t < b.len() ==> b[t] != c,
    decreases b.len() - from,
{
    if from < b.len() && b[from] != c {
        lemma_find_byte(b, c, from + 1);
    }
}

/// The first `c` at or after `from` is at `i` when `b[i] == c` and none comes before it.
pub proof fn lemma_find_byte_at(b: Seq<u8>, c: u8, from: int, i: int)
    requires
        0 <= from <= i < b.len(),
        b[i] == c,
        forall|t: int| from <= t < i ==> b[t] != c,
    ensures
        find_byte(b, c, from) == Some(i),
    decreases i - from,
{
    if from < i {
        lemma_find_byte_at(b, c, from + 1, i);
    }
}

/// No `c` at or after `from`.
pub proof fn lemma_find_byte_none(b: Seq<u8>, c: u8, from: int)
    requires
        0 <= from,
        forall|t: int| from <= t < b.len() ==> b[t] != c,
    ensures
        find_byte(b, c, from) is None,
    decreases b.len() - from,
{
    if from < b.len() {
        lemma_find_byte_none(b, c, from + 1);
    }
}

pub fn find_byte_exec(b: &[u8], c: u8, from: usize) -> (r: Option<usize>)
    ensures
        opt_int(r) == find_byte(b@, c, from as int),
        r matches Some(k) ==> from <= k < b@.len() && b@[k as int] == c,
        r is None ==> forall|t: int| from <= t < b@.len() ==> b@[t] != c,
{
    proof {
        lemma_find_byte(b@, c, from as int);
    }
    let mut i = from;
    while i < b.len()
        invariant
            from <= i,
            find_byte(b@, c, from as int) == find_byte(b@, c, i as int),
        decreases b@.len() - i,
    {
        if b[i] == c {
            return Some(i);
        }
        i += 1;
    }
    None
}

pub fn contains_byte(b: &[u8], c: u8) -> (r: bool)
    ensures
        r == b@.contains(c),
{
    let mut i: usize = 0;
    while i < b.len()
        invariant
            i <= b@.len(),
            forall|t: int| 0 <= t < i ==> b@[t] != c,
        decreases b@.len() - i,
    {
        if b[i] == c {
            assert(b@[i as int] == c);
            return true;
        }
        i += 1;
    }
    false
}

pub fn starts_with(b: &[u8], p: &[u8]) -> (r: bool)
    ensures
        r == matches_at(b@, 0, p@),
{
    matches_at_exec(b, 0, p)
}

pub fn ends_with(b: &[u8], p: &[u8]) -> (r: bool)
    ensures
        r == (p@.len() <= b@.len() && matches_at(b@, b@.len() - p@.len(), p@)),
{
    if p.len() > b.len() {
        false
    } else {
        matches_at_exec(b, b.len() - p.len(), p)
    }
}

// ---------------------------------------------------------------------------------------------
// ASCII classes.
// ---------------------------------------------------------------------------------------------

pub open spec fn ascii_digit(b: u8) -> bool {
    48 <= b <= 57
}

pub open spec fn ascii_alpha(b: u8) -> bool {
    (65 <= b <= 90) || (97 <= b <= 122)
}

pub open spec fn ascii_alnum(b: u8) -> bool {
    ascii_digit(b) || ascii_alpha(b)
}

pub open spec fn ascii_ws(b: u8) -> bool {
    b == 32 || b == 9 || b == 10 || b == 12 || b == 13
}

pub fn is_ascii_digit(b: u8) -> (r: bool)
    ensures
        r == ascii_digit(b),
{
    48 <= b && b <= 57
}

pub fn is_ascii_alpha(b: u8) -> (r: bool)
    ensures
        r == ascii_alpha(b),
{
    (65 <= b && b <= 90) || (97 <= b && b <= 122)
}

pub fn is_ascii_alnum(b: u8) -> (r: bool)
    ensures
        r == ascii_alnum(b),
{
    is_ascii_digit(b) || is_ascii_alpha(b)
}

/// `u8::is_ascii_whitespace`: space, tab, line feed, form feed, carriage return.
pub fn is_ascii_ws(b: u8) -> (r: bool)
    ensures
        r == ascii_ws(b),
{
    b == 32 || b == 9 || b == 10 || b == 12 || b == 13
}

pub open spec fn lower_byte(b: u8) -> u8 {
    if 65 <= b <= 90 {
        (b + 32) as u8
    } else {
        b
    }
}

pub open spec fn ascii_lower(b: Seq<u8>) -> Seq<u8> {
    b.map_values(|x: u8| lower_byte(x))
}

/// `to_ascii_lowercase` on bytes.
pub fn to_ascii_lower(b: &[u8]) -> (r: Vec<u8>)
    ensures
        r@ == ascii_lower(b@),
{
    let mut v: Vec<u8> = Vec::with_capacity(b.len());
    let mut i: usize = 0;
    while i < b.len()
        invariant
            i <= b@.len(),
            v@ == ascii_lower(b@.subrange(0, i as int)),
        decreases b@.len() - i,
    {
        let x = b[i];
        let y = if 65 <= x && x <= 90 { x + 32 } else { x };
        v.push(y);
        i += 1;
        assert(ascii_lower(b@.subrange(0, i as int)) =~= ascii_lower(b@.subrange(0, i - 1)).push(y));
    }
    assert(b@.subrange(0, b@.len() as int) =~= b@);
    v
}

pub fn bytes_eq(a: &[u8], b: &[u8]) -> (r: bool)
    ensures
        r == (a@ == b@),
{
    if a.len() != b.len() {
        return false;
    }
    let r = matches_at_exec(a, 0, b);
    proof {
        if r {
            assert(a@.subrange(0, a@.len() as int) =~= a@);
        } else {
            assert(a@.subrange(0, a@.len() as int) =~= a@);
        }
    }
    r
}

/// Leading spaces removed, at most three (`strip_up_to_three_leading_spaces`).
pub open spec fn strip3_len(b: Seq<u8>) -> int {
    if b.len() > 0 && b[0] == 32 {
        if b.len() > 1 && b[1] == 32 {
            if b.len() > 2 && b[2] == 32 {
                3
            } else {
                2
            }
        } else {
            1
        }
    } else {
        0
    }
}

pub open spec fn strip3(b: Seq<u8>) -> Seq<u8> {
    b.subrange(strip3_len(b), b.len() as int)
}

pub fn strip_up_to_three_leading_spaces(b: &[u8]) -> (r: &[u8])
    ensures
        r@ == strip3(b@),
{
    let mut k: usize = 0;
    while k < 3 && k < b.len() && b[k] == 32
        invariant
            k <= 3,
            k <= b@.len(),
            forall|t: int| 0 <= t < k ==> b@[t] == 32,
        decreases 3 - k,
    {
        k += 1;
    }
    assert(k == strip3_len(b@));
    slice(b, k, b.len())
}

/// Length of the run of byte `c` starting at `from`.
pub open spec fn run_len(b: Seq<u8>, c: u8, from: int) -> int
    decreases b.len() - from,
{
    if from < 0 || from >= b.len() || b[from] != c {
        0
    } else {
        1 + run_len(b, c, from + 1)
    }
}

pub proof fn lemma_run_len(b: Seq<u8>, c: u8, from: int)
    requires
        0 <= from <= b.len(),
    ensures
        0 <= run_len(b, c, from) <= b.len() - from,
        forall|t: int| from <= t < from + run_len(b, c, from) ==> b[t] == c,
        from + run_len(b, c, from) < b.len() ==> b[from + run_len(b, c, from)] != c,
    decreases b.len() - from,
{
    if from < b.len() && b[from] == c {
        lemma_run_len(b, c, from + 1);
    }
}

pub fn run_len_exec(b: &[u8], c: u8, from: usize) -> (r: usize)
    requires
        from <= b@.len(),
    ensures
        r == run_len(b@, c, from as int),
        from + r <= b@.len(),
{
    proof {
        lemma_run_len(b@, c, from as int);
    }
    let mut i = from;
    while i < b.len() && b[i] == c
        invariant
            from <= i <= b@.len(),
            run_len(b@, c, from as int) == (i - from) + run_len(b@, c, i as int),
        decreases b@.len() - i,
    {
        i += 1;
    }
    i - from
}


pub fn strip3_len_exec(b: &[u8]) -> (k: usize)
    ensures
        k == strip3_len(b@),
        k <= b@.len(),
        forall|t: int| 0 <= t < k ==> b@[t] == 32,
{
    let mut k: usize = 0;
    while k < 3 && k < b.len() && b[k] == 32
        invariant
            k <= 3,
            k <= b@.len(),
            forall|t: int| 0 <= t < k ==> b@[t] == 32,
        decreases 3 - k,
    {
        k += 1;
    }
    k
}

// ---------------------------------------------------------------------------------------------
// Character-level prefixes.
// ---------------------------------------------------------------------------------------------

/// The characters before the first whitespace character.
pub open spec fn take_until_ws(cs: Seq<char>) -> Seq<char>
    decreases cs.len(),
{
    if cs.len() == 0 || unicode_whitespace(cs[0]) {
        seq![]
    } else {
        seq![cs[0]] + take_until_ws(cs.drop_first())
    }
}

proof fn lemma_take_until_ws(cs: Seq<char>, m: int)
    requires
        0 <= m <= cs.len(),
        forall|t: int| 0 <= t < m ==> !unicode_whitespace(#[trigger] cs[t]),
        m == cs.len() || unicode_whitespace(cs[m]),
    ensures
        take_until_ws(cs) == cs.take(m),
    decreases m,
{
    if m == 0 {
        assert(cs.take(0) =~= seq![]);
    } else {
        let d = cs.drop_first();
        assert forall|t: int| 0 <= t < m - 1 implies !unicode_whitespace(#[trigger] d[t]) by {
            assert(d[t] == cs[t + 1]);
        }
        if m < cs.len() {
            assert(d[m - 1] == cs[m]);
        }
        lemma_take_until_ws(d, m - 1);
        assert(seq![cs[0]] + d.take(m - 1) =~= cs.take(m));
    }
}

/// Number of UTF-8 bytes of a character (`char::len_utf8`).
pub fn char_len_utf8(c: char) -> (n: usize)
    ensures
        n == encode_scalar(c as u32).len(),
        1 <= n <= 4,
{
    proof {
        char_is_scalar(c);
    }
    let u = c as u32;
    if u < 0x80 {
        1
    } else if u < 0x800 {
        2
    } else if u < 0x10000 {
        3
    } else {
        4
    }
}

pub proof fn lemma_encode_one(c: char)
    ensures
        encode_utf8(seq![c]) == encode_scalar(c as u32),
{
    assert(seq![c].drop_first() =~= Seq::<char>::empty());
    assert(encode_utf8(Seq::<char>::empty()) =~= Seq::<u8>::empty());
}

/// The byte length of a character prefix is a character boundary.
pub proof fn lemma_prefix_cut(cs: Seq<char>, m: int)
    requires
        0 <= m <= cs.len(),
    ensures
        is_cut(encode_utf8(cs), encode_utf8(cs.take(m)).len() as int),
        encode_utf8(cs).subrange(0, encode_utf8(cs.take(m)).len() as int) == encode_utf8(cs.take(m)),
        encode_utf8(cs.take(m)).len() <= encode_utf8(cs).len(),
{
    let a = cs.take(m);
    let b = cs.skip(m);
    assert(a + b =~= cs);
    lemma_encode_concat(a, b);
    let ea = encode_utf8(a);
    let eb = encode_utf8(b);
    assert((ea + eb).subrange(0, ea.len() as int) =~= ea);
    if b.len() > 0 {
        encode_utf8_first_scalar(b);
        assert((ea + eb)[ea.len() as int] == eb[0]);
    }
}

/// The characters before the first whitespace character, as a sub-slice.
pub fn first_token(s: &str) -> (r: &str)
    ensures
        r@ == take_until_ws(s@),
{
    let total = s.as_bytes().len();
    let mut nb: usize = 0;
    let ghost mut m: int = 0;
    let mut stopped = false;
    proof {
        lemma_encode_valid(s@);
        assert(s@.take(0) =~= Seq::<char>::empty());
    }
    for c in it: s.chars()
        invariant
            it.seq() == s@,
            0 <= m <= it.index(),
            m <= s@.len(),
            !stopped ==> m == it.index(),
            stopped ==> m < s@.len() && unicode_whitespace(s@[m]),
            forall|t: int| 0 <= t < m ==> !unicode_whitespace(#[trigger] s@[t]),
            nb == encode_utf8(s@.take(m)).len(),
            encode_utf8(s@.take(m)).len() <= encode_utf8(s@).len(),
            encode_utf8(s@).len() == total,
    {
        if !stopped {
            if char_is_whitespace(c) {
                stopped = true;
            } else {
                let n = char_len_utf8(c);
                proof {
                    assert(s@.take(m + 1) =~= s@.take(m) + seq![c]);
                    lemma_encode_concat(s@.take(m), seq![c]);
                    lemma_encode_one(c);
                    lemma_prefix_cut(s@, m + 1);
                }
                nb = nb + n;
                proof {
                    m = m + 1;
                }
            }
        }
    }
    proof {
        lemma_take_until_ws(s@, m);
        lemma_prefix_cut(s@, m);
        lemma_cut_boundary(encode_utf8(s@), nb as int);
    }
    let (r, _) = s.split_at(nb);
    proof {
        lemma_encode_valid(r@);
        lemma_encode_valid(s@.take(m));
    }
    r
}

} // verus!
