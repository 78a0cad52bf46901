//! Line classification for block splitting: what a single line may start, end or continue.
use vstd::prelude::*;
use vstd::utf8::*;
use crate::pending::terminator::count_byte;
use crate::text::{
    ascii_digit, bytes_blank, bytes_trim, bytes_trim_end, bytes_trim_start, contains_pat,
    find_from, is_ascii_digit, is_blank, matches_at, run_len, run_len_exec, slice, starts_with,
    strip3, strip_up_to_three_leading_spaces, trim, trim_end, trim_start,
};

verus! {

// Bytes used below: '\t' 9, '\n' 10, '\r' 13, ' ' 32, '#' 35, '$' 36, ')' 41, '*' 42, '+' 43,
// '-' 45, '.' 46, ':' 58, '=' 61, '>' 62, '[' 91, '\\' 92, ']' 93, '^' 94, '_' 95, '`' 96,
// '|' 124, '~' 126.

pub open spec fn sp_tab(b: u8) -> bool {
    b == 32 || b == 9
}

/// A line holding only whitespace.
pub fn is_empty_line(line: &[u8]) -> (r: bool)
    requires
        valid_utf8(line@),
    ensures
        r == bytes_blank(line@),
{
    is_blank(line)
}

/// ATX heading start: after leading whitespace, `#` followed by a space, a tab or another `#`.
pub open spec fn spec_heading(line: Seq<u8>) -> bool {
    let t = bytes_trim_start(line);
    t.len() >= 2 && t[0] == 35 && (t[1] == 32 || t[1] == 9 || t[1] == 35)
}

pub fn is_heading(line: &[u8]) -> (r: bool)
    requires
        valid_utf8(line@),
    ensures
        r == spec_heading(line@),
{
    let t = trim_start(line);
    t.len() >= 2 && t[0] == 35 && (t[1] == 32 || t[1] == 9 || t[1] == 35)
}

/// Trailing spaces and tabs dropped.
pub open spec fn trim_sp_tab_end(b: Seq<u8>) -> Seq<u8>
    decreases b.len(),
{
    if b.len() > 0 && sp_tab(b[b.len() - 1]) {
        trim_sp_tab_end(b.subrange(0, b.len() - 1))
    } else {
        b
    }
}

pub fn trim_sp_tab_end_exec(b: &[u8]) -> (r: &[u8])
    ensures
        r@ == trim_sp_tab_end(b@),
{
    let mut e = b.len();
    assert(b@.subrange(0, e as int) =~= b@);
    while e > 0 && (b[e - 1] == 32 || b[e - 1] == 9)
        invariant
            e <= b@.len(),
            trim_sp_tab_end(b@) == trim_sp_tab_end(b@.subrange(0, e as int)),
        decreases e,
    {
        assert(b@.subrange(0, e as int).subrange(0, e - 1) =~= b@.subrange(0, e - 1));
        e -= 1;
    }
    assert(b@.subrange(0, e as int) =~= trim_sp_tab_end(b@.subrange(0, e as int)));
    slice(b, 0, e)
}

/// A line made of one repeated marker from `markers`, with spaces and tabs between, after up to
/// three leading spaces, with at least `min` markers: the marker.
pub open spec fn marker_line(line: Seq<u8>, m1: u8, m2: u8, m3: u8, min: int) -> Option<u8> {
    let s = trim_sp_tab_end(strip3(line));
    if s.len() > 0 && (s[0] == m1 || s[0] == m2 || s[0] == m3) && (forall|k: int|
        0 <= k < s.len() ==> s[k] == s[0] || sp_tab(s[k])) && count_byte(s, 0, s.len() as int, s[0])
        >= min {
        Some(s[0])
    } else {
        None
    }
}

fn marker_line_exec(line: &[u8], m1: u8, m2: u8, m3: u8, min: usize) -> (r: Option<u8>)
    ensures
        r == marker_line(line@, m1, m2, m3, min as int),
{
    let s = trim_sp_tab_end_exec(strip_up_to_three_leading_spaces(line));
    if s.len() == 0 {
        return None;
    }
    let first = s[0];
    if !(first == m1 || first == m2 || first == m3) {
        return None;
    }
    let mut count: usize = 0;
    let mut k: usize = 0;
    while k < s.len()
        invariant
            k <= s@.len(),
            count <= k,
            count == count_byte(s@, 0, k as int, first),
            first == s@[0],
            s@ == trim_sp_tab_end(strip3(line@)),
            first == m1 || first == m2 || first == m3,
            forall|q: int| 0 <= q < k ==> s@[q] == first || sp_tab(s@[q]),
        decreases s@.len() - k,
    {
        if s[k] == first {
            count += 1;
        } else if !(s[k] == 32 || s[k] == 9) {
            assert(!(s@[k as int] == s@[0] || sp_tab(s@[k as int])));
            return None;
        }
        k += 1;
    }
    if count >= min {
        Some(first)
    } else {
        None
    }
}

/// Thematic break: three or more of `-`, `*` or `_`.
pub open spec fn spec_thematic_break(line: Seq<u8>) -> Option<u8> {
    marker_line(line, 45, 42, 95, 3)
}

proof fn lemma_count_byte_all(s: Seq<u8>, c: u8, hi: int)
    requires
        0 <= hi <= s.len(),
        forall|t: int| 0 <= t < hi ==> s[t] == c,
    ensures
        crate::pending::terminator::count_byte(s, 0, hi, c) == hi,
    decreases hi,
{
    if hi > 0 {
        lemma_count_byte_all(s, c, hi - 1);
    }
}

/// A line of up to three spaces and then three or more of the same `-`, `*` or `_` is a
/// thematic break with that marker; and a thematic break is always marked by `-`, `*` or `_`.
pub proof fn law_thematic_break_line(k: int, c: u8, n: int, line: Seq<u8>)
    ensures
        (0 <= k <= 3 && (c == 45u8 || c == 42u8 || c == 95u8) && n >= 3 && line == Seq::new(
            k as nat,
            |i: int| 32u8,
        ) + Seq::new(n as nat, |i: int| c)) ==> spec_thematic_break(line) == Some(c),
        spec_thematic_break(line) matches Some(m) ==> m == 45u8 || m == 42u8 || m == 95u8,
{
    if 0 <= k <= 3 && (c == 45u8 || c == 42u8 || c == 95u8) && n >= 3 && line == Seq::new(
        k as nat,
        |i: int| 32u8,
    ) + Seq::new(n as nat, |i: int| c) {
        assert(line[k] == c);
        if k > 0 {
            assert(line[0] == 32u8);
        }
        if k > 1 {
            assert(line[1] == 32u8);
        }
        if k > 2 {
            assert(line[2] == 32u8);
        }
        assert(crate::text::strip3_len(line) == k);
        let s = crate::text::strip3(line);
        assert(s =~= Seq::new(n as nat, |i: int| c));
        assert(trim_sp_tab_end(s) == s);
        lemma_count_byte_all(s, c, n);
    }
}

pub fn thematic_break_char(line: &[u8]) -> (r: Option<u8>)
    ensures
        r == spec_thematic_break(line@),
{
    marker_line_exec(line, 45, 42, 95, 3)
}

pub fn is_thematic_break(line: &[u8]) -> (r: bool)
    ensures
        r == spec_thematic_break(line@) is Some,
{
    thematic_break_char(line).is_some()
}

/// Setext underline: two or more of `=` or `-`.
pub open spec fn spec_setext_underline(line: Seq<u8>) -> Option<u8> {
    marker_line(line, 61, 45, 61, 2)
}

pub fn setext_underline_char(line: &[u8]) -> (r: Option<u8>)
    ensures
        r == spec_setext_underline(line@),
{
    marker_line_exec(line, 61, 45, 61, 2)
}

/// Fence start: after up to three spaces, three or more backticks or tildes.
pub open spec fn spec_fence_start(line: Seq<u8>) -> Option<(u8, int)> {
    let s = strip3(line);
    if s.len() < 3 || !(s[0] == 96 || s[0] == 126) || run_len(s, s[0], 0) < 3 {
        None
    } else {
        Some((s[0], run_len(s, s[0], 0)))
    }
}

/// A line of up to three spaces, then a run of `n >= 3` backticks or tildes (the run ends where
/// the character changes), opens a fence with that character and that run length; and an
/// opening fence is always a run of at least three backticks or tildes.
pub proof fn law_fence_opening_line(k: int, c: u8, n: int, rest: Seq<u8>, line: Seq<u8>)
    ensures
        (0 <= k <= 3 && (c == 96u8 || c == 126u8) && n >= 3 && (rest.len() == 0 || rest[0] != c) && line
            == Seq::new(k as nat, |i: int| 32u8) + Seq::new(n as nat, |i: int| c) + rest)
            ==> spec_fence_start(line) == Some((c, n)),
        spec_fence_start(line) matches Some((f, m)) ==> (f == 96u8 || f == 126u8) && m >= 3,
{
    if 0 <= k <= 3 && (c == 96u8 || c == 126u8) && n >= 3 && (rest.len() == 0 || rest[0] != c) && line
        == Seq::new(k as nat, |i: int| 32u8) + Seq::new(n as nat, |i: int| c) + rest {
        assert(line[k] == c);
        if k > 0 {
            assert(line[0] == 32u8);
        }
        if k > 1 {
            assert(line[1] == 32u8);
        }
        if k > 2 {
            assert(line[2] == 32u8);
        }
        assert(crate::text::strip3_len(line) == k);
        let s = strip3(line);
        assert(s =~= Seq::new(n as nat, |i: int| c) + rest);
        assert(s[0] == c);
        crate::text::lemma_run_len(s, c, 0);
        assert forall|t: int| 0 <= t < n implies s[t] == c by {}
        lemma_run_len_exact(s, c, 0, n);
    }
}

proof fn lemma_run_len_exact(s: Seq<u8>, c: u8, from: int, end: int)
    requires
        0 <= from <= end <= s.len(),
        forall|t: int| from <= t < end ==> s[t] == c,
        end == s.len() || s[end] != c,
    ensures
        run_len(s, c, from) == end - from,
    decreases end - from,
{
    if from < end {
        lemma_run_len_exact(s, c, from + 1, end);
    }
}

pub fn fence_start(line: &[u8]) -> (r: Option<(u8, usize)>)
    ensures
        match r {
            Some((c, n)) => spec_fence_start(line@) == Some((c, n as int)),
            None => spec_fence_start(line@) is None,
        },
{
    let s = strip_up_to_three_leading_spaces(line);
    if s.len() < 3 || !(s[0] == 96 || s[0] == 126) {
        return None;
    }
    let n = run_len_exec(s, s[0], 0);
    if n < 3 {
        return None;
    }
    Some((s[0], n))
}

/// Fence end: after up to three spaces and with trailing whitespace dropped, only fence
/// characters, at least as many as opened the fence.
pub open spec fn spec_fence_end(line: Seq<u8>, fc: u8, fl: int) -> bool {
    let t = bytes_trim_end(strip3(line));
    (forall|k: int| 0 <= k < t.len() ==> t[k] == fc) && t.len() >= fl
}

pub fn fence_end(line: &[u8], fc: u8, fl: usize) -> (r: bool)
    requires
        valid_utf8(line@),
    ensures
        r == spec_fence_end(line@, fc, fl as int),
{
    let s = strip_up_to_three_leading_spaces(line);
    proof {
        crate::text::lemma_valid_slice(line@, crate::text::strip3_len(line@), line@.len() as int);
    }
    let t = trim_end(s);
    let mut k: usize = 0;
    while k < t.len()
        invariant
            k <= t@.len(),
            t@ == bytes_trim_end(strip3(line@)),
            forall|q: int| 0 <= q < k ==> t@[q] == fc,
        decreases t@.len() - k,
    {
        if t[k] != fc {
            assert(t@[k as int] != fc);
            return false;
        }
        k += 1;
    }
    t.len() >= fl
}

/// Block quote start: `>` after leading whitespace.
pub open spec fn spec_blockquote_start(line: Seq<u8>) -> bool {
    let t = bytes_trim_start(line);
    t.len() > 0 && t[0] == 62
}

pub fn is_blockquote_start(line: &[u8]) -> (r: bool)
    requires
        valid_utf8(line@),
    ensures
        r == spec_blockquote_start(line@),
{
    let t = trim_start(line);
    t.len() > 0 && t[0] == 62
}

/// Length of the run of ASCII digits starting at `from`.
pub open spec fn digits_from(b: Seq<u8>, from: int) -> int
    decreases b.len() - from,
{
    if from < 0 || from >= b.len() || !ascii_digit(b[from]) {
        0
    } else {
        1 + digits_from(b, from + 1)
    }
}

/// List item start: `-`, `+` or `*` then a space or tab; or digits, `.` or `)`, then a space or
/// tab (after leading whitespace).
pub open spec fn spec_list_item_start(line: Seq<u8>) -> bool {
    let s = bytes_trim_start(line);
    if s.len() < 2 {
        false
    } else if s[0] == 45 || s[0] == 43 || s[0] == 42 {
        sp_tab(s[1])
    } else if ascii_digit(s[0]) {
        let i = digits_from(s, 0);
        i + 1 < s.len() && (s[i] == 46 || s[i] == 41) && sp_tab(s[i + 1])
    } else {
        false
    }
}

/// Line starts, read after leading whitespace (`rest` is what follows the marker):
/// - `#` then a space, a tab or another `#` starts an ATX heading, and any other start does not;
/// - `>` starts a block quote, and any other start does not;
/// - `-`, `+` or `*` then a space or tab starts a list item;
/// - digits then `.` or `)` then a space or tab start an ordered list item.
pub proof fn law_line_starts(line: Seq<u8>, marker: Seq<u8>, sep: u8, rest: Seq<u8>)
    ensures
        spec_heading(line) <==> (bytes_trim_start(line).len() >= 2 && bytes_trim_start(line)[0] == 35u8
            && (bytes_trim_start(line)[1] == 32u8 || bytes_trim_start(line)[1] == 9u8
            || bytes_trim_start(line)[1] == 35u8)),
        spec_blockquote_start(line) <==> (bytes_trim_start(line).len() > 0 && bytes_trim_start(line)[0]
            == 62u8),
        (bytes_trim_start(line) == marker + seq![sep] + rest && (sep == 32u8 || sep == 9u8) && (marker
            == seq![45u8] || marker == seq![43u8] || marker == seq![42u8])) ==> spec_list_item_start(line),
        (bytes_trim_start(line) == marker + seq![sep] + rest && (sep == 32u8 || sep == 9u8) && marker.len()
            >= 2 && (marker.last() == 46u8 || marker.last() == 41u8) && (forall|i: int|
            0 <= i < marker.len() - 1 ==> ascii_digit(#[trigger] marker[i]))) ==> spec_list_item_start(line),
{
    let s = bytes_trim_start(line);
    if s == marker + seq![sep] + rest && (sep == 32u8 || sep == 9u8) {
        if marker == seq![45u8] || marker == seq![43u8] || marker == seq![42u8] {
            assert(s[0] == marker[0]);
            assert(s[1] == sep);
        } else if marker.len() >= 2 && (marker.last() == 46u8 || marker.last() == 41u8) && (forall|i: int|
            0 <= i < marker.len() - 1 ==> ascii_digit(#[trigger] marker[i])) {
            let d = marker.len() - 1;
            assert(s[0] == marker[0]);
            assert forall|t: int| 0 <= t < d implies ascii_digit(#[trigger] s[t]) by {
                assert(s[t] == marker[t]);
            }
            assert(s[d] == marker.last());
            assert(!ascii_digit(s[d]));
            lemma_digits_exact(s, 0, d);
            assert(s[d + 1] == sep);
        }
    }
}

proof fn lemma_digits_exact(s: Seq<u8>, from: int, end: int)
    requires
        0 <= from <= end < s.len(),
        forall|t: int| from <= t < end ==> ascii_digit(#[trigger] s[t]),
        !ascii_digit(s[end]),
    ensures
        digits_from(s, from) == end - from,
    decreases end - from,
{
    if from < end {
        lemma_digits_exact(s, from + 1, end);
    }
}

pub fn is_list_item_start(line: &[u8]) -> (r: bool)
    requires
        valid_utf8(line@),
    ensures
        r == spec_list_item_start(line@),
{
    let s = trim_start(line);
    let n = s.len();
    if n < 2 {
        return false;
    }
    let b0 = s[0];
    if b0 == 45 || b0 == 43 || b0 == 42 {
        return s[1] == 32 || s[1] == 9;
    }
    if !is_ascii_digit(b0) {
        return false;
    }
    let mut i: usize = 0;
    while i < n && is_ascii_digit(s[i])
        invariant
            i <= n == s@.len(),
            digits_from(s@, 0) == i + digits_from(s@, i as int),
        decreases n - i,
    {
        i += 1;
    }
    assert(digits_from(s@, i as int) == 0);
    if n - i <= 1 {
        return false;
    }
    (s[i] == 46 || s[i] == 41) && (s[i + 1] == 32 || s[i + 1] == 9)
}

/// List continuation: a list item start, a leading tab, or two leading spaces.
pub open spec fn spec_list_continuation(line: Seq<u8>) -> bool {
    spec_list_item_start(line) || (line.len() > 0 && line[0] == 9) || (line.len() > 1 && line[0]
        == 32 && line[1] == 32)
}

pub fn is_list_continuation(line: &[u8]) -> (r: bool)
    requires
        valid_utf8(line@),
    ensures
        r == spec_list_continuation(line@),
{
    is_list_item_start(line) || (line.len() > 0 && line[0] == 9) || (line.len() > 1 && line[0]
        == 32 && line[1] == 32)
}

/// Footnote definition start: `[^` after leading whitespace, with `]:` somewhere after.
pub open spec fn spec_footnote_definition_start(line: Seq<u8>) -> bool {
    let s = bytes_trim_start(line);
    matches_at(s, 0, seq![91u8, 94u8]) && find_from(s, seq![93u8, 58u8], 0) is Some
}

pub fn is_footnote_definition_start(line: &[u8]) -> (r: bool)
    requires
        valid_utf8(line@),
    ensures
        r == spec_footnote_definition_start(line@),
{
    let s = trim_start(line);
    let open: &[u8] = &[91u8, 94u8];
    let close: &[u8] = &[93u8, 58u8];
    starts_with(s, open) && contains_pat(s, close)
}

/// Footnote continuation: four leading spaces or a leading tab.
pub open spec fn spec_footnote_continuation(line: Seq<u8>) -> bool {
    matches_at(line, 0, seq![32u8, 32u8, 32u8, 32u8]) || (line.len() > 0 && line[0] == 9)
}

pub fn is_footnote_continuation(line: &[u8]) -> (r: bool)
    ensures
        r == spec_footnote_continuation(line@),
{
    let four: &[u8] = &[32u8, 32u8, 32u8, 32u8];
    starts_with(line, four) || (line.len() > 0 && line[0] == 9)
}

/// Count of `$$` pairs scanning from `i`; an escaped `\$$` is skipped.
pub open spec fn dollars_from(t: Seq<u8>, i: int) -> int
    decreases t.len() - i,
{
    if i < 0 || i + 1 >= t.len() {
        0
    } else if t[i] == 36 && t[i + 1] == 36 {
        if i > 0 && t[i - 1] == 92 {
            dollars_from(t, i + 2)
        } else {
            1 + dollars_from(t, i + 2)
        }
    } else {
        dollars_from(t, i + 1)
    }
}

/// Without backslashes, the `$$` delimiters counted are the `$$` occurrences, read left to right
/// without overlap.
pub proof fn lemma_dollars_plain(t: Seq<u8>, i: int)
    requires
        0 <= i,
        forall|k: int| 0 <= k < t.len() ==> t[k] != 92,
    ensures
        dollars_from(t, i) == crate::text::count_from(t, seq![36u8, 36u8], i),
    decreases t.len() - i,
{
    let dd = seq![36u8, 36u8];
    if i + 1 >= t.len() {
    } else if t[i] == 36 && t[i + 1] == 36 {
        assert(t.subrange(i, i + 2) =~= dd);
        if i > 0 {
            assert(t[i - 1] != 92);
        }
        lemma_dollars_plain(t, i + 2);
    } else {
        assert(!crate::text::matches_at(t, i, dd)) by {
            if crate::text::matches_at(t, i, dd) {
                assert(t.subrange(i, i + 2)[0] == t[i]);
                assert(t.subrange(i, i + 2)[1] == t[i + 1]);
            }
        }
        lemma_dollars_plain(t, i + 1);
    }
}

pub fn count_double_dollars(line: &[u8]) -> (r: usize)
    ensures
        r == dollars_from(line@, 0),
{
    let n = line.len();
    let mut count: usize = 0;
    let mut i: usize = 0;
    while n > 0 && i < n - 1
        invariant
            i <= n == line@.len(),
            count <= i,
            dollars_from(line@, 0) == count + dollars_from(line@, i as int),
        decreases n - i,
    {
        if line[i] == 36 && line[i + 1] == 36 {
            if !(i > 0 && line[i - 1] == 92) {
                count += 1;
            }
            i += 2;
        } else {
            i += 1;
        }
    }
    count
}

/// Table delimiter row: after trimming, non-empty, only `|`, `:`, spaces, tabs and `-`, with at
/// least one `-`.
pub open spec fn spec_table_delimiter(line: Seq<u8>) -> bool {
    let s = bytes_trim(line);
    s.len() > 0 && (forall|k: int|
        0 <= k < s.len() ==> (s[k] == 124 || s[k] == 58 || sp_tab(s[k]) || s[k] == 45))
        && s.contains(45u8)
}

/// The characters of a table delimiter row: `|`, `:`, `-`, space and tab.
pub open spec fn delimiter_row_char(b: u8) -> bool {
    b == 124u8 || b == 58u8 || b == 45u8 || b == 32u8 || b == 9u8
}

/// A line is a table delimiter row exactly when, once trimmed, it is not empty, is made only of
/// `|`, `:`, `-`, spaces and tabs, and has a `-`; so `|---|:--:|`, `--- | ---` and `:-` are rows,
/// while a line with any other character, or with no `-`, is not.
pub proof fn law_table_delimiter_rows(line: Seq<u8>)
    ensures
        spec_table_delimiter(line) <==> ({
            let s = bytes_trim(line);
            &&& s.len() > 0
            &&& forall|k: int| 0 <= k < s.len() ==> delimiter_row_char(#[trigger] s[k])
            &&& exists|k: int| 0 <= k < s.len() && s[k] == 45u8
        }),
{
    let s = bytes_trim(line);
    if exists|k: int| 0 <= k < s.len() && s[k] == 45u8 {
        let k = choose|k: int| 0 <= k < s.len() && s[k] == 45u8;
        assert(s.contains(45u8));
    }
    if s.contains(45u8) {
        let k = choose|k: int| 0 <= k < s.len() && s[k] == 45u8;
    }
}

pub fn is_table_delimiter(line: &[u8]) -> (r: bool)
    requires
        valid_utf8(line@),
    ensures
        r == spec_table_delimiter(line@),
{
    let s = trim(line);
    if s.len() == 0 {
        return false;
    }
    let mut has_dash = false;
    let mut k: usize = 0;
    while k < s.len()
        invariant
            k <= s@.len(),
            s@ == bytes_trim(line@),
            forall|q: int|
                0 <= q < k ==> (s@[q] == 124 || s@[q] == 58 || sp_tab(s@[q]) || s@[q] == 45),
            has_dash == exists|q: int| 0 <= q < k && s@[q] == 45,
        decreases s@.len() - k,
    {
        let b = s[k];
        if b == 45 {
            assert(s@[k as int] == 45);
            has_dash = true;
        } else if !(b == 124 || b == 58 || b == 32 || b == 9) {
            assert(!(s@[k as int] == 124 || s@[k as int] == 58 || sp_tab(s@[k as int])
                || s@[k as int] == 45));
            return false;
        }
        k += 1;
    }
    has_dash
}

/// A footnote label `[^id]` whose identifier starts at `j`: no whitespace or line break, between
/// one and 200 bytes, closed by `]`.
pub open spec fn footnote_id_from(t: Seq<u8>, j: int, id_len: int) -> bool
    decreases t.len() - j,
{
    if j < 0 || j >= t.len() {
        false
    } else if t[j] == 93 {
        id_len > 0
    } else if t[j] == 10 || t[j] == 13 || t[j] == 32 || t[j] == 9 {
        false
    } else if id_len + 1 > 200 {
        false
    } else {
        footnote_id_from(t, j + 1, id_len + 1)
    }
}

/// A footnote reference or definition starts at `i`.
pub open spec fn footnote_at(t: Seq<u8>, i: int) -> bool {
    0 <= i && i + 2 < t.len() && t[i] == 91 && t[i + 1] == 94 && footnote_id_from(t, i + 2, 0)
}

/// The text holds a footnote reference `[^id]` or definition `[^id]:`.
pub open spec fn spec_detect_footnotes(t: Seq<u8>) -> bool {
    exists|i: int| footnote_at(t, i)
}

fn footnote_id_exec(t: &[u8], start: usize) -> (r: bool)
    requires
        start <= t@.len(),
    ensures
        r == footnote_id_from(t@, start as int, 0),
{
    let n = t.len();
    let mut j = start;
    let mut id_len: usize = 0;
    while j < n
        invariant
            start <= j <= n == t@.len(),
            id_len <= 200,
            footnote_id_from(t@, start as int, 0) == footnote_id_from(t@, j as int, id_len as int),
        decreases n - j,
    {
        let b = t[j];
        if b == 93 {
            return id_len > 0;
        }
        if b == 10 || b == 13 || b == 32 || b == 9 {
            return false;
        }
        if id_len + 1 > 200 {
            return false;
        }
        id_len += 1;
        j += 1;
    }
    false
}

pub fn detect_footnotes(text: &[u8]) -> (r: bool)
    ensures
        r == spec_detect_footnotes(text@),
{
    let n = text.len();
    let mut i: usize = 0;
    while n > 2 && i < n - 2
        invariant
            i <= n == text@.len(),
            forall|k: int| 0 <= k < i ==> !footnote_at(text@, k),
        decreases n - i,
    {
        if text[i] == 91 && text[i + 1] == 94 && footnote_id_exec(text, i + 2) {
            assert(footnote_at(text@, i as int));
            return true;
        }
        i += 1;
    }
    assert forall|k: int| !footnote_at(text@, k) by {
        if 0 <= k < i {
        }
    }
    false
}


/// An unfinished line that may still become a list item start: after leading whitespace, one of
/// `-`, `+`, `*` alone, or digits optionally followed by `.` or `)`.
pub open spec fn spec_list_item_prefix(line: Seq<u8>) -> bool {
    let s = bytes_trim_start(line);
    (s.len() == 1 && (s[0] == 45 || s[0] == 43 || s[0] == 42)) || (s.len() > 0 && ascii_digit(s[0])
        && (digits_from(s, 0) == s.len() || (digits_from(s, 0) + 1 == s.len() && (s[s.len() - 1]
        == 46 || s[s.len() - 1] == 41))))
}

pub fn is_list_item_prefix(line: &[u8]) -> (r: bool)
    requires
        valid_utf8(line@),
    ensures
        r == spec_list_item_prefix(line@),
{
    let s = trim_start(line);
    let n = s.len();
    if n == 1 && (s[0] == 45 || s[0] == 43 || s[0] == 42) {
        return true;
    }
    if n == 0 || !is_ascii_digit(s[0]) {
        return false;
    }
    let mut i: usize = 0;
    while i < n && is_ascii_digit(s[i])
        invariant
            i <= n == s@.len(),
            digits_from(s@, 0) == i + digits_from(s@, i as int),
        decreases n - i,
    {
        i += 1;
    }
    assert(digits_from(s@, i as int) == 0);
    i == n || (i + 1 == n && (s[n - 1] == 46 || s[n - 1] == 41))
}

} // verus!
