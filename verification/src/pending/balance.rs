//! Closing of unbalanced inline markers at the end of a streaming tail: emphasis, inline code,
//! strikethrough, display math and setext-heading protection.
use vstd::prelude::*;
use vstd::utf8::*;
use crate::pending::terminator::{
    byte_after, byte_before, count_single_asterisks, count_single_underscores,
    count_triple_asterisks, is_horizontal_rule_line, is_inside_code_block, is_list_marker_at,
    is_part_of_triple_backtick, is_within_link_or_image_url, is_within_math_block, is_word_internal,
    line_start, line_start_of, next_byte, prev_byte, spec_count_single_asterisks,
    spec_count_single_underscores, spec_count_triple_asterisks, spec_hr_line, spec_inside_code,
    spec_list_marker_at, spec_part_of_triple_backtick, spec_within_link_url, spec_within_math,
    spec_ws_or_markers_only, whitespace_or_markers_only, word_internal,
};
use crate::syntax::{list_marker_prefix, list_marker_prefix_bytes};
use crate::text::{
    all_ascii, contains_byte, count_pat, count_pat_exec, ends_with, extend, find_from,
    find_pat_from, lemma_ascii_valid, lemma_valid_slice, matches_at, opt_int, rfind_before,
    rfind_pat, slice, to_vec,
};

verus! {

/// Appending ASCII bytes keeps UTF-8 valid.
pub proof fn lemma_append_ascii(a: Seq<u8>, b: Seq<u8>)
    requires
        valid_utf8(a),
        all_ascii(b),
    ensures
        valid_utf8(a + b),
{
    lemma_ascii_valid(b);
    valid_utf8_concat(a, b);
}

/// The bytes after position `k`.
pub open spec fn rest_from(t: Seq<u8>, k: int) -> Seq<u8> {
    t.subrange(k, t.len() as int)
}

/// Closing of a trailing two-byte marker `mm` (`**` or `__`): `/(mm)([^m]*?)$/` with an odd
/// number of markers, outside code, with content after it, not on a rule line, and not opening
/// a multi-line item right after a list marker.
pub open spec fn spec_close_double(t: Seq<u8>, m: u8) -> Seq<u8> {
    let pat = seq![m, m];
    match rfind_before(t, pat, t.len() as int) {
        None => t,
        Some(mi) => {
            let rest = rest_from(t, mi + 2);
            if rest.contains(m) || spec_inside_code(t, mi) || rest.len() == 0
                || spec_ws_or_markers_only(rest) || spec_hr_line(t, mi, m) || (rest.contains(10u8)
                && list_marker_prefix(t.subrange(line_start_of(t, mi), mi))) {
                t
            } else if count_pat(t, pat) % 2 == 1 {
                t + pat
            } else {
                t
            }
        },
    }
}

proof fn lemma_code_scan_no_ticks(t: Seq<u8>, pos: int, i: int)
    requires
        forall|k: int| 0 <= k < t.len() ==> t[k] != 96,
    ensures
        !crate::pending::terminator::code_scan(t, pos, i, false, false),
    decreases t.len() - i,
{
    if !(i < 0 || i >= pos || i >= t.len()) {
        lemma_code_scan_no_ticks(t, pos, i + 1);
    }
}

proof fn lemma_count_skip(t: Seq<u8>, p: Seq<u8>, from: int, to: int)
    requires
        0 <= from <= to,
        p.len() > 0,
        forall|q: int| from <= q < to ==> !matches_at(t, q, p),
    ensures
        crate::text::count_from(t, p, from) == crate::text::count_from(t, p, to),
    decreases to - from,
{
    if from < to && from + p.len() <= t.len() {
        lemma_count_skip(t, p, from + 1, to);
    } else if from < to {
        assert(to + p.len() > t.len());
    }
}

proof fn lemma_rfind_skip(t: Seq<u8>, p: Seq<u8>, at: int, end: int)
    requires
        p.len() > 0,
        0 <= at,
        at + p.len() <= end <= t.len(),
        matches_at(t, at, p),
        forall|q: int| at < q && q + p.len() <= end ==> !matches_at(t, q, p),
    ensures
        rfind_before(t, p, end) == Some(at),
    decreases end,
{
    if end - p.len() > at {
        lemma_rfind_skip(t, p, at, end - 1);
    }
}

/// The places where a text `a mm b` holds `mm`, when neither `a` nor `b` holds `m` and `b` is
/// not empty: only right after `a`.
proof fn lemma_only_pair(a: Seq<u8>, b: Seq<u8>, m: u8, q: int)
    requires
        forall|k: int| 0 <= k < a.len() ==> a[k] != m,
        forall|k: int| 0 <= k < b.len() ==> b[k] != m,
        b.len() > 0,
        matches_at(a + seq![m, m] + b, q, seq![m, m]),
    ensures
        q == a.len(),
{
    let t = a + seq![m, m] + b;
    assert(t.subrange(q, q + 2)[0] == t[q]);
    assert(t.subrange(q, q + 2)[1] == t[q + 1]);
    if q < a.len() {
        assert(t[q] == a[q]);
    } else if q > a.len() + 1 {
        assert(t[q] == b[q - a.len() - 2]);
    } else if q == a.len() + 1 {
        assert(t[q + 1] == b[0]);
    }
}

/// An open double marker (`**` or `__`) with text after it is closed: a line `a` + `mm` + `b`,
/// where neither part holds the marker, a backtick or a line break, and `b` holds something
/// besides whitespace and markers (so the line is no rule), gets `mm` after it.
pub proof fn law_double_marker_closed(a: Seq<u8>, b: Seq<u8>, m: u8)
    requires
        m == 42u8 || m == 95u8,
        forall|k: int| 0 <= k < a.len() ==> a[k] != m && a[k] != 96 && a[k] != 10,
        forall|k: int| 0 <= k < b.len() ==> b[k] != m && b[k] != 96 && b[k] != 10,
        b.len() > 0,
        exists|k: int| 0 <= k < b.len() && b[k] != 32 && b[k] != 9,
        !spec_ws_or_markers_only(b),
    ensures
        spec_close_double(a + seq![m, m] + b, m) == a + seq![m, m] + b + seq![m, m],
{
    let pat = seq![m, m];
    let t = a + pat + b;
    let na = a.len() as int;
    assert(forall|k: int| 0 <= k < a.len() ==> a[k] != m);
    assert(forall|k: int| 0 <= k < b.len() ==> b[k] != m);
    assert(t.subrange(na, na + 2) =~= pat);
    assert(matches_at(t, na, pat));
    assert forall|q: int| na < q && q + 2 <= t.len() implies !matches_at(t, q, pat) by {
        if matches_at(t, q, pat) {
            lemma_only_pair(a, b, m, q);
        }
    }
    lemma_rfind_skip(t, pat, na, t.len() as int);
    assert(rest_from(t, na + 2) =~= b);
    assert(!b.contains(m));
    assert forall|k: int| 0 <= k < t.len() implies t[k] != 96 && t[k] != 10 by {
        if k < na {
            assert(t[k] == a[k]);
        } else if k >= na + 2 {
            assert(t[k] == b[k - na - 2]);
        }
    }
    lemma_code_scan_no_ticks(t, na, 0);
    assert(!b.contains(10u8));
    // The line is the whole text, and it holds a byte of `b` that is neither marker nor blank.
    crate::text::lemma_find_byte_none(t, 10, na);
    assert(crate::pending::terminator::line_end_of(t, na) == t.len());
    let kb = choose|k: int| 0 <= k < b.len() && b[k] != 32 && b[k] != 9;
    assert(t[na + 2 + kb] == b[kb]);
    lemma_line_start_zero(t, na);
    assert(!spec_hr_line(t, na, m));
    // One pair in all.
    assert forall|q: int| 0 <= q < na implies !matches_at(t, q, pat) by {
        if matches_at(t, q, pat) {
            lemma_only_pair(a, b, m, q);
        }
    }
    assert forall|q: int| na + 2 <= q < t.len() implies !matches_at(t, q, pat) by {
        if matches_at(t, q, pat) {
            lemma_only_pair(a, b, m, q);
        }
    }
    lemma_count_skip(t, pat, 0, na);
    lemma_count_skip(t, pat, na + 2, t.len() as int);
    assert(count_pat(t, pat) == 1);
    assert(t + pat =~= a + seq![m, m] + b + seq![m, m]);
}

/// An open strikethrough with text after it is closed: a text `a` + `~~` + `b`, where neither
/// part holds a `~` and `b` holds something besides whitespace and markers, gets `~~` after it.
pub proof fn law_strikethrough_closed(a: Seq<u8>, b: Seq<u8>)
    requires
        forall|k: int| 0 <= k < a.len() ==> a[k] != 126,
        forall|k: int| 0 <= k < b.len() ==> b[k] != 126,
        b.len() > 0,
        !spec_ws_or_markers_only(b),
    ensures
        spec_close_strike(a + seq![126u8, 126u8] + b) == a + seq![126u8, 126u8] + b + seq![126u8, 126u8],
{
    let m: u8 = 126;
    let pat = seq![m, m];
    let t = a + pat + b;
    let na = a.len() as int;
    assert(t.subrange(na, na + 2) =~= pat);
    assert forall|q: int| na < q && q + 2 <= t.len() implies !matches_at(t, q, pat) by {
        if matches_at(t, q, pat) {
            lemma_only_pair(a, b, m, q);
        }
    }
    lemma_rfind_skip(t, pat, na, t.len() as int);
    assert(rest_from(t, na + 2) =~= b);
    assert(!b.contains(m));
    assert forall|q: int| 0 <= q < na implies !matches_at(t, q, pat) by {
        if matches_at(t, q, pat) {
            lemma_only_pair(a, b, m, q);
        }
    }
    assert forall|q: int| na + 2 <= q < t.len() implies !matches_at(t, q, pat) by {
        if matches_at(t, q, pat) {
            lemma_only_pair(a, b, m, q);
        }
    }
    lemma_count_skip(t, pat, 0, na);
    lemma_count_skip(t, pat, na + 2, t.len() as int);
    assert(count_pat(t, pat) == 1);
    assert(t + pat =~= a + seq![m, m] + b + seq![m, m]);
}

proof fn lemma_line_start_zero(t: Seq<u8>, i: int)
    requires
        0 <= i <= t.len(),
        forall|k: int| 0 <= k < i ==> t[k] != 10,
    ensures
        line_start_of(t, i) == 0,
    decreases i,
{
    if i > 0 {
        lemma_line_start_zero(t, i - 1);
    }
}

fn close_double(text: &[u8], pat: &[u8], m: u8) -> (r: Vec<u8>)
    requires
        valid_utf8(text@),
        m < 128,
        pat@ == seq![m, m],
    ensures
        r@ == spec_close_double(text@, m),
        valid_utf8(r@),
{
    let n = text.len();
    let mi = match rfind_pat(text, pat, n) {
        None => return to_vec(text),
        Some(mi) => mi,
    };
    let rest = slice(text, mi + 2, n);
    proof {
        lemma_valid_slice(text@, mi + 2, n as int);
    }
    if contains_byte(rest, m) || is_inside_code_block(text, mi) || rest.len() == 0
        || whitespace_or_markers_only(rest) || is_horizontal_rule_line(text, mi, m) {
        return to_vec(text);
    }
    if contains_byte(rest, 10) {
        let ls = line_start(text, mi);
        if list_marker_prefix_bytes(slice(text, ls, mi)) {
            return to_vec(text);
        }
    }
    if count_pat_exec(text, pat) % 2 == 1 {
        let mut out = to_vec(text);
        proof {
            assert(all_ascii(pat@));
            lemma_append_ascii(text@, pat@);
        }
        extend(&mut out, pat);
        out
    } else {
        to_vec(text)
    }
}

/// Close a trailing unbalanced `**`.
pub fn handle_incomplete_bold(text: &[u8]) -> (r: Vec<u8>)
    requires
        valid_utf8(text@),
    ensures
        r@ == spec_close_double(text@, 42),
        valid_utf8(r@),
{
    let pat: &[u8] = &[42u8, 42u8];
    close_double(text, pat, 42)
}

/// Close a trailing unbalanced `__`.
pub fn handle_incomplete_double_underscore_italic(text: &[u8]) -> (r: Vec<u8>)
    requires
        valid_utf8(text@),
    ensures
        r@ == spec_close_double(text@, 95),
        valid_utf8(r@),
{
    let pat: &[u8] = &[95u8, 95u8];
    close_double(text, pat, 95)
}

/// Closing of a trailing `~~`: `/(~~)([^~]*?)$/` with an odd number of `~~`.
pub open spec fn spec_close_strike(t: Seq<u8>) -> Seq<u8> {
    let pat = seq![126u8, 126u8];
    match rfind_before(t, pat, t.len() as int) {
        None => t,
        Some(mi) => {
            let rest = rest_from(t, mi + 2);
            if rest.contains(126u8) || rest.len() == 0 || spec_ws_or_markers_only(rest) {
                t
            } else if count_pat(t, pat) % 2 == 1 {
                t + pat
            } else {
                t
            }
        },
    }
}

pub fn balance_strikethrough(text: &[u8]) -> (r: Vec<u8>)
    requires
        valid_utf8(text@),
    ensures
        r@ == spec_close_strike(text@),
        valid_utf8(r@),
{
    let pat: &[u8] = &[126u8, 126u8];
    let n = text.len();
    let mi = match rfind_pat(text, pat, n) {
        None => return to_vec(text),
        Some(mi) => mi,
    };
    let rest = slice(text, mi + 2, n);
    proof {
        lemma_valid_slice(text@, mi + 2, n as int);
    }
    if contains_byte(rest, 126) || rest.len() == 0 || whitespace_or_markers_only(rest) {
        return to_vec(text);
    }
    if count_pat_exec(text, pat) % 2 == 1 {
        let mut out = to_vec(text);
        proof {
            assert(all_ascii(pat@));
            lemma_append_ascii(text@, pat@);
        }
        extend(&mut out, pat);
        out
    } else {
        to_vec(text)
    }
}


// ---------------------------------------------------------------------------------------------
// Single `*` and `_` italics, and `***`.
// ---------------------------------------------------------------------------------------------

/// An asterisk that may open a single-asterisk italic.
pub open spec fn star_opener(t: Seq<u8>, i: int) -> bool {
    &&& t[i] == 42
    &&& !spec_inside_code(t, i)
    &&& byte_before(t, i) != 42
    &&& byte_after(t, i) != 42
    &&& byte_before(t, i) != 92
    &&& !(t.contains(36u8) && spec_within_math(t, i))
    &&& !word_internal(t, i)
    &&& !spec_list_marker_at(t, i)
}

/// First opener asterisk at or after `from`.
pub open spec fn first_star_opener(t: Seq<u8>, from: int) -> Option<int>
    decreases t.len() - from,
{
    if from < 0 || from >= t.len() {
        None
    } else if star_opener(t, from) {
        Some(from)
    } else {
        first_star_opener(t, from + 1)
    }
}

/// Closing of a single-asterisk italic: an opener with content after it and an odd number of
/// counted single asterisks gets a `*` appended.
pub open spec fn spec_close_single_star(t: Seq<u8>) -> Seq<u8> {
    match first_star_opener(t, 0) {
        None => t,
        Some(fi) => {
            let rest = rest_from(t, fi + 1);
            if rest.len() == 0 || spec_ws_or_markers_only(rest) {
                t
            } else if spec_count_single_asterisks(t) % 2 == 1 {
                t.push(42)
            } else {
                t
            }
        },
    }
}

fn first_star_opener_exec(text: &[u8]) -> (r: Option<usize>)
    ensures
        opt_int(r) == first_star_opener(text@, 0),
        r matches Some(k) ==> k < text@.len() && text@[k as int] == 42,
{
    let n = text.len();
    let mut i: usize = 0;
    let has_dollar = contains_byte(text, 36);
    while i < n
        invariant
            i <= n == text@.len(),
            has_dollar == text@.contains(36u8),
            first_star_opener(text@, 0) == first_star_opener(text@, i as int),
        decreases n - i,
    {
        if text[i] == 42 && !is_inside_code_block(text, i) {
            let prev = prev_byte(text, i);
            let next = next_byte(text, i);
            if !(prev == 42 || next == 42 || prev == 92) && !(has_dollar && is_within_math_block(
                text,
                i,
            )) && !is_word_internal(text, i) && !is_list_marker_at(text, i) {
                return Some(i);
            }
        }
        i += 1;
    }
    None
}

pub fn handle_incomplete_single_asterisk_italic(text: &[u8]) -> (r: Vec<u8>)
    requires
        valid_utf8(text@),
    ensures
        r@ == spec_close_single_star(text@),
        valid_utf8(r@),
{
    let n = text.len();
    let fi = match first_star_opener_exec(text) {
        None => return to_vec(text),
        Some(fi) => fi,
    };
    let rest = slice(text, fi + 1, n);
    proof {
        lemma_valid_slice(text@, fi + 1, n as int);
    }
    if rest.len() == 0 || whitespace_or_markers_only(rest) {
        return to_vec(text);
    }
    if count_single_asterisks(text) % 2 == 1 {
        let mut out = to_vec(text);
        proof {
            assert(all_ascii(seq![42u8]));
            lemma_append_ascii(text@, seq![42u8]);
            assert(text@ + seq![42u8] =~= text@.push(42));
        }
        out.push(42);
        out
    } else {
        to_vec(text)
    }
}

/// An underscore that may open a single-underscore italic.
pub open spec fn under_opener(t: Seq<u8>, i: int) -> bool {
    &&& t[i] == 95
    &&& !spec_inside_code(t, i)
    &&& byte_before(t, i) != 95
    &&& byte_after(t, i) != 95
    &&& byte_before(t, i) != 92
    &&& !(t.contains(36u8) && spec_within_math(t, i))
    &&& !spec_within_link_url(t, i)
    &&& !word_internal(t, i)
}

pub open spec fn first_under_opener(t: Seq<u8>, from: int) -> Option<int>
    decreases t.len() - from,
{
    if from < 0 || from >= t.len() {
        None
    } else if under_opener(t, from) {
        Some(from)
    } else {
        first_under_opener(t, from + 1)
    }
}

pub(crate) fn find_first_single_underscore_index(text: &[u8]) -> (r: Option<usize>)
    ensures
        opt_int(r) == first_under_opener(text@, 0),
        r matches Some(k) ==> k < text@.len() && text@[k as int] == 95,
{
    let n = text.len();
    let mut i: usize = 0;
    let has_dollar = contains_byte(text, 36);
    while i < n
        invariant
            i <= n == text@.len(),
            has_dollar == text@.contains(36u8),
            first_under_opener(text@, 0) == first_under_opener(text@, i as int),
        decreases n - i,
    {
        if text[i] == 95 && !is_inside_code_block(text, i) {
            let prev = prev_byte(text, i);
            let next = next_byte(text, i);
            if !(prev == 95 || next == 95 || prev == 92) && !(has_dollar && is_within_math_block(
                text,
                i,
            )) && !is_within_link_or_image_url(text, i) && !is_word_internal(text, i) {
                return Some(i);
            }
        }
        i += 1;
    }
    None
}

/// Position before the trailing run of line feeds ending at `end`.
pub open spec fn before_trailing_newlines(t: Seq<u8>, end: int) -> int
    decreases end,
{
    if end <= 0 || end > t.len() || t[end - 1] != 10 {
        end
    } else {
        before_trailing_newlines(t, end - 1)
    }
}

/// `_` inserted before the trailing line feeds.
pub open spec fn spec_insert_closing_underscore(t: Seq<u8>) -> Seq<u8> {
    let e = before_trailing_newlines(t, t.len() as int);
    t.subrange(0, e) + seq![95u8] + rest_from(t, e)
}

proof fn lemma_before_trailing_newlines(t: Seq<u8>, end: int)
    requires
        0 <= end <= t.len(),
    ensures
        0 <= before_trailing_newlines(t, end) <= end,
        before_trailing_newlines(t, end) < end ==> t[before_trailing_newlines(t, end)] == 10,
    decreases end,
{
    if end > 0 && t[end - 1] == 10 {
        lemma_before_trailing_newlines(t, end - 1);
    }
}

pub(crate) fn insert_closing_underscore(text: &[u8]) -> (r: Vec<u8>)
    requires
        valid_utf8(text@),
    ensures
        r@ == spec_insert_closing_underscore(text@),
        valid_utf8(r@),
{
    let n = text.len();
    let mut end = n;
    proof {
        lemma_before_trailing_newlines(text@, n as int);
    }
    while end > 0 && text[end - 1] == 10
        invariant
            end <= n == text@.len(),
            before_trailing_newlines(text@, n as int) == before_trailing_newlines(text@, end as int),
        decreases end,
    {
        end -= 1;
    }
    let mut out = to_vec(slice(text, 0, end));
    out.push(95);
    extend(&mut out, slice(text, end, n));
    proof {
        lemma_valid_slice(text@, 0, end as int);
        lemma_valid_slice(text@, end as int, n as int);
        assert(all_ascii(seq![95u8]));
        lemma_ascii_valid(seq![95u8]);
        crate::text::lemma_valid_concat3(
            text@.subrange(0, end as int),
            seq![95u8],
            text@.subrange(end as int, n as int),
        );
        assert(out@ =~= spec_insert_closing_underscore(text@));
    }
    out
}

/// A trailing `**` that closes a bold opened before the first single underscore: the italic is
/// closed inside it (`_**`).
pub open spec fn spec_trailing_stars_for_underscore(t: Seq<u8>) -> Option<Seq<u8>> {
    let dbl = seq![42u8, 42u8];
    if !(t.len() >= 2 && matches_at(t, t.len() - 2, dbl)) {
        None
    } else {
        let w = t.subrange(0, t.len() - 2);
        if count_pat(w, dbl) % 2 != 1 {
            None
        } else {
            match (find_from(w, dbl, 0), first_under_opener(w, 0)) {
                (Some(fd), Some(ui)) => if fd < ui {
                    Some(w + seq![95u8, 42u8, 42u8])
                } else {
                    None
                },
                _ => None,
            }
        }
    }
}

fn handle_trailing_asterisks_for_underscore(text: &[u8]) -> (r: Option<Vec<u8>>)
    requires
        valid_utf8(text@),
    ensures
        match r {
            Some(v) => spec_trailing_stars_for_underscore(text@) == Some(v@) && valid_utf8(v@),
            None => spec_trailing_stars_for_underscore(text@) is None,
        },
{
    let dbl: &[u8] = &[42u8, 42u8];
    if !ends_with(text, dbl) {
        return None;
    }
    let n = text.len();
    let w = slice(text, 0, n - 2);
    if count_pat_exec(w, dbl) % 2 != 1 {
        return None;
    }
    let fd = match find_pat_from(w, dbl, 0) {
        None => return None,
        Some(fd) => fd,
    };
    let ui = match find_first_single_underscore_index(w) {
        None => return None,
        Some(ui) => ui,
    };
    if fd < ui {
        let mut out = to_vec(w);
        let tail: &[u8] = &[95u8, 42u8, 42u8];
        proof {
            assert(text@[n - 2] == 42);
            lemma_valid_slice(text@, 0, n - 2);
            assert(all_ascii(tail@));
            lemma_append_ascii(w@, tail@);
        }
        extend(&mut out, tail);
        Some(out)
    } else {
        None
    }
}

/// Closing of a single-underscore italic.
pub open spec fn spec_close_single_under(t: Seq<u8>) -> Seq<u8> {
    match first_under_opener(t, 0) {
        None => t,
        Some(fi) => {
            let rest = rest_from(t, fi + 1);
            if rest.len() == 0 || spec_ws_or_markers_only(rest) {
                t
            } else if spec_count_single_underscores(t) % 2 == 1 {
                match spec_trailing_stars_for_underscore(t) {
                    Some(x) => x,
                    None => spec_insert_closing_underscore(t),
                }
            } else {
                t
            }
        },
    }
}

pub fn handle_incomplete_single_underscore_italic(text: &[u8]) -> (r: Vec<u8>)
    requires
        valid_utf8(text@),
    ensures
        r@ == spec_close_single_under(text@),
        valid_utf8(r@),
{
    let n = text.len();
    let fi = match find_first_single_underscore_index(text) {
        None => return to_vec(text),
        Some(fi) => fi,
    };
    let rest = slice(text, fi + 1, n);
    proof {
        lemma_valid_slice(text@, fi + 1, n as int);
    }
    if rest.len() == 0 || whitespace_or_markers_only(rest) {
        return to_vec(text);
    }
    if count_single_underscores(text) % 2 == 1 {
        match handle_trailing_asterisks_for_underscore(text) {
            Some(v) => v,
            None => insert_closing_underscore(text),
        }
    } else {
        to_vec(text)
    }
}

/// `**` pairs and single asterisks are both even.
pub open spec fn spec_bold_italic_balanced(t: Seq<u8>) -> bool {
    count_pat(t, seq![42u8, 42u8]) % 2 == 0 && spec_count_single_asterisks(t) % 2 == 0
}

/// The trimmed text is four or more asterisks and nothing else.
pub open spec fn only_many_stars(t: Seq<u8>) -> bool {
    let tr = crate::text::bytes_trim(t);
    tr.len() >= 4 && forall|k: int| 0 <= k < tr.len() ==> tr[k] == 42
}

/// Closing of a trailing `***` bold italic.
pub open spec fn spec_close_triple(t: Seq<u8>) -> Seq<u8> {
    let pat = seq![42u8, 42u8, 42u8];
    if only_many_stars(t) {
        t
    } else {
        match rfind_before(t, pat, t.len() as int) {
            None => t,
            Some(mi) => {
                let rest = rest_from(t, mi + 3);
                if rest.contains(42u8) || rest.len() == 0 || spec_ws_or_markers_only(rest)
                    || spec_inside_code(t, mi) || spec_hr_line(t, mi, 42) {
                    t
                } else if spec_count_triple_asterisks(t) % 2 == 1 && !spec_bold_italic_balanced(t) {
                    t + pat
                } else {
                    t
                }
            },
        }
    }
}

pub fn handle_incomplete_bold_italic(text: &[u8]) -> (r: Vec<u8>)
    requires
        valid_utf8(text@),
    ensures
        r@ == spec_close_triple(text@),
        valid_utf8(r@),
{
    let tr = crate::text::trim(text);
    let mut all_stars = true;
    let mut k: usize = 0;
    while k < tr.len()
        invariant
            k <= tr@.len(),
            all_stars == forall|q: int| 0 <= q < k ==> tr@[q] == 42,
        decreases tr@.len() - k,
    {
        if tr[k] != 42 {
            all_stars = false;
        }
        k += 1;
    }
    if tr.len() >= 4 && all_stars {
        return to_vec(text);
    }
    let pat: &[u8] = &[42u8, 42u8, 42u8];
    let dbl: &[u8] = &[42u8, 42u8];
    let n = text.len();
    let mi = match rfind_pat(text, pat, n) {
        None => return to_vec(text),
        Some(mi) => mi,
    };
    let rest = slice(text, mi + 3, n);
    proof {
        lemma_valid_slice(text@, mi + 3, n as int);
    }
    if contains_byte(rest, 42) || rest.len() == 0 || whitespace_or_markers_only(rest)
        || is_inside_code_block(text, mi) || is_horizontal_rule_line(text, mi, 42) {
        return to_vec(text);
    }
    if count_triple_asterisks(text) % 2 == 1 && !(count_pat_exec(text, dbl) % 2 == 0
        && count_single_asterisks(text) % 2 == 0) {
        let mut out = to_vec(text);
        proof {
            assert(all_ascii(pat@));
            lemma_append_ascii(text@, pat@);
        }
        extend(&mut out, pat);
        out
    } else {
        to_vec(text)
    }
}


// ---------------------------------------------------------------------------------------------
// Inline code, display math, setext headings.
// ---------------------------------------------------------------------------------------------

/// Length of the run of backticks ending at `end`.
pub open spec fn trailing_ticks(t: Seq<u8>, end: int) -> int
    decreases end,
{
    if end <= 0 || end > t.len() || t[end - 1] != 96 {
        0
    } else {
        1 + trailing_ticks(t, end - 1)
    }
}

/// Last backtick before `end` that is not part of a "```".
pub open spec fn last_single_tick(t: Seq<u8>, end: int) -> Option<int>
    decreases end,
{
    if end <= 0 || end > t.len() {
        None
    } else if t[end - 1] == 96 && !spec_part_of_triple_backtick(t, end - 1) {
        Some(end - 1)
    } else {
        last_single_tick(t, end - 1)
    }
}

/// Number of backticks before `n` that are not part of a "```".
pub open spec fn count_single_ticks(t: Seq<u8>, n: int) -> int
    decreases n,
{
    if n <= 0 || n > t.len() {
        0
    } else {
        count_single_ticks(t, n - 1) + (if t[n - 1] == 96 && !spec_part_of_triple_backtick(
            t,
            n - 1,
        ) {
            1int
        } else {
            0
        })
    }
}

/// A one-line "```code``" missing its last backtick, or a complete one-line "```code```".
pub open spec fn inline_triple(t: Seq<u8>) -> Option<bool> {
    let run = trailing_ticks(t, t.len() as int);
    if !t.contains(10u8) && matches_at(t, 0, seq![96u8, 96u8, 96u8]) && (run == 2 || run == 3)
        && t.len() - run >= 3 && !t.subrange(3, t.len() - run).contains(96u8) {
        Some(run == 2)
    } else {
        None
    }
}

/// Balancing of inline code spans.
pub open spec fn spec_balance_inline_code(t: Seq<u8>) -> Seq<u8> {
    match inline_triple(t) {
        Some(add) => if add {
            t.push(96)
        } else {
            t
        },
        None => if count_pat(t, seq![96u8, 96u8, 96u8]) % 2 == 1 {
            t
        } else {
            match last_single_tick(t, t.len() as int) {
                None => t,
                Some(mi) => {
                    let rest = rest_from(t, mi + 1);
                    if spec_inside_code(t, mi) || rest.contains(96u8) || rest.len() == 0
                        || spec_ws_or_markers_only(rest) {
                        t
                    } else if count_single_ticks(t, t.len() as int) % 2 == 1 {
                        t.push(96)
                    } else {
                        t
                    }
                },
            }
        },
    }
}

proof fn lemma_no_tick_scan(t: Seq<u8>, end: int)
    requires
        forall|k: int| 0 <= k < t.len() ==> t[k] != 96,
    ensures
        last_single_tick(t, end) is None,
    decreases end,
{
    if end > 0 && end <= t.len() {
        lemma_no_tick_scan(t, end - 1);
    }
}

/// Inline-code balancing only ever closes an open span: it leaves the text, or adds one backtick
/// at its end; a text without backticks is left as it is.
pub proof fn law_inline_code_balancing_appends_a_backtick(t: Seq<u8>)
    ensures
        spec_balance_inline_code(t) == t || spec_balance_inline_code(t) == t.push(96u8),
        (forall|k: int| 0 <= k < t.len() ==> t[k] != 96) ==> spec_balance_inline_code(t) == t,
{
    if forall|k: int| 0 <= k < t.len() ==> t[k] != 96 {
        assert(!matches_at(t, 0, seq![96u8, 96u8, 96u8])) by {
            if matches_at(t, 0, seq![96u8, 96u8, 96u8]) {
                assert(t.subrange(0, 3)[0] == t[0]);
            }
        }
        lemma_no_tick_scan(t, t.len() as int);
    }
}

fn push_ascii(text: &[u8], c: u8) -> (r: Vec<u8>)
    requires
        valid_utf8(text@),
        c < 128,
    ensures
        r@ == text@.push(c),
        valid_utf8(r@),
{
    let mut out = to_vec(text);
    proof {
        assert(all_ascii(seq![c]));
        lemma_append_ascii(text@, seq![c]);
        assert(text@ + seq![c] =~= text@.push(c));
    }
    out.push(c);
    out
}

fn trailing_ticks_exec(text: &[u8]) -> (r: usize)
    ensures
        r == trailing_ticks(text@, text@.len() as int),
        r <= text@.len(),
{
    let n = text.len();
    let mut run: usize = 0;
    while run < n && text[n - 1 - run] == 96
        invariant
            run <= n == text@.len(),
            trailing_ticks(text@, n as int) == run + trailing_ticks(text@, n - run),
        decreases n - run,
    {
        run += 1;
    }
    assert(trailing_ticks(text@, n - run) == 0);
    run
}

fn last_single_tick_exec(text: &[u8]) -> (r: Option<usize>)
    ensures
        opt_int(r) == last_single_tick(text@, text@.len() as int),
        r matches Some(k) ==> k < text@.len() && text@[k as int] == 96,
{
    let n = text.len();
    let mut e = n;
    while e > 0
        invariant
            e <= n == text@.len(),
            last_single_tick(text@, n as int) == last_single_tick(text@, e as int),
        decreases e,
    {
        if text[e - 1] == 96 && !is_part_of_triple_backtick(text, e - 1) {
            return Some(e - 1);
        }
        e -= 1;
    }
    None
}

pub fn balance_inline_code(text: &[u8]) -> (r: Vec<u8>)
    requires
        valid_utf8(text@),
    ensures
        r@ == spec_balance_inline_code(text@),
        valid_utf8(r@),
{
    let n = text.len();
    let tick3: &[u8] = &[96u8, 96u8, 96u8];
    if !contains_byte(text, 10) && crate::text::starts_with(text, tick3) {
        let run = trailing_ticks_exec(text);
        if run == 2 || run == 3 {
            if n - run >= 3 && !contains_byte(slice(text, 3, n - run), 96) {
                if run == 2 {
                    return push_ascii(text, 96);
                }
                return to_vec(text);
            }
        }
    }
    if count_pat_exec(text, tick3) % 2 == 1 {
        return to_vec(text);
    }
    let found = last_single_tick_exec(text);
    let mi = match found {
        None => return to_vec(text),
        Some(mi) => mi,
    };
    let rest = slice(text, mi + 1, n);
    proof {
        lemma_valid_slice(text@, mi + 1, n as int);
    }
    if is_inside_code_block(text, mi) || contains_byte(rest, 96) || rest.len() == 0
        || whitespace_or_markers_only(rest) {
        return to_vec(text);
    }
    let mut count: usize = 0;
    let mut i: usize = 0;
    while i < n
        invariant
            i <= n == text@.len(),
            count == count_single_ticks(text@, i as int),
            count <= i,
        decreases n - i,
    {
        if text[i] == 96 && !is_part_of_triple_backtick(text, i) {
            count += 1;
        }
        i += 1;
    }
    if count % 2 == 1 {
        push_ascii(text, 96)
    } else {
        to_vec(text)
    }
}

/// Count of `$$` pairs outside inline code, scanning from `i`.
pub open spec fn dollar_scan(t: Seq<u8>, i: int, pairs: int, in_code: bool) -> int
    decreases t.len() - i,
{
    if i < 0 || i + 1 >= t.len() {
        pairs
    } else if t[i] == 96 && !spec_part_of_triple_backtick(t, i) {
        dollar_scan(t, i + 1, pairs, !in_code)
    } else if !in_code && t[i] == 36 && t[i + 1] == 36 {
        dollar_scan(t, i + 2, pairs + 1, in_code)
    } else {
        dollar_scan(t, i + 1, pairs, in_code)
    }
}

/// Closing of an unbalanced `$$` display-math block: on a new line when the block spans lines.
pub open spec fn spec_balance_katex(t: Seq<u8>) -> Seq<u8> {
    if dollar_scan(t, 0, 0, false) % 2 == 0 {
        t
    } else {
        let multiline = match find_from(t, seq![36u8, 36u8], 0) {
            Some(idx) => rest_from(t, idx).contains(10u8),
            None => false,
        };
        if multiline && !(t.len() > 0 && t[t.len() - 1] == 10) {
            t + seq![10u8, 36u8, 36u8]
        } else {
            t + seq![36u8, 36u8]
        }
    }
}

proof fn lemma_dollar_scan_no_backticks(t: Seq<u8>, i: int, pairs: int)
    requires
        0 <= i,
        forall|k: int| 0 <= k < t.len() ==> t[k] != 96,
    ensures
        dollar_scan(t, i, pairs, false) == pairs + crate::text::count_from(t, seq![36u8, 36u8], i),
    decreases t.len() - i,
{
    let dd = seq![36u8, 36u8];
    if i + 1 >= t.len() {
    } else if t[i] == 36 && t[i + 1] == 36 {
        assert(t.subrange(i, i + 2) =~= dd);
        lemma_dollar_scan_no_backticks(t, i + 2, pairs + 1);
    } else {
        assert(!crate::text::matches_at(t, i, dd)) by {
            if crate::text::matches_at(t, i, dd) {
                assert(t.subrange(i, i + 2)[0] == t[i]);
                assert(t.subrange(i, i + 2)[1] == t[i + 1]);
            }
        }
        lemma_dollar_scan_no_backticks(t, i + 1, pairs);
    }
}

/// Display math in a text without backticks: with an odd number of `$$` delimiters (counted
/// left to right, without overlap) the block is closed, the text kept and `$$` put after it
/// (on a line of its own when the math spans lines and the text does not end a line); with an
/// even number the text is left as it is.
pub proof fn law_katex_closes_odd_display_math(t: Seq<u8>)
    requires
        forall|k: int| 0 <= k < t.len() ==> t[k] != 96,
    ensures
        crate::text::count_from(t, seq![36u8, 36u8], 0) % 2 == 0 ==> spec_balance_katex(t) == t,
        crate::text::count_from(t, seq![36u8, 36u8], 0) % 2 == 1 ==> {
            let r = spec_balance_katex(t);
            let spans_lines = exists|k: int, j: int|
                #![trigger t[k], t[j]]
                0 <= k <= j < t.len() && crate::text::matches_at(t, k, seq![36u8, 36u8]) && (forall|q: int|
                    0 <= q < k ==> !crate::text::matches_at(t, q, seq![36u8, 36u8])) && t[j] == 10;
            &&& r.len() >= t.len() + 2
            &&& r.subrange(0, t.len() as int) == t
            &&& r.subrange(r.len() - 2, r.len() as int) == seq![36u8, 36u8]
            &&& (spans_lines && !(t.len() > 0 && t[t.len() - 1] == 10)) ==> r == t + seq![10u8, 36u8, 36u8]
            &&& !(spans_lines && !(t.len() > 0 && t[t.len() - 1] == 10)) ==> r == t + seq![36u8, 36u8]
        },
{
    let dd = seq![36u8, 36u8];
    lemma_dollar_scan_no_backticks(t, 0, 0);
    let r = spec_balance_katex(t);
    if crate::text::count_from(t, dd, 0) % 2 == 1 {
        lemma_count_finds(t, dd, 0);
        let idx = find_from(t, dd, 0).unwrap();
        lemma_find_from_first(t, dd, 0);
        let spans_lines = exists|k: int, j: int|
            #![trigger t[k], t[j]]
            0 <= k <= j < t.len() && crate::text::matches_at(t, k, dd) && (forall|q: int|
                0 <= q < k ==> !crate::text::matches_at(t, q, dd)) && t[j] == 10;
        if rest_from(t, idx).contains(10u8) {
            let m = choose|m: int| 0 <= m < rest_from(t, idx).len() && rest_from(t, idx)[m] == 10u8;
            assert(t[idx] == t[idx] && t[idx + m] == 10);
            assert(spans_lines);
        }
        if spans_lines {
            let (k, j) = choose|k: int, j: int|
                #![trigger t[k], t[j]]
                0 <= k <= j < t.len() && crate::text::matches_at(t, k, dd) && (forall|q: int|
                    0 <= q < k ==> !crate::text::matches_at(t, q, dd)) && t[j] == 10;
            assert(k == idx);
            assert(rest_from(t, idx)[j - idx] == 10);
        }
        assert(r.subrange(0, t.len() as int) =~= t);
        assert(r.subrange(r.len() - 2, r.len() as int) =~= seq![36u8, 36u8]);
    }
}

proof fn lemma_count_finds(t: Seq<u8>, p: Seq<u8>, from: int)
    requires
        0 <= from,
        crate::text::count_from(t, p, from) > 0,
    ensures
        find_from(t, p, from) is Some,
    decreases t.len() - from,
{
    if !crate::text::matches_at(t, from, p) {
        lemma_count_finds(t, p, from + 1);
    }
}

proof fn lemma_find_from_first(t: Seq<u8>, p: Seq<u8>, from: int)
    requires
        0 <= from,
    ensures
        find_from(t, p, from) matches Some(k) ==> from <= k < t.len() && crate::text::matches_at(t, k, p)
            && forall|q: int| from <= q < k ==> !crate::text::matches_at(t, q, p),
    decreases t.len() + 1 - from,
{
    if p.len() > 0 && from + p.len() <= t.len() && !crate::text::matches_at(t, from, p) {
        lemma_find_from_first(t, p, from + 1);
    }
}

pub fn balance_katex_block(text: &[u8]) -> (r: Vec<u8>)
    requires
        valid_utf8(text@),
    ensures
        r@ == spec_balance_katex(text@),
        valid_utf8(r@),
{
    let n = text.len();
    let mut pairs: usize = 0;
    let mut in_code = false;
    let mut i: usize = 0;
    while n > 0 && i < n - 1
        invariant
            i <= n == text@.len(),
            pairs <= i,
            dollar_scan(text@, 0, 0, false) == dollar_scan(text@, i as int, pairs as int, in_code),
        decreases n - i,
    {
        if text[i] == 96 && !is_part_of_triple_backtick(text, i) {
            in_code = !in_code;
            i += 1;
        } else if !in_code && text[i] == 36 && text[i + 1] == 36 {
            pairs += 1;
            i += 2;
        } else {
            i += 1;
        }
    }
    if pairs % 2 == 0 {
        return to_vec(text);
    }
    let dd: &[u8] = &[36u8, 36u8];
    let multiline = match find_pat_from(text, dd, 0) {
        Some(idx) => contains_byte(slice(text, idx, n), 10),
        None => false,
    };
    let mut out = to_vec(text);
    if multiline && !(n > 0 && text[n - 1] == 10) {
        let tail: &[u8] = &[10u8, 36u8, 36u8];
        proof {
            assert(all_ascii(tail@));
            lemma_append_ascii(text@, tail@);
        }
        extend(&mut out, tail);
    } else {
        proof {
            assert(all_ascii(dd@));
            lemma_append_ascii(text@, dd@);
        }
        extend(&mut out, dd);
    }
    out
}


/// The bytes of U+200B ZERO WIDTH SPACE.
pub open spec fn zwsp() -> Seq<u8> {
    encode_utf8(seq!['\u{200B}'])
}

/// A trimmed last line of one or two `-` or `=`: it could turn the previous line into a setext
/// heading.
pub open spec fn setext_ambiguous(m: Seq<u8>) -> bool {
    m == seq![45u8] || m == seq![45u8, 45u8] || m == seq![61u8] || m == seq![61u8, 61u8]
}

/// Setext-heading protection: after a single trailing space is dropped, a last line of one or two
/// `-`/`=` (no trailing whitespace) under a non-blank line gets a zero-width space appended.
pub open spec fn spec_setext(text: Seq<u8>) -> Seq<u8> {
    let tr = crate::pending::terminator::spec_trim_single_space(text);
    let nl = seq![10u8];
    match rfind_before(tr, nl, tr.len() as int) {
        None => tr,
        Some(ln) => {
            let prev = tr.subrange(0, ln);
            let last = rest_from(tr, ln + 1);
            if prev.len() == 0 || prev[prev.len() - 1] == 10 {
                tr
            } else if setext_ambiguous(crate::text::bytes_trim(last)) && !(last.len() > 0 && (
            last[last.len() - 1] == 32 || last[last.len() - 1] == 9)) {
                let pl = match rfind_before(prev, nl, prev.len() as int) {
                    Some(k) => k + 1,
                    None => 0,
                };
                if !crate::text::bytes_blank(rest_from(prev, pl)) {
                    tr + zwsp()
                } else {
                    tr
                }
            } else {
                tr
            }
        },
    }
}

pub fn apply_setext_heading_protection(text: &[u8]) -> (r: Vec<u8>)
    requires
        valid_utf8(text@),
    ensures
        r@ == spec_setext(text@),
        valid_utf8(r@),
{
    let tr = crate::pending::terminator::trim_trailing_single_space(text);
    let nl: &[u8] = &[10u8];
    assert(nl@ =~= seq![10u8]);
    let n = tr.len();
    let ln = match rfind_pat(tr, nl, n) {
        None => return to_vec(tr),
        Some(ln) => ln,
    };
    if ln == 0 || tr[ln - 1] == 10 {
        return to_vec(tr);
    }
    let prev = slice(tr, 0, ln);
    let last = slice(tr, ln + 1, n);
    proof {
        lemma_valid_slice(tr@, 0, ln as int);
        lemma_valid_slice(tr@, ln + 1, n as int);
    }
    let tl = crate::text::trim(last);
    let d1: &[u8] = &[45u8];
    let d2: &[u8] = &[45u8, 45u8];
    let e1: &[u8] = &[61u8];
    let e2: &[u8] = &[61u8, 61u8];
    assert(d1@ =~= seq![45u8] && d2@ =~= seq![45u8, 45u8]);
    assert(e1@ =~= seq![61u8] && e2@ =~= seq![61u8, 61u8]);
    let ambiguous = crate::text::bytes_eq(tl, d1) || crate::text::bytes_eq(tl, d2)
        || crate::text::bytes_eq(tl, e1) || crate::text::bytes_eq(tl, e2);
    let ll = last.len();
    let trailing_ws = ll > 0 && (last[ll - 1] == 32 || last[ll - 1] == 9);
    if ambiguous && !trailing_ws {
        let pl = match rfind_pat(prev, nl, ln) {
            Some(k) => k + 1,
            None => 0,
        };
        let prev_line = slice(prev, pl, ln);
        proof {
            lemma_valid_slice(prev@, pl as int, ln as int);
        }
        if !crate::text::is_blank(prev_line) {
            let z = "\u{200B}";
            proof {
                reveal_strlit("\u{200B}");
                crate::text::lemma_encode_valid(z@);
                valid_utf8_concat(tr@, zwsp());
            }
            let zb = z.as_bytes();
            let mut out = to_vec(tr);
            extend(&mut out, zb);
            return out;
        }
    }
    to_vec(tr)
}

} // verus!
