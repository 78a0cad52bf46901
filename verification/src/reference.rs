//! Reference-style link labels: normalisation, definitions and usages.
use vstd::prelude::*;
use vstd::utf8::*;
use vstd::string::StringSliceAdditionalSpecFns;
use crate::text::{
    as_str, bytes_blank, char_is_whitespace, char_to_lowercase, find_byte, find_byte_exec,
    is_blank, lemma_find_byte, lemma_valid_slice, slice, string_push, strip3,
    strip_up_to_three_leading_spaces, trim_end_str, trim_str, unicode_lowercase, unicode_whitespace, ws_trim, ws_trim_end,
};

verus! {

broadcast use vstd::string::group_string_axioms;

/// Whitespace runs collapse to one space (none at the start) and characters are lowercased.
pub open spec fn norm_scan(cs: Seq<char>, i: int, out: Seq<char>, last_ws: bool) -> Seq<char>
    decreases cs.len() - i,
{
    if i < 0 || i >= cs.len() {
        out
    } else if unicode_whitespace(cs[i]) {
        norm_scan(cs, i + 1, out, true)
    } else {
        let sep = if last_ws && out.len() > 0 {
            out.push(' ')
        } else {
            out
        };
        norm_scan(cs, i + 1, sep + unicode_lowercase(cs[i]), false)
    }
}

/// Normalised label: trimmed, non-empty, at most 200 bytes, whitespace collapsed, lowercased.
pub open spec fn spec_normalize_label(label: Seq<char>) -> Option<Seq<char>> {
    let t = ws_trim(label);
    if t.len() == 0 || encode_utf8(t).len() > 200 {
        None
    } else {
        let o = norm_scan(t, 0, Seq::empty(), false);
        if o.len() == 0 {
            None
        } else {
            Some(o)
        }
    }
}

pub open spec fn opt_str_view(o: Option<String>) -> Option<Seq<char>> {
    match o {
        Some(s) => Some(s@),
        None => None,
    }
}

pub fn normalize_reference_label(label: &str) -> (r: Option<String>)
    ensures
        opt_str_view(r) == spec_normalize_label(label@),
{
    let t = trim_str(label);
    let tlen = t.as_bytes().len();
    if tlen == 0 {
        proof {
            encode_utf8_first_scalar_len(t@);
        }
        return None;
    }
    if tlen > 200 {
        return None;
    }
    let mut out = String::new();
    let mut last_ws = false;
    let ghost cs = t@;
    proof {
        encode_utf8_first_scalar_len(t@);
    }
    assert(out@ =~= Seq::<char>::empty());
    for c in it: t.chars()
        invariant
            it.seq() == t@,
            cs == t@,
            cs == ws_trim(label@),
            !(cs.len() == 0 || encode_utf8(cs).len() > 200),
            norm_scan(cs, 0, Seq::empty(), false) == norm_scan(
                cs,
                it.index() as int,
                out@,
                last_ws,
            ),
    {
        assert(c == cs[it.index() as int]);
        let ghost idx = it.index() as int;
        let ghost out0 = out@;
        let ghost lw0 = last_ws;
        if char_is_whitespace(c) {
            last_ws = true;
        } else {
            proof {
                encode_utf8_first_scalar_len(out@);
            }
            if last_ws && !out.as_str().is_empty() {
                string_push(&mut out, ' ');
            }
            last_ws = false;
            let lc = char_to_lowercase(c);
            let mut k: usize = 0;
            let ghost base = out@;
            while k < lc.len()
                invariant
                    k <= lc@.len(),
                    lc@ == unicode_lowercase(c),
                    out@ == base + lc@.subrange(0, k as int),
                decreases lc@.len() - k,
            {
                string_push(&mut out, lc[k]);
                assert(base + lc@.subrange(0, k + 1) =~= (base + lc@.subrange(0, k as int)).push(
                    lc@[k as int],
                ));
                k += 1;
            }
            assert(lc@.subrange(0, k as int) =~= lc@);
            assert(lc@ == unicode_lowercase(c));
            assert(base == (if lw0 && out0.len() > 0 {
                out0.push(' ')
            } else {
                out0
            }));
            assert(out@ == (if lw0 && out0.len() > 0 {
                out0.push(' ')
            } else {
                out0
            }) + unicode_lowercase(c));
            assert(norm_scan(cs, idx, out0, lw0) == norm_scan(cs, idx + 1, out@, false));
        }
    }
    proof {
        encode_utf8_first_scalar_len(out@);
    }
    if out.as_str().is_empty() {
        None
    } else {
        Some(out)
    }
}

pub proof fn lemma_encode_nonempty(cs: Seq<char>)
    ensures
        encode_utf8(cs).len() == 0 <==> cs.len() == 0,
{
    encode_utf8_first_scalar_len(cs);
}

proof fn encode_utf8_first_scalar_len(cs: Seq<char>)
    ensures
        encode_utf8(cs).len() == 0 <==> cs.len() == 0,
{
    if cs.len() > 0 {
        encode_utf8_first_scalar(cs);
    } else {
        assert(encode_utf8(cs) =~= Seq::<u8>::empty());
    }
}

/// The label of a single-line reference definition `[label]:` (after up to three spaces),
/// normalised; footnote definitions `[^x]:` are excluded.
pub open spec fn spec_definition_label(line: Seq<u8>) -> Option<Seq<char>> {
    let s = strip3(line);
    if s.len() < 4 || s[0] != 91 {
        None
    } else {
        match find_byte(s, 93, 0) {
            None => None,
            Some(close) => if close == 1 || !(close + 1 < s.len() && s[close + 1] == 58) || s[1]
                == 94 {
                None
            } else {
                spec_normalize_label(decode_utf8(s.subrange(1, close)))
            },
        }
    }
}

pub fn extract_reference_definition_label(line: &[u8]) -> (r: Option<String>)
    requires
        valid_utf8(line@),
    ensures
        opt_str_view(r) == spec_definition_label(line@),
{
    let s = strip_up_to_three_leading_spaces(line);
    if s.len() < 4 || s[0] != 91 {
        return None;
    }
    proof {
        lemma_find_byte(s@, 93, 0);
        lemma_valid_slice(line@, crate::text::strip3_len(line@), line@.len() as int);
    }
    let close = match find_byte_exec(s, 93, 0) {
        None => return None,
        Some(c) => c,
    };
    if close == 1 || !(close + 1 < s.len() && s[close + 1] == 58) || s[1] == 94 {
        return None;
    }
    proof {
        lemma_valid_slice(s@, 1, close as int);
    }
    normalize_reference_label(as_str(slice(s, 1, close)))
}

/// A single-line reference definition: its normalised label and the line without trailing
/// whitespace.
pub fn extract_reference_definition_line(line: &[u8]) -> (r: Option<(String, String)>)
    requires
        valid_utf8(line@),
    ensures
        match spec_definition_label(line@) {
            None => r is None,
            Some(l) => r matches Some(p) && p.0@ == l && p.1@ == ws_trim_end(decode_utf8(line@)),
        },
{
    match extract_reference_definition_label(line) {
        None => None,
        Some(label) => {
            let s = as_str(line);
            Some((label, trim_end_str(s).to_owned()))
        },
    }
}

/// Labels used by reference-style links, scanning from `i`, in order: `[text][label]`,
/// `[label][]` and shortcut `[label]`; inline links, definitions and footnotes are skipped.
pub open spec fn usage_scan(t: Seq<u8>, i: int) -> Seq<Seq<char>>
    decreases t.len() - i,
{
    if i < 0 || i >= t.len() {
        Seq::empty()
    } else if t[i] != 91 {
        usage_scan(t, i + 1)
    } else {
        match find_byte(t, 93, i + 1) {
            None => Seq::empty(),
            Some(c1) => if c1 <= i || c1 >= t.len() {
                Seq::empty()
            } else {
                let label1 = t.subrange(i + 1, c1);
                let after: u8 = if c1 + 1 < t.len() {
                    t[c1 + 1]
                } else {
                    0
                };
                if (label1.len() > 0 && label1[0] == 94) || after == 40 || after == 58 {
                    usage_scan(t, c1 + 1)
                } else if after == 91 {
                    let s2 = c1 + 2;
                    if s2 >= t.len() {
                        Seq::empty()
                    } else {
                        match find_byte(t, 93, s2) {
                            None => Seq::empty(),
                            Some(c2) => if c2 < s2 || c2 >= t.len() {
                                Seq::empty()
                            } else {
                                let label2 = t.subrange(s2, c2);
                                let chosen = if bytes_blank(label2) {
                                    label1
                                } else {
                                    label2
                                };
                                let found = match spec_normalize_label(decode_utf8(chosen)) {
                                    Some(n) => seq![n],
                                    None => Seq::empty(),
                                };
                                found + usage_scan(t, c2 + 1)
                            },
                        }
                    }
                } else {
                    let found = match spec_normalize_label(decode_utf8(label1)) {
                        Some(n) => seq![n],
                        None => Seq::empty(),
                    };
                    found + usage_scan(t, c1 + 1)
                }
            },
        }
    }
}

pub open spec fn strings_view(v: Seq<String>) -> Seq<Seq<char>> {
    v.map_values(|s: String| s@)
}

fn push_normalized(out: &mut Vec<String>, label: &[u8])
    requires
        valid_utf8(label@),
    ensures
        strings_view(final(out)@) == strings_view(old(out)@) + match spec_normalize_label(
            decode_utf8(label@),
        ) {
            Some(n) => seq![n],
            None => Seq::<Seq<char>>::empty(),
        },
{
    let ghost pre = out@;
    match normalize_reference_label(as_str(label)) {
        Some(n) => {
            out.push(n);
            assert(strings_view(out@) =~= strings_view(pre) + seq![out@.last()@]);
        },
        None => {
            assert(strings_view(out@) =~= strings_view(pre) + Seq::<Seq<char>>::empty());
        },
    }
}

/// Labels used by reference-style links in `text`, each once, in order of first appearance.
pub fn extract_reference_usages(text: &[u8]) -> (r: Vec<String>)
    requires
        valid_utf8(text@),
    ensures
        strings_view(r@).no_duplicates(),
        forall|l: Seq<char>| strings_view(r@).contains(l) <==> usage_scan(text@, 0).contains(l),
{
    let all = reference_usages_in_order(text);
    let mut out: Vec<String> = Vec::new();
    let mut i: usize = 0;
    assert(strings_view(out@) =~= Seq::<Seq<char>>::empty());
    while i < all.len()
        invariant
            i <= all@.len(),
            strings_view(all@) == usage_scan(text@, 0),
            strings_view(out@).no_duplicates(),
            forall|l: Seq<char>| strings_view(out@).contains(l) <==> strings_view(all@).subrange(0, i as int).contains(l),
        decreases all@.len() - i,
    {
        let ghost prev = strings_view(out@);
        let ghost done = strings_view(all@).subrange(0, i as int);
        let x = all[i].as_str();
        assert(strings_view(all@).subrange(0, i + 1) =~= done.push(x@));
        if !contains_text(&out, x) {
            out.push(x.to_owned());
            assert(strings_view(out@) =~= prev.push(x@));
            assert forall|l: Seq<char>| strings_view(out@).contains(l) <==> done.push(x@).contains(l) by {
                if strings_view(out@).contains(l) {
                    let j = choose|j: int| 0 <= j < strings_view(out@).len() && strings_view(out@)[j] == l;
                    if j < prev.len() {
                        assert(prev[j] == l);
                        assert(prev.contains(l));
                        assert(done.contains(l));
                        let m = choose|m: int| 0 <= m < done.len() && done[m] == l;
                        assert(done.push(x@)[m] == l);
                    } else {
                        assert(done.push(x@)[done.len() as int] == l);
                    }
                }
                if done.push(x@).contains(l) {
                    let m = choose|m: int| 0 <= m < done.push(x@).len() && done.push(x@)[m] == l;
                    if m < done.len() {
                        assert(done[m] == l);
                        assert(prev.contains(l));
                        let j = choose|j: int| 0 <= j < prev.len() && prev[j] == l;
                        assert(strings_view(out@)[j] == l);
                    } else {
                        assert(strings_view(out@)[prev.len() as int] == l);
                    }
                }
            }
        } else {
            assert forall|l: Seq<char>| strings_view(out@).contains(l) <==> done.push(x@).contains(l) by {
                if done.push(x@).contains(l) {
                    let m = choose|m: int| 0 <= m < done.push(x@).len() && done.push(x@)[m] == l;
                    if m < done.len() {
                        assert(done[m] == l);
                        assert(done.contains(l));
                    }
                }
                if strings_view(out@).contains(l) {
                    assert(done.contains(l));
                    let m = choose|m: int| 0 <= m < done.len() && done[m] == l;
                    assert(done.push(x@)[m] == l);
                }
            }
        }
        i += 1;
    }
    assert(strings_view(all@).subrange(0, all@.len() as int) =~= strings_view(all@));
    out
}

/// Whether one of the strings reads `x`.
fn contains_text(v: &Vec<String>, x: &str) -> (r: bool)
    ensures
        r == strings_view(v@).contains(x@),
{
    let mut j: usize = 0;
    while j < v.len()
        invariant
            j <= v@.len(),
            forall|m: int| 0 <= m < j ==> strings_view(v@)[m] != x@,
        decreases v@.len() - j,
    {
        if crate::text::bytes_eq(v[j].as_str().as_bytes(), x.as_bytes()) {
            proof {
                encode_utf8_decode_utf8(v@[j as int]@);
                encode_utf8_decode_utf8(x@);
                assert(strings_view(v@)[j as int] == x@);
            }
            return true;
        }
        proof {
            assert(strings_view(v@)[j as int] != x@);
        }
        j += 1;
    }
    proof {
        if strings_view(v@).contains(x@) {
            let m = choose|m: int| 0 <= m < strings_view(v@).len() && strings_view(v@)[m] == x@;
            assert(false);
        }
    }
    false
}

/// Labels used by reference-style links in `text`, in order of appearance (repeats kept).
pub(crate) fn reference_usages_in_order(text: &[u8]) -> (r: Vec<String>)
    requires
        valid_utf8(text@),
    ensures
        strings_view(r@) == usage_scan(text@, 0),
{
    let n = text.len();
    let mut out: Vec<String> = Vec::new();
    let mut i: usize = 0;
    let ghost t = text@;
    while i < n
        invariant
            i <= n == t.len(),
            t == text@,
            valid_utf8(t),
            strings_view(out@) + usage_scan(t, i as int) == usage_scan(t, 0),
        decreases n - i,
    {
        if text[i] != 91 {
            i += 1;
            continue;
        }
        proof {
            lemma_find_byte(t, 93, i + 1);
        }
        let c1 = match find_byte_exec(text, 93, i + 1) {
            None => {
                assert(strings_view(out@) + Seq::<Seq<char>>::empty() =~= strings_view(out@));
                return out;
            },
            Some(c) => c,
        };
        proof {
            lemma_valid_slice(t, i + 1, c1 as int);
        }
        let label1 = slice(text, i + 1, c1);
        let after: u8 = if c1 + 1 < n {
            text[c1 + 1]
        } else {
            0
        };
        if (label1.len() > 0 && label1[0] == 94) || after == 40 || after == 58 {
            i = c1 + 1;
            continue;
        }
        if after == 91 {
            let s2 = c1 + 2;
            if s2 >= n {
                assert(strings_view(out@) + Seq::<Seq<char>>::empty() =~= strings_view(out@));
                return out;
            }
            proof {
                lemma_find_byte(t, 93, s2 as int);
            }
            let c2 = match find_byte_exec(text, 93, s2) {
                None => {
                    assert(strings_view(out@) + Seq::<Seq<char>>::empty() =~= strings_view(out@));
                    return out;
                },
                Some(c) => c,
            };
            proof {
                lemma_valid_slice(t, s2 as int, c2 as int);
            }
            let label2 = slice(text, s2, c2);
            let ghost before = strings_view(out@);
            if is_blank(label2) {
                push_normalized(&mut out, label1);
            } else {
                push_normalized(&mut out, label2);
            }
            assert(strings_view(out@) + usage_scan(t, c2 + 1) =~= before + (strings_view(out@).subrange(
                before.len() as int,
                strings_view(out@).len() as int,
            ) + usage_scan(t, c2 + 1)));
            i = c2 + 1;
            continue;
        }
        let ghost before = strings_view(out@);
        push_normalized(&mut out, label1);
        assert(strings_view(out@) + usage_scan(t, c1 + 1) =~= before + (strings_view(out@).subrange(
            before.len() as int,
            strings_view(out@).len() as int,
        ) + usage_scan(t, c1 + 1)));
        i = c1 + 1;
    }
    assert(strings_view(out@) + Seq::<Seq<char>>::empty() =~= strings_view(out@));
    out
}

} // verus!
