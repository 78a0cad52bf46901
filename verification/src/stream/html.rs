//! HTML block tracking: a best-effort stack of open tags and whether a comment is open.
use vstd::prelude::*;
use vstd::utf8::*;
use vstd::string::StringSliceAdditionalSpecFns;
use crate::stream::classify::sp_tab;
use crate::text::{
    ascii_alnum, ascii_alpha, bytes_eq, bytes_trim_end, find_byte, find_byte_exec, find_from,
    find_pat_from, is_ascii_alnum, is_ascii_alpha, lower_byte, matches_at, opt_int, slice,
    starts_with, string_push, strip3, strip_up_to_three_leading_spaces, trim_end,
};

verus! {

// Bytes used below: '\t' 9, ' ' 32, '!' 33, '-' 45, '/' 47, '<' 60, '>' 62, '_' 95.

/// The kinds of tag `parse_tag` recognises.
pub open spec fn tag_comment() -> int {
    0
}

pub open spec fn tag_opening() -> int {
    1
}

pub open spec fn tag_closing() -> int {
    2
}

/// Void elements that never have closing tags.
pub open spec fn spec_void(name: Seq<u8>) -> bool {
    name == seq![97u8, 114u8, 101u8, 97u8]
        || name == seq![98u8, 97u8, 115u8, 101u8]
        || name == seq![98u8, 114u8]
        || name == seq![99u8, 111u8, 108u8]
        || name == seq![101u8, 109u8, 98u8, 101u8, 100u8]
        || name == seq![104u8, 114u8]
        || name == seq![105u8, 109u8, 103u8]
        || name == seq![105u8, 110u8, 112u8, 117u8, 116u8]
        || name == seq![108u8, 105u8, 110u8, 107u8]
        || name == seq![109u8, 101u8, 116u8, 97u8]
        || name == seq![112u8, 97u8, 114u8, 97u8, 109u8]
        || name == seq![115u8, 111u8, 117u8, 114u8, 99u8, 101u8]
        || name == seq![116u8, 114u8, 97u8, 99u8, 107u8]
        || name == seq![119u8, 98u8, 114u8]
}

pub fn is_void_html_tag(name: &[u8]) -> (r: bool)
    ensures
        r == spec_void(name@),
{
    let area: &[u8] = &[97u8, 114u8, 101u8, 97u8];
    assert(area@ =~= seq![97u8, 114u8, 101u8, 97u8]);
    let base: &[u8] = &[98u8, 97u8, 115u8, 101u8];
    assert(base@ =~= seq![98u8, 97u8, 115u8, 101u8]);
    let br: &[u8] = &[98u8, 114u8];
    assert(br@ =~= seq![98u8, 114u8]);
    let col: &[u8] = &[99u8, 111u8, 108u8];
    assert(col@ =~= seq![99u8, 111u8, 108u8]);
    let embed: &[u8] = &[101u8, 109u8, 98u8, 101u8, 100u8];
    assert(embed@ =~= seq![101u8, 109u8, 98u8, 101u8, 100u8]);
    let hr: &[u8] = &[104u8, 114u8];
    assert(hr@ =~= seq![104u8, 114u8]);
    let img: &[u8] = &[105u8, 109u8, 103u8];
    assert(img@ =~= seq![105u8, 109u8, 103u8]);
    let input: &[u8] = &[105u8, 110u8, 112u8, 117u8, 116u8];
    assert(input@ =~= seq![105u8, 110u8, 112u8, 117u8, 116u8]);
    let link: &[u8] = &[108u8, 105u8, 110u8, 107u8];
    assert(link@ =~= seq![108u8, 105u8, 110u8, 107u8]);
    let meta: &[u8] = &[109u8, 101u8, 116u8, 97u8];
    assert(meta@ =~= seq![109u8, 101u8, 116u8, 97u8]);
    let param: &[u8] = &[112u8, 97u8, 114u8, 97u8, 109u8];
    assert(param@ =~= seq![112u8, 97u8, 114u8, 97u8, 109u8]);
    let source: &[u8] = &[115u8, 111u8, 117u8, 114u8, 99u8, 101u8];
    assert(source@ =~= seq![115u8, 111u8, 117u8, 114u8, 99u8, 101u8]);
    let track: &[u8] = &[116u8, 114u8, 97u8, 99u8, 107u8];
    assert(track@ =~= seq![116u8, 114u8, 97u8, 99u8, 107u8]);
    let wbr: &[u8] = &[119u8, 98u8, 114u8];
    assert(wbr@ =~= seq![119u8, 98u8, 114u8]);
    bytes_eq(name, area)
        || bytes_eq(name, base)
        || bytes_eq(name, br)
        || bytes_eq(name, col)
        || bytes_eq(name, embed)
        || bytes_eq(name, hr)
        || bytes_eq(name, img)
        || bytes_eq(name, input)
        || bytes_eq(name, link)
        || bytes_eq(name, meta)
        || bytes_eq(name, param)
        || bytes_eq(name, source)
        || bytes_eq(name, track)
        || bytes_eq(name, wbr)
}

/// Tag-name characters after the first: ASCII alphanumerics and `_`.
pub open spec fn tag_name_char(b: u8) -> bool {
    ascii_alnum(b) || b == 95
}

/// Length of the run of tag-name characters starting at `from`.
pub open spec fn name_run(s: Seq<u8>, from: int) -> int
    decreases s.len() - from,
{
    if from < 0 || from >= s.len() || !tag_name_char(s[from]) {
        0
    } else {
        1 + name_run(s, from + 1)
    }
}

proof fn lemma_name_run(s: Seq<u8>, from: int)
    requires
        0 <= from <= s.len(),
    ensures
        0 <= name_run(s, from) <= s.len() - from,
    decreases s.len() - from,
{
    if from < s.len() && tag_name_char(s[from]) {
        lemma_name_run(s, from + 1);
    }
}

/// Position after stepping back over spaces and tabs from `j`, not below `lo`.
pub open spec fn skip_back_sp_tab(s: Seq<u8>, j: int, lo: int) -> int
    decreases j - lo,
{
    if j > lo && j - 1 < s.len() && sp_tab(s[j - 1]) {
        skip_back_sp_tab(s, j - 1, lo)
    } else {
        j
    }
}

/// ASCII-lowercased bytes as characters.
pub open spec fn lower_chars(b: Seq<u8>) -> Seq<char> {
    b.map_values(|x: u8| lower_byte(x) as char)
}

/// A tag at the start of `s`: its kind, lowercased name, whether it closes itself, and the offset
/// of the text after it.
pub open spec fn parse_tag(s: Seq<u8>) -> Option<(int, Seq<u8>, bool, int)> {
    if s.len() == 0 || s[0] != 60 {
        None
    } else if matches_at(s, 0, seq![60u8, 33u8, 45u8, 45u8]) {
        Some((tag_comment(), Seq::empty(), false, 4))
    } else if s.len() < 2 {
        None
    } else {
        let closing = s[1] == 47;
        let i: int = if closing {
            2
        } else {
            1
        };
        if i >= s.len() || !ascii_alpha(s[i]) {
            None
        } else {
            let ne = i + 1 + name_run(s, i + 1);
            let next: u8 = if ne < s.len() {
                s[ne]
            } else {
                0
            };
            if !(next == 32 || next == 9 || next == 62 || next == 47) {
                None
            } else {
                match find_byte(s, 62, ne) {
                    None => None,
                    Some(close) => {
                        let name = s.subrange(i, ne).map_values(|x: u8| lower_byte(x));
                        if closing {
                            Some((tag_closing(), name, false, close + 1))
                        } else {
                            let j = skip_back_sp_tab(s, close, ne);
                            Some(
                                (
                                    tag_opening(),
                                    name,
                                    (j > ne && s[j - 1] == 47) || spec_void(name),
                                    close + 1,
                                ),
                            )
                        }
                    },
                }
            }
        }
    }
}

pub proof fn lemma_parse_tag(s: Seq<u8>)
    ensures
        parse_tag(s) matches Some((k, n, c, rest)) ==> 1 <= rest <= s.len(),
{
    if s.len() >= 2 && s[0] == 60 && !matches_at(s, 0, seq![60u8, 33u8, 45u8, 45u8]) {
        let closing = s[1] == 47;
        let i: int = if closing {
            2
        } else {
            1
        };
        if i < s.len() {
            lemma_name_run(s, i + 1);
            let ne = i + 1 + name_run(s, i + 1);
            crate::text::lemma_find_byte(s, 62, ne);
        }
    }
}

/// What a parsed tag does to the stack and the comment flag.
pub open spec fn apply_tag(
    kind: int,
    name: Seq<u8>,
    self_closing: bool,
    rest: Seq<u8>,
    stack: Seq<Seq<char>>,
    in_comment: bool,
) -> (Seq<Seq<char>>, bool) {
    if kind == tag_comment() {
        (stack, if find_from(rest, seq![45u8, 45u8, 62u8], 0) is None {
            true
        } else {
            in_comment
        })
    } else if kind == tag_opening() {
        (if self_closing {
            stack
        } else {
            stack.push(lower_chars(name))
        }, in_comment)
    } else {
        (if stack.len() > 0 && stack.last() == lower_chars(name) {
            stack.drop_last()
        } else {
            stack
        }, in_comment)
    }
}

/// Scan a line from `pos`: inside a comment look for `-->`; otherwise apply each tag found.
pub open spec fn html_scan(line: Seq<u8>, pos: int, stack: Seq<Seq<char>>, in_comment: bool) -> (
    Seq<Seq<char>>,
    bool,
)
    decreases line.len() - pos,
{
    if pos < 0 || pos > line.len() {
        (stack, in_comment)
    } else if in_comment {
        match find_from(line, seq![45u8, 45u8, 62u8], pos) {
            None => (stack, true),
            Some(p) => if p + 3 > pos && p + 3 <= line.len() {
                html_scan(line, p + 3, stack, false)
            } else {
                (stack, false)
            },
        }
    } else {
        match find_byte(line, 60, pos) {
            None => (stack, false),
            Some(lt) => if lt < pos || lt >= line.len() {
                (stack, false)
            } else {
                match parse_tag(line.subrange(lt, line.len() as int)) {
                    None => html_scan(line, lt + 1, stack, false),
                    Some((kind, name, sc, rest)) => if rest >= 1 && lt + rest <= line.len() {
                        let (st2, ic2) = apply_tag(
                            kind,
                            name,
                            sc,
                            line.subrange(lt + rest, line.len() as int),
                            stack,
                            false,
                        );
                        html_scan(line, lt + rest, st2, ic2)
                    } else {
                        (stack, false)
                    },
                }
            },
        }
    }
}

proof fn lemma_name_run_exact(s: Seq<u8>, from: int, end: int)
    requires
        0 <= from <= end < s.len(),
        forall|t: int| from <= t < end ==> tag_name_char(#[trigger] s[t]),
        !tag_name_char(s[end]),
    ensures
        name_run(s, from) == end - from,
    decreases end - from,
{
    if from < end {
        lemma_name_run_exact(s, from + 1, end);
    }
}

/// HTML tag tracking on a line outside a comment: a line `<name>` (a name of letters, digits
/// and `_`, starting with a letter, naming no void element), followed by text without `<`,
/// opens that element (its name, lowercased, goes on the stack); a line `</name>` followed by
/// text without `<` closes it when it is the innermost open element.
pub proof fn law_html_tags_open_and_close(stack: Seq<Seq<char>>, name: Seq<u8>, rest: Seq<u8>)
    requires
        name.len() > 0,
        ascii_alpha(name[0]),
        forall|k: int| 0 <= k < name.len() ==> tag_name_char(#[trigger] name[k]),
        forall|k: int| 0 <= k < rest.len() ==> #[trigger] rest[k] != 60,
    ensures
        !spec_void(name.map_values(|x: u8| lower_byte(x))) ==> html_scan(
            seq![60u8] + name + seq![62u8] + rest,
            0,
            stack,
            false,
        ) == (stack.push(lower_chars(name)), false),
        stack.len() > 0 && stack.last() == lower_chars(name) ==> html_scan(
            seq![60u8, 47u8] + name + seq![62u8] + rest,
            0,
            stack,
            false,
        ) == (stack.drop_last(), false),
{
    let low = name.map_values(|x: u8| lower_byte(x));
    assert(lower_chars(low) =~= lower_chars(name));
    let n = name.len() as int;
    // Opening tag.
    let l1 = seq![60u8] + name + seq![62u8] + rest;
    assert(l1[0] == 60u8);
    assert(l1[1] == name[0]);
    assert(l1[1 + n] == 62u8);
    crate::text::lemma_find_byte_at(l1, 60, 0, 0);
    assert(l1.subrange(0, l1.len() as int) =~= l1);
    assert(!matches_at(l1, 0, seq![60u8, 33u8, 45u8, 45u8])) by {
        if matches_at(l1, 0, seq![60u8, 33u8, 45u8, 45u8]) {
            assert(l1.subrange(0, 4)[1] == l1[1]);
        }
    }
    assert forall|t: int| 2 <= t < 1 + n implies tag_name_char(#[trigger] l1[t]) by {
        assert(l1[t] == name[t - 1]);
    }
    lemma_name_run_exact(l1, 2, 1 + n);
    crate::text::lemma_find_byte_at(l1, 62, 1 + n, 1 + n);
    assert(l1.subrange(1, 1 + n) =~= name);
    assert forall|t: int| 2 + n <= t < l1.len() implies l1[t] != 60 by {
        assert(l1[t] == rest[t - 2 - n]);
    }
    crate::text::lemma_find_byte_none(l1, 60, 2 + n);
    assert(skip_back_sp_tab(l1, 1 + n, 1 + n) == 1 + n);
    assert(l1.subrange(1, 1 + n).map_values(|x: u8| lower_byte(x)) =~= low);
    assert(parse_tag(l1) == Some((tag_opening(), low, spec_void(low), n + 2)));
    if !spec_void(low) {
        let st2 = stack.push(lower_chars(low));
        assert(apply_tag(tag_opening(), low, false, l1.subrange(n + 2, l1.len() as int), stack, false) == (
            st2,
            false,
        ));
        assert(html_scan(l1, n + 2, st2, false) == (st2, false));
        assert(html_scan(l1, 0, stack, false) == html_scan(l1, n + 2, st2, false));
    }
    // Closing tag.
    let l2 = seq![60u8, 47u8] + name + seq![62u8] + rest;
    assert(l2[0] == 60u8);
    assert(l2[1] == 47u8);
    assert(l2[2] == name[0]);
    assert(l2[2 + n] == 62u8);
    crate::text::lemma_find_byte_at(l2, 60, 0, 0);
    assert(l2.subrange(0, l2.len() as int) =~= l2);
    assert(!matches_at(l2, 0, seq![60u8, 33u8, 45u8, 45u8])) by {
        if matches_at(l2, 0, seq![60u8, 33u8, 45u8, 45u8]) {
            assert(l2.subrange(0, 4)[1] == l2[1]);
        }
    }
    assert forall|t: int| 3 <= t < 2 + n implies tag_name_char(#[trigger] l2[t]) by {
        assert(l2[t] == name[t - 2]);
    }
    lemma_name_run_exact(l2, 3, 2 + n);
    crate::text::lemma_find_byte_at(l2, 62, 2 + n, 2 + n);
    assert(l2.subrange(2, 2 + n) =~= name);
    assert forall|t: int| 3 + n <= t < l2.len() implies l2[t] != 60 by {
        assert(l2[t] == rest[t - 3 - n]);
    }
    crate::text::lemma_find_byte_none(l2, 60, 3 + n);
    assert(l2.subrange(2, 2 + n).map_values(|x: u8| lower_byte(x)) =~= low);
    assert(parse_tag(l2) == Some((tag_closing(), low, false, n + 3)));
    if stack.len() > 0 && stack.last() == lower_chars(name) {
        let st2 = stack.drop_last();
        assert(apply_tag(tag_closing(), low, false, l2.subrange(n + 3, l2.len() as int), stack, false) == (
            st2,
            false,
        ));
        assert(html_scan(l2, n + 3, st2, false) == (st2, false));
        assert(html_scan(l2, 0, stack, false) == html_scan(l2, n + 3, st2, false));
    }
}

pub struct ParsedTag {
    pub kind: u8,
    pub name: Vec<u8>,
    pub self_closing: bool,
    pub rest: usize,
}

fn skip_back(s: &[u8], j: usize, lo: usize) -> (r: usize)
    requires
        lo <= j <= s@.len(),
    ensures
        r == skip_back_sp_tab(s@, j as int, lo as int),
        lo <= r <= j,
{
    let mut k = j;
    while k > lo && (s[k - 1] == 32 || s[k - 1] == 9)
        invariant
            lo <= k <= j <= s@.len(),
            skip_back_sp_tab(s@, j as int, lo as int) == skip_back_sp_tab(s@, k as int, lo as int),
        decreases k,
    {
        k -= 1;
    }
    k
}

/// Parse a tag at the start of `s`.
pub fn parse_tag_at(s: &[u8]) -> (r: Option<ParsedTag>)
    ensures
        match r {
            None => parse_tag(s@) is None,
            Some(t) => parse_tag(s@) == Some((t.kind as int, t.name@, t.self_closing, t.rest as int)),
        },
{
    let n = s.len();
    if n == 0 || s[0] != 60 {
        return None;
    }
    let comment: &[u8] = &[60u8, 33u8, 45u8, 45u8];
    assert(comment@ =~= seq![60u8, 33u8, 45u8, 45u8]);
    if starts_with(s, comment) {
        return Some(ParsedTag { kind: 0, name: Vec::new(), self_closing: false, rest: 4 });
    }
    if n < 2 {
        return None;
    }
    let closing = s[1] == 47;
    let i: usize = if closing {
        2
    } else {
        1
    };
    if i >= n || !is_ascii_alpha(s[i]) {
        return None;
    }
    proof {
        lemma_name_run(s@, i + 1);
    }
    let mut ne = i + 1;
    while ne < n && (is_ascii_alnum(s[ne]) || s[ne] == 95)
        invariant
            i + 1 <= ne <= n == s@.len(),
            name_run(s@, i + 1) == (ne - i - 1) + name_run(s@, ne as int),
        decreases n - ne,
    {
        ne += 1;
    }
    let next: u8 = if ne < n {
        s[ne]
    } else {
        0
    };
    if !(next == 32 || next == 9 || next == 62 || next == 47) {
        return None;
    }
    proof {
        crate::text::lemma_find_byte(s@, 62, ne as int);
    }
    let close = match find_byte_exec(s, 62, ne) {
        None => return None,
        Some(c) => c,
    };
    let mut name: Vec<u8> = Vec::new();
    let mut k = i;
    while k < ne
        invariant
            i <= k <= ne <= n == s@.len(),
            name@ == s@.subrange(i as int, k as int).map_values(|x: u8| lower_byte(x)),
        decreases ne - k,
    {
        let b = s[k];
        let lb = if 65 <= b && b <= 90 {
            b + 32
        } else {
            b
        };
        name.push(lb);
        assert(s@.subrange(i as int, k + 1).map_values(|x: u8| lower_byte(x)) =~= s@.subrange(
            i as int,
            k as int,
        ).map_values(|x: u8| lower_byte(x)).push(lower_byte(b)));
        k += 1;
    }
    if closing {
        return Some(ParsedTag { kind: 2, name, self_closing: false, rest: close + 1 });
    }
    let j = skip_back(s, close, ne);
    let sc = (j > ne && s[j - 1] == 47) || is_void_html_tag(&name);
    Some(ParsedTag { kind: 1, name, self_closing: sc, rest: close + 1 })
}

/// The lowercased ASCII name as a string.
fn name_string(name: &[u8]) -> (r: String)
    ensures
        r@ == lower_chars(name@),
{
    let mut out = String::new();
    let mut k: usize = 0;
    while k < name.len()
        invariant
            k <= name@.len(),
            out@ == lower_chars(name@.subrange(0, k as int)),
        decreases name@.len() - k,
    {
        let b = name[k];
        let lb = if 65 <= b && b <= 90 {
            b + 32
        } else {
            b
        };
        string_push(&mut out, lb as char);
        assert(lower_chars(name@.subrange(0, k + 1)) =~= lower_chars(name@.subrange(0, k as int)).push(
            lower_byte(b) as char,
        ));
        k += 1;
    }
    assert(name@.subrange(0, k as int) =~= name@);
    out
}

pub open spec fn stack_view(stack: Seq<String>) -> Seq<Seq<char>> {
    stack.map_values(|s: String| s@)
}

/// Track the HTML tag stack and comment state across one line.
pub fn update_html_block_state(line: &str, stack: &mut Vec<String>, in_comment: &mut bool)
    ensures
        (stack_view(final(stack)@), *final(in_comment)) == html_scan(
            line.spec_bytes(),
            0,
            stack_view(old(stack)@),
            *old(in_comment),
        ),
{
    let b = line.as_bytes();
    html_state_bytes(b, stack, in_comment)
}

pub fn html_state_bytes(b: &[u8], stack: &mut Vec<String>, in_comment: &mut bool)
    ensures
        (stack_view(final(stack)@), *final(in_comment)) == html_scan(
            b@,
            0,
            stack_view(old(stack)@),
            *old(in_comment),
        ),
{
    let n = b.len();
    let close: &[u8] = &[45u8, 45u8, 62u8];
    assert(close@ =~= seq![45u8, 45u8, 62u8]);
    let ghost target = html_scan(b@, 0, stack_view(stack@), *in_comment);
    let mut pos: usize = 0;
    loop
        invariant
            pos <= n == b@.len(),
            close@ == seq![45u8, 45u8, 62u8],
            html_scan(b@, pos as int, stack_view(stack@), *in_comment) == target,
            target == html_scan(b@, 0, stack_view(old(stack)@), *old(in_comment)),
        decreases n - pos,
    {
        if *in_comment {
            match find_pat_from(b, close, pos) {
                None => {
                    assert(html_scan(b@, pos as int, stack_view(stack@), *in_comment) == (
                    stack_view(stack@), true));
                    return ;
                },
                Some(p) => {
                    *in_comment = false;
                    pos = p + 3;
                },
            }
        } else {
            proof {
                crate::text::lemma_find_byte(b@, 60, pos as int);
            }
            let lt = match find_byte_exec(b, 60, pos) {
                None => {
                    assert(html_scan(b@, pos as int, stack_view(stack@), *in_comment) == (
                    stack_view(stack@), false));
                    return ;
                },
                Some(lt) => lt,
            };
            let after = slice(b, lt, n);
            proof {
                lemma_parse_tag(after@);
            }
            match parse_tag_at(after) {
                None => {
                    pos = lt + 1;
                },
                Some(t) => {
                    let rest = slice(b, lt + t.rest, n);
                    if t.kind == 0 {
                        if find_pat_from(rest, close, 0).is_none() {
                            *in_comment = true;
                        }
                    } else if t.kind == 1 {
                        if !t.self_closing {
                            let nm = name_string(&t.name);
                            let ghost pre = stack@;
                            stack.push(nm);
                            assert(stack_view(stack@) =~= stack_view(pre).push(
                                lower_chars(t.name@),
                            ));
                        }
                    } else {
                        let nm = name_string(&t.name);
                        let sl = stack.len();
                        let ghost pre = stack@;
                        if sl > 0 && stack[sl - 1] == nm {
                            stack.pop();
                            assert(stack_view(stack@) =~= stack_view(pre).drop_last());
                        }
                    }
                    pos = lt + t.rest;
                },
            }
        }
    }
}

/// HTML block start: after up to three spaces and with trailing whitespace dropped, a line of at
/// least three bytes that begins with a tag.
pub open spec fn spec_html_block_start(line: Seq<u8>) -> bool {
    let s = bytes_trim_end(strip3(line));
    s.len() >= 3 && s[0] == 60 && parse_tag(s) is Some
}

pub fn html_block_start(line: &[u8]) -> (r: bool)
    requires
        valid_utf8(line@),
    ensures
        r == spec_html_block_start(line@),
{
    let s = strip_up_to_three_leading_spaces(line);
    proof {
        crate::text::lemma_valid_slice(line@, crate::text::strip3_len(line@), line@.len() as int);
    }
    let t = trim_end(s);
    t.len() >= 3 && t[0] == 60 && parse_tag_at(t).is_some()
}

} // verus!
