//! Boundary plugins: custom container blocks that keep the stream inside them until closed.
use vstd::prelude::*;
use vstd::utf8::*;
use vstd::string::StringSliceAdditionalSpecFns;
use crate::stream::classify::{trim_sp_tab_end, trim_sp_tab_end_exec};
use crate::text::{
    ascii_alnum, ascii_alpha, ascii_lower, bytes_blank, bytes_eq, bytes_trim, bytes_trim_end,
    bytes_trim_start, find_byte, find_byte_exec, is_ascii_alnum, is_ascii_alpha, is_blank, is_cut,
    lemma_encode_valid, lemma_find_byte, lemma_valid_slice, lemma_valid_subrange, matches_at,
    run_len, run_len_exec, slice, starts_with, strip3, strip3_len, strip_up_to_three_leading_spaces,
    to_ascii_lower, trim, trim_end, trim_start,
};

verus! {

broadcast use vstd::string::group_string_axioms;

#[derive(Debug, Clone, Copy, PartialEq, Eq, Structural)]
pub enum BoundaryUpdate {
    Continue,
    Close,
}

/// Participate in line-scoped context updates and stable boundary detection.
///
/// A boundary plugin can claim that a line starts a custom "container-like" block and then keep
/// the stream inside that block until it decides the block is closed.
pub trait BoundaryPlugin: Send {
    /// Pure predicate: return `true` if `line` can start this custom block.
    fn matches_start(&self, line: &str) -> (r: bool)
        ensures
            self.may_start(line@, r),
    ;

    /// `r` is an answer this plugin may give to whether a line with this text starts its block
    /// (nothing is said of a plugin that does not define it).
    open spec fn may_start(&self, line: Seq<char>, r: bool) -> bool {
        true
    }

    /// Called exactly once when the current block is determined to start at `line`.
    fn start(&mut self, line: &str);

    /// Called for each line in the block (including the starting line) while this plugin is
    /// active. Return `BoundaryUpdate::Close` to close the block at the end of this line.
    fn update(&mut self, line: &str) -> (r: BoundaryUpdate)
        ensures
            old(self).may_update(line@, r),
    ;

    /// `r` is an answer this plugin, as it stands, may give for a line with this text inside its
    /// block (nothing is said of a plugin that does not define it).
    open spec fn may_update(&self, line: Seq<char>, r: BoundaryUpdate) -> bool {
        true
    }

    fn reset(&mut self) {
    }
}

/// A boundary plugin as a stream holds it, in the order plugins are asked.
pub struct PluginEntry(pub Box<dyn BoundaryPlugin>);

impl PluginEntry {
    /// `r` is an answer the held plugin may give to whether a line with this text starts its
    /// block.
    pub open spec fn may_start(&self, line: Seq<char>, r: bool) -> bool {
        self.0.may_start(line, r)
    }

    /// `r` is an answer the held plugin, as it stands, may give for a line inside its block.
    pub open spec fn may_update(&self, line: Seq<char>, r: BoundaryUpdate) -> bool {
        self.0.may_update(line, r)
    }

    /// The entry holding `p`: it answers as `p` does.
    pub fn holding<T: BoundaryPlugin + 'static>(p: T) -> (e: PluginEntry)
        ensures
            forall|l: Seq<char>, a: bool| #[trigger] e.may_start(l, a) == p.may_start(l, a),
            forall|l: Seq<char>, u: BoundaryUpdate| #[trigger] e.may_update(l, u) == p.may_update(l, u),
    {
        PluginEntry(Box::new(InstalledPlugin(p)))
    }

    pub fn matches_start(&self, line: &str) -> (r: bool)
        ensures
            self.may_start(line@, r),
    {
        self.0.matches_start(line)
    }

    pub fn start(&mut self, line: &str) {
        self.0.start(line)
    }

    pub fn update(&mut self, line: &str) -> (r: BoundaryUpdate)
        ensures
            old(self).may_update(line@, r),
    {
        self.0.update(line)
    }

    pub fn reset(&mut self) {
        self.0.reset()
    }
}

/// A plugin as installed in a stream: it answers, starts and resets as the plugin it holds does.
pub struct InstalledPlugin<T>(pub T);

impl<T: BoundaryPlugin> BoundaryPlugin for InstalledPlugin<T> {
    fn matches_start(&self, line: &str) -> (r: bool) {
        self.0.matches_start(line)
    }

    open spec fn may_start(&self, line: Seq<char>, r: bool) -> bool {
        self.0.may_start(line, r)
    }

    fn start(&mut self, line: &str) {
        self.0.start(line)
    }

    fn update(&mut self, line: &str) -> (r: BoundaryUpdate) {
        self.0.update(line)
    }

    open spec fn may_update(&self, line: Seq<char>, r: BoundaryUpdate) -> bool {
        self.0.may_update(line, r)
    }

    fn reset(&mut self) {
        self.0.reset()
    }
}

/// Whether the bytes from `k` on are blank, or `false` where `k` splits a character.
pub open spec fn blank_from(s: Seq<u8>, k: int) -> bool {
    is_cut(s, k) && bytes_blank(s.subrange(k, s.len() as int))
}

fn blank_from_exec(s: &[u8], k: usize) -> (r: bool)
    requires
        valid_utf8(s@),
        k <= s@.len(),
    ensures
        r == blank_from(s@, k as int),
{
    if !(k == 0 || k == s.len() || !(0x80 <= s[k] && s[k] <= 0xbf)) {
        return false;
    }
    proof {
        lemma_valid_subrange(s@, k as int, s@.len() as int);
    }
    is_blank(slice(s, k, s.len()))
}

// ---------------------------------------------------------------------------------------------
// Fence-like containers (`:::warning` ... `:::`).
// ---------------------------------------------------------------------------------------------

/// A simple fence-like container plugin.
///
/// - Start: `fence_char` repeated `>= min_len` at the beginning of a line (after up to 3 spaces).
/// - End: `fence_char` repeated `>= opened_len` and (when `require_standalone_end`) nothing else
///   on the line besides whitespace.
#[derive(Debug, Clone)]
pub struct FenceBoundaryPlugin {
    pub fence_char: char,
    pub min_len: usize,
    pub require_standalone_end: bool,
    opened_len: Option<usize>,
    just_started: bool,
}

/// Fence characters at the start of a line, after up to three spaces.
pub open spec fn fence_run(line: Seq<u8>, ch: u8) -> int {
    run_len(strip3(line), ch, 0)
}

/// A closing fence line for a fence opened with `opened` characters.
pub open spec fn fence_end_line(line: Seq<u8>, ch: u8, opened: int, standalone: bool) -> bool {
    let s = trim_sp_tab_end(strip3(line));
    let len = run_len(s, ch, 0);
    len >= opened && (!standalone || blank_from(s, len))
}

impl FenceBoundaryPlugin {
    pub fn new(fence_char: char, min_len: usize) -> (r: Self)
        ensures
            r.ch() == fence_char,
            r.min() == min_len,
            r.standalone(),
            r.opened() is None,
            !r.just_started(),
    {
        FenceBoundaryPlugin {
            fence_char,
            min_len,
            require_standalone_end: true,
            opened_len: None,
            just_started: false,
        }
    }

    pub closed spec fn ch(&self) -> char {
        self.fence_char
    }

    pub closed spec fn min(&self) -> usize {
        self.min_len
    }

    pub closed spec fn standalone(&self) -> bool {
        self.require_standalone_end
    }

    pub closed spec fn opened(&self) -> Option<usize> {
        self.opened_len
    }

    pub closed spec fn just_started(&self) -> bool {
        self.just_started
    }

    pub closed spec fn marker(&self) -> u8 {
        self.fence_char as u8
    }

    pub fn triple_colon() -> (r: Self)
        ensures
            r.ch() == ':',
            r.min() == 3,
            r.standalone(),
            r.opened() is None,
            !r.just_started(),
    {
        Self::new(':', 3)
    }

    fn fence_len_at_start(&self, line: &[u8]) -> (r: usize)
        ensures
            r == fence_run(line@, self.marker()),
    {
        let s = strip_up_to_three_leading_spaces(line);
        run_len_exec(s, self.fence_char as u8, 0)
    }

    fn is_end_line(&self, line: &[u8], opened_len: usize) -> (r: bool)
        requires
            valid_utf8(line@),
        ensures
            r == fence_end_line(line@, self.marker(), opened_len as int, self.standalone()),
    {
        let s0 = strip_up_to_three_leading_spaces(line);
        let s = trim_sp_tab_end_exec(s0);
        proof {
            lemma_valid_slice(line@, strip3_len(line@), line@.len() as int);
            lemma_trim_sp_tab_end_valid(s0@);
        }
        let len = run_len_exec(s, self.fence_char as u8, 0);
        if len < opened_len {
            return false;
        }
        if !self.require_standalone_end {
            return true;
        }
        blank_from_exec(s, len)
    }

    /// Whether `line` opens this container.
    pub fn matches(&self, line: &str) -> (r: bool)
        ensures
            fence_matches_post(*self, line, r),
    {
        self.fence_len_at_start(line.as_bytes()) >= self.min_len
    }

    /// Open the container at `line`.
    pub fn begin(&mut self, line: &str)
        ensures
            fence_begin_post(*old(self), *final(self), line),
    {
        let len = self.fence_len_at_start(line.as_bytes());
        if len >= self.min_len {
            self.opened_len = Some(len);
            self.just_started = true;
        } else {
            self.opened_len = None;
            self.just_started = false;
        }
    }

    /// Feed one line of the container.
    pub fn step(&mut self, line: &str) -> (r: BoundaryUpdate)
        ensures
            fence_step_post(*old(self), *final(self), line, r),
    {
        let opened = match self.opened_len {
            None => return BoundaryUpdate::Continue,
            Some(o) => o,
        };
        if self.just_started {
            self.just_started = false;
            return BoundaryUpdate::Continue;
        }
        proof {
            lemma_encode_valid(line@);
        }
        if self.is_end_line(line.as_bytes(), opened) {
            self.opened_len = None;
            return BoundaryUpdate::Close;
        }
        BoundaryUpdate::Continue
    }

    /// Forget any open container.
    pub fn clear(&mut self)
        ensures
            fence_clear_post(*old(self), *final(self)),
    {
        self.opened_len = None;
        self.just_started = false;
    }
}

pub proof fn lemma_trim_sp_tab_end_valid(b: Seq<u8>)
    requires
        valid_utf8(b),
    ensures
        valid_utf8(trim_sp_tab_end(b)),
        trim_sp_tab_end(b).len() <= b.len(),
        trim_sp_tab_end(b) == b.subrange(0, trim_sp_tab_end(b).len() as int),
    decreases b.len(),
{
    if b.len() > 0 && (b[b.len() - 1] == 32 || b[b.len() - 1] == 9) {
        let p = b.subrange(0, b.len() - 1);
        lemma_valid_slice(b, 0, b.len() - 1);
        lemma_trim_sp_tab_end_valid(p);
        assert(p.subrange(0, trim_sp_tab_end(p).len() as int) =~= b.subrange(
            0,
            trim_sp_tab_end(p).len() as int,
        ));
    } else {
        assert(b.subrange(0, b.len() as int) =~= b);
    }
}

impl Default for FenceBoundaryPlugin {
    fn default() -> (r: Self)
        ensures
            r.ch() == ':',
            r.min() == 3,
            r.standalone(),
            r.opened() is None,
            !r.just_started(),
    {
        Self::triple_colon()
    }
}

/// What the methods of `FenceBoundaryPlugin` do, as relations between the plugin before and after.
pub open spec fn fence_matches_post(pre: FenceBoundaryPlugin, line: &str, r: bool) -> bool {
    &&& (r == (fence_run(line.spec_bytes(), pre.marker()) >= pre.min()))
}

pub open spec fn fence_begin_post(pre: FenceBoundaryPlugin, post: FenceBoundaryPlugin, line: &str) -> bool {
    &&& (post.ch() == pre.ch())
    &&& (post.min() == pre.min())
    &&& (post.standalone() == pre.standalone())
    &&& (fence_run(line.spec_bytes(), pre.marker()) >= pre.min() ==> post.opened() == Some(fence_run(line.spec_bytes(), pre.marker()) as usize) && post.just_started())
    &&& (fence_run(line.spec_bytes(), pre.marker()) < pre.min() ==> post.opened() is None && !post.just_started())
}

pub open spec fn fence_step_post(pre: FenceBoundaryPlugin, post: FenceBoundaryPlugin, line: &str, r: BoundaryUpdate) -> bool {
    &&& (post.ch() == pre.ch())
    &&& (post.min() == pre.min())
    &&& (post.standalone() == pre.standalone())
    &&& (match pre.opened() {
        None => r == BoundaryUpdate::Continue && post.opened() is None
            && post.just_started() == pre.just_started(),
        Some(o) => if pre.just_started() {
            r == BoundaryUpdate::Continue && post.opened() == Some(o)
                && !post.just_started()
        } else if fence_end_line(
            line.spec_bytes(),
            pre.marker(),
            o as int,
            pre.standalone(),
        ) {
            r == BoundaryUpdate::Close && post.opened() is None
                && !post.just_started()
        } else {
            r == BoundaryUpdate::Continue && post.opened() == Some(o)
                && !post.just_started()
        },
    })
}

pub open spec fn fence_clear_post(pre: FenceBoundaryPlugin, post: FenceBoundaryPlugin) -> bool {
    &&& (post.ch() == pre.ch())
    &&& (post.min() == pre.min())
    &&& (post.standalone() == pre.standalone())
    &&& (post.opened() is None)
    &&& (!post.just_started())
}

impl BoundaryPlugin for FenceBoundaryPlugin {
    open spec fn may_update(&self, line: Seq<char>, r: BoundaryUpdate) -> bool {
        exists|l: &str, post: FenceBoundaryPlugin| #![trigger fence_step_post(*self, post, l, r)] l@ == line && fence_step_post(*self, post, l, r)
    }

    open spec fn may_start(&self, line: Seq<char>, r: bool) -> bool {
        exists|l: &str| #![trigger fence_matches_post(*self, l, r)] l@ == line && fence_matches_post(*self, l, r)
    }

    fn matches_start(&self, line: &str) -> (r: bool)
        ensures
            fence_matches_post(*self, line, r),
    {
        self.matches(line)
    }

    fn start(&mut self, line: &str)
        ensures
            fence_begin_post(*old(self), *final(self), line),
    {
        self.begin(line)
    }

    fn update(&mut self, line: &str) -> (r: BoundaryUpdate)
        ensures
            fence_step_post(*old(self), *final(self), line, r),
    {
        self.step(line)
    }

    fn reset(&mut self)
        ensures
            fence_clear_post(*old(self), *final(self)),
    {
        self.clear()
    }
}


// ---------------------------------------------------------------------------------------------
// Paired tags (`<thinking>` ... `</thinking>`).
// ---------------------------------------------------------------------------------------------

/// A paired-tag container plugin.
///
/// - Start must be at the beginning of a line (after up to 3 spaces), a complete opening tag.
/// - End must be a standalone closing tag line (after up to 3 spaces), unless
///   `require_standalone_end` is `false`.
#[derive(Debug, Clone)]
pub struct TagBoundaryPlugin {
    pub tag: String,
    pub case_insensitive: bool,
    pub allow_attributes: bool,
    pub require_standalone_end: bool,
    active: bool,
}

/// Tag-name characters after the first: ASCII alphanumerics, `-`, `_` and `:`.
pub open spec fn custom_tag_char(b: u8) -> bool {
    ascii_alnum(b) || b == 45 || b == 95 || b == 58
}

pub open spec fn custom_tag_run(s: Seq<u8>, from: int) -> int
    decreases s.len() - from,
{
    if from < 0 || from >= s.len() || !custom_tag_char(s[from]) {
        0
    } else {
        1 + custom_tag_run(s, from + 1)
    }
}

pub proof fn lemma_custom_tag_run(s: Seq<u8>, from: int)
    requires
        0 <= from <= s.len(),
    ensures
        0 <= custom_tag_run(s, from) <= s.len() - from,
        forall|k: int| from <= k < from + custom_tag_run(s, from) ==> s[k] < 128,
    decreases s.len() - from,
{
    if from < s.len() && custom_tag_char(s[from]) {
        lemma_custom_tag_run(s, from + 1);
    }
}

pub fn custom_tag_run_exec(s: &[u8], from: usize) -> (r: usize)
    requires
        from <= s@.len(),
    ensures
        r == custom_tag_run(s@, from as int),
        from + r <= s@.len(),
{
    proof {
        lemma_custom_tag_run(s@, from as int);
    }
    let mut i = from;
    while i < s.len() && (is_ascii_alnum(s[i]) || s[i] == 45 || s[i] == 95 || s[i] == 58)
        invariant
            from <= i <= s@.len(),
            custom_tag_run(s@, from as int) == (i - from) + custom_tag_run(s@, i as int),
        decreases s@.len() - i,
    {
        i += 1;
    }
    i - from
}

/// The name as compared: ASCII-lowercased when matching is case-insensitive.
pub open spec fn norm_name(b: Seq<u8>, ci: bool) -> Seq<u8> {
    if ci {
        ascii_lower(b)
    } else {
        b
    }
}

pub fn norm_name_exec(b: &[u8], ci: bool) -> (r: Vec<u8>)
    ensures
        r@ == norm_name(b@, ci),
{
    if ci {
        to_ascii_lower(b)
    } else {
        crate::text::to_vec(b)
    }
}

/// An opening tag line for `tag`.
pub open spec fn opening_tag_line(line: Seq<u8>, tag: Seq<u8>, ci: bool, attrs: bool) -> bool {
    let s = bytes_trim_end(strip3(line));
    if s.len() == 0 || s[0] != 60 {
        false
    } else {
        match find_byte(s, 62, 0) {
            None => false,
            Some(gt) => {
                let inside = s.subrange(1, gt);
                if inside.len() == 0 || inside[0] == 47 || inside[0] == 33 || inside[0] == 63
                    || !ascii_alpha(inside[0]) {
                    false
                } else {
                    let ne = 1 + custom_tag_run(inside, 1);
                    norm_name(inside.subrange(0, ne), ci) == norm_name(tag, ci) && (bytes_blank(
                        inside.subrange(ne, inside.len() as int),
                    ) || attrs)
                }
            },
        }
    }
}

/// A closing tag line for `tag`.
pub open spec fn closing_tag_line(line: Seq<u8>, tag: Seq<u8>, ci: bool, standalone: bool) -> bool {
    let s = bytes_trim_end(strip3(line));
    if !matches_at(s, 0, seq![60u8, 47u8]) {
        false
    } else {
        let after = s.subrange(2, s.len() as int);
        if after.len() == 0 || !ascii_alpha(after[0]) {
            false
        } else {
            let ne = 1 + custom_tag_run(after, 1);
            let rest = bytes_trim(after.subrange(ne, after.len() as int));
            norm_name(after.subrange(0, ne), ci) == norm_name(tag, ci) && (if standalone {
                rest == seq![62u8]
            } else {
                rest.contains(62u8)
            })
        }
    }
}

impl TagBoundaryPlugin {
    pub fn new(tag: &str) -> (r: Self)
        ensures
            r.tag_name() == tag@,
            r.ci() && r.attrs() && r.standalone() && !r.is_active(),
    {
        TagBoundaryPlugin {
            tag: tag.to_owned(),
            case_insensitive: true,
            allow_attributes: true,
            require_standalone_end: true,
            active: false,
        }
    }

    pub fn thinking() -> (r: Self)
        ensures
            r.tag_name() == "thinking"@,
            r.ci() && r.attrs() && r.standalone() && !r.is_active(),
    {
        Self::new("thinking")
    }

    pub closed spec fn tag_name(&self) -> Seq<char> {
        self.tag@
    }

    pub closed spec fn ci(&self) -> bool {
        self.case_insensitive
    }

    pub closed spec fn attrs(&self) -> bool {
        self.allow_attributes
    }

    pub closed spec fn standalone(&self) -> bool {
        self.require_standalone_end
    }

    pub closed spec fn is_active(&self) -> bool {
        self.active
    }

    pub closed spec fn same_config(&self, other: &Self) -> bool {
        &&& self.tag == other.tag
        &&& self.case_insensitive == other.case_insensitive
        &&& self.allow_attributes == other.allow_attributes
        &&& self.require_standalone_end == other.require_standalone_end
    }

    pub fn matches_opening(&self, line: &str) -> (r: bool)
        ensures
            tag_matches_post(*self, line, r),
    {
        let b = line.as_bytes();
        proof {
            lemma_encode_valid(line@);
            lemma_valid_slice(b@, strip3_len(b@), b@.len() as int);
        }
        let s = trim_end(strip_up_to_three_leading_spaces(b));
        if s.len() == 0 || s[0] != 60 {
            return false;
        }
        proof {
            lemma_find_byte(s@, 62, 0);
        }
        let gt = match find_byte_exec(s, 62, 0) {
            None => return false,
            Some(g) => g,
        };
        let inside = slice(s, 1, gt);
        if inside.len() == 0 || inside[0] == 47 || inside[0] == 33 || inside[0] == 63
            || !is_ascii_alpha(inside[0]) {
            return false;
        }
        let ne = 1 + custom_tag_run_exec(inside, 1);
        let name = norm_name_exec(slice(inside, 0, ne), self.case_insensitive);
        let want = norm_name_exec(self.tag.as_str().as_bytes(), self.case_insensitive);
        if !bytes_eq(&name, &want) {
            return false;
        }
        proof {
            lemma_valid_slice(s@, 1, gt as int);
            lemma_custom_tag_run(inside@, 1);
            lemma_valid_slice(inside@, ne as int, inside@.len() as int);
        }
        is_blank(slice(inside, ne, inside.len())) || self.allow_attributes
    }

    pub fn matches_closing(&self, line: &str) -> (r: bool)
        ensures
            r == closing_tag_line(
                line.spec_bytes(),
                encode_utf8(self.tag_name()),
                self.ci(),
                self.standalone(),
            ),
    {
        let b = line.as_bytes();
        proof {
            lemma_encode_valid(line@);
            lemma_valid_slice(b@, strip3_len(b@), b@.len() as int);
        }
        let s = trim_end(strip_up_to_three_leading_spaces(b));
        let open: &[u8] = &[60u8, 47u8];
        assert(open@ =~= seq![60u8, 47u8]);
        if !starts_with(s, open) {
            return false;
        }
        let after = slice(s, 2, s.len());
        if after.len() == 0 || !is_ascii_alpha(after[0]) {
            return false;
        }
        let ne = 1 + custom_tag_run_exec(after, 1);
        let name = norm_name_exec(slice(after, 0, ne), self.case_insensitive);
        let want = norm_name_exec(self.tag.as_str().as_bytes(), self.case_insensitive);
        if !bytes_eq(&name, &want) {
            return false;
        }
        proof {
            lemma_valid_slice(s@, 2, s@.len() as int);
            lemma_custom_tag_run(after@, 1);
            lemma_valid_slice(after@, ne as int, after@.len() as int);
        }
        let rest = trim(slice(after, ne, after.len()));
        let gt: &[u8] = &[62u8];
        assert(gt@ =~= seq![62u8]);
        if self.require_standalone_end {
            bytes_eq(rest, gt)
        } else {
            crate::text::contains_byte(rest, 62)
        }
    }

    /// Open the container.
    pub fn begin(&mut self)
        ensures
            tag_begin_post(*old(self), *final(self)),
    {
        self.active = true;
    }

    /// Feed one line: an active container closes on its closing tag line.
    pub fn step(&mut self, line: &str) -> (r: BoundaryUpdate)
        ensures
            tag_step_post(*old(self), *final(self), line, r),
    {
        if !self.active {
            return BoundaryUpdate::Continue;
        }
        if self.matches_closing(line) {
            self.active = false;
            return BoundaryUpdate::Close;
        }
        BoundaryUpdate::Continue
    }

    pub fn clear(&mut self)
        ensures
            tag_clear_post(*old(self), *final(self)),
    {
        self.active = false;
    }
}

/// What the methods of `TagBoundaryPlugin` do, as relations between the plugin before and after.
pub open spec fn tag_matches_post(pre: TagBoundaryPlugin, line: &str, r: bool) -> bool {
    &&& (r == opening_tag_line(
        line.spec_bytes(),
        encode_utf8(pre.tag_name()),
        pre.ci(),
        pre.attrs(),
    ))
}

pub open spec fn tag_begin_post(pre: TagBoundaryPlugin, post: TagBoundaryPlugin) -> bool {
    &&& (post.same_config(&pre))
    &&& (post.is_active())
}

pub open spec fn tag_step_post(pre: TagBoundaryPlugin, post: TagBoundaryPlugin, line: &str, r: BoundaryUpdate) -> bool {
    &&& (post.same_config(&pre))
    &&& (!pre.is_active() ==> r == BoundaryUpdate::Continue && !post.is_active())
    &&& (pre.is_active() ==> if closing_tag_line(
        line.spec_bytes(),
        encode_utf8(pre.tag_name()),
        pre.ci(),
        pre.standalone(),
    ) {
        r == BoundaryUpdate::Close && !post.is_active()
    } else {
        r == BoundaryUpdate::Continue && post.is_active()
    })
}

pub open spec fn tag_clear_post(pre: TagBoundaryPlugin, post: TagBoundaryPlugin) -> bool {
    &&& (post.same_config(&pre))
    &&& (!post.is_active())
}

impl BoundaryPlugin for TagBoundaryPlugin {
    open spec fn may_update(&self, line: Seq<char>, r: BoundaryUpdate) -> bool {
        exists|l: &str, post: TagBoundaryPlugin| #![trigger tag_step_post(*self, post, l, r)] l@ == line && tag_step_post(*self, post, l, r)
    }

    open spec fn may_start(&self, line: Seq<char>, r: bool) -> bool {
        exists|l: &str| #![trigger tag_matches_post(*self, l, r)] l@ == line && tag_matches_post(*self, l, r)
    }

    fn matches_start(&self, line: &str) -> (r: bool)
        ensures
            tag_matches_post(*self, line, r),
    {
        self.matches_opening(line)
    }

    fn start(&mut self, _line: &str)
        ensures
            tag_begin_post(*old(self), *final(self)),
    {
        self.begin()
    }

    fn update(&mut self, line: &str) -> (r: BoundaryUpdate)
        ensures
            tag_step_post(*old(self), *final(self), line, r),
    {
        self.step(line)
    }

    fn reset(&mut self)
        ensures
            tag_clear_post(*old(self), *final(self)),
    {
        self.clear()
    }
}


// ---------------------------------------------------------------------------------------------
// Nestable `:::` containers.
// ---------------------------------------------------------------------------------------------

/// Container names: an ASCII alphanumeric or `_` first, then also `-`.
pub open spec fn name_start(b: u8) -> bool {
    ascii_alnum(b) || b == 95
}

pub open spec fn name_char(b: u8) -> bool {
    ascii_alnum(b) || b == 95 || b == 45
}

pub open spec fn container_name_run(s: Seq<u8>, from: int) -> int
    decreases s.len() - from,
{
    if from < 0 || from >= s.len() || !name_char(s[from]) {
        0
    } else {
        1 + container_name_run(s, from + 1)
    }
}

proof fn lemma_container_name_run(s: Seq<u8>, from: int)
    requires
        0 <= from <= s.len(),
    ensures
        0 <= container_name_run(s, from) <= s.len() - from,
        forall|k: int| from <= k < from + container_name_run(s, from) ==> s[k] < 128,
    decreases s.len() - from,
{
    if from < s.len() && name_char(s[from]) {
        lemma_container_name_run(s, from + 1);
    }
}

/// ASCII bytes as characters.
pub open spec fn ascii_chars(b: Seq<u8>) -> Seq<char> {
    b.map_values(|x: u8| x as char)
}

pub open spec fn names_view(v: Seq<String>) -> Seq<Seq<char>> {
    v.map_values(|s: String| s@)
}

/// Length of the name at the start of `rest` (zero when there is none).
pub open spec fn container_name_len(rest: Seq<u8>) -> int {
    if rest.len() > 0 && name_start(rest[0]) {
        1 + container_name_run(rest, 1)
    } else {
        0
    }
}

/// Incremark's `^(\s*)(:{3,})(?:\s+(\w[\w-]*))?(?:\s+(.*))?\s*$`: the marker length and
/// whether the line ends a container.
pub open spec fn detect_container(
    line: Seq<u8>,
    m: u8,
    min: int,
    allowed: Option<Seq<Seq<char>>>,
    attrs_ok: bool,
) -> Option<(int, bool)> {
    let s = bytes_trim_start(bytes_trim_end(line));
    let i = run_len(s, m, 0);
    if i < min || !is_cut(s, i) {
        None
    } else {
        let rest0 = trim_sp_tab_end(s.subrange(i, s.len() as int));
        if rest0.len() == 0 {
            Some((i, true))
        } else if !crate::text::ascii_ws(rest0[0]) {
            None
        } else {
            let rest = rest0.subrange(crate::syntax::sp_tab_run(rest0, 0), rest0.len() as int);
            let ne = container_name_len(rest);
            let has_attrs = !bytes_blank(rest.subrange(ne, rest.len() as int));
            if has_attrs && !attrs_ok {
                None
            } else {
                let is_end = ne == 0 && !has_attrs;
                let name = ascii_chars(rest.subrange(0, ne));
                if !is_end && (allowed matches Some(list) && list.len() > 0 && !list.contains(
                    name,
                )) {
                    None
                } else {
                    Some((i, is_end))
                }
            }
        }
    }
}

/// An Incremark-compatible `:::` container plugin: `::: name` starts a container, `:::` ends
/// one; longer markers allow nesting, and each end marker closes one level.
#[derive(Debug, Clone)]
pub struct ContainerBoundaryPlugin {
    pub marker: char,
    pub min_marker_length: usize,
    pub allowed_names: Option<Vec<String>>,
    pub allow_attributes: bool,
    base_marker_length: Option<usize>,
    depth: usize,
    just_started: bool,
}

impl Default for ContainerBoundaryPlugin {
    fn default() -> (r: Self)
        ensures
            r.marker_char() == ':',
            r.min_len() == 3,
            r.depth() == 0,
            r.base() is None,
            !r.just_started(),
    {
        Self::new(':', 3)
    }
}

fn ascii_string(b: &[u8]) -> (r: String)
    ensures
        r@ == ascii_chars(b@),
{
    let mut out = String::new();
    let mut k: usize = 0;
    while k < b.len()
        invariant
            k <= b@.len(),
            out@ == ascii_chars(b@.subrange(0, k as int)),
        decreases b@.len() - k,
    {
        crate::text::string_push(&mut out, b[k] as char);
        assert(ascii_chars(b@.subrange(0, k + 1)) =~= ascii_chars(b@.subrange(0, k as int)).push(
            b@[k as int] as char,
        ));
        k += 1;
    }
    assert(b@.subrange(0, k as int) =~= b@);
    out
}

impl ContainerBoundaryPlugin {
    pub fn new(marker: char, min_marker_length: usize) -> (r: Self)
        ensures
            r.marker_char() == marker,
            r.min_len() == min_marker_length,
            r.depth() == 0,
            r.base() is None,
            !r.just_started(),
    {
        ContainerBoundaryPlugin {
            marker,
            min_marker_length,
            allowed_names: None,
            allow_attributes: true,
            base_marker_length: None,
            depth: 0,
            just_started: false,
        }
    }

    pub closed spec fn marker_char(&self) -> char {
        self.marker
    }

    pub closed spec fn marker_byte(&self) -> u8 {
        self.marker as u8
    }

    pub closed spec fn min_len(&self) -> usize {
        self.min_marker_length
    }

    pub closed spec fn allowed(&self) -> Option<Seq<Seq<char>>> {
        match self.allowed_names {
            Some(v) => Some(names_view(v@)),
            None => None,
        }
    }

    pub closed spec fn attrs_ok(&self) -> bool {
        self.allow_attributes
    }

    pub closed spec fn base(&self) -> Option<usize> {
        self.base_marker_length
    }

    pub closed spec fn depth(&self) -> usize {
        self.depth
    }

    pub closed spec fn just_started(&self) -> bool {
        self.just_started
    }

    pub closed spec fn same_config(&self, other: &Self) -> bool {
        &&& self.marker == other.marker
        &&& self.min_marker_length == other.min_marker_length
        &&& self.allowed_names == other.allowed_names
        &&& self.allow_attributes == other.allow_attributes
    }

    pub open spec fn detect(&self, line: Seq<u8>) -> Option<(int, bool)> {
        detect_container(
            line,
            self.marker_byte(),
            self.min_len() as int,
            self.allowed(),
            self.attrs_ok(),
        )
    }

    fn name_allowed(&self, name: &[u8]) -> (r: bool)
        ensures
            r == !(self.allowed() matches Some(list) && list.len() > 0 && !list.contains(
                ascii_chars(name@),
            )),
    {
        match &self.allowed_names {
            None => true,
            Some(list) => {
                if list.len() == 0 {
                    return true;
                }
                let n = ascii_string(name);
                let mut k: usize = 0;
                while k < list.len()
                    invariant
                        k <= list@.len(),
                        n@ == ascii_chars(name@),
                        self.allowed() == Some(names_view(list@)),
                        forall|q: int| 0 <= q < k ==> list@[q]@ != n@,
                    decreases list@.len() - k,
                {
                    if list[k] == n {
                        assert(names_view(list@)[k as int] == n@);
                        return true;
                    }
                    k += 1;
                }
                assert(!names_view(list@).contains(n@)) by {
                    assert forall|q: int| 0 <= q < names_view(list@).len() implies names_view(
                        list@,
                    )[q] != n@ by {
                        assert(list@[q]@ != n@);
                    }
                }
                false
            },
        }
    }

    pub fn detect_container(&self, line: &str) -> (r: Option<(usize, bool)>)
        ensures
            match r {
                Some((len, end)) => self.detect(line.spec_bytes()) == Some((len as int, end)),
                None => self.detect(line.spec_bytes()) is None,
            },
    {
        let b = line.as_bytes();
        proof {
            lemma_encode_valid(line@);
        }
        let s = trim_start(trim_end(b));
        let m = self.marker as u8;
        let i = run_len_exec(s, m, 0);
        if i < self.min_marker_length {
            return None;
        }
        if !(i == 0 || i == s.len() || !(0x80 <= s[i] && s[i] <= 0xbf)) {
            return None;
        }
        proof {
            lemma_valid_subrange(s@, i as int, s@.len() as int);
        }
        let tail = slice(s, i, s.len());
        let rest0 = trim_sp_tab_end_exec(tail);
        proof {
            lemma_trim_sp_tab_end_valid(tail@);
        }
        if rest0.len() == 0 {
            return Some((i, true));
        }
        if !crate::text::is_ascii_ws(rest0[0]) {
            return None;
        }
        let k = crate::syntax::sp_tab_run_exec(rest0, 0);
        proof {
            crate::syntax::lemma_sp_tab_run(rest0@, 0);
            lemma_valid_slice(rest0@, k as int, rest0@.len() as int);
        }
        let rest = slice(rest0, k, rest0.len());
        let ne: usize = if rest.len() > 0 && (is_ascii_alnum(rest[0]) || rest[0] == 95) {
            proof {
                lemma_container_name_run(rest@, 1);
            }
            let mut j: usize = 1;
            while j < rest.len() && (is_ascii_alnum(rest[j]) || rest[j] == 95 || rest[j] == 45)
                invariant
                    1 <= j <= rest@.len(),
                    container_name_run(rest@, 1) == (j - 1) + container_name_run(rest@, j as int),
                decreases rest@.len() - j,
            {
                j += 1;
            }
            j
        } else {
            0
        };
        proof {
            if ne > 0 {
                lemma_container_name_run(rest@, 1);
            }
            lemma_valid_slice(rest@, ne as int, rest@.len() as int);
        }
        let has_attrs = !is_blank(slice(rest, ne, rest.len()));
        if has_attrs && !self.allow_attributes {
            return None;
        }
        let is_end = ne == 0 && !has_attrs;
        if !is_end && !self.name_allowed(slice(rest, 0, ne)) {
            return None;
        }
        Some((i, is_end))
    }

    /// Whether `line` opens a container.
    pub fn matches(&self, line: &str) -> (r: bool)
        ensures
            container_matches_post(*self, line, r),
    {
        match self.detect_container(line) {
            Some((_, end)) => !end,
            None => false,
        }
    }

    /// Open a container at `line`.
    pub fn begin(&mut self, line: &str)
        ensures
            container_begin_post(*old(self), *final(self), line),
    {
        match self.detect_container(line) {
            Some((len, end)) => {
                if end {
                    self.base_marker_length = None;
                    self.depth = 0;
                    self.just_started = false;
                } else {
                    self.base_marker_length = Some(len);
                    self.depth = 1;
                    self.just_started = true;
                }
            },
            None => {
                self.base_marker_length = None;
                self.depth = 0;
                self.just_started = false;
            },
        }
    }

    /// Feed one line: nested openings deepen, end markers at least as long as the opening one
    /// close one level, and the container closes at depth zero.
    pub fn step(&mut self, line: &str) -> (r: BoundaryUpdate)
        ensures
            container_step_post(*old(self), *final(self), line, r),
    {
        if self.depth == 0 {
            return BoundaryUpdate::Continue;
        }
        let base = match self.base_marker_length {
            None => return BoundaryUpdate::Continue,
            Some(b) => b,
        };
        if self.just_started {
            self.just_started = false;
            return BoundaryUpdate::Continue;
        }
        let m = match self.detect_container(line) {
            None => return BoundaryUpdate::Continue,
            Some(m) => m,
        };
        if m.1 && m.0 >= base {
            self.depth = self.depth - 1;
            if self.depth == 0 {
                self.base_marker_length = None;
                return BoundaryUpdate::Close;
            }
            return BoundaryUpdate::Continue;
        }
        if !m.1 && self.depth < usize::MAX {
            self.depth = self.depth + 1;
        }
        BoundaryUpdate::Continue
    }

    pub fn clear(&mut self)
        ensures
            container_clear_post(*old(self), *final(self)),
    {
        self.base_marker_length = None;
        self.depth = 0;
        self.just_started = false;
    }
}

/// What the methods of `ContainerBoundaryPlugin` do, as relations between the plugin before and after.
pub open spec fn container_matches_post(pre: ContainerBoundaryPlugin, line: &str, r: bool) -> bool {
    &&& (r == (pre.detect(line.spec_bytes()) matches Some((_, end)) && !end))
}

pub open spec fn container_begin_post(pre: ContainerBoundaryPlugin, post: ContainerBoundaryPlugin, line: &str) -> bool {
    &&& (post.same_config(&pre))
    &&& (match pre.detect(line.spec_bytes()) {
        Some((len, end)) if !end => post.base() == Some(len as usize) && post.depth() == 1 && post.just_started(),
        _ => post.base() is None && post.depth() == 0 && !post.just_started(),
    })
}

pub open spec fn container_step_post(pre: ContainerBoundaryPlugin, post: ContainerBoundaryPlugin, line: &str, r: BoundaryUpdate) -> bool {
    &&& (post.same_config(&pre))
    &&& (pre.depth() == 0 || pre.base() is None ==> r == BoundaryUpdate::Continue
        && post.depth() == pre.depth() && post.base() == pre.base() && post.just_started() == pre.just_started())
    &&& (pre.depth() > 0 && pre.base() is Some && pre.just_started() ==> r
        == BoundaryUpdate::Continue && post.depth() == pre.depth() && post.base() == pre.base() && !post.just_started())
    &&& ((pre.depth() > 0 && pre.base() is Some && !pre.just_started()) ==> match pre.detect(line.spec_bytes()) {
        None => r == BoundaryUpdate::Continue && post.depth() == pre.depth()
            && post.base() == pre.base(),
        Some((len, end)) => if end && len >= pre.base().unwrap() {
            if pre.depth() == 1 {
                r == BoundaryUpdate::Close && post.depth() == 0 && post.base() is None
            } else {
                r == BoundaryUpdate::Continue && post.depth() == pre.depth()
                    - 1 && post.base() == pre.base()
            }
        } else if !end {
            r == BoundaryUpdate::Continue && post.depth() == (if pre.depth()
                < usize::MAX {
                pre.depth() + 1
            } else {
                pre.depth() as int
            }) && post.base() == pre.base()
        } else {
            r == BoundaryUpdate::Continue && post.depth() == pre.depth()
                && post.base() == pre.base()
        },
    })
}

pub open spec fn container_clear_post(pre: ContainerBoundaryPlugin, post: ContainerBoundaryPlugin) -> bool {
    &&& (post.same_config(&pre))
    &&& (post.base() is None)
    &&& (post.depth() == 0)
    &&& (!post.just_started())
}

impl BoundaryPlugin for ContainerBoundaryPlugin {
    open spec fn may_update(&self, line: Seq<char>, r: BoundaryUpdate) -> bool {
        exists|l: &str, post: ContainerBoundaryPlugin| #![trigger container_step_post(*self, post, l, r)] l@ == line && container_step_post(*self, post, l, r)
    }

    open spec fn may_start(&self, line: Seq<char>, r: bool) -> bool {
        exists|l: &str| #![trigger container_matches_post(*self, l, r)] l@ == line && container_matches_post(*self, l, r)
    }

    fn matches_start(&self, line: &str) -> (r: bool)
        ensures
            container_matches_post(*self, line, r),
    {
        self.matches(line)
    }

    fn start(&mut self, line: &str)
        ensures
            container_begin_post(*old(self), *final(self), line),
    {
        self.begin(line)
    }

    fn update(&mut self, line: &str) -> (r: BoundaryUpdate)
        ensures
            container_step_post(*old(self), *final(self), line, r),
    {
        self.step(line)
    }

    fn reset(&mut self)
        ensures
            container_clear_post(*old(self), *final(self)),
    {
        self.clear()
    }
}


// ---------------------------------------------------------------------------------------------
// Closures.
// ---------------------------------------------------------------------------------------------

/// A start predicate closure.
pub trait StartPredicate: Send + Sync {
    /// `r` is an answer the predicate may give for `line`.
    spec fn may_answer(&self, line: &str, r: bool) -> bool;

    fn check(&self, line: &str) -> (r: bool)
        ensures
            self.may_answer(line, r),
    ;
}

/// A per-line hook closure.
pub trait LineHook: Send {
    /// The hook, as it stands, may be run on `line`.
    spec fn may_run(&self, line: &str) -> bool;

    fn run(&mut self, line: &str)
        ensures
            old(self).may_run(line),
    ;
}

/// A per-line update closure.
pub trait LineUpdate: Send {
    /// `r` is an answer the closure, as it stands, may give for `line`.
    spec fn may_step(&self, line: &str, r: BoundaryUpdate) -> bool;

    fn step(&mut self, line: &str) -> (r: BoundaryUpdate)
        ensures
            old(self).may_step(line, r),
    ;
}

/// A reset hook closure.
pub trait ResetHook: Send {
    /// The hook, as it stands, may be run.
    spec fn may_reset(&self) -> bool;

    fn run(&mut self)
        ensures
            old(self).may_reset(),
    ;
}

/// Calls a caller-supplied predicate closure (`Fn::call`): where the closure's precondition holds
/// for the line, the answer is one its postcondition allows; otherwise nothing is said.
#[verifier::external_body]
fn call_fn_predicate<F: Fn(&str) -> bool>(f: &F, line: &str) -> (r: bool)
    ensures
        (call_requires(*f, (line,)) ==> call_ensures(*f, (line,), r)),
{
    f(line)
}

/// Calls a caller-supplied hook closure on the line (`FnMut::call_mut`): where the closure's
/// precondition holds, its postcondition holds of the call; nothing is known of its new state.
#[verifier::external_body]
fn call_fn_hook<F: FnMut(&str)>(f: &mut F, line: &str)
    ensures
        (call_requires(*old(f), (line,)) ==> call_ensures(*old(f), (line,), ())),
{
    f(line)
}

/// Calls a caller-supplied update closure (`FnMut::call_mut`): where the closure's precondition
/// holds for the line, the answer is one its postcondition allows (for the closure as it stood);
/// nothing is known of its new state.
#[verifier::external_body]
fn call_fn_update<F: FnMut(&str) -> BoundaryUpdate>(f: &mut F, line: &str) -> (r: BoundaryUpdate)
    ensures
        (call_requires(*old(f), (line,)) ==> call_ensures(*old(f), (line,), r)),
{
    f(line)
}

/// Calls a caller-supplied reset closure (`FnMut::call_mut`): where the closure's precondition
/// holds, its postcondition holds of the call; nothing is known of its new state.
#[verifier::external_body]
fn call_fn_reset<F: FnMut()>(f: &mut F)
    ensures
        (call_requires(*old(f), ()) ==> call_ensures(*old(f), (), ())),
{
    f()
}

impl<F> StartPredicate for F where F: Fn(&str) -> bool + Send + Sync {
    open spec fn may_answer(&self, line: &str, r: bool) -> bool {
        (call_requires(*self, (line,)) ==> call_ensures(*self, (line,), r))
    }

    fn check(&self, line: &str) -> (r: bool) {
        call_fn_predicate(self, line)
    }
}

impl<F> LineHook for F where F: FnMut(&str) + Send {
    open spec fn may_run(&self, line: &str) -> bool {
        (call_requires(*self, (line,)) ==> call_ensures(*self, (line,), ()))
    }

    fn run(&mut self, line: &str) {
        call_fn_hook(self, line)
    }
}

impl<F> LineUpdate for F where F: FnMut(&str) -> BoundaryUpdate + Send {
    open spec fn may_step(&self, line: &str, r: BoundaryUpdate) -> bool {
        (call_requires(*self, (line,)) ==> call_ensures(*self, (line,), r))
    }

    fn step(&mut self, line: &str) -> (r: BoundaryUpdate) {
        call_fn_update(self, line)
    }
}

impl<F> ResetHook for F where F: FnMut() + Send {
    open spec fn may_reset(&self) -> bool {
        (call_requires(*self, ()) ==> call_ensures(*self, (), ()))
    }

    fn run(&mut self) {
        call_fn_reset(self)
    }
}

/// A boundary plugin made of closures; `update` is called for every line of the block,
/// including the starting line.
pub struct FnBoundaryPlugin {
    matches_start: Box<dyn StartPredicate>,
    start: Option<Box<dyn LineHook>>,
    update: Box<dyn LineUpdate>,
    reset: Option<Box<dyn ResetHook>>,
}

impl FnBoundaryPlugin {
    /// A start hook is installed.
    pub closed spec fn has_start_hook(&self) -> bool {
        self.start is Some
    }

    /// A reset hook is installed.
    pub closed spec fn has_reset_hook(&self) -> bool {
        self.reset is Some
    }

    /// `r` is an answer the start predicate may give for `line`.
    pub closed spec fn start_answer(&self, line: &str, r: bool) -> bool {
        self.matches_start.may_answer(line, r)
    }

    /// The start hook, as it stands, may be run on `line` (true when there is none).
    pub closed spec fn start_runs(&self, line: &str) -> bool {
        match self.start {
            Some(h) => h.may_run(line),
            None => true,
        }
    }

    /// `r` is an answer the update closure, as it stands, may give for `line`.
    pub closed spec fn step_answer(&self, line: &str, r: BoundaryUpdate) -> bool {
        self.update.may_step(line, r)
    }

    /// The reset hook, as it stands, may be run (true when there is none).
    pub closed spec fn reset_runs(&self) -> bool {
        match self.reset {
            Some(h) => h.may_reset(),
            None => true,
        }
    }

    /// The start predicate is the same in both plugins.
    pub closed spec fn same_start_predicate(&self, other: &Self) -> bool {
        self.matches_start == other.matches_start
    }

    pub fn new<M, U>(matches_start: M, update: U) -> (r: Self) where
        M: Fn(&str) -> bool + Send + Sync + 'static,
        U: FnMut(&str) -> BoundaryUpdate + Send + 'static,
        ensures
            !r.has_start_hook(),
            !r.has_reset_hook(),
            forall|line: &str, b: bool| r.start_answer(line, b) == (call_requires(matches_start, (line,)) ==> call_ensures(matches_start, (line,), b)),
            forall|line: &str, u: BoundaryUpdate| r.step_answer(line, u) == (call_requires(update, (line,)) ==> call_ensures(update, (line,), u)),
     {
        let m: Box<dyn StartPredicate> = Box::new(matches_start);
        let u: Box<dyn LineUpdate> = Box::new(update);
        FnBoundaryPlugin { matches_start: m, start: None, update: u, reset: None }
    }

    pub fn with_start<S>(self, start: S) -> (r: Self) where S: FnMut(&str) + Send + 'static
        ensures
            r.has_start_hook(),
            r.has_reset_hook() == self.has_reset_hook(),
            forall|line: &str| r.start_runs(line) == (call_requires(start, (line,)) ==> call_ensures(start, (line,), ())),
            r.same_start_predicate(&self),
            forall|line: &str, u: BoundaryUpdate| r.step_answer(line, u) == self.step_answer(line, u),
            r.reset_runs() == self.reset_runs(),
    {
        let b: Box<dyn LineHook> = Box::new(start);
        let mut s = self;
        s.start = Some(b);
        s
    }

    pub fn with_reset<R>(self, reset: R) -> (r: Self) where R: FnMut() + Send + 'static
        ensures
            r.has_reset_hook(),
            r.has_start_hook() == self.has_start_hook(),
            r.reset_runs() == (call_requires(reset, ()) ==> call_ensures(reset, (), ())),
            r.same_start_predicate(&self),
            forall|line: &str, u: BoundaryUpdate| r.step_answer(line, u) == self.step_answer(line, u),
            forall|line: &str| r.start_runs(line) == self.start_runs(line),
    {
        let b: Box<dyn ResetHook> = Box::new(reset);
        let mut s = self;
        s.reset = Some(b);
        s
    }
}

impl BoundaryPlugin for FnBoundaryPlugin {
    open spec fn may_update(&self, line: Seq<char>, r: BoundaryUpdate) -> bool {
        exists|l: &str| #![trigger self.step_answer(l, r)] l@ == line && self.step_answer(l, r)
    }

    open spec fn may_start(&self, line: Seq<char>, r: bool) -> bool {
        exists|l: &str| #![trigger self.start_answer(l, r)] l@ == line && self.start_answer(l, r)
    }

    fn matches_start(&self, line: &str) -> (r: bool)
        ensures
            self.start_answer(line, r),
    {
        self.matches_start.check(line)
    }

    fn start(&mut self, line: &str)
        ensures
            old(self).start_runs(line),
            final(self).same_start_predicate(old(self)),
            final(self).has_start_hook() == old(self).has_start_hook(),
            final(self).has_reset_hook() == old(self).has_reset_hook(),
            forall|l: &str, u: BoundaryUpdate| final(self).step_answer(l, u) == old(self).step_answer(l, u),
            final(self).reset_runs() == old(self).reset_runs(),
    {
        match &mut self.start {
            Some(f) => f.run(line),
            None => {},
        }
    }

    fn update(&mut self, line: &str) -> (r: BoundaryUpdate)
        ensures
            old(self).step_answer(line, r),
            final(self).same_start_predicate(old(self)),
            final(self).has_start_hook() == old(self).has_start_hook(),
            final(self).has_reset_hook() == old(self).has_reset_hook(),
            forall|l: &str| final(self).start_runs(l) == old(self).start_runs(l),
            final(self).reset_runs() == old(self).reset_runs(),
    {
        let ghost s0 = *self;
        let r = self.update.step(line);
        assert(s0.step_answer(line, r));
        r
    }

    fn reset(&mut self)
        ensures
            old(self).reset_runs(),
            final(self).same_start_predicate(old(self)),
            final(self).has_start_hook() == old(self).has_start_hook(),
            final(self).has_reset_hook() == old(self).has_reset_hook(),
            forall|l: &str, u: BoundaryUpdate| final(self).step_answer(l, u) == old(self).step_answer(l, u),
            forall|l: &str| final(self).start_runs(l) == old(self).start_runs(l),
    {
        match &mut self.reset {
            Some(f) => f.run(),
            None => {},
        }
    }
}

} // verus!
