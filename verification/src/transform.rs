//! Pending-display transformers: hooks that rewrite what the pending block displays.
use vstd::prelude::*;
use vstd::utf8::*;
use vstd::string::StringSliceAdditionalSpecFns;
use crate::pending::terminator::{fix_incomplete_link_or_image, spec_fix_link, spec_tail_start, tail_start};
use crate::text::{bytes_eq, extend, lemma_encode_valid, lemma_valid_subrange, slice, string_of, to_vec};
use crate::types::BlockKind;

verus! {

broadcast use vstd::string::group_string_axioms;

#[derive(Debug, Clone, Copy)]
pub struct PendingTransformInput<'a> {
    pub kind: BlockKind,
    pub raw: &'a str,
    pub display: &'a str,
}

pub trait PendingTransformer: Send + Sync {
    /// Transform the pending display string.
    ///
    /// - `kind` is a best-effort hint (block-level).
    /// - `raw` is the pending text as received (never mutated).
    /// - `display` is the current pending display string (already includes built-in termination).
    ///
    /// Return `Some(new_display)` to replace `display`, or `None` to leave it unchanged.
    fn transform(&self, input: PendingTransformInput<'_>) -> (r: Option<String>)
        ensures
            self.may_transform(input.kind, input.raw@, input.display@, crate::reference::opt_str_view(r)),
    ;

    /// `r` is an answer this transformer may give for a block of this kind, raw text and display
    /// (nothing is said of a transformer that does not define it).
    open spec fn may_transform(&self, kind: BlockKind, raw: Seq<char>, display: Seq<char>, r: Option<Seq<char>>) -> bool {
        true
    }

    fn reset(&self) {
    }
}

/// A pending transformer as a stream holds it, in its chain.
pub struct TransformerEntry(pub Box<dyn PendingTransformer>);

impl TransformerEntry {
    /// `r` is an answer the held transformer may give.
    pub open spec fn may_transform(&self, kind: BlockKind, raw: Seq<char>, display: Seq<char>, r: Option<Seq<char>>) -> bool {
        self.0.may_transform(kind, raw, display, r)
    }

    /// Ask the held transformer.
    pub fn transform(&self, input: PendingTransformInput<'_>) -> (r: Option<String>)
        ensures
            self.may_transform(input.kind, input.raw@, input.display@, crate::reference::opt_str_view(r)),
    {
        self.0.transform(input)
    }

    /// Reset the held transformer.
    pub fn reset(&self) {
        self.0.reset()
    }
}

/// A transformer as installed in a stream's chain: it answers and resets as the transformer it
/// holds does.
pub struct Installed<T>(pub T);

impl<T: PendingTransformer> PendingTransformer for Installed<T> {
    fn transform(&self, input: PendingTransformInput<'_>) -> (r: Option<String>) {
        self.0.transform(input)
    }

    open spec fn may_transform(&self, kind: BlockKind, raw: Seq<char>, display: Seq<char>, r: Option<Seq<char>>) -> bool {
        self.0.may_transform(kind, raw, display, r)
    }

    fn reset(&self) {
        self.0.reset()
    }
}

impl TransformerEntry {
    /// The chain entry holding `t`: it answers as `t` does.
    pub fn holding<T: PendingTransformer + 'static>(t: T) -> (e: TransformerEntry)
        ensures
            forall|k: BlockKind, raw: Seq<char>, d: Seq<char>, o: Option<Seq<char>>|
                #[trigger] e.may_transform(k, raw, d, o) == t.may_transform(k, raw, d, o),
    {
        TransformerEntry(Box::new(Installed(t)))
    }
}

/// A transformer made of a closure.
pub struct FnPendingTransformer<F>(pub F);

impl<F> PendingTransformer for FnPendingTransformer<F> where
    F: for <'a>Fn(PendingTransformInput<'a>) -> Option<String> + Send + Sync,
 {
    fn transform(&self, input: PendingTransformInput<'_>) -> (r: Option<String>) {
        let r = call_transform_fn(&self.0, input);
        assert((call_requires(self.0, (input,)) ==> call_ensures(self.0, (input,), r)));
        assert(exists|i: PendingTransformInput, o: Option<String>|
            #![trigger call_requires(self.0, (i,)), crate::reference::opt_str_view(o)]
            i.kind == input.kind && i.raw@ == input.raw@ && i.display@ == input.display@
                && crate::reference::opt_str_view(o) == crate::reference::opt_str_view(r)
                && (call_requires(self.0, (i,)) ==> call_ensures(self.0, (i,), o))) by {
            assert(crate::reference::opt_str_view(r) == crate::reference::opt_str_view(r));
            assert(call_requires(self.0, (input,)) == call_requires(self.0, (input,)));
        }
        r
    }

    open spec fn may_transform(&self, kind: BlockKind, raw: Seq<char>, display: Seq<char>, r: Option<Seq<char>>) -> bool {
        exists|i: PendingTransformInput, o: Option<String>|
            #![trigger call_requires(self.0, (i,)), crate::reference::opt_str_view(o)]
            i.kind == kind && i.raw@ == raw && i.display@ == display && crate::reference::opt_str_view(o) == r
                && (call_requires(self.0, (i,)) ==> call_ensures(self.0, (i,), o))
    }
}

/// Calls a caller-supplied transformer closure (`Fn::call`): where the closure's precondition
/// holds for the input, what it returns is one its postcondition allows; otherwise nothing is said.
#[verifier::external_body]
fn call_transform_fn<F>(f: &F, input: PendingTransformInput<'_>) -> (r: Option<String>) where
    F: for <'a>Fn(PendingTransformInput<'a>) -> Option<String>,
    ensures
        (call_requires(*f, (input,)) ==> call_ensures(*f, (input,), r)),
 {
    f(input)
}

/// The display with its tail window (of at most `window` bytes) replaced by `fixed`, or `None`
/// when the link fixer changes nothing.
pub open spec fn spec_window_fix(
    display: Seq<u8>,
    window: int,
    url: Seq<u8>,
    links: bool,
    images: bool,
) -> Option<Seq<u8>> {
    let off = spec_tail_start(display, window);
    let w = display.subrange(off, display.len() as int);
    match spec_fix_link(w, url, links, images) {
        None => None,
        Some(fixed) => if fixed == w {
            None
        } else {
            Some(display.subrange(0, off) + fixed)
        },
    }
}

/// What a tail-window transformer answers for a block of this kind and display: nothing for
/// code fences, else the display with its tail window fixed, when that changes it.
pub open spec fn window_fix_result(
    kind: BlockKind,
    display: Seq<char>,
    window: int,
    url: Seq<u8>,
    links: bool,
    images: bool,
    r: Option<Seq<char>>,
) -> bool {
    &&& kind == BlockKind::CodeFence ==> r is None
    &&& kind != BlockKind::CodeFence ==> (match r {
        Some(t) => Some(encode_utf8(t)),
        None => None::<Seq<u8>>,
    }) == spec_window_fix(encode_utf8(display), window, url, links, images)
}

pub open spec fn opt_bytes_of(o: Option<String>) -> Option<Seq<u8>> {
    match o {
        Some(s) => Some(encode_utf8(s@)),
        None => None,
    }
}

fn window_fix(display: &str, window: usize, url: &str, links: bool, images: bool) -> (r: Option<
    String,
>)
    ensures
        opt_bytes_of(r) == spec_window_fix(
            display.spec_bytes(),
            window as int,
            url.spec_bytes(),
            links,
            images,
        ),
{
    let d = display.as_bytes();
    let u = url.as_bytes();
    proof {
        lemma_encode_valid(display@);
        lemma_encode_valid(url@);
    }
    let off = tail_start(d, window);
    proof {
        lemma_valid_subrange(d@, 0, off as int);
        lemma_valid_subrange(d@, off as int, d@.len() as int);
    }
    let w = slice(d, off, d.len());
    match fix_incomplete_link_or_image(w, u, links, images) {
        None => None,
        Some(fixed) => {
            if bytes_eq(&fixed, w) {
                None
            } else {
                let mut out = to_vec(slice(d, 0, off));
                proof {
                    valid_utf8_concat(out@, fixed@);
                }
                extend(&mut out, &fixed);
                let s = string_of(&out);
                proof {
                    lemma_encode_valid(s@);
                }
                Some(s)
            }
        },
    }
}

/// Replace an incomplete link `[text](` or `[text` at the tail with a placeholder URL.
#[derive(Debug, Clone)]
pub struct IncompleteLinkPlaceholderTransformer {
    pub incomplete_link_url: String,
    pub window_bytes: usize,
}

impl Default for IncompleteLinkPlaceholderTransformer {
    fn default() -> (r: Self)
        ensures
            r.incomplete_link_url@ == "streamdown:incomplete-link"@,
            r.window_bytes == 16 * 1024,
    {
        IncompleteLinkPlaceholderTransformer {
            incomplete_link_url: "streamdown:incomplete-link".to_owned(),
            window_bytes: 16 * 1024,
        }
    }
}

/// What the link placeholder transformer returns: nothing for code fences, else the fixed tail
/// window of the display when it changed.
pub open spec fn link_placeholder_result(
    t: IncompleteLinkPlaceholderTransformer,
    input: PendingTransformInput<'_>,
    r: Option<String>,
) -> bool {
    &&& input.kind == BlockKind::CodeFence ==> r is None
    &&& input.kind != BlockKind::CodeFence ==> opt_bytes_of(r) == spec_window_fix(
        input.display.spec_bytes(),
        t.window_bytes as int,
        encode_utf8(t.incomplete_link_url@),
        true,
        false,
    )
}

impl IncompleteLinkPlaceholderTransformer {
    /// What `transform` returns: nothing for code fences, else the fixed tail window of the
    /// display when it changed.
    pub fn apply(&self, input: PendingTransformInput<'_>) -> (r: Option<String>)
        ensures
            link_placeholder_result(*self, input, r),
    {
        if input.kind == BlockKind::CodeFence {
            return None;
        }
        window_fix(input.display, self.window_bytes, self.incomplete_link_url.as_str(), true, false)
    }
}

impl PendingTransformer for IncompleteLinkPlaceholderTransformer {
    fn transform(&self, input: PendingTransformInput<'_>) -> (r: Option<String>)
        ensures
            link_placeholder_result(*self, input, r),
    {
        self.apply(input)
    }

    open spec fn may_transform(&self, kind: BlockKind, raw: Seq<char>, display: Seq<char>, r: Option<Seq<char>>) -> bool {
        window_fix_result(kind, display, self.window_bytes as int, encode_utf8(self.incomplete_link_url@), true, false, r)
    }
}

/// Drop an incomplete image `![alt](` or `![alt` at the tail.
#[derive(Debug, Clone, Copy)]
pub struct IncompleteImageDropTransformer {
    pub window_bytes: usize,
}

impl Default for IncompleteImageDropTransformer {
    fn default() -> (r: Self)
        ensures
            r.window_bytes == 16 * 1024,
    {
        IncompleteImageDropTransformer { window_bytes: 16 * 1024 }
    }
}

/// What the image drop transformer returns: nothing for code fences, else the tail window of
/// the display with the incomplete image removed when it changed.
pub open spec fn image_drop_result(
    t: IncompleteImageDropTransformer,
    input: PendingTransformInput<'_>,
    r: Option<String>,
) -> bool {
    &&& input.kind == BlockKind::CodeFence ==> r is None
    &&& input.kind != BlockKind::CodeFence ==> opt_bytes_of(r) == spec_window_fix(
        input.display.spec_bytes(),
        t.window_bytes as int,
        Seq::empty(),
        false,
        true,
    )
}

impl IncompleteImageDropTransformer {
    /// What `transform` returns: nothing for code fences, else the tail window of the display
    /// with the incomplete image removed when it changed.
    pub fn apply(&self, input: PendingTransformInput<'_>) -> (r: Option<String>)
        ensures
            image_drop_result(*self, input, r),
    {
        if input.kind == BlockKind::CodeFence {
            return None;
        }
        let empty = "";
        proof {
            reveal_strlit("");
            assert(empty.spec_bytes() =~= Seq::<u8>::empty());
        }
        window_fix(input.display, self.window_bytes, empty, false, true)
    }
}

impl PendingTransformer for IncompleteImageDropTransformer {
    fn transform(&self, input: PendingTransformInput<'_>) -> (r: Option<String>)
        ensures
            image_drop_result(*self, input, r),
    {
        self.apply(input)
    }

    open spec fn may_transform(&self, kind: BlockKind, raw: Seq<char>, display: Seq<char>, r: Option<Seq<char>>) -> bool {
        window_fix_result(kind, display, self.window_bytes as int, Seq::empty(), false, true, r)
    }
}

} // verus!
