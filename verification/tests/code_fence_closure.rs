use mdstream::MdStream;
use mdstream::{BlockKind, Options};

#[test]
fn code_fence_opening_line_does_not_close_itself() {
    let markdown = "```\ncode\n```\n";
    let blocks = collect_final_blocks(chunk_whole(markdown), Options::default());
    assert_eq!(blocks.len(), 1, "expected 1 block, got {blocks:?}");
    assert_eq!(blocks[0].0, BlockKind::CodeFence);
    assert_eq!(blocks[0].1, markdown);
}

#[test]
fn code_fence_chunking_invariance_no_language() {
    let markdown = "```\ncode\n```\n";
    let opts = Options::default();
    let whole = collect_final_blocks(chunk_whole(markdown), opts.clone());
    let lines = collect_final_blocks(chunk_lines(markdown), opts.clone());
    let chars = collect_final_blocks(chunk_chars(markdown), opts);
    assert_eq!(lines, whole);
    assert_eq!(chars, whole);
}

#[test]
fn code_fence_with_inner_backticks_is_single_block() {
    let markdown = "````\nState: Normal\n  → see ``` → State: Fence\n````\n";
    let blocks = collect_final_blocks(chunk_whole(markdown), Options::default());
    assert_eq!(blocks.len(), 1, "expected 1 block, got {blocks:?}");
    assert_eq!(blocks[0].0, BlockKind::CodeFence);
    assert_eq!(blocks[0].1, markdown);
}


#[allow(dead_code)]
pub fn collect_final_blocks(
    chunks: impl IntoIterator<Item = String>,
    opts: Options,
) -> Vec<(BlockKind, String)> {
    let s = MdStream::new(opts);
    collect_final_blocks_with_stream(chunks, s)
}

#[allow(dead_code)]
pub fn collect_final_raw(chunks: impl IntoIterator<Item = String>, opts: Options) -> Vec<String> {
    collect_final_blocks(chunks, opts)
        .into_iter()
        .map(|(_, raw)| raw)
        .collect()
}

#[allow(dead_code)]
pub fn collect_final_blocks_with_stream(
    chunks: impl IntoIterator<Item = String>,
    mut s: MdStream,
) -> Vec<(BlockKind, String)> {
    let mut out = Vec::new();

    for chunk in chunks {
        let u = s.append(&chunk);
        if u.reset {
            out.clear();
        }
        out.extend(u.committed.into_iter().map(|b| (b.kind, b.raw)));
    }
    let u = s.finalize();
    if u.reset {
        out.clear();
    }
    out.extend(u.committed.into_iter().map(|b| (b.kind, b.raw)));
    out
}

#[allow(dead_code)]
pub fn collect_final_raw_with_stream(
    chunks: impl IntoIterator<Item = String>,
    s: MdStream,
) -> Vec<String> {
    collect_final_blocks_with_stream(chunks, s)
        .into_iter()
        .map(|(_, raw)| raw)
        .collect()
}

#[allow(dead_code)]
pub fn chunk_whole(text: &str) -> Vec<String> {
    vec![text.to_string()]
}

#[allow(dead_code)]
pub fn chunk_lines(text: &str) -> Vec<String> {
    text.split_inclusive('\n').map(|s| s.to_string()).collect()
}

#[allow(dead_code)]
pub fn chunk_chars(text: &str) -> Vec<String> {
    text.chars().map(|c| c.to_string()).collect()
}

#[allow(dead_code)]
fn fnv1a64(s: &str) -> u64 {
    let mut h: u64 = 0xcbf29ce484222325;
    for &b in s.as_bytes() {
        h ^= b as u64;
        h = h.wrapping_mul(0x100000001b3);
    }
    h
}

#[allow(dead_code)]
fn xorshift64(state: &mut u64) -> u64 {
    let mut x = *state;
    x ^= x << 13;
    x ^= x >> 7;
    x ^= x << 17;
    *state = x;
    x
}

#[allow(dead_code)]
pub fn chunk_pseudo_random(
    text: &str,
    seed_label: &str,
    trial: u64,
    max_bytes: usize,
) -> Vec<String> {
    assert!(max_bytes > 0);
    let mut state = fnv1a64(seed_label) ^ (trial.wrapping_mul(0x9e3779b97f4a7c15));

    let mut out = Vec::new();
    let mut start = 0usize;
    while start < text.len() {
        let want = (xorshift64(&mut state) as usize % max_bytes) + 1;
        let mut end = (start + want).min(text.len());
        while end < text.len() && !text.is_char_boundary(end) {
            end += 1;
        }
        out.push(text[start..end].to_string());
        start = end;
    }
    out
}
