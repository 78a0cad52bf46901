use mdstream::BlockKind;
use mdstream::{FenceBoundaryPlugin, MdStream, Options};

#[test]
fn triple_colon_container_is_single_block() {
    let markdown = "Intro\n\n:::warning\nA\n\nB\n:::\n\nAfter\n";

    let mut s =
        MdStream::new(Options::default()).with_boundary_plugin(FenceBoundaryPlugin::triple_colon());
    let u1 = s.append(markdown);
    let u2 = s.finalize();
    let blocks: Vec<String> = u1
        .committed
        .into_iter()
        .chain(u2.committed)
        .map(|b| b.raw)
        .collect();

    assert_eq!(
        blocks,
        vec![
            "Intro\n\n".to_string(),
            ":::warning\nA\n\nB\n:::\n".to_string(),
            "After\n".to_string(),
        ]
    );
}

#[test]
fn triple_colon_container_chunking_invariance() {
    let markdown = "Intro\n\n:::note\nA\n\nB\n:::\n\nAfter\n";
    let opts = Options::default();

    let blocks_whole = collect_final_raw_with_stream(
        chunk_whole(markdown),
        MdStream::new(opts.clone()).with_boundary_plugin(FenceBoundaryPlugin::triple_colon()),
    );
    let blocks_lines = collect_final_raw_with_stream(
        chunk_lines(markdown),
        MdStream::new(opts.clone()).with_boundary_plugin(FenceBoundaryPlugin::triple_colon()),
    );
    let blocks_chars = collect_final_raw_with_stream(
        chunk_chars(markdown),
        MdStream::new(opts.clone()).with_boundary_plugin(FenceBoundaryPlugin::triple_colon()),
    );
    let blocks_rand = collect_final_raw_with_stream(
        chunk_pseudo_random(
            markdown,
            "triple_colon_container_chunking_invariance",
            0,
            40,
        ),
        MdStream::new(opts).with_boundary_plugin(FenceBoundaryPlugin::triple_colon()),
    );

    assert_eq!(blocks_lines, blocks_whole);
    assert_eq!(blocks_chars, blocks_whole);
    assert_eq!(blocks_rand, blocks_whole);
}

#[test]
fn reset_clears_boundary_plugin_state() {
    let mut s =
        MdStream::new(Options::default()).with_boundary_plugin(FenceBoundaryPlugin::triple_colon());
    s.append(":::\nA\n");
    s.reset();

    let u = s.append("A\n\nB\n");
    assert_eq!(u.committed.len(), 1);
    assert_eq!(u.committed[0].raw, "A\n\n");
    assert_eq!(u.pending.as_ref().unwrap().raw, "B\n");
}


#[allow(dead_code)]
pub fn collect_final_blocks(
    chunks: impl IntoIterator<Item = String>,
    opts: Options,
) -> Vec<(BlockKind, String)> {
    let s = MdStream::new(opts);
    collect_final_blocks_with_stream(chunks, s)
}

#[allow(dead_code)]
pub fn collect_final_raw(chunks: impl IntoIterator<Item = String>, opts: Options) -> Vec<String> {
    collect_final_blocks(chunks, opts)
        .into_iter()
        .map(|(_, raw)| raw)
        .collect()
}

#[allow(dead_code)]
pub fn collect_final_blocks_with_stream(
    chunks: impl IntoIterator<Item = String>,
    mut s: MdStream,
) -> Vec<(BlockKind, String)> {
    let mut out = Vec::new();

    for chunk in chunks {
        let u = s.append(&chunk);
        if u.reset {
            out.clear();
        }
        out.extend(u.committed.into_iter().map(|b| (b.kind, b.raw)));
    }
    let u = s.finalize();
    if u.reset {
        out.clear();
    }
    out.extend(u.committed.into_iter().map(|b| (b.kind, b.raw)));
    out
}

#[allow(dead_code)]
pub fn collect_final_raw_with_stream(
    chunks: impl IntoIterator<Item = String>,
    s: MdStream,
) -> Vec<String> {
    collect_final_blocks_with_stream(chunks, s)
        .into_iter()
        .map(|(_, raw)| raw)
        .collect()
}

#[allow(dead_code)]
pub fn chunk_whole(text: &str) -> Vec<String> {
    vec![text.to_string()]
}

#[allow(dead_code)]
pub fn chunk_lines(text: &str) -> Vec<String> {
    text.split_inclusive('\n').map(|s| s.to_string()).collect()
}

#[allow(dead_code)]
pub fn chunk_chars(text: &str) -> Vec<String> {
    text.chars().map(|c| c.to_string()).collect()
}

#[allow(dead_code)]
fn fnv1a64(s: &str) -> u64 {
    let mut h: u64 = 0xcbf29ce484222325;
    for &b in s.as_bytes() {
        h ^= b as u64;
        h = h.wrapping_mul(0x100000001b3);
    }
    h
}

#[allow(dead_code)]
fn xorshift64(state: &mut u64) -> u64 {
    let mut x = *state;
    x ^= x << 13;
    x ^= x >> 7;
    x ^= x << 17;
    *state = x;
    x
}

#[allow(dead_code)]
pub fn chunk_pseudo_random(
    text: &str,
    seed_label: &str,
    trial: u64,
    max_bytes: usize,
) -> Vec<String> {
    assert!(max_bytes > 0);
    let mut state = fnv1a64(seed_label) ^ (trial.wrapping_mul(0x9e3779b97f4a7c15));

    let mut out = Vec::new();
    let mut start = 0usize;
    while start < text.len() {
        let want = (xorshift64(&mut state) as usize % max_bytes) + 1;
        let mut end = (start + want).min(text.len());
        while end < text.len() && !text.is_char_boundary(end) {
            end += 1;
        }
        out.push(text[start..end].to_string());
        start = end;
    }
    out
}
