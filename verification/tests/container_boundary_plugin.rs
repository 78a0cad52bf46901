use mdstream::BlockKind;
use mdstream::{ContainerBoundaryPlugin, MdStream, Options};

#[test]
fn detects_container_start_and_end() {
    let markdown = "Intro\n\n::: warning\nA\n:::\n\nAfter\n";
    let blocks = collect_final_raw_with_stream(
        chunk_whole(markdown),
        MdStream::new(Options::default()).with_boundary_plugin(ContainerBoundaryPlugin::default()),
    );
    assert_eq!(
        blocks,
        vec![
            "Intro\n\n".to_string(),
            "::: warning\nA\n:::\n".to_string(),
            "After\n".to_string(),
        ]
    );
}

#[test]
fn longer_markers_allow_nesting_depth() {
    let markdown = "::: outer\nA\n::::: inner\nB\n:::\nC\n:::\nAfter\n";
    let blocks = collect_final_raw_with_stream(
        chunk_whole(markdown),
        MdStream::new(Options::default()).with_boundary_plugin(ContainerBoundaryPlugin::default()),
    );
    assert_eq!(
        blocks,
        vec![
            "::: outer\nA\n::::: inner\nB\n:::\nC\n:::\n".to_string(),
            "After\n".to_string(),
        ]
    );
}

#[test]
fn allowed_names_filters_opening() {
    let mut plugin = ContainerBoundaryPlugin::default();
    plugin.allowed_names = Some(vec!["warning".to_string(), "info".to_string()]);

    let markdown = "::: danger\nA\n:::\n\nAfter\n";
    let blocks = collect_final_raw_with_stream(
        chunk_whole(markdown),
        MdStream::new(Options::default()).with_boundary_plugin(plugin),
    );

    // Not detected as a container -> split by blank line only.
    assert_eq!(
        blocks,
        vec!["::: danger\nA\n:::\n\n".to_string(), "After\n".to_string()]
    );
}

#[test]
fn chunking_invariance_for_containers() {
    let markdown = "Intro\n\n::: note attr=1\nA\n\nB\n:::\n\nAfter\n";
    let plugin = ContainerBoundaryPlugin::default();

    let blocks_whole = collect_final_raw_with_stream(
        chunk_whole(markdown),
        MdStream::new(Options::default()).with_boundary_plugin(plugin.clone()),
    );
    let blocks_lines = collect_final_raw_with_stream(
        chunk_lines(markdown),
        MdStream::new(Options::default()).with_boundary_plugin(plugin.clone()),
    );
    let blocks_chars = collect_final_raw_with_stream(
        chunk_chars(markdown),
        MdStream::new(Options::default()).with_boundary_plugin(plugin.clone()),
    );
    let blocks_rand = collect_final_raw_with_stream(
        chunk_pseudo_random(markdown, "chunking_invariance_for_containers", 0, 40),
        MdStream::new(Options::default()).with_boundary_plugin(plugin.clone()),
    );

    assert_eq!(blocks_lines, blocks_whole);
    assert_eq!(blocks_chars, blocks_whole);
    assert_eq!(blocks_rand, blocks_whole);
}


#[allow(dead_code)]
pub fn collect_final_blocks(
    chunks: impl IntoIterator<Item = String>,
    opts: Options,
) -> Vec<(BlockKind, String)> {
    let s = MdStream::new(opts);
    collect_final_blocks_with_stream(chunks, s)
}

#[allow(dead_code)]
pub fn collect_final_raw(chunks: impl IntoIterator<Item = String>, opts: Options) -> Vec<String> {
    collect_final_blocks(chunks, opts)
        .into_iter()
        .map(|(_, raw)| raw)
        .collect()
}

#[allow(dead_code)]
pub fn collect_final_blocks_with_stream(
    chunks: impl IntoIterator<Item = String>,
    mut s: MdStream,
) -> Vec<(BlockKind, String)> {
    let mut out = Vec::new();

    for chunk in chunks {
        let u = s.append(&chunk);
        if u.reset {
            out.clear();
        }
        out.extend(u.committed.into_iter().map(|b| (b.kind, b.raw)));
    }
    let u = s.finalize();
    if u.reset {
        out.clear();
    }
    out.extend(u.committed.into_iter().map(|b| (b.kind, b.raw)));
    out
}

#[allow(dead_code)]
pub fn collect_final_raw_with_stream(
    chunks: impl IntoIterator<Item = String>,
    s: MdStream,
) -> Vec<String> {
    collect_final_blocks_with_stream(chunks, s)
        .into_iter()
        .map(|(_, raw)| raw)
        .collect()
}

#[allow(dead_code)]
pub fn chunk_whole(text: &str) -> Vec<String> {
    vec![text.to_string()]
}

#[allow(dead_code)]
pub fn chunk_lines(text: &str) -> Vec<String> {
    text.split_inclusive('\n').map(|s| s.to_string()).collect()
}

#[allow(dead_code)]
pub fn chunk_chars(text: &str) -> Vec<String> {
    text.chars().map(|c| c.to_string()).collect()
}

#[allow(dead_code)]
fn fnv1a64(s: &str) -> u64 {
    let mut h: u64 = 0xcbf29ce484222325;
    for &b in s.as_bytes() {
        h ^= b as u64;
        h = h.wrapping_mul(0x100000001b3);
    }
    h
}

#[allow(dead_code)]
fn xorshift64(state: &mut u64) -> u64 {
    let mut x = *state;
    x ^= x << 13;
    x ^= x >> 7;
    x ^= x << 17;
    *state = x;
    x
}

#[allow(dead_code)]
pub fn chunk_pseudo_random(
    text: &str,
    seed_label: &str,
    trial: u64,
    max_bytes: usize,
) -> Vec<String> {
    assert!(max_bytes > 0);
    let mut state = fnv1a64(seed_label) ^ (trial.wrapping_mul(0x9e3779b97f4a7c15));

    let mut out = Vec::new();
    let mut start = 0usize;
    while start < text.len() {
        let want = (xorshift64(&mut state) as usize % max_bytes) + 1;
        let mut end = (start + want).min(text.len());
        while end < text.len() && !text.is_char_boundary(end) {
            end += 1;
        }
        out.push(text[start..end].to_string());
        start = end;
    }
    out
}
