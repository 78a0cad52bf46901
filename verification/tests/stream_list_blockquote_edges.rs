use mdstream::MdStream;
use mdstream::{BlockKind, Options};

#[test]
fn list_allows_blank_line_between_items_chunking_invariance() {
    let markdown = "- item 1\n\n- item 2\n\nAfter\n";

    let opts = Options::default();
    let blocks_whole = collect_final_blocks(chunk_whole(markdown), opts.clone());
    let blocks_lines = collect_final_blocks(chunk_lines(markdown), opts.clone());
    let blocks_rand = collect_final_blocks(
        chunk_pseudo_random(markdown, "list_blank_line_between_items", 0, 40),
        opts.clone(),
    );

    assert_eq!(blocks_lines, blocks_whole);
    assert_eq!(blocks_rand, blocks_whole);

    assert_eq!(blocks_whole.len(), 2);
    assert_eq!(blocks_whole[0].0, BlockKind::List);
    assert!(blocks_whole[0].1.contains("- item 1\n\n- item 2\n\n"));
    assert_eq!(blocks_whole[1].0, BlockKind::Paragraph);
    assert_eq!(blocks_whole[1].1, "After\n");
}

#[test]
fn list_allows_multiline_item_then_next_item_chunking_invariance() {
    let markdown = "- item 1\n  continued line\n- item 2\n\nAfter\n";

    let opts = Options::default();
    let blocks_whole = collect_final_blocks(chunk_whole(markdown), opts.clone());
    let blocks_lines = collect_final_blocks(chunk_lines(markdown), opts.clone());
    let blocks_rand = collect_final_blocks(
        chunk_pseudo_random(markdown, "list_multiline_item_then_next_item", 0, 40),
        opts.clone(),
    );

    assert_eq!(blocks_lines, blocks_whole);
    assert_eq!(blocks_rand, blocks_whole);

    assert_eq!(blocks_whole.len(), 2);
    assert_eq!(blocks_whole[0].0, BlockKind::List);
    assert!(
        blocks_whole[0]
            .1
            .contains("- item 1\n  continued line\n- item 2\n\n")
    );
    assert_eq!(blocks_whole[1].1, "After\n");
}

#[test]
fn list_allows_blank_line_then_indented_continuation_chunking_invariance() {
    let markdown = "- item 1\n\n  continuation after blank\n- item 2\n\nAfter\n";

    let opts = Options::default();
    let blocks_whole = collect_final_blocks(chunk_whole(markdown), opts.clone());
    let blocks_lines = collect_final_blocks(chunk_lines(markdown), opts.clone());
    let blocks_rand = collect_final_blocks(
        chunk_pseudo_random(
            markdown,
            "list_blank_line_then_indented_continuation",
            0,
            40,
        ),
        opts.clone(),
    );

    assert_eq!(blocks_lines, blocks_whole);
    assert_eq!(blocks_rand, blocks_whole);

    assert_eq!(blocks_whole.len(), 2);
    assert_eq!(blocks_whole[0].0, BlockKind::List);
    assert!(
        blocks_whole[0]
            .1
            .contains("- item 1\n\n  continuation after blank\n- item 2\n\n")
    );
    assert_eq!(blocks_whole[1].1, "After\n");
}

#[test]
fn task_list_items_are_stable_chunking_invariance() {
    let markdown = "- [x] done\n  more\n- [ ] todo\n\nAfter\n";

    let opts = Options::default();
    let blocks_whole = collect_final_blocks(chunk_whole(markdown), opts.clone());
    let blocks_lines = collect_final_blocks(chunk_lines(markdown), opts.clone());
    let blocks_rand = collect_final_blocks(
        chunk_pseudo_random(markdown, "task_list_items_are_stable", 0, 40),
        opts.clone(),
    );

    assert_eq!(blocks_lines, blocks_whole);
    assert_eq!(blocks_rand, blocks_whole);

    assert_eq!(blocks_whole.len(), 2);
    assert_eq!(blocks_whole[0].0, BlockKind::List);
    assert!(
        blocks_whole[0]
            .1
            .contains("- [x] done\n  more\n- [ ] todo\n\n")
    );
    assert_eq!(blocks_whole[1].1, "After\n");
}

#[test]
fn blockquote_lazy_continuation_is_stable_chunking_invariance() {
    let markdown = "> quote line 1\nlazy continuation\n> quote line 2\n\nAfter\n";

    let opts = Options::default();
    let blocks_whole = collect_final_blocks(chunk_whole(markdown), opts.clone());
    let blocks_lines = collect_final_blocks(chunk_lines(markdown), opts.clone());
    let blocks_rand = collect_final_blocks(
        chunk_pseudo_random(markdown, "blockquote_lazy_continuation_is_stable", 0, 40),
        opts.clone(),
    );

    assert_eq!(blocks_lines, blocks_whole);
    assert_eq!(blocks_rand, blocks_whole);

    assert_eq!(blocks_whole.len(), 2);
    assert_eq!(blocks_whole[0].0, BlockKind::BlockQuote);
    assert!(
        blocks_whole[0]
            .1
            .contains("> quote line 1\nlazy continuation\n> quote line 2\n\n")
    );
    assert_eq!(blocks_whole[1].1, "After\n");
}


#[allow(dead_code)]
pub fn collect_final_blocks(
    chunks: impl IntoIterator<Item = String>,
    opts: Options,
) -> Vec<(BlockKind, String)> {
    let s = MdStream::new(opts);
    collect_final_blocks_with_stream(chunks, s)
}

#[allow(dead_code)]
pub fn collect_final_raw(chunks: impl IntoIterator<Item = String>, opts: Options) -> Vec<String> {
    collect_final_blocks(chunks, opts)
        .into_iter()
        .map(|(_, raw)| raw)
        .collect()
}

#[allow(dead_code)]
pub fn collect_final_blocks_with_stream(
    chunks: impl IntoIterator<Item = String>,
    mut s: MdStream,
) -> Vec<(BlockKind, String)> {
    let mut out = Vec::new();

    for chunk in chunks {
        let u = s.append(&chunk);
        if u.reset {
            out.clear();
        }
        out.extend(u.committed.into_iter().map(|b| (b.kind, b.raw)));
    }
    let u = s.finalize();
    if u.reset {
        out.clear();
    }
    out.extend(u.committed.into_iter().map(|b| (b.kind, b.raw)));
    out
}

#[allow(dead_code)]
pub fn collect_final_raw_with_stream(
    chunks: impl IntoIterator<Item = String>,
    s: MdStream,
) -> Vec<String> {
    collect_final_blocks_with_stream(chunks, s)
        .into_iter()
        .map(|(_, raw)| raw)
        .collect()
}

#[allow(dead_code)]
pub fn chunk_whole(text: &str) -> Vec<String> {
    vec![text.to_string()]
}

#[allow(dead_code)]
pub fn chunk_lines(text: &str) -> Vec<String> {
    text.split_inclusive('\n').map(|s| s.to_string()).collect()
}

#[allow(dead_code)]
pub fn chunk_chars(text: &str) -> Vec<String> {
    text.chars().map(|c| c.to_string()).collect()
}

#[allow(dead_code)]
fn fnv1a64(s: &str) -> u64 {
    let mut h: u64 = 0xcbf29ce484222325;
    for &b in s.as_bytes() {
        h ^= b as u64;
        h = h.wrapping_mul(0x100000001b3);
    }
    h
}

#[allow(dead_code)]
fn xorshift64(state: &mut u64) -> u64 {
    let mut x = *state;
    x ^= x << 13;
    x ^= x >> 7;
    x ^= x << 17;
    *state = x;
    x
}

#[allow(dead_code)]
pub fn chunk_pseudo_random(
    text: &str,
    seed_label: &str,
    trial: u64,
    max_bytes: usize,
) -> Vec<String> {
    assert!(max_bytes > 0);
    let mut state = fnv1a64(seed_label) ^ (trial.wrapping_mul(0x9e3779b97f4a7c15));

    let mut out = Vec::new();
    let mut start = 0usize;
    while start < text.len() {
        let want = (xorshift64(&mut state) as usize % max_bytes) + 1;
        let mut end = (start + want).min(text.len());
        while end < text.len() && !text.is_char_boundary(end) {
            end += 1;
        }
        out.push(text[start..end].to_string());
        start = end;
    }
    out
}
