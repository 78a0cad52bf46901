use std::sync::Arc;
use std::sync::atomic::{AtomicBool, AtomicUsize, Ordering};

use mdstream::BlockKind;
use mdstream::{BoundaryUpdate, FnBoundaryPlugin, MdStream, Options};

#[test]
fn fn_boundary_plugin_can_model_a_custom_fence() {
    let started = Arc::new(AtomicUsize::new(0));
    let just_started = Arc::new(AtomicBool::new(false));

    let started_for_start = started.clone();
    let just_started_for_start = just_started.clone();
    let just_started_for_update = just_started.clone();

    let plugin = FnBoundaryPlugin::new(
        |line| line.trim() == "@@@",
        move |line| {
            if just_started_for_update.swap(false, Ordering::SeqCst) {
                return BoundaryUpdate::Continue;
            }
            if line.trim() == "@@@" {
                BoundaryUpdate::Close
            } else {
                BoundaryUpdate::Continue
            }
        },
    )
    .with_start(move |_| {
        started_for_start.fetch_add(1, Ordering::SeqCst);
        just_started_for_start.store(true, Ordering::SeqCst);
    })
    .with_reset({
        let just_started = just_started.clone();
        move || {
            just_started.store(false, Ordering::SeqCst);
        }
    });

    let markdown = "Intro\n\n@@@\nA\n\nB\n@@@\n\nAfter\n";
    let blocks = collect_final_raw_with_stream(
        chunk_whole(markdown),
        MdStream::new(Options::default()).with_boundary_plugin(plugin),
    );
    assert_eq!(
        blocks,
        vec![
            "Intro\n\n".to_string(),
            "@@@\nA\n\nB\n@@@\n".to_string(),
            "After\n".to_string(),
        ]
    );
    assert_eq!(started.load(Ordering::SeqCst), 1);
}

#[test]
fn fn_boundary_plugin_chunking_invariance() {
    let just_started = Arc::new(AtomicBool::new(false));
    let js_start = just_started.clone();
    let js_update = just_started.clone();

    let plugin = FnBoundaryPlugin::new(
        |line| line.trim() == "@@@",
        move |line| {
            if js_update.swap(false, Ordering::SeqCst) {
                return BoundaryUpdate::Continue;
            }
            if line.trim() == "@@@" {
                BoundaryUpdate::Close
            } else {
                BoundaryUpdate::Continue
            }
        },
    )
    .with_start(move |_| {
        js_start.store(true, Ordering::SeqCst);
    });

    let markdown = "Intro\n\n@@@\nA\n\nB\n@@@\n\nAfter\n";

    let blocks_whole = collect_final_raw_with_stream(
        chunk_whole(markdown),
        MdStream::new(Options::default()).with_boundary_plugin(plugin),
    );

    let just_started = Arc::new(AtomicBool::new(false));
    let js_start = just_started.clone();
    let js_update = just_started.clone();
    let plugin = FnBoundaryPlugin::new(
        |line| line.trim() == "@@@",
        move |line| {
            if js_update.swap(false, Ordering::SeqCst) {
                return BoundaryUpdate::Continue;
            }
            if line.trim() == "@@@" {
                BoundaryUpdate::Close
            } else {
                BoundaryUpdate::Continue
            }
        },
    )
    .with_start(move |_| {
        js_start.store(true, Ordering::SeqCst);
    });
    let blocks_lines = collect_final_raw_with_stream(
        chunk_lines(markdown),
        MdStream::new(Options::default()).with_boundary_plugin(plugin),
    );

    let just_started = Arc::new(AtomicBool::new(false));
    let js_start = just_started.clone();
    let js_update = just_started.clone();
    let plugin = FnBoundaryPlugin::new(
        |line| line.trim() == "@@@",
        move |line| {
            if js_update.swap(false, Ordering::SeqCst) {
                return BoundaryUpdate::Continue;
            }
            if line.trim() == "@@@" {
                BoundaryUpdate::Close
            } else {
                BoundaryUpdate::Continue
            }
        },
    )
    .with_start(move |_| {
        js_start.store(true, Ordering::SeqCst);
    });
    let blocks_chars = collect_final_raw_with_stream(
        chunk_chars(markdown),
        MdStream::new(Options::default()).with_boundary_plugin(plugin),
    );

    let just_started = Arc::new(AtomicBool::new(false));
    let js_start = just_started.clone();
    let js_update = just_started.clone();
    let plugin = FnBoundaryPlugin::new(
        |line| line.trim() == "@@@",
        move |line| {
            if js_update.swap(false, Ordering::SeqCst) {
                return BoundaryUpdate::Continue;
            }
            if line.trim() == "@@@" {
                BoundaryUpdate::Close
            } else {
                BoundaryUpdate::Continue
            }
        },
    )
    .with_start(move |_| {
        js_start.store(true, Ordering::SeqCst);
    });
    let blocks_rand = collect_final_raw_with_stream(
        chunk_pseudo_random(markdown, "fn_boundary_plugin_chunking_invariance", 0, 40),
        MdStream::new(Options::default()).with_boundary_plugin(plugin),
    );

    assert_eq!(blocks_lines, blocks_whole);
    assert_eq!(blocks_chars, blocks_whole);
    assert_eq!(blocks_rand, blocks_whole);
}


#[allow(dead_code)]
pub fn collect_final_blocks(
    chunks: impl IntoIterator<Item = String>,
    opts: Options,
) -> Vec<(BlockKind, String)> {
    let s = MdStream::new(opts);
    collect_final_blocks_with_stream(chunks, s)
}

#[allow(dead_code)]
pub fn collect_final_raw(chunks: impl IntoIterator<Item = String>, opts: Options) -> Vec<String> {
    collect_final_blocks(chunks, opts)
        .into_iter()
        .map(|(_, raw)| raw)
        .collect()
}

#[allow(dead_code)]
pub fn collect_final_blocks_with_stream(
    chunks: impl IntoIterator<Item = String>,
    mut s: MdStream,
) -> Vec<(BlockKind, String)> {
    let mut out = Vec::new();

    for chunk in chunks {
        let u = s.append(&chunk);
        if u.reset {
            out.clear();
        }
        out.extend(u.committed.into_iter().map(|b| (b.kind, b.raw)));
    }
    let u = s.finalize();
    if u.reset {
        out.clear();
    }
    out.extend(u.committed.into_iter().map(|b| (b.kind, b.raw)));
    out
}

#[allow(dead_code)]
pub fn collect_final_raw_with_stream(
    chunks: impl IntoIterator<Item = String>,
    s: MdStream,
) -> Vec<String> {
    collect_final_blocks_with_stream(chunks, s)
        .into_iter()
        .map(|(_, raw)| raw)
        .collect()
}

#[allow(dead_code)]
pub fn chunk_whole(text: &str) -> Vec<String> {
    vec![text.to_string()]
}

#[allow(dead_code)]
pub fn chunk_lines(text: &str) -> Vec<String> {
    text.split_inclusive('\n').map(|s| s.to_string()).collect()
}

#[allow(dead_code)]
pub fn chunk_chars(text: &str) -> Vec<String> {
    text.chars().map(|c| c.to_string()).collect()
}

#[allow(dead_code)]
fn fnv1a64(s: &str) -> u64 {
    let mut h: u64 = 0xcbf29ce484222325;
    for &b in s.as_bytes() {
        h ^= b as u64;
        h = h.wrapping_mul(0x100000001b3);
    }
    h
}

#[allow(dead_code)]
fn xorshift64(state: &mut u64) -> u64 {
    let mut x = *state;
    x ^= x << 13;
    x ^= x >> 7;
    x ^= x << 17;
    *state = x;
    x
}

#[allow(dead_code)]
pub fn chunk_pseudo_random(
    text: &str,
    seed_label: &str,
    trial: u64,
    max_bytes: usize,
) -> Vec<String> {
    assert!(max_bytes > 0);
    let mut state = fnv1a64(seed_label) ^ (trial.wrapping_mul(0x9e3779b97f4a7c15));

    let mut out = Vec::new();
    let mut start = 0usize;
    while start < text.len() {
        let want = (xorshift64(&mut state) as usize % max_bytes) + 1;
        let mut end = (start + want).min(text.len());
        while end < text.len() && !text.is_char_boundary(end) {
            end += 1;
        }
        out.push(text[start..end].to_string());
        start = end;
    }
    out
}
