use mdstream::pending::terminate_markdown;
use mdstream::stream::display::{is_json_language, json_display_with_repair, json_fence_body_of};
use mdstream::parse_code_fence_header_from_block;
use mdstream::pending::TerminatorOptions;
use mdstream::reference::{
    extract_reference_definition_label, extract_reference_usages, normalize_reference_label,
};
use mdstream::{
    BlockKind, BlockStatus, CoalesceOptions, CoalescePreset, CoalesceStats, Coalescer,
    DocumentState, FlushReason, LocalBuffer, MdStream, Options, Update,
};
use mdstream::{BoundaryPlugin, BoundaryUpdate, PendingTransformInput, PendingTransformer};
use std::time::Duration;

fn committed_of(s: &MdStream) -> Vec<(u64, String)> {
    s.snapshot_blocks()
        .into_iter()
        .filter(|b| b.status == BlockStatus::Committed)
        .map(|b| (b.id.0, b.raw))
        .collect()
}

#[test]
fn crlf_split_across_chunks_matches_single_chunk() {
    let mut a = MdStream::new(Options::default());
    a.append("# T\r");
    a.append("\nbody\r\rmore\r");
    a.append("\n");
    let mut b = MdStream::new(Options::default());
    b.append("# T\r\nbody\r\rmore\r\n");
    assert_eq!(a.buffer(), "# T\nbody\n\nmore\n");
    assert_eq!(b.buffer(), "# T\nbody\n\nmore\n");
    assert_eq!(committed_of(&a), committed_of(&b));
}

#[test]
fn trailing_carriage_return_becomes_line_feed_on_finalize() {
    let mut s = MdStream::new(Options::default());
    let u = s.append("Para\r");
    assert_eq!(s.buffer(), "Para");
    assert_eq!(u.pending.as_ref().unwrap().raw, "Para");
    let f = s.finalize();
    assert_eq!(s.buffer(), "Para\n");
    assert_eq!(f.committed.len(), 1);
    assert_eq!(f.committed[0].raw, "Para\n");
    assert!(!s.buffer().contains('\r'));
}

#[test]
fn compaction_keeps_exactly_the_block_in_progress() {
    let opts = Options { max_buffer_bytes: Some(8), ..Default::default() };
    let mut s = MdStream::new(opts);
    let u = s.append("para one\n\npara two is long");
    assert_eq!(u.committed.len(), 1);
    assert_eq!(u.committed[0].raw, "para one\n\n");
    assert_eq!(s.buffer(), "para two is long");
    assert_eq!(u.pending.as_ref().unwrap().raw, "para two is long");
    let f = s.finalize();
    assert_eq!(f.committed.len(), 1);
    assert_eq!(f.committed[0].raw, "para two is long");
}

#[test]
fn footnote_reset_is_reported_once() {
    let mut s = MdStream::new(Options::default());
    let u1 = s.append("# H\n\nPara\n\n");
    assert!(!u1.reset);
    assert!(!u1.committed.is_empty());
    let u2 = s.append("Note[^1].\n\n");
    assert!(u2.reset);
    let u3 = s.append("[^1]: the note\n\nMore[^2].\n");
    assert!(!u3.reset);
    assert!(u3.committed.is_empty());
    let u4 = s.finalize();
    assert!(!u4.reset);
    assert_eq!(u4.committed.len(), 1);
    assert_eq!(u4.committed[0].id.0, 1);
}

#[test]
fn reset_starts_over_like_a_new_stream() {
    let text = "# T\n\nSee [ref].\n\nNote[^1].\n";
    let mut a = MdStream::new(Options::default());
    a.append("junk\n\n[^9]: x\n\r");
    a.reset();
    assert_eq!(a.buffer(), "");
    assert!(a.snapshot_blocks().is_empty());
    let ua = a.append(text);
    let mut b = MdStream::new(Options::default());
    let ub = b.append(text);
    assert_eq!(ua.reset, ub.reset);
    assert_eq!(ua.committed, ub.committed);
    assert_eq!(ua.pending, ub.pending);
    assert_eq!(a.finalize().committed, b.finalize().committed);
}

#[test]
fn json_fence_display_is_opening_line_and_repaired_body() {
    let raw = b"```json\n{a: 1\n";
    assert_eq!(
        json_display_with_repair(raw, Some("{\"a\": 1}")),
        Some(b"```json\n{\"a\": 1}".to_vec())
    );
    assert_eq!(json_display_with_repair(raw, None), None);
    assert_eq!(json_display_with_repair(b"```json", Some("{}")), None);
}

struct Shout;

impl PendingTransformer for Shout {
    fn transform(&self, input: PendingTransformInput<'_>) -> Option<String> {
        Some(input.display.to_uppercase())
    }
}

struct Never;

impl BoundaryPlugin for Never {
    fn matches_start(&self, _line: &str) -> bool {
        false
    }

    fn start(&mut self, _line: &str) {}

    fn update(&mut self, _line: &str) -> BoundaryUpdate {
        BoundaryUpdate::Continue
    }
}

#[test]
fn user_transformers_and_plugins_plug_in() {
    let mut s = MdStream::new(Options::default());
    s.push_pending_transformer(Shout);
    s.push_boundary_plugin(Never);
    let u = s.append("# T\n\nhello *wor");
    assert!(u.committed.iter().any(|b| b.raw.starts_with("# T\n")));
    let p = u.pending.unwrap();
    assert_eq!(p.raw, "hello *wor");
    assert_eq!(p.display.as_deref(), Some("HELLO *WOR*"));
}

#[test]
fn streamdown_defaults_drop_an_incomplete_image() {
    let mut s = MdStream::streamdown_defaults();
    let r = s.append("Before ![alt](");
    let p = r.pending.unwrap();
    assert_eq!(p.raw, "Before ![alt](");
    assert_eq!(p.display.as_deref(), Some("Before "));
}

#[test]
fn finalize_turns_a_held_back_carriage_return_into_a_line_feed() {
    let mut s = MdStream::new(Options::default());
    s.append("a\r\nb\r");
    assert_eq!(s.buffer(), "a\nb");
    s.finalize();
    assert_eq!(s.buffer(), "a\nb\n");
}

#[test]
fn block_ids_rise_and_pending_id_is_above_them() {
    let mut s = MdStream::new(Options::default());
    let u = s.append("# A\n\npara\n\n- x\n\n> q\n\nrest");
    let ids: Vec<u64> = u.committed.iter().map(|b| b.id.0).collect();
    assert!(ids.len() >= 3);
    assert!(ids.windows(2).all(|w| w[0] < w[1]));
    let p = u.pending.unwrap();
    assert!(ids.iter().all(|&i| i < p.id.0));
}

#[test]
fn committed_blocks_are_consecutive_slices_of_the_text() {
    let text = "# A\n\npara one\nstill\n\n\n- x\n- y\n\nrest";
    let mut s = MdStream::new(Options::default());
    let u = s.append(text);
    let mut joined = String::new();
    for b in &u.committed {
        joined.push_str(&b.raw);
    }
    joined.push_str(&u.pending.unwrap().raw);
    let squash = |t: &str| t.split('\n').filter(|l| !l.trim().is_empty()).collect::<Vec<_>>().join("\n");
    assert_eq!(squash(&joined), squash(text));
    let mut at = 0usize;
    for b in &u.committed {
        let k = text[at..].find(b.raw.as_str()).unwrap();
        assert!(text[at..at + k].trim().is_empty());
        at += k + b.raw.len();
    }
}

#[test]
fn empty_append_changes_nothing() {
    let mut s = MdStream::new(Options::default());
    s.append("# Title\n\nHello **wor");
    let before = s.buffer().to_string();
    let blocks_before = s.snapshot_blocks().len();
    for _ in 0..3 {
        let u = s.append("");
        assert!(u.committed.is_empty());
        assert!(!u.reset);
        assert_eq!(u.pending.as_ref().map(|p| p.raw.clone()), Some("Hello **wor".to_string()));
    }
    assert_eq!(s.buffer(), before);
    assert_eq!(s.snapshot_blocks().len(), blocks_before);
}

#[test]
fn committed_ids_never_go_down() {
    let mut s = MdStream::new(Options::default());
    let mut ids = Vec::new();
    for chunk in ["# A\n", "\npara one\n", "\n- item\n", "\n> quote\n", "\n# B\n", "tail"] {
        let u = s.append(chunk);
        ids.extend(u.committed.iter().map(|b| b.id.0));
    }
    let u = s.finalize();
    ids.extend(u.committed.iter().map(|b| b.id.0));
    assert!(ids.len() >= 5);
    for w in ids.windows(2) {
        assert!(w[0] < w[1], "ids {ids:?}");
    }
}

#[test]
fn document_state_mirrors_stream_through_reset() {
    let mut s = MdStream::new(Options::default());
    let mut st = DocumentState::new();
    let mut saw_reset = false;
    for chunk in ["# H\n\n", "Paragraph\n\n", "With footnote[^1].\n", "\n[^1]: note\n"] {
        let u: Update = s.append(chunk);
        saw_reset |= u.reset;
        st.apply(u);
        let mine: Vec<(u64, String)> = st.committed().iter().map(|b| (b.id.0, b.raw.clone())).collect();
        assert_eq!(mine, committed_of(&s));
    }
    assert!(saw_reset);
    let u = s.finalize();
    st.apply(u);
    let mine: Vec<(u64, String)> = st.committed().iter().map(|b| (b.id.0, b.raw.clone())).collect();
    assert_eq!(mine, committed_of(&s));
    assert_eq!(mine.len(), 1);
    assert_eq!(mine[0].0, 1);
    assert!(st.pending().is_none());
}

#[test]
fn blank_input_never_commits() {
    let mut s = MdStream::new(Options::default());
    let u = s.append("\n\n  \n\t\n");
    assert!(u.committed.is_empty());
    let u = s.finalize();
    assert!(u.committed.is_empty());
    assert!(u.pending.is_none());
}

#[test]
fn terminator_closes_inline_constructs() {
    let o = TerminatorOptions::default();
    assert_eq!(terminate_markdown("Hello **wor", &o), "Hello **wor**");
    assert_eq!(terminate_markdown("Use `code", &o), "Use `code`");
    assert_eq!(terminate_markdown("~~gone", &o), "~~gone~~");
    assert_eq!(terminate_markdown("plain text ", &o), "plain text");
    assert_eq!(terminate_markdown("", &o), "");
}

#[test]
fn terminator_leaves_text_before_window_alone() {
    let o = TerminatorOptions { window_bytes: 6, ..TerminatorOptions::default() };
    let text = "**early** words then the end";
    let out = terminate_markdown(text, &o);
    let head = text.len() - 6;
    assert_eq!(&out[..head], &text[..head]);
}

#[test]
fn reference_labels_normalize_unicode() {
    assert_eq!(normalize_reference_label("  Foo \t  Bar "), Some("foo bar".to_string()));
    assert_eq!(normalize_reference_label("\u{FF21}\u{3000}\u{3000}B"), Some("\u{FF41} b".to_string()));
    assert_eq!(normalize_reference_label("ÄÖ"), Some("äö".to_string()));
    assert_eq!(normalize_reference_label("   "), None);
    assert_eq!(normalize_reference_label(&"x".repeat(201)), None);
    assert_eq!(normalize_reference_label(&"x".repeat(200)), Some("x".repeat(200)));
}

#[test]
fn reference_definitions_and_usages() {
    assert_eq!(
        extract_reference_definition_label(b"   [Foo Bar]: https://x"),
        Some("foo bar".to_string())
    );
    assert_eq!(extract_reference_definition_label(b"    [x]: y"), None);
    assert_eq!(extract_reference_definition_label(b"[^1]: note"), None);
    assert_eq!(extract_reference_definition_label(b"[]: y"), None);
    assert_eq!(
        extract_reference_usages(b"See [a][B] and [c] but not [x](y) or [^1]."),
        vec!["b".to_string(), "c".to_string()]
    );
}

struct JsonFenceRepair;

impl PendingTransformer for JsonFenceRepair {
    fn transform(&self, input: PendingTransformInput<'_>) -> Option<String> {
        if input.kind != BlockKind::CodeFence {
            return None;
        }
        let header = parse_code_fence_header_from_block(input.raw)?;
        if !is_json_language(header.info.as_bytes()) {
            return None;
        }
        let body = json_fence_body_of(input.raw.as_bytes())?;
        let body = String::from_utf8(body).ok()?;
        let repaired = jsonrepair::repair_json(&body, &jsonrepair::Options::default()).ok();
        let display = json_display_with_repair(input.raw.as_bytes(), repaired.as_deref())?;
        String::from_utf8(display).ok()
    }
}

#[test]
fn reference_usages_are_reported_once() {
    assert_eq!(
        extract_reference_usages(b"[a] and [A] then [b][] and [a]"),
        vec!["a".to_string(), "b".to_string()]
    );
    assert_eq!(extract_reference_usages(b"no links here"), Vec::<String>::new());
}

#[test]
fn streamdown_defaults_install_link_and_image_handling() {
    let mut s = MdStream::streamdown_defaults();
    let u = s.append("See [docs](");
    let p = u.pending.expect("pending");
    assert_eq!(p.display.as_deref(), Some("See [docs](streamdown:incomplete-link)"));
    let mut s = MdStream::streamdown_defaults();
    let u = s.append("Before ![alt](");
    let p = u.pending.expect("pending");
    assert_eq!(p.raw, "Before ![alt](");
    assert_eq!(p.display.as_deref(), Some("Before "));
}

#[test]
fn json_fence_display_is_repaired_by_a_transformer() {
    let opts = Options { json_repair_in_fences: true, ..Options::default() };
    let mut s = MdStream::new(opts).with_pending_transformer(JsonFenceRepair);
    let u = s.append("```json\n{name: 'John', age: 30,}\n");
    let p = u.pending.expect("pending fence");
    assert_eq!(p.kind, BlockKind::CodeFence);
    let d = p.display.expect("display");
    assert!(d.starts_with("```json\n"));
    assert!(d.contains("\"name\""));
    assert!(d.contains("\"John\""));
    assert!(!d.contains("'John'"));

    assert_eq!(
        json_fence_body_of(b"```json\n{a: 1}\n```\nafter"),
        Some(b"{a: 1}\n".to_vec())
    );
    assert_eq!(json_fence_body_of(b"```json"), None);

    let mut plain = MdStream::new(Options { json_repair_in_fences: true, ..Options::default() });
    let u = plain.append("```json\n{name: 'John', age: 30,}\n");
    let d = u.pending.expect("pending fence").display.expect("display");
    assert_eq!(d, "```json\n{name: 'John', age: 30,}\n```\n");
}

#[test]
fn coalesces_until_newline_by_default() {
    let opts = CoalesceOptions::default();
    let mut c = Coalescer::new();
    c.push("he");
    assert!(c.poll_flush(&opts).is_none());
    c.push("llo");
    assert!(c.poll_flush(&opts).is_none());
    c.push("\n");
    let got = c.poll_flush(&opts).expect("newline flush");
    assert_eq!(got.text, "hello\n");
    assert_eq!(got.reason, FlushReason::Newline);
    assert_eq!(got.merged_messages, 3);

    let stats = c.stats();
    assert_eq!(stats.total_in_messages, 3);
    assert_eq!(stats.total_out_chunks, 1);
    assert_eq!(stats.last_reason, Some(FlushReason::Newline));
    assert_eq!(stats.total_out_bytes, 6);
    assert!(c.is_empty());
    assert_eq!(c.merged(), 0);
}

#[test]
fn coalescer_flushes_on_size_timeout_and_close() {
    let opts = CoalesceOptions { flush_on_newline: false, max_delay: Duration::from_millis(5), max_bytes: 4 };
    let mut c = Coalescer::new();
    c.push("ab\n");
    assert!(c.poll_flush(&opts).is_none());
    c.push("c");
    let got = c.poll_flush(&opts).expect("size flush");
    assert_eq!(got.reason, FlushReason::MaxBytes);
    assert_eq!(got.text, "ab\nc");

    c.push("x");
    let got = c.flush(FlushReason::MaxDelay);
    assert_eq!(got.text, "x");
    assert_eq!(got.merged_messages, 1);

    assert!(c.close().is_none());
    c.push("tail");
    c.push("");
    let got = c.close().expect("final chunk");
    assert_eq!(got.reason, FlushReason::ChannelClosed);
    assert_eq!(got.merged_messages, 2);

    let stats: CoalesceStats = c.stats();
    assert_eq!(stats.total_in_messages, 5);
    assert_eq!(stats.total_out_chunks, 3);
    assert_eq!(stats.total_out_bytes, 9);
    assert_eq!(stats.last_bytes, 4);
    assert_eq!(stats.last_merged_messages, 2);
    assert_eq!(stats.last_reason, Some(FlushReason::ChannelClosed));
}

#[test]
fn coalesce_presets_cycle_and_configure() {
    assert_eq!(CoalescePreset::Balanced.next(), CoalescePreset::Fast);
    assert_eq!(CoalescePreset::Fast.next(), CoalescePreset::TimeOnly);
    assert_eq!(CoalescePreset::TimeOnly.next(), CoalescePreset::Balanced);
    assert_eq!(CoalescePreset::Balanced.label(), "balanced");
    assert_eq!(CoalescePreset::TimeOnly.label(), "time-only");
    let b = CoalescePreset::Balanced.options();
    assert!(b.flush_on_newline);
    assert_eq!(b.max_delay, Duration::from_millis(80));
    assert_eq!(b.max_bytes, 16 * 1024);
    let t = CoalescePreset::TimeOnly.options();
    assert!(!t.flush_on_newline);
    assert_eq!(t.max_delay, Duration::from_millis(60));
    let d = CoalesceOptions::default();
    assert_eq!(d.max_delay, Duration::from_millis(60));
    assert_eq!(d.max_bytes, 8 * 1024);
}

#[test]
fn delta_sender_coalesce_local_flushes_eventually() {
    let mut buf = LocalBuffer::new();
    buf.set_max_bytes(4);
    assert!(!buf.push("ab"));
    assert!(buf.push("cd"));
    // The channel was full: the text goes back into the buffer.
    let t = buf.take();
    assert!(buf.is_empty());
    buf.restore(t);
    assert!(!buf.is_empty());
    assert_eq!(buf.take(), "abcd");

    let mut z = LocalBuffer::new();
    z.set_max_bytes(0);
    assert!(z.push("a"));
    assert!(LocalBuffer::new().push("line\n"));
}

#[test]
fn chunking_at_line_ends_commits_same_blocks() {
    let text = "# A\n\npara one\nstill para\n\n- x\n- y\n\n> q\n\n```rs\nfn f() {}\n```\n\nend\n";
    let mut whole = MdStream::new(Options::default());
    let mut all_whole = whole.append(text).committed;
    all_whole.extend(whole.finalize().committed);

    let mut parts = MdStream::new(Options::default());
    let mut all_parts = Vec::new();
    for line in text.split_inclusive('\n') {
        all_parts.extend(parts.append(line).committed);
    }
    all_parts.extend(parts.finalize().committed);

    let view = |v: &Vec<mdstream::Block>| -> Vec<(u64, BlockKind, String)> {
        v.iter().map(|b| (b.id.0, b.kind, b.raw.clone())).collect()
    };
    assert_eq!(view(&all_parts), view(&all_whole));
    assert_eq!(all_whole.len(), 6);
}
