use mdstream::adapters::pulldown::{PulldownAdapter, PulldownAdapterOptions};
use mdstream::{MdStream, Options, ReferenceDefinitionsMode};
use pulldown_cmark::{Event, Tag};

fn contains_link(events: &[Event<'static>]) -> bool {
    events
        .iter()
        .any(|e| matches!(e, Event::Start(Tag::Link { .. })))
}

#[test]
fn pulldown_adapter_reparses_invalidated_blocks_with_reference_definitions() {
    let opts = Options {
        reference_definitions: ReferenceDefinitionsMode::Invalidate,
        ..Default::default()
    };

    let mut s = MdStream::new(opts);
    let mut a = PulldownAdapter::new(PulldownAdapterOptions::default());

    // Start paragraph with a shortcut reference.
    s.append("See [ref].\n\n");

    // Starting the definition line commits the previous paragraph block.
    let u1 = s.append("[ref]: https://example.com\n");
    a.apply_update(&u1);
    let block1_id = u1.committed[0].id;

    let e1 = a.committed_events(block1_id).expect("events");
    assert!(!contains_link(e1), "definition not committed yet");

    // Commit the definition block, which should invalidate block 1.
    s.append("\n");
    let u2 = s.append("Next\n");
    a.apply_update(&u2);

    assert!(u2.invalidated.contains(&block1_id));
    let e2 = a.committed_events(block1_id).expect("events");
    assert!(
        contains_link(e2),
        "block should be re-parsed with definitions"
    );
}

#[test]
fn pulldown_adapter_keeps_latest_definition_per_label_and_parses_pending() {
    let mut a = PulldownAdapter::default();
    let mut s = MdStream::new(Options::default());
    let u = s.append("[b]: https://b.example\n[a]: https://a.example\n\n[b]: https://new.example\n\nSee [a] and [b].\n");
    a.apply_update(&u);
    let pending = u.pending.expect("pending paragraph");
    let ev = a.parse_pending(&pending);
    let dests: Vec<String> = ev
        .iter()
        .filter_map(|e| match e {
            Event::Start(Tag::Link { dest_url, .. }) => Some(dest_url.to_string()),
            _ => None,
        })
        .collect();
    assert_eq!(dests, vec!["https://a.example".to_string(), "https://new.example".to_string()]);
    a.clear();
    let ev = a.parse_pending(&pending);
    assert!(!contains_link(&ev));
    assert!(a.committed_events(u.committed[0].id).is_none());
}
