# mdstream

Streaming-first Markdown block splitting, verified with Verus.

Text arrives in chunks (for example from an LLM token stream). `MdStream` splits it into
committed blocks, which never change again, and one pending block, which carries a display
version with incomplete constructs terminated. `DocumentState` keeps a UI-side copy in step.

Layout:

- `src/stream/` — the stream: line table (`lines.rs`), line classification (`classify.rs`),
  the splitting state machine and its functional model (`split.rs`), pending display
  (`display.rs`), HTML block tracking (`html.rs`), laws over several calls (`laws.rs`).
- `src/pending/` — termination of partial Markdown in the pending tail.
- `src/reference.rs` — reference-style link labels for late-definition invalidation.
- `src/boundary.rs`, `src/transform.rs`, `src/analyze.rs` — extension points: boundary plugins,
  pending transformers, per-block analyzers.
- `src/adapters/pulldown.rs` — per-block `pulldown-cmark` event caching.
- `src/coalesce.rs` — coalescing rules and statistics for async producers.
- `app/` — Tokio channel and timer plumbing around `src/coalesce.rs` and `MdStream`.
