//! Streaming-first Markdown block splitting.
pub mod syntax;
pub mod text;

pub use syntax::{
    is_code_fence_closing_line, is_list_marker_line_prefix, parse_code_fence_header,
    parse_code_fence_header_from_block, CodeFenceHeader,
};
pub mod types;
pub use types::{AppliedUpdate, Block, BlockId, BlockKind, BlockStatus, PendingBlockRef, Update, UpdateRef};
pub mod state;
pub use state::DocumentState;
pub mod pending;
pub mod options;
pub use options::{FootnotesMode, Options, ReferenceDefinitionsMode};
pub mod stream;
pub mod reference;
pub mod adapters;
pub mod transform;
pub use transform::{
    FnPendingTransformer, IncompleteImageDropTransformer, IncompleteLinkPlaceholderTransformer,
    PendingTransformInput, PendingTransformer,
};
pub mod boundary;
pub use boundary::{
    BoundaryPlugin, BoundaryUpdate, ContainerBoundaryPlugin, FenceBoundaryPlugin, FnBoundaryPlugin,
    TagBoundaryPlugin,
};
pub use stream::MdStream;
pub use pending::terminate_markdown;
pub mod analyze;
pub use analyze::{
    AnalyzedStream, AnalyzedUpdate, BlockAnalyzer, BlockHintAnalyzer, BlockHintMeta, BlockMeta,
    CodeFenceAnalyzer, CodeFenceClass, CodeFenceMeta, MathAnalyzer, MathMeta, TaggedBlockAnalyzer,
    TaggedBlockMeta,
};
pub mod coalesce;
pub use coalesce::{
    BackpressurePolicy, CoalesceOptions, CoalescePreset, CoalesceStats, CoalescedChunk, Coalescer,
    FlushReason, LocalBuffer, SendError, SendOutcome,
};
