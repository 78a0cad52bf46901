//! Coalescing of high-frequency text deltas for async producers: the policies, the flush
//! decisions and the statistics. The channel and timer plumbing lives with the caller.
use vstd::prelude::*;
use vstd::string::StringSliceAdditionalSpecFns;
use std::time::Duration;
use crate::text::{contains_byte, string_push_str};

verus! {

broadcast use vstd::string::group_string_axioms;

/// What `Duration::from_millis` returns for a number of milliseconds.
pub uninterp spec fn millis(ms: u64) -> Duration;

/// `Duration::from_millis`: the duration of that many milliseconds.
#[verifier::external_body]
fn duration_from_millis(ms: u64) -> (r: Duration)
    ensures
        r == millis(ms),
{
    Duration::from_millis(ms)
}

#[derive(Clone, Copy, Debug)]
pub struct CoalesceOptions {
    /// Flush once a newline is observed in the buffered text.
    pub flush_on_newline: bool,
    /// Flush if no flush happened for this duration (progress guarantee).
    pub max_delay: Duration,
    /// Flush when buffered bytes reach this limit.
    pub max_bytes: usize,
}

impl Default for CoalesceOptions {
    fn default() -> (r: Self)
        ensures
            r.flush_on_newline,
            r.max_delay == millis(60),
            r.max_bytes == 8 * 1024,
    {
        CoalesceOptions {
            flush_on_newline: true,
            max_delay: duration_from_millis(60),
            max_bytes: 8 * 1024,
        }
    }
}

#[derive(Clone, Copy, Debug, PartialEq, Eq, Structural)]
pub enum CoalescePreset {
    Balanced,
    Fast,
    TimeOnly,
}

impl CoalescePreset {
    /// The next preset in the cycle Balanced, Fast, TimeOnly.
    pub fn next(self) -> (r: Self)
        ensures
            r == match self {
                CoalescePreset::Balanced => CoalescePreset::Fast,
                CoalescePreset::Fast => CoalescePreset::TimeOnly,
                CoalescePreset::TimeOnly => CoalescePreset::Balanced,
            },
    {
        match self {
            CoalescePreset::Balanced => CoalescePreset::Fast,
            CoalescePreset::Fast => CoalescePreset::TimeOnly,
            CoalescePreset::TimeOnly => CoalescePreset::Balanced,
        }
    }

    pub fn label(self) -> (r: &'static str)
        ensures
            r@ == match self {
                CoalescePreset::Balanced => "balanced"@,
                CoalescePreset::Fast => "fast"@,
                CoalescePreset::TimeOnly => "time-only"@,
            },
    {
        match self {
            CoalescePreset::Balanced => "balanced",
            CoalescePreset::Fast => "fast",
            CoalescePreset::TimeOnly => "time-only",
        }
    }

    pub fn options(self) -> (r: CoalesceOptions)
        ensures
            match self {
                CoalescePreset::Balanced => r.flush_on_newline && r.max_delay == millis(80)
                    && r.max_bytes == 16 * 1024,
                CoalescePreset::Fast => r.flush_on_newline && r.max_delay == millis(30)
                    && r.max_bytes == 4 * 1024,
                CoalescePreset::TimeOnly => !r.flush_on_newline && r.max_delay == millis(60)
                    && r.max_bytes == 4 * 1024,
            },
    {
        match self {
            CoalescePreset::Balanced => CoalesceOptions {
                flush_on_newline: true,
                max_delay: duration_from_millis(80),
                max_bytes: 16 * 1024,
            },
            CoalescePreset::Fast => CoalesceOptions {
                flush_on_newline: true,
                max_delay: duration_from_millis(30),
                max_bytes: 4 * 1024,
            },
            CoalescePreset::TimeOnly => CoalesceOptions {
                flush_on_newline: false,
                max_delay: duration_from_millis(60),
                max_bytes: 4 * 1024,
            },
        }
    }
}

#[derive(Clone, Copy, Debug, PartialEq, Eq, Structural)]
pub enum BackpressurePolicy {
    /// Await capacity. Never drops.
    Block,
    /// Drop the new delta when the channel is full.
    DropNew,
    /// Buffer locally and try to flush opportunistically.
    CoalesceLocal,
}

#[derive(Clone, Copy, Debug, PartialEq, Eq, Structural)]
pub enum SendOutcome {
    Sent,
    Dropped,
    Buffered,
}

#[derive(Clone, Copy, Debug, PartialEq, Eq, Structural)]
pub enum SendError {
    Closed,
}

#[derive(Clone, Copy, Debug, PartialEq, Eq, Structural)]
pub enum FlushReason {
    Newline,
    MaxDelay,
    MaxBytes,
    ChannelClosed,
}

#[derive(Clone, Debug, PartialEq, Eq)]
pub struct CoalescedChunk {
    pub text: String,
    pub reason: FlushReason,
    /// Number of input messages merged into this output chunk.
    pub merged_messages: usize,
}

#[derive(Clone, Copy, Debug, Default, PartialEq, Eq, Structural)]
pub struct CoalesceStats {
    pub total_in_messages: u64,
    pub total_out_chunks: u64,
    pub total_out_bytes: u64,
    pub last_reason: Option<FlushReason>,
    pub last_merged_messages: usize,
    pub last_bytes: usize,
}

/// `a + b`, or `u64::MAX` when that overflows.
pub open spec fn sat_add(a: u64, b: int) -> u64 {
    if a + b > u64::MAX {
        u64::MAX
    } else {
        (a + b) as u64
    }
}

/// The statistics after a flush of `bytes` bytes merged from `merged` messages.
pub open spec fn stats_after(s: CoalesceStats, reason: FlushReason, merged: usize, bytes: usize) -> CoalesceStats {
    CoalesceStats {
        total_in_messages: sat_add(s.total_in_messages, merged as int),
        total_out_chunks: sat_add(s.total_out_chunks, 1),
        total_out_bytes: sat_add(s.total_out_bytes, bytes as int),
        last_reason: Some(reason),
        last_merged_messages: merged,
        last_bytes: bytes,
    }
}

impl CoalesceStats {
    pub fn new() -> (r: Self)
        ensures
            r == (CoalesceStats {
                total_in_messages: 0,
                total_out_chunks: 0,
                total_out_bytes: 0,
                last_reason: None,
                last_merged_messages: 0,
                last_bytes: 0,
            }),
    {
        CoalesceStats {
            total_in_messages: 0,
            total_out_chunks: 0,
            total_out_bytes: 0,
            last_reason: None,
            last_merged_messages: 0,
            last_bytes: 0,
        }
    }

    /// Record a flush.
    pub fn record(&mut self, reason: FlushReason, merged: usize, bytes: usize)
        ensures
            *final(self) == stats_after(*old(self), reason, merged, bytes),
    {
        self.total_in_messages = self.total_in_messages.saturating_add(merged as u64);
        self.total_out_chunks = self.total_out_chunks.saturating_add(1);
        self.total_out_bytes = self.total_out_bytes.saturating_add(bytes as u64);
        self.last_reason = Some(reason);
        self.last_merged_messages = merged;
        self.last_bytes = bytes;
    }
}

/// Why buffered text must be flushed now: the byte limit first, then a newline when enabled.
pub open spec fn spec_flush_reason(buf: Seq<u8>, opts: CoalesceOptions) -> Option<FlushReason> {
    if buf.len() >= opts.max_bytes {
        Some(FlushReason::MaxBytes)
    } else if opts.flush_on_newline && buf.contains(10u8) {
        Some(FlushReason::Newline)
    } else {
        None
    }
}

/// The receiver side of coalescing: the text merged from incoming messages since the last
/// flush, how many messages it merged, and the statistics of the flushes so far. The caller
/// owns the channel and the timer and feeds their outcomes in: a message (`push`), a check
/// (`poll_flush`), the deadline passing (`flush` with `MaxDelay`), the channel closing (`close`).
pub struct Coalescer {
    buf: String,
    merged: usize,
    stats: CoalesceStats,
}

impl Coalescer {
    pub closed spec fn text(&self) -> Seq<char> {
        self.buf@
    }

    pub closed spec fn merged_view(&self) -> usize {
        self.merged
    }

    pub closed spec fn stats_view(&self) -> CoalesceStats {
        self.stats
    }

    pub fn new() -> (r: Self)
        ensures
            r.text().len() == 0,
            r.merged_view() == 0,
            r.stats_view() == CoalesceStats::new_spec(),
    {
        Coalescer { buf: String::new(), merged: 0, stats: CoalesceStats::new() }
    }

    pub fn is_empty(&self) -> (r: bool)
        ensures
            r == (self.text().len() == 0),
    {
        self.buf.as_str().is_empty()
    }

    /// Number of messages merged since the last flush.
    pub fn merged(&self) -> (r: usize)
        ensures
            r == self.merged_view(),
    {
        self.merged
    }

    pub fn stats(&self) -> (r: CoalesceStats)
        ensures
            r == self.stats_view(),
    {
        self.stats
    }

    /// Merge an incoming message.
    pub fn push(&mut self, s: &str)
        requires
            old(self).merged_view() < usize::MAX,
        ensures
            final(self).text() == old(self).text() + s@,
            final(self).merged_view() == old(self).merged_view() + 1,
            final(self).stats_view() == old(self).stats_view(),
    {
        string_push_str(&mut self.buf, s);
        self.merged = self.merged + 1;
    }

    /// Whether the buffered text must be flushed now, and why.
    pub fn should_flush_reason(&self, opts: &CoalesceOptions) -> (r: Option<FlushReason>)
        ensures
            r == spec_flush_reason(encode_utf8_of(self.text()), *opts),
    {
        let b = self.buf.as_str().as_bytes();
        if b.len() >= opts.max_bytes {
            return Some(FlushReason::MaxBytes);
        }
        if opts.flush_on_newline && contains_byte(b, 10) {
            return Some(FlushReason::Newline);
        }
        None
    }

    /// Hand out the buffered text as a chunk, reset the merge count and record the flush.
    pub fn flush(&mut self, reason: FlushReason) -> (r: CoalescedChunk)
        ensures
            r.text@ == old(self).text(),
            r.reason == reason,
            r.merged_messages == old(self).merged_view(),
            final(self).text().len() == 0,
            final(self).merged_view() == 0,
            final(self).stats_view() == stats_after(
                old(self).stats_view(),
                reason,
                old(self).merged_view(),
                encode_utf8_of(old(self).text()).len() as usize,
            ),
    {
        let text = self.buf.clone();
        self.buf = String::new();
        let merged = self.merged;
        self.merged = 0;
        let bytes = text.as_str().as_bytes().len();
        self.stats.record(reason, merged, bytes);
        CoalescedChunk { text, reason, merged_messages: merged }
    }

    /// Flush when a size or newline rule asks for it; otherwise leave everything as it is.
    pub fn poll_flush(&mut self, opts: &CoalesceOptions) -> (r: Option<CoalescedChunk>)
        ensures
            match spec_flush_reason(encode_utf8_of(old(self).text()), *opts) {
                Some(reason) => r.is_some() && r.unwrap().text@ == old(self).text()
                    && r.unwrap().reason == reason
                    && r.unwrap().merged_messages == old(self).merged_view()
                    && final(self).text().len() == 0 && final(self).merged_view() == 0
                    && final(self).stats_view() == stats_after(
                    old(self).stats_view(),
                    reason,
                    old(self).merged_view(),
                    encode_utf8_of(old(self).text()).len() as usize,
                ),
                None => r.is_none() && *final(self) == *old(self),
            },
    {
        match self.should_flush_reason(opts) {
            Some(reason) => Some(self.flush(reason)),
            None => None,
        }
    }

    /// The channel closed: flush what is left once, or report that nothing is.
    pub fn close(&mut self) -> (r: Option<CoalescedChunk>)
        ensures
            old(self).text().len() == 0 ==> r.is_none() && *final(self) == *old(self),
            old(self).text().len() > 0 ==> r.is_some() && r.unwrap().text@ == old(self).text()
                && r.unwrap().reason == FlushReason::ChannelClosed
                && r.unwrap().merged_messages == old(self).merged_view()
                && final(self).text().len() == 0 && final(self).merged_view() == 0
                && final(self).stats_view() == stats_after(
                old(self).stats_view(),
                FlushReason::ChannelClosed,
                old(self).merged_view(),
                encode_utf8_of(old(self).text()).len() as usize,
            ),
    {
        if self.is_empty() {
            None
        } else {
            Some(self.flush(FlushReason::ChannelClosed))
        }
    }
}

impl CoalesceStats {
    pub open spec fn new_spec() -> CoalesceStats {
        CoalesceStats {
            total_in_messages: 0,
            total_out_chunks: 0,
            total_out_bytes: 0,
            last_reason: None,
            last_merged_messages: 0,
            last_bytes: 0,
        }
    }
}

pub open spec fn encode_utf8_of(s: Seq<char>) -> Seq<u8> {
    vstd::utf8::encode_utf8(s)
}

/// The producer side's local buffer for `BackpressurePolicy::CoalesceLocal`.
pub struct LocalBuffer {
    buf: String,
    max_bytes: usize,
}

impl LocalBuffer {
    pub closed spec fn text(&self) -> Seq<char> {
        self.buf@
    }

    pub closed spec fn max(&self) -> usize {
        self.max_bytes
    }

    pub fn new() -> (r: Self)
        ensures
            r.text().len() == 0,
            r.max() == 16 * 1024,
    {
        LocalBuffer { buf: String::new(), max_bytes: 16 * 1024 }
    }

    /// Set the flush threshold, at least one byte.
    pub fn set_max_bytes(&mut self, max: usize)
        ensures
            final(self).max() == if max < 1 {
                1
            } else {
                max
            },
            final(self).text() == old(self).text(),
    {
        self.max_bytes = if max < 1 {
            1
        } else {
            max
        };
    }

    pub fn is_empty(&self) -> (r: bool)
        ensures
            r == (self.text().len() == 0),
    {
        self.buf.as_str().is_empty()
    }

    /// Append a delta; `true` when the buffer should now be sent (threshold reached or a
    /// newline present).
    pub fn push(&mut self, delta: &str) -> (r: bool)
        ensures
            final(self).text() == old(self).text() + delta@,
            final(self).max() == old(self).max(),
            r == (encode_utf8_of(final(self).text()).len() >= final(self).max() || encode_utf8_of(
                final(self).text(),
            ).contains(10u8)),
    {
        string_push_str(&mut self.buf, delta);
        let b = self.buf.as_str().as_bytes();
        b.len() >= self.max_bytes || contains_byte(b, 10)
    }

    /// Take the buffered text, leaving the buffer empty.
    pub fn take(&mut self) -> (r: String)
        ensures
            r@ == old(self).text(),
            final(self).text().len() == 0,
            final(self).max() == old(self).max(),
    {
        let t = self.buf.clone();
        self.buf = String::new();
        t
    }

    /// Put back text that could not be sent.
    pub fn restore(&mut self, s: String)
        ensures
            final(self).text() == s@,
            final(self).max() == old(self).max(),
    {
        self.buf = s;
    }
}

/// Flush statistics only grow: recording a flush never lowers the message, chunk or byte
/// totals, and counts exactly one more chunk unless the count is already at its maximum.
pub proof fn law_stats_totals_never_decrease(s: CoalesceStats, reason: FlushReason, merged: usize, bytes: usize)
    ensures
        stats_after(s, reason, merged, bytes).total_in_messages >= s.total_in_messages,
        stats_after(s, reason, merged, bytes).total_out_chunks >= s.total_out_chunks,
        stats_after(s, reason, merged, bytes).total_out_bytes >= s.total_out_bytes,
        s.total_out_chunks < u64::MAX ==> stats_after(s, reason, merged, bytes).total_out_chunks
            == s.total_out_chunks + 1,
{
}

/// Coalescing keeps the text: the chunk handed out after messages `a` and then `b` were merged
/// into an empty coalescer is `a` followed by `b`, and it counts both messages.
pub proof fn law_coalescing_keeps_text(
    c0: Coalescer,
    c1: Coalescer,
    c2: Coalescer,
    a: Seq<char>,
    b: Seq<char>,
    chunk: CoalescedChunk,
)
    requires
        c0.text().len() == 0,
        c0.merged_view() == 0,
        c1.text() == c0.text() + a,
        c1.merged_view() == c0.merged_view() + 1,
        c2.text() == c1.text() + b,
        c2.merged_view() == c1.merged_view() + 1,
        chunk.text@ == c2.text(),
        chunk.merged_messages == c2.merged_view(),
    ensures
        chunk.text@ == a + b,
        chunk.merged_messages == 2,
{
    assert(c0.text() + a =~= a);
}

} // verus!
