//! Per-session input recording.
//!
//! A recording buffers encoded input events and decides, per event,
//! whether the log must be flushed now: immediately when the event text
//! holds a newline or carriage return (the end of a logical command),
//! when 16 KiB of unflushed bytes have accumulated, or when 1.5 seconds
//! have passed since the last flush.
use vstd::prelude::*;
use vstd::utf8::encode_utf8;
use crate::jsonl::spec_input_line;
use crate::jsonl::encode_input_line;

verus! {

/// Unflushed bytes that force a flush.
pub const FLUSH_BYTES: usize = 16384;

/// Milliseconds since the last flush that force a flush.
pub const FLUSH_INTERVAL_MS: u64 = 1500;

/// The live state of one session's recording. The open log file stays
/// with the caller; this tracks what the flush policy needs.
pub struct RecordingState {
    /// The sanitized recording id.
    pub id: String,
    /// Monotonic time at which the recording started.
    pub started_at_ms: u64,
    /// Monotonic time of the last flush.
    pub last_flush_ms: u64,
    /// Bytes appended to the log since the last flush.
    pub unflushed_bytes: usize,
}

/// Milliseconds from `start` to `now` on a monotonic clock (zero when
/// `now` reads earlier).
pub open spec fn elapsed_ms(start: u64, now: u64) -> nat {
    if now >= start {
        (now - start) as nat
    } else {
        0
    }
}

/// True when the text holds a newline or carriage return.
pub open spec fn has_line_break(s: Seq<char>) -> bool {
    exists|i: int| 0 <= i < s.len() && (s[i] == '\n' || s[i] == '\r')
}

/// The flush decision for one recorded event: flush on a line break in
/// the event text, on 16 KiB of unflushed bytes, or after 1.5 s.
pub open spec fn spec_should_flush(
    data: Seq<char>,
    unflushed_after: nat,
    last_flush_ms: u64,
    now_ms: u64,
) -> bool {
    ||| has_line_break(data)
    ||| unflushed_after >= FLUSH_BYTES
    ||| elapsed_ms(last_flush_ms, now_ms) >= FLUSH_INTERVAL_MS
}

/// How recording one event changes the bookkeeping: `line` is the
/// encoded event, `flush` the decision, and the counters reset exactly
/// when a flush happens.
pub open spec fn record_transition(
    pre: RecordingState,
    post: RecordingState,
    data: Seq<char>,
    now_ms: u64,
    line: Seq<char>,
    flush: bool,
) -> bool {
    &&& line == spec_input_line(elapsed_ms(pre.started_at_ms, now_ms), data)
    &&& flush == spec_should_flush(
        data,
        pre.unflushed_after(RecordingState::line_cost(line)),
        pre.last_flush_ms,
        now_ms,
    )
    &&& post.id == pre.id
    &&& post.started_at_ms == pre.started_at_ms
    &&& (if flush {
        post.unflushed_bytes == 0 && post.last_flush_ms == now_ms
    } else {
        post.unflushed_bytes == pre.unflushed_after(RecordingState::line_cost(line))
            && post.last_flush_ms == pre.last_flush_ms
    })
}

/// Whether the text holds a newline or carriage return.
fn contains_line_break(data: &str) -> (r: bool)
    ensures
        r == has_line_break(data@),
{
    let n = data.unicode_len();
    let mut i: usize = 0;
    while i < n
        invariant
            0 <= i <= n,
            n == data@.len(),
            forall|k: int| 0 <= k < i ==> !(data@[k] == '\n' || #[trigger] data@[k] == '\r'),
        decreases n - i,
    {
        let c = data.get_char(i);
        if c == '\n' || c == '\r' {
            return true;
        }
        i = i + 1;
    }
    false
}

impl RecordingState {
    /// Opens the bookkeeping for a new recording: started now, counted
    /// as freshly flushed (the caller writes and flushes the metadata
    /// line first).
    pub fn new(id: String, now_ms: u64) -> (r: RecordingState)
        ensures
            r.id == id,
            r.started_at_ms == now_ms,
            r.last_flush_ms == now_ms,
            r.unflushed_bytes == 0,
    {
        RecordingState { id, started_at_ms: now_ms, last_flush_ms: now_ms, unflushed_bytes: 0 }
    }

    /// The byte length of an encoded line as the counter sees it.
    pub open spec fn line_cost(line: Seq<char>) -> nat {
        (encode_utf8(line).len() as usize) as nat
    }

    /// The number of unflushed bytes after appending `line_bytes` plus
    /// its newline, saturating at the counter's limit.
    pub open spec fn unflushed_after(self, line_bytes: nat) -> nat {
        if self.unflushed_bytes + line_bytes + 1 > usize::MAX {
            usize::MAX as nat
        } else {
            (self.unflushed_bytes + line_bytes + 1) as nat
        }
    }

    /// Records one user-input event: encodes its JSON line, stamped
    /// with the milliseconds since the recording started, counts the
    /// line and its newline against the flush threshold, and decides
    /// whether the caller must flush the log now. The caller appends
    /// the line plus a newline to the log, and flushes iff told to.
    pub fn record_input(&mut self, data: &str, now_ms: u64) -> (r: (String, bool))
        ensures
            record_transition(*old(self), *final (self), data@, now_ms, r.0@, r.1),
    {
        let t = now_ms.saturating_sub(self.started_at_ms);
        let line = encode_input_line(t, data);
        let line_str = line.as_str();
        let line_len = line_str.len();
        proof {
            assert(line_len == RecordingState::line_cost(line@));
        }
        self.unflushed_bytes = self.unflushed_bytes.saturating_add(line_len).saturating_add(1);
        proof {
            assert(self.unflushed_bytes == old(self).unflushed_after(RecordingState::line_cost(line@)));
        }
        let elapsed = now_ms.saturating_sub(self.last_flush_ms);
        let flush = contains_line_break(data) || self.unflushed_bytes >= FLUSH_BYTES || elapsed
            >= FLUSH_INTERVAL_MS;
        if flush {
            self.unflushed_bytes = 0;
            self.last_flush_ms = now_ms;
        }
        (line, flush)
    }
}

} // verus!
