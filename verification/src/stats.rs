//! Throughput counters and the periodic summary they feed.

use vstd::prelude::*;

verus! {

/// Milliseconds between two summaries.
pub const STATS_INTERVAL_MS: u64 = 15000;

/// A summary is due once the interval has elapsed since the window began.
pub open spec fn flush_due(window_start: u64, now: u64) -> bool {
    now >= window_start + STATS_INTERVAL_MS
}

/// Counts over one reporting window.
pub struct StatsSummary {
    pub payloads: u64,
    pub bytes: u64,
    pub detections: u64,
    pub window_ms: u64,
}

/// Counters since the last flush, and when the current window began.
pub struct StatsReporter {
    pub payloads: u64,
    pub bytes: u64,
    pub detections: u64,
    pub window_start: u64,
}

impl StatsReporter {
    /// A reporter whose first window starts at `now`, all counters zero.
    pub fn new(now: u64) -> (r: Self)
        ensures
            r.payloads == 0,
            r.bytes == 0,
            r.detections == 0,
            r.window_start == now,
    {
        StatsReporter { payloads: 0, bytes: 0, detections: 0, window_start: now }
    }

    /// Adds to the three counters, saturating at the largest value.
    pub fn record(&mut self, payloads: u64, bytes: u64, detections: u64)
        ensures
            final(self).payloads == old(self).payloads.saturating_add(payloads),
            final(self).bytes == old(self).bytes.saturating_add(bytes),
            final(self).detections == old(self).detections.saturating_add(detections),
            final(self).window_start == old(self).window_start,
    {
        self.payloads = self.payloads.saturating_add(payloads);
        self.bytes = self.bytes.saturating_add(bytes);
        self.detections = self.detections.saturating_add(detections);
    }

    /// Emits a summary of the window and zeroes the counters exactly when
    /// the interval has elapsed since the window began; otherwise changes
    /// nothing.  The next window starts at `now`, so the cadence drifts by
    /// however late the check was made.
    pub fn maybe_flush(&mut self, now: u64) -> (r: Option<StatsSummary>)
        ensures
            flush_due(old(self).window_start, now) ==> ({
                &&& r matches Some(s)
                &&& s.payloads == old(self).payloads
                &&& s.bytes == old(self).bytes
                &&& s.detections == old(self).detections
                &&& s.window_ms == now - old(self).window_start
                &&& final(self).payloads == 0
                &&& final(self).bytes == 0
                &&& final(self).detections == 0
                &&& final(self).window_start == now
            }),
            !flush_due(old(self).window_start, now) ==> r is None && *final(self) == *old(self),
    {
        if now >= self.window_start && now - self.window_start >= STATS_INTERVAL_MS {
            let s = StatsSummary {
                payloads: self.payloads,
                bytes: self.bytes,
                detections: self.detections,
                window_ms: now - self.window_start,
            };
            self.payloads = 0;
            self.bytes = 0;
            self.detections = 0;
            self.window_start = now;
            Some(s)
        } else {
            None
        }
    }
}

/// Right after a flush at `now`, no further summary is due before a full
/// interval has passed: each summary covers one whole interval and the
/// counters restart from zero.
pub proof fn lemma_flush_cadence(now: u64, t: u64)
    requires
        t < now + STATS_INTERVAL_MS,
    ensures
        !flush_due(now, t),
{
}

} // verus!
