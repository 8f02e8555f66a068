//! One worker's processing step: reassemble, decode, scan, count.
//!
//! The surrounding loop owns the transport; it hands each datagram's
//! bytes and the current time in here, performs the returned outcome
//! (log detections, log the summary), and goes back to waiting.

use vstd::prelude::*;
use crate::decode::{DecodeError, decode, decoded_entries};
use crate::entries::{DetectionEvent, EventV, events_view};
use crate::reassembly::{BufferV, FragmentReassembler, step, sweep};
use crate::scan::{scan, scan_entries};
use crate::stats::{StatsReporter, StatsSummary, flush_due};

verus! {

/// Milliseconds between two sweeps of stale reassembly buffers.
pub const CLEANUP_INTERVAL_MS: u64 = 5000;

/// A sweep is due once the interval has elapsed since the last one.
pub open spec fn cleanup_due(last_cleanup: u64, now: u64) -> bool {
    now >= last_cleanup + CLEANUP_INTERVAL_MS
}

/// The events one processing step yields: those of the decoded payload
/// when reassembly completed one and it decodes, none otherwise.
pub open spec fn detections_of(output: Option<Seq<u8>>, target: Seq<u8>, disc: Seq<u8>) -> Seq<
    EventV,
> {
    match output {
        Some(p) => match decoded_entries(p) {
            Some(es) => scan_entries(es, target, disc),
            None => Seq::empty(),
        },
        None => Seq::empty(),
    }
}

/// Whether the step produced a complete payload that failed to decode.
pub open spec fn decode_failure(output: Option<Seq<u8>>) -> bool {
    match output {
        Some(p) => decoded_entries(p) is None,
        None => false,
    }
}

/// What one processing step returned to the caller: the detections, in
/// instruction order, a summary when one came due, and whether a
/// complete payload failed to decode (to be logged; never fatal).
pub struct PacketOutcome {
    pub detections: Vec<DetectionEvent>,
    pub summary: Option<StatsSummary>,
    pub decode_failed: bool,
}

/// The per-worker state: the reassembler, the counters, the detection
/// rule (target program identity and instruction discriminator), and
/// when buffers were last swept.
pub struct Pipeline {
    pub reassembler: FragmentReassembler,
    pub stats: StatsReporter,
    pub target_program: Vec<u8>,
    pub discriminator: Vec<u8>,
    pub last_cleanup: u64,
}

impl Pipeline {
    /// The reassembler's buffer map is well formed.
    pub open spec fn wf(&self) -> bool {
        self.reassembler.wf()
    }

    /// A pipeline with no buffers and zero counters, whose first stats
    /// window and sweep interval start at `now`.
    pub fn new(target_program: Vec<u8>, discriminator: Vec<u8>, now: u64) -> (r: Self)
        ensures
            r.wf(),
            r.reassembler@ == Map::<u32, BufferV>::empty(),
            r.stats.payloads == 0,
            r.stats.bytes == 0,
            r.stats.detections == 0,
            r.stats.window_start == now,
            r.target_program == target_program,
            r.discriminator == discriminator,
            r.last_cleanup == now,
    {
        Pipeline {
            reassembler: FragmentReassembler::new(),
            stats: StatsReporter::new(now),
            target_program,
            discriminator,
            last_cleanup: now,
        }
    }

    /// Processes one datagram at time `now`: sweeps stale buffers when
    /// the sweep interval has elapsed, runs the datagram through the
    /// reassembler, decodes and scans any completed payload, counts the
    /// datagram and its detections, and emits a summary when one is due.
    /// Arbitrary bytes never fail: a payload that does not decode yields
    /// no detections and is only reported as a decode failure.
    pub fn handle_packet(&mut self, data: &[u8], now: u64) -> (r: PacketOutcome)
        requires
            old(self).wf(),
        ensures
            final(self).wf(),
            final(self).target_program == old(self).target_program,
            final(self).discriminator == old(self).discriminator,
            final(self).last_cleanup == if cleanup_due(old(self).last_cleanup, now) {
                now
            } else {
                old(self).last_cleanup
            },
            ({
                let m0 = if cleanup_due(old(self).last_cleanup, now) {
                    sweep(old(self).reassembler@, now)
                } else {
                    old(self).reassembler@
                };
                let st = step(m0, data@, now);
                &&& final(self).reassembler@ == st.buffers
                &&& events_view(r.detections@) == detections_of(
                    st.output,
                    old(self).target_program@,
                    old(self).discriminator@,
                )
                &&& r.decode_failed == decode_failure(st.output)
            }),
            ({
                let p1 = old(self).stats.payloads.saturating_add(1);
                let b1 = old(self).stats.bytes.saturating_add(data@.len() as u64);
                let d1 = old(self).stats.detections.saturating_add(r.detections@.len() as u64);
                let ws = old(self).stats.window_start;
                if flush_due(ws, now) {
                    &&& (r.summary matches Some(s)
                        && s.payloads == p1
                        && s.bytes == b1
                        && s.detections == d1
                        && s.window_ms == now - ws)
                    &&& final(self).stats.payloads == 0
                    &&& final(self).stats.bytes == 0
                    &&& final(self).stats.detections == 0
                    &&& final(self).stats.window_start == now
                } else {
                    &&& r.summary is None
                    &&& final(self).stats.payloads == p1
                    &&& final(self).stats.bytes == b1
                    &&& final(self).stats.detections == d1
                    &&& final(self).stats.window_start == ws
                }
            }),
    {
        if now >= self.last_cleanup && now - self.last_cleanup >= CLEANUP_INTERVAL_MS {
            self.reassembler.cleanup_old(now);
            self.last_cleanup = now;
        }
        let payload = self.reassembler.process_packet(data, now);
        let mut detections: Vec<DetectionEvent> = Vec::new();
        let mut decode_failed = false;
        match payload {
            Some(p) => {
                match decode(p.as_slice()) {
                    Ok(es) => {
                        detections = scan(&es, &self.target_program, &self.discriminator);
                    },
                    Err(DecodeError::Malformed) => {
                        decode_failed = true;
                    },
                }
            },
            None => {},
        }
        proof {
            assert(events_view(Seq::<DetectionEvent>::empty()) =~= Seq::<EventV>::empty());
        }
        self.stats.record(1, data.len() as u64, detections.len() as u64);
        let summary = self.stats.maybe_flush(now);
        PacketOutcome { detections, summary, decode_failed }
    }
}

} // verus!
