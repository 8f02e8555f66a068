use shred_detector::stats::StatsReporter;

#[test]
fn no_flush_before_interval() {
    let mut r = StatsReporter::new(0);
    r.record(3, 300, 1);
    assert!(r.maybe_flush(14999).is_none());
}

#[test]
fn flush_at_interval_reports_and_zeroes() {
    let mut r = StatsReporter::new(1000);
    r.record(2, 150, 0);
    r.record(1, 50, 4);
    let s = r.maybe_flush(16000).expect("interval elapsed");
    assert_eq!(s.payloads, 3);
    assert_eq!(s.bytes, 200);
    assert_eq!(s.detections, 4);
    assert_eq!(s.window_ms, 15000);
    // Counters restart from zero and no summary is due again at once.
    assert!(r.maybe_flush(16000).is_none());
    let s2 = r.maybe_flush(31000).expect("next interval elapsed");
    assert_eq!(s2.payloads, 0);
    assert_eq!(s2.bytes, 0);
    assert_eq!(s2.detections, 0);
}

#[test]
fn one_summary_per_elapsed_interval() {
    let mut r = StatsReporter::new(0);
    let mut summaries = Vec::new();
    let mut t: u64 = 0;
    while t <= 40000 {
        r.record(1, 100, 0);
        if let Some(s) = r.maybe_flush(t) {
            summaries.push((t, s));
        }
        t += 1000;
    }
    assert_eq!(summaries.len(), 2);
    assert_eq!(summaries[0].0, 15000);
    assert_eq!(summaries[0].1.payloads, 16); // deliveries at 0 .. 15000
    assert_eq!(summaries[0].1.bytes, 1600);
    assert_eq!(summaries[1].0, 30000);
    assert_eq!(summaries[1].1.payloads, 15); // deliveries at 16000 .. 30000
}

#[test]
fn drifting_check_covers_the_longer_window() {
    let mut r = StatsReporter::new(0);
    r.record(1, 10, 0);
    // The opportunistic check happens late: one summary over the whole
    // 22-second window, and the next window starts at the check.
    let s = r.maybe_flush(22000).expect("late check still flushes once");
    assert_eq!(s.window_ms, 22000);
    assert!(r.maybe_flush(30000).is_none());
    assert!(r.maybe_flush(37000).is_some());
}

#[test]
fn counters_saturate_instead_of_wrapping() {
    let mut r = StatsReporter::new(0);
    r.record(u64::MAX, u64::MAX, 0);
    r.record(5, 5, 5);
    let s = r.maybe_flush(15000).expect("interval elapsed");
    assert_eq!(s.payloads, u64::MAX);
    assert_eq!(s.bytes, u64::MAX);
    assert_eq!(s.detections, 5);
}
