use shred_detector::pipeline::Pipeline;

const DISC: [u8; 8] = [24, 30, 200, 40, 5, 28, 7, 119];

fn key(tag: u8) -> Vec<u8> {
    vec![tag; 32]
}

fn canonical_payload() -> Vec<u8> {
    let mut keys: Vec<Vec<u8>> = (0u8..8).map(key).collect();
    keys.push(key(200));
    let mut p = Vec::new();
    p.extend_from_slice(&1u64.to_le_bytes());
    p.extend_from_slice(&0u64.to_le_bytes());
    p.extend_from_slice(&[0u8; 32]);
    p.extend_from_slice(&1u64.to_le_bytes());
    p.push(0);
    p.push(1);
    p.push(0);
    p.push(1);
    p.push(keys.len() as u8);
    for k in &keys {
        p.extend_from_slice(k);
    }
    p.extend_from_slice(&[0u8; 32]);
    p.push(1);
    p.push(8);
    p.push(8);
    p.extend_from_slice(&[0, 1, 2, 3, 4, 5, 6, 7]);
    p.push(DISC.len() as u8);
    p.extend_from_slice(&DISC);
    p
}

fn frag_packet(id: u32, idx: u16, total: u16, size: u32, chunk: &[u8]) -> Vec<u8> {
    let mut p = Vec::new();
    p.extend_from_slice(b"SHRD");
    p.extend_from_slice(&id.to_le_bytes());
    p.extend_from_slice(&idx.to_le_bytes());
    p.extend_from_slice(&total.to_le_bytes());
    p.extend_from_slice(&size.to_le_bytes());
    p.extend_from_slice(chunk);
    p
}

#[test]
fn garbage_packet_reports_decode_failure_only() {
    let mut pl = Pipeline::new(key(200), DISC.to_vec(), 0);
    let out = pl.handle_packet(&[9u8; 40], 100);
    assert!(out.decode_failed);
    assert_eq!(out.detections.len(), 0);
    assert!(out.summary.is_none());
    // The next packet is processed as if nothing had happened.
    let out2 = pl.handle_packet(&canonical_payload(), 200);
    assert_eq!(out2.detections.len(), 1);
}

#[test]
fn unfragmented_payload_yields_detection() {
    let mut pl = Pipeline::new(key(200), DISC.to_vec(), 0);
    let out = pl.handle_packet(&canonical_payload(), 50);
    assert!(!out.decode_failed);
    assert_eq!(out.detections.len(), 1);
    assert_eq!(out.detections[0].mint, key(0));
    assert_eq!(out.detections[0].bonding_curve, key(2));
    assert_eq!(out.detections[0].creator, key(7));
}

#[test]
fn fragmented_payload_yields_detection_on_last_fragment() {
    let mut pl = Pipeline::new(key(200), DISC.to_vec(), 0);
    let payload = canonical_payload();
    let mid = payload.len() / 2;
    let size = payload.len() as u32;
    let out1 = pl.handle_packet(&frag_packet(21, 1, 2, size, &payload[mid..]), 10);
    assert_eq!(out1.detections.len(), 0);
    assert!(!out1.decode_failed);
    let out2 = pl.handle_packet(&frag_packet(21, 0, 2, size, &payload[..mid]), 20);
    assert_eq!(out2.detections.len(), 1);
    assert_eq!(out2.detections[0].mint, key(0));
}

#[test]
fn summary_counts_the_window() {
    let mut pl = Pipeline::new(key(200), DISC.to_vec(), 0);
    let payload = canonical_payload();
    let out1 = pl.handle_packet(&payload, 1000);
    assert!(out1.summary.is_none());
    let out2 = pl.handle_packet(&[9u8; 10], 2000);
    assert!(out2.summary.is_none());
    let out3 = pl.handle_packet(&payload, 15000);
    let s = out3.summary.expect("interval elapsed");
    assert_eq!(s.payloads, 3);
    assert_eq!(s.bytes, payload.len() as u64 * 2 + 10);
    assert_eq!(s.detections, 2);
    assert_eq!(s.window_ms, 15000);
    // Counters restarted: the next window begins empty.
    let out4 = pl.handle_packet(&[9u8; 10], 30000);
    let s2 = out4.summary.expect("next interval elapsed");
    assert_eq!(s2.payloads, 1);
    assert_eq!(s2.bytes, 10);
    assert_eq!(s2.detections, 0);
}

#[test]
fn stale_fragments_are_swept_between_packets() {
    let mut pl = Pipeline::new(key(200), DISC.to_vec(), 0);
    let payload = canonical_payload();
    let mid = payload.len() / 2;
    let size = payload.len() as u32;
    let out1 = pl.handle_packet(&frag_packet(5, 0, 2, size, &payload[..mid]), 1000);
    assert_eq!(out1.detections.len(), 0);
    // Twelve seconds later the sweep (due after five) evicts the stale
    // buffer before this packet is processed: no completion.
    let out2 = pl.handle_packet(&frag_packet(5, 1, 2, size, &payload[mid..]), 13000);
    assert_eq!(out2.detections.len(), 0);
    assert!(!out2.decode_failed);
}
