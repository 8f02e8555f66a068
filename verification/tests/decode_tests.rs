use shred_detector::decode::{decode, DecodeError};
use shred_detector::scan::scan;

const DISC: [u8; 8] = [24, 30, 200, 40, 5, 28, 7, 119];

// One payload in the upstream wire schema, written out by hand: a batch
// of one entry holding one legacy transaction with `keys` as its static
// account list and one instruction.
fn payload_one_instruction(
    keys: &[Vec<u8>],
    program_id_index: u8,
    accounts: &[u8],
    data: &[u8],
) -> Vec<u8> {
    let mut p = Vec::new();
    p.extend_from_slice(&1u64.to_le_bytes()); // one entry
    p.extend_from_slice(&0u64.to_le_bytes()); // hash count
    p.extend_from_slice(&[0u8; 32]); // running hash
    p.extend_from_slice(&1u64.to_le_bytes()); // one transaction
    p.push(0); // no signatures (compact count)
    p.push(1); // header: required signatures (top bit clear: legacy)
    p.push(0); // header: read-only signed
    p.push(1); // header: read-only unsigned
    p.push(keys.len() as u8); // account keys (compact count)
    for k in keys {
        p.extend_from_slice(k);
    }
    p.extend_from_slice(&[0u8; 32]); // recent blockhash
    p.push(1); // one instruction (compact count)
    p.push(program_id_index);
    p.push(accounts.len() as u8); // account indices (compact count)
    p.extend_from_slice(accounts);
    p.push(data.len() as u8); // data length (compact count)
    p.extend_from_slice(data);
    p
}

fn key(tag: u8) -> Vec<u8> {
    vec![tag; 32]
}

#[test]
fn random_bytes_are_rejected_not_fatal() {
    assert!(matches!(decode(&[255u8; 16]), Err(DecodeError::Malformed)));
    assert!(matches!(decode(&[7u8]), Err(DecodeError::Malformed)));
    assert!(matches!(decode(b"SHRD"), Err(DecodeError::Malformed)));
    let mut pseudo: Vec<u8> = Vec::new();
    let mut x: u64 = 0x2545F4914F6CDD1D;
    for _ in 0..512 {
        x = x.wrapping_mul(6364136223846793005).wrapping_add(1442695040888963407);
        pseudo.push((x >> 56) as u8);
    }
    assert!(decode(&pseudo).is_err());
}

#[test]
fn empty_batch_decodes_to_no_entries() {
    let es = decode(&0u64.to_le_bytes()).expect("an empty batch is well formed");
    assert_eq!(es.len(), 0);
}

#[test]
fn truncated_batch_is_rejected() {
    let good = payload_one_instruction(&[key(1)], 0, &[0], &DISC);
    assert!(decode(&good[..good.len() - 1]).is_err());
}

#[test]
fn wire_payload_decodes_to_fields() {
    let keys: Vec<Vec<u8>> = (0u8..9).map(key).collect();
    let p = payload_one_instruction(&keys, 8, &[0, 1, 2, 3, 4, 5, 6, 7], &DISC);
    let es = decode(&p).expect("well-formed payload");
    assert_eq!(es.len(), 1);
    assert_eq!(es[0].transactions.len(), 1);
    let tx = &es[0].transactions[0];
    assert_eq!(tx.account_keys.len(), 9);
    assert_eq!(tx.account_keys[4], key(4));
    assert_eq!(tx.instructions.len(), 1);
    assert_eq!(tx.instructions[0].program_id_index, 8);
    assert_eq!(tx.instructions[0].accounts, vec![0, 1, 2, 3, 4, 5, 6, 7]);
    assert_eq!(tx.instructions[0].data, DISC.to_vec());
}

#[test]
fn decode_then_scan_detects_the_canonical_instruction() {
    let mut keys: Vec<Vec<u8>> = (0u8..8).map(key).collect();
    keys.push(key(200));
    let p = payload_one_instruction(&keys, 8, &[0, 1, 2, 3, 4, 5, 6, 7], &DISC);
    let es = decode(&p).expect("well-formed payload");
    let events = scan(&es, &key(200), &DISC.to_vec());
    assert_eq!(events.len(), 1);
    assert_eq!(events[0].mint, key(0));
    assert_eq!(events[0].bonding_curve, key(2));
    assert_eq!(events[0].creator, key(7));
}

#[test]
fn decode_then_scan_skips_other_programs() {
    let keys: Vec<Vec<u8>> = (0u8..8).map(key).collect();
    let p = payload_one_instruction(&keys, 3, &[0, 1, 2], &DISC);
    let es = decode(&p).expect("well-formed payload");
    assert_eq!(scan(&es, &key(200), &DISC.to_vec()).len(), 0);
}
