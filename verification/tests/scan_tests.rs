use shred_detector::entries::{Entry, Instruction, Transaction};
use shred_detector::scan::scan;

const DISC: [u8; 8] = [24, 30, 200, 40, 5, 28, 7, 119];

fn key(tag: u8) -> Vec<u8> {
    vec![tag; 32]
}

fn entry_with(keys: Vec<Vec<u8>>, instructions: Vec<Instruction>) -> Vec<Entry> {
    vec![Entry {
        transactions: vec![Transaction { account_keys: keys, instructions }],
    }]
}

fn eight_keys_with_target(target_pos: u8) -> Vec<Vec<u8>> {
    let mut keys: Vec<Vec<u8>> = (0u8..8).map(key).collect();
    keys[target_pos as usize] = key(200);
    keys
}

#[test]
fn canonical_detection_extracts_positions_0_2_7() {
    let mut keys: Vec<Vec<u8>> = (0u8..8).map(key).collect();
    keys.push(key(200)); // position 8: the target program
    let ix = Instruction {
        program_id_index: 8,
        accounts: (0u8..8).collect(),
        data: DISC.to_vec(),
    };
    let entries = entry_with(keys, vec![ix]);
    let events = scan(&entries, &key(200), &DISC.to_vec());
    assert_eq!(events.len(), 1);
    assert_eq!(events[0].mint, key(0));
    assert_eq!(events[0].bonding_curve, key(2));
    assert_eq!(events[0].creator, key(7));
}

#[test]
fn short_data_never_matches() {
    let keys = eight_keys_with_target(3);
    let ix = Instruction {
        program_id_index: 3,
        accounts: (0u8..8).collect(),
        data: DISC[0..7].to_vec(), // seven bytes only
    };
    let entries = entry_with(keys, vec![ix]);
    assert_eq!(scan(&entries, &key(200), &DISC.to_vec()).len(), 0);
}

#[test]
fn wrong_program_never_matches() {
    let keys: Vec<Vec<u8>> = (0u8..8).map(key).collect();
    let ix = Instruction {
        program_id_index: 3, // key(3), not the target
        accounts: (0u8..8).collect(),
        data: DISC.to_vec(),
    };
    let entries = entry_with(keys, vec![ix]);
    assert_eq!(scan(&entries, &key(200), &DISC.to_vec()).len(), 0);
}

#[test]
fn out_of_range_program_index_is_skipped() {
    let keys: Vec<Vec<u8>> = (0u8..8).map(key).collect();
    let ix = Instruction {
        program_id_index: 99,
        accounts: (0u8..8).collect(),
        data: DISC.to_vec(),
    };
    let entries = entry_with(keys, vec![ix]);
    assert_eq!(scan(&entries, &key(200), &DISC.to_vec()).len(), 0);
}

#[test]
fn wrong_discriminator_never_matches() {
    let keys = eight_keys_with_target(3);
    let mut data = DISC.to_vec();
    data[7] ^= 1;
    let ix = Instruction { program_id_index: 3, accounts: (0u8..8).collect(), data };
    let entries = entry_with(keys, vec![ix]);
    assert_eq!(scan(&entries, &key(200), &DISC.to_vec()).len(), 0);
}

#[test]
fn data_beyond_discriminator_is_ignored() {
    let keys = eight_keys_with_target(0);
    let mut data = DISC.to_vec();
    data.extend_from_slice(&[9, 9, 9, 9]);
    let ix = Instruction { program_id_index: 0, accounts: (0u8..8).collect(), data };
    let entries = entry_with(keys, vec![ix]);
    assert_eq!(scan(&entries, &key(200), &DISC.to_vec()).len(), 1);
}

#[test]
fn missing_positions_become_empty() {
    let keys = eight_keys_with_target(1);
    let ix = Instruction {
        program_id_index: 1,
        accounts: vec![0, 2, 3], // resolved list has three entries
        data: DISC.to_vec(),
    };
    let entries = entry_with(keys, vec![ix]);
    let events = scan(&entries, &key(200), &DISC.to_vec());
    assert_eq!(events.len(), 1);
    assert_eq!(events[0].mint, key(0));
    assert_eq!(events[0].bonding_curve, key(3));
    assert_eq!(events[0].creator, Vec::<u8>::new());
}

#[test]
fn out_of_range_account_indices_are_dropped() {
    let keys = eight_keys_with_target(1);
    let ix = Instruction {
        program_id_index: 1,
        accounts: vec![0, 99, 2, 3, 250, 4],
        data: DISC.to_vec(),
    };
    // Resolved list: key 0, key 2, key 3, key 4 — positions shift left.
    let entries = entry_with(keys, vec![ix]);
    let events = scan(&entries, &key(200), &DISC.to_vec());
    assert_eq!(events.len(), 1);
    assert_eq!(events[0].mint, key(0));
    assert_eq!(events[0].bonding_curve, key(3));
    assert_eq!(events[0].creator, Vec::<u8>::new());
}

#[test]
fn multiple_matches_emit_in_order() {
    let keys = eight_keys_with_target(5);
    let matching = |first: u8| Instruction {
        program_id_index: 5,
        accounts: vec![first, 1, 2, 3, 4, 5, 6, 7],
        data: DISC.to_vec(),
    };
    let skipped = Instruction {
        program_id_index: 0,
        accounts: vec![0],
        data: DISC.to_vec(),
    };
    let entries = vec![
        Entry {
            transactions: vec![Transaction {
                account_keys: keys.clone(),
                instructions: vec![matching(0), skipped, matching(1)],
            }],
        },
        Entry {
            transactions: vec![Transaction {
                account_keys: keys.clone(),
                instructions: vec![matching(2)],
            }],
        },
    ];
    let events = scan(&entries, &key(200), &DISC.to_vec());
    assert_eq!(events.len(), 3);
    assert_eq!(events[0].mint, key(0));
    assert_eq!(events[1].mint, key(1));
    assert_eq!(events[2].mint, key(2));
}

#[test]
fn no_entries_no_events() {
    let entries: Vec<Entry> = Vec::new();
    assert_eq!(scan(&entries, &key(200), &DISC.to_vec()).len(), 0);
}
