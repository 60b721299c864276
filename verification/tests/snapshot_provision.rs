use statstore::command::parse_admin_command;
use statstore::coordinator::Coordinator;
use statstore::coordinator::AdminCommand;
use statstore::errors::CoreError;
use statstore::provision::{generate, snapshot_from_ids};
use statstore::registry::{Entry, entries_unique};
use statstore::snapshot::{Snapshot, decode_snapshot, encode_snapshot};

#[test]
fn encode_has_exact_layout() {
    let s = Snapshot {
        entries: vec![Entry { id: 0x0102, remaining: 3 }],
        budget: 5,
    };
    let bytes = encode_snapshot(&s);
    let mut expected: Vec<u8> = Vec::new();
    expected.extend_from_slice(&5u64.to_le_bytes());
    expected.extend_from_slice(&1u64.to_le_bytes());
    expected.extend_from_slice(&0x0102u128.to_le_bytes());
    expected.extend_from_slice(&3u64.to_le_bytes());
    assert_eq!(bytes, expected);
}

#[test]
fn encode_decode_round_trip() {
    let s = Snapshot {
        entries: vec![
            Entry { id: 11, remaining: 2 },
            Entry { id: u128::MAX, remaining: 0 },
            Entry { id: 0, remaining: u64::MAX },
        ],
        budget: 2,
    };
    let bytes = encode_snapshot(&s);
    let back = decode_snapshot(&bytes).expect("decoding an encoding succeeds");
    assert_eq!(back.budget, 2);
    assert_eq!(back.entries.len(), 3);
    assert_eq!(back.entries[0], Entry { id: 11, remaining: 2 });
    assert_eq!(back.entries[1], Entry { id: u128::MAX, remaining: 0 });
    assert_eq!(back.entries[2], Entry { id: 0, remaining: u64::MAX });
}

#[test]
fn empty_snapshot_round_trips() {
    let s = Snapshot { entries: Vec::new(), budget: 9 };
    let bytes = encode_snapshot(&s);
    assert_eq!(bytes.len(), 16);
    let back = decode_snapshot(&bytes).expect("decode");
    assert_eq!(back.budget, 9);
    assert!(back.entries.is_empty());
}

#[test]
fn decode_rejects_malformed_bytes() {
    assert!(decode_snapshot(&Vec::new()).is_none());
    assert!(decode_snapshot(&vec![0u8; 15]).is_none());
    // a count field that promises more entries than the bytes hold
    let mut bytes: Vec<u8> = Vec::new();
    bytes.extend_from_slice(&1u64.to_le_bytes());
    bytes.extend_from_slice(&2u64.to_le_bytes());
    bytes.extend_from_slice(&[0u8; 24]);
    assert!(decode_snapshot(&bytes).is_none());
    // a trailing byte after the promised entries
    let s = Snapshot { entries: vec![Entry { id: 1, remaining: 1 }], budget: 1 };
    let mut enc = encode_snapshot(&s);
    enc.push(0);
    assert!(decode_snapshot(&enc).is_none());
}

#[test]
fn snapshot_from_ids_builds_entries() {
    let ids = vec![10u128, 20, 30];
    let s = snapshot_from_ids(&ids, 7).expect("distinct ids");
    assert_eq!(s.budget, 7);
    assert_eq!(s.entries.len(), 3);
    for (k, id) in ids.iter().enumerate() {
        assert_eq!(s.entries[k], Entry { id: *id, remaining: 7 });
    }
}

#[test]
fn snapshot_from_ids_rejects_duplicates() {
    let ids = vec![10u128, 20, 10];
    assert_eq!(snapshot_from_ids(&ids, 7).err(), Some(CoreError::AlreadyExists));
}

#[test]
fn generate_provisions_fresh_budgeted_entries() {
    let s = generate(8, 3).expect("fresh random ids");
    assert_eq!(s.budget, 3);
    assert_eq!(s.entries.len(), 8);
    assert!(entries_unique(&s.entries));
    for e in &s.entries {
        assert_eq!(e.remaining, 3);
    }
    // ids actually come from the generator: all-zero across a batch would be
    // astronomically unlikely
    assert!(s.entries.iter().any(|e| e.id != 0));
}

#[test]
fn generate_owes_success_below_two_entries() {
    // with at most one drawn identifier no collision is possible
    let empty = generate(0, 5).expect("no identifiers, no collision");
    assert_eq!(empty.budget, 5);
    assert!(empty.entries.is_empty());
    let single = generate(1, 5).expect("one identifier, no collision");
    assert_eq!(single.budget, 5);
    assert_eq!(single.entries.len(), 1);
    assert_eq!(single.entries[0].remaining, 5);
}

#[test]
fn generated_snapshot_round_trips_through_the_codec() {
    let s = generate(4, 2).expect("generate");
    let bytes = encode_snapshot(&s);
    let back = decode_snapshot(&bytes).expect("decode");
    assert_eq!(back.budget, s.budget);
    assert_eq!(back.entries, s.entries);
}

#[test]
fn coordinator_state_survives_snapshot_and_reload() {
    let entries = vec![
        Entry { id: 1, remaining: 3 },
        Entry { id: 2, remaining: 3 },
    ];
    let mut c = Coordinator::new(entries, 3);
    assert_eq!(c.push(1, b"keep".to_vec()), Ok(()));
    c.fetch(1, "t".to_string()).expect("fetch");
    let bytes = encode_snapshot(&c.snapshot());
    let back = decode_snapshot(&bytes).expect("decode");
    assert_eq!(back.budget, 3);
    assert!(entries_unique(&back.entries));
    let mut reloaded = Coordinator::new(back.entries, back.budget);
    let listed = reloaded.list();
    assert_eq!(listed.len(), 2);
    assert!(listed.contains(&Entry { id: 1, remaining: 2 }));
    assert!(listed.contains(&Entry { id: 2, remaining: 3 }));
    assert_eq!(reloaded.push(1, b"keep".to_vec()), Ok(()));
    let f = reloaded.fetch(1, "t".to_string()).expect("fetch after reload");
    assert_eq!(f.remaining, 1);
    assert_eq!(f.payload, b"keep".to_vec());
}

#[test]
fn parse_admin_command_names() {
    assert_eq!(parse_admin_command("reset"), Ok(AdminCommand::Reset));
    assert_eq!(parse_admin_command("revoke"), Ok(AdminCommand::Revoke));
    assert_eq!(parse_admin_command("inspect"), Ok(AdminCommand::Inspect));
    assert_eq!(parse_admin_command("Reset").err(), Some(CoreError::UnsupportedCommand));
    assert_eq!(parse_admin_command("").err(), Some(CoreError::UnsupportedCommand));
    assert_eq!(parse_admin_command("drop").err(), Some(CoreError::UnsupportedCommand));
}
