use statstore::errors::CoreError;
use statstore::registry::{Entry, Registry, entries_unique};
use statstore::store::BlobStore;

#[test]
fn lookup_insert_and_duplicate_insert() {
    let mut r = Registry::new();
    assert_eq!(r.lookup(1), None);
    assert_eq!(r.insert(1, 5), Ok(()));
    assert_eq!(r.lookup(1), Some(5));
    assert_eq!(r.insert(1, 9), Err(CoreError::AlreadyExists));
    assert_eq!(r.lookup(1), Some(5));
}

#[test]
fn decrement_counts_down_to_exhausted() {
    let mut r = Registry::new();
    assert_eq!(r.insert(3, 2), Ok(()));
    assert_eq!(r.decrement(3), Ok(1));
    assert_eq!(r.decrement(3), Ok(0));
    assert_eq!(r.decrement(3), Err(CoreError::Exhausted));
    assert_eq!(r.lookup(3), Some(0));
    assert_eq!(r.decrement(4), Err(CoreError::NotFound));
}

#[test]
fn reset_and_delete() {
    let mut r = Registry::new();
    assert_eq!(r.insert(3, 1), Ok(()));
    assert_eq!(r.decrement(3), Ok(0));
    assert_eq!(r.reset(3, 7), Ok(()));
    assert_eq!(r.lookup(3), Some(7));
    assert_eq!(r.reset(4, 7), Err(CoreError::NotFound));
    assert_eq!(r.delete(3), Ok(()));
    assert_eq!(r.delete(3), Err(CoreError::NotFound));
    assert_eq!(r.lookup(3), None);
}

#[test]
fn list_snapshots_entries() {
    let mut r = Registry::new();
    assert_eq!(r.insert(1, 2), Ok(()));
    assert_eq!(r.insert(9, 4), Ok(()));
    let listed = r.list();
    assert_eq!(listed.len(), 2);
    assert!(listed.contains(&Entry { id: 1, remaining: 2 }));
    assert!(listed.contains(&Entry { id: 9, remaining: 4 }));
}

#[test]
fn entries_unique_detects_duplicates() {
    let fresh = vec![
        Entry { id: 1, remaining: 2 },
        Entry { id: 2, remaining: 2 },
        Entry { id: 3, remaining: 2 },
    ];
    assert!(entries_unique(&fresh));
    let dup = vec![
        Entry { id: 1, remaining: 2 },
        Entry { id: 2, remaining: 2 },
        Entry { id: 1, remaining: 5 },
    ];
    assert!(!entries_unique(&dup));
    assert!(entries_unique(&Vec::new()));
}

#[test]
fn store_put_get_overwrite() {
    let mut s = BlobStore::new();
    assert_eq!(s.get(1), None);
    assert_eq!(s.put(1, b"alpha".to_vec()), Ok(()));
    assert_eq!(s.get(1), Some(b"alpha".to_vec()));
    assert_eq!(s.put(1, b"beta".to_vec()), Ok(()));
    assert_eq!(s.get(1), Some(b"beta".to_vec()));
    assert_eq!(s.get(2), None);
}

#[test]
fn store_rejects_oversized_payload() {
    let mut s = BlobStore::new();
    let cap = statstore::max_payload();
    assert_eq!(s.put(1, vec![7u8; cap]), Ok(()));
    assert_eq!(s.put(2, vec![7u8; cap + 1]), Err(CoreError::TooLarge));
    assert_eq!(s.get(2), None);
}

#[test]
fn store_delete_is_idempotent() {
    let mut s = BlobStore::new();
    assert_eq!(s.put(1, b"x".to_vec()), Ok(()));
    s.delete(1);
    assert_eq!(s.get(1), None);
    s.delete(1);
    s.delete(2);
    assert_eq!(s.get(2), None);
}

#[test]
fn store_image_has_exact_layout() {
    let mut s = BlobStore::new();
    assert_eq!(s.put(0x0a, b"hi".to_vec()), Ok(()));
    let bytes = s.to_bytes();
    let mut expected: Vec<u8> = Vec::new();
    expected.extend_from_slice(&1u64.to_le_bytes());
    expected.extend_from_slice(&0x0au128.to_le_bytes());
    expected.extend_from_slice(&2u64.to_le_bytes());
    expected.extend_from_slice(b"hi");
    assert_eq!(bytes, expected);
}

#[test]
fn store_image_round_trips() {
    let mut s = BlobStore::new();
    assert_eq!(s.put(1, b"alpha".to_vec()), Ok(()));
    assert_eq!(s.put(2, Vec::new()), Ok(()));
    assert_eq!(s.put(3, vec![0xff; 100]), Ok(()));
    s.delete(2);
    let bytes = s.to_bytes();
    let back = BlobStore::from_bytes(&bytes).expect("an image decodes");
    assert_eq!(back.get(1), Some(b"alpha".to_vec()));
    assert_eq!(back.get(2), None);
    assert_eq!(back.get(3), Some(vec![0xff; 100]));
}

#[test]
fn empty_store_image_round_trips() {
    let s = BlobStore::new();
    let bytes = s.to_bytes();
    assert_eq!(bytes.len(), 8);
    let back = BlobStore::from_bytes(&bytes).expect("decode");
    assert_eq!(back.get(1), None);
}

#[test]
fn store_rejects_malformed_images() {
    assert!(BlobStore::from_bytes(&Vec::new()).is_none());
    assert!(BlobStore::from_bytes(&vec![0u8; 7]).is_none());
    // a count field promising a blob the bytes do not hold
    let mut bytes: Vec<u8> = Vec::new();
    bytes.extend_from_slice(&1u64.to_le_bytes());
    assert!(BlobStore::from_bytes(&bytes).is_none());
    // a payload length field above the size cap
    let mut huge: Vec<u8> = Vec::new();
    huge.extend_from_slice(&1u64.to_le_bytes());
    huge.extend_from_slice(&7u128.to_le_bytes());
    huge.extend_from_slice(&(statstore::max_payload() as u64 + 1).to_le_bytes());
    assert!(BlobStore::from_bytes(&huge).is_none());
    // a duplicated identifier
    let mut dup: Vec<u8> = Vec::new();
    dup.extend_from_slice(&2u64.to_le_bytes());
    for _ in 0..2 {
        dup.extend_from_slice(&7u128.to_le_bytes());
        dup.extend_from_slice(&1u64.to_le_bytes());
        dup.push(b'x');
    }
    assert!(BlobStore::from_bytes(&dup).is_none());
    // a trailing byte after the promised blobs
    let mut s = BlobStore::new();
    assert_eq!(s.put(1, b"p".to_vec()), Ok(()));
    let mut enc = s.to_bytes();
    enc.push(0);
    assert!(BlobStore::from_bytes(&enc).is_none());
}

#[test]
fn error_names_are_stable() {
    assert_eq!(CoreError::NotFound.name(), "not_found");
    assert_eq!(CoreError::Exhausted.name(), "exhausted");
    assert_eq!(CoreError::AlreadyExists.name(), "already_exists");
    assert_eq!(CoreError::TooLarge.name(), "too_large");
    assert_eq!(CoreError::UnsupportedCommand.name(), "unsupported_command");
}
