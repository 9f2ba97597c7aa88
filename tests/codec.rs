use rumba::codec::{
    decode_blob_location, decode_index_entry, encode_blob_location, encode_commit, encode_index_entry, encode_tree,
    CatalogError,
};
use rumba::diff::{check_index, should_backup_blob};
use rumba::models::{BlobLocation, Commit, IndexEntry, TreeEntry};

#[test]
fn blob_location_round_trip() {
    let location = BlobLocation { tape_id: 100, offset: 200 };
    let bytes = encode_blob_location(&location);
    assert_eq!(bytes.len(), 16);
    assert_eq!(bytes[0], 100);
    assert_eq!(bytes[8], 200);
    assert_eq!(decode_blob_location(&bytes), Ok(location));
}

#[test]
fn index_entry_round_trip_with_negative_mtime() {
    let entry = IndexEntry { mtime: -5, size: 1 << 40, hash: [7u8; 32] };
    let bytes = encode_index_entry(&entry);
    assert_eq!(bytes.len(), 48);
    assert_eq!(&bytes[0..8], &(-5i64).to_le_bytes());
    assert_eq!(decode_index_entry(&bytes), Ok(entry));
}

#[test]
fn malformed_records_are_corrupt() {
    assert_eq!(decode_blob_location(&[1, 2, 3]), Err(CatalogError::Corrupt));
    assert_eq!(decode_index_entry(&[0u8; 47]), Err(CatalogError::Corrupt));
}

#[test]
fn index_hit_needs_exact_mtime_and_size() {
    let entry = IndexEntry { mtime: 1000, size: 5, hash: [9u8; 32] };
    assert_eq!(check_index(Some(entry), 1000, 5), Some([9u8; 32]));
    assert_eq!(check_index(Some(entry), 1001, 5), None);
    assert_eq!(check_index(Some(entry), 1000, 6), None);
    assert_eq!(check_index(None, 1000, 5), None);
}

#[test]
fn blob_is_new_only_when_absent() {
    assert!(should_backup_blob(None));
    assert!(!should_backup_blob(Some(BlobLocation { tape_id: 1, offset: 0 })));
}

#[test]
fn tree_record_layout() {
    let entries = vec![TreeEntry { name: "ab".to_string(), mode: 0o100644, hash: [4u8; 32] }];
    let bytes = encode_tree(&entries);
    let mut expected = 2u64.to_le_bytes().to_vec();
    expected.extend_from_slice(b"ab");
    expected.extend_from_slice(&0o100644u32.to_le_bytes());
    expected.extend_from_slice(&[4u8; 32]);
    assert_eq!(bytes, expected);
    assert!(encode_tree(&vec![]).is_empty());
}

#[test]
fn commit_record_layout() {
    let c = Commit { tree_hash: [1u8; 32], parent_hash: None, author: "u".to_string(), message: "m".to_string(), timestamp: 9 };
    let bytes = encode_commit(&c);
    assert_eq!(bytes.len(), 32 + 1 + 9 + 9 + 8);
    assert_eq!(bytes[32], 0);
    let with_parent = Commit { parent_hash: Some([2u8; 32]), ..c };
    let bytes = encode_commit(&with_parent);
    assert_eq!(bytes[32], 1);
    assert_eq!(&bytes[33..65], &[2u8; 32]);
    assert_eq!(&bytes[bytes.len() - 8..], &9u64.to_le_bytes());
}
