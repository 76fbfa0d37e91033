use loose_objects::error::ObjectError;
use loose_objects::kind::ObjectKind;
use loose_objects::object::{encode_object, Object};
use loose_objects::tree::{decode_tree, list_tree, long_line, long_lines, name_lines};

fn sample_payload() -> Vec<u8> {
    let mut p = b"100644 a.txt\0".to_vec();
    p.extend((0..20u8).collect::<Vec<u8>>());
    p.extend_from_slice(b"40000 sub\0");
    p.extend(vec![0xffu8; 20]);
    p
}

#[test]
fn tree_entries_decode() {
    let entries = decode_tree(&sample_payload()).unwrap();
    assert_eq!(entries.len(), 2);
    assert_eq!(entries[0].mode, b"100644".to_vec());
    assert_eq!(entries[0].name, b"a.txt".to_vec());
    assert_eq!(
        entries[0].hash.to_hex(),
        b"000102030405060708090a0b0c0d0e0f10111213".to_vec()
    );
    assert_eq!(entries[1].mode, b"40000".to_vec());
    assert_eq!(entries[1].name, b"sub".to_vec());
    assert_eq!(
        entries[1].hash.to_hex(),
        b"ffffffffffffffffffffffffffffffffffffffff".to_vec()
    );
}

#[test]
fn tree_name_only_listing() {
    let entries = decode_tree(&sample_payload()).unwrap();
    assert_eq!(name_lines(&entries), b"a.txt\nsub\n".to_vec());
}

#[test]
fn tree_long_listing_pads_mode() {
    let entries = decode_tree(&sample_payload()).unwrap();
    assert_eq!(
        long_line(&entries[0], ObjectKind::Blob),
        b"100644 blob 000102030405060708090a0b0c0d0e0f10111213\ta.txt\n".to_vec()
    );
    assert_eq!(
        long_line(&entries[1], ObjectKind::Tree),
        b"040000 tree ffffffffffffffffffffffffffffffffffffffff\tsub\n".to_vec()
    );
}

#[test]
fn tree_names_may_be_non_utf8() {
    let mut p = b"100644 \xff\xfe\0".to_vec();
    p.extend(vec![1u8; 20]);
    let entries = decode_tree(&p).unwrap();
    assert_eq!(name_lines(&entries), b"\xff\xfe\n".to_vec());
}

#[test]
fn empty_tree_has_no_entries() {
    assert_eq!(decode_tree(b"").unwrap().len(), 0);
}

#[test]
fn tree_entry_without_space_is_malformed() {
    let mut p = b"100644\0".to_vec();
    p.extend(vec![1u8; 20]);
    assert_eq!(decode_tree(&p).unwrap_err(), ObjectError::MalformedEntry);
}

#[test]
fn tree_entry_with_short_hash_is_truncated() {
    let mut p = b"100644 a\0".to_vec();
    p.extend(vec![1u8; 19]);
    assert_eq!(decode_tree(&p).unwrap_err(), ObjectError::TruncatedEntry);
    assert_eq!(decode_tree(b"100644 a").unwrap_err(), ObjectError::TruncatedEntry);
}

#[test]
fn tree_objects_list_through_the_store() {
    let enc = encode_object(ObjectKind::Tree, &sample_payload());
    let obj = Object::read(&enc.compressed).unwrap();
    let entries = list_tree(&obj).unwrap();
    assert_eq!(name_lines(&entries), b"a.txt\nsub\n".to_vec());
}

#[test]
fn blobs_are_not_listed_as_trees() {
    let enc = encode_object(ObjectKind::Blob, b"x");
    let obj = Object::read(&enc.compressed).unwrap();
    assert_eq!(list_tree(&obj).unwrap_err(), ObjectError::UnsupportedKind);
}

#[test]
fn tree_long_listing_of_all_entries() {
    let entries = decode_tree(&sample_payload()).unwrap();
    let mut expected = b"100644 blob 000102030405060708090a0b0c0d0e0f10111213\ta.txt\n".to_vec();
    expected.extend_from_slice(b"040000 tree ffffffffffffffffffffffffffffffffffffffff\tsub\n");
    assert_eq!(long_lines(&entries, &[ObjectKind::Blob, ObjectKind::Tree]), expected);
}

#[test]
fn short_tree_payload_is_size_mismatch() {
    let obj = Object {
        kind: ObjectKind::Tree,
        expected_size: 100,
        payload: sample_payload(),
    };
    assert_eq!(list_tree(&obj).unwrap_err(), ObjectError::SizeMismatch);
}
