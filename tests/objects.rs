use std::io::Write;

use loose_objects::error::ObjectError;
use loose_objects::hash::ObjectHash;
use loose_objects::header::{encode_header, parse_header};
use loose_objects::kind::ObjectKind;
use loose_objects::object::{blob_contents, encode_object, hash_object, object_bytes, Object};

fn compress(bytes: &[u8]) -> Vec<u8> {
    let mut e = flate2::write::ZlibEncoder::new(Vec::new(), flate2::Compression::default());
    e.write_all(bytes).unwrap();
    e.finish().unwrap()
}

fn header_error(bytes: &[u8]) -> ObjectError {
    match Object::from_decompressed(bytes) {
        Err(e) => e,
        Ok(_) => panic!("header accepted"),
    }
}

#[test]
fn hello_blob_has_known_hash() {
    let h = hash_object(ObjectKind::Blob, b"hello\n");
    assert_eq!(h.to_hex(), b"ce013625030ba8dba906f756967f9e9ca394464a".to_vec());
}

#[test]
fn hello_blob_round_trips_through_store_format() {
    let enc = encode_object(ObjectKind::Blob, b"hello\n");
    assert_eq!(enc.hash.to_hex(), b"ce013625030ba8dba906f756967f9e9ca394464a".to_vec());
    let obj = Object::read(&enc.compressed).unwrap();
    assert_eq!(obj.kind, ObjectKind::Blob);
    assert_eq!(obj.expected_size, 6);
    assert_eq!(blob_contents(&obj).unwrap(), b"hello\n".to_vec());
}

#[test]
fn compressed_bytes_differ_from_plain_bytes() {
    let enc = encode_object(ObjectKind::Blob, b"hello\n");
    assert_ne!(enc.compressed, object_bytes(ObjectKind::Blob, b"hello\n"));
}

#[test]
fn round_trip_of_various_payloads() {
    let big: Vec<u8> = (0..5000u32).map(|i| (i * 7 % 256) as u8).collect();
    let payloads: Vec<Vec<u8>> = vec![Vec::new(), vec![0u8, 0, 0], vec![255u8; 17], big];
    for p in payloads {
        let enc = encode_object(ObjectKind::Blob, &p);
        let obj = Object::read(&enc.compressed).unwrap();
        assert_eq!(obj.kind, ObjectKind::Blob);
        assert_eq!(obj.expected_size, p.len() as u64);
        assert_eq!(obj.payload, p);
        assert_eq!(obj.full_payload().unwrap(), p);
    }
}

#[test]
fn empty_blob_has_known_hash() {
    let h = hash_object(ObjectKind::Blob, b"");
    assert_eq!(h.to_hex(), b"e69de29bb2d1d6434b8b29ae775ad8c2e48c5391".to_vec());
}

#[test]
fn same_content_gives_same_hash_and_path() {
    let a = encode_object(ObjectKind::Blob, b"same bytes");
    let b = encode_object(ObjectKind::Blob, b"same bytes");
    assert_eq!(a.hash.to_hex(), b.hash.to_hex());
    assert_eq!(a.hash.loose_path(), b.hash.loose_path());
    let c = encode_object(ObjectKind::Commit, b"same bytes");
    assert_ne!(a.hash.to_hex(), c.hash.to_hex());
}

#[test]
fn loose_path_splits_after_two_digits() {
    let h = hash_object(ObjectKind::Blob, b"hello\n");
    assert_eq!(
        h.loose_path(),
        b"objects/ce/013625030ba8dba906f756967f9e9ca394464a".to_vec()
    );
}

#[test]
fn hash_text_parsing() {
    let h = ObjectHash::parse(b"ce013625030ba8dba906f756967f9e9ca394464a").unwrap();
    assert_eq!(h.to_hex(), b"ce013625030ba8dba906f756967f9e9ca394464a".to_vec());
    assert!(ObjectHash::parse(b"ce01").is_none());
    assert!(ObjectHash::parse(b"CE013625030BA8DBA906F756967F9E9CA394464A").is_none());
    assert!(ObjectHash::parse(b"ce013625030ba8dba906f756967f9e9ca394464g").is_none());
}

#[test]
fn digest_renders_as_lowercase_hex() {
    let mut d = vec![0u8; 20];
    d[0] = 0xab;
    d[19] = 0x0f;
    let h = ObjectHash::from_digest(&d);
    assert_eq!(h.to_hex(), b"ab0000000000000000000000000000000000000f".to_vec());
}

#[test]
fn header_encoding() {
    assert_eq!(encode_header(ObjectKind::Blob, 6), b"blob 6\0".to_vec());
    assert_eq!(encode_header(ObjectKind::Tree, 0), b"tree 0\0".to_vec());
    assert_eq!(encode_header(ObjectKind::Commit, 1234567890), b"commit 1234567890\0".to_vec());
    assert_eq!(
        encode_header(ObjectKind::Blob, u64::MAX),
        b"blob 18446744073709551615\0".to_vec()
    );
}

#[test]
fn header_parsing() {
    assert_eq!(parse_header(b"blob 6\0hello\n"), Ok((ObjectKind::Blob, 6, 7)));
    assert_eq!(parse_header(b"tree 0\0"), Ok((ObjectKind::Tree, 0, 7)));
    assert_eq!(parse_header(b"commit 007\0x"), Ok((ObjectKind::Commit, 7, 11)));
    assert_eq!(
        parse_header(b"blob 18446744073709551615\0"),
        Ok((ObjectKind::Blob, u64::MAX, 26))
    );
}

#[test]
fn header_without_nul_is_malformed() {
    assert_eq!(header_error(b"blob 5"), ObjectError::MalformedHeader);
    assert_eq!(header_error(b""), ObjectError::MalformedHeader);
}

#[test]
fn header_without_space_is_malformed() {
    assert_eq!(header_error(b"blob5\0hello"), ObjectError::MalformedHeader);
}

#[test]
fn header_with_unknown_kind_is_rejected() {
    assert_eq!(header_error(b"blub 5\0hello"), ObjectError::UnknownKind);
    assert_eq!(header_error(b"Blob 5\0hello"), ObjectError::UnknownKind);
    assert_eq!(header_error(b" 5\0hello"), ObjectError::UnknownKind);
}

#[test]
fn header_with_bad_size_is_rejected() {
    assert_eq!(header_error(b"blob \0"), ObjectError::InvalidSize);
    assert_eq!(header_error(b"blob x\0"), ObjectError::InvalidSize);
    assert_eq!(header_error(b"blob +5\0hello"), ObjectError::InvalidSize);
    assert_eq!(header_error(b"blob -1\0"), ObjectError::InvalidSize);
    assert_eq!(header_error(b"blob 5 \0hello"), ObjectError::InvalidSize);
    assert_eq!(header_error(b"blob 18446744073709551616\0"), ObjectError::InvalidSize);
}

#[test]
fn smaller_declared_size_yields_exactly_that_many_bytes() {
    let obj = Object::from_decompressed(b"blob 3\0hello").unwrap();
    assert_eq!(obj.expected_size, 3);
    assert_eq!(obj.payload, b"hel".to_vec());
    let obj = Object::read(&compress(b"blob 3\0hello")).unwrap();
    assert_eq!(obj.payload, b"hel".to_vec());
    assert_eq!(blob_contents(&obj).unwrap(), b"hel".to_vec());
}

#[test]
fn larger_declared_size_is_truncated_payload() {
    let obj = Object::read(&compress(b"blob 10\0hello")).unwrap();
    assert_eq!(obj.expected_size, 10);
    assert_eq!(obj.payload, b"hello".to_vec());
    assert_eq!(obj.full_payload(), Err(ObjectError::TruncatedPayload));
    assert_eq!(blob_contents(&obj), Err(ObjectError::SizeMismatch));
}

#[test]
fn corrupt_stream_is_decompression_error() {
    assert_eq!(
        Object::read(b"definitely not zlib").unwrap_err(),
        ObjectError::DecompressionError
    );
    let mut good = compress(b"blob 6\0hello\n");
    good.truncate(good.len() / 2);
    assert_eq!(Object::read(&good).unwrap_err(), ObjectError::DecompressionError);
}

#[test]
fn compressed_header_errors_surface() {
    assert_eq!(Object::read(&compress(b"blob 5")).unwrap_err(), ObjectError::MalformedHeader);
    assert_eq!(Object::read(&compress(b"tag 5\0hello")).unwrap_err(), ObjectError::UnknownKind);
    assert_eq!(Object::read(&compress(b"tree q\0")).unwrap_err(), ObjectError::InvalidSize);
}

#[test]
fn long_header_is_found_past_first_window() {
    let mut bytes = b"blob ".to_vec();
    bytes.extend(std::iter::repeat(b'0').take(300));
    bytes.extend_from_slice(b"4\0abcdef");
    let obj = Object::read(&compress(&bytes)).unwrap();
    assert_eq!(obj.expected_size, 4);
    assert_eq!(obj.payload, b"abcd".to_vec());
}

#[test]
fn other_kinds_are_not_blob_contents() {
    let enc = encode_object(ObjectKind::Tree, b"");
    let obj = Object::read(&enc.compressed).unwrap();
    assert_eq!(obj.kind, ObjectKind::Tree);
    assert_eq!(blob_contents(&obj), Err(ObjectError::UnsupportedKind));
}

#[test]
fn kind_names() {
    assert_eq!(ObjectKind::Blob.name(), b"blob".to_vec());
    assert_eq!(ObjectKind::Tree.name(), b"tree".to_vec());
    assert_eq!(ObjectKind::Commit.name(), b"commit".to_vec());
    assert_eq!(ObjectKind::from_name(b"commit"), Some(ObjectKind::Commit));
    assert_eq!(ObjectKind::from_name(b"commits"), None);
}
