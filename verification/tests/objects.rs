use minigit::address::{from_hex, object_path, to_hex};
use minigit::decimal::{format_decimal, parse_decimal};
use minigit::error::Error;
use minigit::kind::Kind;
use minigit::object::Object;

fn hex(bytes: &[u8]) -> String {
    String::from_utf8(to_hex(bytes)).unwrap()
}

#[test]
fn kind_from_byte_maps_type_codes() {
    assert_eq!(Kind::from_byte(1), Kind::Commit);
    assert_eq!(Kind::from_byte(2), Kind::Tree);
    assert_eq!(Kind::from_byte(3), Kind::Blob);
    assert_eq!(Kind::from_byte(7), Kind::RefDelta);
    assert_eq!(Kind::from_byte(6), Kind::Unknown(6));
    assert_eq!(Kind::from_byte(0), Kind::Unknown(0));
    assert_eq!(Kind::from_byte(255), Kind::Unknown(255));
}

#[test]
fn kind_names() {
    assert_eq!(Kind::Blob.name(), b"blob".to_vec());
    assert_eq!(Kind::Tree.name(), b"tree".to_vec());
    assert_eq!(Kind::Commit.name(), b"commit".to_vec());
    assert_eq!(Kind::RefDelta.name(), b"unsupported".to_vec());
    assert_eq!(Kind::Unknown(9).name(), b"unsupported".to_vec());
    assert_eq!(Kind::from_name(b"blob"), Some(Kind::Blob));
    assert_eq!(Kind::from_name(b"tree"), Some(Kind::Tree));
    assert_eq!(Kind::from_name(b"commit"), Some(Kind::Commit));
    assert_eq!(Kind::from_name(b"tag"), None);
    assert_eq!(Kind::from_name(b""), None);
    assert!(Kind::Blob.stored());
    assert!(!Kind::RefDelta.stored());
}

#[test]
fn hex_text_of_bytes() {
    assert_eq!(to_hex(&[]), b"".to_vec());
    assert_eq!(to_hex(&[0x00, 0x0f, 0xa5, 0xff]), b"000fa5ff".to_vec());
    assert_eq!(to_hex(b"Hello"), b"48656c6c6f".to_vec());
}

#[test]
fn hex_text_is_read_back() {
    assert_eq!(from_hex(b"000fa5ff"), Some(vec![0x00, 0x0f, 0xa5, 0xff]));
    assert_eq!(from_hex(b""), Some(vec![]));
    assert_eq!(from_hex(b"abc"), None);
    assert_eq!(from_hex(b"0g"), None);
    assert_eq!(from_hex(b"AB"), None);
    let all: Vec<u8> = (0..=255u8).collect();
    assert_eq!(from_hex(&to_hex(&all)), Some(all));
}

#[test]
fn decimal_text() {
    assert_eq!(format_decimal(0), b"0".to_vec());
    assert_eq!(format_decimal(7), b"7".to_vec());
    assert_eq!(format_decimal(1234567890), b"1234567890".to_vec());
    assert_eq!(format_decimal(u64::MAX), b"18446744073709551615".to_vec());
    assert_eq!(parse_decimal(b"0"), Some(0));
    assert_eq!(parse_decimal(b"0012"), Some(12));
    assert_eq!(parse_decimal(b"+12"), Some(12));
    assert_eq!(parse_decimal(b"18446744073709551615"), Some(u64::MAX));
    assert_eq!(parse_decimal(b"18446744073709551616"), None);
    assert_eq!(parse_decimal(b"99999999999999999999999"), None);
    assert_eq!(parse_decimal(b""), None);
    assert_eq!(parse_decimal(b"+"), None);
    assert_eq!(parse_decimal(b"-1"), None);
    assert_eq!(parse_decimal(b"12 "), None);
    assert_eq!(parse_decimal(b"1a"), None);
}

#[test]
fn framed_form_is_kind_size_zero_payload() {
    let blob = Object::new(Kind::Blob, b"hello\n".to_vec());
    assert_eq!(blob.expected_size, 6);
    assert_eq!(blob.framed(), Ok(b"blob 6\0hello\n".to_vec()));
    let tree = Object::new(Kind::Tree, vec![]);
    assert_eq!(tree.framed(), Ok(b"tree 0\0".to_vec()));
    let commit = Object::new(Kind::Commit, vec![b'x'; 1234]);
    let framed = commit.framed().unwrap();
    assert_eq!(&framed[..12], b"commit 1234\0");
    assert_eq!(framed.len(), 12 + 1234);
}

#[test]
fn blob_round_trip_hello() {
    let blob = Object::new(Kind::Blob, b"hello\n".to_vec());
    let stored = blob.write().unwrap();
    assert_eq!(hex(&stored.hash), "ce013625030ba8dba906f756967f9e9ca394464a");
    assert_eq!(blob.id().unwrap(), stored.hash);
    assert_ne!(stored.bytes, b"blob 6\0hello\n".to_vec());
    let back = Object::read(&stored.bytes).unwrap();
    assert_eq!(back.kind, Kind::Blob);
    assert_eq!(back.expected_size, 6);
    assert_eq!(back.payload, b"hello\n".to_vec());
}

#[test]
fn empty_blob_address() {
    let blob = Object::new(Kind::Blob, vec![]);
    let stored = blob.write().unwrap();
    assert_eq!(hex(&stored.hash), "e69de29bb2d1d6434b8b29ae775ad8c2e48c5391");
    let back = Object::read(&stored.bytes).unwrap();
    assert_eq!(back.kind, Kind::Blob);
    assert_eq!(back.expected_size, 0);
    assert_eq!(back.payload, Vec::<u8>::new());
}

#[test]
fn every_stored_kind_round_trips() {
    let payloads: Vec<Vec<u8>> = vec![
        vec![],
        vec![0],
        b" \0 \0".to_vec(),
        (0..=255u8).collect(),
        vec![7u8; 100_000],
    ];
    for kind in [Kind::Blob, Kind::Tree, Kind::Commit] {
        for payload in &payloads {
            let object = Object::new(kind, payload.clone());
            let stored = object.write().unwrap();
            assert_eq!(stored.hash.len(), 20);
            let back = Object::read(&stored.bytes).unwrap();
            assert_eq!(back.kind, kind);
            assert_eq!(back.expected_size, payload.len() as u64);
            assert_eq!(&back.payload, payload);
            assert_eq!(back.id().unwrap(), stored.hash);
        }
    }
}

#[test]
fn writing_is_deterministic() {
    let a = Object::new(Kind::Blob, b"same".to_vec()).write().unwrap();
    let b = Object::new(Kind::Blob, b"same".to_vec()).write().unwrap();
    assert_eq!(a.hash, b.hash);
    assert_eq!(a.bytes, b.bytes);
    let c = Object::new(Kind::Tree, b"same".to_vec()).write().unwrap();
    assert_ne!(a.hash, c.hash);
}

#[test]
fn pack_only_kinds_are_not_written() {
    let delta = Object::new(Kind::RefDelta, b"x".to_vec());
    assert_eq!(delta.framed().unwrap_err(), Error::Unsupported);
    assert_eq!(delta.id().unwrap_err(), Error::Unsupported);
    assert_eq!(delta.write().unwrap_err(), Error::Unsupported);
    let unknown = Object::new(Kind::Unknown(5), vec![]);
    assert_eq!(unknown.write().unwrap_err(), Error::Unsupported);
}

#[test]
fn wrong_declared_size_is_not_written() {
    let short = Object { kind: Kind::Blob, expected_size: 7, payload: b"hello\n".to_vec() };
    assert_eq!(short.write().unwrap_err(), Error::SizeMismatch);
    let long = Object { kind: Kind::Blob, expected_size: 5, payload: b"hello\n".to_vec() };
    assert_eq!(long.framed().unwrap_err(), Error::SizeMismatch);
    assert_eq!(long.id().unwrap_err(), Error::SizeMismatch);
}

#[test]
fn sealed_needs_compressed_bytes() {
    let stored = Object::sealed(vec![1; 20], Some(vec![9, 9])).unwrap();
    assert_eq!(stored.hash, vec![1; 20]);
    assert_eq!(stored.bytes, vec![9, 9]);
    assert_eq!(Object::sealed(vec![1; 20], None).unwrap_err(), Error::Io);
}

#[test]
fn from_framed_reads_header_and_payload() {
    let object = Object::from_framed(b"blob 6\0hello\n").unwrap();
    assert_eq!(object.kind, Kind::Blob);
    assert_eq!(object.expected_size, 6);
    assert_eq!(object.payload, b"hello\n".to_vec());
    let object = Object::from_framed(b"tree +2\0ab").unwrap();
    assert_eq!(object.kind, Kind::Tree);
    assert_eq!(object.payload, b"ab".to_vec());
}

#[test]
fn from_framed_passes_over_excess() {
    let object = Object::from_framed(b"blob 3\0hello\n").unwrap();
    assert_eq!(object.expected_size, 3);
    assert_eq!(object.payload, b"hel".to_vec());
}

#[test]
fn from_framed_rejects_bad_headers() {
    assert_eq!(Object::from_framed(b"").unwrap_err(), Error::Malformed);
    assert_eq!(Object::from_framed(b"blob 6 hello").unwrap_err(), Error::Malformed);
    assert_eq!(Object::from_framed(b"blob6\0hello\n").unwrap_err(), Error::Malformed);
    assert_eq!(Object::from_framed(b"tag 6\0hello\n").unwrap_err(), Error::Malformed);
    assert_eq!(Object::from_framed(b"blob six\0hello\n").unwrap_err(), Error::Malformed);
    assert_eq!(Object::from_framed(b"blob \0hello\n").unwrap_err(), Error::Malformed);
    assert_eq!(Object::from_framed(b"blob 6 \0hello\n").unwrap_err(), Error::Malformed);
    assert_eq!(Object::from_framed(b" 6\0hello\n").unwrap_err(), Error::Malformed);
    assert_eq!(
        Object::from_framed(b"blob 18446744073709551616\0").unwrap_err(),
        Error::Malformed
    );
}

#[test]
fn from_framed_rejects_shortfall() {
    assert_eq!(Object::from_framed(b"blob 7\0hello\n").unwrap_err(), Error::SizeMismatch);
    assert_eq!(Object::from_framed(b"blob 1\0").unwrap_err(), Error::SizeMismatch);
}

#[test]
fn read_rejects_what_is_no_zlib_stream() {
    assert_eq!(Object::read(b"").unwrap_err(), Error::Malformed);
    assert_eq!(Object::read(b"blob 6\0hello\n").unwrap_err(), Error::Malformed);
    let stored = Object::new(Kind::Blob, b"hello\n".to_vec()).write().unwrap();
    assert_eq!(Object::read(&stored.bytes[..stored.bytes.len() - 3]).unwrap_err(), Error::Malformed);
}

#[test]
fn read_accepts_a_stream_from_another_compressor() {
    // zlib stream of "blob 6\0hello\n" as another implementation writes it
    let stored = from_hex(b"789c4bcac94f523063c848cdc9c9e702001dc50414").unwrap();
    let object = Object::read(&stored).unwrap();
    assert_eq!(object.kind, Kind::Blob);
    assert_eq!(object.payload, b"hello\n".to_vec());
}

#[test]
fn object_path_splits_the_address() {
    let hash = from_hex(b"ce013625030ba8dba906f756967f9e9ca394464a").unwrap();
    assert_eq!(
        object_path(&hash),
        Some(b".git/objects/ce/013625030ba8dba906f756967f9e9ca394464a".to_vec())
    );
    assert_eq!(object_path(&hash[..19]), None);
    assert_eq!(object_path(&[]), None);
}

#[test]
fn hashing_sink_gives_bytes_and_their_sha1() {
    let mut sink = minigit::hash::HashWriter::new();
    assert_eq!(sink.write(b"blob 6\0"), 7);
    sink.flush();
    assert_eq!(sink.write(b""), 0);
    assert_eq!(sink.write(b"hello\n"), 6);
    let (bytes, digest) = sink.finish();
    assert_eq!(bytes, b"blob 6\0hello\n".to_vec());
    assert_eq!(hex(&digest), "ce013625030ba8dba906f756967f9e9ca394464a");
    let (bytes, digest) = minigit::hash::HashWriter::new().finish();
    assert_eq!(bytes, Vec::<u8>::new());
    assert_eq!(hex(&digest), "da39a3ee5e6b4b0d3255bfef95601890afd80709");
}
