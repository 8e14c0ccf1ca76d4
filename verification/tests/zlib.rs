use minigit::zlib::{compress_checked, keep_checked, round_trips};
use std::io::Write;

fn deflate(data: &[u8]) -> Vec<u8> {
    let mut encoder = flate2::write::ZlibEncoder::new(Vec::new(), flate2::Compression::default());
    encoder.write_all(data).unwrap();
    encoder.finish().unwrap()
}

#[test]
fn checked_compression_gives_a_stream_that_holds_the_data() {
    let samples: Vec<Vec<u8>> =
        vec![vec![], b"a".to_vec(), b"hello hello hello hello".to_vec(), (0..=255u8).collect()];
    for data in samples {
        let stream = compress_checked(&data).unwrap();
        assert_eq!(stream, deflate(&data));
        assert!(round_trips(&stream, &data));
        assert_eq!(&stream[..1], &[0x78]);
    }
    assert_ne!(compress_checked(b"hello").unwrap(), b"hello".to_vec());
}

#[test]
fn stream_holds_its_own_data_only() {
    let stream = deflate(b"hello");
    assert!(round_trips(&stream, b"hello"));
    assert!(!round_trips(&stream, b"hello "));
    assert!(!round_trips(&stream, b"hell"));
    assert!(!round_trips(&stream, b""));
    assert!(!round_trips(b"hello", b"hello"));
    assert!(!round_trips(b"", b""));
    assert!(!round_trips(&stream[..stream.len() - 1], b"hello"));
    let mut followed = stream.clone();
    followed.extend_from_slice(b"more");
    assert!(round_trips(&followed, b"hello"));
}

#[test]
fn compressed_stream_is_kept_only_where_it_holds_the_data() {
    let stream = deflate(b"hello");
    assert_eq!(keep_checked(Some(stream.clone()), b"hello"), Some(stream.clone()));
    assert_eq!(keep_checked(Some(stream.clone()), b"hullo"), None);
    assert_eq!(keep_checked(Some(stream.clone()), b""), None);
    assert_eq!(keep_checked(Some(b"hello".to_vec()), b"hello"), None);
    assert_eq!(keep_checked(Some(vec![]), b""), None);
    assert_eq!(keep_checked(None, b"hello"), None);
    assert_eq!(keep_checked(None, b""), None);
    let empty = deflate(b"");
    assert_eq!(keep_checked(Some(empty.clone()), b""), Some(empty));
}
