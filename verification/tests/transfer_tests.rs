use localcomm::errors::ProtocolError;
use localcomm::transfer::{
    digest_hex, encode_header, next_read_len, parse_header, ReceiveProgress, StreamHasher,
};

#[test]
fn header_encodes_as_two_lines() {
    assert_eq!(encode_header("hello.txt", 1234), "hello.txt\n1234\n");
    assert_eq!(encode_header("x", 0), "x\n0\n");
}

#[test]
fn header_parses_back() {
    let text = encode_header("hello.txt", 1234);
    let buf: Vec<u8> = text.into_bytes();
    let (h, used) = parse_header(&buf).unwrap();
    assert_eq!(h.file_name, "hello.txt");
    assert_eq!(h.file_size, 1234);
    assert_eq!(used, buf.len());
}

#[test]
fn header_with_plus_sign_and_zeros() {
    let buf: Vec<u8> = b"name\n+007\n".to_vec();
    let (h, _) = parse_header(&buf).unwrap();
    assert_eq!(h.file_size, 7);
}

#[test]
fn header_incomplete() {
    assert_eq!(
        parse_header(&b"only-one-line\n123".to_vec()).unwrap_err(),
        ProtocolError::HeaderIncomplete
    );
    assert_eq!(
        parse_header(&b"no newline at all".to_vec()).unwrap_err(),
        ProtocolError::HeaderIncomplete
    );
}

#[test]
fn header_bad_size() {
    assert_eq!(
        parse_header(&b"f\nabc\n".to_vec()).unwrap_err(),
        ProtocolError::BadSize
    );
    assert_eq!(parse_header(&b"f\n\n".to_vec()).unwrap_err(), ProtocolError::BadSize);
    assert_eq!(
        parse_header(&b"f\n99999999999999999999999\n".to_vec()).unwrap_err(),
        ProtocolError::BadSize
    );
    // largest size that still fits
    let buf: Vec<u8> = b"f\n18446744073709551615\n".to_vec();
    assert_eq!(parse_header(&buf).unwrap().0.file_size, u64::MAX);
}

#[test]
fn header_bad_name() {
    let mut buf: Vec<u8> = vec![0xff, 0xfe];
    buf.extend_from_slice(b"\n12\n");
    assert_eq!(parse_header(&buf).unwrap_err(), ProtocolError::BadName);
}

#[test]
fn read_lengths_are_clamped() {
    assert_eq!(next_read_len(0, 10, 4), 4);
    assert_eq!(next_read_len(8, 10, 4), 2);
    assert_eq!(next_read_len(10, 10, 4), 0);
    assert_eq!(next_read_len(0, 3, 65536), 3);
}

#[test]
fn sha256_known_vectors() {
    let h = StreamHasher::new();
    assert_eq!(
        h.finalize_hex(),
        "e3b0c44298fc1c149afbf4c8996fb92427ae41e4649b934ca495991b7852b855"
    );
    let mut h = StreamHasher::new();
    h.update(b"abc");
    assert_eq!(
        h.finalize_hex(),
        "ba7816bf8f01cfea414140de5dae2223b00361a396177a9cb410ff61f20015ad"
    );
    // chunking does not change the digest
    let mut h = StreamHasher::new();
    h.update(b"a");
    h.update(b"bc");
    assert_eq!(
        h.finalize_hex(),
        "ba7816bf8f01cfea414140de5dae2223b00361a396177a9cb410ff61f20015ad"
    );
}

#[test]
fn digest_hex_formats_bytes() {
    assert_eq!(digest_hex(&vec![0x00, 0xff, 0x0a]), "00ff0a");
    assert_eq!(digest_hex(&Vec::new()), "");
}

#[test]
fn receive_progress_tracks_count_and_checksum() {
    let mut p = ReceiveProgress::start(5);
    assert!(!p.is_done());
    assert_eq!(p.remaining(), 5);
    p.ingest(b"abc");
    assert_eq!(p.remaining(), 2);
    p.ingest(b"de");
    assert!(p.is_done());
    let (count, hex) = p.finish();
    assert_eq!(count, 5);
    let mut h = StreamHasher::new();
    h.update(b"abcde");
    assert_eq!(hex, h.finalize_hex());
}
