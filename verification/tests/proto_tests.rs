use diode::proto::{
    decode_packet, decode_parity_field, encode_packet, encode_parity_field, is_safe_rel_path,
    EMPTY_HASH, HEADER_SIZE, PKG_TYPE_DATA,
};

#[test]
fn parity_field_of_zero_is_empty_hash() {
    assert_eq!(encode_parity_field(0), EMPTY_HASH);
}

#[test]
fn parity_field_round_trip() {
    let f = encode_parity_field(100);
    assert_eq!(f, "00000000000000000000000000000100");
    assert_eq!(decode_parity_field(f.as_bytes()), Some(100));
}

#[test]
fn packet_round_trip() {
    let p = encode_packet(PKG_TYPE_DATA, 42, EMPTY_HASH, EMPTY_HASH, b"hello");
    assert_eq!(p.len(), HEADER_SIZE + 5);
    assert_eq!(&p[0..11], b"10000000042");
    let d = decode_packet(&p).unwrap();
    assert_eq!(d.pkg_type, PKG_TYPE_DATA);
    assert_eq!(d.count, 42);
    assert_eq!(d.data, b"hello".to_vec());
}

#[test]
fn unsafe_paths_rejected() {
    assert!(is_safe_rel_path("a/b.txt"));
    assert!(!is_safe_rel_path(""));
    assert!(!is_safe_rel_path("/etc/passwd"));
    assert!(!is_safe_rel_path("../x"));
    assert!(!is_safe_rel_path("a/./b"));
}

#[test]
fn decode_rejects_short_and_garbled_headers() {
    assert!(decode_packet(&[b'1'; 74]).is_none());
    let mut p = encode_packet(PKG_TYPE_DATA, 7, EMPTY_HASH, EMPTY_HASH, b"");
    assert!(decode_packet(&p).is_some());
    p[0] = b'x';
    assert!(decode_packet(&p).is_none());
    let mut q = encode_packet(PKG_TYPE_DATA, 7, EMPTY_HASH, EMPTY_HASH, b"");
    q[5] = b'-';
    assert!(decode_packet(&q).is_none());
}

#[test]
fn count_field_accepts_leading_plus() {
    let mut p = encode_packet(PKG_TYPE_DATA, 7, EMPTY_HASH, EMPTY_HASH, b"x");
    p[1] = b'+';
    let d = decode_packet(&p).unwrap();
    assert_eq!(d.count, 7);
}

#[test]
fn count_wider_than_ten_digits_is_written_in_full() {
    let p = encode_packet(PKG_TYPE_DATA, 12345678901, EMPTY_HASH, EMPTY_HASH, b"");
    assert_eq!(&p[0..12], b"112345678901");
    assert_eq!(p.len(), HEADER_SIZE + 1);
}

#[test]
fn encode_packet_into_replaces_contents() {
    let mut buf = vec![9u8; 200];
    diode::proto::encode_packet_into(&mut buf, 3, 5, EMPTY_HASH, EMPTY_HASH, b"ab");
    assert_eq!(buf.len(), HEADER_SIZE + 2);
    assert_eq!(&buf[0..11], b"30000000005");
    assert_eq!(&buf[75..], b"ab");
}

#[test]
fn parity_field_parsing_rules() {
    assert_eq!(decode_parity_field(b""), None);
    assert_eq!(decode_parity_field(b"+"), None);
    assert_eq!(decode_parity_field(b"+12"), Some(12));
    assert_eq!(decode_parity_field(b"-1"), None);
    assert_eq!(decode_parity_field(b"1a"), None);
    assert_eq!(decode_parity_field(b"18446744073709551615"), Some(u64::MAX));
    assert_eq!(decode_parity_field(b"18446744073709551616"), None);
    assert_eq!(
        decode_parity_field(encode_parity_field(u64::MAX).as_bytes()),
        Some(u64::MAX)
    );
}

#[test]
fn path_rules_from_the_documentation() {
    assert!(is_safe_rel_path("file"));
    assert!(is_safe_rel_path("dir/sub/file.tgz"));
    assert!(is_safe_rel_path("a//b"));
    assert!(is_safe_rel_path(".hidden"));
    assert!(is_safe_rel_path("..a"));
    assert!(is_safe_rel_path("a/b/"));
    assert!(!is_safe_rel_path("."));
    assert!(!is_safe_rel_path(".."));
    assert!(!is_safe_rel_path("./a"));
    assert!(!is_safe_rel_path("a/."));
    assert!(!is_safe_rel_path("a/../b"));
    assert!(!is_safe_rel_path("a/.."));
    assert!(!is_safe_rel_path("\\\\server\\share"));
    assert!(!is_safe_rel_path("C:evil"));
    assert!(!is_safe_rel_path("a\0b"));
}
