use minipacked::constants::{HEADER_LEN, SALT_LEN, STREAM_NONCE_LEN, VERSION};
use minipacked::error::PackError;
use minipacked::format::FileHeader;

fn sample() -> FileHeader {
    FileHeader {
        password_mode: 1,
        salt: (0..16u8).collect(),
        nonce: (100..119u8).collect(),
        raw_size: 0x0102_0304_0506_0708,
        compressed_size: 42,
    }
}

#[test]
fn header_encoding_is_exact() {
    let mut out = Vec::new();
    sample().write_to(&mut out);
    assert_eq!(out.len(), HEADER_LEN);
    assert_eq!(&out[..8], b"MINIPACK");
    assert_eq!(out[8], VERSION);
    assert_eq!(out[9], 1);
    assert_eq!(&out[10..26], &(0..16u8).collect::<Vec<_>>()[..]);
    assert_eq!(&out[26..45], &(100..119u8).collect::<Vec<_>>()[..]);
    assert_eq!(&out[45..53], &[8, 7, 6, 5, 4, 3, 2, 1]);
    assert_eq!(&out[53..61], &[42, 0, 0, 0, 0, 0, 0, 0]);
}

#[test]
fn header_write_appends() {
    let mut out = vec![9u8, 9];
    sample().write_to(&mut out);
    assert_eq!(out.len(), HEADER_LEN + 2);
    assert_eq!(&out[..2], &[9, 9]);
    assert_eq!(&out[2..10], b"MINIPACK");
}

#[test]
fn header_roundtrip_with_trailing_bytes() {
    let h = sample();
    let mut out = Vec::new();
    h.write_to(&mut out);
    out.extend_from_slice(&[1, 2, 3]);
    let back = FileHeader::read_from(&out).unwrap();
    assert_eq!(back.password_mode, h.password_mode);
    assert_eq!(back.salt, h.salt);
    assert_eq!(back.nonce, h.nonce);
    assert_eq!(back.raw_size, h.raw_size);
    assert_eq!(back.compressed_size, h.compressed_size);
}

#[test]
fn header_rewrite_keeps_length() {
    let mut h = sample();
    let mut first = Vec::new();
    h.write_to(&mut first);
    h.compressed_size = u64::MAX;
    let mut second = Vec::new();
    h.write_to(&mut second);
    assert_eq!(first.len(), second.len());
    assert_eq!(FileHeader::read_from(&second).unwrap().compressed_size, u64::MAX);
}

#[test]
fn header_errors() {
    let mut out = Vec::new();
    sample().write_to(&mut out);
    assert!(matches!(FileHeader::read_from(&out[..5]), Err(PackError::TruncatedHeader)));
    assert!(matches!(FileHeader::read_from(&out[..8]), Err(PackError::TruncatedHeader)));
    assert!(matches!(FileHeader::read_from(&out[..60]), Err(PackError::TruncatedHeader)));
    let mut bad = out.clone();
    bad[0] = b'X';
    assert!(matches!(FileHeader::read_from(&bad), Err(PackError::InvalidMagic)));
    let mut bad_short = b"NOTMAGIC".to_vec();
    bad_short.truncate(8);
    assert!(matches!(FileHeader::read_from(&bad_short), Err(PackError::InvalidMagic)));
    let mut v = out.clone();
    v[8] = 7;
    assert!(matches!(FileHeader::read_from(&v), Err(PackError::UnsupportedVersion(7))));
    assert!(matches!(FileHeader::read_from(&[]), Err(PackError::TruncatedHeader)));
}

#[test]
fn header_new_has_fresh_salt_and_nonce() {
    let a = FileHeader::new(10, 0).unwrap();
    let b = FileHeader::new(10, 0).unwrap();
    assert_eq!(a.salt.len(), SALT_LEN);
    assert_eq!(a.nonce.len(), STREAM_NONCE_LEN);
    assert_eq!(a.raw_size, 10);
    assert_eq!(a.compressed_size, 0);
    assert_eq!(a.password_mode, 0);
    assert!(a.salt != b.salt || a.nonce != b.nonce);
}
