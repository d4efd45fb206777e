use tg::g::Error;
use tg::utils::{
    bytes_to_hex, hex_to_bytes, now_unix, now_unix_micros, now_unix_mills, now_unix_nanos, unix_micros,
    unix_millis, unix_nanos, unix_secs,
};

#[test]
fn clock_readings_agree() {
    let s = now_unix() as u128;
    let ms = now_unix_mills();
    let us = now_unix_micros();
    let ns = now_unix_nanos();
    // A clock after 2020-01-01.
    assert!(s > 1_577_836_800);
    assert!(ms / 1000 >= s);
    assert!(us / 1000 >= ms);
    assert!(ns / 1000 >= us);
    assert!(ms / 1000 <= s + 60);
}

#[test]
fn hex_encodes_lowercase() {
    assert_eq!(bytes_to_hex(&[0x00, 0x0f, 0xa5, 0xff]), "000fa5ff");
    assert_eq!(bytes_to_hex(&[]), "");
}

#[test]
fn hex_decodes_either_case() {
    assert_eq!(hex_to_bytes("000fA5fF").unwrap(), vec![0x00, 0x0f, 0xa5, 0xff]);
    assert_eq!(hex_to_bytes("").unwrap(), Vec::<u8>::new());
}

#[test]
fn hex_roundtrip() {
    let data = b"Hello world";
    assert_eq!(hex_to_bytes(&bytes_to_hex(data)).unwrap(), data.to_vec());
}

#[test]
fn hex_rejects_bad_text() {
    assert!(matches!(hex_to_bytes("abc"), Err(Error::UtilsHexStr)));
    assert!(matches!(hex_to_bytes("zz"), Err(Error::UtilsHexStr)));
}

#[test]
fn clock_reading_conversions() {
    let (s, n) = (1_700_000_000u64, 123_456_789u32);
    assert_eq!(unix_secs(s, n), 1_700_000_000);
    assert_eq!(unix_millis(s, n), 1_700_000_000_123);
    assert_eq!(unix_micros(s, n), 1_700_000_000_123_456);
    assert_eq!(unix_nanos(s, n), 1_700_000_000_123_456_789);
    assert_eq!(unix_nanos(u64::MAX, 999_999_999), u64::MAX as u128 * 1_000_000_000 + 999_999_999);
    assert_eq!(unix_millis(0, 999_999), 0);
    assert_eq!(unix_micros(0, 999), 0);
}
