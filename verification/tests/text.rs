use resp_kv::decimal::{format_i64, format_u64, read_i64, read_u128};
use resp_kv::text::{same_bytes, same_text};

#[test]
fn format_unsigned() {
    assert_eq!(format_u64(0), b"0");
    assert_eq!(format_u64(7), b"7");
    assert_eq!(format_u64(10), b"10");
    assert_eq!(format_u64(1234567890), b"1234567890");
    assert_eq!(format_u64(u64::MAX), b"18446744073709551615");
}

#[test]
fn format_signed() {
    assert_eq!(format_i64(0), b"0");
    assert_eq!(format_i64(-1), b"-1");
    assert_eq!(format_i64(42), b"42");
    assert_eq!(format_i64(-100), b"-100");
    assert_eq!(format_i64(i64::MAX), b"9223372036854775807");
    assert_eq!(format_i64(i64::MIN), b"-9223372036854775808");
}

#[test]
fn format_agrees_with_std() {
    for i in [0i64, 1, -1, 9, 10, 11, 99, 100, 101, -99, -100, 123456789, i64::MAX - 1, i64::MIN + 1] {
        assert_eq!(format_i64(i), i.to_string().into_bytes());
    }
    for n in [0u64, 9, 10, 19, 20, 999, 1000, u64::MAX - 1] {
        assert_eq!(format_u64(n), n.to_string().into_bytes());
    }
}

#[test]
fn read_signed() {
    assert_eq!(read_i64(b"0"), Some(0));
    assert_eq!(read_i64(b"-0"), Some(0));
    assert_eq!(read_i64(b"+0"), Some(0));
    assert_eq!(read_i64(b"42"), Some(42));
    assert_eq!(read_i64(b"+42"), Some(42));
    assert_eq!(read_i64(b"-42"), Some(-42));
    assert_eq!(read_i64(b"0042"), Some(42));
    assert_eq!(read_i64(b"-0042"), Some(-42));
    assert_eq!(read_i64(b"00000000000000000000000000000000000001"), Some(1));
    assert_eq!(read_i64(b"9223372036854775807"), Some(i64::MAX));
    assert_eq!(read_i64(b"-9223372036854775808"), Some(i64::MIN));
    assert_eq!(read_i64(b"-9223372036854775807"), Some(i64::MIN + 1));
}

#[test]
fn read_signed_rejects() {
    for s in [
        &b""[..],
        b"-",
        b"+",
        b"+-1",
        b"-+1",
        b"--1",
        b"1-",
        b" 1",
        b"1 ",
        b"1e3",
        b"0x10",
        b"1_000",
        b"12a",
        b"a12",
        b"1.0",
        b"\xd9\xa1",
        b"9223372036854775808",
        b"-9223372036854775809",
        b"99999999999999999999999999999999999999999",
        b"-99999999999999999999999999999999999999999",
        b"340282366920938463463374607431768211456",
    ] {
        assert_eq!(read_i64(s), None, "{:?}", s);
    }
}

#[test]
fn read_unsigned() {
    assert_eq!(read_u128(b"0"), Some(0));
    assert_eq!(read_u128(b"+0"), Some(0));
    assert_eq!(read_u128(b"100"), Some(100));
    assert_eq!(read_u128(b"+100"), Some(100));
    assert_eq!(read_u128(b"000100"), Some(100));
    assert_eq!(read_u128(b"340282366920938463463374607431768211455"), Some(u128::MAX));
    assert_eq!(read_u128(b"0340282366920938463463374607431768211455"), Some(u128::MAX));
}

#[test]
fn read_unsigned_rejects() {
    for s in [
        &b""[..],
        b"-0",
        b"-1",
        b"+",
        b"++1",
        b"1a",
        b" 1",
        b"340282366920938463463374607431768211456",
        b"3402823669209384634633746074317682114550",
        b"999999999999999999999999999999999999999",
    ] {
        assert_eq!(read_u128(s), None, "{:?}", s);
    }
}

#[test]
fn read_agrees_with_std() {
    for s in ["", "+", "-", "7", "-7", "+7", "007", "-007", "7 ", "9223372036854775807",
        "9223372036854775808", "-9223372036854775808", "-9223372036854775809", "--7", "+-7"]
    {
        assert_eq!(read_i64(s.as_bytes()), s.parse::<i64>().ok(), "{:?}", s);
        assert_eq!(read_u128(s.as_bytes()), s.parse::<u128>().ok(), "{:?}", s);
    }
}

#[test]
fn read_what_was_written() {
    for i in [0i64, 1, -1, 10, -10, 4096, i64::MAX, i64::MIN] {
        assert_eq!(read_i64(&format_i64(i)), Some(i));
    }
    for n in [0u64, 1, 10, u64::MAX] {
        assert_eq!(read_u128(&format_u64(n)), Some(n as u128));
    }
}

#[test]
fn same_bytes_compares_contents() {
    assert!(same_bytes(b"", b""));
    assert!(same_bytes(b"abc", b"abc"));
    assert!(!same_bytes(b"abc", b"abd"));
    assert!(!same_bytes(b"abc", b"ab"));
    assert!(!same_bytes(b"", b"a"));
    assert!(!same_bytes(b"xbc", b"abc"));
}

#[test]
fn same_text_compares_contents() {
    assert!(same_text("", ""));
    assert!(same_text("ping", "ping"));
    assert!(!same_text("ping", "Ping"));
    assert!(!same_text("ping", "pin"));
    assert!(same_text("caf\u{e9}", "caf\u{e9}"));
    assert!(!same_text("caf\u{e9}", "cafe"));
}
