use bytes::{Bytes, BytesMut};
use resp_kv::resp::parsers::{array, bulk_string, error, parse, resp_int, simple_string, word};
use resp_kv::resp::types::{BufSplit, RESPBufSplit, RESPError, RESPValueRef};

fn buf(s: &[u8]) -> BytesMut {
    BytesMut::from(s)
}

fn span(s: &BufSplit) -> (usize, usize) {
    (s.0, s.1)
}

#[test]
fn word_finds_the_terminator() {
    let b = buf(b"+hello\r\nrest");
    let (next, w) = word(&b, 1).unwrap();
    assert_eq!(next, 8);
    assert_eq!(span(&w), (1, 6));
    assert_eq!(w.as_slice(&b), b"hello");
}

#[test]
fn word_from_the_start() {
    let b = buf(b"ab\r\n");
    let (next, w) = word(&b, 0).unwrap();
    assert_eq!((next, span(&w)), (4, (0, 2)));
}

#[test]
fn word_may_be_empty() {
    let b = buf(b"\r\n");
    let (next, w) = word(&b, 0).unwrap();
    assert_eq!((next, span(&w)), (2, (0, 0)));
    assert_eq!(w.as_slice(&b), b"");
}

#[test]
fn word_is_none_without_terminator() {
    assert!(word(&buf(b"hello"), 0).is_none());
    assert!(word(&buf(b"hello\r"), 0).is_none());
    assert!(word(&buf(b"+OK\r"), 1).is_none());
    assert!(word(&buf(b"hello\rX\r\n"), 0).is_none());
    assert!(word(&buf(b"hello\n"), 0).is_none());
    assert!(word(&buf(b""), 0).is_none());
}

#[test]
fn word_is_none_past_the_end() {
    assert!(word(&buf(b"ab\r\n"), 4).is_none());
    assert!(word(&buf(b"ab\r\n"), 5).is_none());
    assert!(word(&buf(b"ab\r\n"), usize::MAX).is_none());
}

#[test]
fn word_looks_only_behind_the_cursor() {
    let b = buf(b"a\r\nbcd\r\n");
    let (next, w) = word(&b, 3).unwrap();
    assert_eq!((next, span(&w)), (8, (3, 6)));
    let (next, w) = word(&b, 1).unwrap();
    assert_eq!((next, span(&w)), (3, (1, 1)));
}

#[test]
fn simple_string_and_error_bodies() {
    let b = buf(b"+OK\r\n-ERR\r\n");
    match simple_string(&b, 1) {
        Ok(Some((5, RESPBufSplit::String(s)))) => assert_eq!(span(&s), (1, 3)),
        _ => panic!("no simple string"),
    }
    match error(&b, 6) {
        Ok(Some((11, RESPBufSplit::Error(s)))) => assert_eq!(span(&s), (6, 9)),
        _ => panic!("no error"),
    }
    assert!(matches!(simple_string(&b, 11), Ok(None)));
    assert!(matches!(error(&buf(b"-ERR"), 1), Ok(None)));
}

#[test]
fn resp_int_body() {
    assert!(matches!(resp_int(&buf(b":42\r\n"), 1), Ok(Some((5, RESPBufSplit::Int(42))))));
    assert!(matches!(resp_int(&buf(b":-42\r\n"), 1), Ok(Some((6, RESPBufSplit::Int(-42))))));
    assert!(matches!(resp_int(&buf(b":42"), 1), Ok(None)));
    assert!(matches!(resp_int(&buf(b":4x\r\n"), 1), Err(RESPError::IntParseFailure)));
}

#[test]
fn bulk_string_body() {
    let b = buf(b"$5\r\nhello\r\n");
    match bulk_string(&b, 1) {
        Ok(Some((11, RESPBufSplit::BulkString(s)))) => {
            assert_eq!(span(&s), (4, 9));
            assert_eq!(s.as_slice(&b), b"hello");
        }
        _ => panic!("no bulk string"),
    }
    assert!(matches!(bulk_string(&buf(b"$-1\r\n"), 1), Ok(Some((5, RESPBufSplit::NullBulkString)))));
    assert!(matches!(bulk_string(&buf(b"$-3\r\n"), 1), Err(RESPError::BadBulkStringSize(-3))));
    assert!(matches!(bulk_string(&buf(b"$q\r\n"), 1), Err(RESPError::IntParseFailure)));
}

#[test]
fn bulk_string_waits_for_payload_and_terminator() {
    for input in [&b"$5"[..], b"$5\r", b"$5\r\n", b"$5\r\nhel", b"$5\r\nhello", b"$5\r\nhello\r"] {
        assert!(matches!(bulk_string(&buf(input), 1), Ok(None)), "{:?}", input);
    }
    assert!(matches!(bulk_string(&buf(b"$0\r\n\r"), 1), Ok(None)));
    assert!(matches!(bulk_string(&buf(b"$0\r\n\r\n"), 1), Ok(Some((6, RESPBufSplit::BulkString(_))))));
}

#[test]
fn array_body() {
    let b = buf(b"*2\r\n:1\r\n$2\r\nhi\r\n");
    match array(&b, 1) {
        Ok(Some((16, RESPBufSplit::Array(items)))) => {
            assert_eq!(items.len(), 2);
            assert!(matches!(items[0], RESPBufSplit::Int(1)));
            match &items[1] {
                RESPBufSplit::BulkString(s) => assert_eq!(span(s), (12, 14)),
                _ => panic!("no bulk string"),
            }
        }
        _ => panic!("no array"),
    }
    assert!(matches!(array(&buf(b"*-1\r\n"), 1), Ok(Some((5, RESPBufSplit::NullArray)))));
    assert!(matches!(array(&buf(b"*-2\r\n"), 1), Err(RESPError::BadArraySize(-2))));
    assert!(matches!(array(&buf(b"*2\r\n:1\r\n"), 1), Ok(None)));
    assert!(matches!(array(&buf(b"*2\r\n:1\r\n?"), 1), Err(RESPError::UnknownStartingByte)));
}

#[test]
fn array_of_none_is_empty() {
    match array(&buf(b"*0\r\n"), 1) {
        Ok(Some((4, RESPBufSplit::Array(items)))) => assert!(items.is_empty()),
        _ => panic!("no array"),
    }
}

#[test]
fn parse_dispatches_on_the_first_byte() {
    assert!(matches!(parse(&buf(b"+a\r\n"), 0), Ok(Some((4, RESPBufSplit::String(_))))));
    assert!(matches!(parse(&buf(b"-a\r\n"), 0), Ok(Some((4, RESPBufSplit::Error(_))))));
    assert!(matches!(parse(&buf(b":1\r\n"), 0), Ok(Some((4, RESPBufSplit::Int(1))))));
    assert!(matches!(parse(&buf(b"$1\r\na\r\n"), 0), Ok(Some((7, RESPBufSplit::BulkString(_))))));
    assert!(matches!(parse(&buf(b"*0\r\n"), 0), Ok(Some((4, RESPBufSplit::Array(_))))));
    assert!(matches!(parse(&buf(b"!\r\n"), 0), Err(RESPError::UnknownStartingByte)));
}

#[test]
fn parse_is_incomplete_at_or_past_the_end() {
    assert!(matches!(parse(&buf(b""), 0), Ok(None)));
    assert!(matches!(parse(&buf(b"+a\r\n"), 4), Ok(None)));
    assert!(matches!(parse(&buf(b"+a\r\n"), 99), Ok(None)));
    assert!(matches!(parse(&buf(b"+"), 0), Ok(None)));
}

#[test]
fn parse_from_a_cursor_inside_the_buffer() {
    let b = buf(b"+a\r\n:77\r\n");
    assert!(matches!(parse(&b, 4), Ok(Some((9, RESPBufSplit::Int(77))))));
}

#[test]
fn parse_is_repeatable() {
    let b = buf(b"*1\r\n$3\r\nabc\r\n");
    for _ in 0..3 {
        assert!(matches!(parse(&b, 0), Ok(Some((13, RESPBufSplit::Array(_))))));
    }
    assert_eq!(&b[..], b"*1\r\n$3\r\nabc\r\n");
}

#[test]
fn into_redis_value_reads_the_spans() {
    let data = Bytes::from_static(b"*3\r\n+ab\r\n-cd\r\n$2\r\nef\r\n");
    let split = RESPBufSplit::Array(vec![
        RESPBufSplit::String(BufSplit(5, 7)),
        RESPBufSplit::Error(BufSplit(10, 12)),
        RESPBufSplit::BulkString(BufSplit(18, 20)),
        RESPBufSplit::Int(-3),
        RESPBufSplit::NullArray,
        RESPBufSplit::NullBulkString,
        RESPBufSplit::Array(vec![RESPBufSplit::BulkString(BufSplit(0, 0))]),
    ]);
    assert_eq!(
        split.into_redis_value(&data),
        RESPValueRef::Array(vec![
            RESPValueRef::SimpleString(Bytes::from_static(b"ab")),
            RESPValueRef::Error(Bytes::from_static(b"cd")),
            RESPValueRef::BulkString(Bytes::from_static(b"ef")),
            RESPValueRef::Int(-3),
            RESPValueRef::NullArray,
            RESPValueRef::NullBulkString,
            RESPValueRef::Array(vec![RESPValueRef::BulkString(Bytes::new())]),
        ])
    );
}

#[test]
fn parse_then_into_redis_value() {
    let b = buf(b"*2\r\n$4\r\nECHO\r\n$2\r\nhi\r\ntrailing");
    let (next, split) = parse(&b, 0).unwrap().unwrap();
    assert_eq!(next, 22);
    let data = b.freeze();
    assert_eq!(
        split.into_redis_value(&data),
        RESPValueRef::Array(vec![
            RESPValueRef::BulkString(Bytes::from_static(b"ECHO")),
            RESPValueRef::BulkString(Bytes::from_static(b"hi")),
        ])
    );
}
