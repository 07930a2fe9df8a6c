use bytes::{Bytes, BytesMut};
use resp_kv::resp::{RESPError, RESPValueRef, RespParser};

fn decode_all(input: &[u8]) -> (Result<Option<RESPValueRef>, RESPError>, BytesMut) {
    let mut buf = BytesMut::from(input);
    let r = RespParser.decode(&mut buf);
    (r, buf)
}

fn encode_one(v: RESPValueRef) -> Vec<u8> {
    let mut out = BytesMut::new();
    RespParser.encode(v, &mut out).unwrap();
    out.to_vec()
}

fn bulk(s: &'static [u8]) -> RESPValueRef {
    RESPValueRef::BulkString(Bytes::from_static(s))
}

fn sample_values() -> Vec<RESPValueRef> {
    vec![
        RESPValueRef::SimpleString(Bytes::from_static(b"OK")),
        RESPValueRef::SimpleString(Bytes::from_static(b"")),
        RESPValueRef::Error(Bytes::from_static(b"ERR unknown command 'foox'")),
        RESPValueRef::Int(0),
        RESPValueRef::Int(-1),
        RESPValueRef::Int(i64::MAX),
        RESPValueRef::Int(i64::MIN),
        bulk(b""),
        bulk(b"hello"),
        bulk(b"with\r\ninside"),
        RESPValueRef::NullBulkString,
        RESPValueRef::NullArray,
        RESPValueRef::Array(vec![]),
        RESPValueRef::Array(vec![bulk(b"SET"), bulk(b"foo"), bulk(b"bar")]),
        RESPValueRef::Array(vec![
            RESPValueRef::Int(7),
            RESPValueRef::Array(vec![
                RESPValueRef::NullArray,
                RESPValueRef::Array(vec![bulk(b"deep")]),
                RESPValueRef::SimpleString(Bytes::from_static(b"x")),
            ]),
            RESPValueRef::NullBulkString,
        ]),
    ]
}

#[test]
fn decode_simple_string() {
    let (r, rest) = decode_all(b"+OK\r\n");
    assert_eq!(r.unwrap(), Some(RESPValueRef::SimpleString(Bytes::from_static(b"OK"))));
    assert!(rest.is_empty());
}

#[test]
fn decode_error_value() {
    let (r, rest) = decode_all(b"-ERR boom\r\n");
    assert_eq!(r.unwrap(), Some(RESPValueRef::Error(Bytes::from_static(b"ERR boom"))));
    assert!(rest.is_empty());
}

#[test]
fn decode_integers() {
    assert_eq!(decode_all(b":1234\r\n").0.unwrap(), Some(RESPValueRef::Int(1234)));
    assert_eq!(decode_all(b":-7\r\n").0.unwrap(), Some(RESPValueRef::Int(-7)));
    assert_eq!(decode_all(b":+7\r\n").0.unwrap(), Some(RESPValueRef::Int(7)));
    assert_eq!(decode_all(b":007\r\n").0.unwrap(), Some(RESPValueRef::Int(7)));
    assert_eq!(
        decode_all(b":9223372036854775807\r\n").0.unwrap(),
        Some(RESPValueRef::Int(i64::MAX))
    );
    assert_eq!(
        decode_all(b":-9223372036854775808\r\n").0.unwrap(),
        Some(RESPValueRef::Int(i64::MIN))
    );
}

#[test]
fn decode_integer_failures() {
    for input in [
        &b":\r\n"[..],
        b":abc\r\n",
        b":12a\r\n",
        b":-\r\n",
        b":+\r\n",
        b":--1\r\n",
        b": 1\r\n",
        b":1 \r\n",
        b":9223372036854775808\r\n",
        b":-9223372036854775809\r\n",
        b":\xff\r\n",
        b"$x\r\n",
        b"*1.5\r\n",
    ] {
        let (r, rest) = decode_all(input);
        assert!(matches!(r, Err(RESPError::IntParseFailure)), "{:?}", input);
        assert_eq!(&rest[..], input);
    }
}

#[test]
fn decode_bulk_string() {
    let (r, rest) = decode_all(b"$3\r\nfoo\r\n");
    assert_eq!(r.unwrap(), Some(bulk(b"foo")));
    assert!(rest.is_empty());
    assert_eq!(decode_all(b"$0\r\n\r\n").0.unwrap(), Some(bulk(b"")));
    assert_eq!(decode_all(b"$-1\r\n").0.unwrap(), Some(RESPValueRef::NullBulkString));
}

#[test]
fn decode_bulk_string_keeps_inner_terminators() {
    let (r, rest) = decode_all(b"$5\r\na\r\nb\r\r\n+next\r\n");
    assert_eq!(r.unwrap(), Some(bulk(b"a\r\nb\r")));
    assert_eq!(&rest[..], b"+next\r\n");
}

#[test]
fn decode_bulk_string_does_not_look_at_its_terminator() {
    let (r, rest) = decode_all(b"$3\r\nfooXY+OK\r\n");
    assert_eq!(r.unwrap(), Some(bulk(b"foo")));
    assert_eq!(&rest[..], b"+OK\r\n");
}

#[test]
fn decode_bad_bulk_string_size() {
    let (r, rest) = decode_all(b"$-2\r\n");
    assert!(matches!(r, Err(RESPError::BadBulkStringSize(-2))));
    assert_eq!(&rest[..], b"$-2\r\n");
    assert!(matches!(
        decode_all(b"$-9223372036854775808\r\n").0,
        Err(RESPError::BadBulkStringSize(i64::MIN))
    ));
}

#[test]
fn decode_bad_array_size() {
    let (r, rest) = decode_all(b"*-2\r\n");
    assert!(matches!(r, Err(RESPError::BadArraySize(-2))));
    assert_eq!(&rest[..], b"*-2\r\n");
}

#[test]
fn decode_unknown_starting_byte() {
    for input in [&b"?\r\n"[..], b"hello\r\n", b"\r\n", b"\0", b"*1\r\n!x\r\n"] {
        let (r, rest) = decode_all(input);
        assert!(matches!(r, Err(RESPError::UnknownStartingByte)), "{:?}", input);
        assert_eq!(&rest[..], input);
    }
}

#[test]
fn decode_arrays() {
    assert_eq!(decode_all(b"*0\r\n").0.unwrap(), Some(RESPValueRef::Array(vec![])));
    assert_eq!(decode_all(b"*-1\r\n").0.unwrap(), Some(RESPValueRef::NullArray));
    let (r, rest) = decode_all(b"*2\r\n$3\r\nfoo\r\n$3\r\nbar\r\n");
    assert_eq!(r.unwrap(), Some(RESPValueRef::Array(vec![bulk(b"foo"), bulk(b"bar")])));
    assert!(rest.is_empty());
}

#[test]
fn decode_nested_array() {
    let (r, rest) = decode_all(b"*3\r\n:1\r\n*2\r\n+a\r\n-b\r\n$-1\r\n:99\r\n");
    assert_eq!(
        r.unwrap(),
        Some(RESPValueRef::Array(vec![
            RESPValueRef::Int(1),
            RESPValueRef::Array(vec![
                RESPValueRef::SimpleString(Bytes::from_static(b"a")),
                RESPValueRef::Error(Bytes::from_static(b"b")),
            ]),
            RESPValueRef::NullBulkString,
        ]))
    );
    assert_eq!(&rest[..], b":99\r\n");
}

#[test]
fn decode_reports_the_first_bad_element() {
    let (r, _) = decode_all(b"*3\r\n:1\r\n$-5\r\n*-7\r\n");
    assert!(matches!(r, Err(RESPError::BadBulkStringSize(-5))));
    let (r, _) = decode_all(b"*2\r\n:x\r\n");
    assert!(matches!(r, Err(RESPError::IntParseFailure)));
}

#[test]
fn decode_empty_buffer_is_incomplete() {
    let (r, rest) = decode_all(b"");
    assert_eq!(r.unwrap(), None);
    assert!(rest.is_empty());
}

#[test]
fn decode_takes_one_frame_and_leaves_the_rest() {
    let mut buf = BytesMut::from(&b"+one\r\n:2\r\n$5\r\nthree\r\n+pa"[..]);
    let mut codec = RespParser;
    assert_eq!(
        codec.decode(&mut buf).unwrap(),
        Some(RESPValueRef::SimpleString(Bytes::from_static(b"one")))
    );
    assert_eq!(&buf[..], b":2\r\n$5\r\nthree\r\n+pa");
    assert_eq!(codec.decode(&mut buf).unwrap(), Some(RESPValueRef::Int(2)));
    assert_eq!(codec.decode(&mut buf).unwrap(), Some(bulk(b"three")));
    assert_eq!(codec.decode(&mut buf).unwrap(), None);
    assert_eq!(&buf[..], b"+pa");
    buf.extend_from_slice(b"rt\r\n");
    assert_eq!(
        codec.decode(&mut buf).unwrap(),
        Some(RESPValueRef::SimpleString(Bytes::from_static(b"part")))
    );
    assert!(buf.is_empty());
}

#[test]
fn carriage_return_at_the_end_is_incomplete() {
    for input in [&b"+OK\r"[..], b":12\r", b"$3\r", b"*2\r", b"*1\r\n+a\r", b"-\r"] {
        let (r, rest) = decode_all(input);
        assert_eq!(r.unwrap(), None, "{:?}", input);
        assert_eq!(&rest[..], input);
    }
}

#[test]
fn carriage_return_without_line_feed_is_incomplete() {
    for input in [&b"+a\rb\r\n"[..], b":1\r2\r\n", b"+\rx", b"*1\r\n+a\rb\r\n"] {
        let (r, rest) = decode_all(input);
        assert_eq!(r.unwrap(), None, "{:?}", input);
        assert_eq!(&rest[..], input);
    }
}

#[test]
fn huge_declared_sizes_are_incomplete() {
    let (r, rest) = decode_all(b"$9223372036854775807\r\nabc");
    assert_eq!(r.unwrap(), None);
    assert_eq!(&rest[..], b"$9223372036854775807\r\nabc");
    let (r, _) = decode_all(b"*9223372036854775807\r\n:1\r\n");
    assert_eq!(r.unwrap(), None);
}

#[test]
fn encode_each_kind() {
    assert_eq!(encode_one(RESPValueRef::SimpleString(Bytes::from_static(b"OK"))), b"+OK\r\n");
    assert_eq!(encode_one(RESPValueRef::Error(Bytes::from_static(b"ERR x"))), b"-ERR x\r\n");
    assert_eq!(encode_one(RESPValueRef::Int(1234)), b":1234\r\n");
    assert_eq!(encode_one(RESPValueRef::Int(0)), b":0\r\n");
    assert_eq!(encode_one(RESPValueRef::Int(-5)), b":-5\r\n");
    assert_eq!(encode_one(RESPValueRef::Int(i64::MIN)), b":-9223372036854775808\r\n");
    assert_eq!(encode_one(RESPValueRef::Int(i64::MAX)), b":9223372036854775807\r\n");
    assert_eq!(encode_one(bulk(b"foo")), b"$3\r\nfoo\r\n");
    assert_eq!(encode_one(bulk(b"")), b"$0\r\n\r\n");
    assert_eq!(encode_one(bulk(b"0123456789")), b"$10\r\n0123456789\r\n");
    assert_eq!(encode_one(RESPValueRef::NullBulkString), b"$-1\r\n");
    assert_eq!(encode_one(RESPValueRef::NullArray), b"*-1\r\n");
    assert_eq!(encode_one(RESPValueRef::Array(vec![])), b"*0\r\n");
    assert_eq!(
        encode_one(RESPValueRef::Array(vec![bulk(b"foo"), bulk(b"bar")])),
        b"*2\r\n$3\r\nfoo\r\n$3\r\nbar\r\n"
    );
}

#[test]
fn encode_nested_array() {
    let v = RESPValueRef::Array(vec![
        bulk(b"foo"),
        RESPValueRef::Int(-42),
        RESPValueRef::Array(vec![RESPValueRef::NullBulkString, RESPValueRef::NullArray]),
    ]);
    assert_eq!(encode_one(v), b"*3\r\n$3\r\nfoo\r\n:-42\r\n*2\r\n$-1\r\n*-1\r\n".to_vec());
}

#[test]
fn encode_appends_to_what_is_there() {
    let mut out = BytesMut::from(&b"+first\r\n"[..]);
    let mut codec = RespParser;
    assert!(codec.encode(RESPValueRef::Int(2), &mut out).is_ok());
    assert!(codec.encode(bulk(b"three"), &mut out).is_ok());
    assert_eq!(&out[..], b"+first\r\n:2\r\n$5\r\nthree\r\n");
}

#[test]
fn encode_then_decode_gives_the_value_back() {
    for v in sample_values() {
        let text = encode_one(v.clone());
        let mut buf = BytesMut::from(&text[..]);
        let back = RespParser.decode(&mut buf).unwrap();
        assert_eq!(back, Some(v));
        assert!(buf.is_empty());
    }
}

#[test]
fn decode_then_encode_then_decode_is_stable() {
    for input in [
        &b":+007\r\n"[..],
        b":-0\r\n",
        b"$+3\r\nabcXY",
        b"*+2\r\n:01\r\n$03\r\nabc\r\n",
        b"*1\r\n*1\r\n*0\r\n",
    ] {
        let (first, _) = decode_all(input);
        let first = first.unwrap().unwrap();
        let text = encode_one(first.clone());
        let (second, rest) = decode_all(&text);
        assert_eq!(second.unwrap(), Some(first));
        assert!(rest.is_empty());
    }
}

#[test]
fn every_split_of_a_frame_decodes_the_same() {
    for v in sample_values() {
        let text = encode_one(v.clone());
        for cut in 0..text.len() {
            let mut buf = BytesMut::from(&text[..cut]);
            assert_eq!(RespParser.decode(&mut buf).unwrap(), None, "{:?} cut at {}", text, cut);
            assert_eq!(&buf[..], &text[..cut]);
            buf.extend_from_slice(&text[cut..]);
            assert_eq!(RespParser.decode(&mut buf).unwrap(), Some(v.clone()));
            assert!(buf.is_empty());
        }
    }
}

#[test]
fn byte_by_byte_feeding_decodes_the_same() {
    let text = b"*3\r\n$3\r\nSET\r\n$3\r\nfoo\r\n*2\r\n:1\r\n-e\r\n";
    let whole = decode_all(text).0.unwrap();
    let mut buf = BytesMut::new();
    for (i, b) in text.iter().enumerate() {
        buf.extend_from_slice(&[*b]);
        let r = RespParser.decode(&mut buf).unwrap();
        if i + 1 < text.len() {
            assert_eq!(r, None);
            assert_eq!(buf.len(), i + 1);
        } else {
            assert_eq!(r, whole);
            assert!(buf.is_empty());
        }
    }
}

#[test]
fn a_frame_does_not_depend_on_what_follows() {
    for v in sample_values() {
        let mut text = encode_one(v.clone());
        let len = text.len();
        text.extend_from_slice(b"\r\n?*-9\r\n");
        let mut buf = BytesMut::from(&text[..]);
        assert_eq!(RespParser.decode(&mut buf).unwrap(), Some(v));
        assert_eq!(&buf[..], &text[len..]);
    }
}

#[test]
fn cloned_value_is_equal() {
    for v in sample_values() {
        assert_eq!(v.clone(), v);
    }
}

#[test]
fn default_codec_decodes() {
    let mut codec = RespParser::default();
    let mut buf = BytesMut::from(&b":5\r\n"[..]);
    assert_eq!(codec.decode(&mut buf).unwrap(), Some(RESPValueRef::Int(5)));
}
