//! The codec: frames out of a receive buffer, values into a send buffer.

use super::grammar::{
    crlf, decode, encoding, encoding_all, lemma_encoding_all_push, lemma_encoding_all_split,
    Decoded,
};
use super::parsers::parse;
use super::types::{
    lemma_split_value_prefix, lemma_values_of, values_of, ProtocolValue, RESPError, RESPValueRef,
};
use crate::ascii::{COLON, CR, DOLLAR, LF, MINUS, PLUS, STAR};
use crate::buffer::{buf_put_u8, buf_seq, buf_slice, bytes_slice};
use crate::decimal::{format_i64, format_u64, int_digits};
use bytes::BytesMut;
use vstd::prelude::*;

verus! {

/// The RESP2 codec. It keeps no state between calls: every attempt to decode
/// starts at the front of the buffer.
pub struct RespParser;

impl Default for RespParser {
    fn default() -> (r: Self)
        ensures
            r == RespParser,
    {
        RespParser
    }
}

/// Appends a line terminator.
fn write_crlf(dst: &mut BytesMut)
    requires
        buf_seq(old(dst)).len() + 2 <= isize::MAX,
    ensures
        buf_seq(final(dst)) == buf_seq(old(dst)) + crlf(),
{
    buf_put_u8(dst, CR);
    buf_put_u8(dst, LF);
    assert(buf_seq(dst) =~= buf_seq(old(dst)) + crlf());
}

/// Appends a kind byte, a number and a line terminator.
fn write_header(dst: &mut BytesMut, kind: u8, digits: &Vec<u8>)
    requires
        buf_seq(old(dst)).len() + 1 + digits@.len() + 2 <= isize::MAX,
    ensures
        buf_seq(final(dst)) == buf_seq(old(dst)) + (seq![kind] + digits@ + crlf()),
{
    buf_put_u8(dst, kind);
    dst.extend_from_slice(digits.as_slice());
    write_crlf(dst);
    assert(buf_seq(dst) =~= buf_seq(old(dst)) + (seq![kind] + digits@ + crlf()));
}

/// Appends the canonical text of a value.
fn write_value(item: &RESPValueRef, dst: &mut BytesMut)
    requires
        buf_seq(old(dst)).len() + encoding(item@).len() <= isize::MAX,
    ensures
        buf_seq(final(dst)) == buf_seq(old(dst)) + encoding(item@),
    decreases item,
{
    let ghost before = buf_seq(dst);
    match item {
        RESPValueRef::SimpleString(bytes) => {
            buf_put_u8(dst, PLUS);
            dst.extend_from_slice(bytes_slice(bytes));
            write_crlf(dst);
            assert(buf_seq(dst) =~= before + encoding(item@));
        },
        RESPValueRef::Error(bytes) => {
            buf_put_u8(dst, MINUS);
            dst.extend_from_slice(bytes_slice(bytes));
            write_crlf(dst);
            assert(buf_seq(dst) =~= before + encoding(item@));
        },
        RESPValueRef::Int(i) => {
            let digits = format_i64(*i);
            write_header(dst, COLON, &digits);
        },
        RESPValueRef::BulkString(bytes) => {
            let payload = bytes_slice(bytes);
            let digits = format_u64(payload.len() as u64);
            assert(encoding(item@) =~= (seq![DOLLAR] + digits@ + crlf()) + payload@ + crlf());
            write_header(dst, DOLLAR, &digits);
            dst.extend_from_slice(payload);
            write_crlf(dst);
            assert(buf_seq(dst) =~= before + encoding(item@));
        },
        RESPValueRef::NullBulkString => {
            let digits = format_i64(-1);
            write_header(dst, DOLLAR, &digits);
        },
        RESPValueRef::Array(items) => {
            let ghost values = values_of(items@);
            let digits = format_u64(items.len() as u64);
            let ghost header = seq![STAR] + digits@ + crlf();
            proof {
                lemma_values_of(items@);
                assert(encoding(item@) == header + encoding_all(values));
            }
            write_header(dst, STAR, &digits);
            let mut i: usize = 0;
            assert(values.take(0) =~= Seq::<ProtocolValue>::empty());
            assert(buf_seq(dst) =~= before + header + encoding_all(values.take(0)));
            while i < items.len()
                invariant
                    item is Array && item->Array_0 == items,
                    values == values_of(items@),
                    values.len() == items@.len(),
                    forall|j: int| 0 <= j < items@.len() ==> #[trigger] values[j] == items@[j]@,
                    i <= items.len(),
                    before.len() + header.len() + encoding_all(values).len() <= isize::MAX,
                    buf_seq(dst) == before + header + encoding_all(values.take(i as int)),
                decreases items.len() - i,
            {
                proof {
                    lemma_encoding_all_split(values, i as int + 1);
                    lemma_encoding_all_push(values.take(i as int), values[i as int]);
                    assert(values.take(i as int + 1) =~= values.take(i as int).push(
                        values[i as int],
                    ));
                }
                write_value(&items[i], dst);
                i += 1;
                assert(buf_seq(dst) =~= before + header + encoding_all(values.take(i as int)));
            }
            assert(values.take(i as int) =~= values);
            assert(buf_seq(dst) =~= before + encoding(item@));
        },
        RESPValueRef::NullArray => {
            let digits = format_i64(-1);
            write_header(dst, STAR, &digits);
        },
    }
}

/// `a + b`, unless one of them is missing or the sum does not fit.
fn sum(a: Option<usize>, b: usize) -> (r: Option<usize>)
    ensures
        match a {
            Some(x) => if x + b <= usize::MAX {
                r == Some((x + b) as usize)
            } else {
                r is None
            },
            None => r is None,
        },
{
    match a {
        Some(x) => x.checked_add(b),
        None => None,
    }
}

/// The length of the canonical text of a value, unless it is more than a
/// `usize` holds.
fn encoded_len(item: &RESPValueRef) -> (r: Option<usize>)
    ensures
        if encoding(item@).len() <= usize::MAX {
            r == Some(encoding(item@).len() as usize)
        } else {
            r is None
        },
    decreases item,
{
    match item {
        RESPValueRef::SimpleString(bytes) => sum(Some(bytes_slice(bytes).len()), 3),
        RESPValueRef::Error(bytes) => sum(Some(bytes_slice(bytes).len()), 3),
        RESPValueRef::Int(i) => sum(Some(format_i64(*i).len()), 3),
        RESPValueRef::BulkString(bytes) => {
            let len = bytes_slice(bytes).len();
            sum(sum(Some(format_u64(len as u64).len()), len), 5)
        },
        RESPValueRef::NullBulkString => sum(Some(format_i64(-1).len()), 3),
        RESPValueRef::Array(items) => {
            let ghost values = values_of(items@);
            proof {
                lemma_values_of(items@);
                assert(values.take(0) =~= Seq::<ProtocolValue>::empty());
                lemma_encoding_all_split(values, 0);
            }
            let header = sum(Some(format_u64(items.len() as u64).len()), 3);
            let ghost header_len = int_digits(items.len() as int).len() + 3;
            let mut total = header;
            let mut i: usize = 0;
            while i < items.len()
                invariant
                    item is Array && item->Array_0 == items,
                    values == values_of(items@),
                    values.len() == items@.len(),
                    forall|j: int| 0 <= j < items@.len() ==> #[trigger] values[j] == items@[j]@,
                    i <= items.len(),
                    header_len + encoding_all(values.take(i as int)).len() <= usize::MAX
                        ==> total == Some(
                        (header_len + encoding_all(values.take(i as int)).len()) as usize,
                    ),
                    header_len + encoding_all(values.take(i as int)).len() > usize::MAX
                        ==> total is None,
                decreases items.len() - i,
            {
                proof {
                    lemma_encoding_all_push(values.take(i as int), values[i as int]);
                    assert(values.take(i as int + 1) =~= values.take(i as int).push(
                        values[i as int],
                    ));
                }
                total = match encoded_len(&items[i]) {
                    Some(n) => sum(total, n),
                    None => None,
                };
                i += 1;
            }
            assert(values.take(i as int) =~= values);
            total
        },
        RESPValueRef::NullArray => sum(Some(format_i64(-1).len()), 3),
    }
}

impl RespParser {
    /// Whether the text of `item` can be appended to `dst`: whether the
    /// buffer, with it, stays within the `isize::MAX` bytes that a buffer can
    /// hold. This is what [`RespParser::encode`] asks of its caller.
    pub fn fits(&self, item: &RESPValueRef, dst: &BytesMut) -> (r: bool)
        ensures
            r == (buf_seq(dst).len() + encoding(item@).len() <= isize::MAX),
    {
        match sum(encoded_len(item), buf_slice(dst).len()) {
            Some(total) => total <= isize::MAX as usize,
            None => false,
        }
    }

    /// Takes the frame at the front of `src`, if it is all there.
    ///
    /// While the frame is incomplete the buffer is left as it is and `None`
    /// is returned; the caller appends what arrives and asks again. A whole
    /// frame is cut off the front of the buffer and returned as a value; what
    /// follows it stays. Bytes that are no frame give an error and stay.
    pub fn decode(&mut self, src: &mut BytesMut) -> (r: Result<Option<RESPValueRef>, RESPError>)
        ensures
            match decode(buf_seq(old(src))) {
                Decoded::Incomplete => {
                    &&& r == Ok::<Option<RESPValueRef>, RESPError>(None)
                    &&& buf_seq(final(src)) == buf_seq(old(src))
                },
                Decoded::Rejected(e) => {
                    &&& r == Err::<Option<RESPValueRef>, RESPError>(e)
                    &&& buf_seq(final(src)) == buf_seq(old(src))
                },
                Decoded::Frame { value, consumed } => {
                    &&& r matches Ok(Some(v)) && v@ == value
                    &&& consumed <= buf_seq(old(src)).len()
                    &&& buf_seq(final(src)) == buf_seq(old(src)).skip(consumed as int)
                },
            },
    {
        if buf_slice(src).len() == 0 {
            return Ok(None);
        }
        match parse(src, 0) {
            Ok(Some((pos, value))) => {
                let ghost whole = buf_seq(src);
                // The frame is whole: cut it off, so that the buffer can go on filling.
                let our_data: BytesMut = src.split_to(pos);
                let data = our_data.freeze();
                proof {
                    assert(whole.take(pos as int).take(pos as int) =~= whole.take(pos as int));
                    lemma_split_value_prefix(value, whole, whole.take(pos as int), pos as nat);
                }
                let value = value.into_redis_value(&data);
                Ok(Some(value))
            },
            Ok(None) => Ok(None),
            Err(e) => Err(e),
        }
    }

    /// Appends the canonical text of `item` to `dst`. This never fails.
    ///
    /// The send buffer cannot grow past `isize::MAX` bytes; a caller that
    /// cannot rule that out asks [`RespParser::fits`] first.
    pub fn encode(&mut self, item: RESPValueRef, dst: &mut BytesMut) -> (r: Result<(), RESPError>)
        requires
            buf_seq(old(dst)).len() + encoding(item@).len() <= isize::MAX,
        ensures
            r is Ok,
            buf_seq(final(dst)) == buf_seq(old(dst)) + encoding(item@),
    {
        write_value(&item, dst);
        Ok(())
    }
}

} // verus!
