//! The grammar of frames, stated on byte sequences.
//!
//! [`decode_at`] says what the bytes from a cursor on mean: nothing yet, one
//! frame of a given length, or nothing ever. [`encoding`] is the canonical
//! text of a value. The parser and the encoder are proved against these two.

use super::types::{ProtocolValue, RESPError};
use crate::ascii::{COLON, CR, DOLLAR, LF, MINUS, PLUS, STAR};
use crate::decimal::{int_digits, parse_i64};
use vstd::prelude::*;

verus! {

/// What the bytes from some cursor on amount to.
pub enum Decoded {
    /// The bytes stop before the frame does: wait for more.
    Incomplete,
    /// One whole frame, and the number of bytes that it occupies.
    Frame { value: ProtocolValue, consumed: nat },
    /// The bytes are no frame, whatever may follow them.
    Rejected(RESPError),
}

/// What the bytes from some cursor on amount to when a given number of
/// frames is expected back to back.
pub enum DecodedItems {
    /// The bytes stop before the last frame does.
    Incomplete,
    /// All the frames in order, and the number of bytes that they occupy.
    Items { values: Seq<ProtocolValue>, consumed: nat },
    /// One of the frames is rejected; the error is that of the first such.
    Rejected(RESPError),
}

/// What a line that should hold a number amounts to.
pub enum IntLine {
    /// The line is not terminated yet.
    Incomplete,
    /// The line is terminated and is not a 64-bit decimal number.
    Malformed,
    /// The number, and the length of the line with its terminator.
    Value { value: i64, len: nat },
}

/// The line terminator.
pub open spec fn crlf() -> Seq<u8> {
    seq![CR, LF]
}

/// The number of bytes before the first carriage return of `s`, or the
/// length of `s` where it holds none.
pub open spec fn cr_offset(s: Seq<u8>) -> nat
    decreases s.len(),
{
    if s.len() == 0 || s[0] == CR {
        0
    } else {
        1 + cr_offset(s.skip(1))
    }
}

/// The length of the word that starts at `cursor`: the bytes up to the first
/// carriage return, provided a line feed follows it at once. `None` while
/// that is not so, be it for want of bytes or because another byte follows
/// the carriage return.
pub open spec fn word_len(buf: Seq<u8>, cursor: nat) -> Option<nat> {
    if cursor >= buf.len() {
        None
    } else {
        let n = cr_offset(buf.skip(cursor as int));
        if cursor + n + 1 < buf.len() && buf[cursor + n + 1 as int] == LF {
            Some(n)
        } else {
            None
        }
    }
}

/// The number on the line that starts at `cursor`.
pub open spec fn int_line(buf: Seq<u8>, cursor: nat) -> IntLine {
    match word_len(buf, cursor) {
        None => IntLine::Incomplete,
        Some(n) => match parse_i64(buf.subrange(cursor as int, cursor + n as int)) {
            None => IntLine::Malformed,
            Some(value) => IntLine::Value { value, len: n + 2 },
        },
    }
}

/// The number of bytes from `cursor` to the end of `buf`.
pub open spec fn remaining(buf: Seq<u8>, cursor: nat) -> nat {
    if cursor <= buf.len() {
        (buf.len() - cursor) as nat
    } else {
        0
    }
}

/// A frame one byte further on: the same outcome, with the kind byte that
/// precedes the frame's body counted in.
pub open spec fn after_kind(body: Decoded) -> Decoded {
    match body {
        Decoded::Frame { value, consumed } => Decoded::Frame { value, consumed: consumed + 1 },
        other => other,
    }
}

/// The body of a simple string, which starts at `cursor`: one word.
pub open spec fn simple_string_at(buf: Seq<u8>, cursor: nat) -> Decoded {
    match word_len(buf, cursor) {
        None => Decoded::Incomplete,
        Some(n) => Decoded::Frame {
            value: ProtocolValue::SimpleString(buf.subrange(cursor as int, cursor + n as int)),
            consumed: n + 2,
        },
    }
}

/// The body of an error, which starts at `cursor`: one word.
pub open spec fn error_at(buf: Seq<u8>, cursor: nat) -> Decoded {
    match word_len(buf, cursor) {
        None => Decoded::Incomplete,
        Some(n) => Decoded::Frame {
            value: ProtocolValue::Error(buf.subrange(cursor as int, cursor + n as int)),
            consumed: n + 2,
        },
    }
}

/// The body of an integer, which starts at `cursor`: one line with a number.
pub open spec fn int_at(buf: Seq<u8>, cursor: nat) -> Decoded {
    match int_line(buf, cursor) {
        IntLine::Incomplete => Decoded::Incomplete,
        IntLine::Malformed => Decoded::Rejected(RESPError::IntParseFailure),
        IntLine::Value { value, len } => Decoded::Frame { value: ProtocolValue::Int(value), consumed: len },
    }
}

/// The body of a bulk string, which starts at `cursor`: a line with the
/// length, then that many bytes and two more, which are not looked at. The
/// length -1 stands for the null bulk string; any other negative length is
/// rejected.
pub open spec fn bulk_string_at(buf: Seq<u8>, cursor: nat) -> Decoded {
    match int_line(buf, cursor) {
        IntLine::Incomplete => Decoded::Incomplete,
        IntLine::Malformed => Decoded::Rejected(RESPError::IntParseFailure),
        IntLine::Value { value, len } => {
            let start = cursor + len;
            if value == -1 {
                Decoded::Frame { value: ProtocolValue::NullBulkString, consumed: len }
            } else if value < 0 {
                Decoded::Rejected(RESPError::BadBulkStringSize(value))
            } else if buf.len() < start + value + 2 {
                Decoded::Incomplete
            } else {
                Decoded::Frame {
                    value: ProtocolValue::BulkString(buf.subrange(start as int, start + value)),
                    consumed: (len + value + 2) as nat,
                }
            }
        },
    }
}

/// The body of an array, which starts at `cursor`: a line with the count,
/// then that many frames. The count -1 stands for the null array; any other
/// negative count is rejected.
pub open spec fn array_at(buf: Seq<u8>, cursor: nat) -> Decoded
    decreases remaining(buf, cursor), 2nat, 0nat,
{
    match int_line(buf, cursor) {
        IntLine::Incomplete => Decoded::Incomplete,
        IntLine::Malformed => Decoded::Rejected(RESPError::IntParseFailure),
        IntLine::Value { value, len } => {
            if value == -1 {
                Decoded::Frame { value: ProtocolValue::NullArray, consumed: len }
            } else if value < 0 {
                Decoded::Rejected(RESPError::BadArraySize(value))
            } else {
                match decode_items(buf, cursor + len, value as nat) {
                    DecodedItems::Incomplete => Decoded::Incomplete,
                    DecodedItems::Rejected(e) => Decoded::Rejected(e),
                    DecodedItems::Items { values, consumed } => Decoded::Frame {
                        value: ProtocolValue::Array(values),
                        consumed: len + consumed,
                    },
                }
            }
        },
    }
}

/// The frame that starts at `cursor`: its first byte names its kind, and its
/// body follows.
pub open spec fn decode_at(buf: Seq<u8>, cursor: nat) -> Decoded
    decreases remaining(buf, cursor), 0nat, 0nat,
{
    if cursor >= buf.len() {
        Decoded::Incomplete
    } else if buf[cursor as int] == PLUS {
        after_kind(simple_string_at(buf, cursor + 1))
    } else if buf[cursor as int] == MINUS {
        after_kind(error_at(buf, cursor + 1))
    } else if buf[cursor as int] == COLON {
        after_kind(int_at(buf, cursor + 1))
    } else if buf[cursor as int] == DOLLAR {
        after_kind(bulk_string_at(buf, cursor + 1))
    } else if buf[cursor as int] == STAR {
        after_kind(array_at(buf, cursor + 1))
    } else {
        Decoded::Rejected(RESPError::UnknownStartingByte)
    }
}

/// The `count` frames that start at `cursor`, one after the other. The first
/// frame that is incomplete or rejected decides the outcome.
pub open spec fn decode_items(buf: Seq<u8>, cursor: nat, count: nat) -> DecodedItems
    decreases remaining(buf, cursor), 1nat, count,
{
    if count == 0 {
        DecodedItems::Items { values: Seq::empty(), consumed: 0 }
    } else {
        match decode_at(buf, cursor) {
            Decoded::Incomplete => DecodedItems::Incomplete,
            Decoded::Rejected(e) => DecodedItems::Rejected(e),
            Decoded::Frame { value, consumed } => match decode_items(
                buf,
                cursor + consumed,
                (count - 1) as nat,
            ) {
                DecodedItems::Incomplete => DecodedItems::Incomplete,
                DecodedItems::Rejected(e) => DecodedItems::Rejected(e),
                DecodedItems::Items { values, consumed: rest } => DecodedItems::Items {
                    values: seq![value] + values,
                    consumed: consumed + rest,
                },
            },
        }
    }
}

/// The frame at the start of a receive buffer.
pub open spec fn decode(buf: Seq<u8>) -> Decoded {
    decode_at(buf, 0)
}

/// The text of the null bulk string, `$-1` and a terminator.
pub open spec fn null_bulk_text() -> Seq<u8> {
    seq![DOLLAR] + int_digits(-1) + crlf()
}

/// The text of the null array, `*-1` and a terminator.
pub open spec fn null_array_text() -> Seq<u8> {
    seq![STAR] + int_digits(-1) + crlf()
}

/// The canonical text of a value.
pub open spec fn encoding(v: ProtocolValue) -> Seq<u8>
    decreases v,
{
    match v {
        ProtocolValue::SimpleString(s) => seq![PLUS] + s + crlf(),
        ProtocolValue::Error(s) => seq![MINUS] + s + crlf(),
        ProtocolValue::Int(i) => seq![COLON] + int_digits(i as int) + crlf(),
        ProtocolValue::BulkString(s) => seq![DOLLAR] + int_digits(s.len() as int) + crlf() + s
            + crlf(),
        ProtocolValue::NullBulkString => null_bulk_text(),
        ProtocolValue::Array(items) => seq![STAR] + int_digits(items.len() as int) + crlf()
            + encoding_all(items),
        ProtocolValue::NullArray => null_array_text(),
    }
}

/// The texts of a sequence of values, one after the other.
pub open spec fn encoding_all(items: Seq<ProtocolValue>) -> Seq<u8>
    decreases items,
{
    if items.len() == 0 {
        Seq::empty()
    } else {
        encoding(items.first()) + encoding_all(items.drop_first())
    }
}

/// Where the first carriage return stands, `cr_offset` says so.
pub proof fn lemma_cr_offset_found(s: Seq<u8>, i: int)
    requires
        0 <= i < s.len(),
        s[i] == CR,
        forall|j: int| 0 <= j < i ==> s[j] != CR,
    ensures
        cr_offset(s) == i,
    decreases i,
{
    if i > 0 {
        assert(s[0] != CR);
        assert forall|j: int| 0 <= j < i - 1 implies s.skip(1)[j] != CR by {
            assert(s.skip(1)[j] == s[j + 1]);
        }
        lemma_cr_offset_found(s.skip(1), i - 1);
    }
}

/// Without a carriage return, `cr_offset` is the length.
pub proof fn lemma_cr_offset_none(s: Seq<u8>)
    requires
        forall|j: int| 0 <= j < s.len() ==> s[j] != CR,
    ensures
        cr_offset(s) == s.len(),
    decreases s.len(),
{
    if s.len() > 0 {
        assert(s[0] != CR);
        assert forall|j: int| 0 <= j < s.skip(1).len() implies s.skip(1)[j] != CR by {
            assert(s.skip(1)[j] == s[j + 1]);
        }
        lemma_cr_offset_none(s.skip(1));
    }
}

/// Up to its value, `cr_offset` passes no carriage return, and it stops at
/// one unless it reaches the end.
pub proof fn lemma_cr_offset(s: Seq<u8>)
    ensures
        cr_offset(s) <= s.len(),
        forall|j: int| 0 <= j < cr_offset(s) ==> s[j] != CR,
        cr_offset(s) < s.len() ==> s[cr_offset(s) as int] == CR,
    decreases s.len(),
{
    if s.len() == 0 || s[0] == CR {
    } else {
        lemma_cr_offset(s.skip(1));
        assert forall|j: int| 0 <= j < cr_offset(s) implies s[j] != CR by {
            if j > 0 {
                assert(s[j] == s.skip(1)[j - 1]);
            }
        }
        if cr_offset(s) < s.len() {
            assert(s[cr_offset(s) as int] == s.skip(1)[cr_offset(s) - 1]);
        }
    }
}

/// The text of a sequence with one more value at its end is the text of the
/// sequence followed by that of the value.
pub proof fn lemma_encoding_all_push(items: Seq<ProtocolValue>, v: ProtocolValue)
    ensures
        encoding_all(items.push(v)) == encoding_all(items) + encoding(v),
    decreases items.len(),
{
    let whole = items.push(v);
    if items.len() == 0 {
        assert(whole.drop_first() =~= Seq::<ProtocolValue>::empty());
        assert(encoding_all(whole.drop_first()) =~= Seq::<u8>::empty());
        assert(encoding_all(whole) =~= encoding(v));
        assert(encoding_all(items) + encoding(v) =~= encoding(v));
    } else {
        lemma_encoding_all_push(items.drop_first(), v);
        assert(whole.drop_first() =~= items.drop_first().push(v));
        assert(whole.first() == items.first());
        assert(encoding_all(whole) =~= encoding_all(items) + encoding(v));
    }
}

/// The text of a sequence is the text of any of its prefixes followed by the
/// text of what remains.
pub proof fn lemma_encoding_all_split(items: Seq<ProtocolValue>, k: int)
    requires
        0 <= k <= items.len(),
    ensures
        encoding_all(items) == encoding_all(items.take(k)) + encoding_all(items.skip(k)),
    decreases k,
{
    if k == 0 {
        assert(items.take(0) =~= Seq::<ProtocolValue>::empty());
        assert(items.skip(0) =~= items);
        assert(encoding_all(items) =~= encoding_all(items.take(k)) + encoding_all(items.skip(k)));
    } else {
        lemma_encoding_all_split(items.drop_first(), k - 1);
        assert(items.take(k).drop_first() =~= items.drop_first().take(k - 1));
        assert(items.skip(k) =~= items.drop_first().skip(k - 1));
        assert(items.take(k).first() == items.first());
        assert(encoding_all(items) =~= encoding_all(items.take(k)) + encoding_all(items.skip(k)));
    }
}

} // verus!
