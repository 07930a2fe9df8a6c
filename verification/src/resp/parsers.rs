//! The incremental parser: from a receive buffer and a cursor to "not yet",
//! to one frame and the cursor behind it, or to an error.
//!
//! Nothing is kept between calls and nothing is consumed here: a frame is
//! reported with spans into the buffer, which the codec turns into a value.

use super::grammar::{
    array_at, bulk_string_at, decode_at, decode_items, error_at, int_at, int_line,
    lemma_cr_offset_found, lemma_cr_offset_none, remaining, simple_string_at, word_len, Decoded,
    DecodedItems, IntLine,
};
use super::types::{
    lemma_split_values, split_value, split_values, split_within, BufSplit, ProtocolValue,
    RESPBufSplit, RESPError,
};
use crate::ascii::{COLON, CR, DOLLAR, LF, MINUS, PLUS, STAR};
use crate::buffer::{buf_seq, buf_slice};
use crate::decimal::read_i64;
use bytes::BytesMut;
use memchr::memchr;
use vstd::prelude::*;
use vstd::slice::slice_subrange;

verus! {

/// What every parser returns: `Ok(None)` while the frame is incomplete,
/// otherwise the cursor behind the frame and the frame.
pub type RESPResult = Result<Option<(usize, RESPBufSplit)>, RESPError>;

/// Whether the spans of a parsed frame start where the payloads of the frame
/// start whose body, the part behind the kind byte, starts at `body`. With
/// the value that the spans denote, this fixes every span.
pub open spec fn placed(split: RESPBufSplit, buf: Seq<u8>, body: nat) -> bool
    decreases split,
{
    match split {
        RESPBufSplit::String(span) => span.0 == body,
        RESPBufSplit::Error(span) => span.0 == body,
        RESPBufSplit::BulkString(span) => span.0 == body + int_line(buf, body)->len,
        RESPBufSplit::Array(items) => placed_all(
            items@,
            buf,
            body + int_line(buf, body)->len,
        ),
        _ => true,
    }
}

/// Whether the spans of parsed frames start where the payloads start of the
/// frames that stand back to back from `cursor` on.
pub open spec fn placed_all(items: Seq<RESPBufSplit>, buf: Seq<u8>, cursor: nat) -> bool
    decreases items,
{
    if items.len() == 0 {
        true
    } else {
        &&& placed(items.first(), buf, cursor + 1)
        &&& placed_all(items.drop_first(), buf, cursor + decode_at(buf, cursor)->consumed)
    }
}

/// Whether a parser's result, for bytes that start at `cursor`, is what the
/// grammar gives for them: the same outcome; for a frame, the cursor behind
/// it, the same value, and spans that lie before that cursor and start where
/// the payloads of the frame start whose body starts at `body`.
pub open spec fn parsed_as(
    r: RESPResult,
    buf: Seq<u8>,
    cursor: nat,
    body: nat,
    expected: Decoded,
) -> bool {
    match expected {
        Decoded::Incomplete => r == Ok::<Option<(usize, RESPBufSplit)>, RESPError>(None),
        Decoded::Rejected(e) => r == Err::<Option<(usize, RESPBufSplit)>, RESPError>(e),
        Decoded::Frame { value, consumed } => match r {
            Ok(Some((next, split))) => {
                &&& next == cursor + consumed
                &&& next <= buf.len()
                &&& split_within(split, next as nat)
                &&& split_value(split, buf) == value
                &&& placed(split, buf, body)
            },
            _ => false,
        },
    }
}

/// Parsed frames that are in place stay so with one more behind them that
/// is in place.
pub proof fn lemma_placed_all_push(
    items: Seq<RESPBufSplit>,
    last: RESPBufSplit,
    buf: Seq<u8>,
    cursor: nat,
)
    requires
        placed_all(items, buf, cursor),
        decode_items(buf, cursor, items.len()) is Items,
        placed(last, buf, cursor + decode_items(buf, cursor, items.len())->consumed + 1),
    ensures
        placed_all(items.push(last), buf, cursor),
    decreases items.len(),
{
    let all = items.push(last);
    if items.len() == 0 {
        assert(all.first() == last);
        assert(all.drop_first() =~= Seq::<RESPBufSplit>::empty());
        assert(placed_all(all.drop_first(), buf, cursor + decode_at(buf, cursor)->consumed));
    } else {
        let next = cursor + decode_at(buf, cursor)->consumed;
        let rest = decode_items(buf, next, (items.len() - 1) as nat);
        assert(rest is Items);
        assert(decode_items(buf, cursor, items.len())->consumed == decode_at(
            buf,
            cursor,
        )->consumed + rest->consumed);
        assert(items.drop_first().len() == items.len() - 1);
        lemma_placed_all_push(items.drop_first(), last, buf, next);
        assert(all.drop_first() =~= items.drop_first().push(last));
        assert(all.first() == items.first());
    }
}

/// Frames that stand back to back, and one more frame behind them, are one
/// more frame standing back to back.
pub proof fn lemma_items_extend(buf: Seq<u8>, cursor: nat, count: nat)
    requires
        decode_items(buf, cursor, count) is Items,
        decode_at(buf, cursor + decode_items(buf, cursor, count)->consumed) is Frame,
    ensures
        ({
            let before = decode_items(buf, cursor, count);
            let last = decode_at(buf, cursor + before->consumed);
            decode_items(buf, cursor, count + 1) == (DecodedItems::Items {
                values: before->values.push(last->value),
                consumed: before->consumed + last->consumed,
            })
        }),
    decreases count,
{
    let before = decode_items(buf, cursor, count);
    let last = decode_at(buf, cursor + before->consumed);
    if count == 0 {
        assert(decode_items(buf, cursor + last->consumed, 0)->values =~= Seq::<
            ProtocolValue,
        >::empty());
        assert(seq![last->value] + Seq::<ProtocolValue>::empty() =~= before->values.push(
            last->value,
        ));
    } else {
        let first = decode_at(buf, cursor);
        let next = cursor + first->consumed;
        lemma_items_extend(buf, next, (count - 1) as nat);
        let rest = decode_items(buf, next, (count - 1) as nat);
        assert(seq![first->value] + rest->values.push(last->value) =~= (seq![first->value]
            + rest->values).push(last->value));
    }
}

/// Spans that lie inside a stretch of the buffer lie inside any longer one.
pub proof fn lemma_split_within_grows(split: RESPBufSplit, len: nat, longer: nat)
    requires
        split_within(split, len),
        len <= longer,
    ensures
        split_within(split, longer),
    decreases split,
{
    match split {
        RESPBufSplit::Array(items) => {
            assert forall|i: int| 0 <= i < items@.len() implies split_within(
                #[trigger] items@[i],
                longer,
            ) by {
                lemma_split_within_grows(items@[i], len, longer);
            }
        },
        _ => {},
    }
}

/// The word that starts at `cursor`: its span, and the cursor behind its
/// terminator. `None` until the terminator is there; a carriage return that
/// is the last byte, or that another byte than a line feed follows, is no
/// terminator.
#[inline]
pub fn word(buf: &BytesMut, cursor: usize) -> (r: Option<(usize, BufSplit)>)
    ensures
        match word_len(buf_seq(buf), cursor as nat) {
            None => r is None,
            Some(n) => r matches Some((next, span)) && next == cursor + n + 2 && next <= buf_seq(
                buf,
            ).len() && span.0 == cursor && span.1 == cursor + n,
        },
{
    let bytes = buf_slice(buf);
    if bytes.len() <= cursor {
        return None;
    }
    let tail = slice_subrange(bytes, cursor, bytes.len());
    assert(tail@ =~= buf_seq(buf).skip(cursor as int));
    match memchr(CR, tail) {
        Some(end) => {
            proof {
                lemma_cr_offset_found(tail@, end as int);
            }
            if end + 1 < bytes.len() - cursor && bytes[cursor + end + 1] == LF {
                Some((cursor + end + 2, BufSplit(cursor, cursor + end)))
            } else {
                None
            }
        },
        None => {
            proof {
                lemma_cr_offset_none(tail@);
            }
            None
        },
    }
}

/// The body of a simple string, which starts at `cursor`.
pub fn simple_string(buf: &BytesMut, cursor: usize) -> (r: RESPResult)
    ensures
        parsed_as(
            r,
            buf_seq(buf),
            cursor as nat,
            cursor as nat,
            simple_string_at(buf_seq(buf), cursor as nat),
        ),
{
    match word(buf, cursor) {
        Some((next_cursor, split)) => Ok(Some((next_cursor, RESPBufSplit::String(split)))),
        None => Ok(None),
    }
}

/// The body of an error, which starts at `cursor`.
pub fn error(buf: &BytesMut, cursor: usize) -> (r: RESPResult)
    ensures
        parsed_as(
            r,
            buf_seq(buf),
            cursor as nat,
            cursor as nat,
            error_at(buf_seq(buf), cursor as nat),
        ),
{
    match word(buf, cursor) {
        Some((next_cursor, split)) => Ok(Some((next_cursor, RESPBufSplit::Error(split)))),
        None => Ok(None),
    }
}

/// The number on the line that starts at `cursor`, and the cursor behind the
/// line.
fn integer(buf: &BytesMut, cursor: usize) -> (r: Result<Option<(usize, i64)>, RESPError>)
    ensures
        match int_line(buf_seq(buf), cursor as nat) {
            IntLine::Incomplete => r == Ok::<Option<(usize, i64)>, RESPError>(None),
            IntLine::Malformed => r == Err::<Option<(usize, i64)>, RESPError>(
                RESPError::IntParseFailure,
            ),
            IntLine::Value { value, len } => r matches Ok(Some((next, num))) && next == cursor
                + len && next <= buf_seq(buf).len() && num == value,
        },
{
    match word(buf, cursor) {
        Some((next_cursor, split)) => {
            match read_i64(split.as_slice(buf)) {
                Some(num) => Ok(Some((next_cursor, num))),
                None => Err(RESPError::IntParseFailure),
            }
        },
        None => Ok(None),
    }
}

/// The body of an integer, which starts at `cursor`.
pub fn resp_int(buf: &BytesMut, cursor: usize) -> (r: RESPResult)
    ensures
        parsed_as(
            r,
            buf_seq(buf),
            cursor as nat,
            cursor as nat,
            int_at(buf_seq(buf), cursor as nat),
        ),
{
    match integer(buf, cursor) {
        Ok(Some((next_cursor, num))) => Ok(Some((next_cursor, RESPBufSplit::Int(num)))),
        Ok(None) => Ok(None),
        Err(e) => Err(e),
    }
}

/// The body of a bulk string, which starts at `cursor`.
pub fn bulk_string(buf: &BytesMut, cursor: usize) -> (r: RESPResult)
    ensures
        parsed_as(
            r,
            buf_seq(buf),
            cursor as nat,
            cursor as nat,
            bulk_string_at(buf_seq(buf), cursor as nat),
        ),
{
    match integer(buf, cursor) {
        Ok(Some((next_cursor, size))) => {
            if size == -1 {
                Ok(Some((next_cursor, RESPBufSplit::NullBulkString)))
            } else if size >= 0 {
                let available = buf_slice(buf).len() - next_cursor;
                if available < 2 || ((available - 2) as u64) < (size as u64) {
                    // The payload and its terminator are not all there yet.
                    Ok(None)
                } else {
                    let total_size = next_cursor + size as usize;
                    Ok(
                        Some(
                            (
                                total_size + 2,
                                RESPBufSplit::BulkString(BufSplit(next_cursor, total_size)),
                            ),
                        ),
                    )
                }
            } else {
                Err(RESPError::BadBulkStringSize(size))
            }
        },
        Ok(None) => Ok(None),
        Err(e) => Err(e),
    }
}

/// The frame that starts at `cursor`.
pub fn parse(buf: &BytesMut, cursor: usize) -> (r: RESPResult)
    ensures
        parsed_as(
            r,
            buf_seq(buf),
            cursor as nat,
            cursor as nat + 1,
            decode_at(buf_seq(buf), cursor as nat),
        ),
    decreases remaining(buf_seq(buf), cursor as nat), 0nat,
{
    let bytes = buf_slice(buf);
    if bytes.len() == 0 || cursor >= bytes.len() {
        return Ok(None);
    }
    let kind = bytes[cursor];
    if kind == PLUS {
        simple_string(buf, cursor + 1)
    } else if kind == MINUS {
        error(buf, cursor + 1)
    } else if kind == COLON {
        resp_int(buf, cursor + 1)
    } else if kind == DOLLAR {
        bulk_string(buf, cursor + 1)
    } else if kind == STAR {
        array(buf, cursor + 1)
    } else {
        Err(RESPError::UnknownStartingByte)
    }
}

/// Frames found so far, followed by what the rest of the input gives.
pub open spec fn items_then(values: Seq<ProtocolValue>, consumed: nat, rest: DecodedItems)
    -> DecodedItems {
    match rest {
        DecodedItems::Items { values: more, consumed: further } => DecodedItems::Items {
            values: values + more,
            consumed: consumed + further,
        },
        other => other,
    }
}

/// The body of an array, which starts at `cursor`. The elements are parsed
/// one after the other; nothing of an array whose last element is incomplete
/// is kept.
pub fn array(buf: &BytesMut, cursor: usize) -> (r: RESPResult)
    ensures
        parsed_as(
            r,
            buf_seq(buf),
            cursor as nat,
            cursor as nat,
            array_at(buf_seq(buf), cursor as nat),
        ),
    decreases remaining(buf_seq(buf), cursor as nat), 1nat,
{
    let ghost bytes = buf_seq(buf);
    match integer(buf, cursor) {
        Ok(None) => Ok(None),
        Ok(Some((next_cursor, num_elements))) => {
            if num_elements == -1 {
                Ok(Some((next_cursor, RESPBufSplit::NullArray)))
            } else if num_elements >= 0 {
                let mut values: Vec<RESPBufSplit> = Vec::new();
                let mut cursor_pos = next_cursor;
                let mut done: i64 = 0;
                proof {
                    assert(split_values(values@, bytes) =~= Seq::<ProtocolValue>::empty());
                    let rest = decode_items(bytes, next_cursor as nat, num_elements as nat);
                    assert(items_then(Seq::<ProtocolValue>::empty(), 0, rest) == rest) by {
                        match rest {
                            DecodedItems::Items { values: more, consumed: further } => {
                                assert(Seq::<ProtocolValue>::empty() + more =~= more);
                            },
                            _ => {},
                        }
                    }
                }
                while done < num_elements
                    invariant
                        bytes == buf_seq(buf),
                        cursor < next_cursor <= cursor_pos <= bytes.len(),
                        0 <= done <= num_elements,
                        int_line(bytes, cursor as nat) == (IntLine::Value {
                            value: num_elements,
                            len: (next_cursor - cursor) as nat,
                        }),
                        values@.len() == done,
                        placed_all(values@, bytes, next_cursor as nat),
                        decode_items(bytes, next_cursor as nat, done as nat) == (DecodedItems::Items {
                            values: split_values(values@, bytes),
                            consumed: (cursor_pos - next_cursor) as nat,
                        }),
                        forall|j: int|
                            0 <= j < values@.len() ==> split_within(
                                #[trigger] values@[j],
                                cursor_pos as nat,
                            ),
                        decode_items(bytes, next_cursor as nat, num_elements as nat) == items_then(
                            split_values(values@, bytes),
                            (cursor_pos - next_cursor) as nat,
                            decode_items(
                                bytes,
                                cursor_pos as nat,
                                (num_elements - done) as nat,
                            ),
                        ),
                    decreases num_elements - done,
                {
                    let ghost before = values@;
                    let ghost rest = decode_items(
                        bytes,
                        cursor_pos as nat,
                        (num_elements - done) as nat,
                    );
                    match parse(buf, cursor_pos) {
                        Ok(Some((new_cursor, value))) => {
                            proof {
                                let consumed = (new_cursor - cursor_pos) as nat;
                                let after = decode_items(
                                    bytes,
                                    new_cursor as nat,
                                    (num_elements - done - 1) as nat,
                                );
                                let v = split_value(value, bytes);
                                assert(rest == items_then(seq![v], consumed, after));
                                lemma_items_extend(bytes, next_cursor as nat, done as nat);
                                lemma_placed_all_push(before, value, bytes, next_cursor as nat);
                                lemma_split_values(before, bytes);
                                lemma_split_values(before.push(value), bytes);
                                assert(split_values(before.push(value), bytes) =~= split_values(
                                    before,
                                    bytes,
                                ).push(v));
                                match after {
                                    DecodedItems::Items { values: more, consumed: further } => {
                                        assert(split_values(before, bytes) + (seq![v] + more)
                                            =~= split_values(before, bytes).push(v) + more);
                                    },
                                    _ => {},
                                }
                                assert forall|j: int| 0 <= j < before.len() implies split_within(
                                    #[trigger] before[j],
                                    new_cursor as nat,
                                ) by {
                                    lemma_split_within_grows(
                                        before[j],
                                        cursor_pos as nat,
                                        new_cursor as nat,
                                    );
                                }
                            }
                            cursor_pos = new_cursor;
                            values.push(value);
                            done += 1;
                        },
                        Ok(None) => {
                            assert(rest == DecodedItems::Incomplete);
                            return Ok(None);
                        },
                        Err(e) => {
                            assert(rest == DecodedItems::Rejected(e));
                            return Err(e);
                        },
                    }
                }
                proof {
                    assert(split_values(values@, bytes) + Seq::<ProtocolValue>::empty()
                        =~= split_values(values@, bytes));
                }
                Ok(Some((cursor_pos, RESPBufSplit::Array(values))))
            } else {
                Err(RESPError::BadArraySize(num_elements))
            }
        },
        Err(e) => Err(e),
    }
}

} // verus!
