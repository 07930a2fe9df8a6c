//! What holds of the grammar as a whole: a frame does not depend on what
//! follows it, no proper prefix of a frame is anything but incomplete, and
//! decoding the text of a decoded value gives the value back.

use super::grammar::{
    crlf, decode, decode_at, decode_items, encoding, encoding_all, int_line, lemma_cr_offset,
    lemma_cr_offset_found, lemma_cr_offset_none, remaining, word_len, Decoded, DecodedItems,
    IntLine,
};
use super::types::ProtocolValue;
use crate::ascii::{COLON, CR, DOLLAR, LF, MINUS, PLUS, STAR};
use crate::decimal::{int_digits, is_digit, lemma_read_written};
use vstd::prelude::*;

verus! {

/// Whether two buffers hold the same bytes up to the position `end`, which
/// lies within both.
pub open spec fn agree(a: Seq<u8>, b: Seq<u8>, end: nat) -> bool {
    &&& end <= a.len()
    &&& end <= b.len()
    &&& forall|i: int| 0 <= i < end ==> a[i] == b[i]
}

/// A terminated word is the same word in every buffer that agrees with this
/// one up to the end of its terminator.
pub proof fn lemma_word_stable(a: Seq<u8>, b: Seq<u8>, cursor: nat, n: nat)
    requires
        word_len(a, cursor) == Some(n),
        agree(a, b, cursor + n + 2),
    ensures
        word_len(b, cursor) == Some(n),
        b.subrange(cursor as int, cursor + n as int) == a.subrange(
            cursor as int,
            cursor + n as int,
        ),
{
    let sa = a.skip(cursor as int);
    let sb = b.skip(cursor as int);
    lemma_cr_offset(sa);
    assert(sa[n as int] == CR);
    assert(sb[n as int] == b[cursor + n as int]);
    assert(sa[n as int] == a[cursor + n as int]);
    assert forall|j: int| 0 <= j < n implies sb[j] != CR by {
        assert(sb[j] == b[cursor + j]);
        assert(sa[j] == a[cursor + j]);
    }
    lemma_cr_offset_found(sb, n as int);
    assert(b.subrange(cursor as int, cursor + n as int) =~= a.subrange(
        cursor as int,
        cursor + n as int,
    ));
}

/// A word that is cut anywhere before the end of its terminator is not
/// terminated.
pub proof fn lemma_word_cut(a: Seq<u8>, cursor: nat, n: nat, k: nat)
    requires
        word_len(a, cursor) == Some(n),
        k < cursor + n + 2,
    ensures
        word_len(a.take(k as int), cursor) is None,
{
    let b = a.take(k as int);
    if k > cursor {
        let sa = a.skip(cursor as int);
        let sb = b.skip(cursor as int);
        lemma_cr_offset(sa);
        if k <= cursor + n {
            assert forall|j: int| 0 <= j < sb.len() implies sb[j] != CR by {
                assert(sb[j] == a[cursor + j]);
                assert(sa[j] == a[cursor + j]);
            }
            lemma_cr_offset_none(sb);
        } else {
            assert(sb[n as int] == a[cursor + n as int]);
            assert(sa[n as int] == a[cursor + n as int]);
            assert forall|j: int| 0 <= j < n implies sb[j] != CR by {
                assert(sb[j] == a[cursor + j]);
                assert(sa[j] == a[cursor + j]);
            }
            lemma_cr_offset_found(sb, n as int);
        }
    }
}

/// A line with a number is the same line in every buffer that agrees with
/// this one up to its end.
pub proof fn lemma_int_line_stable(a: Seq<u8>, b: Seq<u8>, cursor: nat)
    requires
        int_line(a, cursor) is Value,
        agree(a, b, cursor + int_line(a, cursor)->len),
    ensures
        int_line(b, cursor) == int_line(a, cursor),
{
    let n = word_len(a, cursor)->0;
    lemma_word_stable(a, b, cursor, n);
}

/// A line with a number that is cut anywhere before its end is incomplete.
pub proof fn lemma_int_line_cut(a: Seq<u8>, cursor: nat, k: nat)
    requires
        int_line(a, cursor) is Value,
        k < cursor + int_line(a, cursor)->len,
    ensures
        int_line(a.take(k as int), cursor) is Incomplete,
{
    let n = word_len(a, cursor)->0;
    lemma_word_cut(a, cursor, n, k);
}

/// Whether a value can come out of the decoder: a simple string or an error
/// holds no carriage return, and a length or a count fits the 64-bit number
/// that announces it.
pub open spec fn decodable(v: ProtocolValue) -> bool
    decreases v,
{
    match v {
        ProtocolValue::SimpleString(s) => forall|i: int| 0 <= i < s.len() ==> s[i] != CR,
        ProtocolValue::Error(s) => forall|i: int| 0 <= i < s.len() ==> s[i] != CR,
        ProtocolValue::BulkString(s) => s.len() <= i64::MAX,
        ProtocolValue::Array(items) => {
            &&& items.len() <= i64::MAX
            &&& forall|i: int| 0 <= i < items.len() ==> decodable(#[trigger] items[i])
        },
        _ => true,
    }
}

/// A word holds no carriage return.
pub proof fn lemma_word_has_no_cr(buf: Seq<u8>, cursor: nat, n: nat)
    requires
        word_len(buf, cursor) == Some(n),
    ensures
        cursor + n + 2 <= buf.len(),
        ({
            let word = buf.subrange(cursor as int, cursor + n as int);
            forall|i: int| 0 <= i < word.len() ==> word[i] != CR
        }),
{
    let s = buf.skip(cursor as int);
    let word = buf.subrange(cursor as int, cursor + n as int);
    lemma_cr_offset(s);
    assert forall|i: int| 0 <= i < word.len() implies word[i] != CR by {
        assert(s[i] == buf[cursor + i]);
    }
}

/// A frame has at least one byte, ends within the buffer, and holds a value
/// that can come out of the decoder.
pub proof fn lemma_frame_bounds(buf: Seq<u8>, cursor: nat)
    requires
        decode_at(buf, cursor) is Frame,
    ensures
        decode_at(buf, cursor)->consumed > 0,
        cursor + decode_at(buf, cursor)->consumed <= buf.len(),
        decodable(decode_at(buf, cursor)->value),
    decreases remaining(buf, cursor), 0nat, 0nat,
{
    let kind = buf[cursor as int];
    let body = cursor + 1;
    if kind == PLUS {
        lemma_word_has_no_cr(buf, body, word_len(buf, body)->0);
    } else if kind == MINUS {
        lemma_word_has_no_cr(buf, body, word_len(buf, body)->0);
    } else if kind == COLON {
        lemma_word_has_no_cr(buf, body, word_len(buf, body)->0);
    } else if kind == DOLLAR {
        lemma_word_has_no_cr(buf, body, word_len(buf, body)->0);
    } else if kind == STAR {
        lemma_word_has_no_cr(buf, body, word_len(buf, body)->0);
        let count = int_line(buf, body)->value;
        let len = int_line(buf, body)->len;
        if count >= 0 {
            lemma_items_bounds(buf, body + len, count as nat);
        }
    }
}

/// Frames that stand back to back end within the buffer, are as many as were
/// asked for, and hold values that can come out of the decoder.
pub proof fn lemma_items_bounds(buf: Seq<u8>, cursor: nat, count: nat)
    requires
        decode_items(buf, cursor, count) is Items,
        cursor <= buf.len(),
    ensures
        cursor + decode_items(buf, cursor, count)->consumed <= buf.len(),
        decode_items(buf, cursor, count)->values.len() == count,
        forall|i: int|
            0 <= i < count ==> decodable(#[trigger] decode_items(buf, cursor, count)->values[i]),
    decreases remaining(buf, cursor), 1nat, count,
{
    if count > 0 {
        lemma_frame_bounds(buf, cursor);
        let first = decode_at(buf, cursor);
        let next = cursor + first->consumed;
        lemma_items_bounds(buf, next, (count - 1) as nat);
        let rest = decode_items(buf, next, (count - 1) as nat)->values;
        let all = decode_items(buf, cursor, count)->values;
        assert(all == seq![first->value] + rest);
        assert forall|i: int| 0 <= i < count implies decodable(#[trigger] all[i]) by {
            if i > 0 {
                assert(all[i] == rest[i - 1]);
            }
        }
    }
}

/// A frame is the same frame in every buffer that agrees with this one up
/// to the frame's end: what follows a frame has no part in it.
pub proof fn lemma_frame_stable(a: Seq<u8>, b: Seq<u8>, cursor: nat)
    requires
        decode_at(a, cursor) is Frame,
        agree(a, b, cursor + decode_at(a, cursor)->consumed),
    ensures
        decode_at(b, cursor) == decode_at(a, cursor),
    decreases remaining(a, cursor), 0nat, 0nat,
{
    let kind = a[cursor as int];
    let body = cursor + 1;
    if kind == PLUS || kind == MINUS {
        lemma_word_stable(a, b, body, word_len(a, body)->0);
    } else if kind == COLON {
        lemma_int_line_stable(a, b, body);
    } else if kind == DOLLAR {
        lemma_int_line_stable(a, b, body);
        let size = int_line(a, body)->value;
        let start = body + int_line(a, body)->len;
        if size >= 0 {
            assert(b.subrange(start as int, start + size) =~= a.subrange(
                start as int,
                start + size,
            ));
        }
    } else if kind == STAR {
        lemma_word_has_no_cr(a, body, word_len(a, body)->0);
        lemma_int_line_stable(a, b, body);
        let count = int_line(a, body)->value;
        let start = body + int_line(a, body)->len;
        if count >= 0 {
            lemma_items_stable(a, b, start, count as nat);
        }
    }
}

/// Frames that stand back to back are the same frames in every buffer that
/// agrees with this one up to the end of the last.
pub proof fn lemma_items_stable(a: Seq<u8>, b: Seq<u8>, cursor: nat, count: nat)
    requires
        decode_items(a, cursor, count) is Items,
        cursor <= a.len(),
        agree(a, b, cursor + decode_items(a, cursor, count)->consumed),
    ensures
        decode_items(b, cursor, count) == decode_items(a, cursor, count),
    decreases remaining(a, cursor), 1nat, count,
{
    if count > 0 {
        lemma_frame_bounds(a, cursor);
        lemma_frame_stable(a, b, cursor);
        let next = cursor + decode_at(a, cursor)->consumed;
        lemma_items_stable(a, b, next, (count - 1) as nat);
    }
}

/// A frame that is cut anywhere before its end is incomplete: it is neither
/// rejected nor taken for a shorter frame.
pub proof fn lemma_frame_cut(a: Seq<u8>, cursor: nat, k: nat)
    requires
        decode_at(a, cursor) is Frame,
        k < cursor + decode_at(a, cursor)->consumed,
    ensures
        decode_at(a.take(k as int), cursor) is Incomplete,
    decreases remaining(a, cursor), 0nat, 0nat,
{
    lemma_frame_bounds(a, cursor);
    let b = a.take(k as int);
    if k > cursor {
        let kind = a[cursor as int];
        let body = cursor + 1;
        assert(b[cursor as int] == kind);
        if kind == PLUS || kind == MINUS {
            lemma_word_cut(a, body, word_len(a, body)->0, k);
        } else if kind == COLON {
            lemma_int_line_cut(a, body, k);
        } else {
            lemma_word_has_no_cr(a, body, word_len(a, body)->0);
            let start = body + int_line(a, body)->len;
            let number = int_line(a, body)->value;
            if k < start {
                lemma_int_line_cut(a, body, k);
            } else {
                lemma_int_line_stable(a, b, body);
                if kind == STAR && number >= 0 {
                    lemma_items_cut(a, start, number as nat, k);
                }
            }
        }
    }
}

/// Frames that stand back to back, cut anywhere before the end of the last,
/// are incomplete.
pub proof fn lemma_items_cut(a: Seq<u8>, cursor: nat, count: nat, k: nat)
    requires
        decode_items(a, cursor, count) is Items,
        cursor <= k < cursor + decode_items(a, cursor, count)->consumed,
        cursor <= a.len(),
    ensures
        decode_items(a.take(k as int), cursor, count) is Incomplete,
    decreases remaining(a, cursor), 1nat, count,
{
    let b = a.take(k as int);
    lemma_items_bounds(a, cursor, count);
    lemma_frame_bounds(a, cursor);
    let next = cursor + decode_at(a, cursor)->consumed;
    if k < next {
        lemma_frame_cut(a, cursor, k);
    } else {
        lemma_frame_stable(a, b, cursor);
        lemma_items_cut(a, next, (count - 1) as nat, k);
    }
}

/// A frame at the front of a buffer stays what it is when more bytes arrive
/// behind it.
pub proof fn law_frame_survives_more_input(buf: Seq<u8>, more: Seq<u8>)
    requires
        decode(buf) is Frame,
    ensures
        decode(buf + more) == decode(buf),
{
    lemma_frame_bounds(buf, 0);
    lemma_frame_stable(buf, buf + more, 0);
}

/// However the bytes of a frame are split into pieces, every attempt to
/// decode before the last piece has arrived finds the frame incomplete, and
/// the attempt after it finds the frame that the bytes give at once.
///
/// `k` is the number of bytes that have arrived: with fewer than the frame
/// takes, the outcome is `Incomplete`; with all of them, or more, it is the
/// frame.
pub proof fn law_incremental_parsing(buf: Seq<u8>, k: nat)
    requires
        decode(buf) is Frame,
        k <= buf.len(),
    ensures
        k < decode(buf)->consumed ==> decode(buf.take(k as int)) is Incomplete,
        k >= decode(buf)->consumed ==> decode(buf.take(k as int)) == decode(buf),
{
    lemma_frame_bounds(buf, 0);
    if k < decode(buf)->consumed {
        lemma_frame_cut(buf, 0, k);
    } else {
        lemma_frame_stable(buf, buf.take(k as int), 0);
    }
}

/// Whether `buf` holds the bytes `text` from the position `at` on.
pub open spec fn holds(buf: Seq<u8>, at: nat, text: Seq<u8>) -> bool {
    &&& at + text.len() <= buf.len()
    &&& buf.subrange(at as int, at + text.len() as int) == text
}

/// A buffer that holds two texts in a row holds each of them.
pub proof fn lemma_holds_split(buf: Seq<u8>, at: nat, first: Seq<u8>, second: Seq<u8>)
    requires
        holds(buf, at, first + second),
    ensures
        holds(buf, at, first),
        holds(buf, at + first.len(), second),
{
    let both = first + second;
    let whole = buf.subrange(at as int, at + both.len() as int);
    assert forall|i: int| 0 <= i < first.len() implies buf[at + i] == first[i] by {
        assert(whole[i] == both[i]);
    }
    assert forall|i: int| 0 <= i < second.len() implies buf[at + first.len() + i]
        == second[i] by {
        assert(whole[first.len() + i] == both[first.len() + i]);
    }
    assert(buf.subrange(at as int, at + first.len() as int) =~= first);
    assert(buf.subrange(at + first.len() as int, at + first.len() + second.len() as int) =~= second);
}

/// Where a buffer holds a text without carriage return and a terminator
/// behind it, that text is the word there.
pub proof fn lemma_word_at(buf: Seq<u8>, at: nat, word: Seq<u8>)
    requires
        holds(buf, at, word + crlf()),
        forall|i: int| 0 <= i < word.len() ==> word[i] != CR,
    ensures
        word_len(buf, at) == Some(word.len()),
        buf.subrange(at as int, at + word.len() as int) == word,
{
    lemma_holds_split(buf, at, word, crlf());
    let end = at + word.len();
    let line = buf.subrange(end as int, end + 2 as int);
    assert(line[0] == CR && line[1] == LF);
    assert(buf[end as int] == CR && buf[end + 1 as int] == LF);
    let tail = buf.skip(at as int);
    let found = buf.subrange(at as int, at + word.len() as int);
    assert forall|j: int| 0 <= j < word.len() implies tail[j] != CR by {
        assert(tail[j] == found[j]);
    }
    assert(tail[word.len() as int] == CR);
    lemma_cr_offset_found(tail, word.len() as int);
}

/// Where a buffer holds the decimal text of a 64-bit number and a
/// terminator behind it, the line there has that number.
pub proof fn lemma_number_line_at(buf: Seq<u8>, at: nat, number: int)
    requires
        i64::MIN <= number <= i64::MAX,
        holds(buf, at, int_digits(number) + crlf()),
    ensures
        int_line(buf, at) == (IntLine::Value {
            value: number as i64,
            len: int_digits(number).len() + 2,
        }),
{
    lemma_read_written(number);
    let digits = int_digits(number);
    assert forall|i: int| 0 <= i < digits.len() implies digits[i] != CR by {
        assert(is_digit(digits[i]) || digits[i] == MINUS);
    }
    lemma_word_at(buf, at, digits);
}

/// Where a buffer holds the text of a value that can come out of the
/// decoder, decoding there gives that value and takes that text.
pub proof fn lemma_decode_encoding(buf: Seq<u8>, cursor: nat, v: ProtocolValue)
    requires
        decodable(v),
        holds(buf, cursor, encoding(v)),
    ensures
        decode_at(buf, cursor) == (Decoded::Frame { value: v, consumed: encoding(v).len() }),
    decreases v,
{
    let text = encoding(v);
    let body = cursor + 1;
    match v {
        ProtocolValue::SimpleString(s) => {
            assert(text =~= seq![PLUS] + (s + crlf()));
            lemma_holds_split(buf, cursor, seq![PLUS], s + crlf());
            assert(buf[cursor as int] == buf.subrange(cursor as int, cursor + 1 as int)[0]);
            lemma_word_at(buf, body, s);
        },
        ProtocolValue::Error(s) => {
            assert(text =~= seq![MINUS] + (s + crlf()));
            lemma_holds_split(buf, cursor, seq![MINUS], s + crlf());
            assert(buf[cursor as int] == buf.subrange(cursor as int, cursor + 1 as int)[0]);
            lemma_word_at(buf, body, s);
        },
        ProtocolValue::Int(i) => {
            assert(text =~= seq![COLON] + (int_digits(i as int) + crlf()));
            lemma_holds_split(buf, cursor, seq![COLON], int_digits(i as int) + crlf());
            assert(buf[cursor as int] == buf.subrange(cursor as int, cursor + 1 as int)[0]);
            lemma_number_line_at(buf, body, i as int);
        },
        ProtocolValue::BulkString(s) => {
            let header = int_digits(s.len() as int) + crlf();
            assert(text =~= seq![DOLLAR] + (header + (s + crlf())));
            lemma_holds_split(buf, cursor, seq![DOLLAR], header + (s + crlf()));
            assert(buf[cursor as int] == buf.subrange(cursor as int, cursor + 1 as int)[0]);
            lemma_holds_split(buf, body, header, s + crlf());
            lemma_number_line_at(buf, body, s.len() as int);
            lemma_holds_split(buf, body + header.len(), s, crlf());
        },
        ProtocolValue::NullBulkString => {
            assert(text =~= seq![DOLLAR] + (int_digits(-1) + crlf()));
            lemma_holds_split(buf, cursor, seq![DOLLAR], int_digits(-1) + crlf());
            assert(buf[cursor as int] == buf.subrange(cursor as int, cursor + 1 as int)[0]);
            lemma_number_line_at(buf, body, -1);
        },
        ProtocolValue::Array(items) => {
            let header = int_digits(items.len() as int) + crlf();
            assert(text =~= seq![STAR] + (header + encoding_all(items)));
            lemma_holds_split(buf, cursor, seq![STAR], header + encoding_all(items));
            assert(buf[cursor as int] == buf.subrange(cursor as int, cursor + 1 as int)[0]);
            lemma_holds_split(buf, body, header, encoding_all(items));
            lemma_number_line_at(buf, body, items.len() as int);
            lemma_decode_encoding_all(buf, body + header.len(), items);
        },
        ProtocolValue::NullArray => {
            assert(text =~= seq![STAR] + (int_digits(-1) + crlf()));
            lemma_holds_split(buf, cursor, seq![STAR], int_digits(-1) + crlf());
            assert(buf[cursor as int] == buf.subrange(cursor as int, cursor + 1 as int)[0]);
            lemma_number_line_at(buf, body, -1);
        },
    }
}

/// Where a buffer holds the texts of values that can come out of the
/// decoder, one after the other, decoding as many frames there gives those
/// values and takes those texts.
pub proof fn lemma_decode_encoding_all(buf: Seq<u8>, cursor: nat, items: Seq<ProtocolValue>)
    requires
        forall|i: int| 0 <= i < items.len() ==> decodable(#[trigger] items[i]),
        holds(buf, cursor, encoding_all(items)),
    ensures
        decode_items(buf, cursor, items.len()) == (DecodedItems::Items {
            values: items,
            consumed: encoding_all(items).len(),
        }),
    decreases items,
{
    if items.len() == 0 {
        assert(items =~= Seq::<ProtocolValue>::empty());
    } else {
        let first = items.first();
        let rest = items.drop_first();
        lemma_holds_split(buf, cursor, encoding(first), encoding_all(rest));
        assert(decodable(items[0]));
        lemma_decode_encoding(buf, cursor, first);
        assert forall|i: int| 0 <= i < rest.len() implies decodable(#[trigger] rest[i]) by {
            assert(rest[i] == items[i + 1]);
        }
        lemma_decode_encoding_all(buf, cursor + encoding(first).len(), rest);
        assert(seq![first] + rest =~= items);
    }
}

/// Decoding the text of a value that came out of the decoder gives the same
/// value, and takes the whole text.
pub proof fn law_round_trip(buf: Seq<u8>)
    requires
        decode(buf) is Frame,
    ensures
        decode(encoding(decode(buf)->value)) == (Decoded::Frame {
            value: decode(buf)->value,
            consumed: encoding(decode(buf)->value).len(),
        }),
{
    let v = decode(buf)->value;
    lemma_frame_bounds(buf, 0);
    let text = encoding(v);
    assert(text.subrange(0, text.len() as int) =~= text);
    lemma_decode_encoding(text, 0, v);
}

/// The text of a value that can come out of the decoder decodes to that
/// value, whatever stands behind the text.
pub proof fn law_encode_then_decode(v: ProtocolValue, more: Seq<u8>)
    requires
        decodable(v),
    ensures
        decode(encoding(v) + more) == (Decoded::Frame { value: v, consumed: encoding(v).len() }),
{
    let text = encoding(v);
    assert((text + more).subrange(0, text.len() as int) =~= text);
    lemma_decode_encoding(text + more, 0, v);
}

} // verus!
