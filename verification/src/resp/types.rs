//! Protocol values, buffer positions and decode errors.

use crate::buffer::{buf_seq, buf_slice, bytes_seq, bytes_sub};
use bytes::{Bytes, BytesMut};
use vstd::prelude::*;
use vstd::slice::slice_subrange;

verus! {

/// `std::io::Error`: a failure of the transport, carried in
/// [`RESPError::IOError`] and never looked into.
#[verifier::external_type_specification]
#[verifier::external_body]
pub struct ExIoError(std::io::Error);

/// A protocol value as a mathematical object: what a frame means, apart from
/// the buffers that hold it.
#[verifier::ext_equal]
pub enum ProtocolValue {
    SimpleString(Seq<u8>),
    Error(Seq<u8>),
    Int(i64),
    BulkString(Seq<u8>),
    Array(Seq<ProtocolValue>),
    NullArray,
    NullBulkString,
}

/// A span of a buffer: the bytes from the first position up to, but not
/// including, the second. It means something only for the buffer it was
/// made for, and only until that buffer changes.
pub struct BufSplit(pub usize, pub usize);

impl BufSplit {
    /// Whether the span lies inside the first `len` bytes of a buffer.
    pub open spec fn within(&self, len: nat) -> bool {
        self.0 <= self.1 <= len
    }

    /// The bytes of `buf` that the span covers.
    pub open spec fn bytes_of(&self, buf: Seq<u8>) -> Seq<u8> {
        buf.subrange(self.0 as int, self.1 as int)
    }

    /// The bytes of the receive buffer that the span covers.
    #[inline]
    pub fn as_slice<'a>(&self, buf: &'a BytesMut) -> (s: &'a [u8])
        requires
            self.within(buf_seq(buf).len()),
        ensures
            s@ == self.bytes_of(buf_seq(buf)),
    {
        slice_subrange(buf_slice(buf), self.0, self.1)
    }

    /// The bytes of a frozen buffer that the span covers, as a buffer that
    /// shares its storage.
    #[inline]
    fn as_bytes(&self, buf: &Bytes) -> (b: Bytes)
        requires
            self.within(bytes_seq(buf).len()),
        ensures
            bytes_seq(&b) == self.bytes_of(bytes_seq(buf)),
    {
        bytes_sub(buf, self.0, self.1)
    }
}

/// A frame as the parser finds it: the shape of a value, with spans of the
/// receive buffer where the value has bytes.
pub enum RESPBufSplit {
    String(BufSplit),
    Error(BufSplit),
    Int(i64),
    Array(Vec<RESPBufSplit>),
    BulkString(BufSplit),
    NullArray,
    NullBulkString,
}

/// Whether every span of a parsed frame lies inside the first `len` bytes.
pub open spec fn split_within(split: RESPBufSplit, len: nat) -> bool
    decreases split,
{
    match split {
        RESPBufSplit::String(span) => span.within(len),
        RESPBufSplit::Error(span) => span.within(len),
        RESPBufSplit::BulkString(span) => span.within(len),
        RESPBufSplit::Array(items) => forall|i: int|
            0 <= i < items@.len() ==> split_within(#[trigger] items@[i], len),
        _ => true,
    }
}

/// The value that a parsed frame denotes over the bytes `buf`.
pub open spec fn split_value(split: RESPBufSplit, buf: Seq<u8>) -> ProtocolValue
    decreases split,
{
    match split {
        RESPBufSplit::String(span) => ProtocolValue::SimpleString(span.bytes_of(buf)),
        RESPBufSplit::Error(span) => ProtocolValue::Error(span.bytes_of(buf)),
        RESPBufSplit::Int(i) => ProtocolValue::Int(i),
        RESPBufSplit::BulkString(span) => ProtocolValue::BulkString(span.bytes_of(buf)),
        RESPBufSplit::Array(items) => ProtocolValue::Array(split_values(items@, buf)),
        RESPBufSplit::NullArray => ProtocolValue::NullArray,
        RESPBufSplit::NullBulkString => ProtocolValue::NullBulkString,
    }
}

/// The values that a sequence of parsed frames denotes over the bytes `buf`.
pub open spec fn split_values(items: Seq<RESPBufSplit>, buf: Seq<u8>) -> Seq<ProtocolValue>
    decreases items,
{
    if items.len() == 0 {
        Seq::empty()
    } else {
        split_values(items.drop_last(), buf).push(split_value(items.last(), buf))
    }
}

/// `split_values` keeps the length and maps each frame to its value.
pub proof fn lemma_split_values(items: Seq<RESPBufSplit>, buf: Seq<u8>)
    ensures
        split_values(items, buf).len() == items.len(),
        forall|i: int|
            0 <= i < items.len() ==> #[trigger] split_values(items, buf)[i] == split_value(
                items[i],
                buf,
            ),
    decreases items.len(),
{
    if items.len() > 0 {
        lemma_split_values(items.drop_last(), buf);
    }
}

/// A parsed frame denotes the same value over any two buffers that agree on
/// the bytes up to the end of its spans.
pub proof fn lemma_split_value_prefix(split: RESPBufSplit, a: Seq<u8>, b: Seq<u8>, len: nat)
    requires
        split_within(split, len),
        len <= a.len(),
        len <= b.len(),
        a.take(len as int) == b.take(len as int),
    ensures
        split_value(split, a) == split_value(split, b),
    decreases split,
{
    assert forall|span: BufSplit| span.within(len) implies span.bytes_of(a) == span.bytes_of(
        b,
    ) by {
        assert(span.bytes_of(a) =~= a.take(len as int).subrange(span.0 as int, span.1 as int));
        assert(span.bytes_of(b) =~= b.take(len as int).subrange(span.0 as int, span.1 as int));
    }
    match split {
        RESPBufSplit::Array(items) => {
            lemma_split_values(items@, a);
            lemma_split_values(items@, b);
            assert forall|i: int| 0 <= i < items@.len() implies split_value(items@[i], a)
                == split_value(items@[i], b) by {
                lemma_split_value_prefix(items@[i], a, b, len);
            }
            assert(split_values(items@, a) =~= split_values(items@, b));
        },
        _ => {},
    }
}

impl RESPBufSplit {
    /// The value that this frame denotes over `buf`, with each payload a
    /// buffer that shares the storage of `buf`.
    fn materialize(&self, buf: &Bytes) -> (r: RESPValueRef)
        requires
            split_within(*self, bytes_seq(buf).len()),
        ensures
            r@ == split_value(*self, bytes_seq(buf)),
        decreases self,
    {
        match self {
            RESPBufSplit::String(bfs) => RESPValueRef::SimpleString(bfs.as_bytes(buf)),
            RESPBufSplit::Error(bfs) => RESPValueRef::Error(bfs.as_bytes(buf)),
            RESPBufSplit::Int(i) => RESPValueRef::Int(*i),
            RESPBufSplit::BulkString(bfs) => RESPValueRef::BulkString(bfs.as_bytes(buf)),
            RESPBufSplit::NullBulkString => RESPValueRef::NullBulkString,
            RESPBufSplit::Array(arr) => {
                let mut values: Vec<RESPValueRef> = Vec::new();
                let mut i: usize = 0;
                while i < arr.len()
                    invariant
                        self is Array && self->Array_0 == arr,
                        split_within(*self, bytes_seq(buf).len()),
                        i <= arr.len(),
                        values@.len() == i,
                        forall|j: int|
                            0 <= j < i ==> (#[trigger] values@[j])@ == split_value(
                                arr@[j],
                                bytes_seq(buf),
                            ),
                    decreases arr.len() - i,
                {
                    assert(split_within(arr@[i as int], bytes_seq(buf).len()));
                    values.push(arr[i].materialize(buf));
                    i += 1;
                }
                proof {
                    lemma_values_of(values@);
                    lemma_split_values(arr@, bytes_seq(buf));
                    assert(values_of(values@) =~= split_values(arr@, bytes_seq(buf)));
                }
                RESPValueRef::Array(values)
            },
            RESPBufSplit::NullArray => RESPValueRef::NullArray,
        }
    }

    /// Turns a parsed frame into a value that owns its bytes. `buf` holds the
    /// bytes that were parsed, frozen; every span must lie inside it.
    pub fn into_redis_value(self, buf: &Bytes) -> (r: RESPValueRef)
        requires
            split_within(self, bytes_seq(buf).len()),
        ensures
            r@ == split_value(self, bytes_seq(buf)),
    {
        self.materialize(buf)
    }
}

/// Why a byte stream cannot be decoded. Each of these is final: the stream
/// cannot be trusted to line up with frame boundaries again.
#[derive(Debug)]
pub enum RESPError {
    /// The input ended where more was required.
    UnexpectedEnd,
    /// A frame starts with a byte that names no kind of value.
    UnknownStartingByte,
    /// The transport failed.
    IOError(std::io::Error),
    /// An integer, a length or a count is not a decimal 64-bit number.
    IntParseFailure,
    /// A bulk string declares a negative length other than -1.
    BadBulkStringSize(i64),
    /// An array declares a negative count other than -1.
    BadArraySize(i64),
}

/// A decoded protocol value that owns its payload bytes.
#[derive(Debug, PartialEq)]
pub enum RESPValueRef {
    SimpleString(Bytes),
    Error(Bytes),
    Int(i64),
    BulkString(Bytes),
    Array(Vec<RESPValueRef>),
    NullArray,
    NullBulkString,
}

impl View for RESPValueRef {
    type V = ProtocolValue;

    open spec fn view(&self) -> ProtocolValue {
        value_of(*self)
    }
}

/// What a decoded value means: its payload bytes in place of its buffers.
pub open spec fn value_of(v: RESPValueRef) -> ProtocolValue
    decreases v,
{
    match v {
        RESPValueRef::SimpleString(b) => ProtocolValue::SimpleString(bytes_seq(&b)),
        RESPValueRef::Error(b) => ProtocolValue::Error(bytes_seq(&b)),
        RESPValueRef::Int(i) => ProtocolValue::Int(i),
        RESPValueRef::BulkString(b) => ProtocolValue::BulkString(bytes_seq(&b)),
        RESPValueRef::Array(items) => ProtocolValue::Array(values_of(items@)),
        RESPValueRef::NullArray => ProtocolValue::NullArray,
        RESPValueRef::NullBulkString => ProtocolValue::NullBulkString,
    }
}

/// The meanings of a sequence of values, element by element.
pub open spec fn values_of(items: Seq<RESPValueRef>) -> Seq<ProtocolValue>
    decreases items,
{
    if items.len() == 0 {
        Seq::empty()
    } else {
        values_of(items.drop_last()).push(value_of(items.last()))
    }
}

/// `values_of` keeps the length and maps each element to its view.
pub proof fn lemma_values_of(items: Seq<RESPValueRef>)
    ensures
        values_of(items).len() == items.len(),
        forall|i: int| 0 <= i < items.len() ==> #[trigger] values_of(items)[i] == items[i]@,
    decreases items.len(),
{
    if items.len() > 0 {
        lemma_values_of(items.drop_last());
    }
}

impl RESPValueRef {
    /// A deep copy; payload buffers are shared, not copied.
    fn duplicate(&self) -> (r: Self)
        ensures
            r@ == self@,
        decreases self,
    {
        match self {
            RESPValueRef::SimpleString(b) => RESPValueRef::SimpleString(b.clone()),
            RESPValueRef::Error(b) => RESPValueRef::Error(b.clone()),
            RESPValueRef::Int(i) => RESPValueRef::Int(*i),
            RESPValueRef::BulkString(b) => RESPValueRef::BulkString(b.clone()),
            RESPValueRef::Array(items) => {
                let mut copies: Vec<RESPValueRef> = Vec::new();
                let mut i: usize = 0;
                while i < items.len()
                    invariant
                        self is Array && self->Array_0 == items,
                        i <= items.len(),
                        copies@.len() == i,
                        forall|j: int| 0 <= j < i ==> (#[trigger] copies@[j])@ == items@[j]@,
                    decreases items.len() - i,
                {
                    copies.push(items[i].duplicate());
                    i += 1;
                }
                proof {
                    lemma_values_of(copies@);
                    lemma_values_of(items@);
                    assert(values_of(copies@) =~= values_of(items@));
                }
                RESPValueRef::Array(copies)
            },
            RESPValueRef::NullArray => RESPValueRef::NullArray,
            RESPValueRef::NullBulkString => RESPValueRef::NullBulkString,
        }
    }
}

impl Clone for RESPValueRef {
    fn clone(&self) -> (r: Self)
        ensures
            r@ == self@,
    {
        self.duplicate()
    }
}

} // verus!
