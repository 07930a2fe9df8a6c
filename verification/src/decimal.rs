//! Decimal text for integers: what the wire carries for integers, lengths
//! and counts, and what a time-to-live is written in.
//!
//! Reading accepts what Rust's own integer parsing accepts: an optional sign
//! (`+` always, `-` for signed numbers only), then one or more ASCII digits,
//! nothing else, and a value that fits the type. Writing produces the
//! shortest such text.

use crate::ascii::{MINUS, NINE, PLUS, ZERO};
use vstd::prelude::*;

verus! {

/// Whether a byte is one of the ASCII digits `0` to `9`.
pub open spec fn is_digit(b: u8) -> bool {
    ZERO <= b && b <= NINE
}

/// Whether every byte of a sequence is an ASCII digit.
pub open spec fn all_digits(s: Seq<u8>) -> bool {
    forall|i: int| 0 <= i < s.len() ==> is_digit(#[trigger] s[i])
}

/// Whether a sequence is a run of one or more digits.
pub open spec fn is_number(s: Seq<u8>) -> bool {
    s.len() > 0 && all_digits(s)
}

/// The number that a string of digits denotes, most significant digit first.
/// The empty string denotes zero.
pub open spec fn digits_value(s: Seq<u8>) -> nat
    decreases s.len(),
{
    if s.len() == 0 {
        0
    } else {
        (digits_value(s.drop_last()) * 10 + (s.last() - ZERO)) as nat
    }
}

/// The digits of a natural number, most significant first, without leading
/// zeros; zero is the single digit `0`.
pub open spec fn nat_digits(n: nat) -> Seq<u8>
    decreases n,
{
    if n < 10 {
        seq![(ZERO + n) as u8]
    } else {
        nat_digits(n / 10).push((ZERO + n % 10) as u8)
    }
}

/// The decimal text of an integer: a minus sign for a negative number, then
/// the digits of its magnitude.
pub open spec fn int_digits(i: int) -> Seq<u8> {
    if i < 0 {
        seq![MINUS] + nat_digits((-i) as nat)
    } else {
        nat_digits(i as nat)
    }
}

/// The integer that a text denotes when it may carry either sign, or `None`
/// when it is not such a text.
pub open spec fn signed_value(s: Seq<u8>) -> Option<int> {
    if s.len() > 0 && s[0] == MINUS {
        if is_number(s.skip(1)) {
            Some(-(digits_value(s.skip(1)) as int))
        } else {
            None
        }
    } else {
        unsigned_value(s)
    }
}

/// The integer that a text denotes when only a `+` sign is allowed, or `None`
/// when it is not such a text.
pub open spec fn unsigned_value(s: Seq<u8>) -> Option<int> {
    if s.len() > 0 && s[0] == PLUS {
        if is_number(s.skip(1)) {
            Some(digits_value(s.skip(1)) as int)
        } else {
            None
        }
    } else if is_number(s) {
        Some(digits_value(s) as int)
    } else {
        None
    }
}

/// The signed 64-bit integer that a text denotes, if it denotes one.
pub open spec fn parse_i64(s: Seq<u8>) -> Option<i64> {
    match signed_value(s) {
        Some(v) => if i64::MIN <= v <= i64::MAX {
            Some(v as i64)
        } else {
            None
        },
        None => None,
    }
}

/// The unsigned 128-bit integer that a text denotes, if it denotes one.
pub open spec fn parse_u128(s: Seq<u8>) -> Option<u128> {
    match unsigned_value(s) {
        Some(v) => if v <= u128::MAX {
            Some(v as u128)
        } else {
            None
        },
        None => None,
    }
}

/// Appending a digit multiplies the value by ten and adds the digit.
pub proof fn lemma_value_push(s: Seq<u8>, b: u8)
    ensures
        digits_value(s.push(b)) == (digits_value(s) * 10 + (b - ZERO)) as nat,
{
    assert(s.push(b).drop_last() =~= s);
}

/// A run of digits is worth at least as much as any of its prefixes.
pub proof fn lemma_value_prefix(s: Seq<u8>, k: int)
    requires
        all_digits(s),
        0 <= k <= s.len(),
    ensures
        digits_value(s.take(k)) <= digits_value(s),
    decreases s.len() - k,
{
    if k == s.len() {
        assert(s.take(k) =~= s);
    } else {
        lemma_value_prefix(s, k + 1);
        assert(s.take(k + 1).drop_last() =~= s.take(k));
        assert(is_digit(s[k]));
        assert(s.take(k + 1).last() == s[k]);
    }
}

/// The digits written for a number are digits, at least one of them, and
/// denote that number.
pub proof fn lemma_nat_digits(n: nat)
    ensures
        is_number(nat_digits(n)),
        digits_value(nat_digits(n)) == n,
    decreases n,
{
    if n < 10 {
        let s = nat_digits(n);
        assert(s.drop_last() =~= Seq::<u8>::empty());
        assert(digits_value(s.drop_last()) == 0);
    } else {
        lemma_nat_digits(n / 10);
        lemma_value_push(nat_digits(n / 10), (ZERO + n % 10) as u8);
    }
}

/// Reading what was written gives the integer back.
pub proof fn lemma_read_written(i: int)
    ensures
        signed_value(int_digits(i)) == Some(i),
        i >= 0 ==> unsigned_value(int_digits(i)) == Some(i),
        forall|k: int|
            0 <= k < int_digits(i).len() ==> {
                let b = #[trigger] int_digits(i)[k];
                is_digit(b) || b == MINUS
            },
{
    if i < 0 {
        let m = (-i) as nat;
        lemma_nat_digits(m);
        assert(int_digits(i).skip(1) =~= nat_digits(m));
    } else {
        lemma_nat_digits(i as nat);
        assert(is_digit(nat_digits(i as nat)[0]));
    }
}

/// Appends the digits of `n` to `out`.
fn push_digits(out: &mut Vec<u8>, n: u64)
    ensures
        final(out)@ == old(out)@ + nat_digits(n as nat),
    decreases n,
{
    if n >= 10 {
        push_digits(out, n / 10);
    }
    let d: u8 = (n % 10) as u8;
    out.push(ZERO + d);
    assert(out@ =~= old(out)@ + nat_digits(n as nat));
}

/// The decimal text of an unsigned number.
pub fn format_u64(n: u64) -> (out: Vec<u8>)
    ensures
        out@ == nat_digits(n as nat),
        out@ == int_digits(n as int),
{
    let mut out: Vec<u8> = Vec::new();
    push_digits(&mut out, n);
    assert(out@ =~= nat_digits(n as nat));
    out
}

/// The decimal text of a signed number.
pub fn format_i64(i: i64) -> (out: Vec<u8>)
    ensures
        out@ == int_digits(i as int),
{
    let mut out: Vec<u8> = Vec::new();
    if i < 0 {
        out.push(MINUS);
        let magnitude: u64 = ((-(i + 1)) as u64) + 1;
        push_digits(&mut out, magnitude);
        assert(out@ =~= int_digits(i as int));
    } else {
        push_digits(&mut out, i as u64);
        assert(out@ =~= int_digits(i as int));
    }
    out
}

/// Reads the digits of `s` from `start` on, as long as the number stays at or
/// under `limit`.
fn read_digits(s: &[u8], start: usize, limit: u128) -> (r: Option<u128>)
    requires
        start <= s.len(),
    ensures
        r == if is_number(s@.skip(start as int)) && digits_value(s@.skip(start as int)) <= limit {
            Some(digits_value(s@.skip(start as int)) as u128)
        } else {
            None
        },
{
    let n = s.len();
    let ghost tail = s@.skip(start as int);
    if start >= n {
        return None;
    }
    let mut acc: u128 = 0;
    let mut i: usize = start;
    assert(tail.take(0) =~= Seq::<u8>::empty());
    while i < n
        invariant
            n == s.len(),
            tail == s@.skip(start as int),
            start <= i <= n,
            all_digits(tail.take(i - start)),
            acc == digits_value(tail.take(i - start)),
            acc <= limit,
        decreases n - i,
    {
        let b = s[i];
        if b < ZERO || b > NINE {
            assert(tail[i - start] == b);
            return None;
        }
        let d: u128 = (b - ZERO) as u128;
        proof {
            let next = tail.take(i - start + 1);
            assert(next.drop_last() =~= tail.take(i - start));
            assert(next.last() == b);
            assert(digits_value(next) == acc * 10 + d);
            assert forall|j: int| 0 <= j < next.len() implies is_digit(#[trigger] next[j]) by {
                if j < i - start {
                    assert(tail.take(i - start)[j] == next[j]);
                }
            }
            if all_digits(tail) {
                lemma_value_prefix(tail, i - start + 1);
            }
        }
        let grown = match acc.checked_mul(10) {
            Some(m) => m.checked_add(d),
            None => None,
        };
        match grown {
            Some(v) => {
                if v > limit {
                    return None;
                }
                acc = v;
            },
            None => {
                return None;
            },
        }
        i += 1;
    }
    assert(tail.take(i - start) =~= tail);
    Some(acc)
}

/// Reads a signed 64-bit integer from its decimal text.
pub fn read_i64(s: &[u8]) -> (r: Option<i64>)
    ensures
        r == parse_i64(s@),
{
    if s.len() == 0 {
        return None;
    }
    let first = s[0];
    if first == MINUS {
        match read_digits(s, 1, 9223372036854775808u128) {
            Some(m) => {
                if m == 9223372036854775808u128 {
                    Some(i64::MIN)
                } else {
                    Some(-(m as i64))
                }
            },
            None => None,
        }
    } else if first == PLUS {
        match read_digits(s, 1, 9223372036854775807u128) {
            Some(m) => Some(m as i64),
            None => None,
        }
    } else {
        assert(s@.skip(0) =~= s@);
        match read_digits(s, 0, 9223372036854775807u128) {
            Some(m) => Some(m as i64),
            None => None,
        }
    }
}

/// Reads an unsigned 128-bit integer from its decimal text.
pub fn read_u128(s: &[u8]) -> (r: Option<u128>)
    ensures
        r == parse_u128(s@),
{
    if s.len() == 0 {
        return None;
    }
    if s[0] == PLUS {
        read_digits(s, 1, u128::MAX)
    } else {
        assert(s@.skip(0) =~= s@);
        read_digits(s, 0, u128::MAX)
    }
}

} // verus!
