//! Signed decimal numbers as the protocol writes them: an optional `-` and
//! ASCII digits.

use crate::error::DecodeError;
use vstd::prelude::*;

verus! {

/// The largest magnitude a signed 64-bit number can have, that of `i64::MIN`.
pub const MAX_MAGNITUDE: u64 = 9223372036854775808;

/// Whether `b` is an ASCII digit.
pub open spec fn is_digit(b: u8) -> bool {
    48 <= b <= 57
}

/// Whether `s` holds ASCII digits only.
pub open spec fn all_digits(s: Seq<u8>) -> bool {
    forall|i: int| 0 <= i < s.len() ==> is_digit(#[trigger] s[i])
}

/// The decimal digits of `n`, most significant first, without leading zeros.
pub open spec fn digits(n: nat) -> Seq<u8>
    decreases n,
{
    if n < 10 {
        seq![(48 + n) as u8]
    } else {
        digits(n / 10).push((48 + n % 10) as u8)
    }
}

/// The text of the integer `i`: `-` before the digits of a negative number.
pub open spec fn decimal(i: int) -> Seq<u8> {
    if i < 0 {
        seq![45u8] + digits((-i) as nat)
    } else {
        digits(i as nat)
    }
}

/// The number that a run of ASCII digits stands for.
pub open spec fn digits_value(s: Seq<u8>) -> nat
    decreases s.len(),
{
    if s.len() == 0 {
        0
    } else {
        (digits_value(s.drop_last()) * 10 + (s.last() - 48)) as nat
    }
}

/// Whether `s` begins with the sign `-`. It is the only sign: `+` is no
/// part of a number.
pub open spec fn has_sign(s: Seq<u8>) -> bool {
    s.len() > 0 && s[0] == 45
}

/// The digits of `s`, behind its sign if it has one.
pub open spec fn unsigned_part(s: Seq<u8>) -> Seq<u8> {
    if has_sign(s) {
        s.skip(1)
    } else {
        s
    }
}

/// The signed 64-bit number that `s` is the text of: an optional `-`,
/// then at least one ASCII digit and nothing else, the whole within the range
/// of `i64`. `None` for any other text.
pub open spec fn number_of(s: Seq<u8>) -> Option<int> {
    let body = unsigned_part(s);
    if body.len() == 0 || !all_digits(body) {
        None
    } else {
        let v = if s[0] == 45 {
            -(digits_value(body) as int)
        } else {
            digits_value(body) as int
        };
        if i64::MIN <= v <= i64::MAX {
            Some(v)
        } else {
            None
        }
    }
}

/// Text that begins with `+` is no number.
pub proof fn lemma_plus_is_no_sign(s: Seq<u8>)
    requires
        s.len() > 0,
        s[0] == 43,
    ensures
        number_of(s) is None,
{
    assert(!is_digit(unsigned_part(s)[0]));
}

/// The digits of a number are digits, and stand for that number.
pub proof fn lemma_digits(n: nat)
    ensures
        digits(n).len() >= 1,
        all_digits(digits(n)),
        digits_value(digits(n)) == n,
    decreases n,
{
    if n < 10 {
        let s = digits(n);
        assert(s.drop_last() =~= Seq::<u8>::empty());
        assert(digits_value(s.drop_last()) == 0);
    } else {
        lemma_digits(n / 10);
        let s = digits(n);
        assert(s.drop_last() =~= digits(n / 10));
    }
}

/// A run of digits stands for at least as much as any of its prefixes.
pub proof fn lemma_prefix_value(s: Seq<u8>, k: int)
    requires
        all_digits(s),
        0 <= k <= s.len(),
    ensures
        digits_value(s.take(k)) <= digits_value(s),
    decreases s.len(),
{
    if k == s.len() {
        assert(s.take(k) =~= s);
    } else {
        lemma_prefix_value(s.drop_last(), k);
        assert(s.drop_last().take(k) =~= s.take(k));
        assert(is_digit(s.last()));
    }
}

/// Reading the text of a 64-bit number gives the number back.
pub proof fn lemma_number_of_decimal(i: int)
    requires
        i64::MIN <= i <= i64::MAX,
    ensures
        number_of(decimal(i)) == Some(i),
{
    let s = decimal(i);
    if i < 0 {
        let n = (-i) as nat;
        lemma_digits(n);
        assert(s.skip(1) =~= digits(n));
        assert(s[0] == 45);
    } else {
        let n = i as nat;
        lemma_digits(n);
        assert(is_digit(s[0]));
    }
}

/// The text of a number holds neither CR nor LF.
pub proof fn lemma_decimal_one_line(i: int)
    ensures
        decimal(i).len() >= 1,
        forall|k: int| 0 <= k < decimal(i).len() ==> decimal(i)[k] != 10 && decimal(i)[k] != 13,
{
    let n = if i < 0 {
        (-i) as nat
    } else {
        i as nat
    };
    lemma_digits(n);
    assert forall|k: int| 0 <= k < decimal(i).len() implies decimal(i)[k] != 10 && decimal(i)[k]
        != 13 by {
        if i < 0 {
            if k > 0 {
                assert(decimal(i)[k] == digits(n)[k - 1]);
                assert(is_digit(digits(n)[k - 1]));
            }
        } else {
            assert(is_digit(digits(n)[k]));
        }
    }
}

/// Writes `n` in decimal.
pub fn format_u64(n: u64) -> (text: Vec<u8>)
    ensures
        text@ == digits(n as nat),
    decreases n,
{
    if n < 10 {
        let mut text: Vec<u8> = Vec::new();
        text.push(48 + n as u8);
        assert(text@ =~= digits(n as nat));
        text
    } else {
        let mut text = format_u64(n / 10);
        text.push(48 + (n % 10) as u8);
        text
    }
}

/// Writes `i` in decimal, with `-` before a negative number.
pub fn format_i64(i: i64) -> (text: Vec<u8>)
    ensures
        text@ == decimal(i as int),
{
    if i < 0 {
        let magnitude: u64 = (-(i + 1)) as u64 + 1;
        let mut text: Vec<u8> = Vec::new();
        text.push(45);
        let mut tail = format_u64(magnitude);
        text.append(&mut tail);
        assert(text@ =~= decimal(i as int));
        text
    } else {
        format_u64(i as u64)
    }
}

/// Reads a signed decimal number of 64 bits: an optional `-` and digits.
/// What is not one is a format error.
pub fn parse_integer(bytes: &[u8]) -> (res: Result<i64, DecodeError>)
    ensures
        match number_of(bytes@) {
            Some(v) => res == Ok::<i64, DecodeError>(v as i64),
            None => res == Err::<i64, DecodeError>(DecodeError::Format),
        },
{
    let len = bytes.len();
    if len == 0 {
        return Err(DecodeError::Format);
    }
    let negative = bytes[0] == 45;
    let start: usize = if negative {
        1
    } else {
        0
    };
    if start == len {
        return Err(DecodeError::Format);
    }
    let ghost body = unsigned_part(bytes@);
    let mut magnitude: u64 = 0;
    let mut i: usize = start;
    assert(body.take(0) =~= Seq::<u8>::empty());
    while i < len
        invariant
            start <= i <= len,
            len == bytes@.len(),
            body == bytes@.skip(start as int),
            body == unsigned_part(bytes@),
            all_digits(body.take(i - start)),
            magnitude == digits_value(body.take(i - start)),
            magnitude <= MAX_MAGNITUDE,
        decreases len - i,
    {
        let b = bytes[i];
        let ghost k: int = i - start;
        assert(body[k] == b);
        if b < 48 || b > 57 {
            assert(!is_digit(body[k]));
            return Err(DecodeError::Format);
        }
        proof {
            assert(body.take(k + 1).drop_last() =~= body.take(k));
            assert(body.take(k + 1).last() == b);
            if all_digits(body) {
                lemma_prefix_value(body, k + 1);
            }
        }
        if magnitude > 922337203685477580 {
            return Err(DecodeError::Format);
        }
        let next: u64 = magnitude * 10 + (b - 48) as u64;
        if next > MAX_MAGNITUDE {
            return Err(DecodeError::Format);
        }
        magnitude = next;
        i += 1;
    }
    assert(body.take(len - start) =~= body);
    if negative {
        if magnitude == MAX_MAGNITUDE {
            Ok(i64::MIN)
        } else {
            Ok(-(magnitude as i64))
        }
    } else if magnitude > 9223372036854775807 {
        Err(DecodeError::Format)
    } else {
        Ok(magnitude as i64)
    }
}

} // verus!
