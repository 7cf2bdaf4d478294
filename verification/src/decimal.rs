//! Decimal ASCII numbers, as they appear in length, count and integer fields.
//!
//! A field is a non-empty run of the digits `0`..`9`, for signed fields with an
//! optional leading `-`. Leading zeros are accepted on input and never
//! produced on output.

use crate::line::{lemma_no_cr_no_crlf, no_crlf, CR};
use vstd::prelude::*;
use vstd::slice::slice_subrange;

verus! {

/// The sign of a negative number: `-`.
pub const MINUS: u8 = 45;

/// The digit `0`.
pub const ZERO: u8 = 48;

/// The digit `9`.
pub const NINE: u8 = 57;

/// `b` is one of the digits `0`..`9`.
pub open spec fn is_digit(b: u8) -> bool {
    ZERO <= b <= NINE
}

/// Every byte of `s` is a digit.
pub open spec fn all_digits(s: Seq<u8>) -> bool {
    forall|i: int| 0 <= i < s.len() ==> is_digit(#[trigger] s[i])
}

/// The number that a run of digits denotes, most significant digit first.
pub open spec fn digits_value(s: Seq<u8>) -> nat
    decreases s.len(),
{
    if s.len() == 0 {
        0
    } else {
        digits_value(s.drop_last()) * 10 + (s.last() - ZERO) as nat
    }
}

/// The value of an unsigned field, or `None` where the text is not one.
pub open spec fn parse_unsigned(s: Seq<u8>) -> Option<nat> {
    if s.len() > 0 && all_digits(s) {
        Some(digits_value(s))
    } else {
        None
    }
}

/// The value of a signed field, or `None` where the text is not one.
pub open spec fn parse_signed(s: Seq<u8>) -> Option<int> {
    if s.len() > 0 && s[0] == MINUS {
        match parse_unsigned(s.skip(1)) {
            Some(n) => Some(-(n as int)),
            None => None,
        }
    } else {
        match parse_unsigned(s) {
            Some(n) => Some(n as int),
            None => None,
        }
    }
}

/// The shortest run of digits that denotes `n`.
pub open spec fn decimal(n: nat) -> Seq<u8>
    decreases n,
{
    if n < 10 {
        seq![(ZERO + n) as u8]
    } else {
        decimal(n / 10).push((ZERO + n % 10) as u8)
    }
}

/// The text of a signed number: `-` and the digits of its magnitude where it
/// is negative, its digits alone where it is not.
pub open spec fn signed_decimal(i: int) -> Seq<u8> {
    if i < 0 {
        seq![MINUS] + decimal((-i) as nat)
    } else {
        decimal(i as nat)
    }
}

/// What `decimal` writes is a field that reads back as the same number.
pub proof fn lemma_decimal_reads_back(n: nat)
    ensures
        decimal(n).len() > 0,
        all_digits(decimal(n)),
        digits_value(decimal(n)) == n,
        parse_unsigned(decimal(n)) == Some(n),
    decreases n,
{
    if n < 10 {
        let s = decimal(n);
        assert(s.drop_last().len() == 0);
        assert(digits_value(s) == digits_value(s.drop_last()) * 10 + (s.last() - ZERO) as nat);
    } else {
        lemma_decimal_reads_back(n / 10);
        let s = decimal(n);
        assert(s.drop_last() == decimal(n / 10));
        assert forall|i: int| 0 <= i < s.len() implies is_digit(#[trigger] s[i]) by {
            if i < s.len() - 1 {
                assert(s[i] == decimal(n / 10)[i]);
            }
        }
    }
}

/// What `signed_decimal` writes is a field that reads back as the same number.
pub proof fn lemma_signed_decimal_reads_back(i: int)
    ensures
        signed_decimal(i).len() > 0,
        parse_signed(signed_decimal(i)) == Some(i),
{
    if i < 0 {
        let n = (-i) as nat;
        lemma_decimal_reads_back(n);
        let s = signed_decimal(i);
        assert(s.skip(1) == decimal(n));
    } else {
        lemma_decimal_reads_back(i as nat);
        assert(is_digit(decimal(i as nat)[0]));
    }
}

/// The text of a number holds digits and at most a leading `-`, so no
/// terminator stands in it.
pub proof fn lemma_number_is_one_line(i: int)
    ensures
        no_crlf(signed_decimal(i)),
        no_crlf(decimal(i as nat)),
{
    let s = signed_decimal(i);
    lemma_decimal_reads_back(i as nat);
    lemma_decimal_reads_back((-i) as nat);
    assert forall|j: int| 0 <= j < s.len() implies #[trigger] s[j] != CR by {
        if i < 0 && j > 0 {
            assert(is_digit(decimal((-i) as nat)[j - 1]));
        } else if i >= 0 {
            assert(is_digit(decimal(i as nat)[j]));
        }
    }
    lemma_no_cr_no_crlf(s);
    let d = decimal(i as nat);
    assert forall|j: int| 0 <= j < d.len() implies #[trigger] d[j] != CR by {
        assert(is_digit(d[j]));
    }
    lemma_no_cr_no_crlf(d);
}

/// Appending digits never makes the value denoted smaller.
pub proof fn lemma_digits_value_grows(s: Seq<u8>, k: int)
    requires
        0 <= k <= s.len(),
        all_digits(s),
    ensures
        digits_value(s.take(k)) <= digits_value(s),
    decreases s.len() - k,
{
    if k == s.len() {
        assert(s.take(k) == s);
    } else {
        lemma_digits_value_grows(s, k + 1);
        let t = s.take(k + 1);
        assert(t.drop_last() == s.take(k));
        assert(is_digit(s[k]));
        assert(t.last() == s[k]);
    }
}

/// Reads an unsigned field that fits in 64 bits.
pub fn parse_u64(text: &[u8]) -> (r: Option<u64>)
    ensures
        r == match parse_unsigned(text@) {
            Some(n) => if n <= u64::MAX {
                Some(n as u64)
            } else {
                None
            },
            None => None,
        },
{
    if text.len() == 0 {
        return None;
    }
    let mut acc: u64 = 0;
    let mut i: usize = 0;
    while i < text.len()
        invariant
            i <= text.len(),
            text.len() > 0,
            all_digits(text@.take(i as int)),
            acc == digits_value(text@.take(i as int)),
        decreases text.len() - i,
    {
        let b = text[i];
        if b < ZERO || b > NINE {
            assert(!is_digit(text@[i as int]));
            return None;
        }
        proof {
            let t = text@.take(i + 1);
            assert(t.drop_last() == text@.take(i as int));
            assert(t.last() == b);
            assert forall|j: int| 0 <= j < t.len() implies is_digit(#[trigger] t[j]) by {
                if j < i {
                    assert(t[j] == text@.take(i as int)[j]);
                }
            }
        }
        let next = match acc.checked_mul(10) {
            Some(m) => m.checked_add((b - ZERO) as u64),
            None => None,
        };
        match next {
            Some(v) => {
                acc = v;
            },
            None => {
                proof {
                    assert(digits_value(text@.take(i + 1)) > u64::MAX);
                    if all_digits(text@) {
                        lemma_digits_value_grows(text@, i + 1);
                    }
                }
                return None;
            },
        }
        i += 1;
    }
    assert(text@.take(text.len() as int) == text@);
    Some(acc)
}

/// Reads a signed field that fits in 64 bits.
pub fn parse_i64(text: &[u8]) -> (r: Option<i64>)
    ensures
        r == match parse_signed(text@) {
            Some(n) => if i64::MIN <= n <= i64::MAX {
                Some(n as i64)
            } else {
                None
            },
            None => None,
        },
{
    if text.len() > 0 && text[0] == MINUS {
        let digits = slice_subrange(text, 1, text.len());
        assert(digits@ == text@.skip(1));
        match parse_u64(digits) {
            Some(m) => {
                if m <= 9223372036854775807 {
                    Some(-(m as i64))
                } else if m == 9223372036854775808 {
                    Some(i64::MIN)
                } else {
                    None
                }
            },
            None => None,
        }
    } else {
        match parse_u64(text) {
            Some(m) => {
                if m <= 9223372036854775807 {
                    Some(m as i64)
                } else {
                    None
                }
            },
            None => None,
        }
    }
}

/// Appends the digits of `n`.
pub fn push_u64(out: &mut Vec<u8>, n: u64)
    ensures
        final(out)@ == old(out)@ + decimal(n as nat),
    decreases n,
{
    if n >= 10 {
        push_u64(out, n / 10);
    }
    out.push(ZERO + (n % 10) as u8);
    assert(out@ == old(out)@ + decimal(n as nat));
}

/// Appends the text of `n`.
pub fn push_i64(out: &mut Vec<u8>, n: i64)
    ensures
        final(out)@ == old(out)@ + signed_decimal(n as int),
{
    if n < 0 {
        out.push(MINUS);
        let magnitude: u64 = if n == i64::MIN {
            9223372036854775808
        } else {
            (-n) as u64
        };
        push_u64(out, magnitude);
        assert(out@ == old(out)@ + signed_decimal(n as int));
    } else {
        push_u64(out, n as u64);
    }
}

} // verus!
