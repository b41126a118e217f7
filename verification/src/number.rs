//! Decimal literals and the integers they denote.

use vstd::prelude::*;
use crate::lex::is_digit;

verus! {

/// The number that a sequence of decimal digits denotes.
pub open spec fn digits_value(d: Seq<u8>) -> int
    decreases d.len(),
{
    if d.len() == 0 {
        0
    } else {
        digits_value(d.drop_last()) * 10 + (d.last() - 0x30)
    }
}

/// At least one byte, and every byte a decimal digit.
pub open spec fn is_unsigned_literal(d: Seq<u8>) -> bool {
    d.len() > 0 && forall|i: int| 0 <= i < d.len() ==> is_digit(#[trigger] d[i])
}

/// An optional `-` and an unsigned literal.
pub open spec fn is_int_literal(t: Seq<u8>) -> bool {
    if t.len() > 0 && t[0] == 0x2d {
        is_unsigned_literal(t.subrange(1, t.len() as int))
    } else {
        is_unsigned_literal(t)
    }
}

/// The integer that an integer literal denotes.
pub open spec fn int_value(t: Seq<u8>) -> int {
    if t.len() > 0 && t[0] == 0x2d {
        -digits_value(t.subrange(1, t.len() as int))
    } else {
        digits_value(t)
    }
}

/// A longer run of digits denotes no smaller a number than its beginning.
pub proof fn lemma_digits_value_grows(d: Seq<u8>, i: int)
    requires
        0 <= i <= d.len(),
        forall|k: int| 0 <= k < d.len() ==> is_digit(#[trigger] d[k]),
    ensures
        0 <= digits_value(d.subrange(0, i)) <= digits_value(d),
    decreases d.len() - i,
{
    if i == d.len() {
        assert(d.subrange(0, i) =~= d);
        lemma_digits_value_nonnegative(d);
    } else {
        lemma_digits_value_grows(d, i + 1);
        let longer = d.subrange(0, i + 1);
        assert(longer.drop_last() =~= d.subrange(0, i));
        assert(is_digit(longer.last())) by {
            assert(longer.last() == d[i]);
        }
        lemma_digits_value_nonnegative(d.subrange(0, i));
    }
}

/// A run of digits denotes no negative number.
pub proof fn lemma_digits_value_nonnegative(d: Seq<u8>)
    requires
        forall|k: int| 0 <= k < d.len() ==> is_digit(#[trigger] d[k]),
    ensures
        0 <= digits_value(d),
    decreases d.len(),
{
    if d.len() > 0 {
        lemma_digits_value_nonnegative(d.drop_last());
        assert(is_digit(d[d.len() - 1]));
    }
}

/// Reads an unsigned literal.  `None` where the text is no unsigned literal
/// or denotes a number above `u64::MAX`.
pub fn parse_u64(text: &[u8]) -> (r: Option<u64>)
    ensures
        r is Some <==> is_unsigned_literal(text@) && digits_value(text@) <= u64::MAX,
        r matches Some(v) ==> v == digits_value(text@),
{
    if text.len() == 0 {
        return None;
    }
    let mut acc: u64 = 0;
    let mut i: usize = 0;
    assert(text@.subrange(0, 0) =~= Seq::<u8>::empty());
    while i < text.len()
        invariant
            i <= text.len(),
            acc == digits_value(text@.subrange(0, i as int)),
            forall|k: int| 0 <= k < i ==> is_digit(#[trigger] text@[k]),
        decreases text.len() - i,
    {
        let b = text[i];
        if !(0x30 <= b && b <= 0x39) {
            return None;
        }
        let d: u64 = (b - 0x30) as u64;
        proof {
            let longer = text@.subrange(0, i + 1);
            assert(longer.drop_last() =~= text@.subrange(0, i as int));
            assert(longer.last() == b);
            assert(digits_value(longer) == acc * 10 + d);
        }
        if acc > (u64::MAX - d) / 10 {
            proof {
                if is_unsigned_literal(text@) {
                    lemma_digits_value_grows(text@, i + 1);
                }
            }
            return None;
        }
        acc = acc * 10 + d;
        i += 1;
    }
    assert(text@.subrange(0, i as int) =~= text@);
    Some(acc)
}

/// Reads an integer literal.  `None` where the text is no integer literal or
/// denotes a number outside `i64`.
pub fn parse_i64(text: &[u8]) -> (r: Option<i64>)
    ensures
        r is Some <==> is_int_literal(text@) && i64::MIN <= int_value(text@) <= i64::MAX,
        r matches Some(v) ==> v == int_value(text@),
{
    if text.len() > 0 && text[0] == 0x2d {
        let digits = vstd::slice::slice_subrange(text, 1, text.len());
        match parse_u64(digits) {
            Some(m) => {
                if m < 0x8000_0000_0000_0000 {
                    Some(-(m as i64))
                } else if m == 0x8000_0000_0000_0000 {
                    Some(i64::MIN)
                } else {
                    None
                }
            },
            None => None,
        }
    } else {
        match parse_u64(text) {
            Some(m) => {
                if m <= 0x7fff_ffff_ffff_ffff {
                    Some(m as i64)
                } else {
                    None
                }
            },
            None => None,
        }
    }
}

/// The decimal digits of a natural number, without leading zeros.
pub open spec fn digits_of(n: nat) -> Seq<u8>
    decreases n,
{
    if n < 10 {
        seq![(0x30 + n) as u8]
    } else {
        digits_of(n / 10).push((0x30 + n % 10) as u8)
    }
}

/// The decimal literal of an integer.
pub open spec fn int_text(n: int) -> Seq<u8> {
    if n < 0 {
        seq![0x2du8] + digits_of((-n) as nat)
    } else {
        digits_of(n as nat)
    }
}

/// The digits of a number are digits, and denote the number.
pub proof fn lemma_digits_of(n: nat)
    ensures
        is_unsigned_literal(digits_of(n)),
        digits_value(digits_of(n)) == n,
    decreases n,
{
    if n < 10 {
        assert(digits_of(n).drop_last() =~= Seq::<u8>::empty());
        assert(digits_value(digits_of(n).drop_last()) == 0);
    } else {
        lemma_digits_of(n / 10);
        assert(digits_of(n).drop_last() =~= digits_of(n / 10));
        assert(digits_of(n).last() == (0x30 + n % 10) as u8);
    }
}

/// The literal of an integer is an integer literal, and denotes the integer.
pub proof fn lemma_int_text(n: int)
    ensures
        is_int_literal(int_text(n)),
        int_value(int_text(n)) == n,
        int_text(n).len() > 0,
{
    if n < 0 {
        lemma_digits_of((-n) as nat);
        let t = int_text(n);
        assert(t.subrange(1, t.len() as int) =~= digits_of((-n) as nat));
    } else {
        lemma_digits_of(n as nat);
        assert(is_digit(digits_of(n as nat)[0]));
    }
}

/// Appends the decimal digits of `n`.
pub fn push_digits(n: u64, out: &mut Vec<u8>)
    ensures
        final(out)@ == old(out)@ + digits_of(n as nat),
    decreases n,
{
    if n >= 10 {
        push_digits(n / 10, out);
    }
    out.push(0x30 + (n % 10) as u8);
    assert(final(out)@ =~= old(out)@ + digits_of(n as nat));
}

/// Appends the decimal literal of `n`.
pub fn push_int(n: i64, out: &mut Vec<u8>)
    ensures
        final(out)@ == old(out)@ + int_text(n as int),
{
    if n < 0 {
        out.push(0x2d);
        let magnitude: u64 = if n == i64::MIN {
            0x8000_0000_0000_0000
        } else {
            (-n) as u64
        };
        push_digits(magnitude, out);
        assert(final(out)@ =~= old(out)@ + int_text(n as int));
    } else {
        push_digits(n as u64, out);
    }
}

} // verus!
