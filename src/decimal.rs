//! Decimal digit strings: their meaning as numbers and how to write one.
use vstd::prelude::*;

verus! {

/// True when `b` is an ASCII decimal digit.
pub open spec fn is_digit(b: u8) -> bool {
    48 <= b <= 57
}

/// True when every byte of `s` is a decimal digit.
pub open spec fn all_digits(s: Seq<u8>) -> bool {
    forall|i: int| 0 <= i < s.len() ==> is_digit(#[trigger] s[i])
}

/// The number that the digit string `s` denotes (most significant digit first).
pub open spec fn digits_value(s: Seq<u8>) -> nat
    decreases s.len(),
{
    if s.len() == 0 {
        0
    } else {
        digits_value(s.drop_last()) * 10 + (s.last() - 48) as nat
    }
}

/// The shortest decimal rendering of `n`, without sign or leading zeros.
pub open spec fn dec_digits(n: nat) -> Seq<u8>
    decreases n,
{
    if n < 10 {
        seq![(48 + n) as u8]
    } else {
        dec_digits(n / 10) + seq![(48 + n % 10) as u8]
    }
}

/// The rendering of `n` is a nonempty digit string that denotes `n`.
pub proof fn lemma_dec_digits(n: nat)
    ensures
        dec_digits(n).len() >= 1,
        all_digits(dec_digits(n)),
        digits_value(dec_digits(n)) == n,
    decreases n,
{
    if n >= 10 {
        lemma_dec_digits(n / 10);
        let s = dec_digits(n);
        assert(s.drop_last() =~= dec_digits(n / 10));
        assert(s.last() == (48 + n % 10) as u8);
        assert(digits_value(s) == digits_value(dec_digits(n / 10)) * 10 + n % 10);
        assert((n / 10) * 10 + n % 10 == n) by (nonlinear_arith);
    } else {
        let s = dec_digits(n);
        assert(s.drop_last() =~= Seq::<u8>::empty());
        assert(digits_value(s.drop_last()) == 0);
        assert(s.last() == (48 + n) as u8);
    }
}

/// The value of a digit string is at least that of any of its prefixes.
pub proof fn lemma_digits_value_prefix(s: Seq<u8>, k: int)
    requires
        0 <= k <= s.len(),
        all_digits(s),
    ensures
        digits_value(s.take(k)) <= digits_value(s),
    decreases s.len(),
{
    if k < s.len() {
        assert(s.drop_last().take(k) =~= s.take(k));
        lemma_digits_value_prefix(s.drop_last(), k);
    } else {
        assert(s.take(k) =~= s);
    }
}

/// Appends the decimal rendering of `n` to `out`.
pub fn push_decimal(out: &mut Vec<u8>, n: u128)
    ensures
        final(out)@ == old(out)@ + dec_digits(n as nat),
    decreases n,
{
    if n >= 10 {
        push_decimal(out, n / 10);
    }
    let d: u8 = (n % 10) as u8;
    out.push(48 + d);
    proof {
        if n >= 10 {
            assert(final(out)@ =~= old(out)@ + dec_digits(n as nat));
        } else {
            assert(final(out)@ =~= old(out)@ + dec_digits(n as nat));
        }
    }
}

/// Reads the digit string `buf[start..end]` as a number, or gives `None` when it is
/// empty, holds a byte that is not a digit, or denotes a number above `limit`.
pub fn parse_decimal(buf: &[u8], start: usize, end: usize, limit: u64) -> (r: Option<u64>)
    requires
        start <= end <= buf@.len(),
    ensures
        r is Some <==> {
            let s = buf@.subrange(start as int, end as int);
            s.len() > 0 && all_digits(s) && digits_value(s) <= limit
        },
        r matches Some(n) ==> n == digits_value(buf@.subrange(start as int, end as int)),
{
    if start == end {
        return None;
    }
    let ghost s = buf@.subrange(start as int, end as int);
    let mut acc: u64 = 0;
    let mut i: usize = start;
    while i < end
        invariant
            start <= i <= end <= buf@.len(),
            s == buf@.subrange(start as int, end as int),
            all_digits(s.take(i - start)),
            acc as nat == digits_value(s.take(i - start)),
            acc <= limit,
        decreases end - i,
    {
        let b = buf[i];
        if b < 48 || b > 57 {
            assert(s[i - start] == b);
            return None;
        }
        let ghost prev = s.take(i - start);
        assert(s.take(i - start + 1).drop_last() =~= prev);
        assert(s.take(i - start + 1).last() == b);
        let wide: u128 = (acc as u128) * 10 + ((b - 48) as u128);
        if wide > limit as u128 {
            proof {
                if all_digits(s) {
                    lemma_digits_value_prefix(s, i - start + 1);
                }
            }
            return None;
        }
        acc = wide as u64;
        i = i + 1;
    }
    assert(s.take(i - start) =~= s);
    Some(acc)
}

} // verus!
