//! Natural numbers as decimal text.

use vstd::prelude::*;

verus! {

/// The digit `0` in ASCII.
pub const ZERO: u8 = 48;

/// The digit `9` in ASCII.
pub const NINE: u8 = 57;

/// The sign `+` in ASCII.
pub const PLUS: u8 = 43;

/// Whether `b` is an ASCII digit.
pub open spec fn is_digit(b: u8) -> bool {
    ZERO <= b <= NINE
}

/// Whether every byte of `s` is an ASCII digit.
pub open spec fn all_digits(s: Seq<u8>) -> bool {
    forall|i: int| 0 <= i < s.len() ==> is_digit(#[trigger] s[i])
}

/// The number that the digits `s` spell, read most significant digit first.
pub open spec fn digits_value(s: Seq<u8>) -> nat
    decreases s.len(),
{
    if s.len() == 0 {
        0
    } else {
        digits_value(s.drop_last()) * 10 + (s.last() - ZERO) as nat
    }
}

/// The decimal text of `n`, without leading zeros.
pub open spec fn decimal(n: nat) -> Seq<u8>
    decreases n,
{
    if n < 10 {
        seq![(ZERO + n) as u8]
    } else {
        decimal(n / 10).push((ZERO + n % 10) as u8)
    }
}

/// The number that the digits `s` spell, if `s` is a non-empty run of digits
/// and the number fits 64 bits.
pub open spec fn parse_digits(s: Seq<u8>) -> Option<u64> {
    if s.len() > 0 && all_digits(s) && digits_value(s) <= u64::MAX {
        Some(digits_value(s) as u64)
    } else {
        None
    }
}

/// The number that `s` declares, if it declares one: `s` is a non-empty run of
/// digits, optionally after one `+`, and spells a number that fits 64 bits.
pub open spec fn parse_decimal(s: Seq<u8>) -> Option<u64> {
    if s.len() > 0 && s[0] == PLUS {
        parse_digits(s.skip(1))
    } else {
        parse_digits(s)
    }
}

/// The decimal text of a number is a non-empty run of digits that spells it.
pub proof fn lemma_decimal(n: nat)
    ensures
        decimal(n).len() > 0,
        all_digits(decimal(n)),
        digits_value(decimal(n)) == n,
    decreases n,
{
    if n < 10 {
        let s = decimal(n);
        assert(s.drop_last() =~= Seq::<u8>::empty());
        assert(digits_value(s) == digits_value(s.drop_last()) * 10 + (s.last() - ZERO) as nat);
    } else {
        lemma_decimal(n / 10);
        let s = decimal(n);
        assert(s.drop_last() =~= decimal(n / 10));
        assert(digits_value(s) == digits_value(s.drop_last()) * 10 + (s.last() - ZERO) as nat);
    }
}

/// Reading the decimal text of a number gives the number back.
pub proof fn lemma_parse_decimal(n: u64)
    ensures
        parse_decimal(decimal(n as nat)) == Some(n),
{
    lemma_decimal(n as nat);
    let s = decimal(n as nat);
    assert(is_digit(s[0]));
}

/// The value of a run of digits is at least the value of each of its prefixes.
proof fn lemma_prefix_value(s: Seq<u8>, i: int)
    requires
        0 <= i <= s.len(),
    ensures
        digits_value(s.take(i)) <= digits_value(s),
    decreases s.len() - i,
{
    if i == s.len() {
        assert(s.take(i) =~= s);
    } else {
        lemma_prefix_value(s.drop_last(), i);
        assert(s.drop_last().take(i) =~= s.take(i));
    }
}

/// Appends the decimal text of `n` to `out`.
pub fn push_decimal(out: &mut Vec<u8>, n: u64)
    ensures
        final(out)@ == old(out)@ + decimal(n as nat),
    decreases n,
{
    if n >= 10 {
        push_decimal(out, n / 10);
    }
    let digit: u8 = (n % 10) as u8;
    out.push(ZERO + digit);
    proof {
        assert(out@ =~= old(out)@ + decimal(n as nat));
    }
}

/// Reads the number that `bytes[from..to]` declares, if it declares one.
pub fn read_decimal(bytes: &[u8], from: usize, to: usize) -> (r: Option<u64>)
    requires
        from <= to <= bytes@.len(),
    ensures
        r == parse_decimal(bytes@.subrange(from as int, to as int)),
{
    let ghost s = bytes@.subrange(from as int, to as int);
    let start: usize = if from < to && bytes[from] == PLUS {
        from + 1
    } else {
        from
    };
    let ghost digits = bytes@.subrange(start as int, to as int);
    proof {
        if from < to {
            assert(s[0] == bytes@[from as int]);
            assert(s.skip(1) =~= bytes@.subrange(from + 1, to as int));
        }
        assert(parse_decimal(s) == parse_digits(digits));
    }
    if start == to {
        return None;
    }
    let mut value: u64 = 0;
    let mut i: usize = start;
    proof {
        assert(digits.take(0) =~= Seq::<u8>::empty());
    }
    while i < to
        invariant
            start <= i <= to <= bytes@.len(),
            digits == bytes@.subrange(start as int, to as int),
            parse_decimal(bytes@.subrange(from as int, to as int)) == parse_digits(digits),
            all_digits(digits.take(i - start)),
            value == digits_value(digits.take(i - start)),
        decreases to - i,
    {
        let b: u8 = bytes[i];
        let ghost shorter = digits.take(i - start);
        let ghost longer = digits.take(i - start + 1);
        proof {
            assert(longer.drop_last() =~= shorter);
            assert(longer.last() == b);
        }
        if b < ZERO || b > NINE {
            proof {
                assert(digits[i - start] == b);
            }
            return None;
        }
        let digit: u64 = (b - ZERO) as u64;
        let next: Option<u64> = match value.checked_mul(10) {
            Some(tens) => tens.checked_add(digit),
            None => None,
        };
        match next {
            Some(v) => {
                value = v;
            },
            None => {
                proof {
                    assert(digits_value(longer) > u64::MAX);
                    lemma_prefix_value(digits, i - start + 1);
                }
                return None;
            },
        }
        proof {
            assert forall|j: int| 0 <= j < longer.len() implies is_digit(#[trigger] longer[j]) by {
                if j < shorter.len() {
                    assert(shorter[j] == longer[j]);
                }
            }
        }
        i = i + 1;
    }
    proof {
        assert(digits.take(to - start) =~= digits);
    }
    Some(value)
}

} // verus!
