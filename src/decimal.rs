//! Decimal numerals as ASCII bytes: rendering and the value of a digit run.
use vstd::prelude::*;

verus! {

/// ASCII code of the digit `d` (0 to 9).
pub open spec fn digit_byte(d: nat) -> u8 {
    (48 + d % 10) as u8
}

/// The shortest decimal numeral of `n`, most significant digit first.
pub open spec fn decimal(n: nat) -> Seq<u8>
    decreases n,
{
    if n < 10 {
        seq![digit_byte(n)]
    } else {
        decimal(n / 10).push(digit_byte(n % 10))
    }
}

pub open spec fn is_digit(b: u8) -> bool {
    48 <= b <= 57
}

/// A numeral: a non-empty run of ASCII digits.
pub open spec fn is_numeral(s: Seq<u8>) -> bool {
    s.len() > 0 && forall|i: int| 0 <= i < s.len() ==> is_digit(#[trigger] s[i])
}

/// The value of a run of digits read in base ten.
pub open spec fn digits_value(s: Seq<u8>) -> nat
    decreases s.len(),
{
    if s.len() == 0 {
        0
    } else {
        digits_value(s.drop_last()) * 10 + (s.last() - 48) as nat
    }
}

/// Appends the decimal numeral of `n` to `out`.
pub fn push_decimal(out: &mut Vec<u8>, n: u32)
    ensures
        final(out)@ == old(out)@ + decimal(n as nat),
    decreases n,
{
    if n >= 10 {
        push_decimal(out, n / 10);
    }
    out.push(48u8 + (n % 10) as u8);
    assert(out@ =~= old(out)@ + decimal(n as nat));
}

pub proof fn lemma_decimal_numeral(n: nat)
    ensures
        is_numeral(decimal(n)),
        digits_value(decimal(n)) == n,
    decreases n,
{
    let s = decimal(n);
    if n < 10 {
        assert(s.drop_last() =~= Seq::<u8>::empty());
        assert(digits_value(Seq::<u8>::empty()) == 0);
        assert(s.last() as int == 48 + n);
    } else {
        lemma_decimal_numeral(n / 10);
        assert(s.drop_last() =~= decimal(n / 10));
        assert(s.last() as int == 48 + n % 10);
        assert(digits_value(s) == digits_value(s.drop_last()) * 10 + (s.last() - 48) as nat);
        assert forall|i: int| 0 <= i < s.len() implies is_digit(#[trigger] s[i]) by {
            if i < s.len() - 1 {
                assert(s[i] == decimal(n / 10)[i]);
            }
        }
    }
}

} // verus!
