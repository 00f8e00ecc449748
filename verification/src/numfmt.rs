//! Decimal text of numbers, optionally zero-padded.

use vstd::prelude::*;
use crate::text::{all_digits, digit_value, digits_value, is_digit_char, push_char};

verus! {

/// The character of the decimal digit `k`.
pub open spec fn digit_char(k: int) -> char {
    if k == 0 {
        '0'
    } else if k == 1 {
        '1'
    } else if k == 2 {
        '2'
    } else if k == 3 {
        '3'
    } else if k == 4 {
        '4'
    } else if k == 5 {
        '5'
    } else if k == 6 {
        '6'
    } else if k == 7 {
        '7'
    } else if k == 8 {
        '8'
    } else {
        '9'
    }
}

/// The decimal digits of `n`, most significant first, without leading zeros.
pub open spec fn decimal(n: nat) -> Seq<char>
    decreases n,
{
    if n < 10 {
        seq![digit_char(n as int)]
    } else {
        decimal(n / 10).push(digit_char((n % 10) as int))
    }
}

/// `k` zeros.
pub open spec fn zeros(k: int) -> Seq<char> {
    Seq::new(if k > 0 { k as nat } else { 0 }, |i: int| '0')
}

/// The decimal digits of `n`, with zeros in front up to `width` characters.
pub open spec fn padded(n: nat, width: int) -> Seq<char> {
    zeros(width - decimal(n).len()) + decimal(n)
}

/// The character of the digit `k` (0 to 9).
pub fn digit(k: u64) -> (c: char)
    requires
        k < 10,
    ensures
        c == digit_char(k as int),
{
    if k == 0 {
        '0'
    } else if k == 1 {
        '1'
    } else if k == 2 {
        '2'
    } else if k == 3 {
        '3'
    } else if k == 4 {
        '4'
    } else if k == 5 {
        '5'
    } else if k == 6 {
        '6'
    } else if k == 7 {
        '7'
    } else if k == 8 {
        '8'
    } else {
        '9'
    }
}

/// Ten to the power `k`.
pub open spec fn pow10(k: nat) -> nat
    decreases k,
{
    if k == 0 {
        1
    } else {
        10 * pow10((k - 1) as nat)
    }
}

/// A number below `10^k` has at most `k` digits (and always at least one).
pub proof fn lemma_decimal_len(n: nat, k: nat)
    ensures
        decimal(n).len() >= 1,
        k >= 1 && n < pow10(k) ==> decimal(n).len() <= k,
    decreases n,
{
    if n >= 10 {
        lemma_decimal_len(n / 10, (k - 1) as nat);
        if k >= 1 {
            let p = pow10((k - 1) as nat);
            assert(n < 10 * p ==> n / 10 < p) by (nonlinear_arith);
            if k == 1 {
                assert(p == 1);
            }
        }
    }
}

/// The number of decimal digits of `n`.
pub fn digit_count(n: u64) -> (r: usize)
    ensures
        r == decimal(n as nat).len(),
        1 <= r <= 20,
    decreases n,
{
    proof {
        lemma_decimal_len(n as nat, 20);
        reveal_with_fuel(pow10, 21);
        assert(pow10(20) == 100000000000000000000nat);
    }
    if n < 10 {
        1
    } else {
        digit_count(n / 10) + 1
    }
}

/// Appends the decimal digits of `n`.
pub fn push_decimal(s: &mut String, n: u64)
    ensures
        final(s)@ == old(s)@ + decimal(n as nat),
    decreases n,
{
    if n >= 10 {
        push_decimal(s, n / 10);
    }
    push_char(s, digit(n % 10));
    proof {
        if n >= 10 {
            assert(decimal(n as nat) == decimal((n / 10) as nat).push(digit_char((n % 10) as int)));
        }
    }
    assert(final(s)@ =~= old(s)@ + decimal(n as nat));
}

/// Appends the decimal digits of `n`, zero-padded to `width` characters.
pub fn push_padded(s: &mut String, n: u64, width: usize)
    ensures
        final(s)@ == old(s)@ + padded(n as nat, width as int),
{
    let count = digit_count(n);
    let mut k = count;
    let ghost start = s@;
    while k < width
        invariant
            count <= k,
            k <= width || k == count,
            s@ == start + zeros(k - count),
        decreases width - k,
    {
        push_char(s, '0');
        assert(s@ =~= start + zeros(k + 1 - count));
        k = k + 1;
    }
    push_decimal(s, n);
    assert(s@ =~= start + padded(n as nat, width as int));
}

/// The character of each digit is that digit: `digit_char(k)` is a decimal
/// digit character whose value is `k`.
pub proof fn lemma_digit_char_value(k: int)
    requires
        0 <= k < 10,
    ensures
        is_digit_char(digit_char(k)),
        digit_value(digit_char(k)) == k,
{
    assert('0' as int == 48);
    assert('9' as int == 57);
    if k == 0 {
    } else if k == 1 {
        assert('1' as int == 49);
    } else if k == 2 {
        assert('2' as int == 50);
    } else if k == 3 {
        assert('3' as int == 51);
    } else if k == 4 {
        assert('4' as int == 52);
    } else if k == 5 {
        assert('5' as int == 53);
    } else if k == 6 {
        assert('6' as int == 54);
    } else if k == 7 {
        assert('7' as int == 55);
    } else if k == 8 {
        assert('8' as int == 56);
    } else {
    }
}

/// The decimal text of `n` denotes `n`: it is made of decimal digits, and
/// read as a decimal number it gives `n` back.
pub proof fn lemma_decimal_denotes(n: nat)
    ensures
        all_digits(decimal(n)),
        digits_value(decimal(n)) == n,
    decreases n,
{
    if n < 10 {
        lemma_digit_char_value(n as int);
        let s = decimal(n);
        assert(s.drop_last() =~= Seq::<char>::empty());
        assert(digits_value(Seq::<char>::empty()) == 0);
        assert(digits_value(s) == digits_value(s.drop_last()) * 10 + digit_value(s.last()));
    } else {
        lemma_decimal_denotes(n / 10);
        lemma_digit_char_value((n % 10) as int);
        let s = decimal(n / 10);
        assert(decimal(n).drop_last() =~= s);
        assert(decimal(n).last() == digit_char((n % 10) as int));
        assert(all_digits(decimal(n))) by {
            assert forall|i: int| 0 <= i < decimal(n).len() implies is_digit_char(#[trigger] decimal(n)[i]) by {
                if i < s.len() {
                    assert(decimal(n)[i] == s[i]);
                }
            }
        }
        assert(digits_value(decimal(n)) == digits_value(s) * 10 + digit_value(digit_char((n % 10) as int)));
        assert(n == (n / 10) * 10 + n % 10);
    }
}

/// Zeros in front do not change the value of a decimal text.
proof fn lemma_zeros_in_front(k: int, s: Seq<char>)
    ensures
        digits_value(zeros(k) + s) == digits_value(s),
    decreases s.len(), if k > 0 { k } else { 0 },
{
    if s.len() == 0 {
        assert(zeros(k) + s =~= zeros(k));
        if k > 0 {
            assert(zeros(k).drop_last() =~= zeros(k - 1));
            lemma_zeros_in_front(k - 1, s);
            assert(zeros(k - 1) + s =~= zeros(k - 1));
            assert('0' as int == 48);
        }
    } else {
        assert((zeros(k) + s).drop_last() =~= zeros(k) + s.drop_last());
        lemma_zeros_in_front(k, s.drop_last());
    }
}

/// The zero-padded text of `n` denotes `n`: it is made of decimal digits,
/// has `width` characters (or as many as `n` needs), and read as a decimal
/// number it gives `n` back.
pub proof fn lemma_padded_denotes(n: nat, width: int)
    ensures
        all_digits(padded(n, width)),
        digits_value(padded(n, width)) == n,
        padded(n, width).len() == (if width > decimal(n).len() {
            width
        } else {
            decimal(n).len() as int
        }),
{
    lemma_decimal_denotes(n);
    lemma_zeros_in_front(width - decimal(n).len(), decimal(n));
    let z = zeros(width - decimal(n).len());
    assert('0' as int == 48);
    assert forall|i: int| 0 <= i < padded(n, width).len() implies is_digit_char(#[trigger] padded(n, width)[i]) by {
        if i >= z.len() {
            assert(padded(n, width)[i] == decimal(n)[i - z.len()]);
        }
    }
}

} // verus!
