//! What reading numbers gives back of numbers that were written.
use vstd::prelude::*;

use crate::number::{
    all_digits, decimal, digit, digit_value, is_digit, lemma_decimal, number, one_decimal,
    two_digits, unsigned, value,
};
use crate::text::{is_white, is_word};

verus! {

/// `k` zeros.
pub open spec fn zeros(k: nat) -> Seq<char> {
    Seq::new(k, |i: int| '0')
}

/// Zeros before digits do not change their value.
proof fn lemma_value_of_zeros(k: nat, s: Seq<char>)
    ensures
        value(zeros(k) + s) == value(s),
    decreases k + s.len(),
{
    let t = zeros(k) + s;
    if s.len() > 0 {
        assert(t.drop_last() =~= zeros(k) + s.drop_last());
        lemma_value_of_zeros(k, s.drop_last());
    } else if k > 0 {
        assert(t.drop_last() =~= zeros((k - 1) as nat) + s);
        lemma_value_of_zeros((k - 1) as nat, s);
        assert(t.last() == '0');
    } else {
        assert(t =~= s);
    }
}

/// A number that is written in decimal digits, with zeros before it or a plus sign or both, is
/// read back, if it fits in 64 bits; and else nothing is.
pub proof fn law_number_of_digits(k: nat, n: nat)
    ensures
        number(zeros(k) + decimal(n)) == if n <= u64::MAX {
            Some(n as u64)
        } else {
            None
        },
        number(seq!['+'] + zeros(k) + decimal(n)) == if n <= u64::MAX {
            Some(n as u64)
        } else {
            None
        },
{
    let s = zeros(k) + decimal(n);
    lemma_decimal(n);
    lemma_value_of_zeros(k, decimal(n));
    assert forall|i: int| 0 <= i < s.len() implies is_digit(#[trigger] s[i]) by {
        if i >= k {
            assert(s[i] == decimal(n)[i - k]);
        }
    }
    assert(is_digit(s[0]));
    assert(unsigned(s) == s);
    let t = seq!['+'] + zeros(k) + decimal(n);
    assert(unsigned(t) =~= s);
}

/// Text with a character that is no digit, other than a plus sign before the rest, is no number,
/// nor is text without digits.
pub proof fn law_no_number(s: Seq<char>, i: int)
    requires
        0 <= i < s.len(),
        !is_digit(s[i]),
        i > 0 || s[0] != '+',
    ensures
        number(s) is None,
        number(Seq::empty()) is None,
        number(seq!['+']) is None,
{
    if s[0] == '+' {
        assert(unsigned(s)[i - 1] == s[i]);
    }
    assert(unsigned(seq!['+']).len() == 0);
}

/// A number is written in decimal digits, with a zero first only for zero itself, and these
/// digits have its value.
pub proof fn law_decimal_form(n: nat)
    ensures
        decimal(n).len() > 0,
        all_digits(decimal(n)),
        value(decimal(n)) == n,
        decimal(n)[0] == '0' ==> n == 0 && decimal(n).len() == 1,
        is_word(decimal(n)),
    decreases n,
{
    lemma_decimal(n);
    assert forall|i: int| 0 <= i < decimal(n).len() implies !is_white(#[trigger] decimal(n)[i]) by {
        assert(is_digit(decimal(n)[i]));
    }
    if n >= 10 {
        law_decimal_form(n / 10);
        assert(decimal(n)[0] == decimal(n / 10)[0]);
    }
}

/// The value of digits goes by their places: behind `a`, each digit of `b` moves those of `a`
/// one place up.
pub proof fn law_value_by_places(a: Seq<char>, d: nat)
    requires
        d < 10,
    ensures
        value(a.push(digit(d))) == 10 * value(a) + d,
        is_digit(digit(d)),
{
    assert(a.push(digit(d)).drop_last() =~= a);
    assert(digit_value(digit(d)) == d);
}

/// A number of tenths is written with a point before its last digit, and with a digit at least
/// before the point; its digits have its value.
pub proof fn law_one_decimal_form(tenths: nat)
    ensures
        ({
            let s = one_decimal(tenths);
            let n = s.len() as int;
            &&& n >= 3
            &&& s[n - 2] == '.'
            &&& all_digits(s.take(n - 2) + s.skip(n - 1))
            &&& value(s.take(n - 2) + s.skip(n - 1)) == tenths
            &&& s[0] == '0' ==> n == 3
        }),
{
    let s = one_decimal(tenths);
    let whole = decimal(tenths / 10);
    let last = digit(tenths % 10);
    let n = s.len() as int;
    law_decimal_form(tenths / 10);
    law_value_by_places(whole, tenths % 10);
    let digits = s.take(n - 2) + s.skip(n - 1);
    assert(digits =~= whole.push(last));
    assert forall|i: int| 0 <= i < digits.len() implies is_digit(#[trigger] digits[i]) by {
        if i < whole.len() {
            assert(digits[i] == whole[i]);
        }
    }
    assert(s[0] == whole[0]);
}

/// A number below a hundred is written with two digits that have its value.
pub proof fn law_two_digits_form(n: nat)
    requires
        n < 100,
    ensures
        two_digits(n).len() == 2,
        all_digits(two_digits(n)),
        value(two_digits(n)) == n,
{
    law_decimal_form(n);
    reveal_with_fuel(decimal, 2);
    if n < 10 {
        lemma_value_of_zeros(1, decimal(n));
        assert(zeros(1) =~= seq!['0']);
    }
}

} // verus!
