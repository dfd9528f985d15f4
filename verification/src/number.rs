//! Whole numbers and the text that writes them in base ten.
use vstd::prelude::*;

verus! {

/// Whether `c` is one of the ten decimal digits.
pub open spec fn is_digit(c: char) -> bool {
    '0' <= c && c <= '9'
}

/// The number that a decimal digit stands for.
pub open spec fn digit_value(c: char) -> nat {
    (c as nat - '0' as nat) as nat
}

/// The decimal digit that stands for `n`.
pub open spec fn digit(n: nat) -> char {
    ('0' as nat + n) as char
}

/// Whether `s` is made of decimal digits only.
pub open spec fn all_digits(s: Seq<char>) -> bool {
    forall|i: int| 0 <= i < s.len() ==> is_digit(#[trigger] s[i])
}

/// The number that the digits `s` write in base ten.
pub open spec fn value(s: Seq<char>) -> nat
    decreases s.len(),
{
    if s.len() == 0 {
        0
    } else {
        10 * value(s.drop_last()) + digit_value(s.last())
    }
}

/// The digits of a number as it may be given, behind the plus sign that may precede them.
pub open spec fn unsigned(s: Seq<char>) -> Seq<char> {
    if s.len() > 0 && s[0] == '+' {
        s.skip(1)
    } else {
        s
    }
}

/// The number of 64 bits that `s` writes: digits, at least one, behind an optional plus sign.
pub open spec fn number(s: Seq<char>) -> Option<u64> {
    let t = unsigned(s);
    if t.len() > 0 && all_digits(t) && value(t) <= u64::MAX {
        Some(value(t) as u64)
    } else {
        None
    }
}

/// The number of 64 bits that `s` writes, or `other` where it writes none.
pub open spec fn number_or(s: Seq<char>, other: u64) -> u64 {
    match number(s) {
        Some(n) => n,
        None => other,
    }
}

/// Further digits never make a number smaller.
proof fn lemma_value_prefix(s: Seq<char>, n: int)
    requires
        0 <= n <= s.len(),
    ensures
        value(s.take(n)) <= value(s),
    decreases s.len(),
{
    if n < s.len() {
        lemma_value_prefix(s.drop_last(), n);
        assert(s.drop_last().take(n) =~= s.take(n));
    } else {
        assert(s.take(n) =~= s);
    }
}

/// Reads the number of 64 bits that `s` writes.
pub fn parse_number(s: &[char]) -> (r: Option<u64>)
    ensures
        r == number(s@),
{
    let start: usize = if s.len() > 0 && s[0] == '+' { 1 } else { 0 };
    let ghost t = unsigned(s@);
    assert(t =~= s@.skip(start as int));
    if start >= s.len() {
        return None;
    }
    let mut n: u64 = 0;
    for i in start..s.len()
        invariant
            start <= i <= s@.len(),
            t == s@.skip(start as int),
            t == unsigned(s@),
            all_digits(t.take(i - start)),
            n == value(t.take(i - start)),
    {
        let c: char = s[i];
        let ghost k = i - start;
        assert(t[k] == c);
        if c < '0' || '9' < c {
            return None;
        }
        let d: u64 = (c as u32 - '0' as u32) as u64;
        let ghost longer = t.take(k + 1);
        assert(longer.drop_last() =~= t.take(k));
        assert(longer.last() == c);
        assert(value(longer) == 10 * value(t.take(k)) + d);
        proof {
            lemma_value_prefix(t, k + 1);
        }
        match n.checked_mul(10) {
            Some(m) => match m.checked_add(d) {
                Some(sum) => {
                    n = sum;
                },
                None => {
                    return None;
                },
            },
            None => {
                return None;
            },
        }
        assert forall|j: int| 0 <= j < longer.len() implies is_digit(#[trigger] longer[j]) by {
            if j < k {
                assert(longer[j] == t.take(k)[j]);
            }
        }
    }
    assert(t.take(s@.len() - start) =~= t);
    Some(n)
}

/// Reads the number of 64 bits that `s` writes, or gives `other` where it writes none.
pub fn parse_number_or(s: &[char], other: u64) -> (r: u64)
    ensures
        r == number_or(s@, other),
{
    match parse_number(s) {
        Some(n) => n,
        None => other,
    }
}

/// `n` written in base ten, without leading zeros.
pub open spec fn decimal(n: nat) -> Seq<char>
    decreases n,
{
    if n < 10 {
        seq![digit(n)]
    } else {
        decimal(n / 10).push(digit(n % 10))
    }
}

/// The decimal digit that stands for `n`.
pub fn digit_char(n: u8) -> (r: char)
    requires
        n < 10,
    ensures
        r == digit(n as nat),
        is_digit(r),
        digit_value(r) == n,
{
    (48u8 + n) as char
}

/// Writes `n` in base ten behind what `out` holds.
pub fn push_decimal(out: &mut String, n: u128)
    ensures
        final(out)@ == old(out)@ + decimal(n as nat),
    decreases n,
{
    if n >= 10 {
        push_decimal(out, n / 10);
    }
    out.push(digit_char((n % 10) as u8));
    assert(out@ =~= old(out)@ + decimal(n as nat));
}

/// Reading what was written gives the number back: the text that writes `n` is made of
/// digits, begins with no plus sign, and has the value `n`.
pub proof fn law_decimal_reads_back(n: u64)
    ensures
        number(decimal(n as nat)) == Some(n),
{
    lemma_decimal(n as nat);
}

/// The text that writes `n` is made of digits and has the value `n`.
pub proof fn lemma_decimal(n: nat)
    ensures
        decimal(n).len() > 0,
        all_digits(decimal(n)),
        value(decimal(n)) == n,
    decreases n,
{
    let s = decimal(n);
    reveal_with_fuel(value, 2);
    if n >= 10 {
        lemma_decimal(n / 10);
        assert(s.drop_last() =~= decimal(n / 10));
    } else {
        assert(s.drop_last() =~= Seq::empty());
    }
    assert(s.last() == digit(n % 10));
    assert(digit_value(digit(n % 10)) == n % 10);
    assert forall|i: int| 0 <= i < s.len() implies is_digit(#[trigger] s[i]) by {
        if i < s.len() - 1 {
            assert(s[i] == decimal(n / 10)[i]);
        }
    }
}

/// `n` written in base ten with two digits at least.
pub open spec fn two_digits(n: nat) -> Seq<char> {
    if n < 10 {
        seq!['0'] + decimal(n)
    } else {
        decimal(n)
    }
}

/// Writes `n` in base ten, with two digits at least, behind what `out` holds.
pub fn push_two_digits(out: &mut String, n: u64)
    ensures
        final(out)@ == old(out)@ + two_digits(n as nat),
{
    if n < 10 {
        out.push('0');
    }
    push_decimal(out, n as u128);
    assert(out@ =~= old(out)@ + two_digits(n as nat));
}

/// A number of tenths written with one digit behind the point.
pub open spec fn one_decimal(tenths: nat) -> Seq<char> {
    decimal(tenths / 10) + seq!['.', digit(tenths % 10)]
}

/// Writes a number of tenths, with one digit behind the point, behind what `out` holds.
pub fn push_one_decimal(out: &mut String, tenths: u128)
    ensures
        final(out)@ == old(out)@ + one_decimal(tenths as nat),
{
    push_decimal(out, tenths / 10);
    out.push('.');
    out.push(digit_char((tenths % 10) as u8));
    assert(out@ =~= old(out)@ + one_decimal(tenths as nat));
}

} // verus!
