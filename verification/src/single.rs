//! Binary numbers of single precision, with their signs, infinities and values that are no
//! numbers.
use vstd::arithmetic::power2::{
    lemma2_to64, lemma2_to64_rest, lemma_pow2_adds, lemma_pow2_pos, lemma_pow2_strictly_increases,
    lemma_pow2_unfold, pow2,
};
use vstd::prelude::*;

use crate::binary::{
    bits, count_bits, lemma_bits, lemma_bits_is, lemma_nearest_bounds, lemma_nearest_near, nearest,
    power, push_tenths, round_quotient, tenths, Double, SINGLE_END, SINGLE_MIN,
};
use crate::number::one_decimal;

verus! {

/// A value of single precision.
#[derive(Clone, Copy, Debug, PartialEq, Eq, Structural)]
pub enum Single {
    /// `mant` times two to the power `exp`, below zero where `negative` holds.
    Finite { negative: bool, mant: u64, exp: i32 },
    /// Infinity, below zero where `negative` holds.
    Infinite { negative: bool },
    /// The result of an operation that has none.
    NotANumber,
}

/// What stands before the digits: a minus sign below zero, and else nothing.
pub open spec fn minus(negative: bool) -> Seq<char> {
    if negative {
        "-"@
    } else {
        Seq::empty()
    }
}

impl Single {
    /// Whether a finite value is one that single precision has.
    pub open spec fn wf(self) -> bool {
        match self {
            Single::Finite { mant, exp, .. } => {
                &&& -149 <= exp <= 104
                &&& mant < SINGLE_END
                &&& mant >= SINGLE_MIN || exp == -149 || mant == 0
            },
            _ => true,
        }
    }

    /// The value with one digit behind the point.
    pub open spec fn text(self) -> Seq<char> {
        match self {
            Single::Finite { negative, mant, exp } => minus(negative) + one_decimal(
                tenths(mant as nat, exp as int),
            ),
            Single::Infinite { negative } => minus(negative) + "inf"@,
            Single::NotANumber => "NaN"@,
        }
    }

    /// Writes the value with one digit behind the point behind what `out` holds.
    pub fn push_text(self, out: &mut String)
        requires
            self.wf(),
        ensures
            final(out)@ == old(out)@ + self.text(),
    {
        match self {
            Single::Finite { negative, mant, exp } => {
                if negative {
                    out.append("-");
                }
                push_tenths(out, mant, exp);
            },
            Single::Infinite { negative } => {
                if negative {
                    out.append("-");
                }
                out.append("inf");
            },
            Single::NotANumber => {
                out.append("NaN");
            },
        }
        assert(out@ =~= old(out)@ + self.text());
    }
}

/// The value with the sign `negative`, the significand `q`, which rounding may have brought
/// to `SINGLE_END`, and the exponent `e`.
pub open spec fn finite(negative: bool, q: nat, e: int) -> Single {
    if q == SINGLE_END {
        Single::Finite { negative, mant: SINGLE_MIN, exp: (e + 1) as i32 }
    } else {
        Single::Finite { negative, mant: q as u64, exp: e as i32 }
    }
}

/// The value of single precision nearest to one of double precision.
pub open spec fn single_of(x: Double) -> Single {
    if x.mant == 0 {
        Single::Finite { negative: false, mant: 0, exp: 0 }
    } else {
        finite(false, nearest(x.mant as nat, 0x2000_0000), x.exp + 29)
    }
}

/// The significand `q` and the exponent `e` as a value with the sign `negative`.
fn make_finite(negative: bool, q: u128, e: i32) -> (r: Single)
    requires
        SINGLE_MIN <= q <= SINGLE_END,
        -149 <= e <= 103,
    ensures
        r == finite(negative, q as nat, e as int),
        r.wf(),
{
    if q == SINGLE_END as u128 {
        Single::Finite { negative, mant: SINGLE_MIN, exp: e + 1 }
    } else {
        Single::Finite { negative, mant: q as u64, exp: e }
    }
}

/// The value of single precision nearest to one of double precision.
pub fn to_single(x: Double) -> (r: Single)
    requires
        x.wf(),
        x.exp >= -178,
    ensures
        r == single_of(x),
        r.wf(),
{
    if x.mant == 0 {
        Single::Finite { negative: false, mant: 0, exp: 0 }
    } else {
        proof {
            lemma_nearest_bounds(x.mant as nat, 0x2000_0000, SINGLE_MIN as nat);
            lemma_nearest_bounds(x.mant as nat, 0x2000_0000, SINGLE_END as nat);
        }
        make_finite(false, round_quotient(x.mant as u128, 0x2000_0000), x.exp + 29)
    }
}

/// The value whose pattern of 32 bits is `pattern`: a sign, eight bits of exponent and 23
/// bits of fraction.
pub open spec fn of_pattern(pattern: u32) -> Single {
    let negative = pattern >= 0x8000_0000;
    let field = (pattern as int / 0x80_0000) % 256;
    let fraction = pattern as int % 0x80_0000;
    if field == 255 {
        if fraction == 0 {
            Single::Infinite { negative }
        } else {
            Single::NotANumber
        }
    } else if field == 0 {
        Single::Finite { negative, mant: fraction as u64, exp: (-149) as i32 }
    } else {
        Single::Finite { negative, mant: (SINGLE_MIN + fraction) as u64, exp: (field - 150) as i32 }
    }
}

/// Reads the value whose pattern of 32 bits is `pattern`.
pub fn from_pattern(pattern: u32) -> (r: Single)
    ensures
        r == of_pattern(pattern),
        r.wf(),
{
    let negative: bool = pattern >= 0x8000_0000;
    let field: i32 = ((pattern / 0x80_0000) % 256) as i32;
    let fraction: u64 = (pattern % 0x80_0000) as u64;
    if field == 255 {
        if fraction == 0 {
            Single::Infinite { negative }
        } else {
            Single::NotANumber
        }
    } else if field == 0 {
        Single::Finite { negative, mant: fraction, exp: -149 }
    } else {
        Single::Finite { negative, mant: SINGLE_MIN + fraction, exp: field - 150 }
    }
}

/// The value of single precision nearest to `n` times two to the power `e`, with the sign
/// `negative`, where `n` is not zero.
pub open spec fn single_near(negative: bool, n: nat, e: int) -> Single {
    let b = bits(n);
    if b <= 24 {
        finite(negative, n * pow2((24 - b) as nat), e + b - 24)
    } else {
        finite(negative, nearest(n, pow2((b - 24) as nat)), e + b - 24)
    }
}

/// A hundred less the value `x`, in single precision.
pub open spec fn hundred_less(x: Single) -> Single {
    match x {
        Single::Finite { negative, mant, exp } => {
            let e = if exp < 0 {
                exp as int
            } else {
                0
            };
            let n = if negative {
                100 * pow2((-e) as nat) + mant * pow2((exp - e) as nat)
            } else {
                100 * pow2((-e) as nat) - mant * pow2((exp - e) as nat)
            };
            if n == 0 {
                Single::Finite { negative: false, mant: 0, exp: 0 }
            } else if n > 0 {
                single_near(false, n as nat, e)
            } else {
                single_near(true, (-n) as nat, e)
            }
        },
        Single::Infinite { negative } => Single::Infinite { negative: !negative },
        Single::NotANumber => Single::NotANumber,
    }
}

/// The significand that a number rounds to lies in the range of significands.
proof fn lemma_near_range(n: nat)
    requires
        n > 0,
    ensures
        bits(n) > 0,
        bits(n) <= 24 ==> SINGLE_MIN <= n * pow2((24 - bits(n)) as nat) < SINGLE_END,
        bits(n) > 24 ==> SINGLE_MIN <= nearest(n, pow2((bits(n) - 24) as nat)) <= SINGLE_END,
{
    let b = bits(n);
    lemma_bits(n);
    lemma2_to64();
    if b <= 24 {
        let k = (24 - b) as nat;
        lemma_pow2_adds((b - 1) as nat, k);
        lemma_pow2_adds(b, k);
        lemma_pow2_pos(k);
        assert(pow2((b - 1) as nat) * pow2(k) <= n * pow2(k) < pow2(b) * pow2(k))
            by (nonlinear_arith)
            requires
                pow2((b - 1) as nat) <= n < pow2(b),
                pow2(k) > 0,
        ;
    } else {
        let k = (b - 24) as nat;
        lemma_pow2_adds(23, k);
        lemma_pow2_adds(24, k);
        lemma_pow2_pos(k);
        lemma_nearest_bounds(n, pow2(k), SINGLE_MIN as nat);
        lemma_nearest_bounds(n, pow2(k), SINGLE_END as nat);
    }
}

/// The value of single precision nearest to `n` times two to the power `e`.
fn near(negative: bool, n: u128, e: i32) -> (r: Single)
    requires
        0 < n < 0x1_0000_0000_0000_0000_0000,
        -60 <= e <= 0,
    ensures
        r == single_near(negative, n as nat, e as int),
        r.wf(),
{
    let b: u32 = count_bits(n);
    proof {
        lemma_near_range(n as nat);
        lemma_bits(n as nat);
        lemma2_to64();
        lemma2_to64_rest();
        lemma_pow2_adds(64, 16);
        if b > 81 {
            lemma_pow2_strictly_increases(80, (b - 1) as nat);
        }
    }
    if b <= 24 {
        let p: u128 = power(24 - b);
        make_finite(negative, n * p, e + b as i32 - 24)
    } else {
        make_finite(negative, round_quotient(n, power(b - 24)), e + b as i32 - 24)
    }
}

/// Far below a hundred in size, a value changes nothing.
proof fn lemma_hundred_less_tiny(x: Single)
    requires
        x.wf(),
        x matches Single::Finite { exp, .. } && exp < -60,
    ensures
        hundred_less(x) == (Single::Finite { negative: false, mant: 13_107_200, exp: (-17) as i32 }),
{
    if let Single::Finite { negative, mant, exp } = x {
        let t = (-exp) as nat;
        lemma2_to64();
        lemma_pow2_adds(17, (t - 17) as nat);
        lemma_pow2_adds(6, t);
        lemma_pow2_adds(7, t);
        lemma_pow2_strictly_increases(26, (t - 17) as nat);
        let d = pow2((t - 17) as nat);
        let n = if negative {
            100 * pow2(t) + mant
        } else {
            100 * pow2(t) - mant
        };
        assert(mant * pow2(0) == mant);
        lemma_bits_is(n as nat, t + 7);
        lemma_nearest_near(n as nat, d, 13_107_200);
    }
}

/// Far above a hundred in size, a value only changes its sign.
proof fn lemma_hundred_less_huge(x: Single)
    requires
        x.wf(),
        x matches Single::Finite { exp, .. } && exp > 40,
    ensures
        x matches Single::Finite { negative, mant, exp } && (mant > 0 ==> hundred_less(x)
            == (Single::Finite { negative: !negative, mant, exp })),
{
    if let Single::Finite { negative, mant, exp } = x {
        if mant > 0 {
            let k = exp as nat;
            lemma2_to64();
            lemma_pow2_adds(23, k);
            lemma_pow2_adds(24, k);
            lemma_pow2_adds(22, k);
            lemma_pow2_unfold(k);
            lemma_pow2_strictly_increases(20, (k - 1) as nat);
            let d = pow2(k);
            assert(100 * pow2(0) == 100);
            assert(SINGLE_MIN * d <= mant * d <= (SINGLE_END - 1) * d) by (nonlinear_arith)
                requires
                    SINGLE_MIN <= mant <= SINGLE_END - 1,
                    d > 0,
            ;
            assert((SINGLE_END - 1) * d == SINGLE_END * d - d) by (nonlinear_arith);
            if negative {
                let n = (100 + mant * d) as nat;
                lemma_bits_is(n, k + 24);
                lemma_nearest_near(n, d, mant as nat);
            } else {
                let n = (mant * d - 100) as nat;
                if mant > SINGLE_MIN {
                    assert(mant * d >= SINGLE_MIN * d + d) by (nonlinear_arith)
                        requires
                            mant >= SINGLE_MIN + 1,
                            d > 0,
                    ;
                    lemma_bits_is(n, k + 24);
                    lemma_nearest_near(n, d, mant as nat);
                } else {
                    let half = pow2((k - 1) as nat);
                    lemma_bits_is(n, k + 23);
                    lemma_nearest_near(n, half, SINGLE_END as nat);
                }
            }
        }
    }
}

/// Takes the value `x` from a hundred, in single precision.
pub fn take_from_hundred(x: Single) -> (r: Single)
    requires
        x.wf(),
    ensures
        r == hundred_less(x),
        r.wf(),
{
    match x {
        Single::Finite { negative, mant, exp } => {
            if exp < -60 {
                proof {
                    lemma_hundred_less_tiny(x);
                }
                Single::Finite { negative: false, mant: 13_107_200, exp: -17 }
            } else if exp > 40 && mant > 0 {
                proof {
                    lemma_hundred_less_huge(x);
                }
                Single::Finite { negative: !negative, mant, exp }
            } else {
                let up: u32 = if mant == 0 || exp < 0 { 0 } else { exp as u32 };
                let down: u32 = if exp < 0 { (-exp) as u32 } else { 0 };
                let p: u128 = power(up);
                let q: u128 = power(down);
                proof {
                    lemma2_to64();
                    lemma2_to64_rest();
                    if up < 40 {
                        lemma_pow2_strictly_increases(up as nat, 40);
                    }
                    if down < 60 {
                        lemma_pow2_strictly_increases(down as nat, 60);
                    }
                }
                assert(0 <= mant * p <= 0x100_0000 * 0x100_0000_0000) by (nonlinear_arith)
                    requires
                        0 <= mant <= 0x100_0000,
                        0 <= p <= 0x100_0000_0000,
                ;
                let hundred: u128 = 100 * q;
                let other: u128 = mant as u128 * p;
                proof {
                    let e = if exp < 0 {
                        exp as int
                    } else {
                        0
                    };
                    let shift = pow2((exp - e) as nat);
                    assert(mant * shift == other) by (nonlinear_arith)
                        requires
                            mant == 0 || shift == p,
                            other == mant * p,
                    ;
                }
                if negative {
                    near(false, hundred + other, -(down as i32))
                } else if hundred == other {
                    Single::Finite { negative: false, mant: 0, exp: 0 }
                } else if hundred > other {
                    near(false, hundred - other, -(down as i32))
                } else {
                    near(true, other - hundred, -(down as i32))
                }
            }
        },
        Single::Infinite { negative } => Single::Infinite { negative: !negative },
        Single::NotANumber => Single::NotANumber,
    }
}

} // verus!
