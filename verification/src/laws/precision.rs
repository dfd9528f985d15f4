//! How near the rounded values lie to the exact ones.
use vstd::arithmetic::power2::{lemma2_to64, lemma_pow2_adds, lemma_pow2_pos, pow2};
use vstd::prelude::*;

use crate::binary::{
    abs, bits, double_of, law_nearest, lemma_bits, lemma_nearest_bounds, lemma_significand, nearest,
    tenths, units, Double, DOUBLE_END, SINGLE_END, SINGLE_MIN,
};
use crate::number::one_decimal;
use crate::single::{single_of, Single};

verus! {

/// A value shown in tenths is shown as the nearest tenth: no number of tenths lies nearer to it.
/// Whole values are shown exactly.
pub proof fn law_tenths_are_nearest(mant: nat, exp: int, m: nat)
    ensures
        exp >= 0 ==> tenths(mant, exp) == 10 * mant * pow2(exp as nat),
        exp < 0 ==> abs(tenths(mant, exp) * pow2((-exp) as nat) - 10 * mant) <= abs(
            m * pow2((-exp) as nat) - 10 * mant,
        ),
{
    if exp >= 0 {
        assert(10 * (mant * pow2(exp as nat)) == 10 * mant * pow2(exp as nat)) by (nonlinear_arith);
    } else {
        lemma_pow2_pos((-exp) as nat);
        law_nearest(mant * 10, pow2((-exp) as nat), m);
    }
}

/// A value is rounded to the whole number that lies nearest, and up where two lie equally near:
/// it lies less than a half above the value and no more than a half below it.
pub proof fn law_rounded_is_nearest(x: Double)
    ensures
        x.exp >= 0 ==> x.rounded() == x.mant * pow2(x.exp as nat),
        x.exp < 0 ==> ({
            let d = pow2((-x.exp) as nat);
            2 * x.rounded() * d - d <= 2 * x.mant < 2 * x.rounded() * d + d
        }),
{
    if x.exp < 0 {
        let d = pow2((-x.exp) as nat);
        lemma_pow2_pos((-x.exp) as nat);
        let n = 2 * x.mant as nat + d;
        let q = x.rounded();
        vstd::arithmetic::div_mod::lemma_fundamental_div_mod(n as int, (2 * d) as int);
        assert(2 * q * d - d <= 2 * x.mant && 2 * x.mant < 2 * q * d + d) by (nonlinear_arith)
            requires
                n == (2 * d) * q + n % (2 * d),
                0 <= n % (2 * d) < 2 * d,
                n == 2 * x.mant + d,
                d > 0,
        ;
    }
}

/// A whole number below 2 to the power 53 is held exactly.
pub proof fn law_whole_is_exact(n: nat)
    requires
        n < DOUBLE_END,
    ensures
        units(double_of(n)) == n * pow2(3000),
        double_of(n).normal(),
        n > 0 ==> -52 <= double_of(n).exp <= 0,
{
    if n == 0 {
        assert(0 * pow2(3000) == 0);
        assert(units(double_of(n)) == 0) by (nonlinear_arith)
            requires
                units(double_of(n)) == 0 * pow2((0 + 3000) as nat),
        ;
    } else {
        let b = bits(n);
        lemma_significand(n);
        lemma_bits(n);
        lemma2_to64();
        vstd::arithmetic::power2::lemma2_to64_rest();
        if b > 53 {
            if b > 54 {
                vstd::arithmetic::power2::lemma_pow2_strictly_increases(53, (b - 1) as nat);
            }
        }
        let k = (53 - b) as nat;
        let m = n * pow2(k);
        let p = pow2((b - 53 + 3000) as nat);
        lemma_pow2_adds(k, (b - 53 + 3000) as nat);
        assert(m * p == n * (pow2(k) * p)) by (nonlinear_arith)
            requires
                m == n * pow2(k),
        ;
    }
}

/// A value of single precision lies no more than half a unit in its last place from the value of
/// double precision that it was made of.
pub proof fn law_single_is_near(x: Double)
    requires
        x.wf(),
        x.exp >= -178,
    ensures
        x.mant == 0 ==> single_of(x) == (Single::Finite { negative: false, mant: 0, exp: 0 }),
        x.mant > 0 ==> (single_of(x) matches Single::Finite { negative, mant, exp } && !negative
            && 29 <= exp - x.exp <= 30 && 2 * abs(mant * pow2((exp - x.exp) as nat) - x.mant)
            <= pow2(29)),
{
    if x.mant > 0 {
        lemma2_to64();
        lemma_within_half(x.mant as nat, 0x2000_0000);
        lemma_nearest_bounds(x.mant as nat, 0x2000_0000, SINGLE_END as nat);
        let q = nearest(x.mant as nat, 0x2000_0000);
        let p29 = pow2(29);
        let p30 = pow2(30);
        if q == SINGLE_END {
            assert(SINGLE_MIN * p30 == q * 0x2000_0000) by (nonlinear_arith)
                requires
                    p30 == 0x4000_0000,
                    q == SINGLE_MIN * 2,
            ;
            assert(single_of(x)->Finite_exp - x.exp == 30);
        } else {
            assert(q * p29 == q * 0x2000_0000) by (nonlinear_arith)
                requires
                    p29 == 0x2000_0000,
            ;
            assert(single_of(x)->Finite_exp - x.exp == 29);
        }
    }
}

/// Rounding moves a quotient by no more than a half.
proof fn lemma_within_half(n: nat, d: nat)
    requires
        d > 0,
    ensures
        2 * abs(nearest(n, d) * d - n) <= d,
{
    let q = n / d;
    let r = n % d;
    vstd::arithmetic::div_mod::lemma_fundamental_div_mod(n as int, d as int);
    assert(q * d == d * q && (q + 1) * d == d * q + d) by (nonlinear_arith);
}

/// A value is written with one decimal, behind a minus sign below zero; infinities and values
/// that are no numbers are written as words.
pub proof fn law_single_text(mant: u64, exp: i32)
    ensures
        (Single::Finite { negative: false, mant, exp }).text() == one_decimal(
            tenths(mant as nat, exp as int),
        ),
        (Single::Finite { negative: true, mant, exp }).text() == "-"@ + one_decimal(
            tenths(mant as nat, exp as int),
        ),
        (Single::Infinite { negative: false }).text() == "inf"@,
        (Single::Infinite { negative: true }).text() == "-"@ + "inf"@,
        Single::NotANumber.text() == "NaN"@,
{
    let none = Seq::<char>::empty();
    let digits = one_decimal(tenths(mant as nat, exp as int));
    assert(none + digits =~= digits);
    assert(none + "inf"@ =~= "inf"@);
}

} // verus!
