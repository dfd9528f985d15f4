//! Shares of a whole, in percent, and the cells of a bar that they fill.
use vstd::arithmetic::power2::{
    lemma2_to64, lemma2_to64_rest, lemma_pow2_adds, lemma_pow2_pos, lemma_pow2_strictly_increases,
    pow2,
};
use vstd::prelude::*;

use crate::binary::{
    divide, from_whole, lemma_bits, lemma_bits_is, lemma_nearest_bounds, lemma_nearest_exact,
    lemma_nearest_monotone, lemma_product_range, lemma_quotient_range, lemma_significand, multiply,
    Double, DOUBLE_END, DOUBLE_MIN,
};
use crate::binary::{bits, double_of, nearest, product, quotient, zero};

verus! {

/// The share that `part` is of `whole`, in percent, as double precision computes it; zero of
/// an empty whole.
pub open spec fn percent(part: nat, whole: nat) -> Double {
    if whole > 0 {
        product(quotient(double_of(part), double_of(whole)), double_of(100))
    } else {
        zero()
    }
}

/// Computes the share that `part` is of `whole`, in percent.
pub fn percent_of(part: u64, whole: u64) -> (r: Double)
    ensures
        r == percent(part as nat, whole as nat),
        r.wf(),
        -120 <= r.exp <= 30,
{
    if whole > 0 {
        let hundred = from_whole(100);
        proof {
            lemma_small_bits(100);
        }
        multiply(divide(from_whole(part), from_whole(whole)), hundred)
    } else {
        Double { mant: 0, exp: 0 }
    }
}

/// How many cells of a bar of `bars` cells a share fills: the share of the cells, rounded to
/// the nearest whole number, and up where two are equally near.
pub open spec fn cells(percent: Double, bars: u8) -> nat {
    product(quotient(percent, double_of(100)), double_of(bars as nat)).rounded()
}

/// Computes how many cells of a bar of `bars` cells a share fills, where they are no more
/// than the bar has.
pub fn cells_of(percent: Double, bars: u8) -> (r: Option<u8>)
    requires
        percent.wf(),
    ensures
        match r {
            Some(n) => n == cells(percent, bars) && n <= bars,
            None => cells(percent, bars) > bars,
        },
{
    let share = divide(percent, from_whole(100));
    multiply(share, from_whole(bars as u64)).rounded_within(bars)
}

/// A number below 256 has eight binary digits at most.
proof fn lemma_small_bits(n: nat)
    requires
        n < 256,
    ensures
        bits(n) <= 8,
{
    lemma_bits(n);
    lemma2_to64();
    if bits(n) > 9 {
        lemma_pow2_strictly_increases(8, (bits(n) - 1) as nat);
    }
}

/// The value of double precision that a whole number of 64 bits becomes is normal, and small.
proof fn lemma_whole(n: nat)
    requires
        n <= u64::MAX,
    ensures
        double_of(n).wf(),
        -52 <= double_of(n).exp <= 12,
        double_of(n).mant == 0 <==> n == 0,
        n > 0 ==> bits(n) - 53 <= double_of(n).exp <= bits(n) - 52,
        n > 0 && double_of(n).exp == bits(n) - 52 ==> double_of(n).mant == DOUBLE_MIN,
{
    if n > 0 {
        lemma_significand(n);
    }
}

/// Rounding to double precision keeps the order of whole numbers.
pub proof fn law_whole_order(a: nat, b: nat)
    requires
        a <= b <= u64::MAX,
    ensures
        double_of(b).at_least(double_of(a)),
{
    if a > 0 {
        lemma_whole(a);
        lemma_whole(b);
        lemma_significand(a);
        lemma_significand(b);
        lemma_bits(a);
        lemma_bits(b);
        let k = bits(a);
        let l = bits(b);
        if k > l {
            if l < k - 1 {
                lemma_pow2_strictly_increases(l, (k - 1) as nat);
            }
        } else if k == l {
            if k <= 53 {
                let p = pow2((53 - k) as nat);
                assert(a * p <= b * p) by (nonlinear_arith)
                    requires
                        a <= b,
                ;
            } else {
                lemma_pow2_pos((k - 53) as nat);
                lemma_nearest_monotone(a, b, pow2((k - 53) as nat));
            }
        }
    }
}

/// The value one.
pub open spec fn one() -> Double {
    Double { mant: DOUBLE_MIN, exp: (-52) as i32 }
}

/// A part that is no more than the whole is no more than one of it.
proof fn lemma_quotient_at_most_one(a: Double, b: Double)
    requires
        a.wf(),
        b.wf(),
        b.mant > 0,
        b.at_least(a),
    ensures
        quotient(a, b).normal(),
        a.mant > 0 ==> a.exp - b.exp - 53 <= quotient(a, b).exp <= a.exp - b.exp - 51,
        one().at_least(quotient(a, b)),
{
    if a.mant > 0 {
        lemma_quotient_range(a.mant as nat, b.mant as nat);
        if a.mant == b.mant {
            assert(a.mant as nat * DOUBLE_MIN as nat == DOUBLE_MIN as nat * b.mant as nat)
                by (nonlinear_arith)
                requires
                    a.mant == b.mant,
            ;
            lemma_nearest_exact(DOUBLE_MIN as nat, b.mant as nat);
        }
    }
}

/// A factor of one at most does not make a value greater.
proof fn lemma_product_at_most(x: Double, c: Double)
    requires
        x.normal(),
        -2000 <= x.exp,
        c.wf(),
        one().at_least(x),
    ensures
        product(x, c).normal(),
        x.mant > 0 && c.mant > 0 ==> x.exp + c.exp + 52 <= product(x, c).exp <= x.exp + c.exp + 54,
        c.at_least(product(x, c)),
{
    let n = x.mant as nat * c.mant as nat;
    if x.mant > 0 && c.mant > 0 {
        lemma_product_range(x.mant as nat, c.mant as nat);
        if x.exp == -52 {
            assert(n == c.mant as nat * DOUBLE_MIN as nat) by (nonlinear_arith)
                requires
                    n == x.mant as nat * c.mant as nat,
                    x.mant == DOUBLE_MIN,
            ;
            assert(n < DOUBLE_MIN as nat * DOUBLE_END as nat) by (nonlinear_arith)
                requires
                    n == c.mant as nat * DOUBLE_MIN as nat,
                    c.mant < DOUBLE_END,
            ;
            lemma_nearest_exact(c.mant as nat, DOUBLE_MIN as nat);
        } else {
            assert(n <= c.mant as nat * DOUBLE_END as nat) by (nonlinear_arith)
                requires
                    n == x.mant as nat * c.mant as nat,
                    x.mant < DOUBLE_END,
            ;
            lemma_nearest_bounds(n, DOUBLE_END as nat, c.mant as nat);
        }
    } else {
        assert(n == 0) by (nonlinear_arith)
            requires
                n == x.mant as nat * c.mant as nat,
                x.mant == 0 || c.mant == 0,
        ;
    }
}

/// A value that is no more than a small whole number rounds to no more than it.
proof fn lemma_rounded_at_most(x: Double, k: nat)
    requires
        x.normal(),
        -2000 <= x.exp,
        k < 256,
        double_of(k).at_least(x),
    ensures
        x.rounded() <= k,
{
    lemma2_to64();
    lemma2_to64_rest();
    if x.mant > 0 {
        lemma_whole(k);
        lemma_small_bits(k);
        lemma_significand(k);
        lemma_bits(k);
        let b = bits(k);
        let p = pow2((53 - b) as nat);
        let t = pow2((-x.exp) as nat);
        let n = 2 * x.mant as nat + t;
        lemma_pow2_pos((-x.exp) as nat);
        assert(x.exp <= b - 53);
        if x.exp == b - 53 {
            assert(n / (2 * t) <= k) by (nonlinear_arith)
                requires
                    n == 2 * x.mant as nat + t,
                    x.mant <= k * t,
                    t > 0,
            ;
        } else {
            lemma_pow2_adds((54 - b) as nat, (b - 1) as nat);
            if (-x.exp) as nat > 54 - b {
                lemma_pow2_strictly_increases((54 - b) as nat, (-x.exp) as nat);
            }
            let u = pow2((54 - b) as nat);
            let v = pow2((b - 1) as nat);
            assert(x.mant <= k * t) by (nonlinear_arith)
                requires
                    x.mant < u * v,
                    u <= t,
                    v <= k,
            ;
            assert(n / (2 * t) <= k) by (nonlinear_arith)
                requires
                    n == 2 * x.mant as nat + t,
                    x.mant <= k * t,
                    t > 0,
            ;
        }
    }
}

/// A part of a whole never exceeds a hundred percent.
pub proof fn law_share_at_most_hundred(part: nat, whole: nat)
    requires
        part <= whole <= u64::MAX,
    ensures
        double_of(100).at_least(percent(part, whole)),
{
    if whole > 0 {
        law_whole_order(part, whole);
        lemma_whole(part);
        lemma_whole(whole);
        lemma_whole(100);
        lemma_quotient_at_most_one(double_of(part), double_of(whole));
        lemma_product_at_most(quotient(double_of(part), double_of(whole)), double_of(100));
    }
}

/// The share of a part of a whole never fills more cells than a bar has.
pub proof fn law_part_fits_bar(part: nat, whole: nat, bars: u8)
    requires
        part <= whole <= u64::MAX,
    ensures
        cells(percent(part, whole), bars) <= bars,
{
    let share = percent(part, whole);
    law_share_at_most_hundred(part, whole);
    lemma_share_range(part, whole);
    lemma_share_fits(share, bars);
}

/// A share of at most a hundred percent never fills more cells than a bar has.
pub proof fn lemma_share_fits(share: Double, bars: u8)
    requires
        share.wf(),
        double_of(100).at_least(share),
    ensures
        cells(share, bars) <= bars,
{
    lemma_whole(100);
    lemma_whole(bars as nat);
    let ratio = quotient(share, double_of(100));
    lemma_quotient_at_most_one(share, double_of(100));
    lemma_product_at_most(ratio, double_of(bars as nat));
    lemma_rounded_at_most(product(ratio, double_of(bars as nat)), bars as nat);
}

/// Shares of whole numbers of 64 bits are normal, and stay in a small range.
pub proof fn lemma_share_range(part: nat, whole: nat)
    requires
        part <= whole <= u64::MAX,
    ensures
        percent(part, whole).wf(),
{
    if whole > 0 {
        law_whole_order(part, whole);
        lemma_whole(part);
        lemma_whole(whole);
        lemma_whole(100);
        lemma_small_bits(100);
        let ratio = quotient(double_of(part), double_of(whole));
        lemma_quotient_at_most_one(double_of(part), double_of(whole));
        lemma_product_at_most(ratio, double_of(100));
    }
}

/// A hundred, in double precision.
pub proof fn lemma_hundred()
    ensures
        double_of(100) == (Double { mant: 0x19_0000_0000_0000, exp: (-46) as i32 }),
{
    lemma2_to64();
    lemma2_to64_rest();
    lemma_bits_is(100, 7);
}

/// One times a value is the value.
proof fn lemma_product_one(c: Double)
    requires
        c.wf(),
    ensures
        product(one(), c) == c,
{
    let n = DOUBLE_MIN as nat * c.mant as nat;
    if c.mant > 0 {
        assert(n == c.mant as nat * DOUBLE_MIN as nat && 0 < n < DOUBLE_MIN as nat
            * DOUBLE_END as nat) by (nonlinear_arith)
            requires
                n == DOUBLE_MIN as nat * c.mant as nat,
                0 < c.mant < DOUBLE_END,
        ;
        lemma_nearest_exact(c.mant as nat, DOUBLE_MIN as nat);
    }
}

/// A value divided by itself is one.
proof fn lemma_quotient_same(a: Double)
    requires
        a.wf(),
        a.mant > 0,
    ensures
        quotient(a, a) == one(),
{
    assert(a.mant as nat * DOUBLE_MIN as nat == DOUBLE_MIN as nat * a.mant as nat)
        by (nonlinear_arith);
    lemma_nearest_exact(DOUBLE_MIN as nat, a.mant as nat);
}

/// The whole of something is exactly a hundred percent of it.
pub proof fn law_whole_is_hundred(whole: nat)
    requires
        0 < whole <= u64::MAX,
    ensures
        percent(whole, whole) == double_of(100),
{
    lemma_whole(whole);
    lemma_whole(100);
    lemma_quotient_same(double_of(whole));
    lemma_product_one(double_of(100));
}

/// Nothing is exactly zero percent.
pub proof fn law_nothing_is_zero(whole: nat)
    ensures
        percent(0, whole) == zero(),
{
    assert(zero().mant as nat * double_of(100).mant as nat == 0) by (nonlinear_arith)
        requires
            zero().mant == 0,
    ;
}

/// A hundred percent fill a bar, and zero percent leave it empty.
pub proof fn law_bar_ends(bars: u8)
    ensures
        cells(double_of(100), bars) == bars,
        cells(zero(), bars) == 0,
{
    lemma_whole(100);
    lemma_whole(bars as nat);
    lemma_quotient_same(double_of(100));
    lemma_product_one(double_of(bars as nat));
    lemma_rounded_whole(bars as nat);
    lemma2_to64();
    assert(zero().mant as nat * double_of(bars as nat).mant as nat == 0) by (nonlinear_arith)
        requires
            zero().mant == 0,
    ;
}

/// A small whole number rounds to itself.
proof fn lemma_rounded_whole(k: nat)
    requires
        k < 256,
    ensures
        double_of(k).rounded() == k,
{
    lemma2_to64();
    if k > 0 {
        lemma_whole(k);
        lemma_small_bits(k);
        lemma_significand(k);
        let t = pow2((53 - bits(k)) as nat);
        lemma_pow2_pos((53 - bits(k)) as nat);
        assert((2 * (k * t) + t) / (2 * t) == k) by (nonlinear_arith)
            requires
                t > 0,
        ;
    }
}

/// A greater dividend gives no smaller quotient.
proof fn lemma_quotient_monotone(a1: Double, a2: Double, b: Double)
    requires
        a1.wf(),
        a2.wf(),
        b.wf(),
        b.mant > 0,
        a2.at_least(a1),
    ensures
        quotient(a1, b).normal(),
        quotient(a2, b).normal(),
        -1100 <= quotient(a1, b).exp <= 1100,
        -1100 <= quotient(a2, b).exp <= 1100,
        quotient(a2, b).at_least(quotient(a1, b)),
{
    let d = b.mant as nat;
    let m1 = a1.mant as nat;
    let m2 = a2.mant as nat;
    let low = DOUBLE_MIN as nat;
    let high = DOUBLE_END as nat;
    if a1.mant > 0 {
        lemma_quotient_range(m1, d);
    }
    if a2.mant > 0 {
        lemma_quotient_range(m2, d);
    }
    if a1.mant > 0 && a2.mant > 0 {
        if a1.exp == a2.exp {
            assert(m1 * low <= m2 * low && m1 * high <= m2 * high) by (nonlinear_arith)
                requires
                    m1 <= m2,
            ;
            lemma_nearest_monotone(m1 * low, m2 * low, d);
            lemma_nearest_monotone(m1 * high, m2 * high, d);
        } else {
            assert(m1 * low <= m2 * high) by (nonlinear_arith)
                requires
                    m1 <= high,
                    m2 >= low,
            ;
            lemma_nearest_monotone(m1 * low, m2 * high, d);
        }
    }
}

/// A greater factor gives no smaller product.
proof fn lemma_product_monotone(x1: Double, x2: Double, c: Double)
    requires
        x1.normal(),
        x2.normal(),
        -1100 <= x1.exp <= 1100,
        -1100 <= x2.exp <= 1100,
        c.wf(),
        x2.at_least(x1),
    ensures
        product(x1, c).normal(),
        product(x2, c).normal(),
        -2100 <= product(x1, c).exp <= 2100,
        -2100 <= product(x2, c).exp <= 2100,
        product(x2, c).at_least(product(x1, c)),
{
    let m = c.mant as nat;
    let n1 = x1.mant as nat * m;
    let n2 = x2.mant as nat * m;
    let low = DOUBLE_MIN as nat;
    let high = DOUBLE_END as nat;
    if c.mant == 0 || x1.mant == 0 {
        assert(n1 == 0) by (nonlinear_arith)
            requires
                n1 == x1.mant as nat * m,
                m == 0 || x1.mant == 0,
        ;
    }
    if c.mant == 0 || x2.mant == 0 {
        assert(n2 == 0) by (nonlinear_arith)
            requires
                n2 == x2.mant as nat * m,
                m == 0 || x2.mant == 0,
        ;
    }
    if c.mant > 0 && x2.mant > 0 {
        lemma_product_range(x2.mant as nat, m);
    }
    if c.mant > 0 && x1.mant > 0 {
        lemma_product_range(x1.mant as nat, m);
        if x1.exp == x2.exp {
            assert(n1 <= n2) by (nonlinear_arith)
                requires
                    n1 == x1.mant as nat * m,
                    n2 == x2.mant as nat * m,
                    x1.mant <= x2.mant,
            ;
            lemma_nearest_monotone(n1, n2, low);
            lemma_nearest_monotone(n1, n2, high);
        } else {
            assert(n1 <= m * high && n2 >= m * low) by (nonlinear_arith)
                requires
                    n1 == x1.mant as nat * m,
                    n2 == x2.mant as nat * m,
                    x1.mant <= high,
                    x2.mant >= low,
            ;
            lemma_nearest_bounds(n1, high, m);
            lemma_nearest_bounds(n2, low, m);
        }
    }
}

/// A greater value rounds to no smaller whole number.
proof fn lemma_rounded_monotone(x1: Double, x2: Double)
    requires
        x1.normal(),
        x2.normal(),
        x2.at_least(x1),
    ensures
        x1.rounded() <= x2.rounded(),
{
    let m1 = x1.mant as nat;
    let m2 = x2.mant as nat;
    lemma2_to64();
    if m1 == 0 {
        assert(m1 * 1 == 0);
    } else if x1.exp >= 0 {
        let p = pow2(x1.exp as nat);
        lemma_pow2_pos(x1.exp as nat);
        if x1.exp == x2.exp {
            assert(m1 * p <= m2 * p) by (nonlinear_arith)
                requires
                    m1 <= m2,
            ;
        } else {
            let k = pow2((x2.exp - x1.exp) as nat);
            lemma_pow2_adds((x2.exp - x1.exp) as nat, x1.exp as nat);
            if x2.exp - x1.exp > 1 {
                lemma_pow2_strictly_increases(1, (x2.exp - x1.exp) as nat);
            }
            assert(m1 * p <= m2 * (k * p)) by (nonlinear_arith)
                requires
                    m1 <= 2 * m2,
                    k >= 2,
                    p > 0,
            ;
        }
    } else {
        let t1 = pow2((-x1.exp) as nat);
        lemma_pow2_pos((-x1.exp) as nat);
        if x2.exp >= 0 {
            let p = pow2(x2.exp as nat);
            lemma_pow2_pos(x2.exp as nat);
            assert(m2 * p >= m2) by (nonlinear_arith)
                requires
                    p > 0,
            ;
            if -x1.exp > 1 {
                lemma_pow2_strictly_increases(1, (-x1.exp) as nat);
            }
            assert((2 * m1 + t1) / (2 * t1) <= m2) by (nonlinear_arith)
                requires
                    m1 < 2 * m2,
                    t1 >= 2,
            ;
        } else {
            let t2 = pow2((-x2.exp) as nat);
            lemma_pow2_pos((-x2.exp) as nat);
            if x1.exp == x2.exp {
                lemma_floor_monotone(2 * m1 + t1, 2 * m2 + t1, 2 * t1);
            } else {
                let k = pow2((x2.exp - x1.exp) as nat);
                lemma_pow2_adds((x2.exp - x1.exp) as nat, (-x2.exp) as nat);
                if x2.exp - x1.exp > 1 {
                    lemma_pow2_strictly_increases(1, (x2.exp - x1.exp) as nat);
                }
                let n2 = (2 * m2 + t2) * k;
                assert(2 * m1 + t1 <= n2) by (nonlinear_arith)
                    requires
                        n2 == (2 * m2 + t2) * k,
                        t1 == k * t2,
                        m1 <= 2 * m2,
                        k >= 2,
                ;
                assert(2 * t1 == (2 * t2) * k) by (nonlinear_arith)
                    requires
                        t1 == k * t2,
                ;
                lemma_floor_monotone(2 * m1 + t1, n2, 2 * t1);
                vstd::arithmetic::div_mod::lemma_div_denominator(
                    n2 as int,
                    k as int,
                    (2 * t2) as int,
                );
                assert(k * (2 * t2) == (2 * t2) * k) by (nonlinear_arith);
                vstd::arithmetic::div_mod::lemma_div_by_multiple((2 * m2 + t2) as int, k as int);
            }
        }
    }
}

/// A greater dividend gives no smaller whole quotient.
proof fn lemma_floor_monotone(a: nat, b: nat, d: nat)
    requires
        a <= b,
        d > 0,
    ensures
        a / d <= b / d,
{
    vstd::arithmetic::div_mod::lemma_div_is_ordered(a as int, b as int, d as int);
}

/// A greater share never fills fewer cells of a bar.
pub proof fn law_cells_grow(less: Double, more: Double, bars: u8)
    requires
        less.wf(),
        more.wf(),
        more.at_least(less),
    ensures
        cells(less, bars) <= cells(more, bars),
{
    lemma_whole(100);
    lemma_whole(bars as nat);
    let q1 = quotient(less, double_of(100));
    let q2 = quotient(more, double_of(100));
    lemma_quotient_monotone(less, more, double_of(100));
    lemma_product_monotone(q1, q2, double_of(bars as nat));
    lemma_rounded_monotone(
        product(q1, double_of(bars as nat)),
        product(q2, double_of(bars as nat)),
    );
}

/// A greater part of the same whole is never shown as a smaller share.
pub proof fn law_share_grows(less: nat, more: nat, whole: nat)
    requires
        less <= more <= u64::MAX,
        whole <= u64::MAX,
    ensures
        percent(more, whole).at_least(percent(less, whole)),
{
    if whole > 0 {
        lemma_whole(less);
        lemma_whole(more);
        lemma_whole(whole);
        lemma_whole(100);
        law_whole_order(less, more);
        lemma_quotient_monotone(double_of(less), double_of(more), double_of(whole));
        lemma_product_monotone(
            quotient(double_of(less), double_of(whole)),
            quotient(double_of(more), double_of(whole)),
            double_of(100),
        );
    }
}

} // verus!
