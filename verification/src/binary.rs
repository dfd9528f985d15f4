//! Binary numbers of double and single precision, kept as whole numbers.
//!
//! A value is a significand times a power of two. Every operation gives the value of the
//! format that lies nearest to the exact result, and of two that lie equally near the one
//! whose significand is even, as IEEE 754 asks. No result here comes near the ends of the
//! formats' range, so the exponent needs no special cases.
use vstd::arithmetic::div_mod::lemma_fundamental_div_mod;
use vstd::arithmetic::power2::{
    lemma2_to64, lemma2_to64_rest, lemma_pow2_adds, lemma_pow2_pos, lemma_pow2_strictly_increases,
    lemma_pow2_unfold, pow2,
};
use vstd::prelude::*;

use crate::number::{digit_char, one_decimal, push_decimal, push_one_decimal};

verus! {

/// The least significand of double precision: 2 to the power 52.
pub const DOUBLE_MIN: u64 = 0x10_0000_0000_0000;

/// One more than the greatest significand of double precision: 2 to the power 53.
pub const DOUBLE_END: u64 = 0x20_0000_0000_0000;

/// The least significand of single precision: 2 to the power 23.
pub const SINGLE_MIN: u64 = 0x80_0000;

/// One more than the greatest significand of single precision: 2 to the power 24.
pub const SINGLE_END: u64 = 0x100_0000;

/// The whole number nearest to `n / d`; of two that are equally near, the even one.
pub open spec fn nearest(n: nat, d: nat) -> nat {
    let q = n / d;
    let r = n % d;
    if 2 * r < d || (2 * r == d && q % 2 == 0) {
        q
    } else {
        q + 1
    }
}

/// No whole number lies nearer to `n / d` than `nearest(n, d)`, and where another lies
/// equally near, `nearest(n, d)` is even.
pub proof fn law_nearest(n: nat, d: nat, m: nat)
    requires
        d > 0,
    ensures
        abs(nearest(n, d) * d - n) <= abs(m * d - n),
        m != nearest(n, d) && abs(nearest(n, d) * d - n) == abs(m * d - n) ==> nearest(n, d) % 2
            == 0,
{
    let q = (n / d) as int;
    let r = (n % d) as int;
    lemma_fundamental_div_mod(n as int, d as int);
    assert(n == d * q + r);
    assert(q * d == d * q) by (nonlinear_arith);
    assert((q + 1) * d == d * q + d) by (nonlinear_arith);
    if m < q {
        assert(m * d <= d * q - d) by (nonlinear_arith)
            requires
                m + 1 <= q,
                d > 0,
        ;
    } else if m > q + 1 {
        assert(m * d >= d * q + 2 * d) by (nonlinear_arith)
            requires
                m >= q + 2,
                d > 0,
        ;
    } else if m == q {
        assert(m * d == d * q);
    } else {
        assert(m * d == d * q + d);
    }
}

/// The distance of `x` from zero.
pub open spec fn abs(x: int) -> int {
    if x < 0 {
        -x
    } else {
        x
    }
}

/// Rounding stays on the same side of a whole number as the exact quotient.
pub proof fn lemma_nearest_bounds(n: nat, d: nat, m: nat)
    requires
        d > 0,
    ensures
        n <= m * d ==> nearest(n, d) <= m,
        n >= m * d ==> nearest(n, d) >= m,
{
    let q = (n / d) as int;
    let r = (n % d) as int;
    lemma_fundamental_div_mod(n as int, d as int);
    if n <= m * d {
        assert(q <= m && (r > 0 ==> q < m)) by (nonlinear_arith)
            requires
                n == d * q + r,
                n <= m * d,
                0 <= r < d,
        ;
    }
    if n >= m * d {
        assert(q >= m) by (nonlinear_arith)
            requires
                n == d * q + r,
                n >= m * d,
                0 <= r < d,
        ;
    }
}

/// A greater numerator gives no smaller rounded quotient.
pub proof fn lemma_nearest_monotone(n1: nat, n2: nat, d: nat)
    requires
        d > 0,
        n1 <= n2,
    ensures
        nearest(n1, d) <= nearest(n2, d),
{
    let q1 = (n1 / d) as int;
    let r1 = (n1 % d) as int;
    let q2 = (n2 / d) as int;
    let r2 = (n2 % d) as int;
    lemma_fundamental_div_mod(n1 as int, d as int);
    lemma_fundamental_div_mod(n2 as int, d as int);
    assert(q1 <= q2 && (q1 == q2 ==> r1 <= r2)) by (nonlinear_arith)
        requires
            n1 == d * q1 + r1,
            n2 == d * q2 + r2,
            n1 <= n2,
            0 <= r1 < d,
            0 <= r2 < d,
    ;
}

/// A quotient that is a whole number is left as it is.
pub proof fn lemma_nearest_exact(m: nat, d: nat)
    requires
        d > 0,
    ensures
        nearest(m * d, d) == m,
{
    lemma_nearest_bounds(m * d, d, m);
}

/// A quotient less than half away from a whole number rounds to it.
pub proof fn lemma_nearest_near(n: nat, d: nat, m: nat)
    requires
        d > 0,
        2 * abs(n - m * d) < d,
    ensures
        nearest(n, d) == m,
{
    law_nearest(n, d, m);
    let q = nearest(n, d);
    if q != m {
        assert(abs((q - m) * d) >= d) by (nonlinear_arith)
            requires
                q != m,
                d > 0,
        ;
        assert((q - m) * d == q * d - m * d) by (nonlinear_arith);
    }
}

/// The whole number nearest to `n / d`; of two that are equally near, the even one.
pub fn round_quotient(n: u128, d: u128) -> (r: u128)
    requires
        d > 0,
        n < u128::MAX,
    ensures
        r == nearest(n as nat, d as nat),
{
    let q: u128 = n / d;
    let rest: u128 = n % d;
    assert(q <= n) by (nonlinear_arith)
        requires
            q == n / d,
            d > 0,
            n >= 0,
    ;
    if rest < d - rest || (rest == d - rest && q % 2 == 0) {
        q
    } else {
        q + 1
    }
}

/// Two to the power `n`.
pub fn power(n: u32) -> (r: u128)
    requires
        n < 128,
    ensures
        r == pow2(n as nat),
        0 < r,
{
    let mut r: u128 = 1;
    proof {
        lemma2_to64();
    }
    for i in 0..n
        invariant
            n < 128,
            r == pow2(i as nat),
    {
        proof {
            lemma_pow2_unfold((i + 1) as nat);
            lemma_pow2_limit((i + 1) as nat);
        }
        r = r * 2;
    }
    proof {
        lemma_pow2_pos(n as nat);
    }
    r
}

/// Powers of two below the 128th fit in 128 bits.
proof fn lemma_pow2_limit(n: nat)
    requires
        n < 128,
    ensures
        pow2(n) <= u128::MAX,
{
    lemma2_to64();
    lemma2_to64_rest();
    lemma_pow2_adds(64, 63);
    assert(0x1_0000_0000_0000_0000 * 0x8000_0000_0000_0000 <= u128::MAX);
    if n < 127 {
        lemma_pow2_strictly_increases(n, 127);
    }
}

/// A value of double precision that is not negative: `mant` times two to the power `exp`.
#[derive(Clone, Copy, Debug, PartialEq, Eq, Structural)]
pub struct Double {
    /// The significand: zero, or from `DOUBLE_MIN` up to, and without, `DOUBLE_END`.
    pub mant: u64,
    /// The power of two; zero where the significand is zero.
    pub exp: i32,
}

impl Double {
    /// Whether the significand is zero or uses all its bits.
    pub open spec fn normal(self) -> bool {
        ||| self.mant == 0 && self.exp == 0
        ||| DOUBLE_MIN <= self.mant < DOUBLE_END
    }

    /// Whether the value is normal and lies in the range that the figures of a machine stay in.
    pub open spec fn wf(self) -> bool {
        self.normal() && -900 <= self.exp <= 60
    }

    /// Whether the value is at least that of `other`, for normal values.
    pub open spec fn at_least(self, other: Double) -> bool {
        ||| other.mant == 0
        ||| self.mant != 0 && (self.exp > other.exp || (self.exp == other.exp && self.mant
            >= other.mant))
    }

    /// The value in tenths, rounded.
    pub open spec fn tenths(self) -> nat {
        tenths(self.mant as nat, self.exp as int)
    }

    /// The value rounded to the nearest whole number, and up where two are equally near.
    pub open spec fn rounded(self) -> nat {
        if self.exp >= 0 {
            self.mant as nat * pow2(self.exp as nat)
        } else {
            (2 * self.mant as nat + pow2((-self.exp) as nat)) / (2 * pow2((-self.exp) as nat))
        }
    }
}

/// `mant` times two to the power `exp` in tenths, rounded to the nearest whole number, and to
/// the even one of two that are equally near.
pub open spec fn tenths(mant: nat, exp: int) -> nat {
    if exp >= 0 {
        10 * (mant * pow2(exp as nat))
    } else {
        nearest(mant * 10, pow2((-exp) as nat))
    }
}

/// The value zero.
pub open spec fn zero() -> Double {
    Double { mant: 0, exp: 0 }
}

/// The value with the significand `q`, which rounding may have brought to `DOUBLE_END`, and
/// the exponent `e`.
pub open spec fn packed(q: nat, e: int) -> Double {
    if q == DOUBLE_END {
        Double { mant: DOUBLE_MIN, exp: (e + 1) as i32 }
    } else {
        Double { mant: q as u64, exp: e as i32 }
    }
}

/// How many binary digits `n` has.
pub open spec fn bits(n: nat) -> nat
    decreases n,
{
    if n == 0 {
        0
    } else {
        1 + bits(n / 2)
    }
}

/// The value of double precision nearest to the whole number `n`.
pub open spec fn double_of(n: nat) -> Double {
    let b = bits(n);
    if n == 0 {
        zero()
    } else if b <= 53 {
        packed(n * pow2((53 - b) as nat), b - 53)
    } else {
        packed(nearest(n, pow2((b - 53) as nat)), b - 53)
    }
}

/// The whole number that `n` becomes when double precision holds it.
pub open spec fn held(n: nat) -> nat {
    let b = bits(n);
    if b <= 53 {
        n
    } else {
        nearest(n, pow2((b - 53) as nat)) * pow2((b - 53) as nat)
    }
}

/// The value of double precision nearest to `a` divided by `b`.
pub open spec fn quotient(a: Double, b: Double) -> Double {
    if a.mant == 0 {
        zero()
    } else if a.mant >= b.mant {
        packed(nearest(a.mant as nat * DOUBLE_MIN as nat, b.mant as nat), a.exp - b.exp - 52)
    } else {
        packed(nearest(a.mant as nat * DOUBLE_END as nat, b.mant as nat), a.exp - b.exp - 53)
    }
}

/// The value of double precision nearest to `a` times `b`.
pub open spec fn product(a: Double, b: Double) -> Double {
    let n = a.mant as nat * b.mant as nat;
    if n == 0 {
        zero()
    } else if n < DOUBLE_MIN as nat * DOUBLE_END as nat {
        packed(nearest(n, DOUBLE_MIN as nat), a.exp + b.exp + 52)
    } else {
        packed(nearest(n, DOUBLE_END as nat), a.exp + b.exp + 53)
    }
}

/// A number lies between the powers of two that its binary digits count.
pub proof fn lemma_bits(n: nat)
    ensures
        n < pow2(bits(n)),
        n > 0 ==> bits(n) > 0 && pow2((bits(n) - 1) as nat) <= n,
    decreases n,
{
    lemma2_to64();
    if n > 0 {
        lemma_bits(n / 2);
        lemma_pow2_unfold(bits(n));
        if n / 2 > 0 {
            lemma_pow2_unfold((bits(n) - 1) as nat);
        }
    }
}

/// The count of binary digits is pinned down by the powers of two around the number.
pub proof fn lemma_bits_is(n: nat, b: nat)
    requires
        b > 0,
        pow2((b - 1) as nat) <= n < pow2(b),
    ensures
        bits(n) == b,
{
    lemma_bits(n);
    lemma_pow2_pos((b - 1) as nat);
    let c = bits(n);
    if c < b {
        if c < b - 1 {
            lemma_pow2_strictly_increases(c, (b - 1) as nat);
        }
    } else if c > b {
        if b < c - 1 {
            lemma_pow2_strictly_increases(b, (c - 1) as nat);
        }
    }
}

/// Counts the binary digits of `n`.
pub fn count_bits(n: u128) -> (b: u32)
    ensures
        b == bits(n as nat),
        b <= 128,
        n <= u64::MAX ==> b <= 64,
{
    let mut b: u32 = 0;
    let mut t: u128 = n;
    proof {
        lemma_bits(n as nat);
        lemma2_to64();
        lemma2_to64_rest();
        lemma_pow2_adds(64, 64);
        let c = bits(n as nat);
        if c > 65 {
            lemma_pow2_strictly_increases(64, (c - 1) as nat);
        }
        if c > 129 {
            lemma_pow2_strictly_increases(128, (c - 1) as nat);
        }
    }
    while t > 0
        invariant
            bits(n as nat) == b + bits(t as nat),
            bits(n as nat) <= 128,
        decreases t,
    {
        t = t / 2;
        b = b + 1;
    }
    b
}

/// The significand `q` and the exponent `e` as a value.
fn pack(q: u128, e: i32) -> (r: Double)
    requires
        DOUBLE_MIN <= q <= DOUBLE_END,
        -10000 <= e <= 10000,
    ensures
        r == packed(q as nat, e as int),
        r.normal(),
        e <= r.exp <= e + 1,
{
    if q == DOUBLE_END as u128 {
        Double { mant: DOUBLE_MIN, exp: e + 1 }
    } else {
        Double { mant: q as u64, exp: e }
    }
}

/// The significand of a whole number lies in the range of significands.
pub proof fn lemma_significand(n: nat)
    requires
        0 < n <= u64::MAX,
    ensures
        0 < bits(n) <= 64,
        bits(n) <= 53 ==> DOUBLE_MIN <= n * pow2((53 - bits(n)) as nat) < DOUBLE_END,
        bits(n) > 53 ==> DOUBLE_MIN <= nearest(n, pow2((bits(n) - 53) as nat)) <= DOUBLE_END,
{
    let b = bits(n);
    lemma_bits(n);
    lemma2_to64();
    lemma2_to64_rest();
    if b > 64 {
        lemma_pow2_limit(64);
        if b > 65 {
            lemma_pow2_strictly_increases(64, (b - 1) as nat);
        }
    }
    if b <= 53 {
        let k = (53 - b) as nat;
        lemma_pow2_adds((b - 1) as nat, k);
        lemma_pow2_adds(b, k);
        lemma_pow2_pos(k);
        assert(pow2((b - 1) as nat) * pow2(k) <= n * pow2(k) < pow2(b) * pow2(k))
            by (nonlinear_arith)
            requires
                pow2((b - 1) as nat) <= n < pow2(b),
                pow2(k) > 0,
        ;
    } else {
        let k = (b - 53) as nat;
        lemma_pow2_adds(52, k);
        lemma_pow2_adds(53, k);
        lemma_pow2_pos(k);
        lemma_nearest_bounds(n, pow2(k), DOUBLE_MIN as nat);
        lemma_nearest_bounds(n, pow2(k), DOUBLE_END as nat);
    }
}

/// The whole number that `n` becomes when double precision holds it.
pub fn hold(n: u64) -> (r: u128)
    ensures
        r == held(n as nat),
        r <= 0x1_0000_0000_0000_0000,
{
    let b: u32 = count_bits(n as u128);
    proof {
        lemma2_to64();
        lemma2_to64_rest();
    }
    if b <= 53 {
        n as u128
    } else {
        proof {
            lemma_significand(n as nat);
            lemma_pow2_adds((b - 53) as nat, (64 - b) as nat);
            lemma_pow2_pos((64 - b) as nat);
        }
        let p: u128 = power(b - 53);
        let q: u128 = round_quotient(n as u128, p);
        assert(p <= 0x800) by {
            if b < 64 {
                lemma_pow2_strictly_increases((b - 53) as nat, 11);
            }
        }
        assert(q * p <= 0x20_0000_0000_0000 * 0x800) by (nonlinear_arith)
            requires
                q <= 0x20_0000_0000_0000,
                p <= 0x800,
        ;
        q * p
    }
}

/// The value of double precision nearest to the whole number `n`.
pub fn from_whole(n: u64) -> (r: Double)
    ensures
        r == double_of(n as nat),
        r.wf(),
        -52 <= r.exp <= 12,
        r.mant == 0 <==> n == 0,
        n > 0 ==> bits(n as nat) - 53 <= r.exp <= bits(n as nat) - 52,
{
    if n == 0 {
        return Double { mant: 0, exp: 0 };
    }
    let b: u32 = count_bits(n as u128);
    proof {
        lemma_significand(n as nat);
        lemma2_to64();
        lemma2_to64_rest();
    }
    if b <= 53 {
        let p: u128 = power(53 - b);
        let q: u128 = n as u128;
        assert(q * p <= DOUBLE_END) by (nonlinear_arith)
            requires
                q == n,
                p == pow2((53 - b) as nat),
                n * pow2((53 - b) as nat) < DOUBLE_END,
        ;
        pack(q * p, b as i32 - 53)
    } else {
        pack(round_quotient(n as u128, power(b - 53)), b as i32 - 53)
    }
}

/// The quotient's significand, before it is packed, lies in the range of significands.
pub proof fn lemma_quotient_range(a: nat, b: nat)
    requires
        DOUBLE_MIN <= a < DOUBLE_END,
        DOUBLE_MIN <= b < DOUBLE_END,
    ensures
        a >= b ==> DOUBLE_MIN <= nearest(a * DOUBLE_MIN as nat, b) <= DOUBLE_END,
        a < b ==> DOUBLE_MIN <= nearest(a * DOUBLE_END as nat, b) <= DOUBLE_END,
        a * DOUBLE_END as nat <= 0x40_0000_0000_0000_0000_0000_0000_0000,
{
    assert(a * DOUBLE_END <= DOUBLE_END * DOUBLE_END) by (nonlinear_arith)
        requires
            a <= DOUBLE_END,
    ;
    if a >= b {
        assert(DOUBLE_MIN * b <= a * DOUBLE_MIN <= DOUBLE_END * b) by (nonlinear_arith)
            requires
                b <= a < DOUBLE_END,
                DOUBLE_MIN <= b,
                DOUBLE_MIN * 2 == DOUBLE_END,
        ;
        lemma_nearest_bounds(a * DOUBLE_MIN as nat, b, DOUBLE_MIN as nat);
        lemma_nearest_bounds(a * DOUBLE_MIN as nat, b, DOUBLE_END as nat);
    } else {
        assert(DOUBLE_MIN * b <= a * DOUBLE_END <= DOUBLE_END * b) by (nonlinear_arith)
            requires
                DOUBLE_MIN <= a < b < DOUBLE_END,
                DOUBLE_MIN * 2 == DOUBLE_END,
        ;
        lemma_nearest_bounds(a * DOUBLE_END as nat, b, DOUBLE_MIN as nat);
        lemma_nearest_bounds(a * DOUBLE_END as nat, b, DOUBLE_END as nat);
    }
}

/// The value of double precision nearest to `a` divided by `b`.
pub fn divide(a: Double, b: Double) -> (r: Double)
    requires
        a.wf(),
        b.wf(),
        b.mant > 0,
    ensures
        r == quotient(a, b),
        r.normal(),
        a.mant > 0 ==> a.exp - b.exp - 53 <= r.exp <= a.exp - b.exp - 51,
{
    if a.mant == 0 {
        return Double { mant: 0, exp: 0 };
    }
    proof {
        lemma_quotient_range(a.mant as nat, b.mant as nat);
    }
    if a.mant >= b.mant {
        let n: u128 = a.mant as u128 * DOUBLE_MIN as u128;
        pack(round_quotient(n, b.mant as u128), a.exp - b.exp - 52)
    } else {
        let n: u128 = a.mant as u128 * DOUBLE_END as u128;
        pack(round_quotient(n, b.mant as u128), a.exp - b.exp - 53)
    }
}

/// The product's significand, before it is packed, lies in the range of significands.
pub proof fn lemma_product_range(a: nat, b: nat)
    requires
        DOUBLE_MIN <= a < DOUBLE_END,
        DOUBLE_MIN <= b < DOUBLE_END,
    ensures
        0 < a * b < DOUBLE_END as nat * DOUBLE_END as nat,
        a * b < DOUBLE_MIN as nat * DOUBLE_END as nat ==> DOUBLE_MIN <= nearest(
            a * b,
            DOUBLE_MIN as nat,
        ) <= DOUBLE_END,
        a * b >= DOUBLE_MIN as nat * DOUBLE_END as nat ==> DOUBLE_MIN <= nearest(
            a * b,
            DOUBLE_END as nat,
        ) <= DOUBLE_END,
{
    assert(DOUBLE_MIN * DOUBLE_MIN <= a * b < DOUBLE_END * DOUBLE_END) by (nonlinear_arith)
        requires
            DOUBLE_MIN <= a < DOUBLE_END,
            DOUBLE_MIN <= b < DOUBLE_END,
    ;
    lemma_nearest_bounds(a * b, DOUBLE_MIN as nat, DOUBLE_MIN as nat);
    lemma_nearest_bounds(a * b, DOUBLE_MIN as nat, DOUBLE_END as nat);
    lemma_nearest_bounds(a * b, DOUBLE_END as nat, DOUBLE_MIN as nat);
    lemma_nearest_bounds(a * b, DOUBLE_END as nat, DOUBLE_END as nat);
}

/// The value of double precision nearest to `a` times `b`.
pub fn multiply(a: Double, b: Double) -> (r: Double)
    requires
        a.normal(),
        b.normal(),
        -2000 <= a.exp <= 2000,
        -2000 <= b.exp <= 2000,
    ensures
        r == product(a, b),
        r.normal(),
        a.mant > 0 && b.mant > 0 ==> a.exp + b.exp + 52 <= r.exp <= a.exp + b.exp + 54,
{
    if a.mant == 0 || b.mant == 0 {
        assert(a.mant as nat * b.mant as nat == 0) by (nonlinear_arith)
            requires
                a.mant == 0 || b.mant == 0,
        ;
        return Double { mant: 0, exp: 0 };
    }
    proof {
        lemma_product_range(a.mant as nat, b.mant as nat);
    }
    let n: u128 = a.mant as u128 * b.mant as u128;
    if n < DOUBLE_MIN as u128 * DOUBLE_END as u128 {
        pack(round_quotient(n, DOUBLE_MIN as u128), a.exp + b.exp + 52)
    } else {
        pack(round_quotient(n, DOUBLE_END as u128), a.exp + b.exp + 53)
    }
}

impl Double {
    /// Decides whether the value is at least that of `other`.
    pub fn reaches(self, other: Double) -> (r: bool)
        ensures
            r == self.at_least(other),
    {
        other.mant == 0 || (self.mant != 0 && (self.exp > other.exp || (self.exp == other.exp
            && self.mant >= other.mant)))
    }

    /// The value rounded to the nearest whole number, and up where two are equally near, if
    /// that is no more than `limit`.
    pub fn rounded_within(self, limit: u8) -> (r: Option<u8>)
        requires
            self.normal(),
            -2000 <= self.exp <= 2000,
        ensures
            match r {
                Some(n) => n == self.rounded() && n <= limit,
                None => self.rounded() > limit,
            },
    {
        if self.mant == 0 {
            proof {
                lemma2_to64();
            }
            return Some(0);
        }
        if self.exp >= 0 {
            proof {
                lemma_pow2_pos(self.exp as nat);
                assert(self.rounded() >= self.mant) by (nonlinear_arith)
                    requires
                        self.rounded() == self.mant as nat * pow2(self.exp as nat),
                        pow2(self.exp as nat) > 0,
                ;
            }
            None
        } else if self.exp >= -60 {
            let p: u128 = power((-self.exp) as u32);
            proof {
                lemma2_to64();
                lemma2_to64_rest();
                if self.exp > -60 {
                    lemma_pow2_strictly_increases((-self.exp) as nat, 60);
                }
            }
            let n: u128 = (2 * self.mant as u128 + p) / (2 * p);
            if n <= limit as u128 {
                Some(n as u8)
            } else {
                None
            }
        } else {
            proof {
                let d = pow2((-self.exp) as nat);
                let n = 2 * self.mant as nat + d;
                lemma2_to64();
                lemma2_to64_rest();
                lemma_pow2_strictly_increases(60, (-self.exp) as nat);
                assert(n / (2 * d) == 0) by (nonlinear_arith)
                    requires
                        0 <= n < 2 * d,
                ;
            }
            Some(0)
        }
    }
}

/// Writes `mant` times two to the power `exp`, rounded to tenths, behind what `out` holds.
pub fn push_tenths(out: &mut String, mant: u64, exp: i32)
    requires
        mant < DOUBLE_END,
        -2000 <= exp,
        exp <= 74 || (mant < SINGLE_END && exp <= 104),
    ensures
        final(out)@ == old(out)@ + one_decimal(tenths(mant as nat, exp as int)),
{
    if exp >= 0 {
        let p: u128 = power(exp as u32);
        proof {
            lemma2_to64();
            lemma2_to64_rest();
            lemma_pow2_adds(64, 10);
            lemma_pow2_adds(64, 40);
            if exp < 74 {
                lemma_pow2_strictly_increases(exp as nat, 74);
            } else if exp < 104 {
                lemma_pow2_strictly_increases(exp as nat, 104);
            }
        }
        let ghost v = mant as nat * pow2(exp as nat);
        if exp <= 74 {
            assert(mant * p <= 0x20_0000_0000_0000 * (0x400 * 0x1_0000_0000_0000_0000))
                by (nonlinear_arith)
                requires
                    mant <= 0x20_0000_0000_0000,
                    p <= 0x400 * 0x1_0000_0000_0000_0000,
            ;
        } else {
            assert(mant * p <= 0xFF_FFFF * (0x100_0000_0000 * 0x1_0000_0000_0000_0000))
                by (nonlinear_arith)
                requires
                    mant <= 0xFF_FFFF,
                    p <= 0x100_0000_0000 * 0x1_0000_0000_0000_0000,
            ;
        }
        push_decimal(out, mant as u128 * p);
        out.push('.');
        out.push(digit_char(0));
        assert((10 * v) / 10 == v && (10 * v) % 10 == 0);
        assert(out@ =~= old(out)@ + one_decimal(tenths(mant as nat, exp as int)));
    } else if exp >= -100 {
        push_one_decimal(out, round_quotient(mant as u128 * 10, power((-exp) as u32)));
    } else {
        proof {
            let n = mant as nat * 10;
            let d = pow2((-exp) as nat);
            lemma2_to64();
            lemma2_to64_rest();
            lemma_pow2_strictly_increases(60, (-exp) as nat);
            assert(n / d == 0 && n % d == n) by (nonlinear_arith)
                requires
                    0 <= n < d,
            ;
        }
        push_one_decimal(out, 0);
    }
}

/// Numbers up to 2 to the power 53 are held as they are.
pub proof fn law_held_small(n: nat)
    requires
        n <= DOUBLE_END,
    ensures
        held(n) == n,
{
    lemma_bits(n);
    lemma2_to64();
    lemma2_to64_rest();
    let b = bits(n);
    if b > 54 {
        lemma_pow2_strictly_increases(53, (b - 1) as nat);
    } else if b == 54 {
        lemma_nearest_exact(DOUBLE_MIN as nat, 2);
    }
}

/// A normal value in units of two to the power -3000, which are finer than any value here.
pub open spec fn units(x: Double) -> int {
    x.mant * pow2((x.exp + 3000) as nat)
}

/// A normal value lies between powers of two that its exponent gives.
proof fn lemma_units_range(x: Double)
    requires
        x.normal(),
        -2500 <= x.exp,
        x.mant > 0,
    ensures
        pow2((x.exp + 3052) as nat) <= units(x) < pow2((x.exp + 3053) as nat),
{
    let p = pow2((x.exp + 3000) as nat);
    lemma2_to64_rest();
    lemma_pow2_pos((x.exp + 3000) as nat);
    lemma_pow2_adds(52, (x.exp + 3000) as nat);
    lemma_pow2_adds(53, (x.exp + 3000) as nat);
    assert(DOUBLE_MIN * p <= x.mant * p < DOUBLE_END * p) by (nonlinear_arith)
        requires
            DOUBLE_MIN <= x.mant < DOUBLE_END,
            p > 0,
    ;
}

/// The order of normal values is the order of the numbers that they stand for.
pub proof fn law_order_is_by_value(a: Double, b: Double)
    requires
        a.normal(),
        b.normal(),
        -2500 <= a.exp,
        -2500 <= b.exp,
    ensures
        a.at_least(b) <==> units(a) >= units(b),
{
    lemma_pow2_pos((a.exp + 3000) as nat);
    lemma_pow2_pos((b.exp + 3000) as nat);
    let p = pow2((a.exp + 3000) as nat);
    if a.mant > 0 && b.mant > 0 {
        lemma_units_range(a);
        lemma_units_range(b);
        if a.exp == b.exp {
            assert(a.mant * p >= b.mant * p <==> a.mant >= b.mant) by (nonlinear_arith)
                requires
                    p > 0,
            ;
        } else if a.exp > b.exp {
            if a.exp > b.exp + 1 {
                lemma_pow2_strictly_increases((b.exp + 3053) as nat, (a.exp + 3052) as nat);
            }
        } else {
            if b.exp > a.exp + 1 {
                lemma_pow2_strictly_increases((a.exp + 3053) as nat, (b.exp + 3052) as nat);
            }
        }
    } else if b.mant > 0 {
        lemma_units_range(b);
        lemma_pow2_pos((b.exp + 3052) as nat);
        assert(a.mant * p == 0) by (nonlinear_arith)
            requires
                a.mant == 0,
        ;
    } else {
        let q = pow2((b.exp + 3000) as nat);
        assert(b.mant * q == 0 && a.mant * p >= 0) by (nonlinear_arith)
            requires
                b.mant == 0,
                a.mant >= 0,
        ;
    }
}

/// Packing the rounded significand of `n / d` times two to the power `e` gives the value that
/// lies nearest to it.
proof fn lemma_packed_nearest(n: nat, d: nat, e: int, c: Double)
    requires
        d > 0,
        DOUBLE_MIN * d <= n <= DOUBLE_END * d,
        -2400 <= e <= 2400,
        c.normal(),
        -2500 <= c.exp,
    ensures
        abs(units(packed(nearest(n, d), e)) * d - n * pow2((e + 3000) as nat)) <= abs(
            units(c) * d - n * pow2((e + 3000) as nat),
        ),
{
    let p = pow2((e + 3000) as nat) as int;
    let q = nearest(n, d) as int;
    let r = packed(nearest(n, d), e);
    lemma_pow2_pos((e + 3000) as nat);
    lemma_nearest_bounds(n, d, DOUBLE_MIN as nat);
    lemma_nearest_bounds(n, d, DOUBLE_END as nat);
    lemma_pow2_unfold((e + 3001) as nat);
    if q == DOUBLE_END {
        assert(units(r) == q * p) by (nonlinear_arith)
            requires
                units(r) == DOUBLE_MIN * (2 * p),
                q == DOUBLE_MIN * 2,
        ;
    } else {
        assert(r.mant == q && r.exp == e);
    }
    let error = abs(q * d - n);
    assert(abs((q * p) * d - n * p) == error * p) by (nonlinear_arith)
        requires
            error == abs(q * d - n),
            p > 0,
    ;
    if c.mant > 0 && c.exp >= e {
        let k = (c.exp - e) as nat;
        let m = (c.mant * pow2(k)) as nat;
        lemma_pow2_adds(k, (e + 3000) as nat);
        assert(units(c) == m * p) by (nonlinear_arith)
            requires
                units(c) == c.mant * (pow2(k) * p),
                m == c.mant * pow2(k),
        ;
        law_nearest(n, d, m);
        let other = abs(m * d - n);
        assert(abs((m * p) * d - n * p) == other * p) by (nonlinear_arith)
            requires
                other == abs(m * d - n),
                p > 0,
        ;
        assert(error * p <= other * p) by (nonlinear_arith)
            requires
                error <= other,
                p > 0,
        ;
    } else {
        lemma2_to64_rest();
        lemma_pow2_adds(52, (e + 3000) as nat);
        assert(units(c) <= DOUBLE_MIN * p) by {
            if c.mant > 0 {
                lemma_units_range(c);
                if c.exp + 1 < e {
                    lemma_pow2_strictly_increases((c.exp + 3053) as nat, (e + 3052) as nat);
                }
            } else {
                assert(c.mant * pow2((c.exp + 3000) as nat) == 0) by (nonlinear_arith)
                    requires
                        c.mant == 0,
                ;
                assert(DOUBLE_MIN * p >= 0) by (nonlinear_arith)
                    requires
                        p > 0,
                ;
            }
        }
        law_nearest(n, d, DOUBLE_MIN as nat);
        let gap = n - DOUBLE_MIN * d;
        assert(error <= gap);
        assert(n * p - units(c) * d >= gap * p) by (nonlinear_arith)
            requires
                units(c) <= DOUBLE_MIN * p,
                gap == n - DOUBLE_MIN * d,
                d > 0,
                p > 0,
        ;
        assert(error * p <= gap * p) by (nonlinear_arith)
            requires
                error <= gap,
                p > 0,
        ;
    }
}

/// No value of double precision lies nearer to `a` divided by `b` than `quotient(a, b)`.
/// Distances are taken after multiplying by the significand of `b`.
pub proof fn law_quotient_is_nearest(a: Double, b: Double, c: Double)
    requires
        a.wf(),
        b.wf(),
        a.mant > 0,
        b.mant > 0,
        c.normal(),
        -2500 <= c.exp,
    ensures
        ({
            let exact = a.mant * pow2((a.exp - b.exp + 3000) as nat);
            abs(units(quotient(a, b)) * b.mant - exact) <= abs(units(c) * b.mant - exact)
        }),
{
    let m = a.mant as nat;
    let d = b.mant as nat;
    let s = a.exp - b.exp;
    lemma2_to64_rest();
    if m >= d {
        let n = m * DOUBLE_MIN as nat;
        assert(DOUBLE_MIN * d <= n <= DOUBLE_END * d) by (nonlinear_arith)
            requires
                d <= m < DOUBLE_END,
                DOUBLE_MIN <= d,
                n == m * DOUBLE_MIN as nat,
                DOUBLE_MIN * 2 == DOUBLE_END,
        ;
        lemma_packed_nearest(n, d, s - 52, c);
        lemma_pow2_adds(52, (s + 2948) as nat);
        let p = pow2((s + 2948) as nat);
        assert(n * p == m * (DOUBLE_MIN * p)) by (nonlinear_arith)
            requires
                n == m * DOUBLE_MIN as nat,
        ;
    } else {
        let n = m * DOUBLE_END as nat;
        assert(DOUBLE_MIN * d <= n <= DOUBLE_END * d) by (nonlinear_arith)
            requires
                DOUBLE_MIN <= m < d < DOUBLE_END,
                n == m * DOUBLE_END as nat,
                DOUBLE_MIN * 2 == DOUBLE_END,
        ;
        lemma_packed_nearest(n, d, s - 53, c);
        lemma_pow2_adds(53, (s + 2947) as nat);
        let p = pow2((s + 2947) as nat);
        assert(n * p == m * (DOUBLE_END * p)) by (nonlinear_arith)
            requires
                n == m * DOUBLE_END as nat,
        ;
    }
}

/// Distances keep their order when they are divided by the same number.
proof fn lemma_distance_scaled(x: int, y: int, z: int, d: int)
    requires
        d > 0,
        abs(x * d - z * d) <= abs(y * d - z * d),
    ensures
        abs(x - z) <= abs(y - z),
{
    let u = x - z;
    let v = y - z;
    assert(x * d - z * d == u * d && y * d - z * d == v * d) by (nonlinear_arith)
        requires
            u == x - z,
            v == y - z,
    ;
    assert(abs(u * d) == abs(u) * d && abs(v * d) == abs(v) * d) by (nonlinear_arith)
        requires
            d > 0,
    ;
    assert(abs(u) <= abs(v)) by (nonlinear_arith)
        requires
            abs(u) * d <= abs(v) * d,
            d > 0,
    ;
}

/// No value of double precision lies nearer to `a` times `b` than `product(a, b)`.
pub proof fn law_product_is_nearest(a: Double, b: Double, c: Double)
    requires
        a.wf(),
        b.wf(),
        a.mant > 0,
        b.mant > 0,
        c.normal(),
        -2500 <= c.exp,
    ensures
        ({
            let exact = a.mant * b.mant * pow2((a.exp + b.exp + 3000) as nat);
            abs(units(product(a, b)) - exact) <= abs(units(c) - exact)
        }),
{
    let n = a.mant as nat * b.mant as nat;
    let s = a.exp + b.exp;
    lemma2_to64_rest();
    lemma_product_range(a.mant as nat, b.mant as nat);
    assert(n >= DOUBLE_MIN * DOUBLE_MIN) by (nonlinear_arith)
        requires
            n == a.mant as nat * b.mant as nat,
            a.mant >= DOUBLE_MIN,
            b.mant >= DOUBLE_MIN,
    ;
    let p = pow2((s + 3000) as nat) as int;
    let small = n < DOUBLE_MIN as nat * DOUBLE_END as nat;
    let d = if small {
        DOUBLE_MIN as nat
    } else {
        DOUBLE_END as nat
    };
    let k: nat = if small {
        52
    } else {
        53
    };
    lemma_packed_nearest(n, d, s + k, c);
    lemma_pow2_adds(k, (s + 3000) as nat);
    assert(n * (d * p) == (n * p) * d) by (nonlinear_arith);
    lemma_distance_scaled(units(product(a, b)), units(c), n * p, d as int);
}

/// No value of double precision lies nearer to a whole number than `double_of` of it.
pub proof fn law_double_of_is_nearest(n: nat, c: Double)
    requires
        n <= u64::MAX,
        c.normal(),
        -2500 <= c.exp,
    ensures
        abs(units(double_of(n)) - n * pow2(3000)) <= abs(units(c) - n * pow2(3000)),
{
    let b = bits(n);
    if n == 0 {
        assert(0 * pow2(3000) == 0);
    } else {
        lemma_significand(n);
        lemma_bits(n);
        lemma2_to64_rest();
        if b <= 53 {
            let k = (53 - b) as nat;
            let m = n * pow2(k);
            lemma_pow2_adds(k, (b - 53 + 3000) as nat);
            let p = pow2((b - 53 + 3000) as nat);
            assert(m * p == n * (pow2(k) * p)) by (nonlinear_arith)
                requires
                    m == n * pow2(k),
            ;
        } else {
            let k = (b - 53) as nat;
            let d = pow2(k);
            let p = pow2(3000) as int;
            lemma_pow2_pos(k);
            lemma_pow2_adds(52, k);
            lemma_pow2_adds(53, k);
            lemma_packed_nearest(n, d, k as int, c);
            lemma_pow2_adds(k, 3000);
            assert(n * (d * p) == (n * p) * d) by (nonlinear_arith);
            lemma_distance_scaled(units(double_of(n)), units(c), n * p, d as int);
        }
    }
}

} // verus!
