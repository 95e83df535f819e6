//! Numbers with 53 significant bits, rounded to nearest and halfway to even:
//! the non-negative part of double precision, in whole-number arithmetic.

use vstd::arithmetic::power2::{
    lemma2_to64, lemma_pow2_adds, lemma_pow2_pos, lemma_pow2_strictly_increases, lemma_pow2_unfold,
    pow2,
};
use vstd::prelude::*;

use crate::numeral::{
    decimal, digit_char, digits, round_half_even, rounded_div, shifted_decimal, tenths, tenths_text,
};

verus! {

/// 2^52: the least mantissa of a number that is not zero.
pub const LEAST: u64 = 0x10_0000_0000_0000;

/// `mantissa * 2^exponent`.
#[derive(Debug, Clone, Copy, PartialEq, Eq, Structural)]
pub struct Double {
    pub mantissa: u64,
    pub exponent: i32,
}

/// Doubles the divisor until the quotient is below 2^53.
pub open spec fn shrink(a: nat, b: nat, e: int) -> (nat, nat, int)
    decreases a - b,
{
    if b > 0 && a >= 0x20_0000_0000_0000 * b {
        shrink(a, 2 * b, e + 1)
    } else {
        (a, b, e)
    }
}

/// Doubles the dividend until the quotient is 2^52 at least.
pub open spec fn grow(a: nat, b: nat, e: int) -> (nat, nat, int)
    decreases
            if a < 0x10_0000_0000_0000 * b {
                0x10_0000_0000_0000 * b - a
            } else {
                0
            },
{
    if a > 0 && a < 0x10_0000_0000_0000 * b {
        grow(2 * a, b, e - 1)
    } else {
        (a, b, e)
    }
}

/// `a / b * 2^e` to the nearest number with 53 significant bits.
pub open spec fn nearest_scaled(a: nat, b: nat, e: int) -> (nat, int) {
    if a == 0 {
        (0, 0)
    } else {
        let (a1, b1, e1) = shrink(a, b, e);
        let (a2, b2, e2) = grow(a1, b1, e1);
        let m = round_half_even(a2, b2);
        if m == 0x20_0000_0000_0000 {
            (0x10_0000_0000_0000, e2 + 1)
        } else {
            (m, e2)
        }
    }
}

/// `a / b` to the nearest number with 53 significant bits.
pub open spec fn nearest(a: nat, b: nat) -> (nat, int) {
    nearest_scaled(a, b, 0)
}

impl View for Double {
    type V = (nat, int);

    open spec fn view(&self) -> (nat, int) {
        (self.mantissa as nat, self.exponent as int)
    }
}

impl Double {
    /// Zero, or a number with all its 53 bits.
    pub open spec fn wf(&self) -> bool {
        &&& self.mantissa == 0 ==> self.exponent == 0
        &&& self.mantissa != 0 ==> 0x10_0000_0000_0000 <= self.mantissa < 0x20_0000_0000_0000
        &&& -20_000 <= self.exponent <= 20_000
    }
}

proof fn lemma_pow2_below(k: nat, n: nat)
    requires
        pow2(k) < pow2(n),
    ensures
        k < n,
{
    if k > n {
        lemma_pow2_strictly_increases(n, k);
    }
}

proof fn lemma_pow2_big()
    ensures
        pow2(75) == 37_778_931_862_957_161_709_568,
        pow2(126) == 85_070_591_730_234_615_865_843_651_857_942_052_864,
{
    lemma2_to64();
    lemma_pow2_adds(64, 11);
    lemma_pow2_adds(64, 32);
    lemma_pow2_adds(96, 30);
}

/// `a / b * 2^e` to the nearest number with 53 significant bits.
fn rounded(a: u128, b: u128, e: i32) -> (r: Double)
    requires
        a < 0x8000_0000_0000_0000_0000_0000_0000_0000,
        0 < b < 0x1_0000_0000_0000_0000,
        -30_000 <= e <= 30_000,
    ensures
        r@ == nearest_scaled(a as nat, b as nat, e as int),
        r.mantissa == 0 ==> r.exponent == 0,
        r.mantissa != 0 ==> 0x10_0000_0000_0000 <= r.mantissa < 0x20_0000_0000_0000,
        r.mantissa == 0 <==> a == 0,
        r.mantissa != 0 ==> e - 130 <= r.exponent <= e + 80,
{
    if a == 0 {
        return Double { mantissa: 0, exponent: 0 };
    }
    let mut x: u128 = a;
    let mut y: u128 = b;
    let mut k: i32 = 0;
    proof {
        lemma2_to64();
        lemma_pow2_big();
    }
    while x >= 0x20_0000_0000_0000 * y
        invariant
            x == a,
            0 < a < 0x8000_0000_0000_0000_0000_0000_0000_0000,
            -30_000 <= e <= 30_000,
            0 <= k < 76,
            0 < y,
            pow2(k as nat) <= y < pow2(75),
            pow2(75) == 37_778_931_862_957_161_709_568,
            shrink(a as nat, b as nat, e as int) == shrink(x as nat, y as nat, e + k),
        decreases x - y,
    {
        proof {
            lemma_pow2_unfold(k as nat + 1);
            lemma_pow2_strictly_increases(74, 75);
            lemma_pow2_unfold(75);
            assert(2 * y < pow2(75));
            lemma_pow2_below(k as nat + 1, 75);
        }
        y = 2 * y;
        k = k + 1;
    }
    let ghost (sa, sb, se) = shrink(a as nat, b as nat, e as int);
    assert(sa == x && sb == y && se == e + k);
    let mut j: i32 = 0;
    while x < 0x10_0000_0000_0000 * y
        invariant
            0 < x,
            x < 0x20_0000_0000_0000 * y,
            -30_000 <= e <= 30_000,
            0 <= k < 76,
            0 <= j < 129,
            0 < y < pow2(75),
            pow2(75) == 37_778_931_862_957_161_709_568,
            pow2(126) == 85_070_591_730_234_615_865_843_651_857_942_052_864,
            pow2(j as nat) <= x,
            grow(sa, sb, se) == grow(x as nat, y as nat, e + k - j),
            sb == y,
        decreases
                if x < 0x10_0000_0000_0000 * y {
                    0x10_0000_0000_0000 * y - x
                } else {
                    0
                },
    {
        proof {
            lemma_pow2_unfold(j as nat + 1);
        }
        x = 2 * x;
        j = j + 1;
        proof {
            lemma_pow2_unfold(127);
            lemma_pow2_unfold(128);
            lemma_pow2_below(j as nat, 128);
        }
    }
    let m: u128 = rounded_div(x, y);
    proof {
        assert(x as nat / y as nat >= 0x10_0000_0000_0000) by (nonlinear_arith)
            requires
                x as nat >= 0x10_0000_0000_0000 * (y as nat),
                y > 0,
        ;
        assert((x as nat / y as nat) < 0x20_0000_0000_0000) by (nonlinear_arith)
            requires
                (x as nat) < 0x20_0000_0000_0000 * (y as nat),
                y > 0,
        ;
    }
    if m == 0x20_0000_0000_0000 {
        Double { mantissa: LEAST, exponent: e + k - j + 1 }
    } else {
        Double { mantissa: m as u64, exponent: e + k - j }
    }
}

/// `x * y`, rounded.
pub open spec fn product(x: (nat, int), y: (nat, int)) -> (nat, int) {
    nearest_scaled(x.0 * y.0, 1, x.1 + y.1)
}

/// `x / y`, rounded.
pub open spec fn quotient(x: (nat, int), y: (nat, int)) -> (nat, int) {
    nearest_scaled(x.0, y.0, x.1 - y.1)
}

/// `h + l` for `h` with the greater exponent, rounded. What is smaller by more
/// than 2^73 does not count.
pub open spec fn sum_ordered(h: (nat, int), l: (nat, int)) -> (nat, int) {
    if h.1 - l.1 > 73 {
        h
    } else {
        nearest_scaled(h.0 * pow2((h.1 - l.1) as nat) + l.0, 1, l.1)
    }
}

/// `x + y`, rounded.
pub open spec fn sum(x: (nat, int), y: (nat, int)) -> (nat, int) {
    if x.0 == 0 {
        y
    } else if y.0 == 0 {
        x
    } else if x.1 >= y.1 {
        sum_ordered(x, y)
    } else {
        sum_ordered(y, x)
    }
}

/// `x - y` for `y` up to `x`, rounded. What is smaller by more than 2^73 does
/// not count.
pub open spec fn difference(x: (nat, int), y: (nat, int)) -> (nat, int) {
    if y.0 == 0 || x.1 - y.1 > 73 {
        x
    } else if x.1 < y.1 || x.0 * pow2((x.1 - y.1) as nat) < y.0 {
        (0, 0)
    } else {
        nearest_scaled((x.0 * pow2((x.1 - y.1) as nat) - y.0) as nat, 1, y.1)
    }
}

/// `x` without what stands behind its point.
pub open spec fn whole_part(x: (nat, int)) -> nat {
    if x.1 >= 0 {
        x.0 * pow2(x.1 as nat)
    } else {
        x.0 / pow2((-x.1) as nat)
    }
}

/// `x >= n`.
pub open spec fn at_least(x: (nat, int), n: nat) -> bool {
    if x.1 >= 0 {
        x.0 * pow2(x.1 as nat) >= n
    } else {
        x.0 >= n * pow2((-x.1) as nat)
    }
}

/// `x > n`.
pub open spec fn above(x: (nat, int), n: nat) -> bool {
    if x.1 >= 0 {
        x.0 * pow2(x.1 as nat) > n
    } else {
        x.0 > n * pow2((-x.1) as nat)
    }
}

/// `x < y`.
pub open spec fn less(x: (nat, int), y: (nat, int)) -> bool {
    if x.1 >= y.1 {
        x.0 * pow2((x.1 - y.1) as nat) < y.0
    } else {
        x.0 < y.0 * pow2((y.1 - x.1) as nat)
    }
}

/// `x` to the nearest whole number, halfway to even.
pub open spec fn round_whole(x: (nat, int)) -> nat {
    if x.1 >= 0 {
        x.0 * pow2(x.1 as nat)
    } else {
        round_half_even(x.0, pow2((-x.1) as nat))
    }
}

/// 2^k.
fn two_to(k: u32) -> (r: u128)
    requires
        k <= 120,
    ensures
        r == pow2(k as nat),
        r >= 1,
{
    let mut p: u128 = 1;
    let mut i: u32 = 0;
    proof {
        lemma2_to64();
        lemma_pow2_big();
    }
    while i < k
        invariant
            i <= k <= 120,
            1 <= p,
            p == pow2(i as nat),
            pow2(126) == 85_070_591_730_234_615_865_843_651_857_942_052_864,
        decreases k - i,
    {
        proof {
            lemma_pow2_unfold(i as nat + 1);
            lemma_pow2_strictly_increases(i as nat, 126);
        }
        p = 2 * p;
        i = i + 1;
    }
    p
}

proof fn lemma_small_exponent(m: nat, k: nat)
    requires
        m < 0x20_0000_0000_0000,
        k >= 64,
    ensures
        m / pow2(k) == 0,
        m < pow2(k),
        pow2(k) >= 0x1_0000_0000_0000_0000,
        round_half_even(m, pow2(k)) == 0,
{
    lemma2_to64();
    if k > 64 {
        lemma_pow2_strictly_increases(64, k);
    }
    vstd::arithmetic::div_mod::lemma_basic_div(m as int, pow2(k) as int);
    vstd::arithmetic::div_mod::lemma_small_mod(m, pow2(k));
}

/// The number above zero whose double-precision bits are `bits`; `None` for
/// zero, negative numbers, infinity and what is no number.
pub open spec fn positive_of_bits(bits: u64) -> Option<(nat, int)> {
    let fraction = (bits % 0x10_0000_0000_0000) as nat;
    let exponent = (bits / 0x10_0000_0000_0000) % 0x800;
    if bits >= 0x8000_0000_0000_0000 || exponent == 0x7ff || (exponent == 0 && fraction == 0) {
        None
    } else if exponent == 0 {
        Some(nearest_scaled(fraction, 1, -1074))
    } else {
        Some((0x10_0000_0000_0000 + fraction, exponent - 1075))
    }
}

/// The bits of a power of two stand for it: where the sign is plus, the fraction
/// nothing and the exponent 1023 more than the power.
pub proof fn bits_of_powers_of_two(bits: u64, k: int)
    requires
        -1023 < k < 1024,
        bits == (k + 1023) * 0x10_0000_0000_0000,
    ensures
        positive_of_bits(bits) == Some((0x10_0000_0000_0000nat, k - 52)),
{
    let e = k + 1023;
    assert(bits as int % 0x10_0000_0000_0000 == 0 && bits as int / 0x10_0000_0000_0000 == e);
    assert(e % 0x800 == e);
}

/// Of numbers with all their bits the one with the greater bits is the greater,
/// and one more in the exponent doubles a number.
pub proof fn greater_bits_are_greater_numbers(a: u64, b: u64)
    requires
        0x10_0000_0000_0000 <= a < b < 0x7ff0_0000_0000_0000,
    ensures
        positive_of_bits(a) matches Some(x) && positive_of_bits(b) matches Some(y) && less(x, y),
        b == a + 0x10_0000_0000_0000 ==> positive_of_bits(b) == Some(
            (positive_of_bits(a)->Some_0.0, positive_of_bits(a)->Some_0.1 + 1),
        ),
{
    let (x, y) = (
        (0x10_0000_0000_0000nat + (a % 0x10_0000_0000_0000) as nat, a / 0x10_0000_0000_0000 - 1075),
        (0x10_0000_0000_0000nat + (b % 0x10_0000_0000_0000) as nat, b / 0x10_0000_0000_0000 - 1075),
    );
    assert(a / 0x10_0000_0000_0000 % 0x800 == a / 0x10_0000_0000_0000);
    assert(b / 0x10_0000_0000_0000 % 0x800 == b / 0x10_0000_0000_0000);
    assert(positive_of_bits(a) == Some(x));
    assert(positive_of_bits(b) == Some(y));
    lemma_less(x, y);
}

impl Double {
    /// The number above zero whose double-precision bits are `bits`.
    pub fn from_bits(bits: u64) -> (r: Option<Double>)
        ensures
            match r {
                Some(d) => positive_of_bits(bits) == Some(d@) && d.wf() && d.mantissa != 0
                    && -1_300 <= d.exponent <= 1_000,
                None => positive_of_bits(bits) is None,
            },
    {
        let fraction: u64 = bits % 0x10_0000_0000_0000;
        let exponent: u64 = (bits / 0x10_0000_0000_0000) % 0x800;
        if bits >= 0x8000_0000_0000_0000 || exponent == 0x7ff || (exponent == 0 && fraction == 0) {
            None
        } else if exponent == 0 {
            Some(rounded(fraction as u128, 1, -1074))
        } else {
            Some(
                Double {
                    mantissa: 0x10_0000_0000_0000 + fraction,
                    exponent: exponent as i32 - 1075,
                },
            )
        }
    }

    /// `a / b`, rounded.
    pub fn of_ratio(a: u64, b: u64) -> (r: Double)
        requires
            b > 0,
        ensures
            r@ == nearest(a as nat, b as nat),
            r.wf(),
            -130 <= r.exponent <= 80,
            r.mantissa == 0 <==> a == 0,
    {
        rounded(a as u128, b as u128, 0)
    }

    /// `self * other`, rounded.
    pub fn times(self, other: Double) -> (r: Double)
        requires
            self.wf(),
            other.wf(),
            -9_000 <= self.exponent <= 9_000,
            -9_000 <= other.exponent <= 9_000,
        ensures
            r@ == product(self@, other@),
            r.wf(),
            r.mantissa != 0 ==> self.exponent + other.exponent - 130 <= r.exponent
                <= self.exponent + other.exponent + 80,
            r.mantissa == 0 <==> self.mantissa == 0 || other.mantissa == 0,
    {
        assert(self.mantissa * other.mantissa < 0x8000_0000_0000_0000_0000_0000_0000_0000)
            by (nonlinear_arith)
            requires
                self.mantissa < 0x20_0000_0000_0000,
                other.mantissa < 0x20_0000_0000_0000,
        ;
        assert(self.mantissa * other.mantissa == 0 <==> self.mantissa == 0 || other.mantissa == 0)
            by (nonlinear_arith);
        rounded(
            self.mantissa as u128 * other.mantissa as u128,
            1,
            self.exponent + other.exponent,
        )
    }

    /// `self / other`, rounded.
    pub fn over(self, other: Double) -> (r: Double)
        requires
            self.wf(),
            other.wf(),
            other.mantissa != 0,
            -9_000 <= self.exponent <= 9_000,
            -9_000 <= other.exponent <= 9_000,
        ensures
            r@ == quotient(self@, other@),
            r.wf(),
            r.mantissa != 0 ==> self.exponent - other.exponent - 130 <= r.exponent
                <= self.exponent - other.exponent + 80,
            r.mantissa == 0 <==> self.mantissa == 0,
    {
        rounded(self.mantissa as u128, other.mantissa as u128, self.exponent - other.exponent)
    }

    /// `self + other`, rounded.
    pub fn plus(self, other: Double) -> (r: Double)
        requires
            self.wf(),
            other.wf(),
            -9_000 <= self.exponent <= 9_000,
            -9_000 <= other.exponent <= 9_000,
        ensures
            r@ == sum(self@, other@),
            r.wf(),
            r.mantissa == 0 <==> self.mantissa == 0 && other.mantissa == 0,
            ({
                let lo = if self.exponent < other.exponent {
                    self.exponent
                } else {
                    other.exponent
                };
                let hi = if self.exponent < other.exponent {
                    other.exponent
                } else {
                    self.exponent
                };
                lo - 130 <= r.exponent <= hi + 80
            }),
    {
        if self.mantissa == 0 {
            return other;
        }
        if other.mantissa == 0 {
            return self;
        }
        let (h, l) = if self.exponent >= other.exponent {
            (self, other)
        } else {
            (other, self)
        };
        let d: i32 = h.exponent - l.exponent;
        if d > 73 {
            return h;
        }
        let p: u128 = two_to(d as u32);
        proof {
            lemma2_to64();
            lemma_pow2_adds(64, 9);
            if d < 73 {
                lemma_pow2_strictly_increases(d as nat, 73);
            }
            assert(h.mantissa * p <= 0x1f_ffff_ffff_ffff * 9_444_732_965_739_290_427_392)
                by (nonlinear_arith)
                requires
                    h.mantissa <= 0x1f_ffff_ffff_ffff,
                    p <= 9_444_732_965_739_290_427_392,
            ;
            assert(h.mantissa * p >= 1) by (nonlinear_arith)
                requires
                    h.mantissa >= 1,
                    p >= 1,
            ;
        }
        rounded(h.mantissa as u128 * p + l.mantissa as u128, 1, l.exponent)
    }

    /// `self - other`, rounded; zero if `other` is greater.
    pub fn minus(self, other: Double) -> (r: Double)
        requires
            self.wf(),
            other.wf(),
            -9_000 <= self.exponent <= 9_000,
            -9_000 <= other.exponent <= 9_000,
        ensures
            r@ == difference(self@, other@),
            r.wf(),
            r.mantissa == 0 || r == self || other.exponent - 130 <= r.exponent <= other.exponent
                + 80,
    {
        if other.mantissa == 0 {
            return self;
        }
        let d: i32 = self.exponent - other.exponent;
        if d > 73 {
            return self;
        }
        if d < 0 {
            return Double { mantissa: 0, exponent: 0 };
        }
        let p: u128 = two_to(d as u32);
        proof {
            lemma2_to64();
            lemma_pow2_adds(64, 9);
            if d < 73 {
                lemma_pow2_strictly_increases(d as nat, 73);
            }
            assert(self.mantissa * p <= 0x1f_ffff_ffff_ffff * 9_444_732_965_739_290_427_392)
                by (nonlinear_arith)
                requires
                    self.mantissa <= 0x1f_ffff_ffff_ffff,
                    p <= 9_444_732_965_739_290_427_392,
            ;
        }
        let a: u128 = self.mantissa as u128 * p;
        if a < other.mantissa as u128 {
            return Double { mantissa: 0, exponent: 0 };
        }
        rounded(a - other.mantissa as u128, 1, other.exponent)
    }

    /// The part of the number before its point, or the greatest `u64`, and
    /// whether that is all of the number.
    fn split(self) -> (r: (u64, bool))
        requires
            self.wf(),
        ensures
            whole_part(self@) <= u64::MAX ==> r.0 == whole_part(self@),
            whole_part(self@) > u64::MAX ==> r.0 == u64::MAX && !r.1,
            whole_part(self@) <= u64::MAX ==> r.1 == (self@.1 >= 0 || self@.0 % pow2(
                (-self@.1) as nat,
            ) == 0),
    {
        let m: u128 = self.mantissa as u128;
        if m == 0 {
            assert(self@.0 * pow2(0) == 0) by (nonlinear_arith)
                requires
                    self@.0 == 0,
            ;
            return (0, true);
        }
        if self.exponent >= 12 {
            proof {
                lemma2_to64();
                let p = pow2(self.exponent as nat);
                if self.exponent > 12 {
                    lemma_pow2_strictly_increases(12, self.exponent as nat);
                }
                assert(m * p >= 0x10_0000_0000_0000 * 4096) by (nonlinear_arith)
                    requires
                        m >= 0x10_0000_0000_0000,
                        p >= 4096,
                ;
            }
            (u64::MAX, false)
        } else if self.exponent >= 0 {
            let p: u128 = two_to(self.exponent as u32);
            proof {
                lemma2_to64();
                if self.exponent < 12 {
                    lemma_pow2_strictly_increases(self.exponent as nat, 12);
                }
                assert(m * p <= 0x1f_ffff_ffff_ffff * 4096) by (nonlinear_arith)
                    requires
                        m <= 0x1f_ffff_ffff_ffff,
                        p <= 4096,
                ;
            }
            let v: u128 = m * p;
            if v > u64::MAX as u128 {
                (u64::MAX, false)
            } else {
                (v as u64, true)
            }
        } else if self.exponent <= -64 {
            proof {
                lemma_small_exponent(self@.0, (-self@.1) as nat);
                vstd::arithmetic::div_mod::lemma_small_mod(self@.0, pow2((-self@.1) as nat));
            }
            (0, false)
        } else {
            let p: u128 = two_to((-self.exponent) as u32);
            let v: u128 = m / p;
            proof {
                assert(v <= m) by (nonlinear_arith)
                    requires
                        v == m / p,
                        p >= 1,
                ;
            }
            (v as u64, m % p == 0)
        }
    }

    /// The part of the number before its point, or the greatest `u64`.
    pub fn to_u64(self) -> (r: u64)
        requires
            self.wf(),
        ensures
            r == crate::numeral::saturated(whole_part(self@)),
    {
        self.split().0
    }

    /// Whether the number is `n` or more.
    pub fn is_at_least(self, n: u32) -> (r: bool)
        requires
            self.wf(),
        ensures
            r == at_least(self@, n as nat),
    {
        let (w, exact) = self.split();
        proof {
            if self@.1 < 0 {
                lemma_pow2_pos((-self@.1) as nat);
                lemma_quotient_order(self@.0, pow2((-self@.1) as nat), n as nat);
            }
        }
        w >= n as u64
    }

    /// Whether the number is more than `n`.
    pub fn is_above(self, n: u32) -> (r: bool)
        requires
            self.wf(),
        ensures
            r == above(self@, n as nat),
    {
        let (w, exact) = self.split();
        proof {
            if self@.1 < 0 {
                lemma_pow2_pos((-self@.1) as nat);
                lemma_quotient_order(self@.0, pow2((-self@.1) as nat), n as nat);
            }
        }
        w > n as u64 || (w == n as u64 && !exact)
    }

    /// Whether the number is less than `other`.
    pub fn is_less(self, other: Double) -> (r: bool)
        requires
            self.wf(),
            other.wf(),
        ensures
            r == less(self@, other@),
    {
        proof {
            lemma_pow2_pos(
                (if self.exponent >= other.exponent {
                    self.exponent - other.exponent
                } else {
                    other.exponent - self.exponent
                }) as nat,
            );
            lemma_less(self@, other@);
        }
        if self.mantissa == 0 {
            other.mantissa != 0
        } else if other.mantissa == 0 {
            false
        } else if self.exponent == other.exponent {
            self.mantissa < other.mantissa
        } else {
            self.exponent < other.exponent
        }
    }

    /// The number to the nearest whole number, halfway to even.
    pub fn to_nearest(self) -> (r: u128)
        requires
            self.wf(),
            self.exponent <= 60,
        ensures
            r == round_whole(self@),
    {
        let m: u128 = self.mantissa as u128;
        if self.exponent >= 0 {
            let p: u128 = two_to(self.exponent as u32);
            proof {
                lemma2_to64();
                if self.exponent < 64 {
                    lemma_pow2_strictly_increases(self.exponent as nat, 64);
                }
                assert(m * p <= 0x1f_ffff_ffff_ffff * 0x1_0000_0000_0000_0000)
                    by (nonlinear_arith)
                    requires
                        m <= 0x1f_ffff_ffff_ffff,
                        p <= 0x1_0000_0000_0000_0000,
                ;
            }
            m * p
        } else if self.exponent <= -64 {
            proof {
                lemma_small_exponent(self@.0, (-self@.1) as nat);
            }
            0
        } else {
            rounded_div(m, two_to((-self.exponent) as u32))
        }
    }
}

/// `x` with three digits behind the point, rounded halfway to even.
pub open spec fn text_with_thousandths(x: (nat, int)) -> Seq<char> {
    if x.1 >= 0 {
        digits(x.0 * pow2(x.1 as nat)) + ".000"@
    } else {
        let t = round_half_even(x.0 * 1000, pow2((-x.1) as nat));
        digits(t / 1000) + "."@ + three_digits(t % 1000)
    }
}

/// `x` with one digit behind the point, rounded halfway to even.
pub open spec fn text_with_tenths(x: (nat, int)) -> Seq<char> {
    if x.1 >= 0 {
        digits(x.0 * pow2(x.1 as nat)) + ".0"@
    } else {
        tenths_text(round_half_even(x.0 * 10, pow2((-x.1) as nat)))
    }
}

/// A number below a thousand in three digits.
pub open spec fn three_digits(n: nat) -> Seq<char> {
    seq![digit_char(n / 100 % 10), digit_char(n / 10 % 10), digit_char(n % 10)]
}

/// What is written with one digit behind the point is the number to the nearest
/// tenth: off by half a tenth at most.
pub proof fn tenths_are_the_nearest(x: (nat, int)) -> (t: nat)
    ensures
        text_with_tenths(x) == tenths_text(t),
        x.1 >= 0 ==> t == 10 * (x.0 * pow2(x.1 as nat)),
        x.1 < 0 ==> 2 * (t * pow2((-x.1) as nat)) <= 20 * x.0 + pow2((-x.1) as nat) && 20 * x.0 <= 2
            * (t * pow2((-x.1) as nat)) + pow2((-x.1) as nat),
{
    if x.1 >= 0 {
        let n = x.0 * pow2(x.1 as nat);
        reveal_strlit(".0");
        assert(10 * n / 10 == n && 10 * n % 10 == 0);
        assert(".0"@ =~= seq!['.', digit_char(0)]);
        10 * n
    } else {
        let d = pow2((-x.1) as nat);
        lemma_pow2_pos((-x.1) as nat);
        let a = x.0 * 10;
        vstd::arithmetic::div_mod::lemma_fundamental_div_mod(a as int, d as int);
        vstd::arithmetic::div_mod::lemma_mod_bound(a as int, d as int);
        let q = a / d;
        assert(d * q == q * d) by (nonlinear_arith);
        assert((q + 1) * d == q * d + d) by (nonlinear_arith);
        round_half_even(a, d)
    }
}

/// What is written with three digits behind the point is the number to the
/// nearest thousandth.
pub proof fn thousandths_are_the_nearest(x: (nat, int)) -> (t: nat)
    ensures
        x.1 < 0 ==> text_with_thousandths(x) == digits(t / 1000) + "."@ + three_digits(t % 1000) && 2
            * (t * pow2((-x.1) as nat)) <= 2000 * x.0 + pow2((-x.1) as nat) && 2000 * x.0 <= 2 * (t
            * pow2((-x.1) as nat)) + pow2((-x.1) as nat),
        x.1 >= 0 ==> text_with_thousandths(x) == digits(t / 1000) + ".000"@ && t == 1000 * (x.0
            * pow2(x.1 as nat)),
{
    if x.1 >= 0 {
        let n = x.0 * pow2(x.1 as nat);
        assert(1000 * n / 1000 == n);
        1000 * n
    } else {
        let d = pow2((-x.1) as nat);
        lemma_pow2_pos((-x.1) as nat);
        let a = x.0 * 1000;
        vstd::arithmetic::div_mod::lemma_fundamental_div_mod(a as int, d as int);
        vstd::arithmetic::div_mod::lemma_mod_bound(a as int, d as int);
        let q = a / d;
        assert(d * q == q * d) by (nonlinear_arith);
        assert((q + 1) * d == q * d + d) by (nonlinear_arith);
        round_half_even(a, d)
    }
}

impl Double {
    /// The number to the nearest whole number, halfway to even, as a numeral.
    pub fn whole_text(self) -> (r: String)
        requires
            self.wf(),
        ensures
            r@ == digits(round_whole(self@)),
    {
        if self.exponent >= 0 {
            shifted_decimal(self.mantissa, self.exponent as u32)
        } else {
            decimal(self.to_nearest())
        }
    }

    /// The number with one digit behind the point.
    pub fn tenths_text(self) -> (r: String)
        requires
            self.wf(),
        ensures
            r@ == text_with_tenths(self@),
    {
        if self.exponent >= 0 {
            let mut s = shifted_decimal(self.mantissa, self.exponent as u32);
            s.append(".0");
            return s;
        }
        let a: u128 = self.mantissa as u128 * 10;
        let t: u128 = if self.exponent <= -70 {
            proof {
                lemma_tiny(a as nat, (-self@.1) as nat);
            }
            0
        } else {
            rounded_div(a, two_to((-self.exponent) as u32))
        };
        tenths(t)
    }

    /// The number with three digits behind the point.
    pub fn thousandths_text(self) -> (r: String)
        requires
            self.wf(),
        ensures
            r@ == text_with_thousandths(self@),
    {
        if self.exponent >= 0 {
            let mut s = shifted_decimal(self.mantissa, self.exponent as u32);
            s.append(".000");
            return s;
        }
        let a: u128 = self.mantissa as u128 * 1000;
        let t: u128 = if self.exponent <= -70 {
            proof {
                lemma_tiny(a as nat, (-self@.1) as nat);
            }
            0
        } else {
            rounded_div(a, two_to((-self.exponent) as u32))
        };
        let mut s = decimal(t / 1000);
        s.append(".");
        let n: u128 = t % 1000;
        let x: u8 = (n / 100 % 10) as u8;
        let y: u8 = (n / 10 % 10) as u8;
        let z: u8 = (n % 10) as u8;
        s.push((48 + x) as char);
        s.push((48 + y) as char);
        s.push((48 + z) as char);
        assert(s@ =~= digits(t as nat / 1000) + "."@ + three_digits(t as nat % 1000));
        s
    }
}

proof fn lemma_tiny(a: nat, k: nat)
    requires
        a < 0x20_0000_0000_0000 * 1000,
        k >= 70,
    ensures
        round_half_even(a, pow2(k)) == 0,
{
    lemma2_to64();
    lemma_pow2_adds(64, 6);
    if k > 70 {
        lemma_pow2_strictly_increases(70, k);
    }
    vstd::arithmetic::div_mod::lemma_basic_div(a as int, pow2(k) as int);
    vstd::arithmetic::div_mod::lemma_small_mod(a, pow2(k));
}

proof fn lemma_quotient_order(m: nat, p: nat, n: nat)
    requires
        p >= 1,
    ensures
        m >= n * p <==> m / p >= n,
        m > n * p <==> m / p > n || (m / p == n && m % p != 0),
{
    vstd::arithmetic::div_mod::lemma_fundamental_div_mod(m as int, p as int);
    let q = m / p;
    let r = m % p;
    assert(r < p);
    assert(m == p * q + r);
    if q >= n {
        assert(p * q >= n * p) by (nonlinear_arith)
            requires
                q >= n,
                p >= 1,
        ;
    } else {
        assert(p * q + p <= n * p) by (nonlinear_arith)
            requires
                q + 1 <= n,
                p >= 1,
        ;
    }
    if q > n {
        assert(p * q >= n * p + p) by (nonlinear_arith)
            requires
                q >= n + 1,
                p >= 1,
        ;
    }
    if q == n {
        assert(p * q == n * p) by (nonlinear_arith)
            requires
                q == n,
        ;
    }
}

pub proof fn lemma_less(x: (nat, int), y: (nat, int))
    requires
        x.0 < 0x20_0000_0000_0000,
        y.0 < 0x20_0000_0000_0000,
        x.0 == 0 ==> x.1 == 0,
        y.0 == 0 ==> y.1 == 0,
        x.0 != 0 ==> x.0 >= 0x10_0000_0000_0000,
        y.0 != 0 ==> y.0 >= 0x10_0000_0000_0000,
    ensures
        x.0 == 0 ==> (less(x, y) <==> y.0 != 0),
        y.0 == 0 ==> !less(x, y),
        x.0 != 0 && y.0 != 0 ==> (less(x, y) <==> x.1 < y.1 || (x.1 == y.1 && x.0 < y.0)),
{
    lemma2_to64();
    if x.1 >= y.1 {
        let d = (x.1 - y.1) as nat;
        let p = pow2(d);
        lemma_pow2_pos(d);
        if d > 0 {
            lemma_pow2_unfold(d);
            lemma_pow2_pos((d - 1) as nat);
            assert(p >= 2);
            assert(x.0 * p >= 2 * x.0) by (nonlinear_arith)
                requires
                    p >= 2,
            ;
        } else {
            assert(p == 1);
            assert(x.0 * p == x.0) by (nonlinear_arith)
                requires
                    p == 1,
            ;
        }
        if x.0 == 0 {
            assert(x.0 * p == 0) by (nonlinear_arith)
                requires
                    x.0 == 0,
            ;
        }
    } else {
        let d = (y.1 - x.1) as nat;
        let p = pow2(d);
        lemma_pow2_unfold(d);
        lemma_pow2_pos((d - 1) as nat);
        assert(p >= 2);
        assert(y.0 * p >= 2 * y.0) by (nonlinear_arith)
            requires
                p >= 2,
        ;
        if y.0 == 0 {
            assert(y.0 * p == 0) by (nonlinear_arith)
                requires
                    y.0 == 0,
            ;
        }
    }
}

} // verus!
