//! Rounding to 53 significant bits keeps the order of numbers.

use vstd::arithmetic::div_mod::{
    lemma_div_by_multiple, lemma_div_denominator, lemma_div_is_ordered, lemma_fundamental_div_mod,
    lemma_fundamental_div_mod_converse, lemma_mod_bound,
};
use vstd::arithmetic::power2::{
    lemma2_to64, lemma_pow2_adds, lemma_pow2_pos, lemma_pow2_strictly_increases, lemma_pow2_unfold,
    pow2,
};
use vstd::prelude::*;

use crate::double::{
    difference, grow, lemma_less, less, nearest, nearest_scaled, product, quotient, shrink, sum,
    whole_part,
};
use crate::numeral::round_half_even;

verus! {

/// Zero, or a number with all its 53 bits.
pub open spec fn is_number(x: (nat, int)) -> bool {
    &&& x.0 == 0 ==> x.1 == 0
    &&& x.0 != 0 ==> 0x10_0000_0000_0000 <= x.0 < 0x20_0000_0000_0000
}

/// `x <= y`.
pub open spec fn at_most(x: (nat, int), y: (nat, int)) -> bool {
    !less(y, x)
}

proof fn lemma_round_order(a: nat, b: nat, c: nat, d: nat)
    requires
        b > 0,
        d > 0,
        a * d <= c * b,
    ensures
        round_half_even(a, b) <= round_half_even(c, d),
{
    let (q1, r1) = (a / b, a % b);
    let (q2, r2) = (c / d, c % d);
    lemma_fundamental_div_mod(a as int, b as int);
    lemma_fundamental_div_mod(c as int, d as int);
    lemma_mod_bound(a as int, b as int);
    lemma_mod_bound(c as int, d as int);
    assert(q1 <= q2) by (nonlinear_arith)
        requires
            a == b * q1 + r1,
            c == d * q2 + r2,
            0 <= r1,
            r2 < d,
            b > 0,
            d > 0,
            a * d <= c * b,
    ;
    if q1 == q2 {
        assert(r1 * d <= r2 * b) by (nonlinear_arith)
            requires
                a == b * q1 + r1,
                c == d * q1 + r2,
                a * d <= c * b,
        ;
        if 2 * r1 > b {
            assert(2 * r2 > d) by (nonlinear_arith)
                requires
                    r1 * d <= r2 * b,
                    2 * r1 > b,
                    b > 0,
                    d > 0,
            ;
        } else if 2 * r1 == b {
            assert(2 * r2 >= d) by (nonlinear_arith)
                requires
                    r1 * d <= r2 * b,
                    2 * r1 == b,
                    b > 0,
                    d > 0,
            ;
        }
    }
}

proof fn lemma_shrink(a: nat, b: nat, e: int)
    requires
        b > 0,
    ensures
        ({
            let r = shrink(a, b, e);
            &&& r.0 == a
            &&& r.2 >= e
            &&& r.1 == b * pow2((r.2 - e) as nat)
            &&& r.1 > 0
            &&& a < 0x20_0000_0000_0000 * r.1
            &&& r.2 > e ==> a >= 0x10_0000_0000_0000 * r.1
        }),
    decreases a - b,
{
    lemma2_to64();
    if a >= 0x20_0000_0000_0000 * b {
        lemma_shrink(a, 2 * b, e + 1);
        let r = shrink(a, 2 * b, e + 1);
        let k = (r.2 - e) as nat;
        lemma_pow2_unfold(k);
        assert(2 * b * pow2((k - 1) as nat) == b * pow2(k)) by (nonlinear_arith)
            requires
                pow2(k) == 2 * pow2((k - 1) as nat),
        ;
        if k == 1 {
            assert(r.1 == 2 * b * pow2(0));
        }
    } else {
        assert(b * pow2(0) == b) by (nonlinear_arith)
            requires
                pow2(0) == 1,
        ;
    }
}

/// A ratio that is shrunk stays 2^52 at least.
pub proof fn shrunk_is_not_small(a: nat, b: nat, e: int)
    requires
        b > 0,
    ensures
        ({
            let r = shrink(a, b, e);
            r.2 > e ==> a >= 0x10_0000_0000_0000 * r.1
        }),
{
    lemma_shrink(a, b, e);
}

proof fn lemma_grow(a: nat, b: nat, e: int)
    requires
        a > 0,
        b > 0,
        a < 0x20_0000_0000_0000 * b,
    ensures
        ({
            let r = grow(a, b, e);
            &&& r.1 == b
            &&& r.2 <= e
            &&& r.0 == a * pow2((e - r.2) as nat)
            &&& 0x10_0000_0000_0000 * b <= r.0 < 0x20_0000_0000_0000 * b
            &&& a >= 0x10_0000_0000_0000 * b ==> r.2 == e
        }),
    decreases
            if a < 0x10_0000_0000_0000 * b {
                0x10_0000_0000_0000 * b - a
            } else {
                0
            },
{
    lemma2_to64();
    if a < 0x10_0000_0000_0000 * b {
        lemma_grow(2 * a, b, e - 1);
        let r = grow(2 * a, b, e - 1);
        let k = (e - r.2) as nat;
        lemma_pow2_unfold(k);
        assert(2 * a * pow2((k - 1) as nat) == a * pow2(k)) by (nonlinear_arith)
            requires
                pow2(k) == 2 * pow2((k - 1) as nat),
        ;
    } else {
        assert(a * pow2(0) == a) by (nonlinear_arith)
            requires
                pow2(0) == 1,
        ;
    }
}

/// How far `nearest_scaled` shifts the dividend and the divisor.
spec fn shifts(a: nat, b: nat, e: int) -> (nat, nat) {
    let (a1, b1, e1) = shrink(a, b, e);
    let (a2, b2, e2) = grow(a1, b1, e1);
    ((e1 - e2) as nat, (e1 - e) as nat)
}

proof fn lemma_shifts(a: nat, b: nat, e: int)
    requires
        a > 0,
        b > 0,
    ensures
        ({
            let (j, k) = shifts(a, b, e);
            let (a2, b2) = (a * pow2(j), b * pow2(k));
            let m = round_half_even(a2, b2);
            &&& b2 > 0
            &&& 0x10_0000_0000_0000 * b2 <= a2 < 0x20_0000_0000_0000 * b2
            &&& 0x10_0000_0000_0000 <= m <= 0x20_0000_0000_0000
            &&& nearest_scaled(a, b, e) == if m == 0x20_0000_0000_0000 {
                (0x10_0000_0000_0000nat, e + k - j + 1)
            } else {
                (m, e + k - j)
            }
        }),
{
    lemma_shrink(a, b, e);
    let (a1, b1, e1) = shrink(a, b, e);
    lemma_grow(a1, b1, e1);
    let (a2, b2, e2) = grow(a1, b1, e1);
    lemma_fundamental_div_mod(a2 as int, b2 as int);
    lemma_mod_bound(a2 as int, b2 as int);
    let q = a2 / b2;
    assert(0x10_0000_0000_0000 <= q < 0x20_0000_0000_0000) by (nonlinear_arith)
        requires
            a2 == b2 * q + a2 % b2,
            0 <= a2 % b2 < b2,
            0x10_0000_0000_0000 * b2 <= a2,
            a2 < 0x20_0000_0000_0000 * b2,
    ;
}

/// How often rounding doubles the dividend and the divisor, so that their
/// quotient has 53 bits, and what it makes of it.
pub proof fn rounding_steps(a: nat, b: nat, e: int) -> (r: (nat, nat))
    requires
        a > 0,
        b > 0,
    ensures
        ({
            let (a2, b2) = (a * pow2(r.0), b * pow2(r.1));
            let m = round_half_even(a2, b2);
            &&& b2 > 0
            &&& 0x10_0000_0000_0000 * b2 <= a2
            &&& nearest_scaled(a, b, e) == if m == 0x20_0000_0000_0000 {
                (0x10_0000_0000_0000nat, e + r.1 - r.0 + 1)
            } else {
                (m, e + r.1 - r.0)
            }
        }),
{
    lemma_shifts(a, b, e);
    shifts(a, b, e)
}

/// What rounding gives is a number.
pub proof fn rounded_is_number(a: nat, b: nat, e: int)
    requires
        b > 0,
    ensures
        is_number(nearest_scaled(a, b, e)),
        nearest_scaled(a, b, e).0 == 0 <==> a == 0,
{
    if a > 0 {
        lemma_shifts(a, b, e);
    }
}

proof fn lemma_power_order(j: nat, k: nat)
    ensures
        j < k ==> 2 * pow2(j) <= pow2(k),
{
    if j < k {
        lemma_pow2_unfold(k);
        if j < k - 1 {
            lemma_pow2_strictly_increases(j, (k - 1) as nat);
        }
    }
}

/// What a ratio below 2^53 is rounded to, given how often it is doubled to
/// reach 2^52.
pub proof fn small_ratio_rounds(a: nat, b: nat, e: int, j: nat)
    requires
        b > 0,
        0x10_0000_0000_0000 * b <= a * pow2(j) < 0x20_0000_0000_0000 * b,
        round_half_even(a * pow2(j), b) != 0x20_0000_0000_0000,
    ensures
        nearest_scaled(a, b, e) == (round_half_even(a * pow2(j), b), e - j),
{
    let p = pow2(j);
    lemma_pow2_pos(j);
    assert(0 < a && a < 0x20_0000_0000_0000 * b) by (nonlinear_arith)
        requires
            b > 0,
            p >= 1,
            0x10_0000_0000_0000 * b <= a * p,
            a * p < 0x20_0000_0000_0000 * b,
    ;
    assert(shrink(a, b, e) == (a, b, e));
    lemma_grow(a, b, e);
    let r = grow(a, b, e);
    let i = (e - r.2) as nat;
    let q = pow2(i);
    lemma_power_order(i, j);
    lemma_power_order(j, i);
    assert(i == j) by {
        if i < j {
            assert(2 * (a * q) <= a * p) by (nonlinear_arith)
                requires
                    2 * q <= p,
            ;
        } else if j < i {
            assert(2 * (a * p) <= a * q) by (nonlinear_arith)
                requires
                    2 * p <= q,
            ;
        }
    }
}

/// What a whole number of 2^53 or more is rounded to, given how often it is
/// halved to go below.
pub proof fn large_number_rounds(a: nat, e: int, k: nat)
    requires
        k > 0,
        0x10_0000_0000_0000 * pow2(k) <= a < 0x20_0000_0000_0000 * pow2(k),
        round_half_even(a, pow2(k)) != 0x20_0000_0000_0000,
    ensures
        nearest_scaled(a, 1, e) == (round_half_even(a, pow2(k)), e + k),
{
    lemma_pow2_pos(k);
    lemma_shrink(a, 1, e);
    let r = shrink(a, 1, e);
    let i = (r.2 - e) as nat;
    lemma_power_order(i, k);
    lemma_power_order(k, i);
    lemma_grow(a, r.1, r.2);
    let g = grow(a, r.1, r.2);
    lemma2_to64();
    assert(a * pow2(0) == a) by (nonlinear_arith)
        requires
            pow2(0) == 1,
    ;
    if i == 0 {
        lemma_pow2_unfold(k);
    }
    assert(i == k);
    assert(g.2 == r.2);
}

/// The order of `a / b * 2^e` and `c / d * 2^f`, both times `2^n`, is the order
/// of what they are rounded to.
pub proof fn rounding_keeps_order(a: nat, b: nat, e: int, c: nat, d: nat, f: int, n: nat)
    requires
        b > 0,
        d > 0,
        e + n >= 0,
        f + n >= 0,
        a * d * pow2((e + n) as nat) <= c * b * pow2((f + n) as nat),
    ensures
        at_most(nearest_scaled(a, b, e), nearest_scaled(c, d, f)),
{
    let x = nearest_scaled(a, b, e);
    let y = nearest_scaled(c, d, f);
    rounded_is_number(a, b, e);
    rounded_is_number(c, d, f);
    lemma_less(y, x);
    if a > 0 {
        let p = pow2((e + n) as nat);
        let q = pow2((f + n) as nat);
        lemma_pow2_pos((e + n) as nat);
        if c == 0 {
            assert(a * d * p > 0) by (nonlinear_arith)
                requires
                    a > 0,
                    d > 0,
                    p > 0,
            ;
            assert(c * b * q == 0) by (nonlinear_arith)
                requires
                    c == 0,
            ;
        } else {
            lemma_shifts(a, b, e);
            lemma_shifts(c, d, f);
            let (j1, k1) = shifts(a, b, e);
            let (j2, k2) = shifts(c, d, f);
            lemma_scaled_order(a, b, e, c, d, f, n, j1, k1, j2, k2);
            let big = n + j1 + j2;
            let (a2, b2, e2) = (a * pow2(j1), b * pow2(k1), e + k1 - j1);
            let (c2, d2, f2) = (c * pow2(j2), d * pow2(k2), f + k2 - j2);
            lemma_normal_order(a2, b2, e2, c2, d2, f2, big);
            if e2 == f2 {
                lemma_round_order(a2, b2, c2, d2);
            }
        }
    }
}

proof fn lemma_regroup(a: nat, u: nat, d: nat, v: nat, p: nat, w: nat, z: nat)
    ensures
        (a * u) * (d * v) * (p * (w * z)) == (a * d * p) * (u * w * z * v),
{
    assert((a * u) * (d * v) == (a * d) * (u * v)) by (nonlinear_arith);
    let x = a * d;
    let y = u * v;
    let k = w * z;
    assert((x * y) * (p * k) == (x * p) * (y * k)) by (nonlinear_arith);
    assert((u * v) * (w * z) == u * w * z * v) by (nonlinear_arith);
}

/// Shifts change no order.
proof fn lemma_scaled_order(
    a: nat,
    b: nat,
    e: int,
    c: nat,
    d: nat,
    f: int,
    n: nat,
    j1: nat,
    k1: nat,
    j2: nat,
    k2: nat,
)
    requires
        e + n >= 0,
        f + n >= 0,
        a * d * pow2((e + n) as nat) <= c * b * pow2((f + n) as nat),
    ensures
        (a * pow2(j1)) * (d * pow2(k2)) * pow2((e + k1 - j1 + n + j1 + j2) as nat) <= (c * pow2(
            j2,
        )) * (b * pow2(k1)) * pow2((f + k2 - j2 + n + j1 + j2) as nat),
{
    let p = pow2((e + n) as nat);
    let q = pow2((f + n) as nat);
    let (u1, v1, u2, v2) = (pow2(j1), pow2(k1), pow2(j2), pow2(k2));
    lemma_pow2_adds(k1, j2);
    lemma_pow2_adds((e + n) as nat, k1 + j2);
    lemma_pow2_adds(k2, j1);
    lemma_pow2_adds((f + n) as nat, k2 + j1);
    assert((e + k1 - j1 + n + j1 + j2) as nat == (e + n) as nat + (k1 + j2));
    assert((f + k2 - j2 + n + j1 + j2) as nat == (f + n) as nat + (k2 + j1));
    let t = u1 * v1 * u2 * v2;
    lemma_regroup(a, u1, d, v2, p, v1, u2);
    lemma_regroup(c, u2, b, v1, q, v2, u1);
    assert(u2 * v2 * u1 * v1 == t) by (nonlinear_arith)
        requires
            t == u1 * v1 * u2 * v2,
    ;
    assert((a * d * p) * t <= (c * b * q) * t) by (nonlinear_arith)
        requires
            a * d * p <= c * b * q,
            t >= 0,
    ;
}

/// Of numbers with quotients from 2^52 to 2^53, the exponents decide, then the
/// quotients.
proof fn lemma_normal_order(a: nat, b: nat, e: int, c: nat, d: nat, f: int, n: nat)
    requires
        b > 0,
        d > 0,
        e + n >= 0,
        f + n >= 0,
        0x10_0000_0000_0000 * b <= a < 0x20_0000_0000_0000 * b,
        0x10_0000_0000_0000 * d <= c < 0x20_0000_0000_0000 * d,
        a * d * pow2((e + n) as nat) <= c * b * pow2((f + n) as nat),
    ensures
        e <= f,
        e == f ==> a * d <= c * b,
{
    let p = pow2((e + n) as nat);
    let q = pow2((f + n) as nat);
    lemma_pow2_pos((e + n) as nat);
    lemma_pow2_pos((f + n) as nat);
    if e > f {
        lemma_pow2_unfold((f + n + 1) as nat);
        if e > f + 1 {
            lemma_pow2_strictly_increases((f + n + 1) as nat, (e + n) as nat);
        }
        assert(p >= 2 * q);
        assert(a * d * p >= 0x20_0000_0000_0000 * (b * d) * q) by (nonlinear_arith)
            requires
                a >= 0x10_0000_0000_0000 * b,
                p >= 2 * q,
                q > 0,
        ;
        assert(c * b * q < 0x20_0000_0000_0000 * (b * d) * q) by (nonlinear_arith)
            requires
                c < 0x20_0000_0000_0000 * d,
                b > 0,
                q > 0,
        ;
    } else if e == f {
        assert(a * d <= c * b) by (nonlinear_arith)
            requires
                a * d * p <= c * b * p,
                p > 0,
        ;
    }
}

// ---------------------------------------------------------------------------
// Order of sums, products and quotients
// ---------------------------------------------------------------------------

/// `x * 2^n`, for an `n` that makes it whole.
pub open spec fn scaled(x: (nat, int), n: int) -> nat {
    x.0 * pow2((x.1 + n) as nat)
}

/// The order of numbers is that of their multiples.
pub proof fn scaled_keeps_order(x: (nat, int), y: (nat, int), n: int)
    requires
        is_number(x),
        is_number(y),
        at_most(x, y),
        x.1 + n >= 0,
        y.1 + n >= 0,
    ensures
        scaled(x, n) <= scaled(y, n),
{
    lemma_less(y, x);
    let p = pow2((x.1 + n) as nat);
    let q = pow2((y.1 + n) as nat);
    lemma_pow2_pos((x.1 + n) as nat);
    lemma_pow2_pos((y.1 + n) as nat);
    if x.0 == 0 {
        assert(x.0 * p == 0) by (nonlinear_arith)
            requires
                x.0 == 0,
        ;
    } else if x.1 == y.1 {
        assert(x.0 * p <= y.0 * p) by (nonlinear_arith)
            requires
                x.0 <= y.0,
        ;
    } else {
        assert(x.1 < y.1);
        lemma_pow2_unfold((x.1 + n + 1) as nat);
        if y.1 > x.1 + 1 {
            lemma_pow2_strictly_increases((x.1 + n + 1) as nat, (y.1 + n) as nat);
        }
        assert(x.0 * p <= y.0 * q) by (nonlinear_arith)
            requires
                x.0 < 0x20_0000_0000_0000,
                y.0 >= 0x10_0000_0000_0000,
                q >= 2 * p,
        ;
    }
}

/// A number with less than half a unit more is rounded back to it.
proof fn lemma_exact(m: nat, t: nat, l: nat, e: int)
    requires
        0x10_0000_0000_0000 <= m < 0x20_0000_0000_0000,
        l == 0 || 2 * l < pow2(t),
    ensures
        nearest_scaled(m * pow2(t) + l, 1, e) == (m, e + t),
{
    let p = pow2(t);
    lemma_pow2_pos(t);
    let a = m * p + l;
    assert(0x10_0000_0000_0000 * p <= a < 0x20_0000_0000_0000 * p) by (nonlinear_arith)
        requires
            a == m * p + l,
            0x10_0000_0000_0000 <= m,
            m + 1 <= 0x20_0000_0000_0000,
            l < p,
    ;
    lemma_shrink(a, 1, e);
    let (a1, b1, e1) = shrink(a, 1, e);
    let k = (e1 - e) as nat;
    assert(b1 == pow2(k)) by (nonlinear_arith)
        requires
            b1 == 1 * pow2(k),
    ;
    if k < t {
        lemma_pow2_unfold(k + 1);
        if k + 1 < t {
            lemma_pow2_strictly_increases(k + 1, t);
        }
    } else if k > t {
        lemma_pow2_unfold(t + 1);
        if t + 1 < k {
            lemma_pow2_strictly_increases(t + 1, k);
        }
    }
    assert(k == t);
    lemma_grow(a1, b1, e1);
    lemma2_to64();
    assert(a1 * pow2(0) == a1) by (nonlinear_arith)
        requires
            pow2(0) == 1,
    ;
    assert(a == m * p + l);
    lemma_fundamental_div_mod_converse(a as int, p as int, m as int, l as int);
    assert(a > 0) by (nonlinear_arith)
        requires
            0x10_0000_0000_0000 * p <= a,
            p > 0,
    ;
}

/// Rounding a number gives it back.
pub proof fn number_is_exact(x: (nat, int))
    requires
        is_number(x),
    ensures
        nearest_scaled(x.0, 1, x.1) == x,
{
    if x.0 > 0 {
        lemma2_to64();
        lemma_exact(x.0, 0, 0, x.1);
        assert(x.0 * pow2(0) == x.0) by (nonlinear_arith)
            requires
                pow2(0) == 1,
        ;
    }
}

/// The exact sum of two numbers: a whole number times a power of two.
spec fn exact_sum(x: (nat, int), y: (nat, int)) -> (nat, int) {
    if x.1 >= y.1 {
        (x.0 * pow2((x.1 - y.1) as nat) + y.0, y.1)
    } else {
        (y.0 * pow2((y.1 - x.1) as nat) + x.0, x.1)
    }
}

proof fn lemma_sum_rounds(x: (nat, int), y: (nat, int))
    requires
        is_number(x),
        is_number(y),
        x.0 != 0,
        y.0 != 0,
    ensures
        sum(x, y) == nearest_scaled(exact_sum(x, y).0, 1, exact_sum(x, y).1),
{
    let (h, l) = if x.1 >= y.1 {
        (x, y)
    } else {
        (y, x)
    };
    let d = h.1 - l.1;
    if d > 73 {
        lemma2_to64();
        lemma_pow2_strictly_increases(64, d as nat);
        lemma_exact(h.0, d as nat, l.0, l.1);
    }
}

proof fn lemma_exact_sum(x: (nat, int), y: (nat, int), n: int)
    requires
        x.1 + n >= 0,
        y.1 + n >= 0,
    ensures
        scaled(exact_sum(x, y), n) == scaled(x, n) + scaled(y, n),
{
    let (h, l) = if x.1 >= y.1 {
        (x, y)
    } else {
        (y, x)
    };
    let d = (h.1 - l.1) as nat;
    let p = pow2((l.1 + n) as nat);
    let q = pow2(d);
    lemma_pow2_adds(d, (l.1 + n) as nat);
    assert(pow2((h.1 + n) as nat) == q * p);
    assert((h.0 * q + l.0) * p == h.0 * (q * p) + l.0 * p) by (nonlinear_arith);
}

/// What is added to is never made smaller, and more is never made of less.
pub proof fn sum_keeps_order(x: (nat, int), y: (nat, int), z: (nat, int))
    requires
        is_number(x),
        is_number(y),
        is_number(z),
        at_most(y, z),
    ensures
        at_most(sum(x, y), sum(x, z)),
        is_number(sum(x, y)),
{
    lemma_less(z, y);
    if x.0 != 0 && y.0 != 0 {
        lemma_sum_rounds(x, y);
        rounded_is_number(exact_sum(x, y).0, 1, exact_sum(x, y).1);
    }
    if x.0 == 0 {
    } else if z.0 == 0 {
        lemma_less(x, x);
    } else {
        lemma_sum_rounds(x, z);
        let n = most(most(-x.1, -y.1), most(-z.1, 0)) as int;
        lemma_exact_sum(x, z, n);
        scaled_keeps_order(y, z, n);
        let b = exact_sum(x, z);
        assert(b.1 + n >= 0);
        let a = if y.0 == 0 {
            x
        } else {
            exact_sum(x, y)
        };
        if y.0 == 0 {
            number_is_exact(x);
        } else {
            lemma_sum_rounds(x, y);
            lemma_exact_sum(x, y, n);
        }
        assert(scaled(a, n) <= scaled(b, n));
        let (p, q) = (pow2((a.1 + n) as nat), pow2((b.1 + n) as nat));
        assert(a.0 * 1 * p <= b.0 * 1 * q) by (nonlinear_arith)
            requires
                a.0 * p <= b.0 * q,
        ;
        rounding_keeps_order(a.0, 1, a.1, b.0, 1, b.1, n as nat);
    }
}

pub open spec fn most(a: int, b: int) -> int {
    if a >= b {
        a
    } else {
        b
    }
}

/// A product grows with its factor.
pub proof fn product_keeps_order(x: (nat, int), y: (nat, int), z: (nat, int))
    requires
        is_number(x),
        is_number(y),
        is_number(z),
        at_most(x, y),
    ensures
        at_most(product(x, z), product(y, z)),
        is_number(product(x, z)),
{
    rounded_is_number(x.0 * z.0, 1, x.1 + z.1);
    let n = most(most(-x.1, -y.1), most(z.1, 0));
    scaled_keeps_order(x, y, n);
    let (p, q) = (pow2((x.1 + n) as nat), pow2((y.1 + n) as nat));
    assert((x.0 * z.0) * 1 * p <= (y.0 * z.0) * 1 * q) by (nonlinear_arith)
        requires
            x.0 * p <= y.0 * q,
    ;
    rounding_keeps_order(x.0 * z.0, 1, x.1 + z.1, y.0 * z.0, 1, y.1 + z.1, (n - z.1) as nat);
}

/// A quotient grows with its dividend.
pub proof fn quotient_keeps_order(x: (nat, int), y: (nat, int), z: (nat, int))
    requires
        is_number(x),
        is_number(y),
        is_number(z),
        z.0 != 0,
        at_most(x, y),
    ensures
        at_most(quotient(x, z), quotient(y, z)),
        is_number(quotient(x, z)),
{
    rounded_is_number(x.0, z.0, x.1 - z.1);
    let n = most(most(-x.1, -y.1), most(-z.1, 0));
    scaled_keeps_order(x, y, n);
    let (p, q) = (pow2((x.1 + n) as nat), pow2((y.1 + n) as nat));
    assert(x.0 * z.0 * p <= y.0 * z.0 * q) by (nonlinear_arith)
        requires
            x.0 * p <= y.0 * q,
    ;
    rounding_keeps_order(x.0, z.0, x.1 - z.1, y.0, z.0, y.1 - z.1, (n + z.1) as nat);
}

/// A quotient shrinks as its divisor grows.
pub proof fn quotient_reverses_order(x: (nat, int), y: (nat, int), z: (nat, int))
    requires
        is_number(x),
        is_number(y),
        is_number(z),
        y.0 != 0,
        at_most(y, z),
    ensures
        at_most(quotient(x, z), quotient(x, y)),
        is_number(quotient(x, y)),
{
    lemma_less(z, y);
    rounded_is_number(x.0, y.0, x.1 - y.1);
    let n = most(most(-y.1, -z.1), most(x.1 - y.1 - z.1, 0));
    scaled_keeps_order(y, z, n);
    let (p, q) = (pow2((y.1 + n) as nat), pow2((z.1 + n) as nat));
    assert(x.0 * y.0 * p <= x.0 * z.0 * q) by (nonlinear_arith)
        requires
            y.0 * p <= z.0 * q,
    ;
    rounding_keeps_order(
        x.0,
        z.0,
        x.1 - z.1,
        x.0,
        y.0,
        x.1 - y.1,
        (n + y.1 + z.1 - x.1) as nat,
    );
}

/// Ratios are rounded in their order.
pub proof fn nearest_keeps_order(a: nat, c: nat, d: nat)
    requires
        d > 0,
        a <= c,
    ensures
        at_most(nearest(a, d), nearest(c, d)),
        is_number(nearest(a, d)),
        is_number(nearest(c, d)),
        nearest(a, d).0 == 0 <==> a == 0,
{
    rounded_is_number(a, d, 0);
    rounded_is_number(c, d, 0);
    lemma2_to64();
    assert(a * d * 1 <= c * d * 1) by (nonlinear_arith)
        requires
            a <= c,
    ;
    rounding_keeps_order(a, d, 0, c, d, 0, 0);
}

// ---------------------------------------------------------------------------
// Whole numbers
// ---------------------------------------------------------------------------

/// The order of numbers carries over.
pub proof fn order_is_transitive(x: (nat, int), y: (nat, int), z: (nat, int))
    requires
        is_number(x),
        is_number(y),
        is_number(z),
        at_most(x, y),
        at_most(y, z),
    ensures
        at_most(x, z),
{
    lemma_less(y, x);
    lemma_less(z, y);
    lemma_less(z, x);
}

/// Whole numbers below 2^53 are not rounded.
pub proof fn whole_is_exact(n: nat, k: int)
    requires
        0 < n < 0x20_0000_0000_0000,
        k >= -nearest(n, 1).1,
    ensures
        is_number(nearest(n, 1)),
        nearest(n, 1).1 <= 0,
        nearest(n, 1).0 != 0,
        scaled(nearest(n, 1), k) == n * pow2(k as nat),
{
    rounded_is_number(n, 1, 0);
    assert(shrink(n, 1, 0) == (n, 1nat, 0int));
    lemma_grow(n, 1, 0);
    let (a, b, e) = grow(n, 1, 0);
    let j = (0 - e) as nat;
    assert(a % 1 == 0 && a / 1 == a);
    assert(nearest(n, 1) == (a, e));
    lemma_pow2_adds(j, (e + k) as nat);
    assert((n * pow2(j)) * pow2((e + k) as nat) == n * (pow2(j) * pow2((e + k) as nat)))
        by (nonlinear_arith);
}

/// What is at most `n` is rounded to at most `n`.
proof fn lemma_rounds_below(a: nat, b: nat, e: int, n: nat, k: nat)
    requires
        b > 0,
        e + k >= 0,
        a * pow2((e + k) as nat) <= n * b * pow2(k),
    ensures
        at_most(nearest_scaled(a, b, e), nearest(n, 1)),
{
    assert(a * 1 * pow2((e + k) as nat) <= n * b * pow2(k)) by (nonlinear_arith)
        requires
            a * pow2((e + k) as nat) <= n * b * pow2(k),
    ;
    rounding_keeps_order(a, b, e, n, 1, 0, k);
}

proof fn lemma_scaled_below(x: (nat, int), n: nat, k: int)
    requires
        is_number(x),
        n < 0x20_0000_0000_0000,
        at_most(x, nearest(n, 1)),
        x.1 + k >= 0,
        nearest(n, 1).1 + k >= 0,
        k >= 0,
    ensures
        scaled(x, k) <= n * pow2(k as nat),
{
    rounded_is_number(n, 1, 0);
    scaled_keeps_order(x, nearest(n, 1), k);
    if n > 0 {
        whole_is_exact(n, k);
    } else {
        assert(nearest(0, 1) == (0nat, 0int));
        assert(0 * pow2(k as nat) == 0);
    }
}

/// A sum of what is at most `a` and at most `b` is at most `a + b`.
pub proof fn sum_is_bounded(y: (nat, int), a: nat, b: nat)
    requires
        is_number(y),
        a + b < 0x20_0000_0000_0000,
        at_most(y, nearest(b, 1)),
    ensures
        at_most(sum(nearest(a, 1), y), nearest(a + b, 1)),
        is_number(sum(nearest(a, 1), y)),
        at_most(nearest(a, 1), sum(nearest(a, 1), y)),
{
    let x = nearest(a, 1);
    let z = nearest(a + b, 1);
    rounded_is_number(a, 1, 0);
    rounded_is_number(b, 1, 0);
    rounded_is_number(a + b, 1, 0);
    nearest_keeps_order(a, a + b, 1);
    nearest_keeps_order(b, a + b, 1);
    lemma_less(x, x);
    lemma_less(y, y);
    lemma_less(y, (0, 0));
    sum_keeps_order(x, (0, 0), y);
    sum_keeps_order(x, y, y);
    if a == 0 {
        order_is_transitive(y, nearest(b, 1), z);
    } else if y.0 != 0 {
        lemma_sum_rounds(x, y);
        let k = most(most(-x.1, -y.1), most(-nearest(b, 1).1, 0));
        lemma_exact_sum(x, y, k);
        whole_is_exact(a, k);
        lemma_scaled_below(y, b, k);
        let s = exact_sum(x, y);
        let p = pow2(k as nat);
        assert(a * p + b * p == (a + b) * 1 * p) by (nonlinear_arith);
        lemma_rounds_below(s.0, 1, s.1, a + b, k as nat);
    }
}

/// `a` times what is at most `b` is at most `a * b`.
pub proof fn product_is_bounded(x: (nat, int), a: nat, b: nat)
    requires
        is_number(x),
        a < 0x20_0000_0000_0000,
        b < 0x20_0000_0000_0000,
        at_most(x, nearest(b, 1)),
    ensures
        at_most(product(nearest(a, 1), x), nearest(a * b, 1)),
        is_number(product(nearest(a, 1), x)),
{
    let w = nearest(a, 1);
    rounded_is_number(a, 1, 0);
    rounded_is_number(w.0 * x.0, 1, w.1 + x.1);
    if a == 0 {
        assert(w.0 * x.0 == 0) by (nonlinear_arith)
            requires
                w.0 == 0,
        ;
        rounded_is_number(a * b, 1, 0);
        lemma_less(nearest(a * b, 1), (0, 0));
    } else {
        let k1 = -w.1;
        whole_is_exact(a, k1);
        lemma2_to64();
        assert(w.0 * pow2(0) == w.0) by (nonlinear_arith)
            requires
                pow2(0) == 1,
        ;
        let k2 = most(most(-x.1, -nearest(b, 1).1), 0);
        lemma_scaled_below(x, b, k2);
        let (p1, p2) = (pow2(k1 as nat), pow2(k2 as nat));
        let q = pow2((x.1 + k2) as nat);
        lemma_pow2_adds(k1 as nat, k2 as nat);
        assert((w.0 * x.0) * q <= (a * b) * 1 * (p1 * p2)) by (nonlinear_arith)
            requires
                w.0 == a * p1,
                x.0 * q <= b * p2,
        ;
        assert(w.1 + x.1 + (k1 + k2) == x.1 + k2);
        lemma_rounds_below(w.0 * x.0, 1, w.1 + x.1, a * b, (k1 + k2) as nat);
    }
}

/// What is at most `a * b`, over `a`, is at most `b`.
pub proof fn quotient_is_bounded(x: (nat, int), a: nat, b: nat)
    requires
        is_number(x),
        0 < a < 0x20_0000_0000_0000,
        a * b < 0x20_0000_0000_0000,
        at_most(x, nearest(a * b, 1)),
    ensures
        at_most(quotient(x, nearest(a, 1)), nearest(b, 1)),
        is_number(quotient(x, nearest(a, 1))),
{
    let w = nearest(a, 1);
    rounded_is_number(a, 1, 0);
    rounded_is_number(x.0, w.0, x.1 - w.1);
    let j = -w.1;
    whole_is_exact(a, j);
    lemma2_to64();
    assert(w.0 * pow2(0) == w.0) by (nonlinear_arith)
        requires
            pow2(0) == 1,
    ;
    let k = most(most(-x.1, -nearest(a * b, 1).1), 0);
    lemma_scaled_below(x, a * b, k);
    let (p, q) = (pow2(k as nat), pow2((x.1 + k) as nat));
    let u = pow2(j as nat);
    lemma_pow2_adds((x.1 + k) as nat, j as nat);
    assert(x.0 * (q * u) <= b * w.0 * p) by (nonlinear_arith)
        requires
            x.0 * q <= (a * b) * p,
            w.0 == a * u,
    ;
    assert(x.1 - w.1 + k == x.1 + k + j);
    lemma_rounds_below(x.0, w.0, x.1 - w.1, b, k as nat);
}

/// The exact difference of two numbers, the second with the lower exponent.
spec fn exact_difference(x: (nat, int), y: (nat, int)) -> (nat, int) {
    ((x.0 * pow2((x.1 - y.1) as nat) - y.0) as nat, y.1)
}

proof fn lemma_difference(x: (nat, int), y: (nat, int), k: int)
    requires
        is_number(x),
        is_number(y),
        y.0 != 0,
        at_most(y, x),
        x.1 - y.1 <= 73,
        y.1 + k >= 0,
    ensures
        x.1 >= y.1,
        difference(x, y) == nearest_scaled(exact_difference(x, y).0, 1, y.1),
        is_number(difference(x, y)),
        scaled(exact_difference(x, y), k) + scaled(y, k) == scaled(x, k),
{
    lemma_less(x, y);
    let d = (x.1 - y.1) as nat;
    lemma2_to64();
    scaled_keeps_order(y, x, -y.1);
    assert(y.0 * pow2(0) == y.0) by (nonlinear_arith)
        requires
            pow2(0) == 1,
    ;
    assert(x.0 * pow2(d) >= y.0);
    let e = exact_difference(x, y);
    rounded_is_number(e.0, 1, y.1);
    let p = pow2((y.1 + k) as nat);
    lemma_pow2_adds(d, (y.1 + k) as nat);
    assert((x.0 * pow2(d) - y.0) * p + y.0 * p == x.0 * (pow2(d) * p)) by (nonlinear_arith);
}

/// The exponents of numbers are in their order.
proof fn lemma_exponents(x: (nat, int), y: (nat, int))
    requires
        is_number(x),
        is_number(y),
        x.0 != 0,
        at_most(x, y),
    ensures
        y.0 != 0,
        x.1 <= y.1,
{
    lemma_less(y, x);
}

/// What lies between `a` and `a + b`, less `a`, is at most `b`; and more of it
/// leaves no less.
pub proof fn difference_is_bounded(x: (nat, int), y: (nat, int), a: nat, b: nat)
    requires
        is_number(x),
        is_number(y),
        0 < a,
        a + b < 1024,
        at_most(nearest(a, 1), x),
        at_most(x, y),
        at_most(y, nearest(a + b, 1)),
    ensures
        at_most(difference(y, nearest(a, 1)), nearest(b, 1)),
        at_most(difference(x, nearest(a, 1)), difference(y, nearest(a, 1))),
        is_number(difference(x, nearest(a, 1))),
        is_number(difference(y, nearest(a, 1))),
{
    let w = nearest(a, 1);
    let z = nearest(a + b, 1);
    rounded_is_number(a, 1, 0);
    rounded_is_number(a + b, 1, 0);
    lemma_exponents(w, x);
    lemma_exponents(x, y);
    lemma_exponents(y, z);
    whole_is_exact(a + b, -z.1);
    whole_is_exact(a, -w.1);
    lemma_close(a, a + b);
    order_is_transitive(w, x, y);
    let k = -w.1;
    lemma_difference(x, w, k);
    lemma_difference(y, w, k);
    let (d, e) = (exact_difference(x, w), exact_difference(y, w));
    scaled_keeps_order(x, y, k);
    lemma_scaled_below(y, a + b, k);
    let p = pow2(k as nat);
    assert(a * p + b * p == (a + b) * p) by (nonlinear_arith);
    assert(scaled(e, k) <= b * p);
    assert(b * p == b * 1 * p) by (nonlinear_arith);
    lemma_rounds_below(e.0, 1, w.1, b, k as nat);
    let q = pow2((w.1 + k) as nat);
    assert(d.0 * 1 * q <= e.0 * 1 * q) by (nonlinear_arith)
        requires
            d.0 * q <= e.0 * q,
    ;
    rounding_keeps_order(d.0, 1, w.1, e.0, 1, w.1, k as nat);
}

/// Small whole numbers have close exponents.
proof fn lemma_close(a: nat, c: nat)
    requires
        0 < a <= c < 1024,
    ensures
        nearest(c, 1).1 - nearest(a, 1).1 <= 73,
        nearest(a, 1).1 <= nearest(c, 1).1,
{
    let (x, z) = (nearest(a, 1), nearest(c, 1));
    rounded_is_number(a, 1, 0);
    rounded_is_number(c, 1, 0);
    nearest_keeps_order(a, c, 1);
    lemma_exponents(x, z);
    whole_is_exact(a, -x.1);
    whole_is_exact(c, -z.1);
    let j = (-x.1) as nat;
    lemma2_to64();
    assert(x.0 * pow2(0) == x.0) by (nonlinear_arith)
        requires
            pow2(0) == 1,
    ;
    lemma_pow2_adds(32, 21);
    // a * 2^j stays below 2^53.
    if j >= 53 {
        if j > 53 {
            lemma_pow2_strictly_increases(53, j);
        }
        assert(a * pow2(j) >= 0x20_0000_0000_0000) by (nonlinear_arith)
            requires
                a >= 1,
                pow2(j) >= 0x20_0000_0000_0000,
        ;
    }
}

/// A difference is at most what is subtracted from.
pub proof fn difference_is_no_more(x: (nat, int), y: (nat, int))
    requires
        is_number(x),
        is_number(y),
    ensures
        at_most(difference(x, y), x),
        is_number(difference(x, y)),
{
    lemma_less(x, x);
    lemma_less(x, (0, 0));
    if y.0 == 0 || x.1 - y.1 > 73 {
    } else if x.1 < y.1 || x.0 * pow2((x.1 - y.1) as nat) < y.0 {
    } else {
        let d = (x.1 - y.1) as nat;
        let a = (x.0 * pow2(d) - y.0) as nat;
        let k = most(-y.1, 0);
        rounded_is_number(a, 1, y.1);
        number_is_exact(x);
        let p = pow2((y.1 + k) as nat);
        lemma_pow2_adds(d, (y.1 + k) as nat);
        assert(a * 1 * p <= x.0 * 1 * (pow2(d) * p)) by (nonlinear_arith)
            requires
                a <= x.0 * pow2(d),
        ;
        rounding_keeps_order(a, 1, y.1, x.0, 1, x.1, k as nat);
    }
}

/// What stands before the points of numbers is in their order.
pub proof fn whole_part_keeps_order(x: (nat, int), y: (nat, int))
    requires
        is_number(x),
        is_number(y),
        at_most(x, y),
    ensures
        whole_part(x) <= whole_part(y),
{
    let k = most(most(-x.1, -y.1), 0);
    scaled_keeps_order(x, y, k);
    lemma_whole_part(x, k);
    lemma_whole_part(y, k);
    lemma_pow2_pos(k as nat);
    lemma_div_is_ordered(scaled(x, k) as int, scaled(y, k) as int, pow2(k as nat) as int);
}

proof fn lemma_whole_part(x: (nat, int), k: int)
    requires
        x.1 + k >= 0,
        k >= 0,
    ensures
        whole_part(x) == scaled(x, k) / pow2(k as nat),
{
    let p = pow2(k as nat);
    lemma_pow2_pos(k as nat);
    if x.1 >= 0 {
        lemma_pow2_adds(x.1 as nat, k as nat);
        let v = x.0 * pow2(x.1 as nat);
        assert(x.0 * (pow2(x.1 as nat) * p) == v * p) by (nonlinear_arith)
            requires
                v == x.0 * pow2(x.1 as nat),
        ;
        lemma_div_by_multiple(v as int, p as int);
    } else {
        let j = (-x.1) as nat;
        let q = pow2((x.1 + k) as nat);
        lemma_pow2_pos(j);
        lemma_pow2_pos((x.1 + k) as nat);
        lemma_pow2_adds(j, (x.1 + k) as nat);
        assert(pow2(j) * q == q * pow2(j)) by (nonlinear_arith);
        assert(x.0 * q == q * x.0) by (nonlinear_arith);
        lemma_div_denominator((q * x.0) as int, q as int, pow2(j) as int);
        assert((q * x.0) / q == x.0) by {
            lemma_div_by_multiple(x.0 as int, q as int);
        }
    }
}

/// The more is taken away, the less is left.
pub proof fn difference_reverses_order(x: (nat, int), y: (nat, int), z: (nat, int))
    requires
        is_number(x),
        is_number(y),
        is_number(z),
        at_most(y, z),
    ensures
        at_most(difference(x, z), difference(x, y)),
        is_number(difference(x, y)),
        is_number(difference(x, z)),
{
    difference_is_no_more(x, y);
    difference_is_no_more(x, z);
    let (d, e) = (difference(x, y), difference(x, z));
    lemma_less(z, y);
    lemma_less(x, y);
    lemma_less(x, z);
    lemma_less(d, e);
    if y.0 != 0 && x.1 - y.1 <= 73 && z.0 != 0 {
        assert(y.1 <= z.1);
        let gone = x.1 < y.1 || x.0 * pow2((x.1 - y.1) as nat) < y.0;
        let none = x.1 < z.1 || x.0 * pow2((x.1 - z.1) as nat) < z.0;
        lemma2_to64();
        if gone {
            assert(less(x, y)) by {
                if x.0 == 0 {
                    if x.1 >= y.1 {
                        assert(0 * pow2((x.1 - y.1) as nat) == 0);
                    }
                }
            }
            assert(less(x, z));
            assert(none);
        } else if !none {
            let n: nat = if y.1 >= 0 {
                0
            } else {
                (-y.1) as nat
            };
            let (a, b) = (pow2((x.1 - y.1) as nat), pow2((x.1 - z.1) as nat));
            let (p, q) = (pow2((y.1 + n) as nat), pow2((z.1 + n) as nat));
            scaled_keeps_order(y, z, n as int);
            lemma_pow2_adds((x.1 - y.1) as nat, (y.1 + n) as nat);
            lemma_pow2_adds((x.1 - z.1) as nat, (z.1 + n) as nat);
            let (u, v) = ((x.0 * a - y.0) as nat, (x.0 * b - z.0) as nat);
            assert(v * 1 * q <= u * 1 * p) by (nonlinear_arith)
                requires
                    u == x.0 * a - y.0,
                    v == x.0 * b - z.0,
                    a * p == b * q,
                    y.0 * p <= z.0 * q,
            ;
            rounding_keeps_order(v, 1, z.1, u, 1, y.1, n);
        }
    }
}

} // verus!
