//! How far the arithmetic of double precision is from that of exact numbers:
//! each operation is off by one part in 2^53 at most.

use vstd::arithmetic::div_mod::{lemma_fundamental_div_mod, lemma_mod_bound};
use vstd::arithmetic::power2::{
    lemma2_to64, lemma2_to64_rest, lemma_pow2_adds, lemma_pow2_pos, pow2,
};
use vstd::prelude::*;

use crate::double::{difference, nearest, nearest_scaled, product, quotient, sum, sum_ordered, whole_part};
use crate::numeral::{round_half_even, saturated};
use crate::rounding::{at_most, is_number, rounding_steps};

verus! {

/// 2^53, the parts that errors are counted in.
pub const PARTS: u64 = 0x20_0000_0000_0000;

/// `r / d` is `a / b`, but for `c` parts in 2^53 at most.
pub open spec fn about(r: nat, d: nat, a: nat, b: nat, c: nat) -> bool {
    &&& (PARTS - c) * (a * d) <= PARTS * (r * b)
    &&& PARTS * (r * b) <= (PARTS + c) * (a * d)
}

/// Two to a power, if that is positive; else one.
pub open spec fn power_up(e: int) -> nat {
    if e >= 0 {
        pow2(e as nat)
    } else {
        1
    }
}

/// The number `x` as a ratio: what stands above the line.
pub open spec fn above_line(x: (nat, int)) -> nat {
    x.0 * power_up(x.1)
}

/// The number `x` as a ratio: what stands below the line.
pub open spec fn below_line(x: (nat, int)) -> nat {
    power_up(-x.1)
}

/// `x` is `a / b`, but for `c` parts in 2^53 at most.
pub open spec fn is_about(x: (nat, int), a: nat, b: nat, c: nat) -> bool {
    about(above_line(x), below_line(x), a, b, c)
}

proof fn lemma_power_up(e: int)
    ensures
        power_up(e) >= 1,
        power_up(-e) >= 1,
{
    lemma_pow2_pos(
        if e >= 0 {
            e as nat
        } else {
            (-e) as nat
        },
    );
}

/// The powers of both sides of a ratio with exponents `e` and `e + k - j`.
proof fn lemma_powers(e: int, j: nat, k: nat)
    ensures
        power_up(e + k - j) * power_up(-e) * pow2(j) == pow2(k) * power_up(e) * power_up(
            -(e + k - j),
        ),
{
    lemma2_to64();
    let f = e + k - j;
    let (a, b): (nat, nat) = if e >= 0 {
        (e as nat, 0)
    } else {
        (0, (-e) as nat)
    };
    let (c, d): (nat, nat) = if f >= 0 {
        (f as nat, 0)
    } else {
        (0, (-f) as nat)
    };
    assert(power_up(e) == pow2(a) && power_up(-e) == pow2(b));
    assert(power_up(f) == pow2(c) && power_up(-f) == pow2(d));
    lemma_pow2_adds(c, b);
    lemma_pow2_adds(c + b, j);
    lemma_pow2_adds(k, a);
    lemma_pow2_adds(k + a, d);
    assert(c + b + j == k + a + d);
}

proof fn lemma_multiply(a: nat, b: nat, c: nat, d: nat)
    requires
        a <= b,
        c <= d,
    ensures
        a * c <= b * d,
{
    assert(a * c <= b * d) by (nonlinear_arith)
        requires
            a <= b,
            c <= d,
    ;
}

proof fn lemma_cancel(a: nat, b: nat, k: nat)
    requires
        k > 0,
        a * k <= b * k,
    ensures
        a <= b,
{
    assert(a <= b) by (nonlinear_arith)
        requires
            k > 0,
            a * k <= b * k,
    ;
}

/// A ratio that is multiplied above and below the line stays the same.
proof fn lemma_same_ratio(r: nat, d: nat, p: nat, q: nat, a: nat, b: nat, c: nat)
    requires
        about(r, d, p, q, c),
        q > 0,
        p * b == a * q,
        c <= PARTS,
    ensures
        about(r, d, a, b, c),
{
    let (lo, hi) = ((PARTS - c) as nat, (PARTS + c) as nat);
    let n = PARTS as nat;
    assert(lo * (p * d) * b == lo * (a * d) * q) by (nonlinear_arith)
        requires
            p * b == a * q,
    ;
    assert(hi * (p * d) * b == hi * (a * d) * q) by (nonlinear_arith)
        requires
            p * b == a * q,
    ;
    assert(n * (r * q) * b == n * (r * b) * q) by (nonlinear_arith);
    lemma_multiply(lo * (p * d), n * (r * q), b, b);
    lemma_multiply(n * (r * q), hi * (p * d), b, b);
    lemma_cancel(lo * (a * d), n * (r * b), q);
    lemma_cancel(n * (r * b), hi * (a * d), q);
}

/// Rounding is off by one part at most.
pub proof fn rounding_is_close(a: nat, b: nat, e: int)
    requires
        a > 0,
        b > 0,
    ensures
        is_about(nearest_scaled(a, b, e), a * power_up(e), b * power_up(-e), 1),
{
    let (j, k) = rounding_steps(a, b, e);
    let (a2, b2) = (a * pow2(j), b * pow2(k));
    let m = round_half_even(a2, b2);
    lemma_fundamental_div_mod(a2 as int, b2 as int);
    lemma_mod_bound(a2 as int, b2 as int);
    let (q, r) = (a2 / b2, a2 % b2);
    assert(b2 * q == q * b2) by (nonlinear_arith);
    assert((q + 1) * b2 == q * b2 + b2) by (nonlinear_arith);
    // Twice the error is within the divisor.
    assert(2 * (m * b2) <= 2 * a2 + b2 && 2 * a2 <= 2 * (m * b2) + b2);
    let n = PARTS as nat;
    assert(n * (m * b2) <= (n + 1) * a2 && (n - 1) * a2 <= n * (m * b2)) by (nonlinear_arith)
        requires
            2 * (m * b2) <= 2 * a2 + b2,
            2 * a2 <= 2 * (m * b2) + b2,
            0x10_0000_0000_0000 * b2 <= a2,
            n == 0x20_0000_0000_0000,
    ;
    let (m1, k1): (nat, nat) = if m == 0x20_0000_0000_0000 {
        (0x10_0000_0000_0000, k + 1)
    } else {
        (m, k)
    };
    lemma2_to64();
    lemma_pow2_adds(k, 1);
    assert(m1 * (b * pow2(k1)) == m * b2) by (nonlinear_arith)
        requires
            b2 == b * pow2(k),
            (m1 == m && k1 == k) || (2 * m1 == m && pow2(k1) == pow2(k) * 2),
    ;
    let f = e + k1 - j;
    assert(nearest_scaled(a, b, e) == (m1, f));
    lemma_powers(e, j, k1);
    lemma_power_up(e);
    lemma_power_up(f);
    lemma_pow2_pos(j);
    lemma_pow2_pos(k1);
    let (t, u) = (power_up(f) * power_up(-e), power_up(e) * power_up(-f));
    let (pj, pk) = (pow2(j), pow2(k1));
    assert(t * pj == u * pk) by (nonlinear_arith)
        requires
            power_up(f) * power_up(-e) * pj == pk * power_up(e) * power_up(-f),
            t == power_up(f) * power_up(-e),
            u == power_up(e) * power_up(-f),
    ;
    let lo = (n - 1) as nat;
    let hi = n + 1;
    let goal = m1 * power_up(f) * (b * power_up(-e));
    let side = a * power_up(e) * power_up(-f);
    assert(goal == m1 * b * t) by (nonlinear_arith)
        requires
            goal == m1 * power_up(f) * (b * power_up(-e)),
            t == power_up(f) * power_up(-e),
    ;
    assert(side == a * u) by (nonlinear_arith)
        requires
            side == a * power_up(e) * power_up(-f),
            u == power_up(e) * power_up(-f),
    ;
    assert(n * (m * b2) * u == n * goal * pj) by (nonlinear_arith)
        requires
            m * b2 == m1 * (b * pk),
            goal == m1 * b * t,
            t * pj == u * pk,
    ;
    assert(hi * a2 * u == hi * side * pj) by (nonlinear_arith)
        requires
            a2 == a * pj,
            side == a * u,
    ;
    assert(lo * a2 * u == lo * side * pj) by (nonlinear_arith)
        requires
            a2 == a * pj,
            side == a * u,
    ;
    lemma_multiply(n * (m * b2), hi * a2, u, u);
    lemma_multiply(lo * a2, n * (m * b2), u, u);
    lemma_cancel(n * goal, hi * side, pj);
    lemma_cancel(lo * side, n * goal, pj);
}

/// Errors add up, and one part more.
pub proof fn errors_add(r: nat, d: nat, p: nat, q: nat, a: nat, b: nat, c1: nat, c2: nat)
    requires
        about(r, d, p, q, c1),
        about(p, q, a, b, c2),
        p > 0,
        q > 0,
        c1 <= 1000,
        c2 <= 1000,
    ensures
        about(r, d, a, b, c1 + c2 + 1),
{
    let n = PARTS as nat;
    let (l1, h1) = ((n - c1) as nat, n + c1);
    let (l2, h2) = ((n - c2) as nat, n + c2);
    let c = c1 + c2 + 1;
    let (l, h) = ((n - c) as nat, n + c);
    lemma_multiply(n * (r * q), h1 * (p * d), n * (p * b), h2 * (a * q));
    lemma_multiply(l1 * (p * d), n * (r * q), l2 * (a * q), n * (p * b));
    let (rb, ad, pq) = (r * b, a * d, p * q);
    assert(n * (r * q) * (n * (p * b)) == n * n * rb * pq) by (nonlinear_arith)
        requires
            rb == r * b,
            pq == p * q,
    ;
    assert(h1 * (p * d) * (h2 * (a * q)) == h1 * h2 * ad * pq) by (nonlinear_arith)
        requires
            ad == a * d,
            pq == p * q,
    ;
    assert(l1 * (p * d) * (l2 * (a * q)) == l1 * l2 * ad * pq) by (nonlinear_arith)
        requires
            ad == a * d,
            pq == p * q,
    ;
    assert(pq > 0) by (nonlinear_arith)
        requires
            p > 0,
            q > 0,
            pq == p * q,
    ;
    lemma_cancel(n * n * rb, h1 * h2 * ad, pq);
    lemma_cancel(l1 * l2 * ad, n * n * rb, pq);
    lemma_close_factors(c1, c2);
    lemma_multiply(h1 * h2, n * h, ad, ad);
    lemma_multiply(n * l, l1 * l2, ad, ad);
    assert(n * n * rb == n * rb * n) by (nonlinear_arith);
    assert(n * h * ad == h * ad * n) by (nonlinear_arith);
    assert(n * l * ad == l * ad * n) by (nonlinear_arith);
    lemma_cancel(n * rb, h * ad, n);
    lemma_cancel(l * ad, n * rb, n);
}

proof fn lemma_close_factors(c1: nat, c2: nat)
    requires
        c1 <= 1000,
        c2 <= 1000,
    ensures
        ({
            let n = PARTS as nat;
            let c = c1 + c2 + 1;
            &&& (n + c1) * (n + c2) <= n * (n + c)
            &&& n * (n - c) as nat <= (n - c1) as nat * (n - c2) as nat
            &&& n * (n + c1) <= (n - c2) as nat * (n + c1 + c2 + 1)
            &&& (n + c2) * (n - c) as nat <= n * (n - c1) as nat
        }),
{
    let n = PARTS as int;
    assert(c1 * c2 <= 1_000_000) by (nonlinear_arith)
        requires
            c1 <= 1000,
            c2 <= 1000,
    ;
    assert((n + c1) * (n + c2) == n * n + (c1 + c2) * n + c1 * c2) by (nonlinear_arith);
    assert((n - c1) * (n - c2) == n * n - (c1 + c2) * n + c1 * c2) by (nonlinear_arith);
    assert(n * (n + c1 + c2 + 1) == n * n + (c1 + c2) * n + n) by (nonlinear_arith);
    assert(n * (n - c1 - c2 - 1) == n * n - (c1 + c2) * n - n) by (nonlinear_arith);
    assert(c2 * (c1 + c2 + 1) <= 1000 * 2001) by (nonlinear_arith)
        requires
            c1 <= 1000,
            c2 <= 1000,
    ;
    assert((n - c2) * (n + c1 + c2 + 1) == n * n + c1 * n + n - c2 * (c1 + c2 + 1))
        by (nonlinear_arith);
    assert((n + c2) * (n - c1 - c2 - 1) == n * n - c1 * n - n - c2 * (c1 + c2 + 1))
        by (nonlinear_arith);
    assert(n * (n + c1) == n * n + c1 * n) by (nonlinear_arith);
    assert(n * (n - c1) == n * n - c1 * n) by (nonlinear_arith);
}

/// What numbers are about, their product is about.
proof fn lemma_about_product(
    x: nat,
    dx: nat,
    y: nat,
    dy: nat,
    a: nat,
    b: nat,
    p: nat,
    q: nat,
    c1: nat,
    c2: nat,
)
    requires
        about(x, dx, a, b, c1),
        about(y, dy, p, q, c2),
        c1 <= 1000,
        c2 <= 1000,
    ensures
        about(x * y, dx * dy, a * p, b * q, c1 + c2 + 1),
{
    let n = PARTS as nat;
    let (l1, h1) = ((n - c1) as nat, n + c1);
    let (l2, h2) = ((n - c2) as nat, n + c2);
    let c = c1 + c2 + 1;
    let (l, h) = ((n - c) as nat, n + c);
    lemma_multiply(n * (x * b), h1 * (a * dx), n * (y * q), h2 * (p * dy));
    lemma_multiply(l1 * (a * dx), n * (x * b), l2 * (p * dy), n * (y * q));
    let (r, s) = (x * y * (b * q), a * p * (dx * dy));
    assert(n * (x * b) * (n * (y * q)) == n * n * r) by (nonlinear_arith)
        requires
            r == x * y * (b * q),
    ;
    assert(h1 * (a * dx) * (h2 * (p * dy)) == h1 * h2 * s) by (nonlinear_arith)
        requires
            s == a * p * (dx * dy),
    ;
    assert(l1 * (a * dx) * (l2 * (p * dy)) == l1 * l2 * s) by (nonlinear_arith)
        requires
            s == a * p * (dx * dy),
    ;
    lemma_close_factors(c1, c2);
    lemma_multiply(h1 * h2, n * h, s, s);
    lemma_multiply(n * l, l1 * l2, s, s);
    assert(n * n * r == n * r * n) by (nonlinear_arith);
    assert(n * h * s == h * s * n) by (nonlinear_arith);
    assert(n * l * s == l * s * n) by (nonlinear_arith);
    lemma_cancel(n * r, h * s, n);
    lemma_cancel(l * s, n * r, n);
}

/// What a number is about, its inverse is about.
proof fn lemma_about_inverse(y: nat, dy: nat, p: nat, q: nat, c: nat)
    requires
        about(y, dy, p, q, c),
        c <= 1000,
    ensures
        about(dy, y, q, p, c + 1),
{
    let n = PARTS as nat;
    let (l, h) = ((n - c) as nat, n + c);
    let (s, t) = (p * dy, y * q);
    // l * s <= n * t <= h * s
    let (l1, h1) = ((n - c - 1) as nat, n + c + 1);
    lemma_close_factors(0, c);
    assert(n * n <= l * h1);
    assert(h * l1 <= n * n);
    lemma_multiply(n * n, l * h1, s, s);
    assert(n * n * s == n * s * n) by (nonlinear_arith);
    assert(l * h1 * s == h1 * (l * s)) by (nonlinear_arith);
    lemma_multiply(h1, h1, l * s, n * t);
    assert(h1 * (n * t) == h1 * t * n) by (nonlinear_arith);
    lemma_cancel(n * s, h1 * t, n);
    lemma_multiply(h * l1, n * n, s, s);
    lemma_multiply(l1, l1, n * t, h * s);
    assert(l1 * (h * s) == h * l1 * s) by (nonlinear_arith);
    assert(l1 * (n * t) == l1 * t * n) by (nonlinear_arith);
    lemma_cancel(l1 * t, n * s, n);
    assert(dy * p == s && q * y == t) by (nonlinear_arith)
        requires
            s == p * dy,
            t == y * q,
    ;
}

/// What is about something is something.
pub proof fn about_something(x: (nat, int), a: nat, b: nat, c: nat)
    requires
        is_about(x, a, b, c),
        a > 0,
        c <= 1000,
    ensures
        x.0 > 0,
        b > 0,
{
    lemma_power_up(x.1);
    let (d, l) = (below_line(x), (PARTS - c) as nat);
    assert(a * d > 0) by (nonlinear_arith)
        requires
            a > 0,
            d >= 1,
    ;
    assert(l * (a * d) > 0) by (nonlinear_arith)
        requires
            a * d > 0,
            l > 0,
    ;
    let p = power_up(x.1);
    if x.0 == 0 || b == 0 {
        assert(x.0 * p * b == 0) by (nonlinear_arith)
            requires
                x.0 == 0 || b == 0,
        ;
    }
}

proof fn lemma_lines_positive(x: (nat, int))
    requires
        x.0 > 0,
    ensures
        above_line(x) > 0,
        below_line(x) > 0,
{
    lemma_power_up(x.1);
    let p = power_up(x.1);
    assert(x.0 * p > 0) by (nonlinear_arith)
        requires
            x.0 > 0,
            p >= 1,
    ;
}

/// A rounded ratio is off by one part at most.
pub proof fn nearest_is_close(a: nat, b: nat)
    requires
        a > 0,
        b > 0,
    ensures
        is_about(nearest(a, b), a, b, 1),
{
    lemma2_to64();
    rounding_is_close(a, b, 0);
    assert(a * 1 == a && b * 1 == b);
}

/// A product is off by the errors of its factors and two parts at most.
pub proof fn product_is_close(
    x: (nat, int),
    y: (nat, int),
    a: nat,
    b: nat,
    p: nat,
    q: nat,
    c1: nat,
    c2: nat,
)
    requires
        is_about(x, a, b, c1),
        is_about(y, p, q, c2),
        a > 0,
        p > 0,
        c1 <= 400,
        c2 <= 400,
    ensures
        is_about(product(x, y), a * p, b * q, c1 + c2 + 3),
        b * q > 0,
        a * p > 0,
{
    about_something(x, a, b, c1);
    about_something(y, p, q, c2);
    let e = x.1 + y.1;
    let m = x.0 * y.0;
    assert(m > 0) by (nonlinear_arith)
        requires
            m == x.0 * y.0,
            x.0 > 0,
            y.0 > 0,
    ;
    rounding_is_close(m, 1, e);
    let r = product(x, y);
    lemma_power_up(e);
    lemma_lines_positive(x);
    lemma_lines_positive(y);
    let (u, v) = (above_line(x) * above_line(y), below_line(x) * below_line(y));
    lemma_scales(x.1, y.1);
    assert(m * power_up(e) * v == u * (1 * power_up(-e))) by (nonlinear_arith)
        requires
            m == x.0 * y.0,
            u == x.0 * power_up(x.1) * (y.0 * power_up(y.1)),
            v == below_line(x) * below_line(y),
            power_up(e) * (below_line(x) * below_line(y)) == power_up(x.1) * power_up(y.1)
                * power_up(-e),
    ;
    lemma_same_ratio(
        above_line(r),
        below_line(r),
        m * power_up(e),
        1 * power_up(-e),
        u,
        v,
        1,
    );
    lemma_about_product(
        above_line(x),
        below_line(x),
        above_line(y),
        below_line(y),
        a,
        b,
        p,
        q,
        c1,
        c2,
    );
    assert(u > 0 && v > 0 && b * q > 0 && a * p > 0) by (nonlinear_arith)
        requires
            u == above_line(x) * above_line(y),
            v == below_line(x) * below_line(y),
            above_line(x) > 0,
            above_line(y) > 0,
            below_line(x) > 0,
            below_line(y) > 0,
            a > 0,
            b > 0,
            p > 0,
            q > 0,
    ;
    errors_add(above_line(r), below_line(r), u, v, a * p, b * q, 1, c1 + c2 + 1);
}

/// The powers of a product.
proof fn lemma_scales(d: int, e: int)
    ensures
        power_up(d + e) * (power_up(-d) * power_up(-e)) == power_up(d) * power_up(e) * power_up(
            -(d + e),
        ),
{
    lemma2_to64();
    let (a, b): (nat, nat) = if d >= 0 {
        (d as nat, 0)
    } else {
        (0, (-d) as nat)
    };
    let (p, q): (nat, nat) = if e >= 0 {
        (e as nat, 0)
    } else {
        (0, (-e) as nat)
    };
    let f = d + e;
    let (u, v): (nat, nat) = if f >= 0 {
        (f as nat, 0)
    } else {
        (0, (-f) as nat)
    };
    assert(power_up(d) == pow2(a) && power_up(-d) == pow2(b));
    assert(power_up(e) == pow2(p) && power_up(-e) == pow2(q));
    assert(power_up(f) == pow2(u) && power_up(-f) == pow2(v));
    lemma_pow2_adds(b, q);
    lemma_pow2_adds(u, b + q);
    lemma_pow2_adds(a, p);
    lemma_pow2_adds(a + p, v);
}

/// A quotient is off by the errors of its parts and three parts at most.
pub proof fn quotient_is_close(
    x: (nat, int),
    y: (nat, int),
    a: nat,
    b: nat,
    p: nat,
    q: nat,
    c1: nat,
    c2: nat,
)
    requires
        is_about(x, a, b, c1),
        is_about(y, p, q, c2),
        a > 0,
        p > 0,
        c1 <= 400,
        c2 <= 400,
    ensures
        is_about(quotient(x, y), a * q, b * p, c1 + c2 + 4),
        a * q > 0,
        b * p > 0,
{
    about_something(x, a, b, c1);
    about_something(y, p, q, c2);
    let e = x.1 - y.1;
    rounding_is_close(x.0, y.0, e);
    let r = quotient(x, y);
    lemma_power_up(e);
    lemma_lines_positive(x);
    lemma_lines_positive(y);
    let (u, v) = (above_line(x) * below_line(y), below_line(x) * above_line(y));
    lemma_scales(x.1, -y.1);
    let (pa, pb, pc) = (power_up(e), power_up(-x.1), power_up(y.1));
    let (pd, pe, pf) = (power_up(x.1), power_up(-y.1), power_up(-e));
    assert(x.0 * pa * (pb * (y.0 * pc)) == x.0 * y.0 * (pa * (pb * pc))) by (nonlinear_arith);
    assert(x.0 * pd * pe * (y.0 * pf) == x.0 * y.0 * (pd * pe * pf)) by (nonlinear_arith);
    let below = y.0 * power_up(-e);
    assert(below > 0) by (nonlinear_arith)
        requires
            below == y.0 * power_up(-e),
            y.0 > 0,
            power_up(-e) >= 1,
    ;
    lemma_same_ratio(above_line(r), below_line(r), x.0 * power_up(e), below, u, v, 1);
    lemma_about_inverse(above_line(y), below_line(y), p, q, c2);
    lemma_about_product(
        above_line(x),
        below_line(x),
        below_line(y),
        above_line(y),
        a,
        b,
        q,
        p,
        c1,
        c2 + 1,
    );
    assert(u > 0 && v > 0 && a * q > 0 && b * p > 0) by (nonlinear_arith)
        requires
            u == above_line(x) * below_line(y),
            v == below_line(x) * above_line(y),
            above_line(x) > 0,
            above_line(y) > 0,
            below_line(x) > 0,
            below_line(y) > 0,
            a > 0,
            b > 0,
            p > 0,
            q > 0,
    ;
    errors_add(above_line(r), below_line(r), u, v, a * q, b * p, 1, c1 + c2 + 2);
}

/// The whole part of a number is the number, but for less than one.
pub proof fn whole_part_is_close(x: (nat, int))
    ensures
        whole_part(x) * below_line(x) <= above_line(x) < (whole_part(x) + 1) * below_line(x),
{
    lemma2_to64();
    lemma_power_up(x.1);
    if x.1 >= 0 {
        assert(below_line(x) == 1);
    } else {
        let d = below_line(x) as int;
        lemma_fundamental_div_mod(x.0 as int, d);
        lemma_mod_bound(x.0 as int, d);
        let (q, r) = (x.0 as int / d, x.0 as int % d);
        assert(q * d <= x.0 && x.0 < (q + 1) * d) by (nonlinear_arith)
            requires
                x.0 == d * q + r,
                0 <= r,
                r < d,
        ;
        assert(x.0 * 1 == x.0);
    }
}

/// What numbers are about, their sum is about, with the greater error.
proof fn lemma_about_sum(
    x: nat,
    dx: nat,
    y: nat,
    dy: nat,
    a: nat,
    b: nat,
    p: nat,
    q: nat,
    c: nat,
)
    requires
        about(x, dx, a, b, c),
        about(y, dy, p, q, c),
        c <= 1000,
    ensures
        about(x * dy + y * dx, dx * dy, a * q + p * b, b * q, c),
{
    let n = PARTS as nat;
    let (l, h) = ((n - c) as nat, n + c);
    let (s, t) = (dy * q, dx * b);
    lemma_multiply(n * (x * b), h * (a * dx), s, s);
    lemma_multiply(l * (a * dx), n * (x * b), s, s);
    lemma_multiply(n * (y * q), h * (p * dy), t, t);
    lemma_multiply(l * (p * dy), n * (y * q), t, t);
    let (u, v) = ((x * dy) * (b * q), (y * dx) * (b * q));
    let (w, z) = ((a * q) * (dx * dy), (p * b) * (dx * dy));
    assert((x * dy + y * dx) * (b * q) == u + v) by (nonlinear_arith)
        requires
            u == (x * dy) * (b * q),
            v == (y * dx) * (b * q),
    ;
    assert((a * q + p * b) * (dx * dy) == w + z) by (nonlinear_arith)
        requires
            w == (a * q) * (dx * dy),
            z == (p * b) * (dx * dy),
    ;
    assert(n * (x * b) * s == n * u) by (nonlinear_arith)
        requires
            s == dy * q,
            u == (x * dy) * (b * q),
    ;
    assert(n * (y * q) * t == n * v) by (nonlinear_arith)
        requires
            t == dx * b,
            v == (y * dx) * (b * q),
    ;
    assert(h * (a * dx) * s == h * w) by (nonlinear_arith)
        requires
            s == dy * q,
            w == (a * q) * (dx * dy),
    ;
    assert(l * (a * dx) * s == l * w) by (nonlinear_arith)
        requires
            s == dy * q,
            w == (a * q) * (dx * dy),
    ;
    assert(h * (p * dy) * t == h * z) by (nonlinear_arith)
        requires
            t == dx * b,
            z == (p * b) * (dx * dy),
    ;
    assert(l * (p * dy) * t == l * z) by (nonlinear_arith)
        requires
            t == dx * b,
            z == (p * b) * (dx * dy),
    ;
    assert(n * (u + v) == n * u + n * v) by (nonlinear_arith);
    assert(h * (w + z) == h * w + h * z) by (nonlinear_arith);
    assert(l * (w + z) == l * w + l * z) by (nonlinear_arith);
}

/// A sum in order is off by one part at most.
proof fn lemma_sum_ordered(h: (nat, int), l: (nat, int))
    requires
        is_number(h),
        is_number(l),
        h.0 > 0,
        l.0 > 0,
        h.1 >= l.1,
    ensures
        is_about(
            sum_ordered(h, l),
            above_line(h) * below_line(l) + above_line(l) * below_line(h),
            below_line(h) * below_line(l),
            1,
        ),
{
    let k = (h.1 - l.1) as nat;
    let m = h.0 * pow2(k) + l.0;
    lemma_pow2_pos(k);
    lemma_power_up(h.1);
    lemma_power_up(l.1);
    let (hu, hd) = (power_up(h.1), power_up(-h.1));
    let (lu, ld) = (power_up(l.1), power_up(-l.1));
    // hu * ld == pow2(k) * lu * hd
    lemma_powers(l.1, 0, k);
    lemma2_to64();
    assert(hu * ld == pow2(k) * lu * hd) by (nonlinear_arith)
        requires
            hu * ld * pow2(0) == pow2(k) * lu * hd,
            pow2(0) == 1,
    ;
    let pk = pow2(k);
    let exact = (h.0 * hu) * ld + (l.0 * lu) * hd;
    assert(exact == m * lu * hd) by (nonlinear_arith)
        requires
            exact == (h.0 * hu) * ld + (l.0 * lu) * hd,
            hu * ld == pk * lu * hd,
            m == h.0 * pk + l.0,
    ;
    if h.1 - l.1 > 73 {
        // What is left out is less than a part.
        lemma_pow2_adds(53, (k - 53) as nat);
        let rest = pow2((k - 53) as nat);
        lemma_pow2_pos((k - 53) as nat);
        lemma_pow2_adds(20, (k - 73) as nat);
        lemma_pow2_pos((k - 73) as nat);
        lemma2_to64_rest();
        assert(pk == 0x20_0000_0000_0000 * rest);
        assert(PARTS * l.0 <= h.0 * pk) by (nonlinear_arith)
            requires
                l.0 < 0x20_0000_0000_0000,
                h.0 >= 0x10_0000_0000_0000,
                pk == 0x20_0000_0000_0000 * rest,
                rest == 0x10_0000 * pow2((k - 73) as nat),
                pow2((k - 73) as nat) >= 1,
                PARTS == 0x20_0000_0000_0000,
        ;
        let n = PARTS as nat;
        let (r, d) = (h.0 * hu, hd);
        let b = hd * ld;
        // r * b against exact * d
        assert(r * b == h.0 * pk * (lu * hd * hd)) by (nonlinear_arith)
            requires
                r == h.0 * hu,
                b == hd * ld,
                hu * ld == pk * lu * hd,
        ;
        assert(exact * d == m * (lu * hd * hd)) by (nonlinear_arith)
            requires
                exact == m * lu * hd,
                d == hd,
        ;
        let f = lu * hd * hd;
        assert(n * (h.0 * pk * f) <= (n + 1) * (m * f)) by (nonlinear_arith)
            requires
                m >= h.0 * pk,
        ;
        assert((n - 1) * m <= n * (h.0 * pk)) by (nonlinear_arith)
            requires
                m == h.0 * pk + l.0,
                n * l.0 <= h.0 * pk,
                n >= 1,
        ;
        assert((n - 1) * (m * f) <= n * (h.0 * pk * f)) by (nonlinear_arith)
            requires
                (n - 1) * m <= n * (h.0 * pk),
                n >= 1,
        ;
    } else {
        let r = nearest_scaled(m, 1, l.1);
        rounding_is_close(m, 1, l.1);
        assert(m * lu * (hd * ld) == exact * (1 * ld)) by (nonlinear_arith)
            requires
                exact == m * lu * hd,
        ;
        lemma_same_ratio(
            above_line(r),
            below_line(r),
            m * lu,
            1 * ld,
            exact,
            hd * ld,
            1,
        );
    }
}

/// A sum is off by the greater error of its terms and two parts at most.
pub proof fn sum_is_close(
    x: (nat, int),
    y: (nat, int),
    a: nat,
    b: nat,
    p: nat,
    q: nat,
    c: nat,
)
    requires
        is_number(x),
        is_number(y),
        is_about(x, a, b, c),
        is_about(y, p, q, c),
        a > 0,
        p > 0,
        c <= 400,
    ensures
        is_about(sum(x, y), a * q + p * b, b * q, c + 2),
        a * q + p * b > 0,
        b * q > 0,
{
    about_something(x, a, b, c);
    about_something(y, p, q, c);
    lemma_lines_positive(x);
    lemma_lines_positive(y);
    let (xu, xd) = (above_line(x), below_line(x));
    let (yu, yd) = (above_line(y), below_line(y));
    lemma_about_sum(xu, xd, yu, yd, a, b, p, q, c);
    let r = sum(x, y);
    if x.1 >= y.1 {
        lemma_sum_ordered(x, y);
    } else {
        lemma_sum_ordered(y, x);
        assert(yd * xd == xd * yd) by (nonlinear_arith);
    }
    assert(xu * yd > 0 && xd * yd > 0 && a * q > 0 && b * q > 0) by (nonlinear_arith)
        requires
            xu > 0,
            yu > 0,
            xd > 0,
            yd > 0,
            a > 0,
            b > 0,
            p > 0,
            q > 0,
    ;
    errors_add(
        above_line(r),
        below_line(r),
        xu * yd + yu * xd,
        xd * yd,
        a * q + p * b,
        b * q,
        1,
        c,
    );
}

/// A greater error may be stated.
pub proof fn error_may_grow(x: (nat, int), a: nat, b: nat, c: nat, more: nat)
    requires
        is_about(x, a, b, c),
        c <= more <= 1000,
    ensures
        is_about(x, a, b, more),
{
    let t = a * below_line(x);
    assert((PARTS - more) * t <= (PARTS - c) * t && (PARTS + c) * t <= (PARTS + more) * t)
        by (nonlinear_arith)
        requires
            c <= more,
    ;
}

/// What is about a ratio is about every ratio equal to it.
pub proof fn same_ratio_is_close(x: (nat, int), p: nat, q: nat, a: nat, b: nat, c: nat)
    requires
        is_about(x, p, q, c),
        q > 0,
        p * b == a * q,
        c <= 1000,
    ensures
        is_about(x, a, b, c),
{
    lemma_same_ratio(above_line(x), below_line(x), p, q, a, b, c);
}

/// The whole part of what is about a ratio, held against the ratio.
pub proof fn whole_part_of_close(x: (nat, int), a: nat, b: nat, c: nat)
    requires
        is_about(x, a, b, c),
        b > 0,
        c <= 1000,
    ensures
        PARTS * (whole_part(x) * b) <= (PARTS + c) * a,
        (PARTS - c) * a < PARTS * ((whole_part(x) + 1) * b),
{
    whole_part_is_close(x);
    lemma_power_up(x.1);
    let (w, d, u) = (whole_part(x), below_line(x), above_line(x));
    let n = PARTS as nat;
    let (l, h) = ((n - c) as nat, n + c);
    lemma_multiply(w * d, u, b, b);
    lemma_multiply(n, n, w * d * b, u * b);
    assert(n * (w * d * b) == n * (w * b) * d) by (nonlinear_arith);
    assert(h * (a * d) == h * a * d) by (nonlinear_arith);
    lemma_cancel(n * (w * b), h * a, d);
    assert(l * (a * d) == l * a * d) by (nonlinear_arith);
    assert(n * (u * b) < n * ((w + 1) * d * b)) by (nonlinear_arith)
        requires
            u < (w + 1) * d,
            b > 0,
            n > 0,
    ;
    assert(n * ((w + 1) * d * b) == n * ((w + 1) * b) * d) by (nonlinear_arith);
    assert(l * a < n * ((w + 1) * b)) by (nonlinear_arith)
        requires
            l * a * d < n * ((w + 1) * b) * d,
            d > 0,
    ;
}

/// A number is what it stands for.
pub proof fn number_is_itself(x: (nat, int))
    ensures
        is_about(x, above_line(x), below_line(x), 0),
        below_line(x) > 0,
        x.0 > 0 <==> above_line(x) > 0,
{
    lemma_power_up(x.1);
    let (m, p) = (x.0, power_up(x.1));
    assert(m > 0 <==> m * p > 0) by (nonlinear_arith)
        requires
            p >= 1,
    ;
}

/// A number times a whole number, without what stands behind the point: but for
/// four parts in 2^53.
pub proof fn whole_multiple_is_close(x: (nat, int), n: nat)
    requires
        0 < n,
    ensures
        ({
            let w = whole_part(product(x, nearest(n, 1)));
            &&& PARTS * (w * below_line(x)) <= (PARTS + 4) * (above_line(x) * n)
            &&& (PARTS - 4) * (above_line(x) * n) < PARTS * ((w + 1) * below_line(x))
        }),
{
    number_is_itself(x);
    nearest_is_close(n, 1);
    let (a, b) = (above_line(x), below_line(x));
    if x.0 > 0 {
        product_is_close(x, nearest(n, 1), a, b, n, 1, 0, 1);
        whole_part_of_close(product(x, nearest(n, 1)), a * n, b * 1, 4);
    } else {
        let y = nearest(n, 1);
        assert(x.0 * y.0 == 0 && a * n == 0) by (nonlinear_arith)
            requires
                x.0 == 0,
                a == 0,
        ;
        assert(product(x, y) == (0nat, 0int));
        lemma2_to64();
        let w = whole_part(product(x, y));
        assert(w == 0);
        assert(w * b == 0 && (w + 1) * b == b) by (nonlinear_arith)
            requires
                w == 0,
        ;
    }
}

/// One number is at most another exactly if the numbers that they stand for are.
pub proof fn order_is_that_of_the_numbers(x: (nat, int), y: (nat, int))
    ensures
        at_most(x, y) <==> above_line(x) * below_line(y) <= above_line(y) * below_line(x),
{
    lemma_power_up(x.1);
    lemma_power_up(y.1);
    lemma2_to64();
    let (xu, xd) = (power_up(x.1), power_up(-x.1));
    let (yu, yd) = (power_up(y.1), power_up(-y.1));
    if y.1 >= x.1 {
        let k = (y.1 - x.1) as nat;
        let p = pow2(k);
        lemma_powers(x.1, 0, k);
        assert(yu * xd == p * xu * yd) by (nonlinear_arith)
            requires
                yu * xd * pow2(0) == p * xu * yd,
                pow2(0) == 1,
        ;
        let f = xu * yd;
        assert(x.0 * xu * yd == x.0 * f) by (nonlinear_arith)
            requires
                f == xu * yd,
        ;
        assert(y.0 * yu * xd == y.0 * p * f) by (nonlinear_arith)
            requires
                yu * xd == p * xu * yd,
                f == xu * yd,
        ;
        assert(f > 0) by (nonlinear_arith)
            requires
                f == xu * yd,
                xu >= 1,
                yd >= 1,
        ;
        let (a, b) = (x.0, y.0 * p);
        assert(a <= b <==> a * f <= b * f) by (nonlinear_arith)
            requires
                f > 0,
        ;
        if y.1 == x.1 {
            assert(y.0 * 1 == y.0);
            assert(x.0 * pow2(0) == x.0) by (nonlinear_arith)
                requires
                    pow2(0) == 1,
            ;
        }
    } else {
        let k = (x.1 - y.1) as nat;
        let p = pow2(k);
        lemma_powers(y.1, 0, k);
        assert(xu * yd == p * yu * xd) by (nonlinear_arith)
            requires
                xu * yd * pow2(0) == p * yu * xd,
                pow2(0) == 1,
        ;
        let f = yu * xd;
        assert(y.0 * yu * xd == y.0 * f) by (nonlinear_arith)
            requires
                f == yu * xd,
        ;
        assert(x.0 * xu * yd == x.0 * p * f) by (nonlinear_arith)
            requires
                xu * yd == p * yu * xd,
                f == yu * xd,
        ;
        assert(f > 0) by (nonlinear_arith)
            requires
                f == yu * xd,
                yu >= 1,
                xd >= 1,
        ;
        let (a, b) = (x.0 * p, y.0);
        assert(a <= b <==> a * f <= b * f) by (nonlinear_arith)
            requires
                f > 0,
        ;
    }
}

/// A number taken from a larger one leaves what it leaves of exact numbers, but
/// for one part in 2^53.
pub proof fn difference_is_close(x: (nat, int), y: (nat, int))
    requires
        is_number(x),
        is_number(y),
        y.0 > 0,
        y.1 <= x.1 <= y.1 + 73,
        y.0 < x.0 * pow2((x.1 - y.1) as nat),
    ensures
        above_line(x) * below_line(y) > above_line(y) * below_line(x),
        is_about(
            difference(x, y),
            (above_line(x) * below_line(y) - above_line(y) * below_line(x)) as nat,
            below_line(x) * below_line(y),
            1,
        ),
{
    let k = (x.1 - y.1) as nat;
    let p = pow2(k);
    let m = (x.0 * p - y.0) as nat;
    lemma_power_up(x.1);
    lemma_power_up(y.1);
    lemma2_to64();
    let (xu, xd) = (power_up(x.1), power_up(-x.1));
    let (yu, yd) = (power_up(y.1), power_up(-y.1));
    lemma_powers(y.1, 0, k);
    assert(xu * yd == p * yu * xd) by (nonlinear_arith)
        requires
            xu * yd * pow2(0) == p * yu * xd,
            pow2(0) == 1,
    ;
    let exact = (x.0 * xu) * yd - (y.0 * yu) * xd;
    assert(exact == m * yu * xd) by (nonlinear_arith)
        requires
            exact == (x.0 * xu) * yd - (y.0 * yu) * xd,
            xu * yd == p * yu * xd,
            m == x.0 * p - y.0,
    ;
    assert(exact > 0) by (nonlinear_arith)
        requires
            exact == m * yu * xd,
            m > 0,
            yu >= 1,
            xd >= 1,
    ;
    let r = nearest_scaled(m, 1, y.1);
    rounding_is_close(m, 1, y.1);
    assert(m * yu * (xd * yd) == exact * (1 * yd)) by (nonlinear_arith)
        requires
            exact == m * yu * xd,
    ;
    lemma_same_ratio(above_line(r), below_line(r), m * yu, 1 * yd, exact as nat, xd * yd, 1);
}

/// What a number is cut to is no more than the number.
pub proof fn saturated_is_no_more(w: nat, b: nat, most: int)
    requires
        PARTS * (w * b) <= most,
    ensures
        PARTS * (saturated(w) * b) <= most,
{
    let n = saturated(w) as nat;
    assert(n * b <= w * b) by (nonlinear_arith)
        requires
            n <= w,
    ;
}

} // verus!
