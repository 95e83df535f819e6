//! Whole numbers of any size, as far as reading decimals needs them.

use vstd::arithmetic::power2::{
    lemma2_to64, lemma_pow2_adds, lemma_pow2_pos, lemma_pow2_strictly_increases, lemma_pow2_unfold,
    pow2,
};
use vstd::arithmetic::div_mod::lemma_fundamental_div_mod_converse;
use vstd::prelude::*;

use crate::double::{grow, nearest, shrink, Double};
use crate::numeral::round_half_even;

verus! {

/// A whole number, in limbs of 32 bits, the lowest first.
pub struct Big {
    pub limbs: Vec<u32>,
}

/// The weight of limb `k`.
pub open spec fn weight(k: nat) -> nat
    decreases k,
{
    if k == 0 {
        1
    } else {
        0x1_0000_0000 * weight((k - 1) as nat)
    }
}

/// Limb `i`; those behind the last are zero.
pub open spec fn limb(s: Seq<u32>, i: int) -> nat {
    if 0 <= i < s.len() {
        s[i] as nat
    } else {
        0
    }
}

/// What the first `n` limbs amount to.
pub open spec fn amount(s: Seq<u32>, n: nat) -> nat
    decreases n,
{
    if n == 0 {
        0
    } else {
        amount(s, (n - 1) as nat) + limb(s, n - 1) * weight((n - 1) as nat)
    }
}

impl View for Big {
    type V = nat;

    open spec fn view(&self) -> nat {
        amount(self.limbs@, self.limbs@.len())
    }
}

proof fn lemma_weight_pos(k: nat)
    ensures
        weight(k) > 0,
    decreases k,
{
    if k > 0 {
        lemma_weight_pos((k - 1) as nat);
    }
}

/// The limbs below `n` amount to less than the weight of limb `n`.
proof fn lemma_amount_below(s: Seq<u32>, n: nat)
    ensures
        amount(s, n) < weight(n),
    decreases n,
{
    if n > 0 {
        let k = (n - 1) as nat;
        lemma_amount_below(s, k);
        lemma_weight_pos(k);
        let (a, l, w) = (amount(s, k), limb(s, n - 1), weight(k));
        assert(a + l * w < 0x1_0000_0000 * w) by (nonlinear_arith)
            requires
                a < w,
                l <= 0xffff_ffff,
        ;
    }
}

/// Limbs behind the last change nothing.
proof fn lemma_amount_padded(s: Seq<u32>, n: nat)
    requires
        n >= s.len(),
    ensures
        amount(s, n) == amount(s, s.len()),
    decreases n,
{
    if n > s.len() {
        lemma_amount_padded(s, (n - 1) as nat);
        assert(limb(s, n - 1) * weight((n - 1) as nat) == 0) by (nonlinear_arith)
            requires
                limb(s, n - 1) == 0,
        ;
    }
}

/// The first `n` limbs decide.
proof fn lemma_amount_same(s: Seq<u32>, t: Seq<u32>, n: nat)
    requires
        forall|i: int| 0 <= i < n ==> limb(s, i) == limb(t, i),
    ensures
        amount(s, n) == amount(t, n),
    decreases n,
{
    if n > 0 {
        lemma_amount_same(s, t, (n - 1) as nat);
    }
}

impl Big {
    pub fn zero() -> (r: Big)
        ensures
            r@ == 0,
    {
        Big { limbs: Vec::new() }
    }

    pub fn one() -> (r: Big)
        ensures
            r@ == 1,
    {
        let mut limbs: Vec<u32> = Vec::new();
        limbs.push(1);
        proof {
            reveal_with_fuel(amount, 2);
            reveal_with_fuel(weight, 2);
        }
        Big { limbs }
    }

    /// A copy of the number.
    pub fn copy(&self) -> (r: Big)
        ensures
            r@ == self@,
    {
        let mut limbs: Vec<u32> = Vec::new();
        let n: usize = self.limbs.len();
        for i in 0..n
            invariant
                n == self.limbs@.len(),
                limbs@.len() == i,
                forall|j: int| 0 <= j < i ==> limbs@[j] == self.limbs@[j],
        {
            limbs.push(self.limbs[i]);
        }
        assert(limbs@ =~= self.limbs@);
        Big { limbs }
    }

    /// Multiplies by `m`, then adds `a`.
    pub fn mul_add(&mut self, m: u32, a: u32)
        ensures
            final(self)@ == old(self)@ * m + a,
    {
        let ghost start = self.limbs@;
        let n: usize = self.limbs.len();
        let mut carry: u32 = a;
        proof {
            assert(carry as nat * weight(0) == a) by (nonlinear_arith)
                requires
                    weight(0) == 1,
                    carry == a,
            ;
            assert(amount(start, 0) * m == 0) by (nonlinear_arith)
                requires
                    amount(start, 0) == 0,
            ;
        }
        for i in 0..n
            invariant
                n == self.limbs@.len(),
                start.len() == n,
                forall|j: int| i <= j < n ==> self.limbs@[j] == start[j],
                amount(self.limbs@, i as nat) + carry as nat * weight(i as nat) == amount(
                    start,
                    i as nat,
                ) * m + a,
        {
            let ghost before = self.limbs@;
            let l: u32 = self.limbs[i];
            assert(l as u64 * m as u64 + carry as u64 <= 0xffff_ffff_0000_0000) by (nonlinear_arith)
                requires
                    l <= 0xffff_ffff,
                    m <= 0xffff_ffff,
                    carry <= 0xffff_ffff,
            ;
            let t: u64 = l as u64 * m as u64 + carry as u64;
            let low: u32 = (t % 0x1_0000_0000) as u32;
            let high: u32 = (t / 0x1_0000_0000) as u32;
            self.limbs.set(i, low);
            proof {
                let k = i as nat;
                lemma_amount_same(before, self.limbs@, k);
                let (w, s, o) = (weight(k), amount(before, k), amount(start, k));
                let c = carry as nat;
                assert(t == low as nat + 0x1_0000_0000 * (high as nat));
                assert(s + low as nat * w + high as nat * (0x1_0000_0000 * w) == (o + l as nat * w)
                    * m + a) by (nonlinear_arith)
                    requires
                        s + c * w == o * m + a,
                        l as nat * m as nat + c == low as nat + 0x1_0000_0000 * (high as nat),
                ;
                assert(limb(self.limbs@, i as int) == low);
                assert(limb(start, i as int) == l);
            }
            carry = high;
        }
        if carry > 0 {
            let ghost before = self.limbs@;
            self.limbs.push(carry);
            proof {
                lemma_amount_same(before, self.limbs@, n as nat);
                assert(limb(self.limbs@, n as int) == carry);
            }
        } else {
            assert(carry as nat * weight(n as nat) == 0) by (nonlinear_arith)
                requires
                    carry == 0,
            ;
        }
    }

    /// Doubles the number `k` times.
    pub fn double(&mut self, k: usize)
        ensures
            final(self)@ == old(self)@ * pow2(k as nat),
    {
        let ghost start = self@;
        proof {
            lemma2_to64();
            assert(start * pow2(0) == start) by (nonlinear_arith)
                requires
                    pow2(0) == 1,
            ;
        }
        for i in 0..k
            invariant
                self@ == start * pow2(i as nat),
        {
            self.mul_add(2, 0);
            proof {
                lemma_pow2_unfold(i as nat + 1);
                assert(start * pow2(i as nat) * 2 == start * pow2(i as nat + 1))
                    by (nonlinear_arith)
                    requires
                        pow2(i as nat + 1) == 2 * pow2(i as nat),
                ;
            }
        }
    }

    fn at(&self, i: usize) -> (r: u32)
        ensures
            r == limb(self.limbs@, i as int),
    {
        if i < self.limbs.len() {
            self.limbs[i]
        } else {
            0
        }
    }

    /// Whether the number is as great as `other` or greater.
    pub fn is_at_least(&self, other: &Big) -> (r: bool)
        ensures
            r == (self@ >= other@),
    {
        let n: usize = if self.limbs.len() >= other.limbs.len() {
            self.limbs.len()
        } else {
            other.limbs.len()
        };
        let ghost (s, t) = (self.limbs@, other.limbs@);
        proof {
            lemma_amount_padded(s, n as nat);
            lemma_amount_padded(t, n as nat);
        }
        let mut i: usize = n;
        while i > 0
            invariant
                s == self.limbs@,
                t == other.limbs@,
                i <= n,
                amount(s, n as nat) - amount(s, i as nat) == amount(t, n as nat) - amount(
                    t,
                    i as nat,
                ),
                self@ == amount(s, n as nat),
                other@ == amount(t, n as nat),
            decreases i,
        {
            let a: u32 = self.at(i - 1);
            let b: u32 = other.at(i - 1);
            if a != b {
                proof {
                    let k = (i - 1) as nat;
                    lemma_amount_below(s, k);
                    lemma_amount_below(t, k);
                    let w = weight(k);
                    let (x, y) = (amount(s, k), amount(t, k));
                    if a > b {
                        assert(x + a as nat * w > y + b as nat * w) by (nonlinear_arith)
                            requires
                                a > b,
                                y < w,
                        ;
                    } else {
                        assert(x + a as nat * w < y + b as nat * w) by (nonlinear_arith)
                            requires
                                a < b,
                                x < w,
                        ;
                    }
                }
                return a > b;
            }
            i = i - 1;
        }
        true
    }

    /// Subtracts a number that is not greater.
    pub fn subtract(&mut self, other: &Big)
        requires
            old(self)@ >= other@,
        ensures
            final(self)@ == old(self)@ - other@,
    {
        let ghost value = self@;
        while self.limbs.len() < other.limbs.len()
            invariant
                self@ == value,
            decreases other.limbs@.len() - self.limbs@.len(),
        {
            let ghost before = self.limbs@;
            self.limbs.push(0);
            proof {
                let n = before.len();
                lemma_amount_same(before, self.limbs@, n);
                assert(limb(self.limbs@, n as int) == 0);
                assert(0 * weight(n) == 0);
            }
        }
        let ghost start = self.limbs@;
        let ghost t = other.limbs@;
        let n: usize = self.limbs.len();
        let mut borrow: u32 = 0;
        assert(borrow as nat * weight(0) == 0);
        for i in 0..n
            invariant
                n == self.limbs@.len(),
                start.len() == n,
                t == other.limbs@,
                borrow <= 1,
                forall|j: int| i <= j < n ==> self.limbs@[j] == start[j],
                amount(self.limbs@, i as nat) + amount(t, i as nat) == amount(start, i as nat)
                    + borrow as nat * weight(i as nat),
        {
            let ghost before = self.limbs@;
            let l: u32 = self.limbs[i];
            let o: u32 = other.at(i);
            let v: u64 = 0x1_0000_0000 + l as u64 - o as u64 - borrow as u64;
            let low: u32 = (v % 0x1_0000_0000) as u32;
            let next: u32 = if v < 0x1_0000_0000 {
                1
            } else {
                0
            };
            self.limbs.set(i, low);
            proof {
                let k = i as nat;
                lemma_amount_same(before, self.limbs@, k);
                let (w, x, y, z) = (weight(k), amount(before, k), amount(t, k), amount(start, k));
                let c = borrow as nat;
                let d = next as nat;
                assert(low as nat + o as nat + c == l as nat + 0x1_0000_0000 * d);
                assert((x + low as nat * w) + (y + o as nat * w) == (z + l as nat * w) + d * (
                0x1_0000_0000 * w)) by (nonlinear_arith)
                    requires
                        x + y == z + c * w,
                        low as nat + o as nat + c == l as nat + 0x1_0000_0000 * d,
                ;
                assert(limb(self.limbs@, i as int) == low);
                assert(limb(start, i as int) == l);
            }
            borrow = next;
        }
        proof {
            lemma_amount_padded(t, n as nat);
            lemma_amount_below(self.limbs@, n as nat);
            lemma_weight_pos(n as nat);
            let w = weight(n as nat);
            if borrow == 1 {
                assert(1 * w == w);
            } else {
                assert(0 * w == 0);
            }
        }
    }
}

// ---------------------------------------------------------------------------
// Ratios
// ---------------------------------------------------------------------------

/// `2^n * b <= a < 2^n * c` keeps exponents in their order.
proof fn lemma_exponent_below(a: nat, b: nat, m: nat, n: nat)
    requires
        b > 0,
        b * pow2(m) <= a,
        a < b * pow2(n),
    ensures
        m < n,
{
    if m >= n {
        if m > n {
            lemma_pow2_strictly_increases(n, m);
        }
        assert(b * pow2(m) >= b * pow2(n)) by (nonlinear_arith)
            requires
                pow2(m) >= pow2(n),
        ;
    }
}

proof fn lemma_pow2_53()
    ensures
        pow2(52) == 0x10_0000_0000_0000,
        pow2(53) == 0x20_0000_0000_0000,
{
    lemma2_to64();
    lemma_pow2_adds(32, 20);
    lemma_pow2_adds(32, 21);
}

/// The quotient of `a` by `b`, a number below 2^53, where `h` is `2^52 * b`;
/// and how twice the remainder compares with `b`: less, the same, more.
fn divide(a: Big, h: &Big, Ghost(b): Ghost<nat>) -> (r: (u64, u8))
    requires
        b > 0,
        h@ == b * pow2(52),
        a@ < 2 * h@,
    ensures
        r.0 == a@ / b,
        r.0 < 0x20_0000_0000_0000,
        r.1 == if 2 * (a@ % b) < b {
            0u8
        } else if 2 * (a@ % b) == b {
            1
        } else {
            2
        },
{
    let ghost x = a@;
    let mut rest = a;
    let mut q: u64 = 0;
    proof {
        lemma2_to64();
        assert(x * pow2(0) == x) by (nonlinear_arith)
            requires
                pow2(0) == 1,
        ;
        assert(2 * h@ * 0 == 0) by (nonlinear_arith);
        lemma_pow2_53();
    }
    for s in 0..53usize
        invariant
            rest@ < 2 * h@,
            x * pow2(s as nat) == rest@ + 2 * h@ * q,
            q < pow2(s as nat),
            s < 53 ==> pow2(s as nat) <= 0x10_0000_0000_0000,
            s <= 53,
            pow2(53) == 0x20_0000_0000_0000,
    {
        let ghost (r0, q0) = (rest@, q as nat);
        proof {
            lemma_pow2_unfold(s as nat + 1);
            lemma_pow2_53();
            if s < 51 {
                lemma_pow2_strictly_increases(s as nat + 1, 52);
            }
        }
        if rest.is_at_least(h) {
            rest.subtract(h);
            q = 2 * q + 1;
        } else {
            q = 2 * q;
        }
        rest.mul_add(2, 0);
        proof {
            let (p, p2, hh) = (pow2(s as nat), pow2(s as nat + 1), h@);
            let bit: nat = if r0 >= hh {
                1
            } else {
                0
            };
            assert(q == 2 * q0 + bit);
            assert(bit * hh == if r0 >= hh {
                hh
            } else {
                0
            }) by (nonlinear_arith)
                requires
                    bit == 1 && r0 >= hh || bit == 0 && r0 < hh,
            ;
            assert(rest@ == 2 * (r0 - bit * hh));
            assert(x * p2 == rest@ + 2 * hh * (2 * q0 + bit)) by (nonlinear_arith)
                requires
                    x * p == r0 + 2 * hh * q0,
                    p2 == 2 * p,
                    rest@ == 2 * (r0 - bit * hh),
            ;
        }
    }
    proof {
        lemma_pow2_53();
        lemma_pow2_unfold(53);
        let p = pow2(53);
        // x * 2^53 == rest + 2^53 * b * q, so 2^53 divides rest.
        let rem = x - b * q;
        assert(2 * h@ == b * p) by (nonlinear_arith)
            requires
                h@ == b * pow2(52),
                p == 2 * pow2(52),
        ;
        assert(rest@ == rem * p) by (nonlinear_arith)
            requires
                x * p == rest@ + 2 * h@ * q,
                2 * h@ == b * p,
                rem == x - b * q,
        ;
        assert(0 <= rem < b) by (nonlinear_arith)
            requires
                rest@ == rem * p,
                0 <= rest@ < b * p,
                p > 0,
        ;
        assert(b * q == q as int * b as int) by (nonlinear_arith);
        lemma_fundamental_div_mod_converse(x as int, b as int, q as int, rem);
        assert(2 * rem < b <==> rest@ < h@) by (nonlinear_arith)
            requires
                rest@ == rem * p,
                2 * h@ == b * p,
                p > 0,
        ;
        assert(2 * rem == b <==> rest@ == h@) by (nonlinear_arith)
            requires
                rest@ == rem * p,
                2 * h@ == b * p,
                p > 0,
        ;
    }
    let order: u8 = if !rest.is_at_least(h) {
        0
    } else if h.is_at_least(&rest) {
        1
    } else {
        2
    };
    (q, order)
}

/// `a / b` to the nearest number with 53 significant bits, for a ratio above
/// 2^-1075 and below 2^1024.
pub fn nearest_ratio(a: Big, b: Big) -> (r: Double)
    requires
        a@ > 0,
        b@ > 0,
        a@ < b@ * pow2(1024),
        b@ < a@ * pow2(1075),
    ensures
        r@ == nearest(a@, b@),
        r.wf(),
        -1_200 <= r.exponent <= 1_200,
        r.mantissa != 0,
{
    let ghost (x, y) = (a@, b@);
    let mut a = a;
    let mut half = b;
    half.double(52);
    let mut full = half.copy();
    full.double(1);
    let mut k: i32 = 0;
    proof {
        lemma2_to64();
        lemma_pow2_53();
        assert(y * pow2(0) == y) by (nonlinear_arith)
            requires
                pow2(0) == 1,
        ;
        assert(y * pow2(52) * pow2(1) == 2 * (y * pow2(52))) by (nonlinear_arith)
            requires
                pow2(1) == 2,
        ;
    }
    while a.is_at_least(&full)
        invariant
            a@ == x,
            x > 0,
            y > 0,
            0 <= k < 1024,
            half@ == (y * pow2(k as nat)) * pow2(52),
            full@ == 2 * half@,
            pow2(52) == 0x10_0000_0000_0000,
            x < y * pow2(1024),
            shrink(x, y, 0) == shrink(x, y * pow2(k as nat), k as int),
        decreases 1024 - k,
    {
        proof {
            let c = y * pow2(k as nat);
            assert(full@ == 0x20_0000_0000_0000 * c);
            lemma_pow2_unfold(k as nat + 1);
            lemma_pow2_pos(k as nat);
            assert(2 * c == y * pow2(k as nat + 1)) by (nonlinear_arith)
                requires
                    c == y * pow2(k as nat),
                    pow2(k as nat + 1) == 2 * pow2(k as nat),
            ;
            assert(c > 0) by (nonlinear_arith)
                requires
                    c == y * pow2(k as nat),
                    y > 0,
                    pow2(k as nat) > 0,
            ;
            assert(shrink(x, c, k as int) == shrink(x, 2 * c, k + 1));
            assert((2 * c) * pow2(52) == 2 * (c * pow2(52))) by (nonlinear_arith);
            assert(y * pow2(k as nat + 1) <= x);
            lemma_exponent_below(x, y, k as nat + 1, 1024);
        }
        half.mul_add(2, 0);
        full.mul_add(2, 0);
        k = k + 1;
    }
    let ghost c = y * pow2(k as nat);
    proof {
        lemma_pow2_pos(k as nat);
        assert(c > 0) by (nonlinear_arith)
            requires
                c == y * pow2(k as nat),
                y > 0,
                pow2(k as nat) > 0,
        ;
        assert(shrink(x, y, 0) == (x, c, k as int));
        assert(x * pow2(0) == x) by (nonlinear_arith)
            requires
                pow2(0) == 1,
        ;
        // The ratio is at most 2^52 only if it was never shrunk.
        lemma_grow_needs_no_shrink(x, y, k as nat);
    }
    let mut j: i32 = 0;
    while !a.is_at_least(&half)
        invariant
            x > 0,
            y > 0,
            c > 0,
            c == y * pow2(k as nat),
            0 <= k < 1024,
            0 <= j < 1_128,
            half@ == c * pow2(52),
            pow2(52) == 0x10_0000_0000_0000,
            a@ == x * pow2(j as nat),
            a@ > 0,
            a@ < 2 * half@,
            y < x * pow2(1075),
            k > 0 ==> x >= half@,
            grow(x, c, k as int) == grow(a@, c, k - j),
        decreases 1_128 - j,
    {
        proof {
            lemma_pow2_unfold(j as nat + 1);
            assert(2 * (x * pow2(j as nat)) == x * pow2(j as nat + 1)) by (nonlinear_arith)
                requires
                    pow2(j as nat + 1) == 2 * pow2(j as nat),
            ;
            lemma_pow2_pos(j as nat);
            if k > 0 {
                assert(x * pow2(j as nat) >= x) by (nonlinear_arith)
                    requires
                        pow2(j as nat) >= 1,
                ;
            }
            assert(k == 0);
            lemma2_to64();
            assert(c == y) by (nonlinear_arith)
                requires
                    c == y * pow2(0),
                    pow2(0) == 1,
            ;
            // x * 2^j < 2^52 * y < 2^1127 * x.
            lemma_pow2_adds(1075, 52);
            lemma_pow2_pos(52);
            assert(x * pow2(j as nat) < x * pow2(1127)) by (nonlinear_arith)
                requires
                    x * pow2(j as nat) < y * pow2(52),
                    y < x * pow2(1075),
                    pow2(1127) == pow2(1075) * pow2(52),
                    pow2(52) > 0,
            ;
            lemma_exponent_below(x * pow2(j as nat), x, j as nat, 1127);
        }
        a.mul_add(2, 0);
        j = j + 1;
    }
    let ghost z = a@;
    let (q, order) = divide(a, &half, Ghost(c));
    let m: u64 = if order == 2 || (order == 1 && q % 2 == 1) {
        q + 1
    } else {
        q
    };
    proof {
        assert(grow(x, c, k as int) == (z, c, k - j));
        assert(m == round_half_even(z, c));
        lemma_fundamental(z, c, q as nat);
    }
    if m == 0x20_0000_0000_0000 {
        Double { mantissa: 0x10_0000_0000_0000, exponent: k - j + 1 }
    } else {
        Double { mantissa: m, exponent: k - j }
    }
}

/// A ratio that was shrunk is 2^52 at least.
proof fn lemma_grow_needs_no_shrink(x: nat, y: nat, k: nat)
    requires
        y > 0,
        shrink(x, y, 0) == (x, y * pow2(k), k as int),
    ensures
        k > 0 ==> x >= (y * pow2(k)) * 0x10_0000_0000_0000,
{
    crate::rounding::shrunk_is_not_small(x, y, 0);
}

proof fn lemma_fundamental(z: nat, c: nat, q: nat)
    requires
        c > 0,
        q == z / c,
        z >= c * pow2(52),
    ensures
        q >= 0x10_0000_0000_0000,
{
    lemma_pow2_53();
    vstd::arithmetic::div_mod::lemma_fundamental_div_mod(z as int, c as int);
    vstd::arithmetic::div_mod::lemma_mod_bound(z as int, c as int);
    assert(q >= 0x10_0000_0000_0000) by (nonlinear_arith)
        requires
            z == c * q + z % c,
            0 <= z % c < c,
            z >= c * 0x10_0000_0000_0000,
            c > 0,
    ;
}

} // verus!
