//! Decimal texts as numbers with 53 significant bits.

use vstd::arithmetic::power2::{
    lemma2_to64, lemma_pow2_adds, lemma_pow2_pos, lemma_pow2_strictly_increases, pow2,
};
use vstd::prelude::*;

use crate::big::{nearest_ratio, Big};
use crate::double::{nearest, Double};
use crate::numeral::{
    all_digits, decimal_digits, digit_value, digits_value, is_digit, pow10, split_decimal,
};
use crate::text::part;
use crate::precision::{is_about, nearest_is_close};
use crate::rounding::{is_number, rounded_is_number};

verus! {

/// The first `e` or `E`, from `k` on.
pub open spec fn exponent_mark(s: Seq<char>, k: int) -> Option<int>
    decreases s.len() - k,
{
    if k < 0 || k >= s.len() {
        None
    } else if s[k] == 'e' || s[k] == 'E' {
        Some(k)
    } else {
        exponent_mark(s, k + 1)
    }
}

/// A whole number with a sign allowed in front.
pub open spec fn exponent_of(s: Seq<char>) -> Option<int> {
    let signed = s.len() > 0 && (s[0] == '-' || s[0] == '+');
    let d = if signed {
        s.skip(1)
    } else {
        s
    };
    if d.len() == 0 || !all_digits(d) {
        None
    } else if signed && s[0] == '-' {
        Some(-(digits_value(d) as int))
    } else {
        Some(digits_value(d) as int)
    }
}

/// A decimal number that is not negative, as `m * 10^x`: digits with a point
/// among them, a plus sign in front and an exponent behind allowed.
pub open spec fn scientific(s: Seq<char>) -> Option<(nat, int)> {
    let t = if s.len() > 0 && s[0] == '+' {
        s.skip(1)
    } else {
        s
    };
    match exponent_mark(t, 0) {
        None => match decimal_digits(t) {
            Some((d, before)) => Some((digits_value(d), before - d.len())),
            None => None,
        },
        Some(i) => match (decimal_digits(t.take(i)), exponent_of(t.skip(i + 1))) {
            (Some((d, before)), Some(x)) => Some((digits_value(d), x + before - d.len())),
            _ => None,
        },
    }
}

/// `m * 10^x` is closer to 2^1024 than to any number of double precision.
pub open spec fn is_infinite(m: nat, x: int) -> bool {
    let limit = 0x3f_ffff_ffff_ffff * pow2(970);
    if x >= 0 {
        m * pow10(x as nat) >= limit
    } else {
        m >= limit * pow10((-x) as nat)
    }
}

/// `m * 10^x` is 2^-1075 at most, and counts as zero.
pub open spec fn is_negligible(m: nat, x: int) -> bool {
    m == 0 || (x < 0 && m * pow2(1075) <= pow10((-x) as nat))
}

/// What stands for infinity: more than any product of two finite numbers.
pub open spec fn infinity() -> (nat, int) {
    (0x10_0000_0000_0000, 4_000)
}

/// `m * 10^x` to the nearest number with 53 significant bits.
pub open spec fn decimal_value(m: nat, x: int) -> (nat, int) {
    if is_negligible(m, x) {
        (0, 0)
    } else if is_infinite(m, x) {
        infinity()
    } else if x >= 0 {
        nearest(m * pow10(x as nat), 1)
    } else {
        nearest(m, pow10((-x) as nat))
    }
}

/// The number that a text stands for. `None` if it is no decimal number, or a
/// negative one.
pub open spec fn float_of(s: Seq<char>) -> Option<(nat, int)> {
    match scientific(s) {
        Some((m, x)) => Some(decimal_value(m, x)),
        None => None,
    }
}

// ---------------------------------------------------------------------------
// Powers of ten
// ---------------------------------------------------------------------------

proof fn lemma_pow10_pos(n: nat)
    ensures
        pow10(n) > 0,
    decreases n,
{
    if n > 0 {
        lemma_pow10_pos((n - 1) as nat);
    }
}

/// What a numeral is read as is a number of double precision: the one nearest
/// to its decimals, where these are no more than such numbers hold.
pub proof fn read_number_is_nearest(s: Seq<char>)
    ensures
        float_of(s) matches Some(v) ==> is_number(v),
        scientific(s) matches Some((m, x)) ==> m > 0 && !is_infinite(m, x) && !is_negligible(m, x)
            ==> is_about(
            float_of(s)->Some_0,
            if x >= 0 {
                m * pow10(x as nat)
            } else {
                m
            },
            if x >= 0 {
                1
            } else {
                pow10((-x) as nat)
            },
            1,
        ),
{
    if let Some((m, x)) = scientific(s) {
        if x >= 0 {
            lemma_pow10_pos(x as nat);
            let p = pow10(x as nat);
            rounded_is_number(m * p, 1, 0);
            assert(m > 0 ==> m * p > 0) by (nonlinear_arith)
                requires
                    p > 0,
            ;
            if m > 0 {
                nearest_is_close(m * p, 1);
            }
        } else {
            lemma_pow10_pos((-x) as nat);
            rounded_is_number(m, pow10((-x) as nat), 0);
            if m > 0 {
                nearest_is_close(m, pow10((-x) as nat));
            }
        }
    }
}

proof fn lemma_pow10_adds(a: nat, b: nat)
    ensures
        pow10(a + b) == pow10(a) * pow10(b),
    decreases b,
{
    if b == 0 {
        assert(pow10(a) * pow10(0) == pow10(a)) by (nonlinear_arith)
            requires
                pow10(0) == 1,
        ;
    } else {
        lemma_pow10_adds(a, (b - 1) as nat);
        let (p, q) = (pow10(a), pow10((b - 1) as nat));
        assert(10 * (p * q) == p * (10 * q)) by (nonlinear_arith);
        assert(pow10(a + b) == 10 * pow10((a + b - 1) as nat));
    }
}

proof fn lemma_pow10_order(a: nat, b: nat)
    requires
        a <= b,
    ensures
        pow10(a) <= pow10(b),
{
    lemma_pow10_adds(a, (b - a) as nat);
    lemma_pow10_pos((b - a) as nat);
    let (p, q) = (pow10(a), pow10((b - a) as nat));
    assert(p * q >= p) by (nonlinear_arith)
        requires
            q >= 1,
    ;
}

proof fn lemma_pow10_above_pow2(n: nat)
    ensures
        pow10(n) >= pow2(3 * n),
    decreases n,
{
    lemma2_to64();
    if n > 0 {
        lemma_pow10_above_pow2((n - 1) as nat);
        lemma_pow2_adds(3 * (n - 1) as nat, 3);
    }
}

/// The value of digits of which the first `z` are zeros and the next is not.
proof fn lemma_value_bounds(d: Seq<char>, z: int)
    requires
        all_digits(d),
        0 <= z < d.len(),
        forall|i: int| 0 <= i < z ==> d[i] == '0',
        d[z] != '0',
    ensures
        pow10((d.len() - z - 1) as nat) <= digits_value(d) < pow10((d.len() - z) as nat),
    decreases d.len(),
{
    let t = d.drop_last();
    assert(is_digit(d.last()));
    if z == d.len() - 1 {
        lemma_zeros(t);
        assert(is_digit(d[z]));
        assert(pow10(0) == 1);
        assert(pow10(1) == 10 * pow10(0));
    } else {
        assert(all_digits(t)) by {
            assert forall|i: int| 0 <= i < t.len() implies is_digit(#[trigger] t[i]) by {
                assert(is_digit(d[i]));
            }
        }
        lemma_value_bounds(t, z);
    }
}

proof fn lemma_zeros(d: Seq<char>)
    requires
        forall|i: int| 0 <= i < d.len() ==> d[i] == '0',
    ensures
        digits_value(d) == 0,
    decreases d.len(),
{
    if d.len() > 0 {
        lemma_zeros(d.drop_last());
    }
}

/// A number of many digits before its point is infinite.
proof fn lemma_infinite(m: nat, s: nat, x: int)
    requires
        s >= 1,
        m >= pow10((s - 1) as nat),
        x + s >= 401,
    ensures
        is_infinite(m, x),
        !is_negligible(m, x),
{
    lemma_pow10_pos((s - 1) as nat);
    lemma_pow10_above_pow2(400);
    lemma_limit();
    lemma_pow2_strictly_increases(1024, 1200);
    let limit = 0x3f_ffff_ffff_ffff * pow2(970);
    if x >= 0 {
        lemma_pow10_adds((s - 1) as nat, x as nat);
        lemma_pow10_order(400, (s - 1 + x) as nat);
        lemma_pow10_pos(x as nat);
        assert(m * pow10(x as nat) >= pow10((s - 1) as nat) * pow10(x as nat)) by (nonlinear_arith)
            requires
                m >= pow10((s - 1) as nat),
        ;
    } else {
        let k = (-x) as nat;
        let r = (s - 1 + x) as nat;
        lemma_pow10_adds(r, k);
        lemma_pow10_order(400, r);
        lemma_pow10_pos(k);
        assert(pow10(r) * pow10(k) >= limit * pow10(k)) by (nonlinear_arith)
            requires
                pow10(r) >= limit,
        ;
        lemma_pow10_order(k, (s - 1) as nat);
        assert(m * pow2(1075) > pow10(k)) by (nonlinear_arith)
            requires
                m >= pow10((s - 1) as nat),
                pow10((s - 1) as nat) >= pow10(k),
                pow10(k) > 0,
                pow2(1075) >= 2,
        ;
    }
}

/// A number with many zeros behind its point is negligible.
proof fn lemma_negligible(m: nat, s: nat, x: int)
    requires
        m < pow10(s),
        x + s <= -401,
    ensures
        is_negligible(m, x),
{
    let k = (-x) as nat;
    lemma_pow10_above_pow2(400);
    lemma_pow2_strictly_increases(1075, 1200);
    lemma_pow10_adds(s, 400);
    lemma_pow10_order(s + 400, k);
    assert(m * pow2(1075) <= pow10(s) * pow10(400)) by (nonlinear_arith)
        requires
            m < pow10(s),
            pow2(1075) <= pow10(400),
    ;
}

/// The limit of infinity lies below 2^1024.
proof fn lemma_limit()
    ensures
        0x3f_ffff_ffff_ffff * pow2(970) < pow2(1024),
        0x3f_ffff_ffff_ffff == pow2(54) - 1,
        pow2(1075) >= 2,
{
    lemma2_to64();
    lemma_pow2_adds(32, 22);
    lemma_pow2_adds(970, 54);
    lemma_pow2_pos(970);
    lemma_pow2_strictly_increases(1, 1075);
    assert(0x3f_ffff_ffff_ffff * pow2(970) < pow2(54) * pow2(970)) by (nonlinear_arith)
        requires
            pow2(54) == 0x40_0000_0000_0000,
            pow2(970) > 0,
    ;
    assert(pow2(970) * pow2(54) == pow2(54) * pow2(970)) by (nonlinear_arith);
}

// ---------------------------------------------------------------------------
// Reading
// ---------------------------------------------------------------------------

/// More than any exponent that is told apart.
const GREATEST: i128 = 1_000_000_000_000_000_000_000_000_000_000;

/// The exponent, or the greatest or least one that is told apart.
fn read_exponent(s: &[char]) -> (r: Option<i128>)
    ensures
        match r {
            Some(x) => exponent_of(s@) is Some && {
                let v = exponent_of(s@)->Some_0;
                ||| x == v && -GREATEST <= x <= GREATEST
                ||| x == GREATEST && v > GREATEST
                ||| x == -GREATEST && v < -GREATEST
            },
            None => exponent_of(s@) is None,
        },
{
    let n: usize = s.len();
    let signed: bool = n > 0 && (s[0] == '-' || s[0] == '+');
    let negative: bool = signed && s[0] == '-';
    let from: usize = if signed {
        1
    } else {
        0
    };
    let ghost d = if signed {
        s@.skip(1)
    } else {
        s@
    };
    if from == n {
        return None;
    }
    let mut v: i128 = 0;
    let mut over: bool = false;
    let mut i: usize = from;
    while i < n
        invariant
            n == s@.len(),
            from <= i <= n,
            from <= 1,
            d == s@.skip(from as int),
            signed == (from == 1),
            signed == (s@.len() > 0 && (s@[0] == '-' || s@[0] == '+')),
            d.len() > 0,
            all_digits(d.take(i - from)),
            0 <= v <= GREATEST,
            !over ==> v == digits_value(d.take(i - from)),
            over ==> v == GREATEST && digits_value(d.take(i - from)) > GREATEST,
        decreases n - i,
    {
        let c = s[i];
        let ghost t = d.take(i - from + 1);
        proof {
            assert(d[i - from] == c);
            assert(t.drop_last() =~= d.take(i - from));
            assert(t.last() == c);
        }
        if c < '0' || c > '9' {
            assert(!is_digit(d[i - from]));
            return None;
        }
        let e: i128 = (c as u32 - '0' as u32) as i128;
        proof {
            assert(digits_value(t) == 10 * digits_value(d.take(i - from)) + digit_value(c));
            assert forall|k: int| 0 <= k < t.len() implies is_digit(#[trigger] t[k]) by {
                if k < i - from {
                    assert(d.take(i - from)[k] == t[k]);
                }
            }
        }
        if !over {
            v = 10 * v + e;
            if v > GREATEST {
                v = GREATEST;
                over = true;
            }
        }
        i = i + 1;
    }
    assert(d.take(n - from) =~= d);
    Some(
        if negative {
            -v
        } else {
            v
        },
    )
}

fn find_exponent_mark(s: &[char]) -> (r: Option<usize>)
    ensures
        match r {
            Some(i) => exponent_mark(s@, 0) == Some(i as int) && i < s@.len(),
            None => exponent_mark(s@, 0) is None,
        },
{
    let mut k: usize = 0;
    while k < s.len()
        invariant
            k <= s@.len(),
            exponent_mark(s@, 0) == exponent_mark(s@, k as int),
        decreases s@.len() - k,
    {
        if s[k] == 'e' || s[k] == 'E' {
            return Some(k);
        }
        k = k + 1;
    }
    None
}

/// Multiplies by `10^k`.
fn raise(b: &mut Big, k: u128)
    ensures
        final(b)@ == old(b)@ * pow10(k as nat),
{
    let ghost start = b@;
    assert(start * pow10(0) == start) by (nonlinear_arith)
        requires
            pow10(0) == 1,
    ;
    let mut i: u128 = 0;
    while i < k
        invariant
            i <= k,
            b@ == start * pow10(i as nat),
        decreases k - i,
    {
        b.mul_add(10, 0);
        proof {
            let p = pow10(i as nat);
            assert(pow10(i as nat + 1) == 10 * p);
            assert(start * p * 10 + 0 == start * (10 * p)) by (nonlinear_arith);
        }
        i = i + 1;
    }
}

/// The number that a row of digits stands for.
fn big_of(d: &Vec<char>) -> (r: Big)
    requires
        all_digits(d@),
    ensures
        r@ == digits_value(d@),
{
    let mut r = Big::zero();
    let n: usize = d.len();
    for i in 0..n
        invariant
            n == d@.len(),
            all_digits(d@),
            r@ == digits_value(d@.take(i as int)),
    {
        let ghost t = d@.take(i as int + 1);
        assert(t.drop_last() =~= d@.take(i as int));
        assert(t.last() == d@[i as int]);
        assert(is_digit(d@[i as int]));
        let e: u32 = d[i] as u32 - '0' as u32;
        r.mul_add(10, e);
    }
    assert(d@.take(n as int) =~= d@);
    r
}

/// `m * 10^x` for the value `m` of the digits, where that is neither too great
/// nor too small to tell at a glance.
fn round_decimal(d: &Vec<char>, x: i128) -> (r: Double)
    requires
        all_digits(d@),
        digits_value(d@) > 0,
        -GREATEST <= x <= 400,
    ensures
        r@ == decimal_value(digits_value(d@), x as int),
        r.wf(),
        -1_200 <= r.exponent <= 4_000,
{
    let ghost m = digits_value(d@);
    let mut a = big_of(d);
    let mut b = Big::one();
    if x >= 0 {
        raise(&mut a, x as u128);
    } else {
        raise(&mut b, (-x) as u128);
    }
    let ghost k = (if x >= 0 {
        0
    } else {
        -x
    }) as nat;
    proof {
        lemma_pow10_pos(k);
        if x >= 0 {
            lemma_pow10_pos(x as nat);
            assert(m * pow10(x as nat) > 0) by (nonlinear_arith)
                requires
                    m > 0,
                    pow10(x as nat) > 0,
            ;
        } else {
            assert(1 * pow10((-x) as nat) == pow10((-x) as nat));
        }
        lemma_limit();
    }
    let ghost limit = 0x3f_ffff_ffff_ffff * pow2(970);
    let mut tiny = a.copy();
    tiny.double(1075);
    if b.is_at_least(&tiny) {
        proof {
            if x >= 0 {
                assert(a@ * pow2(1075) > 1) by (nonlinear_arith)
                    requires
                        a@ >= 1,
                        pow2(1075) >= 2,
                ;
            }
        }
        return Double { mantissa: 0, exponent: 0 };
    }
    let mut top = b.copy();
    top.double(54);
    proof {
        lemma_pow2_pos(54);
        assert(b@ * pow2(54) >= b@) by (nonlinear_arith)
            requires
                pow2(54) >= 1,
        ;
    }
    top.subtract(&b);
    top.double(970);
    proof {
        assert((b@ * pow2(54) - b@) * pow2(970) == limit * b@) by (nonlinear_arith)
            requires
                limit == 0x3f_ffff_ffff_ffff * pow2(970),
                pow2(54) == 0x3f_ffff_ffff_ffff + 1,
        ;
    }
    if a.is_at_least(&top) {
        assert(limit * 1 == limit);
        return Double { mantissa: 0x10_0000_0000_0000, exponent: 4_000 };
    }
    proof {
        assert(a@ < b@ * pow2(1024)) by (nonlinear_arith)
            requires
                a@ < limit * b@,
                limit < pow2(1024),
                b@ > 0,
        ;
        assert(limit * 1 == limit);
    }
    nearest_ratio(a, b)
}

/// The number that a text stands for, to the nearest with 53 significant bits.
pub fn read_float(s: &[char]) -> (r: Option<Double>)
    ensures
        match r {
            Some(v) => float_of(s@) == Some(v@) && v.wf() && -1_200 <= v.exponent <= 4_000,
            None => float_of(s@) is None,
        },
{
    let n: usize = s.len();
    let from: usize = if n > 0 && s[0] == '+' {
        1
    } else {
        0
    };
    let t = part(s, from, n);
    assert(t@ =~= if s@.len() > 0 && s@[0] == '+' {
        s@.skip(1)
    } else {
        s@
    });
    let (split, x): (Option<(Vec<char>, usize)>, Option<i128>) = match find_exponent_mark(&t) {
        Some(i) => {
            assert(t@.subrange(0, i as int) =~= t@.take(i as int));
            assert(t@.subrange(i as int + 1, t@.len() as int) =~= t@.skip(i as int + 1));
            (split_decimal(&part(&t, 0, i)), read_exponent(&part(&t, i + 1, t.len())))
        },
        None => (split_decimal(&t), Some(0)),
    };
    let (d, before) = match split {
        Some(p) => p,
        None => {
            return None;
        },
    };
    let x: i128 = match x {
        Some(x) => x,
        None => {
            return None;
        },
    };
    let ghost (m, e) = scientific(s@)->Some_0;
    assert(m == digits_value(d@));
    let len: usize = d.len();
    let mut z: usize = 0;
    while z < len && d[z] == '0'
        invariant
            z <= len,
            len == d@.len(),
            forall|i: int| 0 <= i < z ==> d@[i] == '0',
        decreases len - z,
    {
        z = z + 1;
    }
    if z == len {
        proof {
            lemma_zeros(d@);
        }
        return Some(Double { mantissa: 0, exponent: 0 });
    }
    let sig: i128 = (len - z) as i128;
    let scale: i128 = x + before as i128 - len as i128;
    proof {
        lemma_value_bounds(d@, z as int);
        lemma_pow10_pos((sig - 1) as nat);
    }
    if scale + sig > 400 {
        proof {
            lemma_infinite(m, sig as nat, e);
        }
        return Some(Double { mantissa: 0x10_0000_0000_0000, exponent: 4_000 });
    }
    if scale + sig < -400 {
        proof {
            lemma_negligible(m, sig as nat, e);
        }
        return Some(Double { mantissa: 0, exponent: 0 });
    }
    assert(e == scale);
    Some(round_decimal(&d, scale))
}

} // verus!
