//! Decimal numerals: writing and reading whole numbers, rounding, and setting
//! text in columns.

use vstd::prelude::*;
use vstd::arithmetic::div_mod::lemma_fundamental_div_mod;
use vstd::arithmetic::power2::{lemma2_to64, lemma_pow2_pos, lemma_pow2_unfold, pow2};

use crate::text::{chars_of, find_char, part};

verus! {

/// The digit for `d`, which is below ten.
pub open spec fn digit_char(d: nat) -> char {
    (48 + d) as u8 as char
}

pub open spec fn is_digit(c: char) -> bool {
    '0' <= c && c <= '9'
}

/// The number that a digit stands for.
pub open spec fn digit_value(c: char) -> nat {
    (c as u32 - 48) as nat
}

/// The decimal numeral of `n`, without leading zeros.
pub open spec fn digits(n: nat) -> Seq<char>
    decreases n,
{
    if n < 10 {
        seq![digit_char(n)]
    } else {
        digits(n / 10).push(digit_char(n % 10))
    }
}

/// The decimal numeral of `n`, with a minus sign in front of a negative one.
pub open spec fn signed_digits(n: int) -> Seq<char> {
    if n < 0 {
        seq!['-'] + digits((-n) as nat)
    } else {
        digits(n as nat)
    }
}

pub open spec fn all_digits(s: Seq<char>) -> bool {
    forall|i: int| 0 <= i < s.len() ==> is_digit(#[trigger] s[i])
}

/// The number that a row of digits stands for.
pub open spec fn digits_value(s: Seq<char>) -> nat
    decreases s.len(),
{
    if s.len() == 0 {
        0
    } else {
        10 * digits_value(s.drop_last()) + digit_value(s.last())
    }
}

/// What an unsigned integer type with the greatest value `max` reads in `s`:
/// one or more digits, with a plus sign allowed in front.
pub open spec fn parse_unsigned(s: Seq<char>, max: nat) -> Option<nat> {
    let t = if s.len() > 0 && s[0] == '+' {
        s.skip(1)
    } else {
        s
    };
    if t.len() > 0 && all_digits(t) && digits_value(t) <= max {
        Some(digits_value(t))
    } else {
        None
    }
}

/// What `i64` reads in `s`: one or more digits, with a sign allowed in front.
pub open spec fn parse_signed(s: Seq<char>) -> Option<int> {
    if s.len() > 0 && s[0] == '-' {
        let t = s.skip(1);
        if t.len() > 0 && all_digits(t) && digits_value(t) <= 0x8000_0000_0000_0000 {
            Some(-(digits_value(t) as int))
        } else {
            None
        }
    } else {
        match parse_unsigned(s, i64::MAX as nat) {
            Some(n) => Some(n as int),
            None => None,
        }
    }
}

/// A numeral holds digits only, and reading it gives the number back.
pub proof fn lemma_digits(n: nat)
    ensures
        digits(n).len() > 0,
        all_digits(digits(n)),
        digits_value(digits(n)) == n,
    decreases n,
{
    if n < 10 {
        let s = digits(n);
        assert(s.drop_last() =~= Seq::<char>::empty());
        assert(digits_value(s.drop_last()) == 0);
        assert(s.last() == digit_char(n));
    } else {
        lemma_digits(n / 10);
        let s = digits(n);
        assert(s.drop_last() =~= digits(n / 10));
        assert(s.last() == digit_char(n % 10));
    }
}

/// Reading the numeral of a number gives the number back, for every number
/// that the type holds.
pub proof fn numeral_reads_back(n: nat, max: nat)
    requires
        n <= max,
    ensures
        parse_unsigned(digits(n), max) == Some(n),
{
    lemma_digits(n);
    assert(is_digit(digits(n)[0]));
}

/// The same for numbers with a sign.
pub proof fn signed_numeral_reads_back(n: int)
    requires
        i64::MIN <= n <= i64::MAX,
    ensures
        parse_signed(signed_digits(n)) == Some(n),
{
    if n < 0 {
        let d = digits((-n) as nat);
        lemma_digits((-n) as nat);
        assert((seq!['-'] + d).skip(1) =~= d);
    } else {
        numeral_reads_back(n as nat, i64::MAX as nat);
        lemma_digits(n as nat);
        assert(is_digit(digits(n as nat)[0]));
    }
}

/// The decimal numeral of a number with a sign.
pub fn signed_decimal(n: i64) -> (r: String)
    ensures
        r@ == signed_digits(n as int),
{
    if n < 0 {
        let mut s = String::new();
        s.push('-');
        push_decimal(&mut s, (-(n as i128)) as u128);
        assert(s@ =~= seq!['-'] + digits((-(n as int)) as nat));
        s
    } else {
        decimal(n as u128)
    }
}

/// The value of the digits from `from` up to `to`, if it is at most `max`.
/// `None` for anything else than one or more digits.
pub fn read_digits(s: &[char], from: usize, to: usize, max: u64) -> (r: Option<u64>)
    requires
        from <= to <= s@.len(),
    ensures
        ({
            let t = s@.subrange(from as int, to as int);
            match r {
                Some(n) => t.len() > 0 && all_digits(t) && digits_value(t) == n && n <= max,
                None => t.len() == 0 || !all_digits(t) || digits_value(t) > max,
            }
        }),
{
    let ghost t = s@.subrange(from as int, to as int);
    if from == to {
        return None;
    }
    let mut n: u64 = 0;
    let mut over: bool = false;
    let mut i: usize = from;
    while i < to
        invariant
            from <= i <= to <= s@.len(),
            t == s@.subrange(from as int, to as int),
            all_digits(t.take(i - from)),
            !over ==> n == digits_value(t.take(i - from)) && n <= max,
            over ==> digits_value(t.take(i - from)) > max,
        decreases to - i,
    {
        let c = s[i];
        assert(t[i - from] == c);
        if c < '0' || c > '9' {
            assert(!is_digit(t[i - from]));
            return None;
        }
        let d: u64 = c as u64 - 48;
        let ghost k = i - from;
        assert(t.take(k + 1).drop_last() =~= t.take(k));
        assert(t.take(k + 1).last() == c);
        assert(digits_value(t.take(k + 1)) == 10 * digits_value(t.take(k)) + digit_value(c));
        assert(all_digits(t.take(k + 1)));
        if !over {
            if d > max || n > max / 10 || n * 10 > max - d {
                over = true;
            } else {
                n = n * 10 + d;
            }
        }
        i = i + 1;
    }
    assert(t.take(to - from) =~= t);
    if over {
        None
    } else {
        Some(n)
    }
}

/// What an unsigned integer type with the greatest value `max` reads in `s`.
pub fn read_unsigned(s: &[char], max: u64) -> (r: Option<u64>)
    ensures
        match r {
            Some(n) => parse_unsigned(s@, max as nat) == Some(n as nat),
            None => parse_unsigned(s@, max as nat) is None,
        },
{
    let from: usize = if s.len() > 0 && s[0] == '+' {
        1
    } else {
        0
    };
    assert(s@.subrange(0, s@.len() as int) =~= s@);
    assert(s@.len() > 0 ==> s@.subrange(1, s@.len() as int) =~= s@.skip(1));
    read_digits(s, from, s.len(), max)
}

/// What `i64` reads in `s`.
pub fn read_signed(s: &[char]) -> (r: Option<i64>)
    ensures
        match r {
            Some(n) => parse_signed(s@) == Some(n as int),
            None => parse_signed(s@) is None,
        },
{
    if s.len() > 0 && s[0] == '-' {
        assert(s@.subrange(1, s@.len() as int) =~= s@.skip(1));
        match read_digits(s, 1, s.len(), 0x8000_0000_0000_0000) {
            Some(n) => {
                if n == 0x8000_0000_0000_0000 {
                    Some(i64::MIN)
                } else {
                    Some(-(n as i64))
                }
            },
            None => None,
        }
    } else {
        match read_unsigned(s, i64::MAX as u64) {
            Some(n) => Some(n as i64),
            None => None,
        }
    }
}

/// Ten to the power `k`.
pub open spec fn pow10(k: nat) -> nat
    decreases k,
{
    if k == 0 {
        1
    } else {
        10 * pow10((k - 1) as nat)
    }
}

/// The digits of a decimal number, and how many of them stand before the
/// point. There is one digit at least and one point at most.
pub open spec fn decimal_digits(s: Seq<char>) -> Option<(Seq<char>, int)> {
    match s.index_of_first('.') {
        None => if s.len() > 0 && all_digits(s) {
            Some((s, s.len() as int))
        } else {
            None
        },
        Some(i) => {
            let d = s.take(i) + s.skip(i + 1);
            if d.len() > 0 && all_digits(d) {
                Some((d, i))
            } else {
                None
            }
        },
    }
}

/// `n`, or the greatest `u64` if it is greater.
pub open spec fn saturated(n: nat) -> u64 {
    if n > u64::MAX {
        u64::MAX
    } else {
        n as u64
    }
}

/// The digits of a decimal number, and how many of them stand before the point.
pub(crate) fn split_decimal(s: &[char]) -> (r: Option<(Vec<char>, usize)>)
    ensures
        match r {
            Some((d, before)) => decimal_digits(s@) == Some((d@, before as int)) && before
                <= d@.len(),
            None => decimal_digits(s@) is None,
        },
{
    let mut d: Vec<char> = Vec::new();
    let mut before: usize = s.len();
    match find_char(s, '.') {
        Some(i) => {
            before = i;
            d = part(s, 0, i);
            let mut tail = part(s, i + 1, s.len());
            d.append(&mut tail);
            assert(d@ =~= s@.take(i as int) + s@.skip(i as int + 1));
        },
        None => {
            d = part(s, 0, s.len());
            assert(d@ =~= s@);
        },
    }
    if d.len() == 0 {
        return None;
    }
    for i in 0..d.len()
        invariant
            forall|j: int| 0 <= j < i ==> is_digit(#[trigger] d@[j]),
            !all_digits(d@) ==> decimal_digits(s@) is None,
    {
        if d[i] < '0' || d[i] > '9' {
            assert(!is_digit(d@[i as int]));
            return None;
        }
    }
    Some((d, before))
}

/// Puts the numeral of `n` behind `out`.
pub fn push_decimal(out: &mut String, n: u128)
    ensures
        final(out)@ == old(out)@ + digits(n as nat),
    decreases n,
{
    if n >= 10 {
        push_decimal(out, n / 10);
    }
    let d: u8 = (n % 10) as u8;
    out.push((48 + d) as char);
    proof {
        if n < 10 {
            assert(old(out)@.push(digit_char(n as nat)) =~= old(out)@ + digits(n as nat));
        } else {
            assert((old(out)@ + digits((n / 10) as nat)).push(digit_char(n as nat % 10)) =~= old(
                out,
            )@ + digits(n as nat));
        }
    }
}

/// The numeral of `n`.
pub fn decimal(n: u128) -> (r: String)
    ensures
        r@ == digits(n as nat),
{
    let mut out = String::new();
    push_decimal(&mut out, n);
    assert(out@ =~= digits(n as nat));
    out
}

/// `a / b`, rounded to the nearest whole number; halfway between two, to the
/// even one.
pub open spec fn round_half_even(a: nat, b: nat) -> nat {
    let q = a / b;
    let r = a % b;
    if 2 * r > b || (2 * r == b && q % 2 == 1) {
        q + 1
    } else {
        q
    }
}

/// A ratio is rounded to the nearest whole number, and to the even one where two
/// are as near.
pub proof fn halves_round_to_even(a: nat, b: nat)
    requires
        b > 0,
    ensures
        2 * (round_half_even(a, b) * b) <= 2 * a + b,
        2 * a <= 2 * (round_half_even(a, b) * b) + b,
        2 * (round_half_even(a, b) * b) == 2 * a + b || 2 * a == 2 * (round_half_even(a, b) * b) + b
            ==> round_half_even(a, b) % 2 == 0,
{
    let (q, r) = (a / b, a % b);
    vstd::arithmetic::div_mod::lemma_fundamental_div_mod(a as int, b as int);
    vstd::arithmetic::div_mod::lemma_mod_bound(a as int, b as int);
    assert(b * q == q * b) by (nonlinear_arith);
    assert((q + 1) * b == q * b + b) by (nonlinear_arith);
}

/// `a / b`, rounded to the nearest whole number; halfway between two, to the
/// even one.
pub fn rounded_div(a: u128, b: u128) -> (r: u128)
    requires
        0 < b,
    ensures
        r == round_half_even(a as nat, b as nat),
{
    let q: u128 = a / b;
    let r: u128 = a % b;
    if r > b - r || (r == b - r && q % 2 == 1) {
        proof {
            lemma_fundamental_div_mod(a as int, b as int);
            assert(q < u128::MAX) by (nonlinear_arith)
                requires
                    a == b * q + r,
                    r > 0,
                    b >= 1,
                    a <= u128::MAX,
            ;
        }
        q + 1
    } else {
        q
    }
}

/// A number of tenths with its decimal point: `digits` before, one behind.
pub open spec fn tenths_text(t: nat) -> Seq<char> {
    digits(t / 10) + seq!['.', digit_char(t % 10)]
}

/// A number of tenths with its decimal point.
pub fn tenths(t: u128) -> (r: String)
    ensures
        r@ == tenths_text(t as nat),
{
    let mut out = decimal(t / 10);
    out.push('.');
    let d: u8 = (t % 10) as u8;
    out.push((48 + d) as char);
    assert(out@ =~= tenths_text(t as nat));
    out
}

// ---------------------------------------------------------------------------
// Large numbers
// ---------------------------------------------------------------------------

/// The number whose decimal digits are `d`, the lowest first.
pub open spec fn low_first(d: Seq<u8>) -> nat
    decreases d.len(),
{
    if d.len() == 0 {
        0
    } else {
        d[0] as nat + 10 * low_first(d.skip(1))
    }
}

/// Decimal digits, the lowest first, without a zero at the high end.
pub open spec fn is_low_first(d: Seq<u8>) -> bool {
    &&& forall|i: int| 0 <= i < d.len() ==> (#[trigger] d[i]) < 10
    &&& d.len() > 0 ==> d.last() > 0
}

/// The digits of `2 * d + carry`.
fn doubled(d: &[u8], carry: u8) -> (r: Vec<u8>)
    requires
        is_low_first(d@),
        carry <= 1,
    ensures
        is_low_first(r@),
        low_first(r@) == 2 * low_first(d@) + carry,
    decreases d@.len(),
{
    let mut out: Vec<u8> = Vec::new();
    if d.len() == 0 {
        if carry > 0 {
            out.push(carry);
            assert(out@.skip(1) =~= Seq::<u8>::empty());
            assert(low_first(out@.skip(1)) == 0);
        }
        return out;
    }
    assert(d@[0] < 10);
    let x: u8 = 2 * d[0] + carry;
    let tail = vstd::slice::slice_subrange(d, 1, d.len());
    assert(tail@ =~= d@.skip(1));
    assert(is_low_first(tail@)) by {
        assert forall|i: int| 0 <= i < tail@.len() implies (#[trigger] tail@[i]) < 10 by {
            assert(d@[i + 1] < 10);
        }
    }
    let mut rest = doubled(tail, x / 10);
    let ghost r = rest@;
    out.push(x % 10);
    out.append(&mut rest);
    proof {
        assert(out@.skip(1) =~= r);
        assert(low_first(out@) == (x % 10) as nat + 10 * low_first(r));
        if r.len() > 0 {
            assert(out@.last() == r.last());
        } else {
            assert(low_first(r) == 0);
            if d@.len() > 1 {
                lemma_low_first_positive(tail@);
            }
            assert(tail@.len() == 0);
            assert(d@.last() == d@[0]);
        }
        assert forall|i: int| 0 <= i < out@.len() implies (#[trigger] out@[i]) < 10 by {
            if i > 0 {
                assert(out@[i] == r[i - 1]);
            }
        }
    }
    out
}

proof fn lemma_low_first_positive(d: Seq<u8>)
    requires
        is_low_first(d),
        d.len() > 0,
    ensures
        low_first(d) > 0,
    decreases d.len(),
{
    if d.len() > 1 {
        let t = d.skip(1);
        assert(t.last() == d.last());
        assert forall|i: int| 0 <= i < t.len() implies (#[trigger] t[i]) < 10 by {
            assert(d[i + 1] < 10);
        }
        lemma_low_first_positive(t);
    } else {
        assert(d.last() == d[0]);
    }
}

/// Digits, the lowest first, written as a numeral.
spec fn written_high_first(d: Seq<u8>) -> Seq<char> {
    Seq::new(d.len(), |i: int| digit_char(d[d.len() - 1 - i] as nat))
}

proof fn lemma_low_first_text(d: Seq<u8>)
    requires
        is_low_first(d),
        d.len() > 0,
    ensures
        digits(low_first(d)) == written_high_first(d),
    decreases d.len(),
{
    let n = low_first(d);
    let t = d.skip(1);
    assert(d[0] < 10);
    if d.len() == 1 {
        assert(t =~= Seq::<u8>::empty());
        assert(low_first(t) == 0);
        assert(digits(n) =~= written_high_first(d));
    } else {
        assert(t.last() == d.last());
        assert forall|i: int| 0 <= i < t.len() implies (#[trigger] t[i]) < 10 by {
            assert(d[i + 1] < 10);
        }
        lemma_low_first_text(t);
        lemma_low_first_positive(t);
        assert(n / 10 == low_first(t) && n % 10 == d[0] as nat);
        assert(digits(n) =~= written_high_first(t).push(digit_char(d[0] as nat)));
        assert(written_high_first(t).push(digit_char(d[0] as nat)) =~= written_high_first(d));
    }
}

/// The numeral of `m * 2^k`.
pub fn shifted_decimal(m: u64, k: u32) -> (r: String)
    ensures
        r@ == digits(m as nat * pow2(k as nat)),
{
    if m == 0 {
        assert(0 * pow2(k as nat) == 0) by (nonlinear_arith);
        return decimal(0);
    }
    let mut d: Vec<u8> = low_digits(m);
    let mut i: u32 = 0;
    proof {
        lemma2_to64();
        assert(m as nat * pow2(0) == m);
    }
    while i < k
        invariant
            i <= k,
            is_low_first(d@),
            low_first(d@) == m as nat * pow2(i as nat),
        decreases k - i,
    {
        proof {
            lemma_pow2_unfold(i as nat + 1);
            assert(m as nat * (2 * pow2(i as nat)) == 2 * (m as nat * pow2(i as nat)))
                by (nonlinear_arith);
        }
        d = doubled(d.as_slice(), 0);
        i = i + 1;
    }
    proof {
        lemma_pow2_pos(k as nat);
        assert(m as nat * pow2(k as nat) > 0) by (nonlinear_arith)
            requires
                m > 0,
                pow2(k as nat) > 0,
        ;
        if d@.len() == 0 {
            assert(low_first(d@) == 0);
        }
        lemma_low_first_text(d@);
    }
    let n: usize = d.len();
    let mut out = String::new();
    let mut j: usize = 0;
    while j < n
        invariant
            n == d@.len(),
            j <= n,
            is_low_first(d@),
            out@ == written_high_first(d@).take(j as int),
        decreases n - j,
    {
        assert(d@[n - 1 - j] < 10);
        out.push((48 + d[n - 1 - j]) as char);
        j = j + 1;
        assert(out@ =~= written_high_first(d@).take(j as int));
    }
    assert(written_high_first(d@).take(n as int) =~= written_high_first(d@));
    out
}

/// The digits of `m`, the lowest first.
fn low_digits(m: u64) -> (r: Vec<u8>)
    ensures
        is_low_first(r@),
        low_first(r@) == m,
    decreases m,
{
    let mut out: Vec<u8> = Vec::new();
    if m > 0 {
        let mut rest = low_digits(m / 10);
        let ghost r = rest@;
        out.push((m % 10) as u8);
        out.append(&mut rest);
        proof {
            assert(out@.skip(1) =~= r);
            assert(low_first(out@) == (m % 10) as nat + 10 * low_first(r));
            if r.len() > 0 {
                assert(out@.last() == r.last());
            } else {
                assert(low_first(r) == 0);
            }
            assert forall|i: int| 0 <= i < out@.len() implies (#[trigger] out@[i]) < 10 by {
                if i > 0 {
                    assert(out@[i] == r[i - 1]);
                }
            }
        }
    }
    out
}

// ---------------------------------------------------------------------------
// Columns
// ---------------------------------------------------------------------------

/// `n` blanks.
pub open spec fn blanks(n: int) -> Seq<char> {
    if n <= 0 {
        Seq::empty()
    } else {
        Seq::new(n as nat, |i: int| ' ')
    }
}

/// `s` at the left of a column `width` characters wide; longer text stays whole.
pub open spec fn left(s: Seq<char>, width: int) -> Seq<char> {
    s + blanks(width - s.len())
}

/// `s` at the right of a column `width` characters wide; longer text stays whole.
pub open spec fn right(s: Seq<char>, width: int) -> Seq<char> {
    blanks(width - s.len()) + s
}

/// A column is as wide as was said, or as its text where that is wider; on the
/// left the text begins it, on the right it ends it.
pub proof fn columns_have_their_width(s: Seq<char>, width: nat)
    ensures
        s.len() <= width ==> left(s, width as int).len() == width && right(s, width as int).len()
            == width,
        s.len() > width ==> left(s, width as int) == s && right(s, width as int) == s,
        s.is_prefix_of(left(s, width as int)),
        s.is_suffix_of(right(s, width as int)),
        forall|i: int|
            s.len() <= i < left(s, width as int).len() ==> #[trigger] left(s, width as int)[i] == ' ',
{
    let (l, r) = (left(s, width as int), right(s, width as int));
    assert(l.subrange(0, s.len() as int) =~= s);
    assert(r.subrange(r.len() - s.len(), r.len() as int) =~= s);
    assert(s.len() > width ==> l =~= s && r =~= s);
}

pub fn push_blanks(out: &mut String, n: usize)
    ensures
        final(out)@ == old(out)@ + blanks(n as int),
{
    let ghost start = out@;
    assert(start + blanks(0) =~= start);
    let mut i: usize = 0;
    while i < n
        invariant
            i <= n,
            out@ == start + blanks(i as int),
        decreases n - i,
    {
        out.push(' ');
        i = i + 1;
        assert(out@ =~= start + blanks(i as int));
    }
}

/// Puts `s` behind `out`, at the left of a column `width` characters wide.
pub fn push_left(out: &mut String, s: &str, width: usize)
    ensures
        final(out)@ == old(out)@ + left(s@, width as int),
{
    let n: usize = chars_of(s).len();
    out.append(s);
    if n < width {
        push_blanks(out, width - n);
    }
    assert(out@ =~= old(out)@ + left(s@, width as int));
}

/// Puts `s` behind `out`, at the right of a column `width` characters wide.
pub fn push_right(out: &mut String, s: &str, width: usize)
    ensures
        final(out)@ == old(out)@ + right(s@, width as int),
{
    let n: usize = chars_of(s).len();
    if n < width {
        push_blanks(out, width - n);
    }
    out.append(s);
    assert(out@ =~= old(out)@ + right(s@, width as int));
}

} // verus!
