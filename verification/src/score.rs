//! Ranking of variants and models.

use vstd::arithmetic::power2::{lemma2_to64, lemma2_to64_rest, lemma_pow2_adds, lemma_pow2_pos, pow2};
use vstd::prelude::*;

use crate::catalog::{bpw_of, lemma_plain_names, plain_bpw};
use crate::double::{
    above, at_least, difference, lemma_less, less, nearest, product, quotient, sum, Double,
};
use crate::estimate::{
    bits_number, bits_of, estimate_memory, memory_of, more_bits_take_no_less, rung, weights_of,
    Figures, FitVerdict, MemoryBudget, MemoryEstimate, ModelVariant, BIT, DEFAULT_CONTEXT,
};
use crate::text::{chars_of, same};
use crate::precision::{
    above_line, below_line, difference_is_close, error_may_grow, is_about, nearest_is_close,
    number_is_itself, order_is_that_of_the_numbers, product_is_close, quotient_is_close,
    same_ratio_is_close, sum_is_close,
};
use crate::rounding::{
    at_most, difference_is_bounded, difference_is_no_more, difference_reverses_order, is_number, most, nearest_keeps_order,
    number_is_exact, order_is_transitive, product_is_bounded, product_keeps_order,
    quotient_is_bounded, quotient_keeps_order, rounded_is_number, rounding_keeps_order, scaled, scaled_keeps_order,
    small_ratio_rounds, sum_is_bounded, sum_keeps_order, whole_is_exact,
};

verus! {

/// What a model is wanted for.
#[derive(Debug, Clone, Copy, PartialEq, Eq, Structural)]
pub enum UseCase {
    General,
    Coding,
    Chat,
    Reasoning,
}

impl Default for UseCase {
    fn default() -> (r: UseCase)
        ensures
            r == UseCase::General,
    {
        UseCase::General
    }
}

/// Weights of the sub-scores, in hundredths.
#[derive(Debug, Clone, Copy, PartialEq, Eq, Structural)]
pub struct Weights {
    pub fit: u32,
    pub speed: u32,
    pub quality: u32,
    pub context: u32,
}

pub open spec fn weights_for(uc: UseCase) -> Weights {
    match uc {
        UseCase::Coding => Weights { fit: 15, speed: 35, quality: 35, context: 15 },
        UseCase::Chat => Weights { fit: 20, speed: 40, quality: 30, context: 10 },
        UseCase::Reasoning => Weights { fit: 15, speed: 20, quality: 50, context: 15 },
        UseCase::General => Weights { fit: 25, speed: 25, quality: 25, context: 25 },
    }
}

/// The weights of a use case. They sum to one hundred.
pub fn weights(uc: UseCase) -> (r: Weights)
    ensures
        r == weights_for(uc),
        r.fit + r.speed + r.quality + r.context == 100,
{
    match uc {
        UseCase::Coding => Weights { fit: 15, speed: 35, quality: 35, context: 15 },
        UseCase::Chat => Weights { fit: 20, speed: 40, quality: 30, context: 10 },
        UseCase::Reasoning => Weights { fit: 15, speed: 20, quality: 50, context: 15 },
        UseCase::General => Weights { fit: 25, speed: 25, quality: 25, context: 25 },
    }
}

/// What each use case is weighed for. Nothing in particular: all alike. Coding:
/// speed and quality, alike and above the rest. Chat: speed above all. Reasoning:
/// quality above all, and half of the whole.
pub proof fn use_cases_weigh_what_they_are_for()
    ensures
        ({
            let g = weights_for(UseCase::General);
            g.fit == g.speed && g.speed == g.quality && g.quality == g.context
        }),
        ({
            let c = weights_for(UseCase::Coding);
            c.speed == c.quality && c.quality > c.fit && c.fit == c.context
        }),
        ({
            let c = weights_for(UseCase::Chat);
            c.speed > c.quality && c.quality > c.fit && c.fit > c.context
        }),
        ({
            let r = weights_for(UseCase::Reasoning);
            r.quality == r.fit + r.speed + r.context && r.speed > r.fit && r.fit == r.context
        }),
        weights_for(UseCase::Chat).speed > weights_for(UseCase::Coding).speed,
        weights_for(UseCase::Coding).speed > weights_for(UseCase::General).speed,
        weights_for(UseCase::General).speed > weights_for(UseCase::Reasoning).speed,
        weights_for(UseCase::Reasoning).quality > weights_for(UseCase::Coding).quality,
        weights_for(UseCase::Coding).quality > weights_for(UseCase::Chat).quality,
        weights_for(UseCase::Chat).quality > weights_for(UseCase::General).quality,
{
}

/// The weights of every use case share out a hundred.
pub proof fn weights_share_a_hundred(uc: UseCase)
    ensures
        weights_for(uc).fit + weights_for(uc).speed + weights_for(uc).quality + weights_for(
            uc,
        ).context == 100,
        weights_for(uc).fit > 0,
        weights_for(uc).speed > 0,
        weights_for(uc).quality > 0,
        weights_for(uc).context > 0,
{
}

/// A score and its parts, each from 0 to 100.
#[derive(Debug, Clone, Copy)]
pub struct Score {
    pub total: Double,
    pub fit: Double,
    pub speed: Double,
    pub quality: Double,
    pub context: Double,
}

// ---------------------------------------------------------------------------
// Sub-scores
// ---------------------------------------------------------------------------

/// 85 and up to 15 for headroom on the GPU; less for what does not fit it.
pub open spec fn fit_score(m: MemoryEstimate) -> (nat, int) {
    match m.verdict {
        FitVerdict::FitsGpu => {
            let margin = if m.gpu_limit_bytes > 0 {
                difference(
                    nearest(1, 1),
                    quotient(
                        nearest(m.total_bytes as nat, 1),
                        nearest(m.gpu_limit_bytes as nat, 1),
                    ),
                )
            } else {
                (0, 0)
            };
            sum(nearest(85, 1), product(nearest(15, 1), margin))
        },
        FitVerdict::FitsWithSysctlTuning => nearest(45, 1),
        FitVerdict::FitsRamOnly => nearest(25, 1),
        FitVerdict::DoesNotFit => (0, 0),
    }
}

/// How well a variant fits, from 0 to 100.
pub fn fit_subscore(m: &MemoryEstimate) -> (r: Double)
    ensures
        r@ == fit_score(*m),
{
    match m.verdict {
        FitVerdict::FitsGpu => {
            let margin = if m.gpu_limit_bytes > 0 {
                let used = Double::of_ratio(m.total_bytes, 1).over(
                    Double::of_ratio(m.gpu_limit_bytes, 1),
                );
                Double::of_ratio(1, 1).minus(used)
            } else {
                Double { mantissa: 0, exponent: 0 }
            };
            Double::of_ratio(85, 1).plus(Double::of_ratio(15, 1).times(margin))
        },
        FitVerdict::FitsWithSysctlTuning => Double::of_ratio(45, 1),
        FitVerdict::FitsRamOnly => Double::of_ratio(25, 1),
        FitVerdict::DoesNotFit => Double { mantissa: 0, exponent: 0 },
    }
}

/// The point at `x` on the line from (x0, y0) that rises `dy` over `dx`.
pub open spec fn on_line(x: (nat, int), x0: nat, y0: nat, dx: nat, dy: nat) -> (nat, int) {
    sum(
        nearest(y0, 1),
        quotient(product(nearest(dy, 1), difference(x, nearest(x0, 1))), nearest(dx, 1)),
    )
}

/// Straight lines through (0, 0), (5, 25), (15, 55), (30, 85) and (60, 100);
/// 100 from there on.
pub open spec fn speed_score(tps: (nat, int)) -> (nat, int) {
    if at_least(tps, 60) {
        nearest(100, 1)
    } else if !crate::double::above(tps, 5) {
        on_line(tps, 0, 0, 5, 25)
    } else if !crate::double::above(tps, 15) {
        on_line(tps, 5, 25, 10, 30)
    } else if !crate::double::above(tps, 30) {
        on_line(tps, 15, 55, 15, 30)
    } else {
        on_line(tps, 30, 85, 30, 15)
    }
}

/// Between its ends a line stays between their heights, and does not fall.
proof fn lemma_line(t: (nat, int), u: (nat, int), x0: nat, y0: nat, dx: nat, dy: nat)
    requires
        is_number(t),
        is_number(u),
        0 < dx,
        x0 + dx < 1024,
        y0 + dy < 1024,
        dy < 1024,
        at_most(nearest(x0, 1), t),
        at_most(t, u),
        at_most(u, nearest(x0 + dx, 1)),
    ensures
        is_number(on_line(t, x0, y0, dx, dy)),
        is_number(on_line(u, x0, y0, dx, dy)),
        at_most(nearest(y0, 1), on_line(t, x0, y0, dx, dy)),
        at_most(on_line(t, x0, y0, dx, dy), on_line(u, x0, y0, dx, dy)),
        at_most(on_line(u, x0, y0, dx, dy), nearest(y0 + dy, 1)),
{
    let w = nearest(x0, 1);
    nearest_keeps_order(x0, x0 + dx, 1);
    let (d, e) = (difference(t, w), difference(u, w));
    if x0 > 0 {
        difference_is_bounded(t, u, x0, dx);
    }
    nearest_keeps_order(dx, dx, 1);
    order_is_transitive(d, e, nearest(dx, 1));
    product_is_bounded(d, dy, dx);
    product_is_bounded(e, dy, dx);
    let r = nearest(dy, 1);
    let (p, q) = (product(r, d), product(r, e));
    nearest_keeps_order(dy, dy, 1);
    product_keeps_order(d, e, r);
    assert(d.0 * r.0 == r.0 * d.0) by (nonlinear_arith);
    assert(e.0 * r.0 == r.0 * e.0) by (nonlinear_arith);
    assert(dx * dy == dy * dx) by (nonlinear_arith);
    assert(dx * dy < 0x20_0000_0000_0000) by (nonlinear_arith)
        requires
            dx < 1024,
            dy < 1024,
    ;
    quotient_is_bounded(p, dx, dy);
    quotient_is_bounded(q, dx, dy);
    quotient_keeps_order(p, q, nearest(dx, 1));
    let (a, b) = (quotient(p, nearest(dx, 1)), quotient(q, nearest(dx, 1)));
    sum_is_bounded(a, y0, dy);
    sum_is_bounded(b, y0, dy);
    nearest_keeps_order(y0, y0, 1);
    sum_keeps_order(nearest(y0, 1), a, b);
}

/// The piece of the speed score that a speed is on: where it begins, its
/// height there, its width and its rise.
spec fn piece(i: int) -> (nat, nat, nat, nat) {
    if i == 0 {
        (0, 0, 5, 25)
    } else if i == 1 {
        (5, 25, 10, 30)
    } else if i == 2 {
        (15, 55, 15, 30)
    } else {
        (30, 85, 30, 15)
    }
}

spec fn piece_of(tps: (nat, int)) -> int {
    if !above(tps, 5) {
        0
    } else if !above(tps, 15) {
        1
    } else if !above(tps, 30) {
        2
    } else {
        3
    }
}

/// The order of a number and a whole number.
proof fn lemma_whole_order(x: (nat, int), n: nat)
    requires
        is_number(x),
        n < 1024,
    ensures
        !above(x, n) ==> at_most(x, nearest(n, 1)),
        above(x, n) ==> at_most(nearest(n, 1), x),
        !at_least(x, n) ==> at_most(x, nearest(n, 1)),
{
    let k: nat = if x.1 >= 0 {
        0
    } else {
        (-x.1) as nat
    };
    lemma2_to64();
    lemma_pow2_pos(k);
    let p = pow2((x.1 + k) as nat);
    let q = pow2(k);
    assert(x.0 * pow2(0) == x.0) by (nonlinear_arith)
        requires
            pow2(0) == 1,
    ;
    assert(n * pow2(0) == n) by (nonlinear_arith)
        requires
            pow2(0) == 1,
    ;
    // Either way, x * 2^k is compared with n * 2^k.
    if x.0 * p <= n * q {
        assert(x.0 * 1 * p <= n * 1 * q) by (nonlinear_arith)
            requires
                x.0 * p <= n * q,
        ;
        rounding_keeps_order(x.0, 1, x.1, n, 1, 0, k);
        number_is_exact(x);
    }
    if n * q <= x.0 * p {
        assert(n * 1 * q <= x.0 * 1 * p) by (nonlinear_arith)
            requires
                n * q <= x.0 * p,
        ;
        rounding_keeps_order(n, 1, 0, x.0, 1, x.1, k);
        number_is_exact(x);
    }
}

proof fn lemma_on_piece(t: (nat, int))
    requires
        is_number(t),
        !at_least(t, 60),
    ensures
        ({
            let (x0, y0, dx, dy) = piece(piece_of(t));
            &&& at_most(nearest(x0, 1), t)
            &&& at_most(t, nearest(x0 + dx, 1))
            &&& speed_score(t) == on_line(t, x0, y0, dx, dy)
            &&& is_number(speed_score(t))
            &&& at_most(nearest(y0, 1), speed_score(t))
            &&& at_most(speed_score(t), nearest(y0 + dy, 1))
        }),
{
    lemma_whole_order(t, 5);
    lemma_whole_order(t, 15);
    lemma_whole_order(t, 30);
    lemma_whole_order(t, 60);
    assert(nearest(0, 1) == (0nat, 0int));
    lemma_less(t, (0, 0));
    lemma_less(t, t);
    let (x0, y0, dx, dy) = piece(piece_of(t));
    lemma_line(t, t, x0, y0, dx, dy);
}

/// A speed scores 100 at most, and a faster one never scores less.
pub proof fn faster_scores_no_less(t: (nat, int), u: (nat, int))
    requires
        is_number(t),
        is_number(u),
        at_most(t, u),
    ensures
        at_most(speed_score(t), speed_score(u)),
        at_most(speed_score(u), nearest(100, 1)),
{
    nearest_keeps_order(100, 100, 1);
    if !at_least(t, 60) {
        lemma_on_piece(t);
        let (x0, y0, dx, dy) = piece(piece_of(t));
        nearest_keeps_order(y0 + dy, 100, 1);
        order_is_transitive(speed_score(t), nearest(y0 + dy, 1), nearest(100, 1));
    }
    if !at_least(u, 60) {
        lemma_on_piece(u);
        let (v0, w0, dv, dw) = piece(piece_of(u));
        nearest_keeps_order(w0 + dw, 100, 1);
        order_is_transitive(speed_score(u), nearest(w0 + dw, 1), nearest(100, 1));
        lemma_thresholds(t, u, 60);
        lemma_thresholds(t, u, 5);
        lemma_thresholds(t, u, 15);
        lemma_thresholds(t, u, 30);
        let (x0, y0, dx, dy) = piece(piece_of(t));
        if piece_of(t) == piece_of(u) {
            lemma_line(t, u, x0, y0, dx, dy);
        } else {
            nearest_keeps_order(y0 + dy, w0, 1);
            order_is_transitive(speed_score(t), nearest(y0 + dy, 1), nearest(w0, 1));
            order_is_transitive(speed_score(t), nearest(w0, 1), speed_score(u));
        }
    }
}

/// What is above a threshold stays so when it grows.
pub proof fn lemma_thresholds(t: (nat, int), u: (nat, int), n: nat)
    requires
        is_number(t),
        is_number(u),
        at_most(t, u),
    ensures
        above(t, n) ==> above(u, n),
        at_least(t, n) ==> at_least(u, n),
{
    let k = most(most(-t.1, -u.1), 0);
    scaled_keeps_order(t, u, k);
    lemma_threshold(t, n, k);
    lemma_threshold(u, n, k);
}

/// A threshold, on a common scale.
proof fn lemma_threshold(x: (nat, int), n: nat, k: int)
    requires
        x.1 + k >= 0,
        k >= 0,
    ensures
        above(x, n) <==> scaled(x, k) > n * pow2(k as nat),
        at_least(x, n) <==> scaled(x, k) >= n * pow2(k as nat),
{
    if x.1 >= 0 {
        let p = pow2(k as nat);
        lemma_pow2_pos(k as nat);
        lemma_pow2_adds(x.1 as nat, k as nat);
        let v = x.0 * pow2(x.1 as nat);
        assert(x.0 * (pow2(x.1 as nat) * p) == v * p) by (nonlinear_arith)
            requires
                v == x.0 * pow2(x.1 as nat),
        ;
        assert(v > n <==> v * p > n * p) by (nonlinear_arith)
            requires
                p > 0,
        ;
        assert(v >= n <==> v * p >= n * p) by (nonlinear_arith)
            requires
                p > 0,
        ;
    } else {
        let j = (-x.1) as nat;
        let p = pow2((x.1 + k) as nat);
        lemma_pow2_pos((x.1 + k) as nat);
        lemma_pow2_adds(j, (x.1 + k) as nat);
        let m = n * pow2(j);
        assert(n * (pow2(j) * p) == m * p) by (nonlinear_arith)
            requires
                m == n * pow2(j),
        ;
        assert(x.0 > m <==> x.0 * p > m * p) by (nonlinear_arith)
            requires
                p > 0,
        ;
        assert(x.0 >= m <==> x.0 * p >= m * p) by (nonlinear_arith)
            requires
                p > 0,
        ;
    }
}

/// What fits the GPU scores 85 at least, and more than all that does not; what
/// needs the limit tuned 45, what needs the processor 25; and what does not fit
/// scores nothing.
pub proof fn better_fits_score_more(m: MemoryEstimate)
    ensures
        m.verdict == FitVerdict::FitsGpu ==> at_most(nearest(85, 1), fit_score(m)),
        m.verdict == FitVerdict::FitsWithSysctlTuning ==> less(fit_score(m), nearest(85, 1))
            && less(nearest(25, 1), fit_score(m)),
        m.verdict == FitVerdict::FitsRamOnly ==> less(fit_score(m), nearest(45, 1)) && less(
            (0, 0),
            fit_score(m),
        ),
        m.verdict == FitVerdict::FitsWithSysctlTuning ==> fit_score(m) == nearest(45, 1),
        m.verdict == FitVerdict::FitsRamOnly ==> fit_score(m) == nearest(25, 1),
        m.verdict == FitVerdict::DoesNotFit ==> fit_score(m) == (0nat, 0int),
{
    lemma_whole_numbers_differ(45, 85);
    lemma_whole_numbers_differ(25, 45);
    nearest_keeps_order(25, 25, 1);
    lemma_less((0, 0), nearest(25, 1));
    if m.verdict == FitVerdict::FitsGpu {
        nearest_keeps_order(85, 85, 1);
        nearest_keeps_order(15, 15, 1);
        nearest_keeps_order(1, 1, 1);
        let margin = lemma_margin(m);
        let p = product(nearest(15, 1), margin);
        product_is_bounded(margin, 15, 1);
        sum_is_bounded(p, 85, 15);
    }
}

/// Of two estimates against one limit, both within it, the one that takes less
/// memory never scores less.
pub proof fn more_headroom_scores_no_less(m: MemoryEstimate, n: MemoryEstimate)
    requires
        m.verdict == FitVerdict::FitsGpu,
        n.verdict == FitVerdict::FitsGpu,
        m.gpu_limit_bytes == n.gpu_limit_bytes,
        m.total_bytes <= n.total_bytes,
    ensures
        at_most(fit_score(n), fit_score(m)),
{
    let (a, b) = (lemma_margin(m), lemma_margin(n));
    nearest_keeps_order(85, 85, 1);
    nearest_keeps_order(15, 15, 1);
    nearest_keeps_order(1, 1, 1);
    lemma_less(a, a);
    if m.gpu_limit_bytes > 0 {
        let limit = nearest(m.gpu_limit_bytes as nat, 1);
        let (x, y) = (nearest(m.total_bytes as nat, 1), nearest(n.total_bytes as nat, 1));
        nearest_keeps_order(m.total_bytes as nat, n.total_bytes as nat, 1);
        nearest_keeps_order(m.gpu_limit_bytes as nat, m.gpu_limit_bytes as nat, 1);
        lemma_less(y, y);
        quotient_keeps_order(x, y, limit);
        quotient_keeps_order(y, y, limit);
        difference_reverses_order(nearest(1, 1), quotient(x, limit), quotient(y, limit));
    }
    let r = nearest(15, 1);
    product_keeps_order(b, a, r);
    assert(a.0 * r.0 == r.0 * a.0) by (nonlinear_arith);
    assert(b.0 * r.0 == r.0 * b.0) by (nonlinear_arith);
    product_is_bounded(a, 15, 1);
    product_is_bounded(b, 15, 1);
    sum_keeps_order(nearest(85, 1), product(r, b), product(r, a));
}

/// The share of the GPU's memory that is left over.
proof fn lemma_margin(m: MemoryEstimate) -> (margin: (nat, int))
    ensures
        is_number(margin),
        at_most(margin, nearest(1, 1)),
        margin == if m.gpu_limit_bytes > 0 {
            difference(
                nearest(1, 1),
                quotient(
                    nearest(m.total_bytes as nat, 1),
                    nearest(m.gpu_limit_bytes as nat, 1),
                ),
            )
        } else {
            (0, 0)
        },
{
    nearest_keeps_order(1, 1, 1);
    if m.gpu_limit_bytes > 0 {
        let used = quotient(
            nearest(m.total_bytes as nat, 1),
            nearest(m.gpu_limit_bytes as nat, 1),
        );
        nearest_keeps_order(m.total_bytes as nat, m.total_bytes as nat, 1);
        nearest_keeps_order(m.gpu_limit_bytes as nat, m.gpu_limit_bytes as nat, 1);
        let x = nearest(m.total_bytes as nat, 1);
        lemma_less(x, x);
        quotient_keeps_order(x, x, nearest(m.gpu_limit_bytes as nat, 1));
        difference_is_no_more(nearest(1, 1), used);
        difference(nearest(1, 1), used)
    } else {
        lemma_less(nearest(1, 1), (0, 0));
        (0, 0)
    }
}

proof fn lemma_whole_numbers_differ(a: nat, b: nat)
    requires
        a < b < 1024,
    ensures
        less(nearest(a, 1), nearest(b, 1)),
{
    nearest_keeps_order(a, b, 1);
    let k = most(-nearest(a, 1).1, -nearest(b, 1).1);
    whole_is_exact(b, k);
    if a > 0 {
        whole_is_exact(a, k);
    }
    lemma_pow2_pos(k as nat);
    let p = pow2(k as nat);
    assert(a * p < b * p) by (nonlinear_arith)
        requires
            a < b,
            p > 0,
    ;
    if !less(nearest(a, 1), nearest(b, 1)) {
        lemma_less(nearest(a, 1), nearest(b, 1));
        lemma_less(nearest(b, 1), nearest(a, 1));
        assert(nearest(a, 1) == nearest(b, 1));
    }
}

/// How a speed scores at the marks: above 5, 15 and 30 tokens per second it is
/// 25, 55 and 85 at least, up to them no more, and from 60 on it is 100.
pub proof fn speed_scores_reach_their_marks(t: (nat, int))
    requires
        is_number(t),
    ensures
        above(t, 5) ==> at_most(nearest(25, 1), speed_score(t)),
        !above(t, 5) ==> at_most(speed_score(t), nearest(25, 1)),
        above(t, 15) ==> at_most(nearest(55, 1), speed_score(t)),
        !above(t, 15) ==> at_most(speed_score(t), nearest(55, 1)),
        above(t, 30) ==> at_most(nearest(85, 1), speed_score(t)),
        !above(t, 30) ==> at_most(speed_score(t), nearest(85, 1)),
        at_least(t, 60) ==> speed_score(t) == nearest(100, 1),
{
    lemma_mark(t, 5, 25);
    lemma_mark(t, 15, 55);
    lemma_mark(t, 30, 85);
}

proof fn lemma_mark(t: (nat, int), x: nat, y: nat)
    requires
        is_number(t),
        (x == 5 && y == 25) || (x == 15 && y == 55) || (x == 30 && y == 85),
    ensures
        above(t, x) ==> at_most(nearest(y, 1), speed_score(t)),
        !above(t, x) ==> at_most(speed_score(t), nearest(y, 1)),
{
    nearest_keeps_order(y, 100, 1);
    let k = most(-t.1, 0);
    lemma_threshold(t, 5, k);
    lemma_threshold(t, 15, k);
    lemma_threshold(t, 30, k);
    lemma_threshold(t, 60, k);
    let p = pow2(k as nat);
    lemma_pow2_pos(k as nat);
    assert(5 * p < 15 * p && 15 * p < 30 * p && 30 * p < 60 * p);
    if !at_least(t, 60) {
        lemma_on_piece(t);
        let (x0, y0, dx, dy) = piece(piece_of(t));
        let s = speed_score(t);
        nearest_keeps_order(y0, y0, 1);
        if above(t, x) {
            nearest_keeps_order(y, y0, 1);
            order_is_transitive(nearest(y, 1), nearest(y0, 1), s);
        } else {
            nearest_keeps_order(y0 + dy, y, 1);
            order_is_transitive(s, nearest(y0 + dy, 1), nearest(y, 1));
        }
    }
}

/// A whole number is exactly that.
proof fn lemma_whole_is_itself(n: nat)
    requires
        0 < n < 1024,
    ensures
        is_number(nearest(n, 1)),
        above_line(nearest(n, 1)) == n * below_line(nearest(n, 1)),
        nearest(n, 1).0 > 0,
{
    let w = nearest(n, 1);
    whole_is_exact(n, -w.1);
    lemma2_to64();
    assert(w.0 * pow2(0) == w.0) by (nonlinear_arith)
        requires
            pow2(0) == 1,
    ;
    assert(scaled(w, -w.1) == w.0);
}

/// A line that begins at a mark below a number.
proof fn lemma_line_is_close(t: (nat, int), x0: nat, y0: nat, dx: nat, dy: nat)
    requires
        is_number(t),
        !at_least(t, 60),
        above(t, x0),
        x0 == 5 || x0 == 15 || x0 == 30,
        0 < y0 < 1024,
        0 < dx < 1024,
        0 < dy < 1024,
    ensures
        above_line(t) > x0 * below_line(t),
        is_about(
            on_line(t, x0, y0, dx, dy),
            (y0 * (below_line(t) * dx) + dy * (above_line(t) - x0 * below_line(t))) as nat,
            below_line(t) * dx,
            12,
        ),
{
    let w = nearest(x0, 1);
    let (a, b) = (above_line(t), below_line(t));
    let (wu, wd) = (above_line(w), below_line(w));
    lemma_whole_is_itself(x0);
    number_is_itself(t);
    number_is_itself(w);
    lemma2_to64();
    if t.1 >= 0 {
        assert(b == 1);
        assert(x0 * b == x0) by (nonlinear_arith)
            requires
                b == 1,
        ;
    } else {
        assert(a == t.0 * 1);
    }
    assert(a > x0 * b);
    order_is_that_of_the_numbers(t, w);
    assert(a * wd > wu * b) by (nonlinear_arith)
        requires
            a > x0 * b,
            wu == x0 * wd,
            wd > 0,
    ;
    assert(less(w, t));
    lemma_less(w, t);
    lemma2_to64_rest();
    small_ratio_rounds(60, 1, 0, 47);
    small_ratio_rounds(5, 1, 0, 50);
    small_ratio_rounds(15, 1, 0, 49);
    small_ratio_rounds(30, 1, 0, 48);
    lemma_whole_order(t, 60);
    lemma_less(nearest(60, 1), t);
    assert(t.1 <= -47 && w.1 >= -50);
    if t.1 == w.1 {
        assert(pow2(0) == 1);
    }
    assert(w.0 < t.0 * pow2((t.1 - w.1) as nat)) by {
        if t.1 == w.1 {
            assert(w.0 * pow2(0) == w.0 && t.0 * pow2(0) == t.0) by (nonlinear_arith)
                requires
                    pow2(0) == 1,
            ;
        }
    }
    difference_is_close(t, w);
    let d = difference(t, w);
    let m = (a - x0 * b) as nat;
    let e = (a * wd - wu * b) as nat;
    assert(e * b == m * (b * wd)) by (nonlinear_arith)
        requires
            e == a * wd - wu * b,
            m == a - x0 * b,
            wu == x0 * wd,
    ;
    assert(b * wd > 0) by (nonlinear_arith)
        requires
            b > 0,
            wd > 0,
    ;
    same_ratio_is_close(d, e, b * wd, m, b, 1);
    nearest_is_close(dy, 1);
    nearest_is_close(dx, 1);
    nearest_is_close(y0, 1);
    let p = product(nearest(dy, 1), d);
    product_is_close(nearest(dy, 1), d, dy, 1, m, b, 1, 1);
    let z = quotient(p, nearest(dx, 1));
    quotient_is_close(p, nearest(dx, 1), dy * m, 1 * b, dx, 1, 5, 1);
    rounded_is_number(dx, 1, 0);
    rounded_is_number(p.0, nearest(dx, 1).0, p.1 - nearest(dx, 1).1);
    rounded_is_number(y0, 1, 0);
    error_may_grow(nearest(y0, 1), y0, 1, 1, 10);
    sum_is_close(nearest(y0, 1), z, y0, 1, dy * m * 1, 1 * b * dx, 10);
    let f = b * dx;
    assert(1 * b * dx == f && 1 * f == f);
    assert(y0 * f + dy * m * 1 == y0 * f + dy * (a - x0 * b)) by (nonlinear_arith)
        requires
            m == a - x0 * b,
    ;
}

/// Between the marks the score of a speed rises in a straight line: with the
/// speed as `a / b` it is five times the speed up to 5, then 25 and three for
/// each token more up to 15, then 55 and two for each more up to 30, then 85 and
/// a half for each more, but for twelve parts in 2^53.
pub proof fn speed_scores_rise_in_lines(t: (nat, int))
    requires
        is_number(t),
        t.0 > 0,
        !at_least(t, 60),
    ensures
        ({
            let (a, b) = (above_line(t), below_line(t));
            let s = speed_score(t);
            &&& !above(t, 5) ==> is_about(s, 25 * a, b * 5, 12)
            &&& above(t, 5) && !above(t, 15) ==> is_about(
                s,
                (25 * (b * 10) + 30 * (a - 5 * b)) as nat,
                b * 10,
                12,
            )
            &&& above(t, 15) && !above(t, 30) ==> is_about(
                s,
                (55 * (b * 15) + 30 * (a - 15 * b)) as nat,
                b * 15,
                12,
            )
            &&& above(t, 30) ==> is_about(
                s,
                (85 * (b * 30) + 15 * (a - 30 * b)) as nat,
                b * 30,
                12,
            )
        }),
{
    let (a, b) = (above_line(t), below_line(t));
    let k = most(-t.1, 0);
    lemma_threshold(t, 5, k);
    lemma_threshold(t, 15, k);
    lemma_threshold(t, 30, k);
    let q = pow2(k as nat);
    lemma_pow2_pos(k as nat);
    assert(5 * q < 15 * q && 15 * q < 30 * q);
    if !above(t, 5) {
        number_is_itself(t);
        assert(nearest(0, 1) == (0nat, 0int));
        nearest_is_close(25, 1);
        nearest_is_close(5, 1);
        let p = product(nearest(25, 1), t);
        product_is_close(nearest(25, 1), t, 25, 1, a, b, 1, 0);
        let z = quotient(p, nearest(5, 1));
        quotient_is_close(p, nearest(5, 1), 25 * a, 1 * b, 5, 1, 4, 1);
        error_may_grow(z, 25 * a * 1, 1 * b * 5, 9, 12);
        assert(speed_score(t) == z);
    } else if !above(t, 15) {
        lemma_line_is_close(t, 5, 25, 10, 30);
    } else if !above(t, 30) {
        lemma_line_is_close(t, 15, 55, 15, 30);
    } else {
        lemma_line_is_close(t, 30, 85, 30, 15);
    }
}

/// How well a variant fits scores 100 at most.
pub proof fn fit_scores_100_at_most(m: MemoryEstimate)
    ensures
        at_most(fit_score(m), nearest(100, 1)),
{
    nearest_keeps_order(100, 100, 1);
    nearest_keeps_order(45, 100, 1);
    nearest_keeps_order(25, 100, 1);
    nearest_keeps_order(1, 1, 1);
    lemma_less(nearest(100, 1), (0, 0));
    let margin = if m.gpu_limit_bytes > 0 {
        let used = quotient(
            nearest(m.total_bytes as nat, 1),
            nearest(m.gpu_limit_bytes as nat, 1),
        );
        nearest_keeps_order(m.total_bytes as nat, m.total_bytes as nat, 1);
        nearest_keeps_order(m.gpu_limit_bytes as nat, m.gpu_limit_bytes as nat, 1);
        let x = nearest(m.total_bytes as nat, 1);
        lemma_less(x, x);
        quotient_keeps_order(x, x, nearest(m.gpu_limit_bytes as nat, 1));
        difference_is_no_more(nearest(1, 1), used);
        difference(nearest(1, 1), used)
    } else {
        lemma_less(nearest(1, 1), (0, 0));
        (0, 0)
    };
    product_is_bounded(margin, 15, 1);
    sum_is_bounded(product(nearest(15, 1), margin), 85, 15);
}

fn line_at(x: Double, x0: u64, y0: u64, dx: u64, dy: u64) -> (r: Double)
    requires
        x.wf(),
        -4_000 <= x.exponent <= 4_000,
        dx > 0,
    ensures
        r@ == on_line(x@, x0 as nat, y0 as nat, dx as nat, dy as nat),
{
    let rise = Double::of_ratio(dy, 1).times(x.minus(Double::of_ratio(x0, 1)));
    Double::of_ratio(y0, 1).plus(rise.over(Double::of_ratio(dx, 1)))
}

/// How good a speed is, from 0 to 100.
pub fn speed_subscore(tps: Double) -> (r: Double)
    requires
        tps.wf(),
        -4_000 <= tps.exponent <= 4_000,
    ensures
        r@ == speed_score(tps@),
{
    if tps.is_at_least(60) {
        Double::of_ratio(100, 1)
    } else if !tps.is_above(5) {
        line_at(tps, 0, 0, 5, 25)
    } else if !tps.is_above(15) {
        line_at(tps, 5, 25, 10, 30)
    } else if !tps.is_above(30) {
        line_at(tps, 15, 55, 15, 30)
    } else {
        line_at(tps, 30, 85, 30, 15)
    }
}

/// Quality lost to a low quantization, by its bits per weight.
pub open spec fn quality_loss(bpw: u64) -> u32 {
    if less(bits_of(bpw), nearest(36, 10)) {
        25
    } else if less(bits_of(bpw), nearest(425, 100)) {
        12
    } else {
        0
    }
}

/// More bits per weight never lose more quality.
pub proof fn more_bits_lose_no_more(a: u64, b: u64)
    requires
        a <= b,
    ensures
        quality_loss(b) <= quality_loss(a),
{
    let (x, y) = (bits_of(a), bits_of(b));
    nearest_keeps_order(a as nat, b as nat, BIT as nat);
    nearest_keeps_order(36, 36, 10);
    nearest_keeps_order(425, 425, 100);
    if !less(x, nearest(36, 10)) {
        order_is_transitive(nearest(36, 10), x, y);
    }
    if !less(x, nearest(425, 100)) {
        order_is_transitive(nearest(425, 100), x, y);
    }
}

/// From 4.25 bits per weight on nothing is lost, from 3.6 on twelve points at
/// most, and below 3.59 twenty-five, below 4.24 twelve at least.
pub proof fn quality_is_lost_below_the_marks(bpw: u64)
    ensures
        100 * bpw >= 425 * BIT ==> quality_loss(bpw) == 0,
        10 * bpw >= 36 * BIT ==> quality_loss(bpw) <= 12,
        100 * bpw <= 424 * BIT ==> quality_loss(bpw) >= 12,
        100 * bpw <= 359 * BIT ==> quality_loss(bpw) == 25,
{
    lemma2_to64();
    let b = BIT as nat;
    let n = bpw as nat;
    if 100 * bpw >= 425 * BIT {
        assert(425 * b * 1 <= n * 100 * 1);
        rounding_keeps_order(425, 100, 0, n, b, 0, 0);
    }
    if 10 * bpw >= 36 * BIT {
        assert(36 * b * 1 <= n * 10 * 1);
        rounding_keeps_order(36, 10, 0, n, b, 0, 0);
    }
    lemma2_to64_rest();
    nearest_keeps_order(n, n, b);
    nearest_keeps_order(424, 424, 100);
    nearest_keeps_order(425, 425, 100);
    nearest_keeps_order(359, 359, 100);
    nearest_keeps_order(36, 36, 10);
    if 100 * bpw <= 424 * BIT {
        assert(n * 100 * 1 <= 424 * b * 1);
        rounding_keeps_order(n, b, 0, 424, 100, 0, 0);
        small_ratio_rounds(424, 100, 0, 50);
        small_ratio_rounds(425, 100, 0, 50);
        lemma_less(nearest(424, 100), nearest(425, 100));
        if !less(bits_of(bpw), nearest(425, 100)) {
            order_is_transitive(nearest(425, 100), bits_of(bpw), nearest(424, 100));
        }
    }
    if 100 * bpw <= 359 * BIT {
        assert(n * 100 * 1 <= 359 * b * 1);
        rounding_keeps_order(n, b, 0, 359, 100, 0, 0);
        small_ratio_rounds(359, 100, 0, 51);
        small_ratio_rounds(36, 10, 0, 51);
        lemma_less(nearest(359, 100), nearest(36, 10));
        if !less(bits_of(bpw), nearest(36, 10)) {
            order_is_transitive(nearest(36, 10), bits_of(bpw), nearest(359, 100));
        }
    }
}

/// Quality lost to a low quantization, by its bits per weight: below 3.6 and
/// below 4.25.
pub fn quality_malus(bpw: u64) -> (r: u32)
    ensures
        r == quality_loss(bpw),
        r == if less(bits_of(bpw), nearest(36, 10)) {
            25u32
        } else if less(bits_of(bpw), nearest(425, 100)) {
            12
        } else {
            0
        },
{
    let bits = bits_number(bpw);
    if bits.is_less(Double::of_ratio(36, 10)) {
        25
    } else if bits.is_less(Double::of_ratio(425, 100)) {
        12
    } else {
        0
    }
}

/// Quality lost to age: none up to six months, then ten points a year, twenty
/// at most.
pub open spec fn age_loss(age_secs: int) -> (nat, int) {
    if age_secs <= 15_768_000 {
        nearest(0, 1)
    } else if age_secs >= 78_840_000 {
        nearest(20, 1)
    } else {
        nearest((10 * (age_secs - 15_768_000)) as nat, 31_536_000)
    }
}

/// Up to half a year nothing is lost. From then on every year costs ten
/// points, but for one part in 2^53, until twenty are lost after two and a half
/// years.
pub proof fn a_year_costs_ten_points(age_secs: int)
    ensures
        ({
            let year = 365 * 24 * 60 * 60int;
            &&& 2 * age_secs <= year ==> age_loss(age_secs) == (0nat, 0int)
            &&& 2 * age_secs >= 5 * year ==> age_loss(age_secs) == nearest(20, 1)
            &&& year < 2 * age_secs < 5 * year ==> is_about(
                age_loss(age_secs),
                (5 * (2 * age_secs - year)) as nat,
                year as nat,
                1,
            )
        }),
{
    if 15_768_000 < age_secs < 78_840_000 {
        nearest_is_close((10 * (age_secs - 15_768_000)) as nat, 31_536_000);
    }
}

/// An older model never loses less.
pub proof fn older_loses_no_less(age: int, older: int)
    requires
        age <= older,
    ensures
        at_most(age_loss(age), age_loss(older)),
{
    let year = 31_536_000nat;
    let points = |secs: int| -> nat {
        if secs <= 15_768_000 {
            0
        } else if secs >= 78_840_000 {
            20 * year
        } else {
            (10 * (secs - 15_768_000)) as nat
        }
    };
    lemma2_to64();
    let (p, q) = (points(age), points(older));
    let (a, b, c, d) = (
        if p == 20 * year {
            20
        } else {
            p
        },
        if p == 20 * year || p == 0 {
            1
        } else {
            year
        },
        if q == 20 * year {
            20
        } else {
            q
        },
        if q == 20 * year || q == 0 {
            1
        } else {
            year
        },
    );
    assert(a * d * 1 <= c * b * 1) by (nonlinear_arith)
        requires
            p <= q,
            year > 0,
            (p == 20 * year && a == 20 && b == 1) || (p == 0 && a == 0 && b == 1) || (a == p && b
                == year),
            (q == 20 * year && c == 20 && d == 1) || (q == 0 && c == 0 && d == 1) || (c == q && d
                == year),
    ;
    rounding_keeps_order(a, b, 0, c, d, 0, 0);
}

/// Quality lost to age, for a model that was released so many seconds ago; a
/// model of unknown age loses nothing.
pub fn age_malus(age_secs: Option<i64>) -> (r: Double)
    ensures
        r.wf(),
        r@ == match age_secs {
            Some(a) => age_loss(a as int),
            None => nearest(0, 1),
        },
{
    match age_secs {
        Some(a) => {
            if a <= 15_768_000 {
                Double::of_ratio(0, 1)
            } else if a >= 78_840_000 {
                Double::of_ratio(20, 1)
            } else {
                Double::of_ratio((10 * (a - 15_768_000)) as u64, 31_536_000)
            }
        },
        None => Double::of_ratio(0, 1),
    }
}

// ---------------------------------------------------------------------------
// Choosing a variant
// ---------------------------------------------------------------------------

/// The place of a quantization in the descent; those outside it come last.
pub open spec fn descent_rank(quant: Seq<char>) -> int {
    if quant == "Q8_0"@ {
        0
    } else if quant == "Q6_K"@ {
        1
    } else if quant == "Q5_K_M"@ {
        2
    } else if quant == "Q4_K_M"@ {
        3
    } else if quant == "Q3_K_M"@ {
        4
    } else if quant == "Q2_K"@ {
        5
    } else {
        6
    }
}

fn rank(quant: &str) -> (r: u32)
    ensures
        r == descent_rank(quant@),
{
    if same(quant, "Q8_0") {
        0
    } else if same(quant, "Q6_K") {
        1
    } else if same(quant, "Q5_K_M") {
        2
    } else if same(quant, "Q4_K_M") {
        3
    } else if same(quant, "Q3_K_M") {
        4
    } else if same(quant, "Q2_K") {
        5
    } else {
        6
    }
}

/// The quantizations that a model is looked for in, from the most bits down.
pub open spec fn in_descent(q: Seq<char>) -> bool {
    ||| q == "Q8_0"@
    ||| q == "Q6_K"@
    ||| q == "Q5_K_M"@
    ||| q == "Q4_K_M"@
    ||| q == "Q3_K_M"@
    ||| q == "Q2_K"@
}

proof fn lemma_descent_bits(q: Seq<char>)
    requires
        in_descent(q),
    ensures
        bpw_of(q) is Some,
        bpw_of(q) == plain_bpw(q),
{
    lemma_plain_names();
    assert(q.take(3)[0] == 'Q');
}

/// Within the descent the order is that of the bits per weight: of two
/// quantizations the one with more bits ranks strictly before the other.
pub proof fn descent_follows_the_bits(a: Seq<char>, b: Seq<char>)
    requires
        in_descent(a),
        in_descent(b),
    ensures
        bpw_of(a) is Some,
        bpw_of(b) is Some,
        bpw_of(a)->Some_0 > bpw_of(b)->Some_0 <==> descent_rank(a) < descent_rank(b),
{
    lemma_plain_names();
    lemma_descent_bits(a);
    lemma_descent_bits(b);
}

/// Every quantization of the descent ranks before every other, and those
/// outside it rank alike.
pub proof fn descent_comes_first(a: Seq<char>, b: Seq<char>)
    requires
        !in_descent(b),
    ensures
        in_descent(a) ==> descent_rank(a) < descent_rank(b),
        !in_descent(a) ==> descent_rank(a) == descent_rank(b),
{
}

/// `a` comes before `b` in the dictionary.
pub open spec fn dictionary_less(a: Seq<char>, b: Seq<char>) -> bool
    decreases a.len(),
{
    if b.len() == 0 {
        false
    } else if a.len() == 0 {
        true
    } else if a[0] == b[0] {
        dictionary_less(a.skip(1), b.skip(1))
    } else {
        a[0] < b[0]
    }
}

/// One word comes before another in the dictionary exactly if, behind what both
/// begin with, it ends and the other goes on, or goes on with the lesser letter.
pub proof fn dictionary_goes_by_the_first_difference(a: Seq<char>, b: Seq<char>, i: int)
    requires
        0 <= i <= a.len(),
        i <= b.len(),
        a.take(i) == b.take(i),
        i == a.len() || i == b.len() || a[i] != b[i],
    ensures
        dictionary_less(a, b) <==> i < b.len() && (i == a.len() || a[i] < b[i]),
    decreases i,
{
    if i > 0 {
        assert(a[0] == a.take(i)[0] && b[0] == b.take(i)[0]);
        assert(i < a.len() ==> a.skip(1)[i - 1] == a[i]);
        assert(i < b.len() ==> b.skip(1)[i - 1] == b[i]);
        assert(a.skip(1).take(i - 1) =~= a.take(i).skip(1));
        assert(b.skip(1).take(i - 1) =~= b.take(i).skip(1));
        dictionary_goes_by_the_first_difference(a.skip(1), b.skip(1), i - 1);
    }
}

fn before_in_dictionary(a: &[char], b: &[char]) -> (r: bool)
    ensures
        r == dictionary_less(a@, b@),
{
    let mut i: usize = 0;
    assert(a@.skip(0) =~= a@);
    assert(b@.skip(0) =~= b@);
    while i < a.len() && i < b.len()
        invariant
            i <= a@.len(),
            i <= b@.len(),
            dictionary_less(a@, b@) == dictionary_less(a@.skip(i as int), b@.skip(i as int)),
        decreases a@.len() - i,
    {
        if a[i] != b[i] {
            return a[i] < b[i];
        }
        assert(a@.skip(i as int).skip(1) =~= a@.skip(i as int + 1));
        assert(b@.skip(i as int).skip(1) =~= b@.skip(i as int + 1));
        i = i + 1;
    }
    i < b.len()
}

/// The variants without their storage.
pub open spec fn figures_of(vs: Seq<ModelVariant>) -> Seq<Figures> {
    vs.map_values(|v: ModelVariant| v@)
}

/// `a` is fewer bits per weight than `b`.
pub open spec fn fewer_bits(a: u64, b: u64) -> bool {
    less(bits_of(a), bits_of(b))
}

fn has_fewer_bits(a: u64, b: u64) -> (r: bool)
    ensures
        r == fewer_bits(a, b),
{
    bits_number(a).is_less(bits_number(b))
}

/// Bits per weight are ordered as their numbers are.
proof fn lemma_fewer_bits(a: u64, b: u64)
    ensures
        ({
            let (x, y) = (bits_of(a), bits_of(b));
            &&& x.0 == 0 ==> x.1 == 0 && (fewer_bits(a, b) <==> y.0 != 0)
            &&& y.0 == 0 ==> y.1 == 0 && !fewer_bits(a, b)
            &&& x.0 != 0 && y.0 != 0 ==> (fewer_bits(a, b) <==> x.1 < y.1 || (x.1 == y.1 && x.0
                < y.0))
        }),
{
    rounded_is_number(a as nat, BIT as nat, 0);
    rounded_is_number(b as nat, BIT as nat, 0);
    lemma_less(bits_of(a), bits_of(b));
}

/// More units of bits per weight are no fewer bits.
pub proof fn units_keep_order(a: u64, b: u64)
    requires
        a <= b,
    ensures
        !fewer_bits(b, a),
{
    nearest_keeps_order(a as nat, b as nat, BIT as nat);
}

/// Variant `i` is of better quality than variant `j`: earlier in the descent,
/// else with more bits per weight, else first in the dictionary, else first in
/// the list.
pub open spec fn better(vs: Seq<Figures>, i: int, j: int) -> bool {
    let a = vs[i];
    let b = vs[j];
    let ra = descent_rank(a.quant);
    let rb = descent_rank(b.quant);
    if ra != rb {
        ra < rb
    } else if fewer_bits(b.bpw, a.bpw) || fewer_bits(a.bpw, b.bpw) {
        fewer_bits(b.bpw, a.bpw)
    } else if a.quant != b.quant {
        dictionary_less(a.quant, b.quant)
    } else {
        i < j
    }
}

/// Of two variants that stand alike in the descent, the better one has no fewer
/// bits per weight; with as many bits it is first in the dictionary, and with
/// the same quantization first in the list.
pub proof fn better_has_no_fewer_bits(vs: Seq<Figures>, i: int, j: int)
    requires
        better(vs, i, j),
        in_descent(vs[i].quant) == in_descent(vs[j].quant),
        vs[i].quant == vs[j].quant || !in_descent(vs[i].quant),
    ensures
        at_most(bits_of(vs[j].bpw), bits_of(vs[i].bpw)),
        vs[i].bpw == vs[j].bpw && vs[i].quant != vs[j].quant ==> dictionary_less(
            vs[i].quant,
            vs[j].quant,
        ),
        vs[i].bpw == vs[j].bpw && vs[i].quant == vs[j].quant ==> i < j,
{
    lemma_fewer_bits(vs[i].bpw, vs[j].bpw);
    lemma_fewer_bits(vs[j].bpw, vs[i].bpw);
    if !in_descent(vs[i].quant) {
        descent_comes_first(vs[i].quant, vs[j].quant);
    }
}

pub fn is_better(vs: &[ModelVariant], i: usize, j: usize) -> (r: bool)
    requires
        i < vs@.len(),
        j < vs@.len(),
    ensures
        r == better(figures_of(vs@), i as int, j as int),
{
    let a = &vs[i];
    let b = &vs[j];
    let ra: u32 = rank(a.quant.as_str());
    let rb: u32 = rank(b.quant.as_str());
    if ra != rb {
        ra < rb
    } else if has_fewer_bits(b.bpw, a.bpw) {
        proof {
            lemma_fewer_bits(b.bpw, a.bpw);
            lemma_fewer_bits(a.bpw, b.bpw);
        }
        true
    } else if has_fewer_bits(a.bpw, b.bpw) {
        false
    } else if !same(a.quant.as_str(), b.quant.as_str()) {
        before_in_dictionary(&chars_of(a.quant.as_str()), &chars_of(b.quant.as_str()))
    } else {
        i < j
    }
}

proof fn lemma_dictionary(a: Seq<char>, b: Seq<char>)
    ensures
        a == b || dictionary_less(a, b) || dictionary_less(b, a),
        !(dictionary_less(a, b) && dictionary_less(b, a)),
        !dictionary_less(a, a),
    decreases a.len(),
{
    if a.len() > 0 {
        lemma_dictionary(a.skip(1), a.skip(1));
        if b.len() > 0 && a[0] == b[0] {
            lemma_dictionary(a.skip(1), b.skip(1));
            if a.skip(1) == b.skip(1) {
                assert(a =~= seq![a[0]] + a.skip(1));
                assert(b =~= seq![b[0]] + b.skip(1));
            }
        }
    } else if b.len() == 0 {
        assert(a =~= b);
    }
}

proof fn lemma_dictionary_transitive(a: Seq<char>, b: Seq<char>, c: Seq<char>)
    requires
        dictionary_less(a, b),
        dictionary_less(b, c),
    ensures
        dictionary_less(a, c),
    decreases a.len(),
{
    if a.len() > 0 && a[0] == b[0] && b[0] == c[0] {
        lemma_dictionary_transitive(a.skip(1), b.skip(1), c.skip(1));
    }
}

/// Of two variants one is of better quality.
pub proof fn quality_is_total(vs: Seq<Figures>, i: int, j: int)
    requires
        i != j,
    ensures
        better(vs, i, j) != better(vs, j, i),
{
    lemma_dictionary(vs[i].quant, vs[j].quant);
    lemma_fewer_bits(vs[i].bpw, vs[j].bpw);
    lemma_fewer_bits(vs[j].bpw, vs[i].bpw);
}

/// What is better than a better variant is better.
pub proof fn quality_is_transitive(vs: Seq<Figures>, i: int, j: int, k: int)
    requires
        better(vs, i, j),
        better(vs, j, k),
    ensures
        better(vs, i, k),
{
    let (x, y, z) = (vs[i].bpw, vs[j].bpw, vs[k].bpw);
    lemma_fewer_bits(x, y);
    lemma_fewer_bits(y, x);
    lemma_fewer_bits(y, z);
    lemma_fewer_bits(z, y);
    lemma_fewer_bits(x, z);
    lemma_fewer_bits(z, x);
    let a = vs[i].quant;
    let b = vs[j].quant;
    let c = vs[k].quant;
    if a != b && b != c && dictionary_less(a, b) && dictionary_less(b, c) {
        lemma_dictionary_transitive(a, b, c);
        lemma_dictionary(a, c);
    }
}

/// `order` lists every variant once, the better ones first.
pub open spec fn is_quality_order(vs: Seq<Figures>, order: Seq<usize>) -> bool {
    &&& order.len() == vs.len()
    &&& forall|k: int| 0 <= k < order.len() ==> (#[trigger] order[k]) < vs.len()
    &&& forall|i: usize| i < vs.len() ==> order.contains(i)
    &&& forall|k: int, l: int|
        0 <= k < l < order.len() ==> better(vs, #[trigger] order[k] as int, #[trigger] order[l] as int)
}

/// The positions of the variants, best quality first.
pub open spec fn quality_order(vs: Seq<Figures>) -> Seq<usize> {
    choose|order: Seq<usize>| is_quality_order(vs, order)
}

/// There is one order by quality.
pub proof fn quality_order_is_unique(vs: Seq<Figures>, a: Seq<usize>, b: Seq<usize>)
    requires
        is_quality_order(vs, a),
        is_quality_order(vs, b),
    ensures
        a == b,
{
    assert forall|k: int| 0 <= k < a.len() implies a[k] == b[k] by {
        lemma_orders_agree(vs, a, b, k + 1);
        assert(a.take(k + 1)[k] == b.take(k + 1)[k]);
    }
    assert(a =~= b);
}

proof fn lemma_orders_agree(vs: Seq<Figures>, a: Seq<usize>, b: Seq<usize>, k: int)
    requires
        is_quality_order(vs, a),
        is_quality_order(vs, b),
        0 <= k <= vs.len(),
    ensures
        a.take(k) == b.take(k),
    decreases k,
{
    if k > 0 {
        lemma_orders_agree(vs, a, b, k - 1);
        let x = a[k - 1];
        let y = b[k - 1];
        if x != y {
            assert(a.contains(y));
            assert(b.contains(x));
            let j = choose|j: int| 0 <= j < a.len() && a[j] == y;
            let l = choose|l: int| 0 <= l < b.len() && b[l] == x;
            if j < k - 1 {
                assert(a.take(k - 1)[j] == b.take(k - 1)[j]);
                assert(better(vs, b[j] as int, b[k - 1] as int));
                lemma_not_better_than_itself(vs, y as int);
            }
            if l < k - 1 {
                assert(a.take(k - 1)[l] == b.take(k - 1)[l]);
                assert(better(vs, a[l] as int, a[k - 1] as int));
                lemma_not_better_than_itself(vs, x as int);
            }
            assert(better(vs, a[k - 1] as int, a[j] as int));
            assert(better(vs, b[k - 1] as int, b[l] as int));
            quality_is_total(vs, x as int, y as int);
        }
        assert(a.take(k) =~= a.take(k - 1).push(x));
        assert(b.take(k) =~= b.take(k - 1).push(y));
    } else {
        assert(a.take(0) =~= b.take(0));
    }
}

/// No variant is better than itself.
pub proof fn lemma_not_better_than_itself(vs: Seq<Figures>, i: int)
    ensures
        !better(vs, i, i),
{
    lemma_fewer_bits(vs[i].bpw, vs[i].bpw);
}

/// The positions of the variants, best quality first.
pub fn variants_by_quality(vs: &[ModelVariant]) -> (r: Vec<usize>)
    ensures
        is_quality_order(figures_of(vs@), r@),
        r@ == quality_order(figures_of(vs@)),
{
    let mut order: Vec<usize> = Vec::new();
    let n: usize = vs.len();
    for i in 0..n
        invariant
            n == vs@.len(),
            order@.len() == i,
            forall|k: int| 0 <= k < order@.len() ==> (#[trigger] order@[k]) < i,
            forall|j: usize| j < i ==> order@.contains(j),
            forall|k: int, l: int|
                0 <= k < l < order@.len() ==> better(
                    figures_of(vs@),
                    #[trigger] order@[k] as int,
                    #[trigger] order@[l] as int,
                ),
    {
        let mut p: usize = 0;
        while p < order.len() && !is_better(vs, i, order[p])
            invariant
                n == vs@.len(),
                i < n,
                p <= order@.len(),
                order@.len() == i,
                forall|k: int| 0 <= k < order@.len() ==> (#[trigger] order@[k]) < i,
                forall|k: int| 0 <= k < p ==> !better(figures_of(vs@), i as int, #[trigger] order@[k] as int),
            decreases order@.len() - p,
        {
            p = p + 1;
        }
        let ghost before = order@;
        order.insert(p, i);
        proof {
            assert forall|k: int, l: int| 0 <= k < l < order@.len() implies better(
                figures_of(vs@),
                #[trigger] order@[k] as int,
                #[trigger] order@[l] as int,
            ) by {
                if l < p {
                    assert(order@[k] == before[k] && order@[l] == before[l]);
                } else if k < p && l == p {
                    assert(order@[k] == before[k]);
                    quality_is_total(figures_of(vs@), i as int, before[k] as int);
                } else if k < p {
                    assert(order@[k] == before[k] && order@[l] == before[l - 1]);
                } else if k == p {
                    assert(order@[l] == before[l - 1]);
                    if l - 1 > p {
                        assert(better(figures_of(vs@), before[p as int] as int, before[l - 1] as int));
                        quality_is_transitive(
                            figures_of(vs@),
                            i as int,
                            before[p as int] as int,
                            before[l - 1] as int,
                        );
                    }
                } else {
                    assert(order@[k] == before[k - 1] && order@[l] == before[l - 1]);
                }
            }
            assert forall|k: int| 0 <= k < order@.len() implies (#[trigger] order@[k]) < i + 1 by {
                if k < p {
                    assert(order@[k] == before[k]);
                } else if k > p {
                    assert(order@[k] == before[k - 1]);
                }
            }
            assert forall|j: usize| j < i + 1 implies order@.contains(j) by {
                if j < i {
                    assert(before.contains(j));
                    let k = choose|k: int| 0 <= k < before.len() && before[k] == j;
                    if k < p {
                        assert(order@[k] == j);
                    } else {
                        assert(order@[k + 1] == j);
                    }
                } else {
                    assert(order@[p as int] == j);
                }
            }
        }
    }
    proof {
        assert(is_quality_order(figures_of(vs@), order@));
        quality_order_is_unique(
            figures_of(vs@),
            order@,
            quality_order(figures_of(vs@)),
        );
    }
    order
}

/// How far down the ladder of verdicts a variant comes with the default context.
pub open spec fn variant_rung(v: Figures, budget: MemoryBudget) -> int {
    rung(memory_of(v, DEFAULT_CONTEXT as nat, budget).verdict)
}

/// Variant `i` fits, no variant fits better, and of those that fit as well it
/// is of the best quality.
pub open spec fn is_best(vs: Seq<Figures>, budget: MemoryBudget, i: int) -> bool {
    &&& 0 <= i < vs.len()
    &&& variant_rung(vs[i], budget) < 3
    &&& forall|j: int|
        0 <= j < vs.len() && j != i ==> {
            ||| variant_rung(#[trigger] vs[j], budget) > variant_rung(vs[i], budget)
            ||| variant_rung(vs[j], budget) == variant_rung(vs[i], budget) && better(vs, i, j)
        }
}

fn rung_of(v: &ModelVariant, budget: &MemoryBudget) -> (r: u32)
    ensures
        r == variant_rung(v@, *budget),
        r <= 3,
{
    match estimate_memory(v, DEFAULT_CONTEXT, budget).verdict {
        FitVerdict::FitsGpu => 0,
        FitVerdict::FitsWithSysctlTuning => 1,
        FitVerdict::FitsRamOnly => 2,
        FitVerdict::DoesNotFit => 3,
    }
}

/// The position of the best variant that fits this machine.
pub fn best_variant_index(vs: &[ModelVariant], budget: &MemoryBudget) -> (r: Option<usize>)
    ensures
        match r {
            Some(i) => is_best(figures_of(vs@), *budget, i as int),
            None => forall|j: int|
                0 <= j < vs@.len() ==> variant_rung(#[trigger] figures_of(vs@)[j], *budget) == 3,
        },
{
    let mut best: Option<usize> = None;
    for k in 0..vs.len()
        invariant
            match best {
                Some(i) => {
                    &&& i < k
                    &&& variant_rung(figures_of(vs@)[i as int], *budget) < 3
                    &&& forall|j: int|
                        0 <= j < k && j != i ==> {
                            ||| variant_rung(#[trigger] figures_of(vs@)[j], *budget) > variant_rung(
                                figures_of(vs@)[i as int],
                                *budget,
                            )
                            ||| variant_rung(figures_of(vs@)[j], *budget) == variant_rung(
                                figures_of(vs@)[i as int],
                                *budget,
                            ) && better(figures_of(vs@), i as int, j)
                        }
                },
                None => forall|j: int|
                    0 <= j < k ==> variant_rung(#[trigger] figures_of(vs@)[j], *budget) == 3,
            },
    {
        let rk: u32 = rung_of(&vs[k], budget);
        if rk < 3 {
            match best {
                None => {
                    best = Some(k);
                },
                Some(i) => {
                    let ri: u32 = rung_of(&vs[i], budget);
                    proof {
                        quality_is_total(figures_of(vs@), i as int, k as int);
                    }
                    if rk < ri || (rk == ri && is_better(vs, k, i)) {
                        proof {
                            assert forall|j: int| 0 <= j < k + 1 && j != k implies {
                                ||| variant_rung(#[trigger] figures_of(vs@)[j], *budget) > variant_rung(
                                    figures_of(vs@)[k as int],
                                    *budget,
                                )
                                ||| variant_rung(figures_of(vs@)[j], *budget) == variant_rung(
                                    figures_of(vs@)[k as int],
                                    *budget,
                                ) && better(figures_of(vs@), k as int, j)
                            } by {
                                if j != i && rk == ri && better(figures_of(vs@), i as int, j) {
                                    quality_is_transitive(figures_of(vs@), k as int, i as int, j);
                                }
                            }
                        }
                        best = Some(k);
                    }
                },
            }
        }
    }
    best
}

/// The best variant of a model for this machine: the one that fits best, and
/// of those the one of the best quality.
pub fn best_variant<'a>(variants: &'a [ModelVariant], budget: &MemoryBudget) -> (r: Option<
    &'a ModelVariant,
>)
    ensures
        match r {
            Some(v) => exists|i: int| is_best(figures_of(variants@), *budget, i) && variants@[i] == *v,
            None => forall|j: int|
                0 <= j < variants@.len() ==> variant_rung(#[trigger] figures_of(variants@)[j], *budget) == 3,
        },
{
    match best_variant_index(variants, budget) {
        Some(i) => {
            assert(is_best(figures_of(variants@), *budget, i as int));
            Some(&variants[i])
        },
        None => None,
    }
}

/// There is one best variant at most.
pub proof fn best_is_unique(vs: Seq<Figures>, budget: MemoryBudget, i: int, j: int)
    requires
        is_best(vs, budget, i),
        is_best(vs, budget, j),
    ensures
        i == j,
{
    if i != j {
        quality_is_total(vs, i, j);
        assert(vs[i] == vs[i] && vs[j] == vs[j]);
    }
}

/// The variant picked fits no worse than any other.
pub proof fn picked_fits_no_worse(vs: Seq<Figures>, budget: MemoryBudget, i: int, j: int)
    requires
        is_best(vs, budget, i),
        0 <= j < vs.len(),
    ensures
        memory_of(vs[i], DEFAULT_CONTEXT as nat, budget).verdict != FitVerdict::DoesNotFit,
        rung(memory_of(vs[i], DEFAULT_CONTEXT as nat, budget).verdict) <= rung(
            memory_of(vs[j], DEFAULT_CONTEXT as nat, budget).verdict,
        ),
{
    assert(vs[j] == vs[j]);
}

/// Of the variants of the descent that fit as well, the one picked has the most
/// bits per weight; and no variant outside the descent is picked over one in it
/// that fits as well.
pub proof fn picked_has_the_most_bits(vs: Seq<Figures>, budget: MemoryBudget, i: int, j: int)
    requires
        is_best(vs, budget, i),
        0 <= j < vs.len(),
        in_descent(vs[j].quant),
        Some(vs[i].bpw) == bpw_of(vs[i].quant),
        Some(vs[j].bpw) == bpw_of(vs[j].quant),
        memory_of(vs[j], DEFAULT_CONTEXT as nat, budget).verdict == memory_of(
            vs[i],
            DEFAULT_CONTEXT as nat,
            budget,
        ).verdict,
    ensures
        in_descent(vs[i].quant),
        vs[j].bpw <= vs[i].bpw,
{
    if i != j {
        assert(vs[j] == vs[j]);
        assert(better(vs, i, j));
        if !in_descent(vs[i].quant) {
            descent_comes_first(vs[j].quant, vs[i].quant);
        } else {
            descent_follows_the_bits(vs[j].quant, vs[i].quant);
        }
    }
}

/// Of variants outside the descent that fit as well, the one picked has no
/// fewer bits per weight than any other.
pub proof fn picked_has_no_fewer_bits(vs: Seq<Figures>, budget: MemoryBudget, i: int, j: int)
    requires
        is_best(vs, budget, i),
        0 <= j < vs.len(),
        !in_descent(vs[i].quant),
        !in_descent(vs[j].quant),
        memory_of(vs[j], DEFAULT_CONTEXT as nat, budget).verdict == memory_of(
            vs[i],
            DEFAULT_CONTEXT as nat,
            budget,
        ).verdict,
    ensures
        at_most(bits_of(vs[j].bpw), bits_of(vs[i].bpw)),
{
    lemma_fewer_bits(vs[i].bpw, vs[j].bpw);
    lemma_fewer_bits(vs[j].bpw, vs[i].bpw);
    if i != j {
        assert(vs[j] == vs[j]);
        assert(better(vs, i, j));
        descent_comes_first(vs[i].quant, vs[j].quant);
    }
}

/// `i` is the first variant with the fewest bits per weight.
pub open spec fn is_smallest_variant(vs: Seq<Figures>, i: int) -> bool {
    &&& 0 <= i < vs.len()
    &&& forall|j: int| 0 <= j < vs.len() ==> !fewer_bits((#[trigger] vs[j]).bpw, vs[i].bpw)
    &&& forall|j: int| 0 <= j < i ==> fewer_bits(vs[i].bpw, (#[trigger] vs[j]).bpw)
}

/// Where nothing fits, the variant shown takes no more memory for its weights
/// than any other of the model.
pub proof fn smallest_takes_the_least(vs: Seq<Figures>, i: int, j: int)
    requires
        is_smallest_variant(vs, i),
        0 <= j < vs.len(),
        vs[i].params_total == vs[j].params_total,
        vs[i].layers == vs[j].layers,
        vs[i].kv_heads == vs[j].kv_heads,
        vs[i].head_dim == vs[j].head_dim,
    ensures
        at_most(bits_of(vs[i].bpw), bits_of(vs[j].bpw)),
        weights_of(vs[i]) <= weights_of(vs[j]),
{
    assert(vs[j] == vs[j]);
    if vs[i].bpw <= vs[j].bpw {
        more_bits_take_no_less(vs[i], vs[j], 0);
    } else {
        units_keep_order(vs[j].bpw, vs[i].bpw);
        lemma_fewer_bits(vs[i].bpw, vs[j].bpw);
        lemma_fewer_bits(vs[j].bpw, vs[i].bpw);
    }
}

/// The variant to show for a model: the best that fits; where none does and
/// such models are wanted, the one with the fewest bits per weight.
pub fn pick_variant(vs: &[ModelVariant], budget: &MemoryBudget, include_unfit: bool) -> (r: Option<
    usize,
>)
    ensures
        match r {
            Some(i) => is_best(figures_of(vs@), *budget, i as int) || ((forall|j: int|
                0 <= j < vs@.len() ==> variant_rung(#[trigger] figures_of(vs@)[j], *budget) == 3)
                && include_unfit && is_smallest_variant(figures_of(vs@), i as int)),
            None => (forall|j: int|
                0 <= j < vs@.len() ==> variant_rung(#[trigger] figures_of(vs@)[j], *budget) == 3) && (
            !include_unfit || vs@.len() == 0),
        },
{
    if let Some(i) = best_variant_index(vs, budget) {
        return Some(i);
    }
    if !include_unfit || vs.len() == 0 {
        return None;
    }
    let mut best: usize = 0;
    let mut k: usize = 1;
    proof {
        lemma_fewer_bits(vs@[0].bpw, vs@[0].bpw);
    }
    while k < vs.len()
        invariant
            0 <= best < k <= vs@.len(),
            forall|j: int|
                0 <= j < k ==> !fewer_bits((#[trigger] vs@[j]).bpw, vs@[best as int].bpw),
            forall|j: int|
                0 <= j < best ==> fewer_bits(vs@[best as int].bpw, (#[trigger] vs@[j]).bpw),
        decreases vs@.len() - k,
    {
        let ghost (x, y) = (vs@[k as int].bpw, vs@[best as int].bpw);
        proof {
            lemma_fewer_bits(x, x);
            assert forall|j: int| 0 <= j < k && fewer_bits(x, y) implies !fewer_bits(
                (#[trigger] vs@[j]).bpw,
                x,
            ) && fewer_bits(x, vs@[j].bpw) by {
                lemma_fewer_bits(x, y);
                lemma_fewer_bits(vs@[j].bpw, x);
                lemma_fewer_bits(x, vs@[j].bpw);
                lemma_fewer_bits(vs@[j].bpw, y);
            }
        }
        if has_fewer_bits(vs[k].bpw, vs[best].bpw) {
            best = k;
        }
        k = k + 1;
    }
    Some(best)
}

} // verus!
