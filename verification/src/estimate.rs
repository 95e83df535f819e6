//! Memory and speed of a model on this machine.
//!
//! Generating a token streams all active weights and the key/value cache
//! through memory once, so that speed is bandwidth over bytes per token, less
//! what the kernels leave unused.

use vstd::arithmetic::power2::{lemma2_to64, pow2};
use vstd::prelude::*;

use crate::double::{above, at_least, lemma_less, nearest, product, quotient, sum, whole_part, Double};
use crate::numeral::saturated;
use crate::rounding::{
    at_most, is_number, nearest_keeps_order, product_keeps_order, quotient_keeps_order,
    quotient_reverses_order, rounded_is_number, rounding_keeps_order, sum_keeps_order,
    whole_part_keeps_order,
};
use crate::precision::{
    about_something, error_may_grow, is_about, nearest_is_close, product_is_close,
    quotient_is_close, same_ratio_is_close, saturated_is_no_more, sum_is_close,
    whole_part_of_close, PARTS,
};
use crate::score::lemma_thresholds;

verus! {

/// Flat overhead of a runtime (buffers, tokenizer, heaps).
pub const OVERHEAD_BASE_BYTES: u64 = 524_288_000;

/// Memory kept back from the GPU even with the limit tuned.
pub const SYSCTL_TUNING_RESERVE_BYTES: u64 = 4_294_967_296;

/// Context length of the fit computations.
pub const DEFAULT_CONTEXT: u32 = 8192;

/// A variant as far as the estimates go.
#[derive(Debug)]
pub struct ModelVariant {
    pub model_name: String,
    pub quant: String,
    /// Effective bits per weight, in units of 10^-16; zero where they are unknown.
    pub bpw: u64,
    pub params_total: u64,
    /// All parameters of a dense model; those active per token of a
    /// mixture of experts.
    pub params_active: u64,
    pub layers: u32,
    pub kv_heads: u32,
    pub head_dim: u32,
    pub embedding_dim: u32,
    pub context_max: u32,
}

/// One bit per weight: ten to the sixteenth units. So fine a unit tells numbers
/// of double precision apart.
pub const BIT: u64 = 10_000_000_000_000_000;

/// Bits per weight as a number of double precision.
pub open spec fn bits_of(bpw: u64) -> (nat, int) {
    nearest(bpw as nat, BIT as nat)
}

/// Bits per weight as a number of double precision.
pub fn bits_number(bpw: u64) -> (r: Double)
    ensures
        r@ == bits_of(bpw),
        r.wf(),
        -130 <= r.exponent <= 80,
        r.mantissa == 0 <==> bpw == 0,
{
    Double::of_ratio(bpw, BIT)
}

/// A whole number of hundredths is the number that its decimals say.
pub proof fn hundredths_are_exact(bpw: u64, h: nat)
    requires
        bpw == h * 100_000_000_000_000,
    ensures
        bits_of(bpw) == nearest(h, 100),
{
    let (x, y) = (bits_of(bpw), nearest(h, 100));
    rounded_is_number(bpw as nat, BIT as nat, 0);
    rounded_is_number(h, 100, 0);
    lemma2_to64();
    rounding_keeps_order(bpw as nat, BIT as nat, 0, h, 100, 0, 0);
    rounding_keeps_order(h, 100, 0, bpw as nat, BIT as nat, 0, 0);
    lemma_less(x, y);
    lemma_less(y, x);
}

/// `ModelVariant` without its storage.
pub ghost struct Figures {
    pub model_name: Seq<char>,
    pub quant: Seq<char>,
    pub bpw: u64,
    pub params_total: u64,
    pub params_active: u64,
    pub layers: u32,
    pub kv_heads: u32,
    pub head_dim: u32,
    pub embedding_dim: u32,
    pub context_max: u32,
}

impl View for ModelVariant {
    type V = Figures;

    open spec fn view(&self) -> Figures {
        Figures {
            model_name: self.model_name@,
            quant: self.quant@,
            bpw: self.bpw,
            params_total: self.params_total,
            params_active: self.params_active,
            layers: self.layers,
            kv_heads: self.kv_heads,
            head_dim: self.head_dim,
            embedding_dim: self.embedding_dim,
            context_max: self.context_max,
        }
    }
}

impl DeepView for ModelVariant {
    type V = Figures;

    open spec fn deep_view(&self) -> Figures {
        self@
    }
}

#[derive(Debug, Clone, Copy, PartialEq, Eq, Structural)]
pub enum FitVerdict {
    /// Fits the effective GPU limit.
    FitsGpu,
    /// Would fit if the limit were raised, a reserve for the system kept.
    FitsWithSysctlTuning,
    /// Fits total memory only: partial CPU offload, degraded speed.
    FitsRamOnly,
    DoesNotFit,
}

#[derive(Debug, Clone, Copy)]
pub struct MemoryBudget {
    pub gpu_effective_bytes: u64,
    pub ram_total_bytes: u64,
}

#[derive(Debug, Clone, Copy)]
pub struct MemoryEstimate {
    pub weights_bytes: u64,
    pub kv_cache_bytes: u64,
    pub overhead_bytes: u64,
    pub total_bytes: u64,
    pub gpu_limit_bytes: u64,
    pub verdict: FitVerdict,
}

#[derive(Debug, Clone, Copy, PartialEq, Eq, PartialOrd, Ord, Structural)]
pub enum SpeedTier {
    Slow,
    Usable,
    Smooth,
    Instant,
}

/// Speeds in tokens per second.
#[derive(Debug, Clone, Copy)]
pub struct SpeedEstimate {
    pub generation_tps: Double,
    /// Rough range of prompt processing, which is bound by computation.
    pub prompt_tps_range: (Double, Double),
    pub tier: SpeedTier,
}

// ---------------------------------------------------------------------------
// Memory
// ---------------------------------------------------------------------------

/// Bytes of key/value cache per token: keys and values, each of two bytes, per
/// layer and key/value head, `head_dim` wide.
pub open spec fn kv_bytes_per_token(v: Figures) -> nat {
    4 * (v.layers as nat * v.kv_heads as nat * v.head_dim as nat)
}

/// Bytes of key/value cache of a context.
pub open spec fn kv_bytes(v: Figures, context: nat) -> u64 {
    saturated(kv_bytes_per_token(v) * context)
}

/// Bytes of the weights.
pub open spec fn weights_of(v: Figures) -> u64 {
    saturated(
        whole_part(
            quotient(
                product(nearest(v.params_total as nat, 1), bits_of(v.bpw)),
                nearest(8, 1),
            ),
        ),
    )
}

/// Overhead: a flat part and a twentieth of the weights.
pub open spec fn overhead_of(weights: u64) -> u64 {
    saturated(
        OVERHEAD_BASE_BYTES as nat + saturated(
            whole_part(product(nearest(weights as nat, 1), nearest(1, 20))),
        ) as nat,
    )
}

/// All the memory that a variant takes with a context.
pub open spec fn total_of(v: Figures, context: nat) -> u64 {
    saturated(
        weights_of(v) as nat + kv_bytes(v, context) as nat + overhead_of(weights_of(v)) as nat,
    )
}

/// The verdict on a number of bytes.
pub open spec fn verdict_of(total: nat, budget: MemoryBudget) -> FitVerdict {
    if total <= budget.gpu_effective_bytes {
        FitVerdict::FitsGpu
    } else if total + SYSCTL_TUNING_RESERVE_BYTES <= budget.ram_total_bytes {
        FitVerdict::FitsWithSysctlTuning
    } else if total <= budget.ram_total_bytes {
        FitVerdict::FitsRamOnly
    } else {
        FitVerdict::DoesNotFit
    }
}

pub open spec fn memory_of(v: Figures, context: nat, budget: MemoryBudget) -> MemoryEstimate {
    MemoryEstimate {
        weights_bytes: weights_of(v),
        kv_cache_bytes: kv_bytes(v, context),
        overhead_bytes: overhead_of(weights_of(v)),
        total_bytes: total_of(v, context),
        gpu_limit_bytes: budget.gpu_effective_bytes,
        verdict: verdict_of(total_of(v, context) as nat, budget),
    }
}

fn saturating_mul(a: u64, b: u64) -> (r: u64)
    ensures
        r == saturated(a as nat * b as nat),
{
    match a.checked_mul(b) {
        Some(n) => n,
        None => u64::MAX,
    }
}

proof fn lemma_saturated_product(a: nat, b: nat)
    ensures
        saturated(saturated(a) as nat * b) == saturated(a * b),
{
    if a > u64::MAX {
        if b == 0 {
            assert(a * b == 0) by (nonlinear_arith)
                requires
                    b == 0,
            ;
        } else {
            assert(a * b >= a) by (nonlinear_arith)
                requires
                    b >= 1,
            ;
            assert(u64::MAX as nat * b >= u64::MAX) by (nonlinear_arith)
                requires
                    b >= 1,
            ;
        }
    }
}

/// Size of the key/value cache of a context. It grows with the context in
/// proportion, up to the greatest number.
pub fn kv_cache_bytes(v: &ModelVariant, context_len: u32) -> (r: u64)
    ensures
        r == kv_bytes(v@, context_len as nat),
{
    let ghost l = v.layers as nat;
    let ghost k = v.kv_heads as nat;
    let ghost d = v.head_dim as nat;
    let ghost c = context_len as nat;
    proof {
        lemma_saturated_product(2 * l, k);
        lemma_saturated_product(2 * l * k, d);
        lemma_saturated_product(2 * l * k * d, c);
        lemma_saturated_product(2 * l * k * d * c, 2);
        assert(2 * l * k * d * c * 2 == 4 * (l * k * d) * c) by (nonlinear_arith);
    }
    saturating_mul(
        saturating_mul(
            saturating_mul(
                saturating_mul(saturating_mul(2, v.layers as u64), v.kv_heads as u64),
                v.head_dim as u64,
            ),
            context_len as u64,
        ),
        2,
    )
}

/// Bytes of the weights.
fn weights_bytes(v: &ModelVariant) -> (r: u64)
    ensures
        r == weights_of(v@),
{
    Double::of_ratio(v.params_total, 1).times(bits_number(v.bpw)).over(
        Double::of_ratio(8, 1),
    ).to_u64()
}

fn overhead_bytes(weights: u64) -> (r: u64)
    ensures
        r == overhead_of(weights),
{
    let share: u64 = Double::of_ratio(weights, 1).times(Double::of_ratio(1, 20)).to_u64();
    OVERHEAD_BASE_BYTES.saturating_add(share)
}

fn verdict(total: u64, budget: &MemoryBudget) -> (r: FitVerdict)
    ensures
        r == verdict_of(total as nat, *budget),
{
    let tunable: u64 = budget.ram_total_bytes.saturating_sub(SYSCTL_TUNING_RESERVE_BYTES);
    if total <= budget.gpu_effective_bytes {
        FitVerdict::FitsGpu
    } else if total <= tunable {
        FitVerdict::FitsWithSysctlTuning
    } else if total <= budget.ram_total_bytes {
        FitVerdict::FitsRamOnly
    } else {
        FitVerdict::DoesNotFit
    }
}

/// Memory that a variant takes with a context, and whether this machine has it.
pub fn estimate_memory(v: &ModelVariant, context_len: u32, budget: &MemoryBudget) -> (r:
    MemoryEstimate)
    ensures
        r == memory_of(v@, context_len as nat, *budget),
{
    let weights: u64 = weights_bytes(v);
    let kv: u64 = kv_cache_bytes(v, context_len);
    let overhead: u64 = overhead_bytes(weights);
    let total: u64 = weights.saturating_add(kv).saturating_add(overhead);
    MemoryEstimate {
        weights_bytes: weights,
        kv_cache_bytes: kv,
        overhead_bytes: overhead,
        total_bytes: total,
        gpu_limit_bytes: budget.gpu_effective_bytes,
        verdict: verdict(total, budget),
    }
}

/// How far down the ladder of verdicts one stands.
pub open spec fn rung(v: FitVerdict) -> int {
    match v {
        FitVerdict::FitsGpu => 0,
        FitVerdict::FitsWithSysctlTuning => 1,
        FitVerdict::FitsRamOnly => 2,
        FitVerdict::DoesNotFit => 3,
    }
}

/// A smaller total never gets a worse verdict.
pub proof fn less_memory_fits_better(a: nat, b: nat, budget: MemoryBudget)
    requires
        a <= b,
    ensures
        rung(verdict_of(a, budget)) <= rung(verdict_of(b, budget)),
{
}

/// A machine whose GPU limit is within its memory does not fit exactly what
/// exceeds its memory.
pub proof fn no_fit_means_beyond_memory(total: nat, budget: MemoryBudget)
    requires
        budget.gpu_effective_bytes <= budget.ram_total_bytes,
    ensures
        verdict_of(total, budget) == FitVerdict::DoesNotFit <==> total > budget.ram_total_bytes,
{
}

/// The cache is in proportion to the context until it exceeds every number.
pub proof fn cache_is_linear(v: Figures, context: nat)
    requires
        kv_bytes_per_token(v) * context <= u64::MAX,
    ensures
        kv_bytes(v, context) == context * kv_bytes(v, 1) || context == 0,
{
    if context > 0 {
        let k = kv_bytes_per_token(v);
        assert(k * context >= k) by (nonlinear_arith)
            requires
                context >= 1,
        ;
        assert(k * 1 == k);
        assert(k * context == context * k) by (nonlinear_arith);
    }
}

/// The cells of a cache: one per layer, head, place in the head and token.
spec fn cells(v: Figures, context: nat) -> nat {
    v.layers as nat * v.kv_heads as nat * v.head_dim as nat * context
}

proof fn lemma_cells(v: Figures, context: nat)
    ensures
        kv_bytes_per_token(v) * context == 4 * cells(v, context),
{
    let (l, k, d) = (v.layers as nat, v.kv_heads as nat, v.head_dim as nat);
    assert(4 * (l * k * d) * context == 4 * (l * k * d * context)) by (nonlinear_arith);
}

/// One layer with one head, one wide, takes four bytes for a token: a key and
/// a value of two bytes each.
pub proof fn one_cell_takes_four_bytes(v: Figures)
    requires
        v.layers == 1,
        v.kv_heads == 1,
        v.head_dim == 1,
    ensures
        kv_bytes(v, 1) == 4,
{
    lemma_cells(v, 1);
    assert(1nat * 1nat * 1nat * 1nat == 1) by (nonlinear_arith);
}

/// As long as no cache exceeds every number, the cache is in proportion to the
/// layers, to the heads, to their width and to the context: two caches are to
/// each other as the products of these four are.
pub proof fn cache_is_in_proportion(v: Figures, a: nat, w: Figures, b: nat)
    requires
        kv_bytes(v, a) < u64::MAX,
        kv_bytes(w, b) < u64::MAX,
    ensures
        kv_bytes(v, a) * (w.layers * w.kv_heads * w.head_dim * b) == kv_bytes(w, b) * (v.layers
            * v.kv_heads * v.head_dim * a),
{
    lemma_cells(v, a);
    lemma_cells(w, b);
    let (x, y) = (cells(v, a), cells(w, b));
    assert(4 * x * y == 4 * y * x) by (nonlinear_arith);
}

/// What doubles one of the layers, the heads, their width or the context
/// doubles the cache.
pub proof fn twice_a_figure_takes_twice(v: Figures, a: nat, w: Figures, b: nat)
    requires
        kv_bytes(w, b) < u64::MAX,
        ({
            ||| w == (Figures { layers: w.layers, ..v }) && w.layers == 2 * v.layers && a == b
            ||| w == (Figures { kv_heads: w.kv_heads, ..v }) && w.kv_heads == 2 * v.kv_heads && a
                == b
            ||| w == (Figures { head_dim: w.head_dim, ..v }) && w.head_dim == 2 * v.head_dim && a
                == b
            ||| w == v && b == 2 * a
        }),
    ensures
        kv_bytes(w, b) == 2 * kv_bytes(v, a),
{
    lemma_cells(v, a);
    lemma_cells(w, b);
    let (l, k, d) = (v.layers as nat, v.kv_heads as nat, v.head_dim as nat);
    assert(2 * l * k * d * a == 2 * (l * k * d * a)) by (nonlinear_arith);
    assert(l * (2 * k) * d * a == 2 * (l * k * d * a)) by (nonlinear_arith);
    assert(l * k * (2 * d) * a == 2 * (l * k * d * a)) by (nonlinear_arith);
    assert(l * k * d * (2 * a) == 2 * (l * k * d * a)) by (nonlinear_arith);
}

/// A cache takes four bytes for each layer, head, place in the head and token,
/// or all the bytes that can be counted; never more than that.
pub proof fn cache_is_never_more(v: Figures, context: nat)
    ensures
        kv_bytes(v, context) <= 4 * (v.layers * v.kv_heads * v.head_dim * context),
        kv_bytes(v, context) < 4 * (v.layers * v.kv_heads * v.head_dim * context) ==> kv_bytes(
            v,
            context,
        ) == u64::MAX,
{
    lemma_cells(v, context);
}

/// No figure that grows makes the cache smaller.
pub proof fn larger_figures_take_no_less(v: Figures, a: nat, w: Figures, b: nat)
    requires
        v.layers <= w.layers,
        v.kv_heads <= w.kv_heads,
        v.head_dim <= w.head_dim,
        a <= b,
    ensures
        kv_bytes(v, a) <= kv_bytes(w, b),
{
    lemma_cells(v, a);
    lemma_cells(w, b);
    let (l, k, d) = (v.layers as nat, v.kv_heads as nat, v.head_dim as nat);
    let (m, j, e) = (w.layers as nat, w.kv_heads as nat, w.head_dim as nat);
    assert(l * k <= m * j) by (nonlinear_arith)
        requires
            l <= m,
            k <= j,
    ;
    assert(l * k * d <= m * j * e) by (nonlinear_arith)
        requires
            l * k <= m * j,
            d <= e,
    ;
    assert(l * k * d * a <= m * j * e * b) by (nonlinear_arith)
        requires
            l * k * d <= m * j * e,
            a <= b,
    ;
}

/// More context never takes less memory.
pub proof fn longer_context_takes_no_less(v: Figures, a: nat, b: nat)
    requires
        a <= b,
    ensures
        kv_bytes(v, a) <= kv_bytes(v, b),
        total_of(v, a) <= total_of(v, b),
{
    let k = kv_bytes_per_token(v);
    assert(k * a <= k * b) by (nonlinear_arith)
        requires
            a <= b,
    ;
}

/// Of two variants of one model, the one with more bits per weight never takes
/// less memory.
pub proof fn more_bits_take_no_less(v: Figures, w: Figures, context: nat)
    requires
        v.params_total == w.params_total,
        v.layers == w.layers,
        v.kv_heads == w.kv_heads,
        v.head_dim == w.head_dim,
        v.bpw <= w.bpw,
    ensures
        weights_of(v) <= weights_of(w),
        total_of(v, context) <= total_of(w, context),
{
    let n = nearest(v.params_total as nat, 1);
    let (a, b) = (bits_of(v.bpw), bits_of(w.bpw));
    nearest_keeps_order(v.params_total as nat, v.params_total as nat, 1);
    nearest_keeps_order(v.bpw as nat, w.bpw as nat, BIT as nat);
    nearest_keeps_order(8, 8, 1);
    product_keeps_order(a, b, n);
    lemma_less(b, b);
    product_keeps_order(b, b, n);
    assert(a.0 * n.0 == n.0 * a.0) by (nonlinear_arith);
    assert(b.0 * n.0 == n.0 * b.0) by (nonlinear_arith);
    let (p, q) = (product(n, a), product(n, b));
    quotient_keeps_order(p, q, nearest(8, 1));
    lemma_less(q, q);
    quotient_keeps_order(q, q, nearest(8, 1));
    whole_part_keeps_order(quotient(p, nearest(8, 1)), quotient(q, nearest(8, 1)));
    let (x, y) = (weights_of(v) as nat, weights_of(w) as nat);
    assert(x <= y);
    nearest_keeps_order(x, y, 1);
    nearest_keeps_order(1, 1, 20);
    product_keeps_order(nearest(x, 1), nearest(y, 1), nearest(1, 20));
    lemma_less(nearest(y, 1), nearest(y, 1));
    product_keeps_order(nearest(y, 1), nearest(y, 1), nearest(1, 20));
    whole_part_keeps_order(
        product(nearest(x, 1), nearest(1, 20)),
        product(nearest(y, 1), nearest(1, 20)),
    );
    assert(kv_bytes(v, context) == kv_bytes(w, context));
}

/// The weights take all the parameters times the bits per weight, over eight,
/// in bytes: less one byte, and but for ten parts in 2^53; they take less only
/// where that is more than every number.
pub proof fn weights_are_parameters_times_bits(v: Figures)
    ensures
        PARTS * (weights_of(v) * (8 * BIT)) <= (PARTS + 10) * (v.params_total * v.bpw),
        weights_of(v) < u64::MAX ==> (PARTS - 10) * (v.params_total * v.bpw) < PARTS * ((weights_of(
            v,
        ) + 1) * (8 * BIT)),
{
    let (p, w) = (v.params_total as nat, v.bpw as nat);
    let (x, y) = (nearest(p, 1), bits_of(v.bpw));
    let bytes = quotient(product(x, y), nearest(8, 1));
    nearest_is_close(8, 1);
    if p > 0 && w > 0 {
        nearest_is_close(p, 1);
        nearest_is_close(w, BIT as nat);
        product_is_close(x, y, p, 1, w, BIT as nat, 1, 1);
        quotient_is_close(product(x, y), nearest(8, 1), p * w, 1 * BIT as nat, 8, 1, 5, 1);
        whole_part_of_close(bytes, p * w * 1, 1 * BIT as nat * 8, 10);
        saturated_is_no_more(whole_part(bytes), 1 * BIT as nat * 8, (PARTS + 10) * (p * w * 1));
    } else {
        assert(p * w == 0) by (nonlinear_arith)
            requires
                p == 0 || w == 0,
        ;
        assert(x.0 * y.0 == 0) by (nonlinear_arith)
            requires
                x.0 == 0 || y.0 == 0,
        ;
        assert(bytes == (0nat, 0int));
    }
}

/// The overhead is 500 MiB and a twentieth of the weights: less one byte, and
/// but for five parts in 2^53.
pub proof fn overhead_is_flat_and_a_twentieth(weights: u64)
    ensures
        overhead_of(weights) >= 500 * 1024 * 1024,
        PARTS * (20 * (overhead_of(weights) - 500 * 1024 * 1024)) <= (PARTS + 5) * weights,
        (PARTS - 5) * weights < PARTS * (20 * (overhead_of(weights) - 500 * 1024 * 1024 + 1)),
{
    let w = weights as nat;
    let (x, y) = (nearest(w, 1), nearest(1, 20));
    let share = product(x, y);
    if w > 0 {
        nearest_is_close(w, 1);
        nearest_is_close(1, 20);
        product_is_close(x, y, w, 1, 1, 20, 1, 1);
        whole_part_of_close(share, w * 1, 1 * 20, 5);
    } else {
        assert(share == (0nat, 0int));
    }
}

/// All the memory is the weights, the cache and the overhead, up to the
/// greatest number; the verdict is the one on their sum.
pub proof fn memory_adds_up(v: Figures, context: nat, budget: MemoryBudget)
    ensures
        ({
            let m = memory_of(v, context, budget);
            let all = m.weights_bytes + m.kv_cache_bytes + m.overhead_bytes;
            &&& m.total_bytes == if all <= u64::MAX {
                all
            } else {
                u64::MAX as int
            }
            &&& m.gpu_limit_bytes == budget.gpu_effective_bytes
            &&& m.verdict == verdict_of(m.total_bytes as nat, budget)
            &&& m.kv_cache_bytes == kv_bytes(v, context)
            &&& m.weights_bytes == weights_of(v)
        }),
{
}

/// What each verdict promises: to fit the GPU is to stay within its limit, to
/// fit with the limit tuned leaves 4 GiB of the memory free, to fit the memory
/// alone does not, and what does not fit exceeds them all.
pub proof fn verdicts_keep_their_promise(total: nat, budget: MemoryBudget)
    ensures
        ({
            let (gpu, ram) = (budget.gpu_effective_bytes, budget.ram_total_bytes);
            let free = 4 * 1024 * 1024 * 1024;
            match verdict_of(total, budget) {
                FitVerdict::FitsGpu => total <= gpu,
                FitVerdict::FitsWithSysctlTuning => total > gpu && ram - total >= free,
                FitVerdict::FitsRamOnly => total > gpu && 0 <= ram - total < free,
                FitVerdict::DoesNotFit => total > gpu && total > ram,
            }
        }),
{
}

/// A larger limit and more memory never make a verdict worse.
pub proof fn larger_machine_fits_no_worse(total: nat, budget: MemoryBudget, larger: MemoryBudget)
    requires
        budget.gpu_effective_bytes <= larger.gpu_effective_bytes,
        budget.ram_total_bytes <= larger.ram_total_bytes,
    ensures
        rung(verdict_of(total, larger)) <= rung(verdict_of(total, budget)),
{
}

// ---------------------------------------------------------------------------
// Context
// ---------------------------------------------------------------------------

/// The longest context from `least` up to `c` that fits the GPU; `least` if
/// none does.
pub open spec fn longest_fit(v: Figures, budget: MemoryBudget, least: nat, c: nat) -> nat
    decreases c,
{
    if c <= least {
        least
    } else if total_of(v, c) <= budget.gpu_effective_bytes {
        c
    } else {
        longest_fit(v, budget, least, (c - 1) as nat)
    }
}

/// The context to launch with: the one that was asked for; else the longest up
/// to the model's own that fits the GPU, and never less than the default
/// context, as far as the model has that.
pub open spec fn resolved_ctx(
    requested: Option<u32>,
    v: Figures,
    budget: MemoryBudget,
    context_max: u32,
) -> u32 {
    match requested {
        Some(c) => c,
        None => longest_fit(
            v,
            budget,
            if context_max < DEFAULT_CONTEXT {
                context_max as nat
            } else {
                DEFAULT_CONTEXT as nat
            },
            context_max as nat,
        ) as u32,
    }
}

proof fn lemma_longest_fit(v: Figures, budget: MemoryBudget, least: nat, c: nat, r: nat)
    requires
        least <= r <= c,
        r > least ==> total_of(v, r) <= budget.gpu_effective_bytes,
        forall|d: nat| r < d <= c ==> (#[trigger] total_of(v, d)) > budget.gpu_effective_bytes,
    ensures
        longest_fit(v, budget, least, c) == r,
    decreases c,
{
    if c > r {
        assert(total_of(v, c) > budget.gpu_effective_bytes);
        lemma_longest_fit(v, budget, least, (c - 1) as nat, r);
    }
}

/// The context to launch with.
pub fn resolve_ctx(
    requested: Option<u32>,
    v: &ModelVariant,
    budget: &MemoryBudget,
    context_max: u32,
) -> (r: u32)
    ensures
        r == resolved_ctx(requested, v@, *budget, context_max),
{
    if let Some(c) = requested {
        return c;
    }
    let least: u32 = if context_max < DEFAULT_CONTEXT {
        context_max
    } else {
        DEFAULT_CONTEXT
    };
    let mut lo: u32 = least;
    let mut hi: u32 = context_max;
    while lo < hi
        invariant
            least <= lo <= hi <= context_max,
            lo > least ==> total_of(v@, lo as nat) <= budget.gpu_effective_bytes,
            forall|c: nat|
                hi < c <= context_max ==> (#[trigger] total_of(v@, c))
                    > budget.gpu_effective_bytes,
        decreases hi - lo,
    {
        let mid: u32 = hi - (hi - lo) / 2;
        let m = estimate_memory(v, mid, budget);
        if m.total_bytes <= budget.gpu_effective_bytes {
            lo = mid;
        } else {
            assert forall|c: nat| mid <= c <= context_max implies (#[trigger] total_of(v@, c))
                > budget.gpu_effective_bytes by {
                longer_context_takes_no_less(v@, mid as nat, c);
            }
            hi = mid - 1;
        }
    }
    proof {
        lemma_longest_fit(v@, *budget, least as nat, context_max as nat, lo as nat);
    }
    lo
}

/// A context that was asked for is the one to launch with, whatever fits. One
/// that was sized is within the model's own, and is the default at least where
/// the model has so much.
pub proof fn context_is_asked_for_or_sized(
    asked: u32,
    v: Figures,
    budget: MemoryBudget,
    context_max: u32,
)
    ensures
        resolved_ctx(Some(asked), v, budget, context_max) == asked,
        resolved_ctx(None, v, budget, context_max) <= context_max,
        context_max >= 8192 ==> resolved_ctx(None, v, budget, context_max) >= 8192,
        context_max < 8192 ==> resolved_ctx(None, v, budget, context_max) == context_max,
{
    let least = if context_max < DEFAULT_CONTEXT {
        context_max as nat
    } else {
        DEFAULT_CONTEXT as nat
    };
    lemma_fit_range(v, budget, least, context_max as nat);
}

/// A context that was sized and exceeds the default fits the GPU, and no
/// longer one that the model has does.
pub proof fn sized_context_fits(v: Figures, budget: MemoryBudget, context_max: u32)
    ensures
        ({
            let c = resolved_ctx(None, v, budget, context_max) as nat;
            &&& c <= context_max
            &&& c > DEFAULT_CONTEXT ==> total_of(v, c) <= budget.gpu_effective_bytes
            &&& forall|longer: nat|
                c < longer <= context_max ==> (#[trigger] total_of(v, longer))
                    > budget.gpu_effective_bytes
        }),
{
    let least = if context_max < DEFAULT_CONTEXT {
        context_max as nat
    } else {
        DEFAULT_CONTEXT as nat
    };
    lemma_fit_range(v, budget, least, context_max as nat);
    let c = resolved_ctx(None, v, budget, context_max) as nat;
    assert forall|longer: nat| c < longer <= context_max implies (#[trigger] total_of(v, longer))
        > budget.gpu_effective_bytes by {
        lemma_fit_bounds(v, budget, least, context_max as nat, longer);
    }
}

proof fn lemma_fit_bounds(v: Figures, budget: MemoryBudget, least: nat, c: nat, longer: nat)
    requires
        least <= c,
        longest_fit(v, budget, least, c) < longer <= c,
    ensures
        least <= longest_fit(v, budget, least, c) <= c,
        total_of(v, longer) > budget.gpu_effective_bytes,
        longest_fit(v, budget, least, c) > least ==> total_of(
            v,
            longest_fit(v, budget, least, c),
        ) <= budget.gpu_effective_bytes,
    decreases c,
{
    if c > least && total_of(v, c) > budget.gpu_effective_bytes {
        if longer < c {
            lemma_fit_bounds(v, budget, least, (c - 1) as nat, longer);
        } else {
            lemma_fit_range(v, budget, least, (c - 1) as nat);
        }
    }
}

proof fn lemma_fit_range(v: Figures, budget: MemoryBudget, least: nat, c: nat)
    requires
        least <= c,
    ensures
        least <= longest_fit(v, budget, least, c) <= c,
        longest_fit(v, budget, least, c) > least ==> total_of(
            v,
            longest_fit(v, budget, least, c),
        ) <= budget.gpu_effective_bytes,
    decreases c,
{
    if c > least && total_of(v, c) > budget.gpu_effective_bytes {
        lemma_fit_range(v, budget, least, (c - 1) as nat);
    }
}

// ---------------------------------------------------------------------------
// Speed
// ---------------------------------------------------------------------------

/// The tier of a speed: above 30 tokens per second, from 15, from 5, below.
pub open spec fn tier_of(tps: (nat, int)) -> SpeedTier {
    if above(tps, 30) {
        SpeedTier::Instant
    } else if at_least(tps, 15) {
        SpeedTier::Smooth
    } else if at_least(tps, 5) {
        SpeedTier::Usable
    } else {
        SpeedTier::Slow
    }
}

impl SpeedTier {
    /// The tier of a speed. Exactly 30 and exactly 15 are smooth, exactly 5 is
    /// usable.
    pub fn from_tps(tps: Double) -> (r: SpeedTier)
        requires
            tps.wf(),
        ensures
            r == tier_of(tps@),
    {
        if tps.is_above(30) {
            SpeedTier::Instant
        } else if tps.is_at_least(15) {
            SpeedTier::Smooth
        } else if tps.is_at_least(5) {
            SpeedTier::Usable
        } else {
            SpeedTier::Slow
        }
    }

    pub fn label(&self) -> (r: &'static str)
        ensures
            r@ == tier_label(*self),
    {
        match self {
            SpeedTier::Instant => "instant",
            SpeedTier::Smooth => "smooth",
            SpeedTier::Usable => "usable",
            SpeedTier::Slow => "slow",
        }
    }
}

pub open spec fn tier_label(t: SpeedTier) -> Seq<char> {
    match t {
        SpeedTier::Instant => "instant"@,
        SpeedTier::Smooth => "smooth"@,
        SpeedTier::Usable => "usable"@,
        SpeedTier::Slow => "slow"@,
    }
}

/// How good a tier is.
pub open spec fn tier_rank(t: SpeedTier) -> int {
    match t {
        SpeedTier::Slow => 0,
        SpeedTier::Usable => 1,
        SpeedTier::Smooth => 2,
        SpeedTier::Instant => 3,
    }
}

/// A faster speed never gets a slower tier.
pub proof fn faster_is_no_worse_a_tier(t: (nat, int), u: (nat, int))
    requires
        is_number(t),
        is_number(u),
        at_most(t, u),
    ensures
        tier_rank(tier_of(t)) <= tier_rank(tier_of(u)),
{
    lemma_thresholds(t, u, 30);
    lemma_thresholds(t, u, 15);
    lemma_thresholds(t, u, 5);
}

/// Every speed above 30 is instant, every one from 15 to 30 smooth, from 5 up
/// to 15 usable, and below 5 slow: with the speed as `m / d`, for instance a
/// mantissa over a power of two.
pub proof fn tiers_have_their_bounds(x: (nat, int), m: nat, d: nat)
    requires
        x.1 >= 0 ==> m == x.0 * pow2(x.1 as nat) && d == 1,
        x.1 < 0 ==> m == x.0 && d == pow2((-x.1) as nat),
    ensures
        m > 30 * d <==> tier_of(x) == SpeedTier::Instant,
        15 * d <= m <= 30 * d <==> tier_of(x) == SpeedTier::Smooth,
        5 * d <= m < 15 * d <==> tier_of(x) == SpeedTier::Usable,
        m < 5 * d <==> tier_of(x) == SpeedTier::Slow,
{
}

/// Each tier has a label of its own.
pub proof fn tier_labels_differ(a: SpeedTier, b: SpeedTier)
    requires
        tier_label(a) == tier_label(b),
    ensures
        a == b,
{
    reveal_strlit("instant");
    reveal_strlit("smooth");
    reveal_strlit("usable");
    reveal_strlit("slow");
    assert("instant"@.len() == 7);
    assert("slow"@.len() == 4);
    assert("smooth"@[0] == 's');
    assert("usable"@[0] == 'u');
    assert("smooth"@.len() == 6);
}

/// Share of the bandwidth that the kernels reach, for dense models and for
/// mixtures of experts, whose routing scatters the reads.
#[derive(Debug, Clone, Copy)]
pub struct SpeedCalibration {
    pub dense: Double,
    pub moe: Double,
}

impl SpeedCalibration {
    /// Shares that a machine can have.
    pub open spec fn wf(&self) -> bool {
        &&& self.dense.wf()
        &&& self.moe.wf()
        &&& -1_200 <= self.dense.exponent <= 1_200
        &&& -1_200 <= self.moe.exponent <= 1_200
    }

    /// The share that applies to a variant: one with fewer active parameters
    /// than parameters is a mixture of experts.
    pub fn for_variant(&self, v: &ModelVariant) -> (r: Double)
        ensures
            r == share_of(*self, v@),
    {
        if v.params_active < v.params_total {
            self.moe
        } else {
            self.dense
        }
    }
}

pub open spec fn share_of(c: SpeedCalibration, v: Figures) -> Double {
    if v.params_active < v.params_total {
        c.moe
    } else {
        c.dense
    }
}

impl Default for SpeedCalibration {
    /// Three quarters for dense models, three tenths for mixtures of experts.
    fn default() -> (r: SpeedCalibration)
        ensures
            r.dense@ == nearest(3, 4),
            r.moe@ == nearest(3, 10),
            r.wf(),
            at_most(r.moe@, r.dense@),
    {
        proof {
            default_shares_are_shares();
        }
        SpeedCalibration { dense: Double::of_ratio(3, 4), moe: Double::of_ratio(3, 10) }
    }
}

/// Bytes streamed per token: the active weights and the cache.
pub open spec fn bytes_per_token(v: Figures, kv: u64) -> (nat, int) {
    sum(
        quotient(
            product(nearest(v.params_active as nat, 1), bits_of(v.bpw)),
            nearest(8, 1),
        ),
        nearest(kv as nat, 1),
    )
}

/// Tokens per second with a bandwidth in hundredths of a gigabyte per second.
/// None where the bits per weight are not known, however deep the cache.
pub open spec fn generation_tps(v: Figures, bandwidth: u32, kv: u64, share: (nat, int)) -> (
    nat,
    int,
) {
    let bytes = bytes_per_token(v, kv);
    if v.bpw == 0 || bytes.0 == 0 {
        (0, 0)
    } else {
        product(
            quotient(product(nearest(bandwidth as nat, 100), nearest(1_000_000_000, 1)), bytes),
            share,
        )
    }
}

proof fn lemma_weights_stream(v: Figures)
    ensures
        is_number(
            quotient(
                product(nearest(v.params_active as nat, 1), bits_of(v.bpw)),
                nearest(8, 1),
            ),
        ),
{
    nearest_keeps_order(v.params_active as nat, v.params_active as nat, 1);
    nearest_keeps_order(v.bpw as nat, v.bpw as nat, BIT as nat);
    nearest_keeps_order(8, 8, 1);
    let x = nearest(v.params_active as nat, 1);
    product_keeps_order(x, x, bits_of(v.bpw));
    let y = product(x, bits_of(v.bpw));
    lemma_less(x, x);
    lemma_less(y, y);
    quotient_keeps_order(y, y, nearest(8, 1));
}

/// A deeper cache never makes generation faster.
pub proof fn deeper_cache_is_no_faster(
    v: Figures,
    bandwidth: u32,
    kv: u64,
    deeper: u64,
    share: (nat, int),
)
    requires
        kv <= deeper,
        is_number(share),
        v.bpw == 0 || bytes_per_token(v, kv).0 != 0,
    ensures
        at_most(
            generation_tps(v, bandwidth, deeper, share),
            generation_tps(v, bandwidth, kv, share),
        ),
{
    if v.bpw == 0 {
        lemma_less((0, 0), (0, 0));
    } else {
        lemma_weights_stream(v);
        nearest_keeps_order(kv as nat, deeper as nat, 1);
        nearest_keeps_order(deeper as nat, deeper as nat, 1);
        let weights = quotient(
            product(nearest(v.params_active as nat, 1), bits_of(v.bpw)),
            nearest(8, 1),
        );
        let (a, b) = (bytes_per_token(v, kv), bytes_per_token(v, deeper));
        sum_keeps_order(weights, nearest(kv as nat, 1), nearest(deeper as nat, 1));
        lemma_less(nearest(deeper as nat, 1), nearest(deeper as nat, 1));
        sum_keeps_order(weights, nearest(deeper as nat, 1), nearest(deeper as nat, 1));
        lemma_less(b, a);
        nearest_keeps_order(bandwidth as nat, bandwidth as nat, 100);
        nearest_keeps_order(1_000_000_000, 1_000_000_000, 1);
        let base = nearest(bandwidth as nat, 100);
        lemma_less(base, base);
        product_keeps_order(base, base, nearest(1_000_000_000, 1));
        let rate = product(base, nearest(1_000_000_000, 1));
        quotient_reverses_order(rate, a, b);
        lemma_less(b, b);
        quotient_reverses_order(rate, b, b);
        product_keeps_order(quotient(rate, b), quotient(rate, a), share);
    }
}

/// More bandwidth never makes generation slower.
pub proof fn more_bandwidth_is_no_slower(
    v: Figures,
    bandwidth: u32,
    more: u32,
    kv: u64,
    share: (nat, int),
)
    requires
        bandwidth <= more,
        is_number(share),
    ensures
        at_most(
            generation_tps(v, bandwidth, kv, share),
            generation_tps(v, more, kv, share),
        ),
{
    lemma_weights_stream(v);
    nearest_keeps_order(kv as nat, kv as nat, 1);
    let cache = nearest(kv as nat, 1);
    lemma_less(cache, cache);
    let weights = quotient(
        product(nearest(v.params_active as nat, 1), bits_of(v.bpw)),
        nearest(8, 1),
    );
    sum_keeps_order(weights, cache, cache);
    let bytes = bytes_per_token(v, kv);
    if v.bpw != 0 && bytes.0 != 0 {
        nearest_keeps_order(bandwidth as nat, more as nat, 100);
        nearest_keeps_order(1_000_000_000, 1_000_000_000, 1);
        let unit = nearest(1_000_000_000, 1);
        let (a, b) = (nearest(bandwidth as nat, 100), nearest(more as nat, 100));
        lemma_less(b, b);
        product_keeps_order(a, b, unit);
        product_keeps_order(b, b, unit);
        quotient_keeps_order(product(a, unit), product(b, unit), bytes);
        lemma_less(product(b, unit), product(b, unit));
        quotient_keeps_order(product(b, unit), product(b, unit), bytes);
        product_keeps_order(
            quotient(product(a, unit), bytes),
            quotient(product(b, unit), bytes),
            share,
        );
    } else {
        lemma_less((0, 0), (0, 0));
    }
}

/// A variant whose bits per weight are not known is estimated at no speed, in
/// the slowest tier, whatever the bandwidth and the cache.
pub proof fn unknown_bits_have_no_speed(
    v: Figures,
    bandwidth: u32,
    kv: u64,
    share: (nat, int),
    s: SpeedEstimate,
)
    requires
        v.bpw == 0,
        is_speed(s, generation_tps(v, bandwidth, kv, share)),
    ensures
        s.generation_tps@ == (0nat, 0int),
        s.tier == SpeedTier::Slow,
{
}

/// A token streams the active parameters at their bits per weight, over eight,
/// and the cache: in bytes, but for twelve parts in 2^53.
pub proof fn token_streams_active_weights_and_cache(v: Figures, kv: u64)
    requires
        (v.params_active > 0 && v.bpw > 0) || kv > 0,
    ensures
        is_about(
            bytes_per_token(v, kv),
            (v.params_active * v.bpw + 8 * BIT * kv) as nat,
            (8 * BIT) as nat,
            12,
        ),
        v.params_active * v.bpw + 8 * BIT * kv > 0,
{
    let (p, w) = (v.params_active as nat, v.bpw as nat);
    let (x, y) = (nearest(p, 1), bits_of(v.bpw));
    let weights = quotient(product(x, y), nearest(8, 1));
    let cache = nearest(kv as nat, 1);
    let (a, b) = (p * w * 1, (1 * BIT * 8) as nat);
    nearest_is_close(8, 1);
    if p > 0 && w > 0 {
        nearest_is_close(p, 1);
        nearest_is_close(w, BIT as nat);
        product_is_close(x, y, p, 1, w, BIT as nat, 1, 1);
        quotient_is_close(product(x, y), nearest(8, 1), p * w, 1 * BIT as nat, 8, 1, 5, 1);
        lemma_weights_stream(v);
        if kv > 0 {
            nearest_is_close(kv as nat, 1);
            rounded_is_number(kv as nat, 1, 0);
            error_may_grow(cache, kv as nat, 1, 1, 10);
            sum_is_close(weights, cache, a, b, kv as nat, 1, 10);
            assert(a * 1 + kv as nat * b == p * w + 8 * BIT * kv) by (nonlinear_arith)
                requires
                    a == p * w * 1,
                    b == 8 * BIT,
            ;
        } else {
            assert(cache.0 == 0);
            assert(8 * BIT * kv == 0) by (nonlinear_arith)
                requires
                    kv == 0,
            ;
            error_may_grow(weights, a, b, 10, 12);
        }
    } else {
        assert(p * w == 0 && x.0 * y.0 == 0) by (nonlinear_arith)
            requires
                (p == 0 && x.0 == 0) || (w == 0 && y.0 == 0),
        ;
        assert(weights == (0nat, 0int));
        nearest_is_close(kv as nat, 1);
        let k = (8 * BIT * kv) as nat;
        assert(kv as nat * b == k * 1) by (nonlinear_arith)
            requires
                k == 8 * BIT * kv,
                b == 8 * BIT,
        ;
        same_ratio_is_close(cache, kv as nat, 1, k, b, 1);
        error_may_grow(cache, k, b, 1, 12);
        assert(8 * BIT * kv > 0) by (nonlinear_arith)
            requires
                kv > 0,
                BIT > 0,
        ;
    }
}

/// The speed is the bandwidth over the bytes of a token, times the share of the
/// bandwidth that is reached. With the share as a ratio, in tokens per second,
/// but for 41 parts in 2^53; the bandwidth counts hundredths of 10^9 bytes.
pub proof fn speed_is_bandwidth_over_bytes(
    v: Figures,
    bandwidth: u32,
    kv: u64,
    share: (nat, int),
    a: nat,
    b: nat,
)
    requires
        v.bpw > 0,
        v.params_active > 0 || kv > 0,
        bandwidth > 0,
        is_about(share, a, b, 10),
        a > 0,
    ensures
        is_about(
            generation_tps(v, bandwidth, kv, share),
            (bandwidth * 10_000_000 * (8 * BIT) * a) as nat,
            ((v.params_active * v.bpw + 8 * BIT * kv) * b) as nat,
            41,
        ),
{
    token_streams_active_weights_and_cache(v, kv);
    let bytes = bytes_per_token(v, kv);
    let (p, q) = ((v.params_active * v.bpw + 8 * BIT * kv) as nat, (8 * BIT) as nat);
    let (base, giga) = (nearest(bandwidth as nat, 100), nearest(1_000_000_000, 1));
    nearest_is_close(bandwidth as nat, 100);
    nearest_is_close(1_000_000_000, 1);
    product_is_close(base, giga, bandwidth as nat, 100, 1_000_000_000, 1, 1, 1);
    let rate = product(base, giga);
    same_ratio_is_close(
        rate,
        bandwidth as nat * 1_000_000_000,
        100 * 1,
        bandwidth as nat * 10_000_000,
        1,
        5,
    );
    let r = bandwidth as nat * 10_000_000;
    quotient_is_close(rate, bytes, r, 1, p, q, 5, 12);
    if bytes.0 == 0 {
        about_something(bytes, p, q, 12);
    }
    product_is_close(quotient(rate, bytes), share, r * q, 1 * p, a, b, 21, 10);
    error_may_grow(generation_tps(v, bandwidth, kv, share), r * q * a, 1 * p * b, 34, 41);
}

/// The default share of a mixture of experts is the lower one, and neither is
/// more than the whole bandwidth.
pub proof fn default_shares_are_shares()
    ensures
        at_most(nearest(3, 10), nearest(3, 4)),
        at_most(nearest(3, 4), nearest(1, 1)),
{
    lemma2_to64();
    assert(pow2(0) == 1);
    assert(3nat * 4nat * 1 <= 3nat * 10nat * 1 && 3nat * 1nat * 1 <= 1nat * 4nat * 1);
    rounding_keeps_order(3, 10, 0, 3, 4, 0, 0);
    rounding_keeps_order(3, 4, 0, 1, 1, 0, 0);
}

/// A variant whose parameters are all active gets the share of dense models,
/// one whose parameters are not the share of the mixtures.
pub proof fn resting_parameters_make_a_mixture(c: SpeedCalibration, v: Figures)
    ensures
        v.params_active >= v.params_total ==> share_of(c, v) == c.dense,
        v.params_active < v.params_total ==> share_of(c, v) == c.moe,
{
}

/// What a speed estimate says for tokens per second.
pub open spec fn is_speed(s: SpeedEstimate, tps: (nat, int)) -> bool {
    &&& s.generation_tps@ == tps
    &&& s.prompt_tps_range.0@ == product(tps, nearest(5, 1))
    &&& s.prompt_tps_range.1@ == product(tps, nearest(10, 1))
    &&& s.tier == tier_of(tps)
}

/// Prompts are processed five to ten times as fast as tokens are generated: the
/// two ends of the range are five and ten times the speed, but for four parts
/// in 2^53 more.
pub proof fn prompts_run_five_to_ten_times_as_fast(
    s: SpeedEstimate,
    tps: (nat, int),
    a: nat,
    b: nat,
    c: nat,
)
    requires
        is_speed(s, tps),
        is_about(tps, a, b, c),
        a > 0,
        c <= 400,
    ensures
        is_about(s.prompt_tps_range.0@, 5 * a, b, c + 4),
        is_about(s.prompt_tps_range.1@, 10 * a, b, c + 4),
{
    nearest_is_close(5, 1);
    nearest_is_close(10, 1);
    product_is_close(tps, nearest(5, 1), a, b, 5, 1, c, 1);
    product_is_close(tps, nearest(10, 1), a, b, 10, 1, c, 1);
    assert(a * 5 == 5 * a && a * 10 == 10 * a && b * 1 == b);
}

/// Generation speed with a bandwidth in hundredths of a gigabyte per second,
/// a key/value cache, and the shares of the bandwidth that this machine reaches.
pub fn estimate_speed_calibrated(
    v: &ModelVariant,
    bandwidth: u32,
    kv_cache_bytes: u64,
    calibration: &SpeedCalibration,
) -> (r: SpeedEstimate)
    requires
        calibration.wf(),
    ensures
        is_speed(r, generation_tps(v@, bandwidth, kv_cache_bytes, share_of(*calibration, v@)@)),
        r.generation_tps.wf(),
        -3_000 <= r.generation_tps.exponent <= 3_000,
{
    let share = calibration.for_variant(v);
    let weights = Double::of_ratio(v.params_active, 1).times(
        bits_number(v.bpw),
    ).over(Double::of_ratio(8, 1));
    let bytes = weights.plus(Double::of_ratio(kv_cache_bytes, 1));
    let tps = if v.bpw != 0 && bytes.mantissa != 0 {
        let bytes_per_second = Double::of_ratio(bandwidth as u64, 100).times(
            Double::of_ratio(1_000_000_000, 1),
        );
        bytes_per_second.over(bytes).times(share)
    } else {
        Double { mantissa: 0, exponent: 0 }
    };
    SpeedEstimate {
        generation_tps: tps,
        prompt_tps_range: (
            tps.times(Double::of_ratio(5, 1)),
            tps.times(Double::of_ratio(10, 1)),
        ),
        tier: SpeedTier::from_tps(tps),
    }
}

/// Generation speed with the default shares of the bandwidth.
pub fn estimate_speed(v: &ModelVariant, bandwidth: u32, kv_cache_bytes: u64) -> (r: SpeedEstimate)
    ensures
        is_speed(
            r,
            generation_tps(
                v@,
                bandwidth,
                kv_cache_bytes,
                if v.params_active < v.params_total {
                    nearest(3, 10)
                } else {
                    nearest(3, 4)
                },
            ),
        ),
        r.generation_tps.wf(),
        -3_000 <= r.generation_tps.exponent <= 3_000,
{
    estimate_speed_calibrated(v, bandwidth, kv_cache_bytes, &SpeedCalibration::default())
}

} // verus!
