//! Memory and speed of a model.

use paddock::catalog::quant_bpw;
use paddock::double::Double;
use paddock::estimate::{
    estimate_memory, estimate_speed, estimate_speed_calibrated, kv_cache_bytes, resolve_ctx,
    FitVerdict, MemoryBudget, ModelVariant, SpeedCalibration, SpeedTier,
};

/// A hundredth of a bit per weight.
const CENT: u64 = 100_000_000_000_000;

/// The double-precision number that a `Double` stands for.
fn f(d: Double) -> f64 {
    d.mantissa as f64 * 2f64.powi(d.exponent)
}

/// The `Double` of a number that is not negative.
fn d(x: f64) -> Double {
    Double::from_bits(x.to_bits()).unwrap_or(Double::of_ratio(0, 1))
}

fn llama31_8b_q4km() -> ModelVariant {
    ModelVariant {
        model_name: "llama-3.1-8b".into(),
        quant: "Q4_K_M".into(),
        bpw: 483 * CENT,
        params_total: 8_030_000_000,
        params_active: 8_030_000_000,
        layers: 32,
        kv_heads: 8,
        head_dim: 128,
        embedding_dim: 4096,
        context_max: 131_072,
    }
}

fn llama31_70b_q4km() -> ModelVariant {
    ModelVariant {
        model_name: "llama-3.1-70b".into(),
        quant: "Q4_K_M".into(),
        bpw: 483 * CENT,
        params_total: 70_550_000_000,
        params_active: 70_550_000_000,
        layers: 80,
        kv_heads: 8,
        head_dim: 128,
        embedding_dim: 8192,
        context_max: 131_072,
    }
}

/// M2 Max 36 GB: 400 GB/s, Metal limit ~27 GB.
fn m2_max_36gb() -> MemoryBudget {
    MemoryBudget {
        gpu_effective_bytes: 27 * (1u64 << 30),
        ram_total_bytes: 36 * (1u64 << 30),
    }
}

#[test]
fn speed_decays_with_kv_cache_depth() {
    let v = llama31_8b_q4km();
    let empty = f(estimate_speed(&v, 40_000, 0).generation_tps);
    let deep = f(estimate_speed(&v, 40_000, 1_000_000_000).generation_tps); // ~8k ctx
    assert!(deep < empty);
    // 8B Q4_K_M: ~4.85 GB of weights + ~1 GB of cache per token.
    let weights = 8_030_000_000.0 * 4.83 / 8.0;
    let expected_ratio = weights / (weights + 1_000_000_000.0);
    assert!(
        (deep / empty - expected_ratio).abs() < 0.02,
        "deep/empty = {}, expected ~{expected_ratio}",
        deep / empty
    );
}

#[test]
fn speed_8b_q4km_on_m2_max_within_field_range() {
    let s = estimate_speed(&llama31_8b_q4km(), 40_000, 0);
    assert!(
        f(s.generation_tps) > 55.0 && f(s.generation_tps) < 70.0,
        "got {}",
        f(s.generation_tps)
    );
    assert_eq!(s.tier, SpeedTier::Instant);
    assert!(f(s.prompt_tps_range.0) >= 5.0 * f(s.generation_tps) - 1e-6);
    assert!(f(s.prompt_tps_range.1) <= 10.0 * f(s.generation_tps) + 1e-6);
}

#[test]
fn memory_70b_q4km_does_not_fit_36gb() {
    let m = estimate_memory(&llama31_70b_q4km(), 8192, &m2_max_36gb());
    // ~42.6 GB of weights alone > 36 GB RAM
    assert_eq!(m.verdict, FitVerdict::DoesNotFit);
    assert!(m.weights_bytes > 40_000_000_000);
}

#[test]
fn kv_cache_8b_gqa_at_8k_under_1_1_gb() {
    let m = estimate_memory(&llama31_8b_q4km(), 8192, &m2_max_36gb());
    // 2 * 32 layers * 8 kv_heads * 128 head_dim * 8192 ctx * 2 bytes = 1.0 GiB
    assert!(m.kv_cache_bytes < 1_100_000_000, "got {}", m.kv_cache_bytes);
    assert!(m.kv_cache_bytes > 900_000_000);
}

#[test]
fn kv_cache_is_gqa_aware() {
    let mut mha = llama31_8b_q4km();
    mha.kv_heads = 32; // pretend MHA instead of GQA
    let gqa = estimate_memory(&llama31_8b_q4km(), 8192, &m2_max_36gb());
    let full = estimate_memory(&mha, 8192, &m2_max_36gb());
    assert_eq!(full.kv_cache_bytes, gqa.kv_cache_bytes * 4);
}

#[test]
fn verdict_ladder() {
    let v = llama31_8b_q4km(); // total ~5.6 GB
    let tight = MemoryBudget {
        gpu_effective_bytes: 5 * (1u64 << 30),
        ram_total_bytes: 16 * (1u64 << 30),
    };
    // Does not fit 5 GiB GPU limit but fits RAM-4GiB => sysctl tuning
    assert_eq!(
        estimate_memory(&v, 8192, &tight).verdict,
        FitVerdict::FitsWithSysctlTuning
    );
    let tiny = MemoryBudget {
        gpu_effective_bytes: 4 * (1u64 << 30),
        ram_total_bytes: 7 * (1u64 << 30),
    };
    // Fits in 7 GiB RAM total, but not in ram-4GiB tunable window => ram only (partial offload)
    assert_eq!(
        estimate_memory(&v, 8192, &tiny).verdict,
        FitVerdict::FitsRamOnly
    );
    let nope = MemoryBudget {
        gpu_effective_bytes: 2 * (1u64 << 30),
        ram_total_bytes: 4 * (1u64 << 30),
    };
    assert_eq!(
        estimate_memory(&v, 8192, &nope).verdict,
        FitVerdict::DoesNotFit
    );
    let roomy = m2_max_36gb();
    assert_eq!(
        estimate_memory(&v, 8192, &roomy).verdict,
        FitVerdict::FitsGpu
    );
}

/// MoE speed = bandwidth over *active* params at the MoE efficiency (0.3),
/// and remains far faster than a dense model of the same *total* size.
#[test]
fn moe_uses_active_params_for_speed() {
    let mut moe = llama31_8b_q4km();
    moe.params_total = 30_000_000_000;
    moe.params_active = 3_000_000_000;
    let moe_speed = f(estimate_speed(&moe, 40_000, 0).generation_tps);
    // (a) 400e9 / (3e9 × 4.83 / 8) × 0.3 ≈ 66 tok/s
    assert!(moe_speed > 60.0 && moe_speed < 72.0, "got {moe_speed}");
    // (b) a dense model of the same TOTAL size would crawl (~16.5 tok/s);
    // the MoE must beat it by a wide margin.
    let mut dense_30b = llama31_8b_q4km();
    dense_30b.params_total = 30_000_000_000;
    dense_30b.params_active = 30_000_000_000;
    let dense_speed = f(estimate_speed(&dense_30b, 40_000, 0).generation_tps);
    assert!(
        moe_speed > dense_speed * 3.0,
        "moe={moe_speed} dense={dense_speed}"
    );
}

/// Field truth (2026-06): Qwen3.6-35B-A3B UD-Q4_K_XL on M5 (153.6 GB/s)
/// measured 22.6 tok/s generation via llama-cli Metal.
#[test]
fn moe_qwen36_35b_on_m5_matches_measurement() {
    let moe = ModelVariant {
        model_name: "qwen3.6-35b-a3b".into(),
        quant: "UD-Q4_K_XL".into(),
        bpw: 518 * CENT,
        params_total: 35_505_251_456,
        params_active: 3_000_000_000,
        layers: 48,
        kv_heads: 4,
        head_dim: 128,
        embedding_dim: 2048,
        context_max: 262_144,
    };
    let s = estimate_speed(&moe, 15_360, 0);
    assert!(
        f(s.generation_tps) > 18.0 && f(s.generation_tps) < 28.0,
        "measured 22.6 tok/s, estimated {}",
        f(s.generation_tps)
    );
}

#[test]
fn kv_cache_saturates_instead_of_wrapping() {
    let mut huge = llama31_8b_q4km();
    huge.layers = u32::MAX;
    huge.kv_heads = u32::MAX;
    huge.head_dim = u32::MAX;
    let m = estimate_memory(&huge, u32::MAX, &m2_max_36gb());
    assert_eq!(m.kv_cache_bytes, u64::MAX);
    assert_eq!(m.verdict, FitVerdict::DoesNotFit);
}

#[test]
fn tiers() {
    assert_eq!(SpeedTier::from_tps(d(45.0)), SpeedTier::Instant);
    assert_eq!(SpeedTier::from_tps(d(20.0)), SpeedTier::Smooth);
    assert_eq!(SpeedTier::from_tps(d(8.0)), SpeedTier::Usable);
    assert_eq!(SpeedTier::from_tps(d(2.0)), SpeedTier::Slow);
}

#[test]
fn hostile_inputs_degrade_gracefully() {
    let mut bad = llama31_8b_q4km();
    bad.bpw = 0;
    let m = estimate_memory(&bad, 8192, &m2_max_36gb());
    assert_eq!(m.weights_bytes, 0);
    let s = estimate_speed(&bad, 40_000, 0);
    assert_eq!(f(s.generation_tps), 0.0);
    assert_eq!(s.tier, SpeedTier::Slow);
    let s2 = estimate_speed(&llama31_8b_q4km(), 0, 0);
    assert!(f(s2.generation_tps) == 0.0);
}

#[test]
fn speed_computes_like_doubles() {
    for (params, bpw, bandwidth, kv) in [
        (8_030_000_000u64, 483u64, 40_000u32, 0u64),
        (8_030_000_000, 483, 40_000, 1_073_741_824),
        (13_015_864_320, 569, 15_360, 3_355_443_200),
        (3, 335, 6_825, 1),
        (u64::MAX, 1600, 81_900, u64::MAX),
    ] {
        let mut v = llama31_8b_q4km();
        v.params_total = params;
        v.params_active = params;
        v.bpw = bpw * CENT;
        let bytes = params as f64 * (bpw as f64 / 100.0) / 8.0 + kv as f64;
        let exact = bandwidth as f64 / 100.0 * 1e9 / bytes * 0.75;
        assert_eq!(f(estimate_speed(&v, bandwidth, kv).generation_tps), exact, "{params} {kv}");
    }
}

#[test]
fn weights_round_like_doubles() {
    for params in [8_030_000_000u64, 1, 7, 70_550_000_000, 35_505_251_456] {
        for bpw in [335u64, 391, 425, 455, 483, 518, 569, 604, 659, 850, 1600] {
            let mut v = llama31_8b_q4km();
            v.params_total = params;
            v.bpw = bpw * CENT;
            let m = estimate_memory(&v, 8192, &m2_max_36gb());
            assert_eq!(m.weights_bytes, (params as f64 * (bpw as f64 / 100.0) / 8.0) as u64);
        }
    }
}

#[test]
fn cache_grows_with_the_context() {
    let v = llama31_8b_q4km();
    assert_eq!(kv_cache_bytes(&v, 8192), 1 << 30);
    assert_eq!(kv_cache_bytes(&v, 16384), 2 << 30);
    assert_eq!(kv_cache_bytes(&v, 0), 0);
}

#[test]
fn longer_context_never_fits_better() {
    let v = llama31_8b_q4km();
    let b = MemoryBudget {
        gpu_effective_bytes: 7 << 30,
        ram_total_bytes: 12 << 30,
    };
    let rank = |x: FitVerdict| match x {
        FitVerdict::FitsGpu => 0,
        FitVerdict::FitsWithSysctlTuning => 1,
        FitVerdict::FitsRamOnly => 2,
        FitVerdict::DoesNotFit => 3,
    };
    let mut last = 0;
    for ctx in [1, 1024, 8192, 16_384, 32_768, 65_536, 131_072] {
        let now = rank(estimate_memory(&v, ctx, &b).verdict);
        assert!(last <= now, "{ctx}");
        last = now;
    }
    assert_eq!(last, 3);
}

#[test]
fn context_is_sized_to_the_memory() {
    let v = llama31_8b_q4km();
    let roomy = m2_max_36gb();
    let ctx = resolve_ctx(None, &v, &roomy, 131_072);
    assert_eq!(ctx, 131_072);
    assert_eq!(resolve_ctx(Some(5), &v, &roomy, 131_072), 5);
    let tight = MemoryBudget {
        gpu_effective_bytes: 8 << 30,
        ram_total_bytes: 16 << 30,
    };
    let ctx = resolve_ctx(None, &v, &tight, 131_072);
    assert!((8_192..131_072).contains(&ctx), "{ctx}");
    assert_eq!(estimate_memory(&v, ctx, &tight).verdict, FitVerdict::FitsGpu);
    assert_ne!(estimate_memory(&v, ctx + 1, &tight).verdict, FitVerdict::FitsGpu);
    let tiny = MemoryBudget {
        gpu_effective_bytes: 1 << 30,
        ram_total_bytes: 2 << 30,
    };
    assert_eq!(resolve_ctx(None, &v, &tiny, 131_072), 8_192);
    assert_eq!(resolve_ctx(None, &v, &tiny, 4_096), 4_096);
}

#[test]
fn calibration_scales_the_speed() {
    let v = llama31_8b_q4km();
    let cal = SpeedCalibration {
        dense: d(0.5),
        moe: d(0.3),
    };
    let s = f(estimate_speed_calibrated(&v, 40_000, 0, &cal).generation_tps);
    assert_eq!(s, 400.0 * 1e9 / (8_030_000_000.0 * 4.83 / 8.0) * 0.5);
}

#[test]
fn unknown_bits_have_no_speed_at_any_depth() {
    let mut bad = llama31_8b_q4km();
    bad.bpw = 0;
    for kv in [0, 1, 1_000_000_000, u64::MAX] {
        let s = estimate_speed(&bad, 40_000, kv);
        assert_eq!(f(s.generation_tps), 0.0);
        assert_eq!((f(s.prompt_tps_range.0), f(s.prompt_tps_range.1)), (0.0, 0.0));
        assert_eq!(s.tier, SpeedTier::Slow);
    }
}

#[test]
fn weights_of_a_dynamic_build_round_like_doubles() {
    let mut v = llama31_8b_q4km();
    v.bpw = quant_bpw("UD-Q6_K_XL").unwrap();
    v.params_total = 1_000_000_000;
    let m = estimate_memory(&v, 8192, &m2_max_36gb());
    assert_eq!(m.weights_bytes, (1e9 * (6.59 + 0.35) / 8.0) as u64);
    assert_eq!(m.weights_bytes, 867_499_999);
}
