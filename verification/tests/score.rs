//! Ranking of variants and models.

use paddock::double::Double;
use paddock::estimate::{estimate_memory, MemoryBudget, ModelVariant, DEFAULT_CONTEXT};
use paddock::score::{
    age_malus, best_variant, fit_subscore, pick_variant, quality_malus, speed_subscore,
    variants_by_quality, weights, UseCase,
};

/// A hundredth of a bit per weight.
const CENT: u64 = 100_000_000_000_000;

/// The double-precision number that a `Double` stands for.
fn f(d: Double) -> f64 {
    d.mantissa as f64 * 2f64.powi(d.exponent)
}

/// The `Double` of a number that is not negative.
fn d(x: f64) -> Double {
    Double::from_bits(x.to_bits()).unwrap_or(Double::of_ratio(0, 1))
}

fn variant(quant: &str, bpw: u64, params: u64) -> ModelVariant {
    ModelVariant {
        model_name: "test".into(),
        quant: quant.into(),
        bpw: bpw * CENT,
        params_total: params,
        params_active: params,
        layers: 32,
        kv_heads: 8,
        head_dim: 128,
        embedding_dim: 4096,
        context_max: 131_072,
    }
}

fn budget() -> MemoryBudget {
    MemoryBudget {
        gpu_effective_bytes: 27 * (1u64 << 30),
        ram_total_bytes: 36 * (1u64 << 30),
    }
}


#[test]
fn best_variant_picks_highest_quant_that_fits_gpu() {
    // 27 GiB GPU limit: Q8_0 of a 32B (~37.3 GB) misses GPU (FitsRamOnly),
    // Q6_K (~29.3 GB) misses GPU (FitsWithSysctlTuning), Q4_K_M (~21.9 GB) fits.
    let variants = vec![
        variant("Q8_0", 850, 32_000_000_000),
        variant("Q6_K", 659, 32_000_000_000),
        variant("Q4_K_M", 483, 32_000_000_000),
        variant("Q2_K", 335, 32_000_000_000),
    ];
    let best = best_variant(&variants, &budget()).unwrap();
    assert_eq!(best.quant, "Q4_K_M");
}

#[test]
fn best_variant_falls_back_when_nothing_fits_gpu() {
    let variants = vec![variant("Q4_K_M", 483, 70_550_000_000)];
    // 70B Q4_K_M (~46.3GB total) doesn't fit 36GB RAM at all => None
    assert!(best_variant(&variants, &budget()).is_none());
    // But a sysctl-tunable one is returned:
    let tunable = vec![variant("Q4_K_M", 483, 45_000_000_000)]; // ~30.1GB total < 34.4GB tunable
    let b2 = best_variant(&tunable, &budget());
    assert!(b2.is_some());
}

#[test]
fn low_quant_gets_quality_malus() {
    assert_eq!(quality_malus(483 * CENT), 0);
    assert_eq!(quality_malus(425 * CENT), 0);
    assert_eq!(quality_malus(391 * CENT), 12);
    assert_eq!(quality_malus(335 * CENT), 25);
}

#[test]
fn doesnotfit_zeroes_fit_subscore() {
    let huge = variant("Q4_K_M", 483, 70_550_000_000);
    let m = estimate_memory(&huge, DEFAULT_CONTEXT, &budget());
    assert_eq!(f(fit_subscore(&m)), 0.0);
}

#[test]
fn fitting_the_gpu_scores_85_and_headroom() {
    let m = estimate_memory(&variant("Q4_K_M", 483, 8_030_000_000), DEFAULT_CONTEXT, &budget());
    let margin = 1.0 - m.total_bytes as f64 / m.gpu_limit_bytes as f64;
    assert!((f(fit_subscore(&m)) - (85.0 + 15.0 * margin)).abs() < 1e-9);
}

#[test]
fn no_speed_scores_nothing() {
    assert_eq!(f(speed_subscore(d(0.0))), 0.0);
    assert!(f(speed_subscore(d(10.0))) < f(speed_subscore(d(20.0))));
    assert_eq!(f(speed_subscore(d(1000.0))), 100.0);
}

#[test]
fn weights_sum_to_100() {
    for uc in [
        UseCase::General,
        UseCase::Coding,
        UseCase::Chat,
        UseCase::Reasoning,
    ] {
        let w = weights(uc);
        assert_eq!(w.fit + w.speed + w.quality + w.context, 100);
    }
}

#[test]
fn quality_sinks_with_age() {
    let day = 86_400;
    assert_eq!(f(age_malus(None)), 0.0);
    assert_eq!(f(age_malus(Some(-day))), 0.0);
    assert_eq!(f(age_malus(Some(180 * day))), 0.0);
    assert_eq!(f(age_malus(Some(547 * day + day / 2))), 10.0);
    assert_eq!(f(age_malus(Some(3650 * day))), 20.0);
}

#[test]
fn variants_from_the_best_down() {
    let vs = vec![
        variant("Q2_K", 335, 1),
        variant("Q8_0", 850, 1),
        variant("Q4_K_M", 483, 1),
        variant("Q6_K", 659, 1),
    ];
    assert_eq!(variants_by_quality(&vs), vec![1, 3, 2, 0]);
}

#[test]
fn unfit_models_show_their_smallest_variant() {
    let vs = vec![variant("Q8_0", 850, 700_000_000_000), variant("Q2_K", 335, 700_000_000_000)];
    assert_eq!(pick_variant(&vs, &budget(), false), None);
    assert_eq!(pick_variant(&vs, &budget(), true), Some(1));
}
