//! Calibration by measurement.

use paddock::calibration::{
    default_calibration_path, efficiency_from_measurement, validate_efficiency, CalibrationEntry,
    CalibrationFile, ModelClass,
};
use paddock::double::Double;
use paddock::estimate::ModelVariant;

/// A hundredth of a bit per weight.
const CENT: u64 = 100_000_000_000_000;

/// The double-precision number that a `Double` stands for.
fn f(d: Double) -> f64 {
    d.mantissa as f64 * 2f64.powi(d.exponent)
}

/// The `Double` of a number that is not negative.
fn d(x: f64) -> Double {
    Double::from_bits(x.to_bits()).unwrap_or(Double::of_ratio(0, 1))
}

/// Llama 3.1 8B Q4_K_M on an M2 Max (400 GB/s) measured 62.2 tok/s:
/// bytes/token = 8.03e9 * 4.83 / 8 = 4.848e9, eff = 62.2 * 4.848e9 / 400e9.
#[test]
fn dense_efficiency_from_measurement() {
    let eff = f(efficiency_from_measurement(d(62.2), 8_030_000_000, 483 * CENT, 40_000));
    assert!((eff - 0.754).abs() < 0.002, "got {eff}");
}

/// Qwen3.5 MoE 35B-A3B Q4_K_M on an M5 (153.6 GB/s) measured 38.2 tok/s:
/// bytes/token = 3e9 * 4.83 / 8 = 1.811e9, eff = 38.2 * 1.811e9 / 153.6e9.
#[test]
fn moe_efficiency_uses_active_params() {
    let eff = f(efficiency_from_measurement(d(38.2), 3_000_000_000, 483 * CENT, 15_360));
    assert!((eff - 0.450).abs() < 0.002, "got {eff}");
}

#[test]
fn model_class_from_variant() {
    let mut v = ModelVariant {
        model_name: "m".into(),
        quant: "Q4_K_M".into(),
        bpw: 483 * CENT,
        params_total: 8_000_000_000,
        params_active: 8_000_000_000,
        layers: 32,
        kv_heads: 8,
        head_dim: 128,
        embedding_dim: 4096,
        context_max: 8192,
    };
    assert_eq!(ModelClass::of(&v), ModelClass::Dense);
    assert_eq!(ModelClass::Dense.label(), "dense");
    v.params_active = 3_000_000_000;
    assert_eq!(ModelClass::of(&v), ModelClass::Moe);
    assert_eq!(ModelClass::Moe.label(), "moe");
}

#[test]
fn hostile_measurement_inputs_yield_zero() {
    assert_eq!(Double::from_bits(f64::NAN.to_bits()), None);
    assert_eq!(f(efficiency_from_measurement(d(f64::NAN), 1, 400 * CENT, 40_000)), 0.0);
    assert_eq!(f(efficiency_from_measurement(d(30.0), 0, 400 * CENT, 40_000)), 0.0);
    assert_eq!(f(efficiency_from_measurement(d(30.0), 1_000_000_000, 400 * CENT, 0)), 0.0);
    assert_eq!(f(efficiency_from_measurement(d(30.0), 1_000_000_000, 0, 40_000)), 0.0);
}

#[test]
fn validate_rejects_implausible_efficiency() {
    assert_eq!(f(validate_efficiency(d(0.68)).unwrap()), 0.68);
    assert!(validate_efficiency(d(0.0)).is_err());
    assert!(validate_efficiency(d(0.05)).is_err());
    assert!(validate_efficiency(d(1.5)).is_err());
    assert!(validate_efficiency(d(3.2)).is_err());
    assert!(validate_efficiency(d(f64::NAN)).is_err());
    let msg = validate_efficiency(d(3.2)).unwrap_err().message();
    assert!(msg.contains("implausible efficiency"), "{msg}");
    assert!(msg.contains("3.2"), "{msg}");
}

#[test]
fn set_replaces_the_class_entry() {
    let mut file = CalibrationFile::default();
    let e = |eff: f64| CalibrationEntry {
        efficiency: d(eff),
        model: "x".into(),
        measured_at: 1,
    };
    file.set(ModelClass::Dense, e(0.6));
    file.set(ModelClass::Dense, e(0.7));
    assert_eq!(f(file.dense.as_ref().unwrap().efficiency), 0.7);
    assert!(file.moe.is_none());
}

#[test]
fn missing_class_keeps_the_default() {
    let mut file = CalibrationFile::default();
    let cal = file.to_speed_calibration();
    assert_eq!((f(cal.dense), f(cal.moe)), (0.75, 0.3));
    file.set(
        ModelClass::Moe,
        CalibrationEntry {
            efficiency: d(0.68),
            model: "Ornith-1.0-35B-GGUF Q4_K_M".into(),
            measured_at: 1_786_000_000,
        },
    );
    let cal = file.to_speed_calibration();
    assert_eq!((f(cal.dense), f(cal.moe)), (0.75, 0.68));
}

#[test]
fn efficiency_computes_like_doubles() {
    for (tps, params, bpw, bandwidth) in
        [(62.2, 8_030_000_000u64, 483u64, 40_000u32), (0.1, 3, 335, 6_825), (1e-3, 7_777, 569, 81_900)]
    {
        let exact = tps * (params as f64 * (bpw as f64 / 100.0) / 8.0)
            / (bandwidth as f64 / 100.0 * 1e9);
        assert_eq!(f(efficiency_from_measurement(d(tps), params, bpw * CENT, bandwidth)), exact);
    }
}

#[test]
fn set_path_wins_for_calibration() {
    assert_eq!(
        default_calibration_path(Some("/tmp/xyz-cal.json".into()), "/home/x/paddock"),
        "/tmp/xyz-cal.json"
    );
    assert_eq!(
        default_calibration_path(None, "/home/x/paddock"),
        "/home/x/paddock/calibration.json"
    );
}
