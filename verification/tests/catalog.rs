//! Quantizations and the figures of catalog models.

use paddock::catalog::curated::{curated_model, curated_ollama_models, CuratedEntry};
use paddock::catalog::{quant_bpw, quant_from_filename, RuntimeKind, Source};
use paddock::estimate::bits_number;

/// Bits per weight as a double-precision number.
fn bits(bpw: u64) -> f64 {
    let d = bits_number(bpw);
    d.mantissa as f64 * 2f64.powi(d.exponent)
}

#[test]
fn mod_quant_from_filename_ud_prefix_kept_exactly() {
    assert_eq!(
        quant_from_filename("Qwen3.6-35B-A3B-UD-Q4_K_M.gguf"),
        Some("UD-Q4_K_M".to_string())
    );
    assert_eq!(
        quant_from_filename("Qwen3.6-35B-A3B-UD-Q4_K_XL.gguf"),
        Some("UD-Q4_K_XL".to_string())
    );
    // lowercase ud- in the filename still yields the canonical tag
    assert_eq!(
        quant_from_filename("model-ud-q4_k_m.gguf"),
        Some("UD-Q4_K_M".to_string())
    );
    // plain tags unchanged
    assert_eq!(
        quant_from_filename("x-Q4_K_M.gguf"),
        Some("Q4_K_M".to_string())
    );
}

#[test]
fn mod_quant_from_filename_ud_word_boundary_and_multibyte() {
    // "UD-" preceded by an alphanumeric char is not an Unsloth tag.
    assert_eq!(
        quant_from_filename("Cloud-Q4_K_M.gguf"),
        Some("Q4_K_M".to_string())
    );
    // Multibyte char earlier in the name must not panic.
    assert_eq!(
        quant_from_filename("Éx-UD-Q4_K_M.gguf"),
        Some("UD-Q4_K_M".to_string())
    );
    // Multibyte within 3 bytes of the tag must not panic.
    assert_eq!(
        quant_from_filename("Méga-Q4_K_M.gguf"),
        Some("Q4_K_M".to_string())
    );
}

#[test]
fn mod_quant_bpw_ud_tags() {
    // plain UD- maps to the base quant
    assert_eq!(quant_bpw("UD-Q4_K_M").map(bits), Some(4.83));
    // _XL family: base bpw + 0.35
    let xl = quant_bpw("UD-Q4_K_XL").map(bits).unwrap();
    assert!((xl - 5.18).abs() < 1e-9, "got {xl}");
    let q6 = quant_bpw("UD-Q6_K_XL").map(bits).unwrap();
    assert!((q6 - 6.94).abs() < 1e-9, "got {q6}");
    // existing exact entries unchanged
    assert_eq!(quant_bpw("Q4_K_M").map(bits), Some(4.83));
    assert_eq!(quant_bpw("nonsense"), None);
    assert_eq!(quant_bpw("UD-nonsense"), None);
}

#[test]
fn quant_from_filename_ud_prefix_kept_exactly() {
    assert_eq!(
        quant_from_filename("Qwen3.6-35B-A3B-UD-Q4_K_M.gguf"),
        Some("UD-Q4_K_M".to_string())
    );
    assert_eq!(
        quant_from_filename("Qwen3.6-35B-A3B-UD-Q4_K_XL.gguf"),
        Some("UD-Q4_K_XL".to_string())
    );
    // lowercase ud- in the filename still yields the canonical tag
    assert_eq!(
        quant_from_filename("model-ud-q4_k_m.gguf"),
        Some("UD-Q4_K_M".to_string())
    );
    // plain tags unchanged
    assert_eq!(
        quant_from_filename("x-Q4_K_M.gguf"),
        Some("Q4_K_M".to_string())
    );
}

#[test]
fn quant_from_filename_ud_word_boundary_and_multibyte() {
    // "UD-" preceded by an alphanumeric char is not an Unsloth tag.
    assert_eq!(
        quant_from_filename("Cloud-Q4_K_M.gguf"),
        Some("Q4_K_M".to_string())
    );
    // Multibyte char earlier in the name must not panic.
    assert_eq!(
        quant_from_filename("Éx-UD-Q4_K_M.gguf"),
        Some("UD-Q4_K_M".to_string())
    );
    // Multibyte within 3 bytes of the tag must not panic.
    assert_eq!(
        quant_from_filename("Méga-Q4_K_M.gguf"),
        Some("Q4_K_M".to_string())
    );
}

#[test]
fn every_quant_of_a_file_name_is_known() {
    for name in [
        "a-Q8_0.gguf", "a-q6_k.gguf", "A-Q5_K_M", "x-q4_0", "x-iq4_xs", "x-bf16.gguf", "x-F16",
        "x-UD-Q2_K_XL.gguf", "x-ud-q8_k_xl.gguf", "UD-Q3_K_M",
    ] {
        let q = quant_from_filename(name).unwrap();
        assert!(quant_bpw(&q).is_some(), "{name}: {q}");
    }
    assert_eq!(quant_from_filename("model.gguf"), None);
}

#[test]
fn bits_per_weight_of_the_table() {
    for (quant, bpw) in [
        ("F16", 16.0), ("BF16", 16.0), ("Q8_0", 8.5), ("MLX_8BIT", 8.5), ("Q6_K", 6.59),
        ("Q5_K_M", 5.69), ("Q4_K_M", 4.83), ("Q4_0", 4.55), ("MLX_4BIT", 4.5), ("IQ4_XS", 4.25),
        ("Q3_K_M", 3.91), ("Q2_K", 3.35),
    ] {
        assert_eq!(quant_bpw(quant).map(bits), Some(bpw), "{quant}");
    }
}

#[test]
fn xl_builds_add_to_their_base() {
    for (xl, base) in [
        ("UD-Q2_K_XL", "Q2_K"), ("UD-Q3_K_XL", "Q3_K_M"), ("UD-Q4_K_XL", "Q4_K_M"),
        ("UD-Q5_K_XL", "Q5_K_M"), ("UD-Q6_K_XL", "Q6_K"), ("UD-Q8_K_XL", "Q8_0"),
    ] {
        let sum = bits(quant_bpw(base).unwrap()) + 0.35;
        assert_eq!(quant_bpw(xl).map(bits), Some(sum), "{xl}");
    }
    assert_eq!(quant_bpw("UD-Q6_K_XL"), Some(69_399_999_999_999_995));
}

fn entry(name: &str, quant: &str, params_active: Option<u64>) -> CuratedEntry {
    CuratedEntry {
        name: name.to_string(),
        family: "qwen3moe".to_string(),
        params_total: 235_000_000_000,
        params_active,
        context_max: 40_960,
        layers: 94,
        kv_heads: 4,
        head_dim: 128,
        embedding_dim: 4096,
        quant: quant.to_string(),
        file_size_bytes: 142_000_000_000,
    }
}

#[test]
fn curated_entry_becomes_a_model() {
    let m = curated_model(&entry("qwen3:235b", "Q4_K_M", Some(22_000_000_000)));
    assert_eq!(m.params_total, 235_000_000_000);
    assert_eq!(m.params_active, 22_000_000_000);
    assert_eq!(m.family.as_deref(), Some("qwen3moe"));
    assert_eq!(m.architecture.as_deref(), Some("qwen3moe"));
    assert_eq!(m.source, Source::Ollama);
    assert_eq!(m.variants.len(), 1);
    assert_eq!(bits(m.variants[0].bpw), 4.83);
    assert_eq!(m.variants[0].file_size_bytes, Some(142_000_000_000));
    assert_eq!(m.variants[0].runtime_compat, vec![RuntimeKind::Ollama]);
    let mv = m.to_model_variant(&m.variants[0]);
    assert_eq!(mv.params_active, 22_000_000_000);
    assert_eq!(mv.layers, 94);
}

#[test]
fn curated_entries_keep_their_order_and_default() {
    let models = curated_ollama_models(&vec![
        entry("b:1b", "Q8_0", None),
        entry("a:1b", "unheard of", None),
    ]);
    assert_eq!(models.len(), 2);
    assert_eq!(models[0].name, "b:1b");
    assert_eq!(bits(models[0].variants[0].bpw), 8.5);
    assert_eq!(models[0].params_active, 235_000_000_000);
    assert_eq!(bits(models[1].variants[0].bpw), 4.83);
}

#[test]
fn an_xl_name_begins_a_word() {
    assert_eq!(quant_from_filename("Cloud-Q4_K_XL.gguf"), None);
    assert_eq!(
        quant_from_filename("UD-Q4_K_XL.gguf"),
        Some("UD-Q4_K_XL".to_string())
    );
    assert_eq!(
        quant_from_filename("Cloud-Q4_K_XL/m-UD-Q4_K_XL.gguf"),
        Some("UD-Q4_K_XL".to_string())
    );
    assert_eq!(
        quant_from_filename("model_UD-Q8_K_XL.gguf"),
        Some("UD-Q8_K_XL".to_string())
    );
}
