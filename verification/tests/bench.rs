//! Measuring a server, and finding what it serves in the catalog.

use paddock::bench::{
    bench_request, finalize, measure, parse_timing, resolve_model_ref, ParsedTiming, TimingSource,
};
use paddock::catalog::{quant_bpw, CatalogModel, CatalogVariant, RuntimeKind, Source};
use paddock::double::Double;
use paddock::hardware::probe::{MockProbe, SystemProbe};

/// A hundredth of a bit per weight.
const CENT: u64 = 100_000_000_000_000;

/// The double-precision number that a `Double` stands for.
fn f(d: Double) -> f64 {
    d.mantissa as f64 * 2f64.powi(d.exponent)
}

/// The `Double` of a number that is not negative.
fn d(x: f64) -> Double {
    Double::from_bits(x.to_bits()).unwrap_or(Double::of_ratio(0, 1))
}

#[test]
fn ollama_request_shape() {
    let (url, body) = bench_request(
        RuntimeKind::Ollama,
        "http://127.0.0.1:11434",
        "llama3.2:3b",
        128,
    );
    assert_eq!(url, "http://127.0.0.1:11434/api/generate");
    let v: serde_json::Value = serde_json::from_str(&body).unwrap();
    assert_eq!(v["model"], "llama3.2:3b");
    assert_eq!(v["stream"], false);
    assert_eq!(v["options"]["num_predict"], 128);
    assert!(v["prompt"].as_str().unwrap().len() > 10);
}

#[test]
fn llama_cpp_request_shape() {
    let (url, body) = bench_request(RuntimeKind::LlamaCpp, "http://127.0.0.1:8080", "x", 64);
    assert_eq!(url, "http://127.0.0.1:8080/completion");
    let v: serde_json::Value = serde_json::from_str(&body).unwrap();
    assert_eq!(v["n_predict"], 64);
    assert_eq!(v["stream"], false);
}

#[test]
fn mlx_request_shape() {
    let (url, body) = bench_request(
        RuntimeKind::MlxLm,
        "http://127.0.0.1:8080",
        "mlx-community/x-4bit",
        32,
    );
    assert_eq!(url, "http://127.0.0.1:8080/v1/chat/completions");
    let v: serde_json::Value = serde_json::from_str(&body).unwrap();
    assert_eq!(v["model"], "mlx-community/x-4bit");
    assert_eq!(v["max_tokens"], 32);
    assert_eq!(v["stream"], false);
    assert_eq!(v["messages"][0]["role"], "user");
}

#[test]
fn parse_ollama_eval_fields() {
    // 128 tokens in 3.2 s = 40 tok/s, exact from the server's own clock.
    let body = r#"{"model":"x","response":"...","done":true,"eval_count":128,"eval_duration":3200000000}"#;
    let p = parse_timing(RuntimeKind::Ollama, body).unwrap();
    assert_eq!(p.tokens, 128);
    assert!((f(p.server_tps.unwrap()) - 40.0).abs() < 1e-9);
}

#[test]
fn parse_ollama_without_duration_falls_back_to_wall_clock() {
    let body = r#"{"done":true,"eval_count":100}"#;
    let p = parse_timing(RuntimeKind::Ollama, body).unwrap();
    assert_eq!(p.tokens, 100);
    assert!(p.server_tps.is_none());
}

#[test]
fn parse_ollama_missing_eval_count_names_the_field() {
    let err = parse_timing(RuntimeKind::Ollama, r#"{"done":true}"#)
        .unwrap_err()
        .message();
    assert!(err.contains("eval_count"), "{err}");
}

#[test]
fn parse_llama_cpp_timings() {
    let body = r#"{"content":"...","tokens_predicted":128,"timings":{"prompt_n":12,"prompt_ms":80.0,"predicted_n":128,"predicted_ms":2560.0,"predicted_per_second":50.0}}"#;
    let p = parse_timing(RuntimeKind::LlamaCpp, body).unwrap();
    assert_eq!(p.tokens, 128);
    assert_eq!(p.server_tps.map(f), Some(50.0));
}

#[test]
fn parse_llama_cpp_without_timings_uses_tokens_predicted() {
    let body = r#"{"content":"...","tokens_predicted":77}"#;
    let p = parse_timing(RuntimeKind::LlamaCpp, body).unwrap();
    assert_eq!(p.tokens, 77);
    assert!(p.server_tps.is_none());
}

#[test]
fn parse_openai_usage() {
    let body = r#"{"choices":[{"message":{"role":"assistant","content":"..."}}],"usage":{"prompt_tokens":12,"completion_tokens":128,"total_tokens":140}}"#;
    let p = parse_timing(RuntimeKind::MlxLm, body).unwrap();
    assert_eq!(p.tokens, 128);
    assert!(p.server_tps.is_none());
    let err = parse_timing(RuntimeKind::MlxLm, r#"{"choices":[]}"#)
        .unwrap_err()
        .message();
    assert!(err.contains("usage.completion_tokens"), "{err}");
}

#[test]
fn parse_rejects_non_json() {
    assert!(parse_timing(RuntimeKind::Ollama, "<html>").is_err());
}

#[test]
fn finalize_prefers_server_timings_else_wall_clock() {
    let s = finalize(
        ParsedTiming {
            tokens: 128,
            server_tps: Some(d(40.0)),
        },
        9,
        0,
    )
    .unwrap();
    assert_eq!(f(s.tps), 40.0);
    assert_eq!(s.timing, TimingSource::ServerTimings);
    let w = finalize(
        ParsedTiming {
            tokens: 128,
            server_tps: None,
        },
        4,
        0,
    )
    .unwrap();
    assert_eq!(f(w.tps), 32.0);
    assert_eq!(w.timing, TimingSource::WallClock);
    assert_eq!(w.tokens, 128);
}

#[test]
fn finalize_rejects_zero_tokens_and_zero_wall() {
    assert!(
        finalize(
            ParsedTiming {
                tokens: 0,
                server_tps: None
            },
            1,
        0
        )
        .is_err()
    );
    assert!(
        finalize(
            ParsedTiming {
                tokens: 10,
                server_tps: None
            },
            0,
            0
        )
        .is_err()
    );
}

/// A server that keeps what is posted to it.
#[derive(Default)]
struct Recorder {
    posts: std::sync::Mutex<Vec<(String, String)>>,
}

impl SystemProbe for Recorder {
    fn sysctl_string(&self, _name: &str) -> Option<String> {
        None
    }

    fn sysctl_u64(&self, _name: &str) -> Option<u64> {
        None
    }

    fn gpu_recommended_working_set(&self) -> Option<u64> {
        None
    }

    fn which(&self, _binary: &str) -> Option<String> {
        None
    }

    fn run_command(&self, _program: &str, _args: &[&str]) -> Option<String> {
        None
    }

    fn http_get_local(&self, _url: &str) -> Option<String> {
        None
    }

    fn http_post_local(&self, url: &str, json_body: &str) -> Option<String> {
        self.posts.lock().unwrap().push((url.to_string(), json_body.to_string()));
        Some(r#"{"done":true,"eval_count":64,"eval_duration":1600000000}"#.to_string())
    }
}

#[test]
fn measure_warms_up_then_times_one_request() {
    let probe = Recorder::default();
    let m = measure(
        &probe,
        RuntimeKind::Ollama,
        "http://127.0.0.1:11434",
        "llama3.2:3b",
        64,
    )
    .unwrap();
    assert!((f(m.tps) - 40.0).abs() < 1e-9);
    assert_eq!(m.timing, TimingSource::ServerTimings);
    let posts = probe.posts.lock().unwrap();
    assert_eq!(posts.len(), 2, "one warm-up + one timed request");
    assert_eq!(posts[1].0, "http://127.0.0.1:11434/api/generate");
    let warm: serde_json::Value = serde_json::from_str(&posts[0].1).unwrap();
    let timed: serde_json::Value = serde_json::from_str(&posts[1].1).unwrap();
    assert!(warm["options"]["num_predict"].as_u64().unwrap() < 64);
    assert_eq!(timed["options"]["num_predict"], 64);
}

#[test]
fn measure_unreachable_server_is_a_clean_error() {
    let probe = MockProbe::default(); // no POST fixtures = connection refused
    let err = measure(&probe, RuntimeKind::LlamaCpp, "http://127.0.0.1:8080", "x", 16)
        .unwrap_err()
        .message();
    assert!(err.contains("127.0.0.1:8080"), "{err}");
}

fn variant(quant: &str, tag: Option<&str>) -> CatalogVariant {
    CatalogVariant {
        quant: quant.into(),
        bpw: quant_bpw(quant).unwrap_or(450 * CENT),
        file_size_bytes: None,
        layers: 32,
        kv_heads: 8,
        head_dim: 128,
        embedding_dim: 4096,
        runtime_compat: vec![RuntimeKind::Ollama, RuntimeKind::LlamaCpp],
        source_tag: tag.map(str::to_string),
    }
}

fn model(
    name: &str,
    source: Source,
    repo: Option<&str>,
    variants: Vec<CatalogVariant>,
) -> CatalogModel {
    CatalogModel {
        id: 0,
        name: name.into(),
        family: None,
        source,
        repo: repo.map(str::to_string),
        params_total: 8_000_000_000,
        params_active: 8_000_000_000,
        architecture: None,
        context_max: 32_768,
        released_at: None,
        released_approx: false,
        variants,
    }
}

fn catalog() -> Vec<CatalogModel> {
    vec![
        model(
            "llama3.1:8b",
            Source::Ollama,
            None,
            vec![
                variant("Q4_K_M", Some("8b-instruct-q4_K_M")),
                variant("Q8_0", Some("8b-instruct-q8_0")),
            ],
        ),
        model(
            "qwen3-coder:30b",
            Source::Ollama,
            None,
            vec![variant("Q4_K_M", None)],
        ),
        model(
            "Qwen3.6-35B-A3B-GGUF",
            Source::HuggingFace,
            Some("unsloth/Qwen3.6-35B-A3B-GGUF"),
            vec![
                variant("Q4_K_M", None),
                variant("UD-Q4_K_XL", None),
                variant("Q8_0", None),
            ],
        ),
        model(
            "Llama-3.1-8B-Instruct-4bit",
            Source::Mlx,
            Some("mlx-community/Llama-3.1-8B-Instruct-4bit"),
            vec![variant("MLX_4BIT", None)],
        ),
    ]
}

#[test]
fn hf_ref_with_quant_matches_repo_and_quant_case_insensitively() {
    let c = catalog();
    assert_eq!(
        resolve_model_ref(&c, "hf.co/unsloth/Qwen3.6-35B-A3B-GGUF:ud-q4_k_xl"),
        Some((2, 1))
    );
    assert_eq!(
        resolve_model_ref(&c, "unsloth/Qwen3.6-35B-A3B-GGUF:Q8_0"),
        Some((2, 2))
    );
}

#[test]
fn hf_ref_with_unknown_quant_is_unresolved() {
    assert_eq!(
        resolve_model_ref(&catalog(), "hf.co/unsloth/Qwen3.6-35B-A3B-GGUF:IQ2_XXS"),
        None
    );
}

#[test]
fn mlx_repo_ref_picks_its_single_variant() {
    assert_eq!(
        resolve_model_ref(&catalog(), "mlx-community/Llama-3.1-8B-Instruct-4bit"),
        Some((3, 0))
    );
}

#[test]
fn ollama_source_tag_matches_exact_variant() {
    assert_eq!(
        resolve_model_ref(&catalog(), "llama3.1:8b-instruct-q8_0"),
        Some((0, 1))
    );
}

#[test]
fn ollama_full_curated_name_picks_best_quality_variant() {
    assert_eq!(resolve_model_ref(&catalog(), "qwen3-coder:30b"), Some((1, 0)));
    // Curated name with two variants and no tag hit: Q8_0 is the higher quality.
    assert_eq!(resolve_model_ref(&catalog(), "llama3.1:8b"), Some((0, 1)));
}

#[test]
fn ollama_base_name_with_unknown_tag_matches_quant_substring_else_best() {
    let c = catalog();
    assert_eq!(resolve_model_ref(&c, "llama3.1:latest-q4_K_M"), Some((0, 0)));
    assert_eq!(resolve_model_ref(&c, "llama3.1:latest"), Some((0, 1)));
}

#[test]
fn unknown_ref_is_unresolved() {
    assert_eq!(resolve_model_ref(&catalog(), "definitely-not-a-model:1b"), None);
    assert_eq!(resolve_model_ref(&catalog(), "hf.co/nobody/nothing:Q4_K_M"), None);
}

#[test]
fn measured_speed_divides_like_doubles() {
    for (tokens, secs, nanos) in [(100, 3, 0), (7, 0, 123_456_789), (128, 2, 999_999_999)] {
        let m = finalize(ParsedTiming { tokens, server_tps: None }, secs, nanos).unwrap();
        let wall = std::time::Duration::new(secs, nanos).as_secs_f64();
        assert_eq!(f(m.tps), tokens as f64 / wall);
    }
}

#[test]
fn timing_sources_have_labels() {
    assert_ne!(TimingSource::ServerTimings.label(), TimingSource::WallClock.label());
}

/// A server that takes its time and tells no timings.
struct Slow;

impl SystemProbe for Slow {
    fn sysctl_string(&self, _name: &str) -> Option<String> {
        None
    }

    fn sysctl_u64(&self, _name: &str) -> Option<u64> {
        None
    }

    fn gpu_recommended_working_set(&self) -> Option<u64> {
        None
    }

    fn which(&self, _binary: &str) -> Option<String> {
        None
    }

    fn run_command(&self, _program: &str, _args: &[&str]) -> Option<String> {
        None
    }

    fn http_get_local(&self, _url: &str) -> Option<String> {
        None
    }

    fn http_post_local(&self, _url: &str, _json_body: &str) -> Option<String> {
        let start = std::time::Instant::now();
        while start.elapsed().as_millis() < 20 {}
        Some(r#"{"usage":{"completion_tokens":10}}"#.to_string())
    }
}

#[test]
fn speed_without_timings_is_by_the_clock() {
    let m = measure(&Slow, RuntimeKind::MlxLm, "http://127.0.0.1:8080/", "x", 10).unwrap();
    assert_eq!(m.timing, TimingSource::WallClock);
    assert_eq!(m.tokens, 10);
    let tps = f(m.tps);
    assert!(tps > 0.0 && tps <= 500.0, "{tps}");
}

#[test]
fn requests_are_valid_json_whatever_the_name() {
    for runtime in [RuntimeKind::Ollama, RuntimeKind::LlamaCpp, RuntimeKind::MlxLm] {
        let (_, body) = bench_request(runtime, "http://h//", "a\"b\\c\u{1}é", 7);
        let v: serde_json::Value = serde_json::from_str(&body).unwrap();
        if runtime != RuntimeKind::LlamaCpp {
            assert_eq!(v["model"], "a\"b\\c\u{1}é");
        }
        assert_eq!(v["stream"], false);
    }
}

#[test]
fn negative_and_fractional_rates() {
    let body = |rate: &str| format!(
        r#"{{"tokens_predicted":5,"timings":{{"predicted_n":5,"predicted_per_second":{rate}}}}}"#
    );
    let rate = |r: &str| {
        parse_timing(RuntimeKind::LlamaCpp, &body(r)).unwrap().server_tps.map(f)
    };
    assert_eq!(rate("12.5"), Some(12.5));
    assert_eq!(rate("3"), Some(3.0));
    assert_eq!(rate("1e2"), Some(100.0));
    assert_eq!(rate("-3"), None);
    assert_eq!(rate("-0.5"), None);
    assert_eq!(rate("0"), None);
    assert_eq!(rate("\"7\""), None);
}
