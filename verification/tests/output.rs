//! What is shown on the terminal.

use paddock::app::ScoredModel;
use paddock::catalog::{CatalogModel, CatalogVariant, RuntimeKind, Source};
use paddock::double::Double;
use paddock::estimate::{
    estimate_memory, estimate_speed, MemoryBudget, DEFAULT_CONTEXT,
};
use paddock::hardware::probe::MockProbe;
use paddock::hardware::scan;
use paddock::output::{
    age_label, bandwidth_label, context_label, endpoint_lines, fit_table, gib, humanize_since,
    profile_lines, recommendation_line, servers_view, truncate, uptime_label,
};
use paddock::runtime::ServePlan;
use paddock::score::Score;
use paddock::serving::{AvailableRow, ServerRow, StopHandle};

/// A hundredth of a bit per weight.
const CENT: u64 = 100_000_000_000_000;

fn ollama_plan(name: &str) -> ServePlan {
    ServePlan {
        server_argv: None,
        pre_steps: vec![],
        endpoint: "http://127.0.0.1:11434".into(),
        openai_url: "http://127.0.0.1:11434/v1/chat/completions".into(),
        model_ref: name.into(),
        ready_path: "/api/version".into(),
        install: None,
        port_ignored: false,
        runtime: RuntimeKind::Ollama,
        ctx: 0,
        port: None,
    }
}

#[test]
fn servers_view_empty_says_none() {
    assert_eq!(servers_view(&[], &[], 1_780_000_000), "no servers running");
}

#[test]
fn servers_view_has_sections_and_dashes() {
    let running = vec![ServerRow {
        model: "qwen3:8b".into(),
        runtime: RuntimeKind::Ollama,
        endpoint: "http://127.0.0.1:11434".into(),
        openai_url: "http://127.0.0.1:11434/v1/chat/completions".into(),
        ctx: None,
        started_at: None,
        stop: StopHandle::OllamaModel("qwen3:8b".into()),
    }];
    let available = vec![AvailableRow {
        model: "llama3".into(),
        runtime: RuntimeKind::Ollama,
        size_bytes: Some(4 * 1024 * 1024 * 1024),
        last_served_at: None,
        plan: ollama_plan("llama3"),
    }];
    let out = servers_view(&running, &available, 1_780_000_000);
    assert!(out.contains("RUNNING"));
    assert!(out.contains("AVAILABLE"));
    assert!(out.contains("qwen3:8b"));
    assert!(out.contains("llama3"));
    assert!(out.contains('-'));
    assert!(out.contains('?'));
}

#[test]
fn humanize_since_buckets() {
    assert_eq!(humanize_since(5), "5s");
    assert_eq!(humanize_since(90), "1m");
    assert_eq!(humanize_since(3 * 3600 + 5), "3h");
    assert_eq!(humanize_since(2 * 86400), "2d");
    assert_eq!(humanize_since(-10), "0s"); // clock skew clamps
}

#[test]
fn age_label_cases() {
    const NOW: i64 = 1_780_000_000;
    const DAY: i64 = 86_400;
    assert_eq!(age_label(None, false, NOW), "?");
    assert_eq!(age_label(Some(NOW - 3 * DAY), false, NOW), "3d");
    assert_eq!(age_label(Some(NOW - 20 * DAY), false, NOW), "2w");
    assert_eq!(age_label(Some(NOW - 240 * DAY), false, NOW), "7mo");
    assert_eq!(age_label(Some(NOW - 440 * DAY), false, NOW), "1.2y");
    assert_eq!(age_label(Some(NOW - 440 * DAY), true, NOW), "~1.2y");
    assert_eq!(age_label(Some(NOW + DAY), false, NOW), "0d"); // future clamps
}

#[test]
fn sizes_print_like_doubles() {
    for bytes in [0u64, 1, 53_687_091, 1_400_000_000, 19_327_352_832, 161_061_273, u64::MAX] {
        assert_eq!(gib(bytes), format!("{:.1} GiB", bytes as f64 / (1u64 << 30) as f64));
    }
}

#[test]
fn ages_print_like_doubles() {
    let now = 1_780_000_000;
    for days in [366i64, 400, 438, 440, 511, 547, 729, 1000, 3650] {
        let want = format!("{:.1}y", days as f64 / 365.25);
        assert_eq!(age_label(Some(now - days * 86_400), false, now), want, "{days}");
    }
}

#[test]
fn bandwidths_print_like_doubles() {
    for hundredths in [6_825u32, 15_360, 40_000, 81_900, 25, 50, 150, 250] {
        assert_eq!(
            bandwidth_label(hundredths, true),
            format!("{:.0} GB/s (estimated)", hundredths as f64 / 100.0)
        );
    }
}

#[test]
fn cuts_end_in_an_ellipsis() {
    assert_eq!(truncate("short", 10), "short");
    assert_eq!(truncate("0123456789", 10), "0123456789");
    assert_eq!(truncate("ééééééé", 4), "ééé…");
    assert_eq!(truncate("abc", 0).chars().count(), 1);
}

#[test]
fn contexts_and_uptimes() {
    assert_eq!(context_label(262_144), "256k");
    assert_eq!(context_label(512), "512");
    assert_eq!(uptime_label(1_000, 1_090), "1m");
}

#[test]
fn profile_of_an_empty_machine() {
    let lines = profile_lines(&scan(&MockProbe::default()));
    assert!(lines[0].starts_with("chip        "), "{lines:?}");
    assert!(lines.iter().any(|l| l.contains("not installed")), "{lines:?}");
}

#[test]
fn endpoint_block_shows_where_and_how() {
    let lines = endpoint_lines(&ollama_plan("llama3.2:1b"));
    assert_eq!(lines[0], "endpoint    http://127.0.0.1:11434");
    assert_eq!(lines[1], "openai      http://127.0.0.1:11434/v1/chat/completions");
    assert_eq!(lines[2], "model       llama3.2:1b");
    assert!(lines[3].starts_with("try it      curl -s http://127.0.0.1:11434/"), "{lines:?}");
}

fn row() -> ScoredModel {
    let model = CatalogModel {
        id: 0,
        name: "a-model-with-a-name-that-is-far-too-long-for-a-table".into(),
        family: None,
        source: Source::Ollama,
        repo: None,
        params_total: 8_030_000_000,
        params_active: 8_030_000_000,
        architecture: None,
        context_max: 131_072,
        released_at: None,
        released_approx: false,
        variants: vec![CatalogVariant {
            quant: "Q4_K_M".into(),
            bpw: 483 * CENT,
            file_size_bytes: None,
            layers: 32,
            kv_heads: 8,
            head_dim: 128,
            embedding_dim: 4096,
            runtime_compat: vec![RuntimeKind::Ollama],
            source_tag: None,
        }],
    };
    let mv = model.to_model_variant(&model.variants[0]);
    let budget = MemoryBudget {
        gpu_effective_bytes: 27 << 30,
        ram_total_bytes: 36 << 30,
    };
    let memory = estimate_memory(&mv, DEFAULT_CONTEXT, &budget);
    let speed = estimate_speed(&mv, 40_000, memory.kv_cache_bytes);
    let n = |x: u64| Double::of_ratio(x, 1);
    ScoredModel {
        model,
        variant_idx: 0,
        memory,
        speed,
        score: Score {
            total: n(78),
            fit: n(95),
            speed: n(90),
            quality: n(50),
            context: n(100),
        },
    }
}

#[test]
fn table_of_models() {
    let lines = fit_table(&[row()], 1_780_000_000);
    assert_eq!(lines.len(), 2);
    assert_eq!(
        lines[0],
        "MODEL                               AGE QUANT        MEMORY     TOK/S  FIT          SCORE"
    );
    assert!(lines[1].starts_with("a-model-with-a-name-that-is-far…"), "{}", lines[1]);
    assert!(lines[1].contains("? Q4_K_M"), "{}", lines[1]);
    assert!(lines[1].ends_with("78"), "{}", lines[1]);
}

#[test]
fn recommendation_has_its_reasons() {
    let line = recommendation_line(&row());
    assert!(line.contains("Q4_K_M"), "{line}");
    assert!(line.contains("78/100"), "{line}");
    assert!(line.contains("fits GPU with"), "{line}");
    assert!(line.contains("128k context"), "{line}");
}
