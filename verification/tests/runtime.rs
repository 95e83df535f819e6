//! Plans to run and serve a model.

use paddock::catalog::{CatalogModel, CatalogVariant, RuntimeKind, Source};
use paddock::hardware::runtimes::{RuntimeStatus, RuntimesStatus};
use paddock::runtime::{plan_run, plan_serve, shell_quote, RunPlan};

/// A hundredth of a bit per weight.
const CENT: u64 = 100_000_000_000_000;

fn hf_model() -> CatalogModel {
    CatalogModel {
        id: 0,
        name: "Meta-Llama-3.1-8B-Instruct-GGUF".into(),
        family: Some("llama".into()),
        source: Source::HuggingFace,
        repo: Some("bartowski/Meta-Llama-3.1-8B-Instruct-GGUF".into()),
        params_total: 8_030_000_000,
        params_active: 8_030_000_000,
        architecture: Some("llama".into()),
        context_max: 131_072,
        released_at: None,
        released_approx: false,
        variants: vec![variant(
            "Q4_K_M",
            vec![RuntimeKind::Ollama, RuntimeKind::LlamaCpp],
        )],
    }
}

fn variant(quant: &str, compat: Vec<RuntimeKind>) -> CatalogVariant {
    CatalogVariant {
        quant: quant.into(),
        bpw: 483 * CENT,
        file_size_bytes: None,
        layers: 32,
        kv_heads: 8,
        head_dim: 128,
        embedding_dim: 4096,
        runtime_compat: compat,
        source_tag: None,
    }
}

fn with_ollama() -> RuntimesStatus {
    RuntimesStatus {
        ollama: RuntimeStatus {
            installed: true,
            version: None,
            running: true,
        },
        ..Default::default()
    }
}

#[test]
fn runtime_hf_gguf_with_ollama_uses_hf_co_ref() {
    let m = hf_model();
    let plan = plan_run(&m, &m.variants[0], &with_ollama(), None).unwrap();
    assert_eq!(
        plan.argv,
        vec![
            "ollama",
            "run",
            "hf.co/bartowski/Meta-Llama-3.1-8B-Instruct-GGUF:Q4_K_M"
        ]
    );
    assert!(plan.install.is_none());
}

#[test]
fn runtime_ollama_library_model_uses_plain_name() {
    let mut m = hf_model();
    m.source = Source::Ollama;
    m.repo = None;
    m.name = "llama3.1:8b".into();
    let plan = plan_run(&m, &m.variants[0], &with_ollama(), None).unwrap();
    assert_eq!(plan.argv, vec!["ollama", "run", "llama3.1:8b"]);
}

/// Curated Ollama model enriched with an exact library tag.
fn enriched_ollama_model() -> CatalogModel {
    let mut m = hf_model();
    m.source = Source::Ollama;
    m.repo = None;
    m.name = "llama3.1:8b".into();
    m.variants[0].source_tag = Some("8b-instruct-q4_K_M".into());
    m
}

#[test]
fn run_enriched_ollama_variant_uses_exact_source_tag() {
    let m = enriched_ollama_model();
    let plan = plan_run(&m, &m.variants[0], &with_ollama(), None).unwrap();
    assert_eq!(
        plan.argv,
        vec!["ollama", "run", "llama3.1:8b-instruct-q4_K_M"]
    );
}

#[test]
fn serve_enriched_ollama_variant_pulls_exact_source_tag() {
    let m = enriched_ollama_model();
    let p = plan_serve(&m, &m.variants[0], &with_ollama(), None, None).unwrap();
    assert_eq!(
        p.pre_steps,
        vec![vec![
            "ollama".to_string(),
            "pull".to_string(),
            "llama3.1:8b-instruct-q4_K_M".to_string()
        ]]
    );
    assert_eq!(p.model_ref, "llama3.1:8b-instruct-q4_K_M");
}

#[test]
fn runtime_mlx_model_with_mlx_installed() {
    let mut m = hf_model();
    m.source = Source::Mlx;
    m.repo = Some("mlx-community/Llama-3.1-8B-Instruct-4bit".into());
    m.variants = vec![variant("MLX_4BIT", vec![RuntimeKind::MlxLm])];
    let rt = RuntimesStatus {
        mlx: RuntimeStatus {
            installed: true,
            version: Some("0.24.0".into()),
            running: false,
        },
        ..Default::default()
    };
    let plan = plan_run(&m, &m.variants[0], &rt, None).unwrap();
    assert_eq!(
        plan.argv,
        vec![
            "mlx_lm.chat",
            "--model",
            "mlx-community/Llama-3.1-8B-Instruct-4bit"
        ]
    );
}

#[test]
fn runtime_no_runtime_yields_install_plan_never_auto_runs() {
    let m = hf_model();
    let plan = plan_run(&m, &m.variants[0], &RuntimesStatus::default(), None).unwrap();
    let install = plan.install.expect("must propose an install");
    assert_eq!(install.argv, vec!["brew", "install", "ollama"]);
    // run command still present so the UI can show what WILL run after install
    assert_eq!(plan.argv[0], "ollama");
}

#[test]
fn runtime_mlx_without_repo_errors() {
    let mut m = hf_model();
    m.source = Source::Mlx;
    m.repo = None;
    m.variants = vec![variant("MLX_4BIT", vec![RuntimeKind::MlxLm])];
    let err = plan_run(&m, &m.variants[0], &RuntimesStatus::default(), None).unwrap_err();
    let msg = err.message();
    assert!(msg.contains("no HuggingFace repo reference"), "{msg}");
    assert!(msg.contains("paddock sync"), "{msg}");
}

#[test]
fn runtime_hf_without_repo_errors() {
    let mut m = hf_model();
    m.repo = None;
    let err = plan_run(&m, &m.variants[0], &with_ollama(), None).unwrap_err();
    let msg = err.message();
    assert!(msg.contains("no HuggingFace repo reference"), "{msg}");
    assert!(msg.contains("paddock sync"), "{msg}");
}

#[test]
fn runtime_hf_with_mlx_quant_errors() {
    let mut m = hf_model();
    m.variants = vec![variant("MLX_4BIT", vec![RuntimeKind::MlxLm])];
    let err = plan_run(&m, &m.variants[0], &with_ollama(), None).unwrap_err();
    let msg = err.message();
    assert!(msg.contains("not a GGUF quant tag"), "{msg}");
    assert!(msg.contains("MLX_4BIT"), "{msg}");

    // DB-roundtripped garbage (unknown quant) must also be refused
    m.variants = vec![variant("Q4_BOGUS", vec![RuntimeKind::Ollama])];
    let err = plan_run(&m, &m.variants[0], &with_ollama(), None).unwrap_err();
    assert!(err.message().contains("not a GGUF quant tag"));
}

fn ollama_running() -> RuntimesStatus {
    RuntimesStatus {
        ollama: RuntimeStatus {
            installed: true,
            version: Some("0.30.6".into()),
            running: true,
        },
        ..Default::default()
    }
}

fn ollama_stopped() -> RuntimesStatus {
    RuntimesStatus {
        ollama: RuntimeStatus {
            installed: true,
            version: None,
            running: false,
        },
        ..Default::default()
    }
}

fn llama_cpp_only() -> RuntimesStatus {
    RuntimesStatus {
        llama_cpp: RuntimeStatus {
            installed: true,
            version: None,
            running: false,
        },
        ..Default::default()
    }
}

#[test]
fn runtime_serve_hf_with_running_ollama_pulls_and_reuses_daemon() {
    let m = hf_model();
    let p = plan_serve(&m, &m.variants[0], &ollama_running(), None, None).unwrap();
    assert!(p.server_argv.is_none());
    assert_eq!(
        p.pre_steps,
        vec![vec![
            "ollama".to_string(),
            "pull".to_string(),
            "hf.co/bartowski/Meta-Llama-3.1-8B-Instruct-GGUF:Q4_K_M".to_string()
        ]]
    );
    assert_eq!(p.endpoint, "http://127.0.0.1:11434");
    assert_eq!(p.openai_url, "http://127.0.0.1:11434/v1/chat/completions");
    assert_eq!(
        p.model_ref,
        "hf.co/bartowski/Meta-Llama-3.1-8B-Instruct-GGUF:Q4_K_M"
    );
    assert_eq!(p.ready_path, "/api/version");
    assert!(p.install.is_none());
    assert_eq!(p.runtime, RuntimeKind::Ollama);
}

#[test]
fn runtime_serve_hf_with_stopped_ollama_boots_the_daemon() {
    let m = hf_model();
    let p = plan_serve(&m, &m.variants[0], &ollama_stopped(), None, None).unwrap();
    assert_eq!(
        p.server_argv,
        Some(vec!["ollama".to_string(), "serve".to_string()])
    );
    // pull still listed: the binary runs pre_steps AFTER readiness
    assert_eq!(p.pre_steps.len(), 1);
    assert_eq!(p.endpoint, "http://127.0.0.1:11434");
    assert_eq!(p.runtime, RuntimeKind::Ollama);
}

#[test]
fn runtime_serve_hf_without_ollama_falls_back_to_llama_server() {
    let m = hf_model();
    let p = plan_serve(&m, &m.variants[0], &llama_cpp_only(), None, None).unwrap();
    assert_eq!(
        p.server_argv,
        Some(vec![
            "llama-server".to_string(),
            "-hf".to_string(),
            "bartowski/Meta-Llama-3.1-8B-Instruct-GGUF:Q4_K_M".to_string(),
            "--port".to_string(),
            "8080".to_string(),
            "-c".to_string(),
            "8192".to_string(),
            "--no-mmproj".to_string(),
        ])
    );
    assert!(p.pre_steps.is_empty());
    assert_eq!(p.endpoint, "http://127.0.0.1:8080");
    assert_eq!(p.ready_path, "/health");
    assert!(p.install.is_none());
    assert_eq!(p.runtime, RuntimeKind::LlamaCpp);
}

#[test]
fn serve_ctx_override_applies_to_llama_server() {
    let m = hf_model();
    let p = plan_serve(&m, &m.variants[0], &llama_cpp_only(), None, Some(32768)).unwrap();
    let argv = p.server_argv.expect("llama-server argv");
    // `-c` immediately followed by the requested ctx, default replaced.
    let c = argv.iter().position(|a| a == "-c").expect("-c flag");
    assert_eq!(argv[c + 1], "32768");
}

#[test]
fn run_ctx_override_applies_to_llama_cli() {
    let m = mmproj_model();
    let plan = plan_run(&m, &m.variants[0], &ollama_and_llama_cpp(), Some(16384)).unwrap();
    let c = plan.argv.iter().position(|a| a == "-c").expect("-c flag");
    assert_eq!(plan.argv[c + 1], "16384");
}

#[test]
fn runtime_serve_port_override_applies_to_non_ollama_servers() {
    let m = hf_model();
    let p = plan_serve(&m, &m.variants[0], &llama_cpp_only(), Some(9999), None).unwrap();
    assert_eq!(p.endpoint, "http://127.0.0.1:9999");
    assert!(p.server_argv.unwrap().contains(&"9999".to_string()));
    assert!(!p.port_ignored);
    // ollama ignores --port (fixed daemon port)
    let p2 = plan_serve(&m, &m.variants[0], &ollama_running(), Some(9999), None).unwrap();
    assert_eq!(p2.endpoint, "http://127.0.0.1:11434");
    assert!(p2.port_ignored);
}

#[test]
fn with_port_rewrites_argv_endpoint_and_url() {
    let m = hf_model();
    let p = plan_serve(&m, &m.variants[0], &llama_cpp_only(), None, None)
        .unwrap()
        .with_port(8090);
    assert_eq!(p.port, Some(8090));
    assert_eq!(p.endpoint, "http://127.0.0.1:8090");
    assert_eq!(p.openai_url, "http://127.0.0.1:8090/v1/chat/completions");
    let argv = p.server_argv.unwrap();
    let i = argv.iter().position(|a| a == "--port").unwrap();
    assert_eq!(argv[i + 1], "8090");
}

#[test]
fn runtime_serve_rejects_port_zero() {
    let m = hf_model();
    assert!(plan_serve(&m, &m.variants[0], &llama_cpp_only(), Some(0), None).is_err());
}

#[test]
fn runtime_serve_mlx_model() {
    let mut m = hf_model();
    m.source = Source::Mlx;
    m.repo = Some("mlx-community/Llama-3.1-8B-Instruct-4bit".into());
    m.variants = vec![variant("MLX_4BIT", vec![RuntimeKind::MlxLm])];
    let rt = RuntimesStatus {
        mlx: RuntimeStatus {
            installed: true,
            version: Some("0.24.0".into()),
            running: false,
        },
        ..Default::default()
    };
    let p = plan_serve(&m, &m.variants[0], &rt, None, None).unwrap();
    assert_eq!(
        p.server_argv,
        Some(vec![
            "mlx_lm.server".to_string(),
            "--model".to_string(),
            "mlx-community/Llama-3.1-8B-Instruct-4bit".to_string(),
            "--port".to_string(),
            "8080".to_string(),
        ])
    );
    assert_eq!(p.openai_url, "http://127.0.0.1:8080/v1/chat/completions");
    assert_eq!(p.model_ref, "mlx-community/Llama-3.1-8B-Instruct-4bit");
    assert_eq!(p.ready_path, "/v1/models");
    assert_eq!(p.runtime, RuntimeKind::MlxLm);
}

#[test]
fn runtime_serve_without_any_runtime_proposes_install() {
    let m = hf_model();
    let p = plan_serve(&m, &m.variants[0], &RuntimesStatus::default(), None, None).unwrap();
    let install = p.install.expect("must propose install");
    assert_eq!(install.argv, vec!["brew", "install", "ollama"]);
    // plan still describes what will happen post-install (ollama path)
    assert_eq!(p.endpoint, "http://127.0.0.1:11434");
}

#[test]
fn runtime_serve_rejects_repo_less_and_bad_quants_like_run() {
    let mut m = hf_model();
    m.repo = None;
    assert!(plan_serve(&m, &m.variants[0], &ollama_running(), None, None).is_err());
    let m2 = hf_model();
    let bad = variant("MLX_4BIT", vec![RuntimeKind::MlxLm]);
    assert!(plan_serve(&m2, &bad, &ollama_running(), None, None).is_err());
}

/// HF model whose repo ships a separate mmproj file: llama.cpp-only.
fn mmproj_model() -> CatalogModel {
    let mut m = hf_model();
    m.name = "Qwen3.6-35B-A3B-MTP-GGUF".into();
    m.repo = Some("unsloth/Qwen3.6-35B-A3B-MTP-GGUF".into());
    m.variants = vec![variant("UD-Q4_K_M", vec![RuntimeKind::LlamaCpp])];
    m
}

fn ollama_and_llama_cpp() -> RuntimesStatus {
    let mut rt = ollama_running();
    rt.llama_cpp = RuntimeStatus {
        installed: true,
        version: None,
        running: false,
    };
    rt
}

#[test]
fn serve_llama_cpp_only_variant_never_uses_ollama_even_if_running() {
    let m = mmproj_model();
    let p = plan_serve(&m, &m.variants[0], &ollama_and_llama_cpp(), None, None).unwrap();
    assert_eq!(
        p.server_argv,
        Some(vec![
            "llama-server".to_string(),
            "-hf".to_string(),
            "unsloth/Qwen3.6-35B-A3B-MTP-GGUF:UD-Q4_K_M".to_string(),
            "--port".to_string(),
            "8080".to_string(),
            "-c".to_string(),
            "8192".to_string(),
            "--no-mmproj".to_string(),
        ])
    );
    assert!(
        p.pre_steps.is_empty(),
        "must not ollama pull: {:?}",
        p.pre_steps
    );
    assert_eq!(p.runtime, RuntimeKind::LlamaCpp);
    assert!(p.install.is_none());
}

#[test]
fn serve_llama_cpp_only_variant_without_runtimes_proposes_llama_cpp_install() {
    let m = mmproj_model();
    let p = plan_serve(&m, &m.variants[0], &RuntimesStatus::default(), None, None).unwrap();
    let install = p.install.expect("must propose install");
    assert_eq!(install.kind, RuntimeKind::LlamaCpp);
    assert_eq!(install.argv, vec!["brew", "install", "llama.cpp"]);
    // plan still shows what will run post-install: llama-server shape
    let argv = p.server_argv.expect("llama-server argv");
    assert_eq!(argv[0], "llama-server");
    assert_eq!(p.endpoint, "http://127.0.0.1:8080");
    assert_eq!(p.ready_path, "/health");
    assert_eq!(p.runtime, RuntimeKind::LlamaCpp);
}

#[test]
fn serve_llama_cpp_only_variant_with_only_ollama_running_still_llama_server() {
    let m = mmproj_model();
    let p = plan_serve(&m, &m.variants[0], &ollama_running(), None, None).unwrap();
    assert_eq!(p.runtime, RuntimeKind::LlamaCpp);
    assert!(p.pre_steps.is_empty());
    let install = p.install.expect("llama.cpp not installed → propose it");
    assert_eq!(install.argv, vec!["brew", "install", "llama.cpp"]);
}

#[test]
fn run_llama_cpp_only_variant_uses_llama_cli() {
    let m = mmproj_model();
    let plan = plan_run(&m, &m.variants[0], &ollama_and_llama_cpp(), None).unwrap();
    assert_eq!(
        plan.argv,
        vec![
            "llama-cli",
            "-hf",
            "unsloth/Qwen3.6-35B-A3B-MTP-GGUF:UD-Q4_K_M",
            "-c",
            "8192",
            "--no-mmproj"
        ]
    );
    assert!(plan.install.is_none());
}

#[test]
fn run_llama_cpp_only_variant_without_runtimes_proposes_llama_cpp_install() {
    let m = mmproj_model();
    let plan = plan_run(&m, &m.variants[0], &RuntimesStatus::default(), None).unwrap();
    assert_eq!(plan.argv[0], "llama-cli");
    let install = plan.install.expect("must propose install");
    assert_eq!(install.kind, RuntimeKind::LlamaCpp);
    assert_eq!(install.argv, vec!["brew", "install", "llama.cpp"]);
}

#[test]
fn ud_quants_accepted_on_ollama_path_too() {
    // UD- tags now have a known bpw and name a real file in the repo, so
    // the hf.co ref is valid for ollama-compatible variants.
    let mut m = hf_model();
    m.variants = vec![variant(
        "UD-Q4_K_M",
        vec![RuntimeKind::Ollama, RuntimeKind::LlamaCpp],
    )];
    let plan = plan_run(&m, &m.variants[0], &with_ollama(), None).unwrap();
    assert_eq!(
        plan.argv,
        vec![
            "ollama",
            "run",
            "hf.co/bartowski/Meta-Llama-3.1-8B-Instruct-GGUF:UD-Q4_K_M"
        ]
    );
}

#[test]
fn runtime_display_shell_quotes_unsafe_elements() {
    let plan = RunPlan {
        argv: vec!["ollama".into(), "run".into(), "weird name".into()],
        install: None,
    };
    assert_eq!(plan.display(), "ollama run 'weird name'");
}

#[test]
fn display_shell_quotes_unsafe_elements() {
    let plan = RunPlan {
        argv: vec!["ollama".into(), "run".into(), "weird name".into()],
        install: None,
    };
    assert_eq!(plan.display(), "ollama run 'weird name'");
}

/// Reads a word of a shell that uses single quotes and backslashes only.
fn unquote(word: &str) -> String {
    let mut out = String::new();
    let mut quoted = false;
    let mut chars = word.chars();
    while let Some(c) = chars.next() {
        match c {
            '\'' => quoted = !quoted,
            '\\' if !quoted => out.extend(chars.next()),
            c => out.push(c),
        }
    }
    out
}

#[test]
fn a_shell_reads_quoted_words_back() {
    for word in ["", "plain", "a b", "it's", "''", "$HOME;rm", "a\\b", "über", "-c", "x\ny"] {
        assert_eq!(unquote(&shell_quote(word)), word, "{word:?}");
    }
    assert_eq!(shell_quote("hf.co/a/b:Q4_K_M"), "hf.co/a/b:Q4_K_M");
}

#[test]
fn moved_port_is_the_planned_port() {
    let m = hf_model();
    let moved = plan_serve(&m, &m.variants[0], &llama_cpp_only(), None, None)
        .unwrap()
        .with_port(9000);
    let planned = plan_serve(&m, &m.variants[0], &llama_cpp_only(), Some(9000), None).unwrap();
    assert_eq!(moved.server_argv, planned.server_argv);
    assert_eq!(moved.endpoint, planned.endpoint);
    let twice = planned.with_port(1).with_port(9000);
    assert_eq!(moved.server_argv, twice.server_argv);
    assert_eq!(moved.openai_url, twice.openai_url);
}
