//! The menu of the menu bar item.

use paddock::catalog::RuntimeKind;
use paddock::hardware::runtimes::RuntimesStatus;
use paddock::output::gib;
use paddock::serving::{LoadedModel, ServingRecord};
use paddock::tray::menu_model::{build_menu_model, host_port, MenuEntry};

fn record(runtime: RuntimeKind, port: u16, model_ref: &str) -> ServingRecord {
    ServingRecord {
        pid: 1234,
        runtime,
        endpoint: format!("http://127.0.0.1:{port}"),
        openai_url: format!("http://127.0.0.1:{port}/v1/chat/completions"),
        model_ref: model_ref.to_string(),
        ready_path: "/health".into(),
        started_at: 1_770_000_000,
        ctx: 0,
        log_path: None,
        port: None,
    }
}

fn runtimes(ollama: bool, llama: bool, mlx: bool) -> RuntimesStatus {
    let mut s = RuntimesStatus::default();
    s.ollama.installed = ollama;
    s.llama_cpp.installed = llama;
    s.mlx.installed = mlx;
    s
}

const GIB18: u64 = 18 * 1024 * 1024 * 1024;

#[test]
fn ollama_with_loaded_models() {
    let ps = vec![LoadedModel {
        name: "qwen3:30b-a3b".into(),
        size_bytes: GIB18,
    }];
    let m = build_menu_model(&[], Some(&ps), &runtimes(true, false, false));
    assert_eq!(
        m.entries,
        vec![
            MenuEntry::Header("Ollama — 127.0.0.1:11434".into()),
            MenuEntry::Model {
                label: "qwen3:30b-a3b — 18.0 GiB".into(),
                copy_url: "http://127.0.0.1:11434/v1/chat/completions".into(),
            },
        ]
    );
}

#[test]
fn ollama_reachable_but_empty_shows_no_model_loaded() {
    let m = build_menu_model(&[], Some(&[]), &runtimes(true, false, false));
    assert_eq!(
        m.entries,
        vec![
            MenuEntry::Header("Ollama — 127.0.0.1:11434".into()),
            MenuEntry::Info("aucun modèle chargé".into()),
        ]
    );
}

#[test]
fn ollama_unreachable_shows_injoignable() {
    let m = build_menu_model(&[], None, &runtimes(true, false, false));
    assert_eq!(
        m.entries,
        vec![MenuEntry::Info("Ollama — injoignable".into())]
    );
}

#[test]
fn ollama_not_installed_no_section() {
    let ps = vec![LoadedModel {
        name: "qwen3:30b-a3b".into(),
        size_bytes: GIB18,
    }];
    // Even with /api/ps data, no Ollama section when it is not installed.
    let m = build_menu_model(&[], Some(&ps), &runtimes(false, true, false));
    assert_eq!(
        m.entries,
        vec![MenuEntry::Info("Aucun serveur actif".into())]
    );
}

#[test]
fn registry_records_get_sections() {
    let records = vec![
        record(RuntimeKind::LlamaCpp, 8080, "unsloth/Qwen3-8B-GGUF:Q4_K_M"),
        record(RuntimeKind::MlxLm, 8081, "mlx-community/Qwen3-8B-4bit"),
    ];
    let m = build_menu_model(&records, None, &runtimes(false, true, true));
    assert_eq!(
        m.entries,
        vec![
            MenuEntry::Header("llama-server — 127.0.0.1:8080".into()),
            MenuEntry::Model {
                label: "unsloth/Qwen3-8B-GGUF:Q4_K_M".into(),
                copy_url: "http://127.0.0.1:8080/v1/chat/completions".into(),
            },
            MenuEntry::Separator,
            MenuEntry::Header("mlx-lm — 127.0.0.1:8081".into()),
            MenuEntry::Model {
                label: "mlx-community/Qwen3-8B-4bit".into(),
                copy_url: "http://127.0.0.1:8081/v1/chat/completions".into(),
            },
        ]
    );
}

#[test]
fn ollama_registry_record_deduped() {
    // paddock booted `ollama serve` → registry record; the daemon section
    // (from /api/ps) already covers it, so the record adds nothing.
    let records = vec![record(RuntimeKind::Ollama, 11434, "qwen3:30b-a3b")];
    let ps = vec![LoadedModel {
        name: "qwen3:30b-a3b".into(),
        size_bytes: GIB18,
    }];
    let m = build_menu_model(&records, Some(&ps), &runtimes(true, false, false));
    assert_eq!(
        m.entries,
        vec![
            MenuEntry::Header("Ollama — 127.0.0.1:11434".into()),
            MenuEntry::Model {
                label: "qwen3:30b-a3b — 18.0 GiB".into(),
                copy_url: "http://127.0.0.1:11434/v1/chat/completions".into(),
            },
        ]
    );
}

#[test]
fn empty_all() {
    // Nothing running, nothing installed → both hint lines.
    let m = build_menu_model(&[], None, &runtimes(false, false, false));
    assert_eq!(
        m.entries,
        vec![
            MenuEntry::Info("Aucun serveur actif".into()),
            MenuEntry::Info(
                "Aucun runtime installé — lance `paddock run` pour installer".into()
            ),
        ]
    );
}

#[test]
fn model_label_uses_gib_formatting() {
    let ps = vec![LoadedModel {
        name: "llama3.2:1b".into(),
        size_bytes: 1_400_000_000,
    }];
    let m = build_menu_model(&[], Some(&ps), &runtimes(true, false, false));
    let MenuEntry::Model { label, .. } = &m.entries[1] else {
        panic!("expected a model row, got {:?}", m.entries[1]);
    };
    // Same binary-GiB formatting as the rest of the CLI (output::gib).
    assert_eq!(label, &format!("llama3.2:1b — {}", gib(1_400_000_000)));
    assert_eq!(label, "llama3.2:1b — 1.3 GiB");
}

#[test]
fn hosts_of_endpoints() {
    assert_eq!(host_port("http://127.0.0.1:8080"), "127.0.0.1:8080");
    assert_eq!(host_port("https://example.org/"), "example.org");
}
