//! From a name to a running server.

use paddock::catalog::{CatalogModel, CatalogVariant, RuntimeKind, Source};
use paddock::cli::{sync_options, Cli, Command, UseCaseArg};
use paddock::error::PaddockError;
use paddock::estimate::MemoryBudget;
use paddock::launch::{
    agrees_to_install, exited_message, find_model, install_step, installer_missing_hint,
    needs_sync, readiness_deadline, resolve_model, InstallEvent, InstallStep, Lookup, Look,
    Resolved, ServeFlow, ServeStep, WaitStep, Waiting,
};
use paddock::paths::{join_path, resolve, support_base};
use paddock::catalog::db::default_db_path;
use paddock::runtime::{InstallPlan, ServePlan};
use paddock::score::UseCase;

/// A hundredth of a bit per weight.
const CENT: u64 = 100_000_000_000_000;

fn model(name: &str) -> CatalogModel {
    CatalogModel {
        id: 0,
        name: name.to_string(),
        family: None,
        source: Source::HuggingFace,
        repo: None,
        params_total: 8_000_000_000,
        params_active: 8_000_000_000,
        architecture: None,
        context_max: 8192,
        released_at: None,
        released_approx: false,
        variants: vec![],
    }
}

#[test]
fn main_exact_match_wins_over_contains() {
    let models = vec![model("Llama3"), model("Llama3-70B")];
    match find_model(&models, "Llama3") {
        Lookup::Found(m) => assert_eq!(m.name, "Llama3"),
        _ => panic!("expected exact match"),
    }
}

#[test]
fn main_case_insensitive_exact_match_beats_ambiguous_contains() {
    let models = vec![model("Llama3"), model("Llama3-70B")];
    match find_model(&models, "llama3") {
        Lookup::Found(m) => assert_eq!(m.name, "Llama3"),
        other => panic!(
            "expected case-insensitive exact match, got {}",
            match other {
                Lookup::Ambiguous(_) => "Ambiguous",
                Lookup::NotFound => "NotFound",
                Lookup::Found(_) => unreachable!(),
            }
        ),
    }
}

#[test]
fn main_contains_still_resolves_unique_substring() {
    let models = vec![model("Llama3-70B"), model("Qwen2.5-Coder")];
    match find_model(&models, "qwen") {
        Lookup::Found(m) => assert_eq!(m.name, "Qwen2.5-Coder"),
        _ => panic!("expected contains match"),
    }
}

#[test]
fn main_ambiguous_when_no_exact_and_multiple_contains() {
    let models = vec![model("Llama3-8B"), model("Llama3-70B")];
    match find_model(&models, "llama3") {
        Lookup::Ambiguous(names) => assert_eq!(names.len(), 2),
        _ => panic!("expected ambiguous"),
    }
}

#[test]
fn main_not_found_when_nothing_matches() {
    let models = vec![model("Llama3")];
    assert!(matches!(find_model(&models, "mistral"), Lookup::NotFound));
}

#[test]
fn spawned_child_waits_without_deadline() {
    // First-run model downloads can take tens of minutes; any fixed cap
    // would kill a healthy child mid-download.
    assert_eq!(readiness_deadline(true), None);
}

#[test]
fn daemon_probe_keeps_short_deadline() {
    assert_eq!(
        readiness_deadline(false),
        Some(3)
    );
}

#[test]
fn exact_match_wins_over_contains() {
    let models = vec![model("Llama3"), model("Llama3-70B")];
    match find_model(&models, "Llama3") {
        Lookup::Found(m) => assert_eq!(m.name, "Llama3"),
        _ => panic!("expected exact match"),
    }
}

#[test]
fn case_insensitive_exact_match_beats_ambiguous_contains() {
    let models = vec![model("Llama3"), model("Llama3-70B")];
    match find_model(&models, "llama3") {
        Lookup::Found(m) => assert_eq!(m.name, "Llama3"),
        other => panic!(
            "expected case-insensitive exact match, got {}",
            match other {
                Lookup::Ambiguous(_) => "Ambiguous",
                Lookup::NotFound => "NotFound",
                Lookup::Found(_) => unreachable!(),
            }
        ),
    }
}

#[test]
fn contains_still_resolves_unique_substring() {
    let models = vec![model("Llama3-70B"), model("Qwen2.5-Coder")];
    match find_model(&models, "qwen") {
        Lookup::Found(m) => assert_eq!(m.name, "Qwen2.5-Coder"),
        _ => panic!("expected contains match"),
    }
}

#[test]
fn ambiguous_when_no_exact_and_multiple_contains() {
    let models = vec![model("Llama3-8B"), model("Llama3-70B")];
    match find_model(&models, "llama3") {
        Lookup::Ambiguous(names) => assert_eq!(names.len(), 2),
        _ => panic!("expected ambiguous"),
    }
}

#[test]
fn not_found_when_nothing_matches() {
    let models = vec![model("Llama3")];
    assert!(matches!(find_model(&models, "mistral"), Lookup::NotFound));
}

fn sized(name: &str, quants: &[(&str, u64)]) -> CatalogModel {
    let mut m = model(name);
    for (quant, bpw) in quants {
        m.variants.push(CatalogVariant {
            quant: quant.to_string(),
            bpw: *bpw * CENT,
            file_size_bytes: None,
            layers: 32,
            kv_heads: 8,
            head_dim: 128,
            embedding_dim: 4096,
            runtime_compat: vec![RuntimeKind::Ollama],
            source_tag: None,
        });
    }
    m
}

const ROOMY: MemoryBudget = MemoryBudget {
    gpu_effective_bytes: 8 << 30,
    ram_total_bytes: 16 << 30,
};

const TINY: MemoryBudget = MemoryBudget {
    gpu_effective_bytes: 1 << 30,
    ram_total_bytes: 2 << 30,
};

#[test]
fn best_quant_that_fits_is_launched() {
    let models = vec![sized("Llama3", &[("Q2_K", 335), ("Q8_0", 850), ("Q4_K_M", 483)])];
    match resolve_model(&models, "llama", None, &ROOMY) {
        Resolved::Chosen(m, i) => assert_eq!(m.variants[i].quant, "Q4_K_M"),
        _ => panic!("expected a choice"),
    }
}

#[test]
fn asked_quant_is_launched_even_if_it_does_not_fit() {
    let models = vec![sized("Llama3", &[("Q8_0", 850), ("Q4_K_M", 483)])];
    match resolve_model(&models, "Llama3", Some("q8_0"), &TINY) {
        Resolved::Chosen(m, i) => assert_eq!(m.variants[i].quant, "Q8_0"),
        _ => panic!("expected a choice"),
    }
    match resolve_model(&models, "Llama3", Some("Q9"), &TINY) {
        Resolved::Failed(e) => assert_eq!(
            e.message(),
            "model `Llama3` has no quantization `Q9`; available: Q8_0, Q4_K_M"
        ),
        _ => panic!("expected a failure"),
    }
}

#[test]
fn launch_failures_say_why() {
    let models = vec![sized("Llama3-8B", &[("Q8_0", 850)]), model("Llama3-70B")];
    match resolve_model(&models, "Llama3-8B", None, &TINY) {
        Resolved::Failed(e) => assert_eq!(
            e.message(),
            "no quantization of `Llama3-8B` fits this machine (2.0 GiB RAM); \
             try a smaller model from `paddock fit`"
        ),
        _ => panic!("expected a failure"),
    }
    match resolve_model(&models, "definitely-not-a-model", None, &ROOMY) {
        Resolved::Failed(PaddockError::ModelNotFound(q)) => {
            assert_eq!(q, "definitely-not-a-model");
        }
        _ => panic!("expected a failure"),
    }
    match resolve_model(&models, "llama3", None, &ROOMY) {
        Resolved::Ambiguous(lines) => assert_eq!(
            lines,
            vec![
                "model name `llama3` is ambiguous — candidates:",
                "  Llama3-8B",
                "  Llama3-70B"
            ]
        ),
        _ => panic!("expected candidates"),
    }
}

#[test]
fn errors_have_their_messages() {
    let e = PaddockError::ModelNotFound("x".into());
    assert_eq!(
        e.message(),
        "model `x` not found in catalog. Run `paddock sync` or check `paddock fit` for names."
    );
    let e = PaddockError::Sysctl {
        name: "hw.memsize".into(),
        reason: "gone".into(),
    };
    assert_eq!(
        e.message(),
        "sysctl `hw.memsize` unavailable (gone); is this a macOS machine?"
    );
    assert_eq!(PaddockError::Gguf("cut".into()).message(), "malformed GGUF header: cut");
    assert!(PaddockError::Network("down".into()).message().starts_with("network error: down"));
    assert_eq!(PaddockError::Other("x".into()).message(), "x");
}

#[test]
fn nothing_is_installed_without_consent() {
    let plan = InstallPlan {
        kind: RuntimeKind::Ollama,
        argv: vec!["brew".into(), "install".into(), "ollama".into()],
    };
    assert!(matches!(
        install_step(&plan, &InstallEvent::Terminal(false)),
        InstallStep::Stop(m) if m.contains("`brew install ollama`")
    ));
    assert!(matches!(install_step(&plan, &InstallEvent::Terminal(true)), InstallStep::Ask(_)));
    for (answer, agreed) in [("y\n", true), (" YES ", true), ("n", false), ("", false)] {
        assert_eq!(agrees_to_install(answer), agreed);
        let step = install_step(&plan, &InstallEvent::Answer(answer.into()));
        assert_eq!(matches!(step, InstallStep::Look(b) if b == "brew"), agreed);
    }
    assert!(matches!(
        install_step(&plan, &InstallEvent::Found(false)),
        InstallStep::Stop(m) if m == installer_missing_hint("brew")
    ));
    assert!(matches!(
        install_step(&plan, &InstallEvent::Found(true)),
        InstallStep::Run(argv) if argv == plan.argv
    ));
    assert!(matches!(install_step(&plan, &InstallEvent::Exited(None)), InstallStep::Done));
    assert!(matches!(
        install_step(&plan, &InstallEvent::Exited(Some("exit status: 1".into()))),
        InstallStep::Stop(m) if m == "`brew install ollama` failed (exit status: 1); fix the install and retry"
    ));
    assert!(installer_missing_hint("uv").contains("https://docs.astral.sh/uv"));
    assert!(installer_missing_hint("pip").starts_with("pip not found"));
}

#[test]
fn waiting_notices_and_gives_up() {
    let look = |answers, exited, elapsed_ms| Look {
        answers,
        exited,
        elapsed_ms,
    };
    let mut w = Waiting::new(true);
    assert_eq!(
        w.step(look(false, false, 4_999)),
        WaitStep::Again { notify: false, heartbeat: false }
    );
    assert_eq!(
        w.step(look(false, false, 5_000)),
        WaitStep::Again { notify: true, heartbeat: false }
    );
    assert_eq!(
        w.step(look(false, false, 60_000)),
        WaitStep::Again { notify: false, heartbeat: true }
    );
    assert_eq!(
        w.step(look(false, false, 119_999)),
        WaitStep::Again { notify: false, heartbeat: false }
    );
    assert_eq!(w.step(look(false, true, 120_000)), WaitStep::FailExited);
    assert_eq!(w.step(look(true, true, 120_000)), WaitStep::Ready);
    let mut w = Waiting::new(false);
    assert!(matches!(w.step(look(false, false, 2_999)), WaitStep::Again { .. }));
    assert_eq!(w.step(look(false, false, 3_000)), WaitStep::FailUnreachable);
    assert_eq!(
        exited_message("exit status: 1", &vec!["llama-server".into(), "-hf".into()]),
        "server exited with exit status: 1 before becoming ready — \
         run `llama-server -hf` manually to see the error"
    );
}

fn serve_plan(server: bool, runtime: RuntimeKind) -> ServePlan {
    ServePlan {
        server_argv: server.then(|| vec!["server".to_string()]),
        pre_steps: vec![vec!["ollama".into(), "pull".into(), "m".into()]],
        endpoint: "http://127.0.0.1:8080".into(),
        openai_url: "http://127.0.0.1:8080/v1/chat/completions".into(),
        model_ref: "m".into(),
        ready_path: "/health".into(),
        install: None,
        port_ignored: false,
        runtime,
        ctx: 0,
        port: None,
    }
}

#[test]
fn serving_step_by_step() {
    let mut plan = serve_plan(true, RuntimeKind::Ollama);
    plan.port_ignored = true;
    plan.install = Some(InstallPlan {
        kind: RuntimeKind::Ollama,
        argv: vec!["brew".into()],
    });
    let mut f = ServeFlow::new(plan, false);
    assert!(matches!(f.next(true), ServeStep::WarnPort));
    assert!(matches!(f.next(true), ServeStep::Install(_)));
    assert!(matches!(f.next(true), ServeStep::Spawn { detached: true, .. }));
    assert!(matches!(
        f.next(true),
        ServeStep::Await { url } if url == "http://127.0.0.1:8080/health"
    ));
    assert!(matches!(f.next(true), ServeStep::Run(argv) if argv[1] == "pull"));
    assert!(matches!(f.next(true), ServeStep::WarmUp(m) if m == "m"));
    assert!(matches!(f.next(false), ServeStep::ShowEndpoint));
    assert!(matches!(f.next(true), ServeStep::Detach));
    assert!(matches!(f.next(true), ServeStep::Finish));
}

#[test]
fn failure_stops_the_server_that_was_started() {
    let mut f = ServeFlow::new(serve_plan(true, RuntimeKind::LlamaCpp), true);
    assert!(matches!(f.next(true), ServeStep::Spawn { detached: false, .. }));
    assert!(matches!(f.next(true), ServeStep::Await { .. }));
    assert!(matches!(f.next(true), ServeStep::Run(_)));
    assert!(matches!(f.next(false), ServeStep::Kill));
    assert!(matches!(f.next(true), ServeStep::Fail));
    let mut f = ServeFlow::new(serve_plan(true, RuntimeKind::LlamaCpp), true);
    f.next(true);
    assert!(matches!(f.next(false), ServeStep::Fail), "nothing was started");
    let mut f = ServeFlow::new(serve_plan(false, RuntimeKind::Ollama), false);
    assert!(matches!(f.next(true), ServeStep::Await { .. }));
    assert!(matches!(f.next(false), ServeStep::Fail));
}

#[test]
fn catalog_is_synced_when_stale() {
    let now = 1_780_000_000;
    assert!(needs_sync(None, now, false));
    assert!(needs_sync(Some(now), now, true));
    assert!(!needs_sync(Some(now - 86_400), now, false));
    assert!(needs_sync(Some(now - 86_401), now, false));
}

#[test]
fn former_directory_is_renamed_once() {
    let base = support_base(Some("/Users/x"));
    assert_eq!(base, "/Users/x/Library/Application Support");
    assert_eq!(support_base(None), "./Library/Application Support");
    let d = resolve(&base, false, true);
    assert_eq!(d.dir, format!("{base}/paddock"));
    assert_eq!(d.rename_from, Some(format!("{base}/tetro")));
    assert_eq!(resolve(&base, true, true).rename_from, None);
    assert_eq!(resolve(&base, false, false).rename_from, None);
    assert_eq!(default_db_path(None, &d.dir), format!("{base}/paddock/catalog.db"));
    assert_eq!(default_db_path(Some("/tmp/x.db".into()), &d.dir), "/tmp/x.db");
    for (a, b) in [("/", "x"), ("", "x"), ("/a/", "x"), ("/a", "x")] {
        assert_eq!(join_path(a, b), std::path::Path::new(a).join(b).to_str().unwrap());
    }
}

#[test]
fn command_lines() {
    let cli = |json, cli, command| Cli { json, cli, command };
    assert!(cli(false, false, None).chosen().is_none());
    assert!(matches!(
        cli(true, false, None).chosen(),
        Some(Command::Fit { all: false, use_case: UseCaseArg::General, limit: 20 })
    ));
    assert!(matches!(cli(false, true, Some(Command::Ps)).chosen(), Some(Command::Ps)));
    assert_eq!(UseCase::from(UseCaseArg::Coding), UseCase::Coding);
    let o = sync_options(1, 2, true, 3, false);
    assert_eq!((o.hf_limit, o.mlx_limit, o.ollama_registry, o.discover_limit), (1, 2, false, Some(3)));
    assert_eq!(sync_options(1, 2, false, 3, true).discover_limit, None);
}

#[test]
fn names_match_in_any_alphabet() {
    let models = vec![model("Été-7B"), model("ΣΟΦΙΑ")];
    assert!(matches!(find_model(&models, "ÉTÉ"), Lookup::Found(m) if m.name == "Été-7B"));
    assert!(matches!(find_model(&models, "σοφια"), Lookup::Found(m) if m.name == "ΣΟΦΙΑ"));
}
