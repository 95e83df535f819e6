//! The terminal interface: keys, rows, servers, and what is drawn.

use paddock::app::ScoredModel;
use paddock::catalog::{quant_bpw, CatalogModel, CatalogVariant, RuntimeKind, Source};
use paddock::double::Double;
use paddock::estimate::{estimate_memory, estimate_speed, MemoryBudget, DEFAULT_CONTEXT};
use paddock::hardware::runtimes::RuntimesStatus;
use paddock::runtime::ServePlan;
use paddock::score::{Score, UseCase};
use paddock::serving::{AvailableRow, ServerRow, StopHandle};
use paddock::tui::draw::{
    available_cells, axis_labels, centered, chart_top, detail_lines, footer_left, footer_right,
    popup_height, server_cells, shows_wordmark, speed_curve, table_cells, Area, DetailLine,
};
use paddock::tui::state::{Action, KeyCode, KeyEvent, Mode, SyncStatus, Tab, TuiState};
use paddock::tui::tasks::{on_sync, SyncMsg, SyncPoll};

/// A hundredth of a bit per weight.
const CENT: u64 = 100_000_000_000_000;

fn score() -> Score {
    let n = |x: u64| Double::of_ratio(x, 1);
    Score {
        total: n(70),
        fit: n(90),
        speed: n(90),
        quality: n(50),
        context: n(60),
    }
}

fn fake_row(name: &str) -> ScoredModel {
    let model = CatalogModel {
        id: 0,
        name: name.to_string(),
        family: None,
        source: Source::Ollama,
        repo: None,
        params_total: 8_000_000_000,
        params_active: 8_000_000_000,
        architecture: None,
        context_max: 8192,
        released_at: None,
        released_approx: false,
        variants: vec![CatalogVariant {
            quant: "Q4_K_M".into(),
            bpw: 483 * CENT,
            file_size_bytes: None,
            layers: 32,
            kv_heads: 8,
            head_dim: 128,
            embedding_dim: 4096,
            runtime_compat: vec![RuntimeKind::Ollama],
            source_tag: None,
        }],
    };
    let budget = MemoryBudget {
        gpu_effective_bytes: 24 * (1u64 << 30),
        ram_total_bytes: 32 * (1u64 << 30),
    };
    let mv = model.to_model_variant(&model.variants[0]);
    let memory = estimate_memory(&mv, DEFAULT_CONTEXT, &budget);
    let speed = estimate_speed(&mv, 40_000, memory.kv_cache_bytes);
    let score = score();
    ScoredModel {
        model,
        variant_idx: 0,
        memory,
        speed,
        score,
    }
}

/// Same as `fake_row` but with a parameterized `context_max`, so tests can
/// build a model whose auto-sized context exceeds the 8192 default.
fn fake_row_ctx(name: &str, context_max: u32) -> ScoredModel {
    let mut row = fake_row(name);
    row.model.context_max = context_max;
    row
}

/// Multi-variant HuggingFace (GGUF) fixture: one CatalogVariant per quant,
/// so detail-mode quant navigation has something to move across.
fn fake_hf_row(name: &str, quants: &[&str]) -> ScoredModel {
    let variants: Vec<CatalogVariant> = quants
        .iter()
        .map(|q| CatalogVariant {
            quant: (*q).into(),
            bpw: quant_bpw(q).unwrap_or(400 * CENT),
            file_size_bytes: None,
            layers: 32,
            kv_heads: 8,
            head_dim: 128,
            embedding_dim: 4096,
            runtime_compat: vec![RuntimeKind::LlamaCpp], // GGUF, not Ollama -> llama-cli/-server
            source_tag: None,
        })
        .collect();
    let model = CatalogModel {
        id: 0,
        name: name.to_string(),
        family: None,
        source: Source::HuggingFace,
        repo: Some(format!("bartowski/{name}")),
        params_total: 8_000_000_000,
        params_active: 8_000_000_000,
        architecture: None,
        context_max: 8192,
        released_at: None,
        released_approx: false,
        variants,
    };
    let budget = MemoryBudget {
        gpu_effective_bytes: 24 * (1u64 << 30),
        ram_total_bytes: 32 * (1u64 << 30),
    };
    let mv = model.to_model_variant(&model.variants[0]);
    let memory = estimate_memory(&mv, DEFAULT_CONTEXT, &budget);
    let speed = estimate_speed(&mv, 40_000, memory.kv_cache_bytes);
    let score = score();
    ScoredModel {
        model,
        variant_idx: 0,
        memory,
        speed,
        score,
    }
}

fn avail(model: &str) -> AvailableRow {
    AvailableRow {
        model: model.into(),
        runtime: RuntimeKind::MlxLm,
        size_bytes: None,
        last_served_at: Some(0),
        plan: ServePlan {
            server_argv: Some(vec![
                "mlx_lm.server".into(),
                "--model".into(),
                model.into(),
                "--port".into(),
                "8080".into(),
            ]),
            pre_steps: vec![],
            endpoint: "http://127.0.0.1:8080".into(),
            openai_url: "http://127.0.0.1:8080/v1/chat/completions".into(),
            model_ref: model.into(),
            ready_path: "/v1/models".into(),
            install: None,
            port_ignored: false,
            runtime: RuntimeKind::MlxLm,
            ctx: 0,
            port: Some(8080),
        },
    }
}

fn srv(pid: u32, model: &str, port: u16) -> ServerRow {
    ServerRow {
        model: model.into(),
        runtime: RuntimeKind::LlamaCpp,
        endpoint: format!("http://127.0.0.1:{port}"),
        openai_url: format!("http://127.0.0.1:{port}/v1/chat/completions"),
        ctx: Some(8192),
        started_at: Some(0),
        stop: StopHandle::Pid(pid),
    }
}

fn state() -> TuiState {
    TuiState::new(
        vec![
            fake_row("Llama3-8B"),
            fake_row("Qwen2.5-Coder"),
            fake_row("Mistral-7B"),
        ],
        UseCase::General,
        RuntimesStatus::default(),
        MemoryBudget {
            gpu_effective_bytes: 24 * (1u64 << 30),
            ram_total_bytes: 32 * (1u64 << 30),
        },
    )
}

fn key(code: KeyCode) -> KeyEvent {
    KeyEvent {
        code,
        ctrl: false,
        alt: false,
    }
}

#[test]
fn arrows_move_selection_within_bounds() {
    let mut s = state();
    assert_eq!(s.selected, 0);
    s.handle_key(key(KeyCode::Up)); // clamped at top
    assert_eq!(s.selected, 0);
    s.handle_key(key(KeyCode::Down));
    assert_eq!(s.selected, 1);
    s.handle_key(key(KeyCode::Down));
    s.handle_key(key(KeyCode::Down)); // clamped at bottom
    s.handle_key(key(KeyCode::Down));
    assert_eq!(s.selected, 2);
    s.handle_key(key(KeyCode::Up));
    assert_eq!(s.selected, 1);
}

#[test]
fn search_filters_incrementally_and_esc_clears() {
    let mut s = state();
    s.handle_key(key(KeyCode::Char('/')));
    assert!(matches!(s.mode, Mode::Search { .. }));
    for c in "qwen".chars() {
        s.handle_key(key(KeyCode::Char(c)));
    }
    assert_eq!(s.rows.len(), 1);
    assert_eq!(s.rows[0].model.name, "Qwen2.5-Coder");
    assert_eq!(s.selected, 0);
    // Enter applies the filter and returns to the list
    s.handle_key(key(KeyCode::Enter));
    assert_eq!(s.mode, Mode::List);
    assert_eq!(s.rows.len(), 1);
    // '/' again then Esc clears everything
    s.handle_key(key(KeyCode::Char('/')));
    s.handle_key(key(KeyCode::Esc));
    assert_eq!(s.mode, Mode::List);
    assert_eq!(s.rows.len(), 3);
    assert!(s.query.is_empty());
}

#[test]
fn x_returns_run_action_with_runtime_argv() {
    let mut s = state();
    let action = s.handle_key(key(KeyCode::Char('x')));
    match action {
        Action::Run(plan) => {
            assert!(!plan.argv.is_empty());
            assert_eq!(plan.argv[0], "ollama");
            // ollama not installed in the fake RuntimesStatus: the plan
            // must carry an install step, never auto-run it.
            assert!(plan.install.is_some());
        }
        other => panic!("expected Action::Run, got {other:?}"),
    }
}

#[test]
fn s_returns_serve_action_with_endpoint() {
    // List mode
    let mut s = state();
    let action = s.handle_key(key(KeyCode::Char('s')));
    match action {
        Action::Serve(plan) => {
            assert!(!plan.endpoint.is_empty());
            // Ollama-shaped plan: fixed daemon port + `ollama pull` pre-step.
            assert!(plan.endpoint.contains("11434"));
            assert_eq!(plan.pre_steps[0][0], "ollama");
            // ollama not installed in the fake RuntimesStatus: the plan
            // must carry an install step, never auto-run it.
            assert!(plan.install.is_some());
        }
        other => panic!("expected Action::Serve, got {other:?}"),
    }
    // Detail mode: same key, same action.
    let mut s = state();
    s.handle_key(key(KeyCode::Enter));
    assert_eq!(s.mode, Mode::Detail);
    assert!(matches!(s.detail_serve_plan, Some(Ok(_))));
    assert!(matches!(
        s.handle_key(key(KeyCode::Char('s'))),
        Action::Serve(_)
    ));
}

#[test]
fn ctrl_c_quits_from_all_modes() {
    let ctrl_c = KeyEvent {
        code: KeyCode::Char('c'),
        ctrl: true,
        alt: false,
    };
    // List
    let mut s = state();
    assert!(matches!(s.handle_key(ctrl_c), Action::Quit));
    // Detail
    let mut s = state();
    s.handle_key(key(KeyCode::Enter));
    assert_eq!(s.mode, Mode::Detail);
    assert!(matches!(s.handle_key(ctrl_c), Action::Quit));
    // Search - and the 'c' must not land in the query
    let mut s = state();
    s.handle_key(key(KeyCode::Char('/')));
    assert!(matches!(s.handle_key(ctrl_c), Action::Quit));
    assert!(matches!(&s.mode, Mode::Search { query } if query.is_empty()));
}

#[test]
fn search_ignores_modified_chars() {
    let mut s = state();
    s.handle_key(key(KeyCode::Char('/')));
    s.handle_key(KeyEvent {
        code: KeyCode::Char('a'),
        ctrl: false,
        alt: true,
    });
    assert!(matches!(&s.mode, Mode::Search { query } if query.is_empty()));
    assert_eq!(s.rows.len(), 3);
}

#[test]
fn detail_entry_computes_plan_and_exit_clears_it() {
    let mut s = state();
    assert!(s.detail_plan.is_none());
    s.handle_key(key(KeyCode::Enter));
    assert_eq!(s.mode, Mode::Detail);
    match &s.detail_plan {
        Some(Ok(plan)) => assert_eq!(plan.argv[0], "ollama"),
        other => panic!("expected Some(Ok(plan)), got {other:?}"),
    }
    s.handle_key(key(KeyCode::Esc));
    assert_eq!(s.mode, Mode::List);
    assert!(s.detail_plan.is_none());
    assert!(s.detail_serve_plan.is_none());
}

#[test]
fn rescore_preserves_cursor_clamped() {
    let mut s = state();
    s.handle_key(key(KeyCode::Down));
    s.handle_key(key(KeyCode::Down));
    assert_eq!(s.selected, 2);
    // Same query, new rows: cursor kept.
    s.set_rows(
        vec![
            fake_row("Llama3-8B"),
            fake_row("Qwen2.5-Coder"),
            fake_row("Mistral-7B"),
        ],
        UseCase::Coding,
    );
    assert_eq!(s.selected, 2);
    // Fewer rows: cursor clamped to the last one.
    s.set_rows(vec![fake_row("Llama3-8B")], UseCase::Chat);
    assert_eq!(s.selected, 0);
}

#[test]
fn set_rows_preserving_keeps_selection_by_name() {
    let mut s = state();
    s.selected = 2;
    let name = s.rows[2].model.name.clone();
    assert_eq!(name, "Mistral-7B");
    // Same three models, reversed order.
    s.set_rows_preserving(
        vec![
            fake_row("Mistral-7B"),
            fake_row("Qwen2.5-Coder"),
            fake_row("Llama3-8B"),
        ],
        UseCase::Coding,
    );
    assert_eq!(s.rows[s.selected].model.name, name);
    assert_eq!(s.selected, 0);
}

#[test]
fn set_rows_preserving_clamps_when_model_gone() {
    let mut s = state();
    s.selected = 2;
    // The selected model is gone; only the first remains.
    s.set_rows_preserving(vec![fake_row("Llama3-8B")], UseCase::Coding);
    assert!(s.selected < s.rows.len());
    assert_eq!(s.selected, 0);
}

#[test]
fn set_rows_preserving_reapplies_active_query() {
    let mut s = state();
    s.apply_search("qwen");
    assert_eq!(s.rows.len(), 1);
    // Fresh full rows arrive; the "qwen" filter must still apply.
    s.set_rows_preserving(
        vec![
            fake_row("Llama3-8B"),
            fake_row("Qwen2.5-Coder"),
            fake_row("Qwen2.5-7B"),
            fake_row("Mistral-7B"),
        ],
        UseCase::Coding,
    );
    assert_eq!(s.rows.len(), 2);
    assert!(
        s.rows
            .iter()
            .all(|r| r.model.name.to_lowercase().contains("qwen"))
    );
}

#[test]
fn sync_status_default_is_idle() {
    let s = state();
    assert!(matches!(s.sync_status, SyncStatus::Idle));
}

#[test]
fn running_then_done_and_failed() {
    assert!(matches!(
        SyncStatus::Idle.advance_running(),
        SyncStatus::Running
    ));
    let done = SyncStatus::Running.on_done();
    assert!(matches!(done, SyncStatus::Done { .. }));
    let failed = SyncStatus::Running.on_failed("boom".into());
    assert!(matches!(failed, SyncStatus::Failed(m) if m == "boom"));
}

#[test]
fn tab_toggles_between_models_and_servers() {
    let mut s = state();
    assert_eq!(s.tab, Tab::Models);
    s.handle_key(key(KeyCode::Tab));
    assert_eq!(s.tab, Tab::Servers);
    s.handle_key(key(KeyCode::Tab));
    assert_eq!(s.tab, Tab::Models);
}

#[test]
fn servers_tab_navigation_is_clamped() {
    let mut s = state();
    s.set_snapshot(vec![srv(1, "a", 8080), srv(2, "b", 8081)], vec![]);
    s.handle_key(key(KeyCode::Tab)); // -> Servers
    assert_eq!(s.server_selected, 0);
    s.handle_key(key(KeyCode::Up)); // clamped at top
    assert_eq!(s.server_selected, 0);
    s.handle_key(key(KeyCode::Down));
    assert_eq!(s.server_selected, 1);
    s.handle_key(key(KeyCode::Down)); // clamped at bottom
    assert_eq!(s.server_selected, 1);
}

#[test]
fn set_snapshot_preserves_selection_by_model() {
    let mut s = state();
    s.set_snapshot(vec![srv(10, "a", 8080), srv(20, "b", 8081)], vec![]);
    s.tab = Tab::Servers;
    s.server_selected = 1; // model "b"
    s.set_snapshot(vec![srv(20, "b", 8081)], vec![]); // model "a" dropped
    // The cursor follows model "b" to its new index, keyed on the model name.
    assert_eq!(s.server_selected, 0);
    assert_eq!(s.selected_server().unwrap().model, "b");
}

#[test]
fn q_quits_and_c_rescores_for_coding() {
    let mut s = state();
    assert!(matches!(
        s.handle_key(key(KeyCode::Char('c'))),
        Action::Rescore(UseCase::Coding)
    ));
    assert_eq!(s.use_case, UseCase::Coding);
    assert!(matches!(
        s.handle_key(key(KeyCode::Char('q'))),
        Action::Quit
    ));
}

#[test]
fn x_on_servers_tab_returns_stop_action() {
    let mut s = state();
    s.set_snapshot(vec![srv(42, "qwen", 8080)], vec![]);
    s.tab = Tab::Servers;
    match s.handle_key(key(KeyCode::Char('x'))) {
        Action::StopServer(h) => assert_eq!(h, StopHandle::Pid(42)),
        other => panic!("expected StopServer, got {other:?}"),
    }
}

#[test]
fn c_on_servers_tab_returns_copy_action() {
    let mut s = state();
    s.set_snapshot(vec![srv(42, "qwen", 8080)], vec![]);
    s.tab = Tab::Servers;
    match s.handle_key(key(KeyCode::Char('c'))) {
        Action::CopyEndpoint(url) => {
            assert_eq!(url, "http://127.0.0.1:8080/v1/chat/completions")
        }
        other => panic!("expected CopyEndpoint, got {other:?}"),
    }
}

#[test]
fn remove_selected_drops_and_clamps() {
    let mut s = state();
    s.set_snapshot(
        vec![srv(1, "a", 8080), srv(2, "b", 8081), srv(3, "c", 8082)],
        vec![],
    );
    s.tab = Tab::Servers;
    s.server_selected = 2; // last (model "c")
    s.remove_selected();
    assert_eq!(s.servers.len(), 2);
    assert_eq!(s.server_selected, 1); // clamped from 2 to last valid index
    // The dropped row is gone.
    assert!(s.servers.iter().all(|r| r.model != "c"));
}

#[test]
fn remove_selected_on_empty_is_noop() {
    let mut s = state();
    s.remove_selected();
    assert_eq!(s.servers.len(), 0);
    assert_eq!(s.server_selected, 0);
}

#[test]
fn tui_serve_plan_auto_sizes_context() {
    // A roomy budget + large context_max should auto-size well above the 8192 default.
    let mut s = state();
    s.rows = vec![fake_row_ctx("Big", 32_768)];
    s.all_rows = s.rows.clone();
    s.selected = 0;
    let plan = s.serve_plan_for_selected().unwrap().unwrap();
    assert!(plan.ctx > 8192, "expected auto-sized ctx, got {}", plan.ctx);
}

#[test]
fn x_on_empty_servers_tab_is_noop() {
    let mut s = state();
    s.tab = Tab::Servers;
    assert!(matches!(s.handle_key(key(KeyCode::Char('x'))), Action::Nothing));
}

#[test]
fn serving_from_detail_closes_the_popup() {
    let mut s = state();
    s.handle_key(key(KeyCode::Enter)); // open Detail on the selected model
    assert_eq!(s.mode, Mode::Detail);
    let action = s.handle_key(key(KeyCode::Char('s'))); // serve from Detail
    assert!(matches!(action, Action::Serve(_)));
    assert_eq!(s.mode, Mode::List, "Detail popup must close when serving");
    assert!(s.detail_plan.is_none());
    assert!(s.detail_serve_plan.is_none());
}

#[test]
fn navigation_spans_running_then_available() {
    let mut s = state();
    s.set_snapshot(vec![srv(1, "run-a", 8080)], vec![avail("avail-b"), avail("avail-c")]);
    s.tab = Tab::Servers;
    assert_eq!(s.server_selected, 0);
    s.handle_key(key(KeyCode::Down));
    s.handle_key(key(KeyCode::Down));
    assert_eq!(s.server_selected, 2);
    s.handle_key(key(KeyCode::Down)); // clamped
    assert_eq!(s.server_selected, 2);
}

#[test]
fn enter_on_available_serves_its_plan() {
    let mut s = state();
    s.set_snapshot(vec![], vec![avail("avail-b")]);
    s.tab = Tab::Servers;
    match s.handle_key(key(KeyCode::Enter)) {
        Action::Serve(p) => assert_eq!(p.model_ref, "avail-b"),
        other => panic!("expected Serve, got {other:?}"),
    }
}

#[test]
fn enter_on_running_is_noop() {
    let mut s = state();
    s.set_snapshot(vec![srv(1, "run-a", 8080)], vec![]);
    s.tab = Tab::Servers;
    assert!(matches!(s.handle_key(key(KeyCode::Enter)), Action::Nothing));
}

#[test]
fn x_on_available_is_noop() {
    let mut s = state();
    s.set_snapshot(vec![], vec![avail("avail-b")]);
    s.tab = Tab::Servers;
    assert!(matches!(s.handle_key(key(KeyCode::Char('x'))), Action::Nothing));
}

#[test]
fn entering_detail_sets_detail_variant_to_scored_best() {
    let mut s = state();
    s.rows = vec![fake_row("Llama3-8B")];
    s.all_rows = s.rows.clone();
    s.selected = 0;
    s.handle_key(key(KeyCode::Enter));
    assert_eq!(s.mode, Mode::Detail);
    assert_eq!(s.detail_variant, s.rows[0].variant_idx);
}

#[test]
fn detail_arrows_move_quant_within_quality_order() {
    let mut s = state();
    s.rows = vec![fake_hf_row("M", &["Q8_0", "Q4_K_M", "Q2_K"])];
    s.all_rows = s.rows.clone();
    s.selected = 0;
    s.handle_key(key(KeyCode::Enter)); // detail_variant = variant_idx (0 = Q8_0)
    assert_eq!(s.rows[0].model.variants[s.detail_variant].quant, "Q8_0");
    s.handle_key(key(KeyCode::Down)); // -> Q4_K_M
    assert_eq!(s.rows[0].model.variants[s.detail_variant].quant, "Q4_K_M");
    s.handle_key(key(KeyCode::Down)); // -> Q2_K
    s.handle_key(key(KeyCode::Down)); // clamp at smallest
    assert_eq!(s.rows[0].model.variants[s.detail_variant].quant, "Q2_K");
    s.handle_key(key(KeyCode::Up)); // -> Q4_K_M
    assert_eq!(s.rows[0].model.variants[s.detail_variant].quant, "Q4_K_M");
}

#[test]
fn serve_from_detail_uses_the_chosen_quant() {
    let mut s = state();
    s.rows = vec![fake_hf_row("M", &["Q8_0", "Q4_K_M", "Q2_K"])];
    s.all_rows = s.rows.clone();
    s.selected = 0;
    s.handle_key(key(KeyCode::Enter));
    s.handle_key(key(KeyCode::Down)); // choose Q4_K_M
    match s.handle_key(key(KeyCode::Char('s'))) {
        Action::Serve(p) => assert!(
            p.model_ref.contains("Q4_K_M"),
            "served plan should carry the chosen quant, got {}",
            p.model_ref
        ),
        other => panic!("expected Serve, got {other:?}"),
    }
}

#[test]
fn escape_shows_all_rows_again() {
    let mut s = state();
    s.handle_key(key(KeyCode::Char('/')));
    s.handle_key(key(KeyCode::Char('z')));
    assert!(s.rows.is_empty());
    s.handle_key(key(KeyCode::Backspace));
    assert_eq!(s.rows.len(), 3);
    s.handle_key(key(KeyCode::Char('q')));
    s.handle_key(key(KeyCode::Esc));
    assert_eq!(s.rows.len(), 3);
    assert_eq!(s.mode, Mode::List);
}

#[test]
fn cursors_stay_in_bounds_whatever_the_keys() {
    let mut s = state();
    s.set_snapshot(vec![srv(1, "a", 8080)], vec![avail("b")]);
    let keys = [
        KeyCode::Down, KeyCode::Enter, KeyCode::Down, KeyCode::Esc, KeyCode::Tab, KeyCode::Down,
        KeyCode::Down, KeyCode::Tab, KeyCode::Char('/'), KeyCode::Char('m'), KeyCode::Enter,
        KeyCode::Up, KeyCode::Char('g'), KeyCode::Char('R'), KeyCode::Down,
    ];
    for k in keys.iter().cycle().take(200) {
        s.handle_key(key(*k));
        assert!(s.rows.is_empty() || s.selected < s.rows.len());
        assert!(s.server_selected < 2);
    }
}

#[test]
fn background_sync_is_heard() {
    let t = on_sync(SyncPoll::Empty);
    assert!(t.status.is_none() && !t.reload && !t.finished);
    let t = on_sync(SyncPoll::Message(SyncMsg::Progress { source: "mlx", count: 3 }));
    assert!(t.status.is_none() && !t.finished);
    let t = on_sync(SyncPoll::Message(SyncMsg::Failed("boom".into())));
    assert!(matches!(t.status, Some(SyncStatus::Failed(m)) if m == "boom"));
    assert!(t.finished && !t.reload);
    let t = on_sync(SyncPoll::Message(SyncMsg::Done(Box::default())));
    assert!(matches!(t.status, Some(SyncStatus::Done { .. })));
    assert!(t.finished && t.reload);
    let t = on_sync(SyncPoll::Lost);
    assert!(matches!(t.status, Some(SyncStatus::Failed(m)) if m == "sync thread died"));
}

#[test]
fn detail_shows_memory_and_plans() {
    let mut s = state();
    s.handle_key(key(KeyCode::Enter));
    let lines = detail_lines(&s.rows[0], &s.detail_plan, &s.detail_serve_plan);
    assert!(matches!(&lines[0], DetailLine::Title { name, quant }
        if name == "Llama3-8B" && quant == "Q4_K_M"));
    assert!(lines.iter().any(|l| matches!(l, DetailLine::Command(c) if c.starts_with("ollama run"))));
    assert!(lines.iter().any(|l| matches!(l, DetailLine::ServeHint { endpoint, .. }
        if endpoint.contains("11434"))));
}

#[test]
fn footer_tells_the_state() {
    let now = 1_780_000_000;
    let right = |status: &SyncStatus, secs, last| {
        footer_right(status, secs, 0, last, now, UseCase::Coding, &Mode::List, "")
    };
    assert_eq!(right(&SyncStatus::Running, 0, None), "⠋ syncing… · coding");
    assert_eq!(right(&SyncStatus::Idle, 0, None), "coding");
    assert_eq!(right(&SyncStatus::Idle, 0, Some(now - 7_200)), "synced 2h ago · coding");
    let done = SyncStatus::Idle.on_done();
    assert_eq!(right(&done, 4, Some(now)), "catalog updated · coding");
    assert_eq!(right(&done, 5, Some(now)), "synced 0s ago · coding");
    let search = Mode::Search { query: "qw".into() };
    assert_eq!(
        footer_right(&SyncStatus::Idle, 0, 0, None, now, UseCase::Chat, &search, ""),
        "chat · /qw▌"
    );
    assert_eq!(
        footer_left(&Some("no plan".into()), &SyncStatus::Idle),
        ("error: no plan".to_string(), true)
    );
    assert_eq!(
        footer_left(&None, &SyncStatus::Failed("down".into())),
        ("sync failed: down".to_string(), true)
    );
    assert!(!footer_left(&None, &SyncStatus::Idle).1);
}

#[test]
fn tables_have_their_cells() {
    let cells = table_cells(&fake_row("Llama3-8B"), 1_780_000_000);
    assert_eq!(&cells[..3], ["Llama3-8B", "?", "Q4_K_M"]);
    let cells = server_cells(&srv(42, "qwen", 8080), 90);
    assert_eq!(cells, vec!["qwen", "llama.cpp", "http://127.0.0.1:8080", "8192", "1m", "42"]);
    assert_eq!(available_cells(&avail("b")), vec!["b", "mlx-lm", "available", "-"]);
}

#[test]
fn deeper_contexts_are_slower_on_the_chart() {
    let row = fake_row_ctx("Big", 131_072);
    let mv = row.model.to_model_variant(&row.model.variants[0]);
    let curve = speed_curve(&mv, 40_000, 131_072);
    assert_eq!(curve.len(), 65);
    assert_eq!(curve[0].0, 0);
    assert_eq!(curve[64].0, 131_072);
    let f = |d: Double| d.mantissa as f64 * 2f64.powi(d.exponent);
    for pair in curve.windows(2) {
        assert!(f(pair[1].1) < f(pair[0].1));
    }
    assert_eq!(f(chart_top(Double::of_ratio(1, 2))), 1.0);
    let labels = |n| {
        let (a, b, c) = axis_labels(n);
        format!("{a} {b} {c}")
    };
    assert_eq!(labels(131_072), "0 64k 128k");
    assert_eq!(labels(1), "0 4k 8k");
}

#[test]
fn popups_fit_their_area() {
    let area = Area {
        x: 2,
        y: 1,
        width: 100,
        height: 30,
    };
    let r = centered(area, 70, 20);
    assert_eq!((r.x, r.y, r.width, r.height), (17, 6, 70, 20));
    let r = centered(Area { width: 30, ..area }, 70, 99);
    assert_eq!((r.x, r.width, r.height), (2, 30, 30));
    for percent in [100, 101, 250, 65_535] {
        let r = centered(area, percent, 20);
        assert_eq!((r.x, r.width), (2, 100), "{percent}");
    }
    assert_eq!(popup_height(10), 21);
    assert_eq!(popup_height(65_530), 65_535);
    assert!(shows_wordmark(103) && !shows_wordmark(102));
}
