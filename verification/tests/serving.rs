//! Servers: records, targets, models of the daemon, and the history.

use paddock::catalog::RuntimeKind;
use paddock::hardware::probe::{MockProbe, SystemProbe};
use paddock::logs::{log_of, LogPlan};
use paddock::runtime::ServePlan;
use paddock::serving::{
    build_record, is_record_file, list_all_servers, list_available, list_live, match_records,
    ollama_installed_models, ollama_loaded_models, port_candidates, record_fate, record_served,
    signal_target, sorted_by_start, warm_up_ollama, History, HistoryEntry, LoadedModel,
    RecordFate, RecordMatch, Registry, SeenFile, ServingRecord, StopHandle,
};
use paddock::stop::{
    agrees_to_stop, stop_servers, stop_step, stopped_line, StopPlan, StopStep,
};

fn rec(pid: u32, model: &str) -> ServingRecord {
    ServingRecord {
        pid,
        runtime: RuntimeKind::LlamaCpp,
        endpoint: "e".into(),
        openai_url: "o".into(),
        model_ref: model.into(),
        ready_path: "/health".into(),
        started_at: 0,
        ctx: 8192,
        log_path: None,
        port: Some(8080),
    }
}

#[test]
fn match_all_returns_everything() {
    let rs = vec![rec(1, "a"), rec(2, "b")];
    assert_eq!(match_records(&rs, "all").matched().len(), 2);
}

#[test]
fn match_by_pid() {
    let rs = vec![rec(10, "a"), rec(20, "b")];
    let m = match_records(&rs, "20");
    assert_eq!(m.matched().len(), 1);
    assert_eq!(m.matched()[0].pid, 20);
}

#[test]
fn match_by_model_substring() {
    let rs = vec![rec(1, "qwen3-35b"), rec(2, "llama3-8b")];
    let m = match_records(&rs, "qwen");
    assert_eq!(m.matched().len(), 1);
    assert_eq!(m.matched()[0].pid, 1);
}

#[test]
fn ambiguous_substring_lists_candidates() {
    let rs = vec![rec(1, "qwen3-35b"), rec(2, "qwen3-8b")];
    assert!(matches!(
        match_records(&rs, "qwen"),
        RecordMatch::Ambiguous(_)
    ));
}

#[test]
fn no_match_is_not_found() {
    let rs = vec![rec(1, "a")];
    assert!(matches!(match_records(&rs, "zzz"), RecordMatch::NotFound));
}

fn plan(model: &str, port: u16) -> ServePlan {
    ServePlan {
        server_argv: Some(vec![
            "mlx_lm.server".into(),
            "--model".into(),
            model.into(),
            "--port".into(),
            port.to_string(),
        ]),
        pre_steps: vec![],
        endpoint: format!("http://127.0.0.1:{port}"),
        openai_url: format!("http://127.0.0.1:{port}/v1/chat/completions"),
        model_ref: model.into(),
        ready_path: "/v1/models".into(),
        install: None,
        port_ignored: false,
        runtime: RuntimeKind::MlxLm,
        ctx: 0,
        port: Some(port),
    }
}

#[test]
fn serving_parses_ollama_ps() {
    let mut probe = MockProbe::default();
    probe.http.push((
        "http://127.0.0.1:11434/api/ps".into(),
        r#"{"models":[{"name":"qwen3:30b-a3b","model":"qwen3:30b-a3b","size":19327352832,"expires_at":"2026-06-10T12:00:00Z"},{"name":"llama3.2:1b","size":1400000000}]}"#.into()));
    let models = ollama_loaded_models(&probe).unwrap();
    assert_eq!(models.len(), 2);
    assert_eq!(models[0].name, "qwen3:30b-a3b");
    assert_eq!(models[0].size_bytes, 19_327_352_832);
}

#[test]
fn serving_ollama_ps_unreachable_is_none() {
    assert!(ollama_loaded_models(&MockProbe::default()).is_none());
}

#[test]
fn parses_ollama_ps() {
    let mut probe = MockProbe::default();
    probe.http.push((
        "http://127.0.0.1:11434/api/ps".into(),
        r#"{"models":[{"name":"qwen3:30b-a3b","model":"qwen3:30b-a3b","size":19327352832,"expires_at":"2026-06-10T12:00:00Z"},{"name":"llama3.2:1b","size":1400000000}]}"#.into()));
    let models = ollama_loaded_models(&probe).unwrap();
    assert_eq!(models.len(), 2);
    assert_eq!(models[0].name, "qwen3:30b-a3b");
    assert_eq!(models[0].size_bytes, 19_327_352_832);
}

#[test]
fn ollama_ps_unreachable_is_none() {
    assert!(ollama_loaded_models(&MockProbe::default()).is_none());
}

#[test]
fn warm_up_daemon_unreachable_is_false() {
    let probe = MockProbe::default();
    assert!(!warm_up_ollama(&probe, "llama3.2:1b"));
}

/// A daemon that keeps what is posted to it.
#[derive(Default)]
struct Daemon {
    posts: std::sync::Mutex<Vec<(String, String)>>,
}

impl SystemProbe for Daemon {
    fn sysctl_string(&self, _name: &str) -> Option<String> {
        None
    }

    fn sysctl_u64(&self, _name: &str) -> Option<u64> {
        None
    }

    fn gpu_recommended_working_set(&self) -> Option<u64> {
        None
    }

    fn which(&self, _binary: &str) -> Option<String> {
        None
    }

    fn run_command(&self, _program: &str, _args: &[&str]) -> Option<String> {
        None
    }

    fn http_get_local(&self, _url: &str) -> Option<String> {
        None
    }

    fn http_post_local(&self, url: &str, json_body: &str) -> Option<String> {
        self.posts.lock().unwrap().push((url.to_string(), json_body.to_string()));
        Some(r#"{"done":true}"#.to_string())
    }
}

#[test]
fn warm_up_posts_model_and_keep_alive() {
    let probe = Daemon::default();
    assert!(warm_up_ollama(&probe, "lfm2.5-thinking:1.2b-q8_0"));
    let bodies = probe.posts.lock().unwrap();
    assert_eq!(bodies.len(), 1);
    let (url, body) = &bodies[0];
    assert_eq!(url, "http://127.0.0.1:11434/api/generate");
    let v: serde_json::Value = serde_json::from_str(body).unwrap();
    assert_eq!(v["model"], "lfm2.5-thinking:1.2b-q8_0");
    assert_eq!(v["keep_alive"], "30m");
    // No prompt: load-only, never generates tokens.
    assert!(v.get("prompt").is_none());
}

#[test]
fn merges_ollama_loaded_models() {
    let mut probe = MockProbe::default();
    probe.http.push((
        "http://127.0.0.1:11434/api/ps".to_string(),
        r#"{"models":[{"name":"gemma:12b","size":18000000000}]}"#.to_string(),
    ));
    let rows = list_all_servers(&vec![], &ollama_loaded_models(&probe));
    assert_eq!(rows.len(), 1);
    assert_eq!(rows[0].model, "gemma:12b");
    assert_eq!(rows[0].runtime, RuntimeKind::Ollama);
    assert_eq!(rows[0].ctx, None);
    assert_eq!(rows[0].stop, StopHandle::OllamaModel("gemma:12b".to_string()));
    assert_eq!(rows[0].endpoint, "http://127.0.0.1:11434");
}

#[test]
fn empty_when_nothing_running() {
    let probe = MockProbe::default();
    assert!(list_all_servers(&vec![], &ollama_loaded_models(&probe)).is_empty());
}

#[test]
fn record_upserts_by_model_ref() {
    let mut h: Vec<HistoryEntry> = Vec::new();
    h = record_served(h, &plan("mlx-community/A", 8080), 1000);
    h = record_served(h, &plan("mlx-community/A", 8081), 2000); // same model_ref, later
    h = record_served(h, &plan("mlx-community/B", 8082), 1500);
    assert_eq!(h.len(), 2, "A upserted, B added");
    let a = h.iter().find(|e| e.plan.model_ref == "mlx-community/A").unwrap();
    assert_eq!(a.last_served_at, 2000);
    assert_eq!(a.plan.port, Some(8081));
}

#[test]
fn pids_and_overlong_numbers() {
    let rs = vec![rec(10, "model-20"), rec(20, "b")];
    assert_eq!(match_records(&rs, "20").matched()[0].pid, 20);
    assert!(matches!(match_records(&rs, "99999999999"), RecordMatch::NotFound));
    assert!(matches!(match_records(&rs, "30"), RecordMatch::NotFound));
}

#[test]
fn several_servers_of_one_model_are_one_match() {
    let rs = vec![rec(1, "qwen3-35b"), rec(2, "QWEN3-35b"), rec(3, "qwen3-35b")];
    let m = match_records(&rs[..1], "Qwen");
    assert_eq!(m.matched().len(), 1);
    let same = vec![rec(1, "qwen3-35b"), rec(3, "qwen3-35b")];
    assert_eq!(match_records(&same, "qwen").matched().len(), 2);
    assert!(matches!(match_records(&rs, "qwen"), RecordMatch::Ambiguous(_)));
}

#[test]
fn record_files_and_their_fate() {
    assert!(is_record_file("42.json"));
    assert!(!is_record_file("notes.json"));
    assert!(!is_record_file("42.json.tmp"));
    assert_eq!(record_fate(false, true, true), RecordFate::Delete);
    assert_eq!(record_fate(true, false, true), RecordFate::Delete);
    assert_eq!(record_fate(true, true, false), RecordFate::Hide);
    assert_eq!(record_fate(true, true, true), RecordFate::Show);
    assert_eq!(signal_target(0), None);
    assert_eq!(signal_target(4_000_000_000), None);
    assert_eq!(signal_target(7), Some(7));
}

#[test]
fn registry_paths() {
    let r = Registry::at("/tmp/x");
    assert_eq!(r.path_for(42), "/tmp/x/42.json");
    assert_eq!(r.tmp_path_for(42), "/tmp/x/42.json.tmp");
    assert_eq!(Registry::open_default(None, "/home/p").dir, "/home/p/serving");
    assert_eq!(Registry::open_default(Some("/set".into()), "/home/p").dir, "/set");
    assert_eq!(History::at("/tmp/x").path(), "/tmp/x/history.json");
    // Below nothing, and below a directory that ends with a slash.
    let bare = Registry::open_default(Some(String::new()), "/home/p");
    assert_eq!((bare.path_for(1), bare.tmp_path_for(1)), ("1.json".into(), "1.json.tmp".into()));
    assert_eq!(History::open_default(Some(String::new()), "/home/p").path(), "history.json");
    assert_eq!(Registry::at("/tmp/x/").path_for(1), "/tmp/x/1.json");
    assert_eq!(History::open_default(None, "").dir, "serving");
}

#[test]
fn servers_in_the_order_of_their_start() {
    let mut rs = vec![rec(1, "a"), rec(2, "b"), rec(3, "c")];
    rs[0].started_at = 30;
    rs[1].started_at = 10;
    rs[2].started_at = 30;
    let pids: Vec<u32> = sorted_by_start(&rs).iter().map(|r| r.pid).collect();
    assert_eq!(pids, vec![2, 1, 3]);
}

#[test]
fn ports_are_tried_upwards() {
    let ports = port_candidates(8080);
    assert_eq!((ports[0], ports[50], ports.len()), (8080, 8130, 51));
    assert_eq!(port_candidates(65_535), vec![65_535]);
}

#[test]
fn record_of_a_plan() {
    let r = build_record(&plan("m", 8080), 7, Some("/tmp/7.log".into()), 99);
    assert_eq!((r.pid, r.started_at, r.port), (7, 99, Some(8080)));
    assert_eq!(r.log_path.as_deref(), Some("/tmp/7.log"));
    assert_eq!(r.endpoint, "http://127.0.0.1:8080");
}

#[test]
fn available_models_do_not_run() {
    let mut probe = MockProbe::default();
    probe.http.push((
        "http://127.0.0.1:11434/api/tags".to_string(),
        r#"{"models":[{"name":"a:1b","size":5},{"name":"b:1b","size":6}]}"#.to_string(),
    ));
    let installed = ollama_installed_models(&probe);
    let loaded = Some(vec![LoadedModel {
        name: "a:1b".into(),
        size_bytes: 5,
    }]);
    let running = list_all_servers(&vec![rec(1, "mlx-community/A")], &loaded);
    let mut history = record_served(Vec::new(), &plan("mlx-community/A", 8080), 1000);
    history = record_served(history, &plan("mlx-community/B", 8080), 2000);
    let rows = list_available(&history, &installed, &running);
    let names: Vec<&str> = rows.iter().map(|r| r.model.as_str()).collect();
    assert_eq!(names, vec!["b:1b", "mlx-community/B"]);
    assert_eq!(rows[0].size_bytes, Some(6));
    assert_eq!(rows[1].last_served_at, Some(2000));
}

#[test]
fn stopping_asks_only_about_all() {
    let rs = vec![rec(1, "qwen3-35b"), rec(2, "llama3-8b")];
    match stop_servers(&rs, "all", false) {
        StopPlan::Confirm(lines, v) => {
            assert_eq!(
                lines,
                vec!["about to stop 2 server(s):", "  qwen3-35b (pid 1)", "  llama3-8b (pid 2)"]
            );
            assert_eq!(v.len(), 2);
        }
        _ => panic!("expected a question"),
    }
    assert!(matches!(stop_servers(&rs, "all", true), StopPlan::Stop(v) if v.len() == 2));
    assert!(matches!(stop_servers(&rs, "qwen", false), StopPlan::Stop(v) if v[0].pid == 1));
    match stop_servers(&rs, "3", false) {
        StopPlan::Refuse(lines) => assert_eq!(
            lines,
            vec!["no running server matches `3`", "running: qwen3-35b, llama3-8b"]
        ),
        _ => panic!("expected a refusal"),
    }
    match stop_servers(&[], "x", false) {
        StopPlan::Refuse(lines) => assert_eq!(lines, vec!["no running server matches `x`"]),
        _ => panic!("expected a refusal"),
    }
    match stop_servers(&rs, "3-", false) {
        StopPlan::Refuse(lines) => {
            assert_eq!(lines[0], "`3-` matches several servers — be specific:");
            assert_eq!(lines.len(), 3);
        }
        _ => panic!("expected a refusal"),
    }
    assert!(agrees_to_stop(" Y\n") && !agrees_to_stop("yes") && !agrees_to_stop(""));
}

#[test]
fn models_of_the_daemon_are_stopped_by_its_command() {
    let mut r = rec(5, "gemma:12b");
    assert!(matches!(stop_step(&r), StopStep::Signal(5)));
    r.runtime = RuntimeKind::Ollama;
    match stop_step(&r) {
        StopStep::Command(argv) => assert_eq!(argv, vec!["ollama", "stop", "gemma:12b"]),
        StopStep::Signal(_) => panic!("expected a command"),
    }
    assert_eq!(stopped_line(&r), "stopped gemma:12b (pid 5)");
}

fn seen(name: &str, record: Option<ServingRecord>, alive: bool) -> SeenFile {
    SeenFile {
        name: name.to_string(),
        record,
        alive,
    }
}

#[test]
fn registry_shows_what_answers_and_drops_what_is_gone() {
    let mut probe = MockProbe::default();
    probe.http.push(("http://127.0.0.1:8080/health".into(), "ok".into()));
    let at = |pid: u32, endpoint: &str, started_at: i64| {
        let mut r = rec(pid, "m");
        r.endpoint = endpoint.to_string();
        r.started_at = started_at;
        r
    };
    let files = vec![
        seen("2.json", Some(at(2, "http://127.0.0.1:8080", 20)), true),
        seen("1.json", Some(at(1, "http://127.0.0.1:8080", 10)), true),
        seen("3.json", Some(at(3, "http://127.0.0.1:9999", 5)), true),
        seen("4.json", Some(at(4, "http://127.0.0.1:8080", 5)), false),
        seen("999.json", None, false),
        seen("notes.json", None, false),
        seen("history.json", None, false),
        seen("7.json.tmp", None, false),
    ];
    let sweep = list_live(&probe, &files);
    let pids: Vec<u32> = sweep.live.iter().map(|r| r.pid).collect();
    assert_eq!(pids, vec![1, 2]);
    assert_eq!(sweep.gone, vec!["4.json", "999.json"]);
}

#[test]
fn logs_of_detached_servers() {
    let mut rs = vec![rec(1, "qwen3-35b"), rec(2, "llama3-8b"), rec(3, "llama3-8b")];
    rs[0].log_path = Some("/tmp/1.log".into());
    assert!(matches!(log_of(&rs, "qwen"), LogPlan::Show(p) if p == "/tmp/1.log"));
    assert!(matches!(log_of(&rs, "2"), LogPlan::Refuse(l)
        if l == ["llama3-8b has no log: it is not detached"]));
    assert!(matches!(log_of(&rs, "llama"), LogPlan::Refuse(l) if l.len() == 3));
    assert!(matches!(log_of(&rs, "3"), LogPlan::Refuse(l) if l.len() == 1));
    assert!(matches!(log_of(&rs, "x"), LogPlan::Refuse(l)
        if l == ["no running server matches `x`"]));
}

#[test]
fn taken_ports_are_left_to_others() {
    let (p, note) = plan("m", 8080).on_free_port(Some(8082));
    assert_eq!(p.port, Some(8082));
    assert_eq!(p.endpoint, "http://127.0.0.1:8082");
    assert_eq!(note.as_deref(), Some("port 8080 is taken — serving on 8082"));
    let (p, note) = plan("m", 8080).on_free_port(Some(8080));
    assert_eq!((p.port, note), (Some(8080), None));
    let (p, note) = plan("m", 8080).on_free_port(None);
    assert_eq!((p.port, note), (Some(8080), None));
    let mut daemon = plan("m", 8080);
    daemon.server_argv = None;
    assert_eq!(daemon.wanted_port(), None);
    assert_eq!(daemon.on_free_port(Some(9000)).0.port, Some(8080));
}
