//! The machine: chips, probes, runtimes and the profile.

use paddock::hardware::chip::{bandwidth_gbps, parse_brand_string, ChipFamily, ChipVariant};
use paddock::hardware::probe::{
    dechunk, get_request, http_body, post_request, split_url, sysctl_number, sysctl_value,
    MockProbe, SystemProbe,
};
use paddock::hardware::runtimes::detect_runtimes;
use paddock::hardware::scan;

#[test]
fn parses_known_brand_strings() {
    assert_eq!(
        parse_brand_string("Apple M1"),
        (ChipFamily::M1, ChipVariant::Base)
    );
    assert_eq!(
        parse_brand_string("Apple M2 Max"),
        (ChipFamily::M2, ChipVariant::Max)
    );
    assert_eq!(
        parse_brand_string("Apple M3 Pro"),
        (ChipFamily::M3, ChipVariant::Pro)
    );
    assert_eq!(
        parse_brand_string("Apple M4 Ultra"),
        (ChipFamily::M4, ChipVariant::Ultra)
    );
    assert_eq!(
        parse_brand_string("Apple M5"),
        (ChipFamily::M5, ChipVariant::Base)
    );
    assert_eq!(
        parse_brand_string("Intel(R) Core(TM) i7"),
        (ChipFamily::Unknown, ChipVariant::Base)
    );
}

#[test]
fn bandwidth_known_chips_exact() {
    assert_eq!(
        bandwidth_gbps(ChipFamily::M1, ChipVariant::Base, 4),
        (6825, false)
    );
    assert_eq!(
        bandwidth_gbps(ChipFamily::M2, ChipVariant::Max, 8),
        (40000, false)
    );
    assert_eq!(
        bandwidth_gbps(ChipFamily::M4, ChipVariant::Pro, 10),
        (27300, false)
    );
    assert_eq!(
        bandwidth_gbps(ChipFamily::M5, ChipVariant::Base, 4),
        (15360, false)
    );
    assert_eq!(
        bandwidth_gbps(ChipFamily::M5, ChipVariant::Pro, 12),
        (30700, false)
    );
}

#[test]
fn bandwidth_max_depends_on_perf_cores() {
    // M3 Max 14-core CPU (10P+4E) = 300 GB/s, 16-core (12P+4E) = 400 GB/s
    assert_eq!(
        bandwidth_gbps(ChipFamily::M3, ChipVariant::Max, 10),
        (30000, false)
    );
    assert_eq!(
        bandwidth_gbps(ChipFamily::M3, ChipVariant::Max, 12),
        (40000, false)
    );
    // M4 Max 14-core = 410, 16-core = 546
    assert_eq!(
        bandwidth_gbps(ChipFamily::M4, ChipVariant::Max, 10),
        (41000, false)
    );
    assert_eq!(
        bandwidth_gbps(ChipFamily::M4, ChipVariant::Max, 12),
        (54600, false)
    );
    // M5 Max 14-core (10P) = 460, 16-core (12P) = 614
    assert_eq!(
        bandwidth_gbps(ChipFamily::M5, ChipVariant::Max, 10),
        (46000, false)
    );
    assert_eq!(
        bandwidth_gbps(ChipFamily::M5, ChipVariant::Max, 12),
        (61400, false)
    );
}

#[test]
fn bandwidth_unknown_chip_is_conservative_estimate() {
    let (bw, est) = bandwidth_gbps(ChipFamily::Unknown, ChipVariant::Base, 4);
    assert!(est);
    assert!(bw <= 10_000);
}

#[test]
fn dechunk_decodes_chunked_body() {
    assert_eq!(dechunk("5\r\nhello\r\n6\r\n world\r\n0\r\n\r\n").unwrap(), "hello world");
}

#[test]
fn http_body_dechunks_when_chunked() {
    let resp = "HTTP/1.1 200 OK\r\nTransfer-Encoding: chunked\r\n\r\nd\r\n{\"models\":[]}\r\n0\r\n\r\n";
    assert_eq!(http_body(resp).unwrap(), "{\"models\":[]}");
}

#[test]
fn http_body_passthrough_when_not_chunked() {
    let resp = "HTTP/1.1 200 OK\r\nContent-Length: 2\r\n\r\n{}";
    assert_eq!(http_body(resp).unwrap(), "{}");
}

#[test]
fn http_body_none_on_non_2xx() {
    assert!(http_body("HTTP/1.1 503 Service Unavailable\r\n\r\n").is_none());
}

#[test]
fn ollama_running_server_wins() {
    let mut p = MockProbe::default();
    p.binaries
        .push(("ollama".into(), "/opt/homebrew/bin/ollama".into()));
    p.http.push((
        "http://127.0.0.1:11434/api/version".into(),
        r#"{"version":"0.9.1"}"#.into()));
    let s = detect_runtimes(&p);
    assert!(s.ollama.installed);
    assert!(s.ollama.running);
    assert_eq!(s.ollama.version.as_deref(), Some("0.9.1"));
}

#[test]
fn ollama_installed_not_running() {
    let mut p = MockProbe::default();
    p.binaries
        .push(("ollama".into(), "/opt/homebrew/bin/ollama".into()));
    p.commands.push((
        "ollama --version".into(),
        "ollama version is 0.9.1\n".into()));
    let s = detect_runtimes(&p);
    assert!(s.ollama.installed);
    assert!(!s.ollama.running);
    assert_eq!(s.ollama.version.as_deref(), Some("0.9.1"));
}

#[test]
fn nothing_installed() {
    let p = MockProbe::default();
    let s = detect_runtimes(&p);
    assert!(!s.ollama.installed && !s.llama_cpp.installed && !s.mlx.installed);
}

#[test]
fn mlx_via_python_import() {
    let mut p = MockProbe::default();
    p.commands.push((
        "python3 -c import mlx_lm; print(mlx_lm.__version__)".into(),
        "0.24.0\n".into()));
    let s = detect_runtimes(&p);
    assert!(s.mlx.installed);
    assert_eq!(s.mlx.version.as_deref(), Some("0.24.0"));
}

fn m2_max_probe() -> MockProbe {
    let mut p = MockProbe::default();
    p.strings
        .push(("machdep.cpu.brand_string".into(), "Apple M2 Max".into()));
    p.u64s.push(("hw.memsize".into(), 36u64 * (1 << 30)));
    p.u64s.push(("hw.perflevel0.physicalcpucount".into(), 8));
    p.u64s.push(("hw.perflevel1.physicalcpucount".into(), 4));
    p.gpu_working_set = Some(27u64 * (1 << 30));
    p
}

#[test]
fn scan_m2_max_profile() {
    let hw = scan(&m2_max_probe());
    assert_eq!(hw.family, ChipFamily::M2);
    assert_eq!(hw.variant, ChipVariant::Max);
    assert_eq!(hw.ram_total_bytes, 36u64 * (1 << 30));
    assert_eq!(hw.bandwidth, 40_000);
    assert_eq!(hw.gpu.effective_limit_bytes, 27u64 * (1 << 30));
    assert_eq!(hw.gpu.metal_limit_bytes, Some(27u64 * (1 << 30)));
}

#[test]
fn gpu_fallback_sysctl_then_75_percent() {
    let mut p = m2_max_probe();
    p.gpu_working_set = None;
    p.u64s.push(("iogpu.wired_limit_mb".into(), 30000));
    let hw = scan(&p);
    assert_eq!(hw.gpu.effective_limit_bytes, 30000u64 * 1024 * 1024);

    let mut p2 = m2_max_probe();
    p2.gpu_working_set = None;
    let hw2 = scan(&p2);
    assert_eq!(hw2.gpu.effective_limit_bytes, 36u64 * (1 << 30) * 3 / 4);
}

#[test]
fn scan_survives_missing_sysctls() {
    let hw = scan(&MockProbe::default());
    assert_eq!(hw.family, ChipFamily::Unknown);
    assert!(hw.bandwidth_estimated);
    assert_eq!(hw.ram_total_bytes, 0);
}

#[test]
fn guesses_stay_below_known_chips() {
    for variant in [ChipVariant::Base, ChipVariant::Pro, ChipVariant::Max, ChipVariant::Ultra] {
        let (guess, estimated) = bandwidth_gbps(ChipFamily::Unknown, variant, 8);
        assert!(estimated);
        let (newest, _) = bandwidth_gbps(ChipFamily::M5, variant, 12);
        assert!(guess <= newest);
    }
}

#[test]
fn broken_chunks_have_no_body() {
    assert_eq!(dechunk("0\r\n\r\n").as_deref(), Some(""));
    assert_eq!(dechunk("zz\r\nhello"), None);
    assert_eq!(dechunk("5\r\nhel"), None);
}

#[test]
fn header_names_match_in_any_case() {
    let raw = "HTTP/1.1 200 OK\r\nTRANSFER-encoding: CHUNKED\r\n\r\n2\r\nhi\r\n0\r\n\r\n";
    assert_eq!(http_body(raw).as_deref(), Some("hi"));
}

#[test]
fn local_requests() {
    let (host, path) = split_url("http://127.0.0.1:8080/v1/models").unwrap();
    assert_eq!((host.as_str(), path.as_str()), ("127.0.0.1:8080", "v1/models"));
    assert!(split_url("ftp://x/y").is_none());
    let get = get_request(&host, &path);
    assert!(get.starts_with("GET /v1/models HTTP/1.1\r\nHost: 127.0.0.1:8080\r\n"), "{get}");
    let post = post_request(&host, &path, "{\"é\":1}");
    assert!(post.starts_with("POST /v1/models HTTP/1.1\r\n"), "{post}");
    assert!(post.contains("Content-Length: 8\r\n"), "{post}");
    assert!(post.ends_with("\r\n\r\n{\"é\":1}"), "{post}");
}

#[test]
fn system_values() {
    assert_eq!(sysctl_value("Apple M2 Max\n").as_deref(), Some("Apple M2 Max"));
    assert_eq!(sysctl_value("  \n"), None);
    assert_eq!(sysctl_number("38654705664"), Some(38_654_705_664));
    assert_eq!(sysctl_number("many"), None);
}

/// A machine of one's own, on which only one program is installed.
struct OnlyLlama;

impl SystemProbe for OnlyLlama {
    fn sysctl_string(&self, _name: &str) -> Option<String> {
        None
    }

    fn sysctl_u64(&self, _name: &str) -> Option<u64> {
        None
    }

    fn gpu_recommended_working_set(&self) -> Option<u64> {
        None
    }

    fn which(&self, binary: &str) -> Option<String> {
        (binary == "llama-server").then(|| "/usr/bin/llama-server".to_string())
    }

    fn run_command(&self, _program: &str, _args: &[&str]) -> Option<String> {
        None
    }

    fn http_get_local(&self, _url: &str) -> Option<String> {
        None
    }

    fn http_post_local(&self, _url: &str, _json_body: &str) -> Option<String> {
        None
    }
}

#[test]
fn running_means_installed() {
    let s = detect_runtimes(&OnlyLlama);
    assert!(s.llama_cpp.installed && !s.llama_cpp.running);
    assert!(!s.ollama.installed && !s.ollama.running);
    let mut p = MockProbe::default();
    p.http.push(("http://127.0.0.1:11434/api/version".into(), "{}".into()));
    let s = detect_runtimes(&p);
    assert!(s.ollama.running && s.ollama.installed);
    assert_eq!(s.ollama.version, None);
}

#[test]
fn chunks_are_counted_in_bytes() {
    for (raw, want) in [
        ("3\r\né1\r\n0\r\n\r\n", Some("é1")),
        ("1\r\né\r\n0\r\n\r\n", None),
        (" A \r\n0123456789\r\n00\r\n", Some("0123456789")),
        ("+A\r\n0123456789\r\n00\r\n", None),
        ("a\r\n012345678é\r\n0\r\n", None),
        ("b\r\n012345678é\r\n0\r\n", Some("012345678é")),
        ("-1\r\nx\r\n0\r\n", None),
        ("5;ext=1\r\nhello\r\n0\r\n", None),
        ("ffffffffffffffffffff\r\nx\r\n0\r\n", None),
        ("2\r\nhi0\r\n", None),
        ("2\r\nhi\r\n", None),
        ("2\r\nhiXY0\r\n\r\n", None),
        ("5\r\nhelloXX0\r\n\r\n", None),
        ("5\r\nhello\r\n0\r\n\r\n", Some("hello")),
        ("2\r\nhi\n\r0\r\n\r\n", None),
        ("", None),
        ("0", None),
    ] {
        assert_eq!(dechunk(raw).as_deref(), want, "{raw:?}");
    }
}

#[test]
fn statuses_and_headers() {
    assert_eq!(http_body("HTTP/1.0 204 No Content\r\n\r\n").as_deref(), Some(""));
    assert_eq!(http_body("HTTP/1.1 200 OK\r\nX: y\r\n"), None);
    assert_eq!(http_body("HTTP/2 200\r\n\r\nx"), None);
    assert_eq!(http_body(""), None);
}
