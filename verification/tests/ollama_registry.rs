//! The Ollama library: tags, pages, manifests and discovery.

use paddock::catalog::http::{HttpClient, MockHttp};
use paddock::catalog::ollama_registry::{
    discover_model, enrich_with_tags, fetch_library_index, fetch_manifest_model_blob,
    fetch_model_tags, merge_library_names, normalize_quant, params_from_size_token,
    parse_library_names, select_variant_tags, OllamaTag,
};
use paddock::catalog::{CatalogModel, CatalogVariant, RuntimeKind, Source};
use paddock::error::PaddockError;

/// A hundredth of a bit per weight.
const CENT: u64 = 100_000_000_000_000;

fn add_text(http: &mut MockHttp, url: &str, page: &str) {
    http.texts.push((url.to_string(), page.to_string()));
}

fn add_json(http: &mut MockHttp, url: &str, json: &str) {
    http.jsons.push((url.to_string(), json.to_string()));
}

/// Minimal GGUF v3 header builder (spec: github.com/ggml-org/ggml/docs/gguf.md).
struct GgufBuilder {
    kvs: Vec<u8>,
    count: u64,
}

impl GgufBuilder {
    fn new() -> Self {
        Self {
            kvs: Vec::new(),
            count: 0,
        }
    }

    fn push_key(&mut self, key: &str) {
        self.kvs.extend((key.len() as u64).to_le_bytes());
        self.kvs.extend(key.as_bytes());
    }

    fn string(mut self, key: &str, val: &str) -> Self {
        self.push_key(key);
        self.kvs.extend(8u32.to_le_bytes()); // type 8 = string
        self.kvs.extend((val.len() as u64).to_le_bytes());
        self.kvs.extend(val.as_bytes());
        self.count += 1;
        self
    }

    fn u32(mut self, key: &str, val: u32) -> Self {
        self.push_key(key);
        self.kvs.extend(4u32.to_le_bytes()); // type 4 = u32
        self.kvs.extend(val.to_le_bytes());
        self.count += 1;
        self
    }

    fn u64(mut self, key: &str, val: u64) -> Self {
        self.push_key(key);
        self.kvs.extend(10u32.to_le_bytes()); // type 10 = u64
        self.kvs.extend(val.to_le_bytes());
        self.count += 1;
        self
    }

    fn f32(mut self, key: &str, val: f32) -> Self {
        self.push_key(key);
        self.kvs.extend(6u32.to_le_bytes()); // type 6 = f32
        self.kvs.extend(val.to_le_bytes());
        self.count += 1;
        self
    }

    fn i32(mut self, key: &str, val: i32) -> Self {
        self.push_key(key);
        self.kvs.extend(5u32.to_le_bytes()); // type 5 = i32
        self.kvs.extend(val.to_le_bytes());
        self.count += 1;
        self
    }

    fn u32_array(mut self, key: &str, vals: &[u32]) -> Self {
        self.push_key(key);
        self.kvs.extend(9u32.to_le_bytes()); // type 9 = array
        self.kvs.extend(4u32.to_le_bytes()); // element type u32
        self.kvs.extend((vals.len() as u64).to_le_bytes());
        for v in vals {
            self.kvs.extend(v.to_le_bytes());
        }
        self.count += 1;
        self
    }

    fn build(self) -> Vec<u8> {
        let mut out = Vec::new();
        out.extend(b"GGUF");
        out.extend(3u32.to_le_bytes()); // version
        out.extend(0u64.to_le_bytes()); // tensor_count
        out.extend(self.count.to_le_bytes()); // kv count
        out.extend(self.kvs);
        out
    }
}

/// Realistic excerpt of https://ollama.com/library/llama3.1/tags -
/// hrefs are the load-bearing pattern, surrounding DOM is noise.
const LLAMA31_TAGS_HTML: &str = r#"<!DOCTYPE html>
<html><body>
<a class="group" href="/library/llama3.1:latest"><span>latest</span></a>
<a class="group" href="/library/llama3.1:8b"><span>8b</span></a>
<a class="group" href="/library/llama3.1:70b"><span>70b</span></a>
<a class="group" href="/library/llama3.1:405b"><span>405b</span></a>
<a class="group" href="/library/llama3.1:8b"><span>8b duplicate row</span></a>
<a href="/library/llama3.1:8b-instruct-q4_K_M">8b-instruct-q4_K_M</a>
<a href="/library/llama3.1:8b-instruct-q8_0">8b-instruct-q8_0</a>
<a href="/library/llama3.1:8b-instruct-fp16">8b-instruct-fp16</a>
<a href="/library/llama3.1:8b-instruct-q4_1">8b-instruct-q4_1</a>
<a href="/library/llama3.1:8b-text-q4_K_M">8b-text-q4_K_M</a>
<a href="/library/llama3.1:70b-instruct-q4_K_M">70b-instruct-q4_K_M</a>
<a href="/library/mistral:7b">unrelated model link</a>
<a href="/blog/llama3">blog link</a>
</body></html>"#;

fn http_with_llama31() -> MockHttp {
    let mut http = MockHttp::default();
    add_text(&mut http, "https://ollama.com/library/llama3.1/tags", LLAMA31_TAGS_HTML);
    http
}

#[test]
fn ollama_registry_fetch_model_tags_extracts_hrefs_deduped_in_order() {
    let http = http_with_llama31();
    let tags = fetch_model_tags(&http, "llama3.1").unwrap();
    assert_eq!(
        tags,
        vec![
            "latest",
            "8b",
            "70b",
            "405b",
            "8b-instruct-q4_K_M",
            "8b-instruct-q8_0",
            "8b-instruct-fp16",
            "8b-instruct-q4_1",
            "8b-text-q4_K_M",
            "70b-instruct-q4_K_M",
        ]
    );
}

#[test]
fn ollama_registry_fetch_model_tags_propagates_network_error() {
    let http = MockHttp::default();
    assert!(fetch_model_tags(&http, "llama3.1").is_err());
}

#[test]
fn ollama_registry_select_variant_tags_llama31_8b() {
    let tags: Vec<String> = [
        "latest",
        "8b",
        "70b",
        "405b",
        "8b-instruct-q4_K_M",
        "8b-instruct-q8_0",
        "8b-instruct-fp16",
        "8b-instruct-q4_1",
        "8b-text-q4_K_M",
        "70b-instruct-q4_K_M",
    ]
    .iter()
    .map(|s| s.to_string())
    .collect();

    let kept = select_variant_tags(&tags, "8b", "Q4_K_M");
    // - plain "8b" → curated default quant, and being shortest it wins
    //   the Q4_K_M slot over "8b-instruct-q4_K_M"
    // - "-text" skipped, unknown q4_1 skipped, 70b/405b/latest excluded
    assert_eq!(
        kept,
        vec![
            OllamaTag {
                tag: "8b".into(),
                quant: "Q4_K_M".into()
            },
            OllamaTag {
                tag: "8b-instruct-q8_0".into(),
                quant: "Q8_0".into()
            },
            OllamaTag {
                tag: "8b-instruct-fp16".into(),
                quant: "F16".into()
            },
        ]
    );
}

#[test]
fn ollama_registry_select_variant_tags_without_plain_tag_keeps_shortest_per_quant() {
    let tags: Vec<String> = [
        "8b-instruct-2024-q4_K_M", // longer exotic variant…
        "8b-instruct-q4_K_M",      // …loses to the canonical one
        "8b-instruct-q6_K",
    ]
    .iter()
    .map(|s| s.to_string())
    .collect();
    let kept = select_variant_tags(&tags, "8b", "Q4_K_M");
    assert_eq!(
        kept,
        vec![
            OllamaTag {
                tag: "8b-instruct-q4_K_M".into(),
                quant: "Q4_K_M".into()
            },
            OllamaTag {
                tag: "8b-instruct-q6_K".into(),
                quant: "Q6_K".into()
            },
        ]
    );
}

#[test]
fn select_variant_tags_prefers_canonical_instruct_over_stale_versioned() {
    // The stale `-v0.1-` tag is SHORTER, but the exact canonical
    // `{size}-instruct-{q}` form must win the quant slot.
    let tags: Vec<String> = ["8b-v0.1-q4_K_M", "8b-instruct-q4_K_M"]
        .iter()
        .map(|s| s.to_string())
        .collect();
    let kept = select_variant_tags(&tags, "8b", "Q4_K_M");
    assert_eq!(
        kept,
        vec![OllamaTag {
            tag: "8b-instruct-q4_K_M".into(),
            quant: "Q4_K_M".into()
        }]
    );
}

#[test]
fn select_variant_tags_prefers_it_and_plain_size_quant_forms() {
    // `{size}-it-{q}` beats non-canonical forms - even at equal length
    // and listed second (page order / shortest must not decide).
    let tags: Vec<String> = ["9b-v1-q4_K_M", "9b-it-q4_K_M"]
        .iter()
        .map(|s| s.to_string())
        .collect();
    let kept = select_variant_tags(&tags, "9b", "Q4_K_M");
    assert_eq!(kept[0].tag, "9b-it-q4_K_M");

    // …and exact `{size}-{q}` beats non-canonical too.
    let tags: Vec<String> = ["7b-2407-q4_K_M", "7b-q4_K_M"]
        .iter()
        .map(|s| s.to_string())
        .collect();
    let kept = select_variant_tags(&tags, "7b", "Q4_K_M");
    assert_eq!(kept[0].tag, "7b-q4_K_M");
}

#[test]
fn select_variant_tags_no_canonical_falls_back_to_shortest() {
    let tags: Vec<String> = ["35b-v0.1-q4_K_M", "35b-08-2024-q4_K_M"]
        .iter()
        .map(|s| s.to_string())
        .collect();
    let kept = select_variant_tags(&tags, "35b", "Q4_K_M");
    assert_eq!(
        kept,
        vec![OllamaTag {
            tag: "35b-v0.1-q4_K_M".into(),
            quant: "Q4_K_M".into()
        }]
    );
}

#[test]
fn ollama_registry_select_variant_tags_prefix_must_be_whole_segment() {
    // "8b1-q4_K_M" must not match size prefix "8b".
    let tags = vec!["8b1-instruct-q4_K_M".to_string()];
    assert!(select_variant_tags(&tags, "8b", "Q4_K_M").is_empty());
}

#[test]
fn ollama_registry_select_variant_tags_q4_0_is_a_known_quant() {
    let tags = vec!["8b-instruct-q4_0".to_string(), "8b-text-fp16".to_string()];
    let kept = select_variant_tags(&tags, "8b", "Q4_K_M");
    assert_eq!(
        kept,
        vec![OllamaTag {
            tag: "8b-instruct-q4_0".into(),
            quant: "Q4_0".into()
        }]
    );
}

fn curated_llama31() -> CatalogModel {
    CatalogModel {
        id: 0,
        name: "llama3.1:8b".into(),
        family: Some("llama".into()),
        source: Source::Ollama,
        repo: None,
        params_total: 8_030_000_000,
        params_active: 8_030_000_000,
        architecture: Some("llama".into()),
        context_max: 131_072,
        released_at: None,
        released_approx: false,
        variants: vec![CatalogVariant {
            quant: "Q4_K_M".into(),
            bpw: 483 * CENT,
            file_size_bytes: Some(4_920_000_000),
            layers: 32,
            kv_heads: 8,
            head_dim: 128,
            embedding_dim: 4096,
            runtime_compat: vec![RuntimeKind::Ollama],
            source_tag: None,
        }],
    }
}

#[test]
fn ollama_registry_enrich_with_tags_replaces_variants_and_copies_arch() {
    let mut m = curated_llama31();
    let tags = vec![
        OllamaTag {
            tag: "8b".into(),
            quant: "Q4_K_M".into(),
        },
        OllamaTag {
            tag: "8b-instruct-q8_0".into(),
            quant: "Q8_0".into(),
        },
    ];
    enrich_with_tags(&mut m, &tags);

    assert_eq!(m.variants.len(), 2);
    let q8 = m.variants.iter().find(|v| v.quant == "Q8_0").unwrap();
    assert_eq!(q8.source_tag.as_deref(), Some("8b-instruct-q8_0"));
    assert_eq!(q8.bpw, 850 * CENT);
    assert_eq!(q8.file_size_bytes, None);
    assert_eq!(q8.runtime_compat, vec![RuntimeKind::Ollama]);
    // Architecture fields copied from the curated variant.
    assert_eq!(q8.layers, 32);
    assert_eq!(q8.kv_heads, 8);
    assert_eq!(q8.head_dim, 128);
    assert_eq!(q8.embedding_dim, 4096);
    // Default tag variant carries its exact tag too, and keeps the
    // curated file size (same quant as the curated default).
    let q4 = m.variants.iter().find(|v| v.quant == "Q4_K_M").unwrap();
    assert_eq!(q4.source_tag.as_deref(), Some("8b"));
    assert_eq!(q4.file_size_bytes, Some(4_920_000_000));
}

#[test]
fn ollama_registry_enrich_with_empty_tags_keeps_curated_variant() {
    let mut m = curated_llama31();
    enrich_with_tags(&mut m, &[]);
    assert_eq!(m.variants.len(), 1);
    assert_eq!(m.variants[0].quant, "Q4_K_M");
    assert_eq!(m.variants[0].source_tag, None);
    assert_eq!(m.variants[0].file_size_bytes, Some(4_920_000_000));
}

/// Realistic excerpt of https://ollama.com/library - names appear once
/// per card, sometimes again as tag links; non-library links are noise.
const LIBRARY_INDEX_HTML: &str = r#"<!DOCTYPE html>
<html><body>
<a href="/library/gemma3"><h2>gemma3</h2></a>
<a href="/library/deepseek-r1"><h2>deepseek-r1</h2></a>
<a href="/library/llama3.1"><h2>llama3.1</h2></a>
<a href="/library/gemma3">duplicate card link</a>
<a href="/library/lfm2.5:1.2b">tag link must dedup to the base name</a>
<a href="/library/lfm2.5"><h2>lfm2.5</h2></a>
<a href="/blog/new-models">blog link</a>
<a href="/download">download</a>
</body></html>"#;

#[test]
fn parse_library_names_extracts_from_href() {
    let html = r#"<a href="/library/llama3.1">..</a><a href="/library/qwen3:8b">..</a><a href="/library/llama3.1">dup</a>"#;
    let names = parse_library_names(html);
    assert_eq!(names, vec!["llama3.1", "qwen3"]);
}

#[test]
fn merge_library_names_reserves_newest_headroom() {
    let popularity = vec!["a".to_string(), "b".to_string(), "c".to_string()];
    let newest = vec!["new".to_string(), "a".to_string()];
    let merged = merge_library_names(popularity, newest, 1);
    assert_eq!(merged, vec!["new", "a", "b", "c"]);
}

#[test]
fn fetch_library_index_extracts_names_deduped_in_order() {
    let mut http = MockHttp::default();
    add_text(&mut http, "https://ollama.com/library", LIBRARY_INDEX_HTML);
    let names = fetch_library_index(&http, 20).unwrap();
    assert_eq!(names, vec!["gemma3", "deepseek-r1", "llama3.1", "lfm2.5"]);
}

#[test]
fn fetch_library_index_propagates_network_error() {
    let http = MockHttp::default();
    assert!(fetch_library_index(&http, 20).is_err());
}

/// Manifest fixture shaped like a real registry.ollama.ai answer.
fn manifest_json(digest: &str, size: u64) -> String {
    format!(
        r#"{{
            "schemaVersion": 2,
            "mediaType": "application/vnd.docker.distribution.manifest.v2+json",
            "config": {{
                "mediaType": "application/vnd.docker.container.image.v1+json",
                "digest": "sha256:config",
                "size": 489
            }},
            "layers": [
                {{
                    "mediaType": "application/vnd.ollama.image.model",
                    "digest": "{digest}",
                    "size": {size}
                }},
                {{
                    "mediaType": "application/vnd.ollama.image.template",
                    "digest": "sha256:tmpl",
                    "size": 120
                }}
            ]
        }}"#
    )
}

#[test]
fn fetch_manifest_model_blob_picks_model_layer() {
    let mut http = MockHttp::default();
    add_json(&mut http, "https://registry.ollama.ai/v2/library/lfm2.5/manifests/1.2b", &manifest_json("sha256:abc123", 736_000_000));
    let (digest, size) = fetch_manifest_model_blob(&http, "lfm2.5", "1.2b")
        .unwrap();
    assert_eq!(digest, "sha256:abc123");
    assert_eq!(size, 736_000_000);
}

#[test]
fn fetch_manifest_without_model_layer_is_error() {
    let mut http = MockHttp::default();
    add_json(
        &mut http,
        "https://registry.ollama.ai/v2/library/x/manifests/1b",
        r#"{"layers": [{"mediaType": "application/vnd.ollama.image.template",
                        "digest": "sha256:t", "size": 1}]}"#,
    );
    assert!(fetch_manifest_model_blob(&http, "x", "1b").is_err());
}

#[test]
fn params_from_size_token_cases() {
    assert_eq!(params_from_size_token("8b"), Some(8_000_000_000));
    assert_eq!(params_from_size_token("1.2b"), Some(1_200_000_000));
    assert_eq!(params_from_size_token("350m"), Some(350_000_000));
    assert_eq!(params_from_size_token("e2b"), None); // gemma3n effective size
    assert_eq!(params_from_size_token("latest"), None);
}

/// Full discovery fixture for an lfm2.5-like model: tags page + manifest
/// + blob header. `header` lets each test vary the GGUF metadata.
fn discovery_http(tags_html: &str, blob_size: u64, header: Vec<u8>) -> MockHttp {
    let mut http = MockHttp::default();
    add_text(&mut http, "https://ollama.com/library/lfm2.5/tags", tags_html);
    add_json(&mut http, "https://registry.ollama.ai/v2/library/lfm2.5/manifests/1.2b", &manifest_json("sha256:blob", blob_size));
    http.ranges.push(("https://registry.ollama.ai/v2/library/lfm2.5/blobs/sha256:blob".to_string(), header));
    http
}

/// Tags page with realistic date markup: a page-level "updated" span and
/// per-tag rows `digest&nbsp;·&nbsp;N months ago`. Oldest = 8 months ago.
const LFM25_TAGS_HTML: &str = r#"
        <span x-test-updated>2 months ago</span>
        <a href="/library/lfm2.5:latest">latest</a>
        <div>46e0c10c039e&nbsp;&middot;&nbsp;731MB&nbsp;&middot;&nbsp;2 months ago</div>
        <a href="/library/lfm2.5:1.2b">1.2b</a>
        <a href="/library/lfm2.5:350m">350m</a>
        <a href="/library/lfm2.5:1.2b-q4_K_M">x</a>
        <div>46e0c10c039e&nbsp;·&nbsp;8 months ago</div>
        <a href="/library/lfm2.5:1.2b-q8_0">x</a>
        <a href="/library/lfm2.5:1.2b-cloud">cloud build must be skipped</a>
        <a href="/library/lfm2.5:350m-q4_K_M">x</a>
    "#;

/// Same tag set, no date markup anywhere (degraded/changed page layout).
const LFM25_TAGS_HTML_NO_DATES: &str = r#"
        <a href="/library/lfm2.5:latest">latest</a>
        <a href="/library/lfm2.5:1.2b">1.2b</a>
        <a href="/library/lfm2.5:350m">350m</a>
        <a href="/library/lfm2.5:1.2b-q4_K_M">x</a>
        <a href="/library/lfm2.5:1.2b-q8_0">x</a>
        <a href="/library/lfm2.5:1.2b-cloud">cloud build must be skipped</a>
        <a href="/library/lfm2.5:350m-q4_K_M">x</a>
    "#;

/// Fixed "now" for discovery tests so relative-date math is deterministic.
const NOW: i64 = 1_780_000_000;

fn lfm25_header() -> GgufBuilder {
    GgufBuilder::new()
        .string("general.architecture", "lfm2moe")
        .u64("general.parameter_count", 1_170_000_000)
        .u32("lfm2moe.block_count", 16)
        .u32("lfm2moe.attention.head_count", 16)
        .u32("lfm2moe.attention.head_count_kv", 4)
        .u32("lfm2moe.embedding_length", 2048)
        .u32("lfm2moe.context_length", 32768)
}

#[test]
fn discover_model_builds_first_seen_size_only() {
    let http = discovery_http(LFM25_TAGS_HTML, 736_000_000, lfm25_header().build());
    let m = discover_model(&http, "lfm2.5", NOW).unwrap().unwrap();

    // First-seen size only (1.2b); 350m skipped in v1.
    assert_eq!(m.name, "lfm2.5:1.2b");
    assert_eq!(m.source, Source::Ollama);
    assert_eq!(m.architecture.as_deref(), Some("lfm2moe"));
    assert_eq!(m.params_total, 1_170_000_000); // exact header count wins
    assert_eq!(m.params_active, 1_170_000_000); // no expert keys → dense
    assert_eq!(m.context_max, 32768);

    // Oldest relative date on the page ("8 months ago") is the release
    // proxy - always approximate.
    assert_eq!(m.released_at, Some(NOW - 8 * 30 * 86_400));
    assert!(m.released_approx);

    // Plain `1.2b` aliases Q4_K_M and wins that slot; cloud tag excluded.
    assert_eq!(m.variants.len(), 2);
    let q4 = m.variants.iter().find(|v| v.quant == "Q4_K_M").unwrap();
    assert_eq!(q4.source_tag.as_deref(), Some("1.2b"));
    assert_eq!(q4.file_size_bytes, Some(736_000_000)); // probed tag only
    assert_eq!(q4.layers, 16);
    assert_eq!(q4.kv_heads, 4);
    assert_eq!(q4.head_dim, 128); // 2048 / 16
    assert_eq!(q4.embedding_dim, 2048);
    assert_eq!(q4.runtime_compat, vec![RuntimeKind::Ollama]);
    let q8 = m.variants.iter().find(|v| v.quant == "Q8_0").unwrap();
    assert_eq!(q8.source_tag.as_deref(), Some("1.2b-q8_0"));
    assert_eq!(q8.file_size_bytes, None);
}

#[test]
fn discover_model_moe_active_params_from_expert_ratio() {
    let header = lfm25_header()
        .u32("lfm2moe.expert_count", 32)
        .u32("lfm2moe.expert_used_count", 4)
        .build();
    let http = discovery_http(LFM25_TAGS_HTML, 736_000_000, header);
    let m = discover_model(&http, "lfm2.5", NOW).unwrap().unwrap();
    assert_eq!(m.params_total, 1_170_000_000);
    // Rough MoE approximation: total × 4/32.
    assert_eq!(m.params_active, 146_250_000);
}

#[test]
fn discover_model_without_page_dates_has_no_release_date() {
    let http = discovery_http(
        LFM25_TAGS_HTML_NO_DATES,
        736_000_000,
        lfm25_header().build(),
    );
    let m = discover_model(&http, "lfm2.5", NOW).unwrap().unwrap();
    assert_eq!(m.released_at, None);
    assert!(!m.released_approx);
}

#[test]
fn discover_model_params_fallback_blob_size_then_size_token() {
    // No general.parameter_count → blob_size × 8 / bpw of the probed
    // quant (Q4_K_M, 4.83).
    let header = GgufBuilder::new()
        .string("general.architecture", "lfm2")
        .u32("lfm2.block_count", 16)
        .u32("lfm2.attention.head_count", 16)
        .u32("lfm2.attention.head_count_kv", 4)
        .u32("lfm2.embedding_length", 2048)
        .u32("lfm2.context_length", 32768)
        .build();
    let http = discovery_http(LFM25_TAGS_HTML, 736_000_000, header.clone());
    let m = discover_model(&http, "lfm2.5", NOW).unwrap().unwrap();
    assert_eq!(m.params_total, (736_000_000f64 * 8.0 / 4.83) as u64);

    // Manifest reports size 0 → last resort: the size token "1.2b".
    let http = discovery_http(LFM25_TAGS_HTML, 0, header);
    let m = discover_model(&http, "lfm2.5", NOW).unwrap().unwrap();
    assert_eq!(m.params_total, 1_200_000_000);
    // No blob size known on any variant.
    assert!(m.variants.iter().all(|v| v.file_size_bytes.is_none()));
}

#[test]
fn discover_model_cloud_only_is_none() {
    let html = r#"
            <a href="/library/lfm2.5:latest">latest</a>
            <a href="/library/lfm2.5:120b-cloud">x</a>
            <a href="/library/lfm2.5:480b-cloud">x</a>
        "#;
    let http = discovery_http(html, 0, Vec::new());
    assert!(
        discover_model(&http, "lfm2.5", NOW)
            .unwrap()
            .is_none()
    );
}

#[test]
fn discover_model_skiplist_architecture_is_none() {
    for arch in ["bert", "nomic-bert", "clip"] {
        let header = GgufBuilder::new()
            .string("general.architecture", arch)
            .u32("x.block_count", 12)
            .u32("x.attention.head_count", 12)
            .u32("x.attention.head_count_kv", 12)
            .u32("x.embedding_length", 768)
            .u32("x.context_length", 512)
            .build();
        let http = discovery_http(LFM25_TAGS_HTML, 736_000_000, header);
        assert!(
            discover_model(&http, "lfm2.5", NOW)
                .unwrap()
                .is_none(),
            "arch {arch} must be skipped"
        );
    }
}

#[test]
fn discover_model_unparseable_header_is_none() {
    let http = discovery_http(LFM25_TAGS_HTML, 736_000_000, b"not a gguf file".to_vec());
    assert!(
        discover_model(&http, "lfm2.5", NOW)
            .unwrap()
            .is_none()
    );
}

#[test]
fn discover_model_network_errors_propagate() {
    // Tags page missing entirely.
    let http = MockHttp::default();
    assert!(discover_model(&http, "lfm2.5", NOW).is_err());
    // Tags OK but manifest fetch fails.
    let mut http = MockHttp::default();
    add_text(&mut http, "https://ollama.com/library/lfm2.5/tags", LFM25_TAGS_HTML);
    assert!(discover_model(&http, "lfm2.5", NOW).is_err());
}

/// A client of one's own: it answers every page with the same tags, and
/// nothing else.
struct OnePage;

impl HttpClient for OnePage {
    fn get_json(&self, url: &str) -> Result<serde_json::Value, PaddockError> {
        Err(PaddockError::Network(url.to_string()))
    }

    fn get_json_with_accept(
        &self,
        url: &str,
        accept: &str,
    ) -> Result<serde_json::Value, PaddockError> {
        Err(PaddockError::Network(format!("{accept} {url}")))
    }

    fn get_text(&self, _url: &str) -> Result<String, PaddockError> {
        Ok(LFM25_TAGS_HTML.to_string())
    }

    fn get_range(&self, url: &str, _start: u64, _end: u64) -> Result<Vec<u8>, PaddockError> {
        Err(PaddockError::Network(url.to_string()))
    }
}

#[test]
fn manifests_are_asked_for_with_their_media_type() {
    match discover_model(&OnePage, "lfm2.5", NOW) {
        Err(PaddockError::Network(m)) => assert_eq!(
            m,
            "application/vnd.docker.distribution.manifest.v2+json \
             https://registry.ollama.ai/v2/library/lfm2.5/manifests/1.2b"
        ),
        other => panic!("expected a network error, got {other:?}"),
    }
}

#[test]
fn merged_index_keeps_every_name_once() {
    let names = |s: &str| s.split(' ').map(String::from).collect::<Vec<String>>();
    let merged = merge_library_names(names("a b c"), names("d b e f a"), 1);
    assert_eq!(merged, vec!["d", "a", "b", "c", "e", "f"]);
    assert_eq!(merge_library_names(names("a b"), names("c b"), 0), vec!["a", "b", "c"]);
}

#[test]
fn library_index_falls_back_to_popularity() {
    let mut http = MockHttp::default();
    add_text(&mut http, "https://ollama.com/library", "<a href=\"/library/old\">x</a>");
    assert_eq!(fetch_library_index(&http, 20).unwrap(), vec!["old"]);
    add_text(
        &mut http,
        "https://ollama.com/library?sort=newest",
        "<a href=\"/library/new\">x</a><a href=\"/library/old\">x</a>",
    );
    assert_eq!(fetch_library_index(&http, 20).unwrap(), vec!["new", "old"]);
    assert_eq!(fetch_library_index(&http, 0).unwrap(), vec!["old", "new"]);
}

#[test]
fn quant_suffixes_are_normalized() {
    assert_eq!(normalize_quant("q4_K_M").as_deref(), Some("Q4_K_M"));
    assert_eq!(normalize_quant("fp16").as_deref(), Some("F16"));
    assert_eq!(normalize_quant("q9_Z"), None);
}

#[test]
fn size_tokens_truncate_like_doubles() {
    for text in ["4.1", "0.6", "2.3", "1.7", "13.8", "0.135", "72.7"] {
        let exact: f64 = text.parse().unwrap();
        assert_eq!(params_from_size_token(&format!("{text}b")), Some((exact * 1e9) as u64));
        assert_eq!(params_from_size_token(&format!("{text}m")), Some((exact * 1e6) as u64));
    }
    assert_eq!(params_from_size_token("0b"), None);
    assert_eq!(params_from_size_token("b"), None);
}

#[test]
fn any_decimal_is_a_size() {
    for text in [
        "1e1", "2.5E-1", ".5", "5.", "+3", "-1", "inf", "nan", "1e400", "1e-400", "1e-30", "1e18",
        "123456789012345678901234567890", "0.1000000000000000055511151231257827021181583404541",
    ] {
        let want = text
            .parse::<f64>()
            .ok()
            .filter(|v| v.is_finite() && *v > 0.0)
            .map(|v| (v * 1e9) as u64);
        assert_eq!(params_from_size_token(&format!("{text}b")), want, "{text}");
    }
}

#[test]
fn select_variant_tags_llama31_8b() {
    let tags: Vec<String> = [
        "latest",
        "8b",
        "70b",
        "405b",
        "8b-instruct-q4_K_M",
        "8b-instruct-q8_0",
        "8b-instruct-fp16",
        "8b-instruct-q4_1",
        "8b-text-q4_K_M",
        "70b-instruct-q4_K_M",
    ]
    .iter()
    .map(|s| s.to_string())
    .collect();

    let kept = select_variant_tags(&tags, "8b", "Q4_K_M");
    // - plain "8b" → curated default quant, and being shortest it wins
    //   the Q4_K_M slot over "8b-instruct-q4_K_M"
    // - "-text" skipped, unknown q4_1 skipped, 70b/405b/latest excluded
    assert_eq!(
        kept,
        vec![
            OllamaTag {
                tag: "8b".into(),
                quant: "Q4_K_M".into()
            },
            OllamaTag {
                tag: "8b-instruct-q8_0".into(),
                quant: "Q8_0".into()
            },
            OllamaTag {
                tag: "8b-instruct-fp16".into(),
                quant: "F16".into()
            },
        ]
    );
}

#[test]
fn select_variant_tags_without_plain_tag_keeps_shortest_per_quant() {
    let tags: Vec<String> = [
        "8b-instruct-2024-q4_K_M", // longer exotic variant…
        "8b-instruct-q4_K_M",      // …loses to the canonical one
        "8b-instruct-q6_K",
    ]
    .iter()
    .map(|s| s.to_string())
    .collect();
    let kept = select_variant_tags(&tags, "8b", "Q4_K_M");
    assert_eq!(
        kept,
        vec![
            OllamaTag {
                tag: "8b-instruct-q4_K_M".into(),
                quant: "Q4_K_M".into()
            },
            OllamaTag {
                tag: "8b-instruct-q6_K".into(),
                quant: "Q6_K".into()
            },
        ]
    );
}

#[test]
fn select_variant_tags_prefix_must_be_whole_segment() {
    // "8b1-q4_K_M" must not match size prefix "8b".
    let tags = vec!["8b1-instruct-q4_K_M".to_string()];
    assert!(select_variant_tags(&tags, "8b", "Q4_K_M").is_empty());
}

#[test]
fn select_variant_tags_q4_0_is_a_known_quant() {
    let tags = vec!["8b-instruct-q4_0".to_string(), "8b-text-fp16".to_string()];
    let kept = select_variant_tags(&tags, "8b", "Q4_K_M");
    assert_eq!(
        kept,
        vec![OllamaTag {
            tag: "8b-instruct-q4_0".into(),
            quant: "Q4_0".into()
        }]
    );
}

#[test]
fn enrich_with_tags_replaces_variants_and_copies_arch() {
    let mut m = curated_llama31();
    let tags = vec![
        OllamaTag {
            tag: "8b".into(),
            quant: "Q4_K_M".into(),
        },
        OllamaTag {
            tag: "8b-instruct-q8_0".into(),
            quant: "Q8_0".into(),
        },
    ];
    enrich_with_tags(&mut m, &tags);

    assert_eq!(m.variants.len(), 2);
    let q8 = m.variants.iter().find(|v| v.quant == "Q8_0").unwrap();
    assert_eq!(q8.source_tag.as_deref(), Some("8b-instruct-q8_0"));
    assert_eq!(q8.bpw, 850 * CENT);
    assert_eq!(q8.file_size_bytes, None);
    assert_eq!(q8.runtime_compat, vec![RuntimeKind::Ollama]);
    // Architecture fields copied from the curated variant.
    assert_eq!(q8.layers, 32);
    assert_eq!(q8.kv_heads, 8);
    assert_eq!(q8.head_dim, 128);
    assert_eq!(q8.embedding_dim, 4096);
    // Default tag variant carries its exact tag too.
    let q4 = m.variants.iter().find(|v| v.quant == "Q4_K_M").unwrap();
    assert_eq!(q4.source_tag.as_deref(), Some("8b"));
}

#[test]
fn enrich_with_empty_tags_keeps_curated_variant() {
    let mut m = curated_llama31();
    enrich_with_tags(&mut m, &[]);
    assert_eq!(m.variants.len(), 1);
    assert_eq!(m.variants[0].quant, "Q4_K_M");
    assert_eq!(m.variants[0].source_tag, None);
    assert_eq!(m.variants[0].file_size_bytes, Some(4_920_000_000));
}
