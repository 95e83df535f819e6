//! Hugging Face: repositories, names and MLX configurations.

use paddock::catalog::hf::{
    fetch_hf_gguf, fetch_hf_repo, fetch_mlx, moe_active_params, params_from_name, role, FileRole,
};
use paddock::catalog::http::MockHttp;
use paddock::catalog::RuntimeKind;

/// A hundredth of a bit per weight.
const CENT: u64 = 100_000_000_000_000;

const HF_API: &str = "https://huggingface.co/api";

struct Pages(MockHttp);

impl Pages {
    fn add_json(mut self, url: &str, json: &str) -> Self {
        self.0.jsons.push((url.to_string(), json.to_string()));
        self
    }

    fn add_range(mut self, url: &str, bytes: Vec<u8>) -> Self {
        self.0.ranges.push((url.to_string(), bytes));
        self
    }
}

/// Minimal GGUF v3 header builder (spec: github.com/ggml-org/ggml/docs/gguf.md).
struct GgufBuilder {
    kvs: Vec<u8>,
    count: u64,
}

impl GgufBuilder {
    fn new() -> Self {
        Self {
            kvs: Vec::new(),
            count: 0,
        }
    }

    fn push_key(&mut self, key: &str) {
        self.kvs.extend((key.len() as u64).to_le_bytes());
        self.kvs.extend(key.as_bytes());
    }

    fn string(mut self, key: &str, val: &str) -> Self {
        self.push_key(key);
        self.kvs.extend(8u32.to_le_bytes()); // type 8 = string
        self.kvs.extend((val.len() as u64).to_le_bytes());
        self.kvs.extend(val.as_bytes());
        self.count += 1;
        self
    }

    fn u32(mut self, key: &str, val: u32) -> Self {
        self.push_key(key);
        self.kvs.extend(4u32.to_le_bytes()); // type 4 = u32
        self.kvs.extend(val.to_le_bytes());
        self.count += 1;
        self
    }

    fn u64(mut self, key: &str, val: u64) -> Self {
        self.push_key(key);
        self.kvs.extend(10u32.to_le_bytes()); // type 10 = u64
        self.kvs.extend(val.to_le_bytes());
        self.count += 1;
        self
    }

    fn f32(mut self, key: &str, val: f32) -> Self {
        self.push_key(key);
        self.kvs.extend(6u32.to_le_bytes()); // type 6 = f32
        self.kvs.extend(val.to_le_bytes());
        self.count += 1;
        self
    }

    fn i32(mut self, key: &str, val: i32) -> Self {
        self.push_key(key);
        self.kvs.extend(5u32.to_le_bytes()); // type 5 = i32
        self.kvs.extend(val.to_le_bytes());
        self.count += 1;
        self
    }

    fn u32_array(mut self, key: &str, vals: &[u32]) -> Self {
        self.push_key(key);
        self.kvs.extend(9u32.to_le_bytes()); // type 9 = array
        self.kvs.extend(4u32.to_le_bytes()); // element type u32
        self.kvs.extend((vals.len() as u64).to_le_bytes());
        for v in vals {
            self.kvs.extend(v.to_le_bytes());
        }
        self.count += 1;
        self
    }

    fn build(self) -> Vec<u8> {
        let mut out = Vec::new();
        out.extend(b"GGUF");
        out.extend(3u32.to_le_bytes()); // version
        out.extend(0u64.to_le_bytes()); // tensor_count
        out.extend(self.count.to_le_bytes()); // kv count
        out.extend(self.kvs);
        out
    }
}

fn llama_header() -> Vec<u8> {
    GgufBuilder::new()
        .string("general.architecture", "llama")
        .u32("llama.block_count", 32)
        .u32("llama.attention.head_count", 32)
        .u32("llama.attention.head_count_kv", 8)
        .u32("llama.embedding_length", 4096)
        .u32("llama.context_length", 131072)
        .f32("llama.rope.freq_base", 500000.0) // irrelevant key, must be skipped
        .u32_array("llama.dummy.array", &[1, 2, 3]) // arrays must be skippable
        .build()
}

fn failing_http() -> MockHttp {
    MockHttp::default()
}

#[test]
fn fetch_hf_repo_full_flow() {
    let repo = "bartowski/Meta-Llama-3.1-8B-Instruct-GGUF";
    let detail_url = format!("{HF_API}/models/{repo}?blobs=true");
    let list_url = format!("{HF_API}/models?filter=gguf&sort=downloads&limit=1");
    let range_url = format!(
        "https://huggingface.co/{repo}/resolve/main/Meta-Llama-3.1-8B-Instruct-Q4_K_M.gguf"
    );

    let gguf_bytes = llama_header();

    let http = Pages(MockHttp::default())
        .add_json(&list_url, &format!(r#"[{{"id": "{repo}"}}]"#))
        .add_json(
            &detail_url,
            &format!(r#"{{
                "id": "{repo}",
                "gguf": {{
                    "architecture": "llama",
                    "context_length": 131072,
                    "total": 8030000000
                }},
                "siblings": [
                    {{
                        "rfilename": "Meta-Llama-3.1-8B-Instruct-Q4_K_M.gguf",
                        "size": 4920000000
                    }},
                    {{
                        "rfilename": "Meta-Llama-3.1-8B-Instruct-Q8_0.gguf",
                        "size": 8540000000
                    }}
                ]
            }}"#),
        )
        .add_range(&range_url, gguf_bytes)
        .0;

    let models = fetch_hf_gguf(&http, 1).unwrap();
    assert_eq!(models.len(), 1);
    let m = &models[0];
    assert_eq!(m.params_total, 8030000000);
    // Both Q4_K_M and Q8_0 should appear as variants
    assert_eq!(m.variants.len(), 2);
    // The header gives 32 layers, 8 kv_heads, 128 head_dim
    for v in &m.variants {
        assert_eq!(v.layers, 32);
        assert_eq!(v.kv_heads, 8);
        assert_eq!(v.head_dim, 128);
    }
}

#[test]
fn mmproj_repo_is_llama_cpp_only() {
    // Repos shipping a separate vision projector (mmproj-*.gguf) cannot be
    // imported by Ollama via hf.co (ollama/ollama#15447).
    let repo = "unsloth/Qwen3.6-35B-A3B-MTP-GGUF";
    let detail_url = format!("{HF_API}/models/{repo}?blobs=true");
    let list_url = format!("{HF_API}/models?filter=gguf&sort=downloads&limit=1");
    let range_url =
        format!("https://huggingface.co/{repo}/resolve/main/Qwen3.6-35B-A3B-UD-Q4_K_M.gguf");

    let http = Pages(MockHttp::default())
        .add_json(&list_url, &format!(r#"[{{"id": "{repo}"}}]"#))
        .add_json(
            &detail_url,
            &format!(r#"{{
                "id": "{repo}",
                "gguf": {{
                    "architecture": "qwen3moe",
                    "context_length": 262144,
                    "total": 35000000000
                }},
                "siblings": [
                    {{"rfilename": "mmproj-BF16.gguf", "size": 1200000000}},
                    {{"rfilename": "Qwen3.6-35B-A3B-UD-Q4_K_M.gguf", "size": 22000000000}}
                ]
            }}"#),
        )
        .add_range(&range_url, llama_header())
        .0;

    let models = fetch_hf_gguf(&http, 1).unwrap();
    assert_eq!(models.len(), 1);
    let m = &models[0];
    // mmproj-BF16.gguf must NOT surface as a BF16 model variant
    assert_eq!(m.variants.len(), 1);
    assert_eq!(m.variants[0].quant, "UD-Q4_K_M");
    assert_eq!(m.variants[0].runtime_compat, vec![RuntimeKind::LlamaCpp]);
}

#[test]
fn params_from_name_cases() {
    assert_eq!(
        params_from_name("mlx-community/Llama-3.1-8B-Instruct-4bit"),
        Some(8_000_000_000)
    );
    assert_eq!(params_from_name("Qwen2.5-0.5B"), Some(500_000_000));
}

#[test]
fn params_from_name_moe_nxmb() {
    // 8x7B is 56B total, not 7B.
    assert_eq!(
        params_from_name("mlx-community/Mixtral-8x7B-Instruct-4bit"),
        Some(56_000_000_000)
    );
}

#[test]
fn moe_active_params_known_table() {
    // Qwen3-30B-A3B hits the known table
    let repo = "Qwen/Qwen3-30B-A3B-GGUF";
    let total = 30_500_000_000u64;
    let active = moe_active_params(repo, total);
    assert_eq!(active, 3_300_000_000);
}

#[test]
fn moe_active_params_generic_suffix() {
    // Generic "-a3b" style not in known table
    let repo = "some-org/SomeMoE-20B-A3B-GGUF";
    let total = 20_000_000_000u64;
    let active = moe_active_params(repo, total);
    assert_eq!(active, 3_000_000_000);
}

#[test]
fn moe_active_params_org_name_containing_a_dash() {
    // "-a" in the org name must not shadow the real "-A3B" suffix.
    let repo = "meta-ai/SomeMoE-20B-A3B-GGUF";
    let total = 20_000_000_000u64;
    let active = moe_active_params(repo, total);
    assert_eq!(active, 3_000_000_000);
}

#[test]
fn fetch_mlx_basic() {
    let list_url = format!("{HF_API}/models?author=mlx-community&sort=downloads&limit=1");
    let repo = "mlx-community/Llama-3.1-8B-Instruct-4bit";
    let config_url = format!("https://huggingface.co/{repo}/resolve/main/config.json");

    let http = Pages(MockHttp::default())
        .add_json(&list_url, &format!(r#"[{{"id": "{repo}"}}]"#))
        .add_json(
            &config_url,
            &format!(r#"{{
                "model_type": "llama",
                "num_hidden_layers": 32,
                "num_attention_heads": 32,
                "num_key_value_heads": 8,
                "hidden_size": 4096,
                "max_position_embeddings": 131072,
                "quantization": {{"bits": 4}}
            }}"#),
        )
        .0;

    let models = fetch_mlx(&http, 1).unwrap();
    assert_eq!(models.len(), 1);
    let m = &models[0];
    assert_eq!(m.params_total, 8_000_000_000);
    let v = &m.variants[0];
    assert_eq!(v.quant, "MLX_4BIT");
    assert_eq!(v.bpw, 450 * CENT);
    assert_eq!(v.layers, 32);
    assert_eq!(v.kv_heads, 8);
    assert_eq!(v.head_dim, 128); // 4096 / 32
}

#[test]
fn bad_repo_does_not_kill_sync() {
    // One repo has bad data (missing gguf field), other is fine
    let list_url = format!("{HF_API}/models?filter=gguf&sort=downloads&limit=2");
    let good_repo = "bartowski/Qwen2.5-7B-Instruct-GGUF";
    let bad_repo = "bad/broken-GGUF";
    let good_detail_url = format!("{HF_API}/models/{good_repo}?blobs=true");
    let range_url = format!(
        "https://huggingface.co/{good_repo}/resolve/main/Qwen2.5-7B-Instruct-Q4_K_M.gguf"
    );

    let gguf_bytes = GgufBuilder::new()
        .string("general.architecture", "qwen2")
        .u32("qwen2.block_count", 28)
        .u32("qwen2.attention.head_count", 28)
        .u32("qwen2.attention.head_count_kv", 4)
        .u32("qwen2.embedding_length", 3584)
        .u32("qwen2.context_length", 131072)
        .build();

    let http = Pages(MockHttp::default())
        .add_json(&list_url, &format!(r#"[{{"id": "{bad_repo}"}}, {{"id": "{good_repo}"}}]"#))
        // bad_repo has no detail url registered → get_json returns error → skipped
        .add_json(
            &good_detail_url,
            &format!(r#"{{
                "id": "{good_repo}",
                "gguf": {{
                    "architecture": "qwen2",
                    "context_length": 131072,
                    "total": 7620000000
                }},
                "siblings": [
                    {{"rfilename": "Qwen2.5-7B-Instruct-Q4_K_M.gguf", "size": 4680000000}}
                ]
            }}"#),
        )
        .add_range(&range_url, gguf_bytes)
        .0;

    let models = fetch_hf_gguf(&http, 2).unwrap();
    assert_eq!(
        models.len(),
        1,
        "bad repo should be skipped, good repo should pass"
    );
    assert_eq!(models[0].params_total, 7620000000);
}

#[test]
fn fetch_hf_gguf_failing_http_returns_empty() {
    let http = failing_http();
    // failing_http has no list url registered; fetch_hf_gguf returns error from outer call
    let result = fetch_hf_gguf(&http, 5);
    assert!(result.is_err());
}

#[test]
fn files_have_their_roles() {
    assert!(matches!(role("Qwen-Q4_K_M.gguf"), FileRole::Weights(q) if q == "Q4_K_M"));
    assert!(matches!(role("sub/MMPROJ-F16.gguf"), FileRole::Projector));
    assert!(matches!(role("Qwen-Q4_K_M-00001-of-00002.gguf"), FileRole::Other));
    assert!(matches!(role("README.md"), FileRole::Other));
}

#[test]
fn smallest_file_is_probed() {
    let repo = "org/Two-GGUF";
    let http = Pages(MockHttp::default())
        .add_json(
            &format!("{HF_API}/models/{repo}?blobs=true"),
            r#"{"gguf": {"total": 1000}, "siblings": [
                {"rfilename": "a-Q8_0.gguf", "size": 9},
                {"rfilename": "a-Q4_K_M.gguf", "size": 5},
                {"rfilename": "a-Q2_K.gguf", "size": 5}]}"#,
        )
        .add_range(
            &format!("https://huggingface.co/{repo}/resolve/main/a-Q4_K_M.gguf"),
            llama_header(),
        )
        .0;
    let m = fetch_hf_repo(&http, repo).unwrap().unwrap();
    assert_eq!(m.name, "Two-GGUF");
    assert_eq!(m.context_max, 131_072);
    assert_eq!(m.variants.len(), 3);
    assert_eq!(m.variants[1].file_size_bytes, Some(5));
    assert_eq!(m.variants[1].runtime_compat, vec![RuntimeKind::Ollama, RuntimeKind::LlamaCpp]);
}

#[test]
fn repo_without_header_or_files_is_skipped() {
    let repo = "org/None";
    let url = format!("{HF_API}/models/{repo}?blobs=true");
    let http = Pages(MockHttp::default())
        .add_json(
            &url,
            r#"{"gguf": {"total": 1000}, "siblings": [{"rfilename": "a-Q8_0.gguf", "size": 9}]}"#,
        )
        .0;
    assert!(fetch_hf_repo(&http, repo).unwrap().is_none());
    let http = Pages(MockHttp::default()).add_json(&url, r#"{"siblings": []}"#).0;
    assert!(fetch_hf_repo(&http, repo).unwrap().is_none());
}

#[test]
fn names_and_suffixes_round_like_doubles() {
    for text in ["4.1", "0.6", "2.3", "1.7", "13.8", "32.5"] {
        let exact: f64 = text.parse().unwrap();
        assert_eq!(params_from_name(&format!("org/Model-{text}B")), Some((exact * 1e9) as u64));
        assert_eq!(
            moe_active_params(&format!("org/Moe-100B-A{text}B"), 100_000_000_000),
            (exact * 1e9) as u64
        );
    }
    assert_eq!(params_from_name("org/Model"), None);
    assert_eq!(moe_active_params("org/Model-7B", 7), 7);
}
