//! Headers of model files.

use paddock::catalog::gguf::{note_entry, parse_gguf_header, GgufMeta, Read};
use paddock::error::PaddockError;

/// Minimal GGUF v3 header builder (spec: github.com/ggml-org/ggml/docs/gguf.md).
struct GgufBuilder {
    kvs: Vec<u8>,
    count: u64,
}

impl GgufBuilder {
    fn new() -> Self {
        Self {
            kvs: Vec::new(),
            count: 0,
        }
    }

    fn push_key(&mut self, key: &str) {
        self.kvs.extend((key.len() as u64).to_le_bytes());
        self.kvs.extend(key.as_bytes());
    }

    fn string(mut self, key: &str, val: &str) -> Self {
        self.push_key(key);
        self.kvs.extend(8u32.to_le_bytes()); // type 8 = string
        self.kvs.extend((val.len() as u64).to_le_bytes());
        self.kvs.extend(val.as_bytes());
        self.count += 1;
        self
    }

    fn u32(mut self, key: &str, val: u32) -> Self {
        self.push_key(key);
        self.kvs.extend(4u32.to_le_bytes()); // type 4 = u32
        self.kvs.extend(val.to_le_bytes());
        self.count += 1;
        self
    }

    fn u64(mut self, key: &str, val: u64) -> Self {
        self.push_key(key);
        self.kvs.extend(10u32.to_le_bytes()); // type 10 = u64
        self.kvs.extend(val.to_le_bytes());
        self.count += 1;
        self
    }

    fn f32(mut self, key: &str, val: f32) -> Self {
        self.push_key(key);
        self.kvs.extend(6u32.to_le_bytes()); // type 6 = f32
        self.kvs.extend(val.to_le_bytes());
        self.count += 1;
        self
    }

    fn i32(mut self, key: &str, val: i32) -> Self {
        self.push_key(key);
        self.kvs.extend(5u32.to_le_bytes()); // type 5 = i32
        self.kvs.extend(val.to_le_bytes());
        self.count += 1;
        self
    }

    fn u32_array(mut self, key: &str, vals: &[u32]) -> Self {
        self.push_key(key);
        self.kvs.extend(9u32.to_le_bytes()); // type 9 = array
        self.kvs.extend(4u32.to_le_bytes()); // element type u32
        self.kvs.extend((vals.len() as u64).to_le_bytes());
        for v in vals {
            self.kvs.extend(v.to_le_bytes());
        }
        self.count += 1;
        self
    }

    fn build(self) -> Vec<u8> {
        let mut out = Vec::new();
        out.extend(b"GGUF");
        out.extend(3u32.to_le_bytes()); // version
        out.extend(0u64.to_le_bytes()); // tensor_count
        out.extend(self.count.to_le_bytes()); // kv count
        out.extend(self.kvs);
        out
    }
}

fn llama_header() -> Vec<u8> {
    GgufBuilder::new()
        .string("general.architecture", "llama")
        .u32("llama.block_count", 32)
        .u32("llama.attention.head_count", 32)
        .u32("llama.attention.head_count_kv", 8)
        .u32("llama.embedding_length", 4096)
        .u32("llama.context_length", 131072)
        .f32("llama.rope.freq_base", 500000.0) // irrelevant key, must be skipped
        .u32_array("llama.dummy.array", &[1, 2, 3]) // arrays must be skippable
        .build()
}

#[test]
fn gguf_parses_llama_header() {
    let m = parse_gguf_header(&llama_header()).unwrap();
    assert_eq!(m.architecture.as_deref(), Some("llama"));
    assert_eq!(m.block_count, Some(32));
    assert_eq!(m.head_count, Some(32));
    assert_eq!(m.head_count_kv, Some(8));
    assert_eq!(m.embedding_length, Some(4096));
    assert_eq!(m.context_length, Some(131072));
    assert_eq!(m.head_dim(), Some(128)); // 4096 / 32
}

#[test]
fn gguf_rejects_bad_magic() {
    assert!(parse_gguf_header(b"NOPE\x03\x00\x00\x00").is_err());
}

#[test]
fn rejects_v1_header() {
    // v1 uses u32 counts/lengths; we only support v2/v3 layout.
    let mut bytes = llama_header();
    bytes[4..8].copy_from_slice(&1u32.to_le_bytes());
    assert!(parse_gguf_header(&bytes).is_err());
}

#[test]
fn block_count_as_f32_decodes_as_integer() {
    let bytes = GgufBuilder::new()
        .string("general.architecture", "llama")
        .f32("llama.block_count", 32.0)
        .build();
    let m = parse_gguf_header(&bytes).unwrap();
    assert_eq!(m.block_count, Some(32));
}

#[test]
fn block_count_negative_i32_is_none() {
    let bytes = GgufBuilder::new()
        .string("general.architecture", "llama")
        .i32("llama.block_count", -5)
        .build();
    let m = parse_gguf_header(&bytes).unwrap();
    assert_eq!(m.block_count, None, "negative i32 must not become huge u64");
}

#[test]
fn non_integer_f32_is_none() {
    let bytes = GgufBuilder::new()
        .string("general.architecture", "llama")
        .f32("llama.block_count", 32.5)
        .build();
    let m = parse_gguf_header(&bytes).unwrap();
    assert_eq!(m.block_count, None);
}

#[test]
fn gguf_truncated_header_is_error_not_panic() {
    let full = llama_header();
    // Cuts before any tracked key completes must stay Err.
    for cut in [0, 3, 4, 11, 25] {
        assert!(parse_gguf_header(&full[..cut]).is_err(), "cut at {cut}");
    }
    // A cut inside the trailing array happens AFTER architecture and
    // block_count were parsed: partial meta is returned instead of Err.
    let m = parse_gguf_header(&full[..full.len() - 1]).unwrap();
    assert_eq!(m.architecture.as_deref(), Some("llama"));
    assert_eq!(m.block_count, Some(32));
}

#[test]
fn truncated_mid_giant_array_returns_partial_meta() {
    // Simulates a 2 MiB probe cutting inside a huge tokenizer array.
    let full = GgufBuilder::new()
        .string("general.architecture", "llama")
        .u32("llama.block_count", 32)
        .u32_array("tokenizer.ggml.token_ids", &vec![7u32; 100_000])
        .build();
    let cut = full.len() - 50_000; // well inside the array data
    let m = parse_gguf_header(&full[..cut]).unwrap();
    assert_eq!(m.architecture.as_deref(), Some("llama"));
    assert_eq!(m.block_count, Some(32));
}

#[test]
fn early_exit_once_all_tracked_fields_filled() {
    // Every tracked field appears before a giant array; the parser must
    // return without needing the array bytes at all.
    let full = GgufBuilder::new()
        .string("general.architecture", "llama")
        .string("general.name", "Llama Test")
        .u64("general.parameter_count", 8_030_000_000)
        .u32("llama.block_count", 32)
        .u32("llama.attention.head_count", 32)
        .u32("llama.attention.head_count_kv", 8)
        .u32("llama.embedding_length", 4096)
        .u32("llama.context_length", 131072)
        .u32("llama.expert_count", 8)
        .u32("llama.expert_used_count", 2)
        .u32_array("tokenizer.ggml.token_ids", &vec![7u32; 100_000])
        .build();
    let cut = full.len() - 200_000; // cut deep inside the array
    let m = parse_gguf_header(&full[..cut]).unwrap();
    assert_eq!(m.architecture.as_deref(), Some("llama"));
    assert_eq!(m.name.as_deref(), Some("Llama Test"));
    assert_eq!(m.parameter_count, Some(8_030_000_000));
    assert_eq!(m.block_count, Some(32));
    assert_eq!(m.head_count, Some(32));
    assert_eq!(m.head_count_kv, Some(8));
    assert_eq!(m.embedding_length, Some(4096));
    assert_eq!(m.context_length, Some(131072));
    assert_eq!(m.expert_count, Some(8));
    assert_eq!(m.expert_used_count, Some(2));
}

#[test]
fn parameter_count_and_expert_counts_parsed() {
    let bytes = GgufBuilder::new()
        .string("general.architecture", "qwen3moe")
        .u64("general.parameter_count", 30_500_000_000)
        .u32("qwen3moe.expert_count", 128)
        .u32("qwen3moe.expert_used_count", 8)
        .build();
    let m = parse_gguf_header(&bytes).unwrap();
    assert_eq!(m.parameter_count, Some(30_500_000_000));
    assert_eq!(m.expert_count, Some(128));
    assert_eq!(m.expert_used_count, Some(8));
    // `.expert_used_count` must not also fill `.expert_count` (or vice
    // versa) through the suffix matching.
    let dense = GgufBuilder::new()
        .string("general.architecture", "llama")
        .build();
    let m = parse_gguf_header(&dense).unwrap();
    assert_eq!(m.parameter_count, None);
    assert_eq!(m.expert_count, None);
    assert_eq!(m.expert_used_count, None);
}

#[test]
fn expert_feed_forward_length_parsed() {
    let bytes = GgufBuilder::new()
        .string("general.architecture", "qwen3moe")
        .u32("qwen3moe.expert_count", 128)
        .u32("qwen3moe.expert_used_count", 8)
        .u32("qwen3moe.expert_feed_forward_length", 768)
        .build();
    let m = parse_gguf_header(&bytes).unwrap();
    assert_eq!(m.expert_feed_forward_length, Some(768));
    // The new key must not cross-populate the count fields.
    assert_eq!(m.expert_count, Some(128));
    assert_eq!(m.expert_used_count, Some(8));
}

#[test]
fn gguf_absurd_lengths_rejected() {
    let mut bytes = b"GGUF".to_vec();
    bytes.extend(3u32.to_le_bytes());
    bytes.extend(0u64.to_le_bytes());
    bytes.extend(u64::MAX.to_le_bytes()); // absurd kv count
    assert!(parse_gguf_header(&bytes).is_err());
}

#[test]
fn each_entry_fills_its_own_field_in_any_order() {
    let bytes = GgufBuilder::new()
        .u32("general.alignment", 32)
        .string("general.architecture", "gemma")
        .u32("gemma.attention.key_length", 256)
        .u32("gemma.block_count", 28)
        .u32("gemma.attention.head_count", 16)
        .build();
    let m = parse_gguf_header(&bytes).unwrap();
    assert_eq!(m.architecture.as_deref(), Some("gemma"));
    assert_eq!(m.block_count, Some(28));
    assert_eq!(m.head_count, Some(16));
    assert_eq!(m.head_count_kv, None);
    assert_eq!(m.context_length, None);
}

#[test]
fn invalid_text_is_read_with_replacement_characters() {
    let mut bytes = b"GGUF".to_vec();
    bytes.extend(3u32.to_le_bytes());
    bytes.extend(0u64.to_le_bytes());
    bytes.extend(1u64.to_le_bytes());
    bytes.extend(20u64.to_le_bytes());
    bytes.extend(b"general.architecture");
    bytes.extend(8u32.to_le_bytes());
    bytes.extend(3u64.to_le_bytes());
    bytes.extend([b'a', 0xff, b'b']);
    let m = parse_gguf_header(&bytes).unwrap();
    assert_eq!(m.architecture.as_deref(), Some("a\u{fffd}b"));
}

#[test]
fn malformed_header_is_a_gguf_error() {
    match parse_gguf_header(b"NOPE") {
        Err(PaddockError::Gguf(m)) => assert!(!m.is_empty()),
        other => panic!("expected a header error, got {other:?}"),
    }
}

#[test]
fn zero_heads_have_no_dimension() {
    let bytes = GgufBuilder::new()
        .string("general.architecture", "llama")
        .u32("llama.attention.head_count", 0)
        .u32("llama.embedding_length", 4096)
        .build();
    assert_eq!(parse_gguf_header(&bytes).unwrap().head_dim(), None);
}

#[test]
fn parses_llama_header() {
    let m = parse_gguf_header(&llama_header()).unwrap();
    assert_eq!(m.architecture.as_deref(), Some("llama"));
    assert_eq!(m.block_count, Some(32));
    assert_eq!(m.head_count, Some(32));
    assert_eq!(m.head_count_kv, Some(8));
    assert_eq!(m.embedding_length, Some(4096));
    assert_eq!(m.context_length, Some(131072));
    assert_eq!(m.head_dim(), Some(128)); // 4096 / 32
}

#[test]
fn rejects_bad_magic() {
    assert!(parse_gguf_header(b"NOPE\x03\x00\x00\x00").is_err());
}

#[test]
fn absurd_lengths_rejected() {
    let mut bytes = b"GGUF".to_vec();
    bytes.extend(3u32.to_le_bytes());
    bytes.extend(0u64.to_le_bytes());
    bytes.extend(u64::MAX.to_le_bytes()); // absurd kv count
    assert!(parse_gguf_header(&bytes).is_err());
}

#[test]
fn entries_are_noted_by_their_keys() {
    let chars = |s: &str| s.chars().collect::<Vec<char>>();
    let mut m = GgufMeta::default();
    note_entry(&mut m, &chars("x.attention.head_count_kv"), Read::Scalar(Some(8)));
    assert_eq!((m.head_count, m.head_count_kv), (None, Some(8)));
    note_entry(&mut m, &chars("general.name"), Read::Text("N".into()));
    note_entry(&mut m, &chars("general.architecture"), Read::Array);
    assert_eq!((m.name.as_deref(), m.architecture.as_deref()), (Some("N"), None));
    note_entry(&mut m, &chars("tokenizer.chat_template"), Read::Text("t".into()));
    assert_eq!(m.block_count, None);
}

#[test]
fn bytes_behind_the_last_tracked_entry_do_not_matter() {
    let mut b = llama_header();
    let read = parse_gguf_header(&b).unwrap();
    b.extend([0xff; 64]);
    let more = parse_gguf_header(&b).unwrap();
    assert_eq!(format!("{read:?}"), format!("{more:?}"));
}

#[test]
fn cut_header_says_what_its_whole_entries_say() {
    // Each entry, and where it ends.
    let entries: [fn(GgufBuilder) -> GgufBuilder; 4] = [
        |b| b.string("general.name", "tiny"),
        |b| b.u32("llama.context_length", 4096),
        |b| b.string("general.architecture", "llama"),
        |b| b.u32_array("llama.dummy.array", &[1, 2, 3]),
    ];
    let first = |n: usize| {
        entries[..n]
            .iter()
            .fold(GgufBuilder::new(), |b, add| add(b))
            .build()
    };
    let whole = first(entries.len());
    for cut in 0..=whole.len() {
        let got = parse_gguf_header(&whole[..cut]);
        let count = (0..=entries.len())
            .rev()
            .find(|n| first(*n).len() <= cut)
            .unwrap_or(0);
        // The architecture is the third entry.
        if cut < whole.len() && count < 3 {
            let e = got.expect_err("cut before the architecture");
            assert_eq!(e.message(), "malformed GGUF header: truncated header");
        } else {
            let want = parse_gguf_header(&first(count)).unwrap();
            assert_eq!(format!("{:?}", got.unwrap()), format!("{want:?}"), "{cut}");
        }
    }
}
