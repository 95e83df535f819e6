//! The catalog in a database, and syncs that fill it.

use paddock::catalog::curated::{curated_ollama_models, CuratedEntry};
use paddock::catalog::db::{
    last_sync_text, model_of_rows, parse_compat, parse_last_sync, parse_source, prune_sql,
    source_str, upsert_steps, ModelRow, Step, VariantRow,
};
use paddock::catalog::http::MockHttp;
use paddock::catalog::sync::{sync, Origin, SyncTask};
use paddock::catalog::{CatalogModel, CatalogVariant, RuntimeKind, Source, SyncOptions, SyncReport};
use paddock::error::PaddockError;
use rusqlite::Connection;

/// A hundredth of a bit per weight.
const CENT: u64 = 100_000_000_000_000;

const NOW: i64 = 1_780_000_000;

/// The catalog in memory.
struct Db {
    conn: Connection,
}

impl Db {
    fn open() -> Self {
        let conn = Connection::open_in_memory().unwrap();
        conn.execute_batch(
            "CREATE TABLE meta (key TEXT PRIMARY KEY, value TEXT NOT NULL);
             CREATE TABLE models (
                id INTEGER PRIMARY KEY, name TEXT NOT NULL, family TEXT, source TEXT NOT NULL,
                repo TEXT, params_total INTEGER NOT NULL, params_active INTEGER NOT NULL,
                architecture TEXT, context_max INTEGER NOT NULL, released_at INTEGER,
                released_approx INTEGER NOT NULL DEFAULT 0, UNIQUE(source, name));
             CREATE TABLE variants (
                id INTEGER PRIMARY KEY, model_id INTEGER NOT NULL, quant TEXT NOT NULL,
                bpw INTEGER NOT NULL, file_size_bytes INTEGER, layers INTEGER NOT NULL,
                kv_heads INTEGER NOT NULL, head_dim INTEGER NOT NULL,
                embedding_dim INTEGER NOT NULL, runtime_compat TEXT NOT NULL, source_tag TEXT,
                UNIQUE(model_id, quant));",
        )
        .unwrap();
        Self { conn }
    }

    fn upsert_model(&self, m: &CatalogModel) -> Result<i64, PaddockError> {
        let mut id: i64 = 0;
        for step in upsert_steps(m) {
            match step {
                Step::PutModel(row) => {
                    self.conn
                        .execute(
                            "INSERT INTO models (name, family, source, repo, params_total,
                               params_active, architecture, context_max, released_at,
                               released_approx)
                             VALUES (?1, ?2, ?3, ?4, ?5, ?6, ?7, ?8, ?9, ?10)
                             ON CONFLICT(source, name) DO UPDATE SET
                               family=excluded.family, repo=excluded.repo,
                               params_total=excluded.params_total,
                               params_active=excluded.params_active,
                               architecture=excluded.architecture,
                               context_max=excluded.context_max,
                               released_at=excluded.released_at,
                               released_approx=excluded.released_approx",
                            (
                                &row.name, &row.family, &row.source, &row.repo, row.params_total,
                                row.params_active, &row.architecture, row.context_max,
                                row.released_at, row.released_approx,
                            ),
                        )
                        .map_err(failed)?;
                    id = self
                        .conn
                        .query_row(
                            "SELECT id FROM models WHERE source = ?1 AND name = ?2",
                            (&row.source, &row.name),
                            |r| r.get(0),
                        )
                        .map_err(failed)?;
                }
                Step::PutVariant(v) => {
                    self.conn
                        .execute(
                            "INSERT OR REPLACE INTO variants (model_id, quant, bpw,
                               file_size_bytes, layers, kv_heads, head_dim, embedding_dim,
                               runtime_compat, source_tag)
                             VALUES (?1, ?2, ?3, ?4, ?5, ?6, ?7, ?8, ?9, ?10)",
                            (
                                id, &v.quant, v.bpw as i64, v.file_size_bytes, v.layers,
                                v.kv_heads, v.head_dim, v.embedding_dim, &v.runtime_compat,
                                &v.source_tag,
                            ),
                        )
                        .map_err(failed)?;
                }
                Step::Prune(quants) => {
                    let mut args: Vec<&dyn rusqlite::ToSql> = vec![&id];
                    for q in &quants {
                        args.push(q);
                    }
                    self.conn
                        .execute(&prune_sql(quants.len()), args.as_slice())
                        .map_err(failed)?;
                }
            }
        }
        Ok(id)
    }

    fn model_exists(&self, source: Source, name: &str) -> Result<bool, PaddockError> {
        self.conn
            .query_row(
                "SELECT COUNT(*) FROM models WHERE source = ?1 AND name = ?2",
                (source_str(source), name),
                |r| r.get::<_, i64>(0),
            )
            .map(|n| n > 0)
            .map_err(failed)
    }

    fn list_models(&self) -> Result<Vec<CatalogModel>, PaddockError> {
        let mut models = self
            .conn
            .prepare(
                "SELECT id, name, family, source, repo, params_total, params_active,
                   architecture, context_max, released_at, released_approx
                 FROM models ORDER BY params_total DESC",
            )
            .map_err(failed)?;
        let mut variants = self
            .conn
            .prepare(
                "SELECT quant, bpw, file_size_bytes, layers, kv_heads, head_dim, embedding_dim,
                   runtime_compat, source_tag
                 FROM variants WHERE model_id = ?1",
            )
            .map_err(failed)?;
        let rows: Vec<ModelRow> = models
            .query_map([], |r| {
                Ok(ModelRow {
                    id: r.get(0)?,
                    name: r.get(1)?,
                    family: r.get(2)?,
                    source: r.get(3)?,
                    repo: r.get(4)?,
                    params_total: r.get(5)?,
                    params_active: r.get(6)?,
                    architecture: r.get(7)?,
                    context_max: r.get(8)?,
                    released_at: r.get(9)?,
                    released_approx: r.get(10)?,
                })
            })
            .map_err(failed)?
            .map(|r| r.unwrap())
            .collect();
        Ok(rows
            .into_iter()
            .map(|row| {
                let own: Vec<VariantRow> = variants
                    .query_map([row.id], |r| {
                        Ok(VariantRow {
                            quant: r.get(0)?,
                            bpw: r.get::<_, i64>(1)? as u64,
                            file_size_bytes: r.get(2)?,
                            layers: r.get(3)?,
                            kv_heads: r.get(4)?,
                            head_dim: r.get(5)?,
                            embedding_dim: r.get(6)?,
                            runtime_compat: r.get(7)?,
                            source_tag: r.get(8)?,
                        })
                    })
                    .unwrap()
                    .map(|r| r.unwrap())
                    .collect();
                model_of_rows(row, &own)
            })
            .collect())
    }

    fn last_sync(&self) -> Result<Option<i64>, PaddockError> {
        match self.conn.query_row("SELECT value FROM meta WHERE key = 'last_sync'", [], |r| {
            r.get::<_, String>(0)
        }) {
            Ok(v) => Ok(parse_last_sync(&v)),
            Err(rusqlite::Error::QueryReturnedNoRows) => Ok(None),
            Err(e) => Err(failed(e)),
        }
    }

    fn set_last_sync(&self, t: i64) -> Result<(), PaddockError> {
        self.conn
            .execute(
                "INSERT OR REPLACE INTO meta (key, value) VALUES ('last_sync', ?1)",
                [last_sync_text(t)],
            )
            .map(|_| ())
            .map_err(failed)
    }
}

fn failed(e: rusqlite::Error) -> PaddockError {
    PaddockError::Db(e.to_string())
}

fn sample_model() -> CatalogModel {
    CatalogModel {
        id: 0,
        name: "llama3.1:8b".into(),
        family: Some("llama".into()),
        source: Source::Ollama,
        repo: None,
        params_total: 8_030_000_000,
        params_active: 8_030_000_000,
        architecture: Some("llama".into()),
        context_max: 131_072,
        released_at: None,
        released_approx: false,
        variants: vec![CatalogVariant {
            quant: "Q4_K_M".into(),
            bpw: 483 * CENT,
            file_size_bytes: Some(4_920_000_000),
            layers: 32,
            kv_heads: 8,
            head_dim: 128,
            embedding_dim: 4096,
            runtime_compat: vec![RuntimeKind::Ollama],
            source_tag: None,
        }],
    }
}

#[test]
fn db_roundtrip_upsert_and_list() {
    let db = Db::open();
    db.upsert_model(&sample_model()).unwrap();
    db.upsert_model(&sample_model()).unwrap(); // idempotent
    let models = db.list_models().unwrap();
    assert_eq!(models.len(), 1);
    assert_eq!(models[0].variants.len(), 1);
    assert_eq!(models[0].variants[0].quant, "Q4_K_M");
}

#[test]
fn db_stale_variants_pruned_on_upsert() {
    let db = Db::open();
    let mut m = sample_model();
    m.variants.push(CatalogVariant {
        quant: "Q8_0".into(),
        bpw: 850 * CENT,
        file_size_bytes: Some(8_540_000_000),
        layers: 32,
        kv_heads: 8,
        head_dim: 128,
        embedding_dim: 4096,
        runtime_compat: vec![RuntimeKind::Ollama],
        source_tag: None,
    });
    db.upsert_model(&m).unwrap();
    let models = db.list_models().unwrap();
    assert_eq!(models[0].variants.len(), 2);

    // Re-upsert with only Q4_K_M: Q8_0 must be pruned.
    db.upsert_model(&sample_model()).unwrap();
    let models = db.list_models().unwrap();
    assert_eq!(models.len(), 1);
    assert_eq!(models[0].variants.len(), 1);
    assert_eq!(models[0].variants[0].quant, "Q4_K_M");
}

#[test]
fn source_tag_roundtrips() {
    let db = Db::open();
    let mut m = sample_model();
    m.variants[0].source_tag = Some("8b-instruct-q4_K_M".into());
    db.upsert_model(&m).unwrap();
    let models = db.list_models().unwrap();
    assert_eq!(
        models[0].variants[0].source_tag.as_deref(),
        Some("8b-instruct-q4_K_M")
    );

    // Upsert back to None must clear the stored tag.
    db.upsert_model(&sample_model()).unwrap();
    let models = db.list_models().unwrap();
    assert_eq!(models[0].variants[0].source_tag, None);
}

#[test]
fn db_meta_last_sync() {
    let db = Db::open();
    assert!(db.last_sync().unwrap().is_none());
    db.set_last_sync(1_770_000_000).unwrap();
    assert_eq!(db.last_sync().unwrap(), Some(1_770_000_000));
}

#[test]
fn release_dates_roundtrip() {
    let db = Db::open();
    let mut m = sample_model();
    m.released_at = Some(1_743_465_600);
    m.released_approx = true;
    db.upsert_model(&m).unwrap();
    let got = &db.list_models().unwrap()[0];
    assert_eq!(got.released_at, Some(1_743_465_600));
    assert!(got.released_approx);
    m.released_at = None;
    m.released_approx = false;
    db.upsert_model(&m).unwrap();
    let got = &db.list_models().unwrap()[0];
    assert_eq!(got.released_at, None);
    assert!(!got.released_approx);
}

#[test]
fn counts_beyond_the_signed_range_roundtrip() {
    let db = Db::open();
    let mut m = sample_model();
    m.params_total = u64::MAX;
    m.params_active = 1 << 63;
    m.variants[0].file_size_bytes = Some(u64::MAX - 1);
    m.variants[0].runtime_compat =
        vec![RuntimeKind::MlxLm, RuntimeKind::LlamaCpp, RuntimeKind::Ollama];
    db.upsert_model(&m).unwrap();
    let got = &db.list_models().unwrap()[0];
    assert_eq!(got.params_total, u64::MAX);
    assert_eq!(got.params_active, 1 << 63);
    assert_eq!(got.variants[0].file_size_bytes, Some(u64::MAX - 1));
    assert_eq!(got.variants[0].runtime_compat, m.variants[0].runtime_compat);
}

#[test]
fn model_without_variants_prunes_all() {
    let db = Db::open();
    db.upsert_model(&sample_model()).unwrap();
    let mut m = sample_model();
    m.variants.clear();
    db.upsert_model(&m).unwrap();
    assert!(db.list_models().unwrap()[0].variants.is_empty());
}

#[test]
fn prune_statement_lists_a_place_per_variant() {
    assert_eq!(prune_sql(0), "DELETE FROM variants WHERE model_id = ?1");
    assert_eq!(
        prune_sql(3),
        "DELETE FROM variants WHERE model_id = ?1 AND quant NOT IN (?2, ?3, ?4)"
    );
}

#[test]
fn columns_fall_back() {
    assert_eq!(parse_source("huggingface"), Source::HuggingFace);
    assert_eq!(parse_source("anything"), Source::Ollama);
    assert_eq!(
        parse_compat("[\"ollama\", \"mlx_lm\"]"),
        vec![RuntimeKind::Ollama, RuntimeKind::MlxLm]
    );
    assert!(parse_compat("[\"ollama\", \"other\"]").is_empty());
    assert!(parse_compat("not json").is_empty());
    assert_eq!(parse_last_sync("-5"), Some(-5));
    for t in [i64::MIN, -1, 0, 7, 1_780_000_000, i64::MAX] {
        assert_eq!(last_sync_text(t), t.to_string());
        assert_eq!(parse_last_sync(&last_sync_text(t)), Some(t));
    }
    assert_eq!(parse_last_sync("soon"), None);
}

// A sync against the database.

fn curated() -> Vec<CatalogModel> {
    let entry = |name: &str, layers: u32, embedding_dim: u32| CuratedEntry {
        name: name.to_string(),
        family: "llama".to_string(),
        params_total: 8_030_000_000,
        params_active: None,
        context_max: 131_072,
        layers,
        kv_heads: 8,
        head_dim: 128,
        embedding_dim,
        quant: "Q4_K_M".to_string(),
        file_size_bytes: 4_920_000_000,
    };
    curated_ollama_models(&vec![
        entry("llama3.1:8b", 32, 4096),
        entry("llama3.1:70b", 80, 8192),
        entry("qwen3:8b", 36, 4096),
        entry("qwen3:14b", 40, 5120),
        entry("gemma3:4b", 34, 2560),
    ])
}

fn sync_into(http: &MockHttp, db: &Db, opts: &SyncOptions) -> SyncReport {
    let models = curated();
    let held = models.iter().map(|m| db.model_exists(m.source, &m.name)).collect();
    let mut report = SyncReport::default();
    for task in sync(http, models, &held, opts, NOW) {
        let written = match &task {
            SyncTask::WriteCurated(m) | SyncTask::Write(_, m) => db.upsert_model(m).map(|_| ()),
            SyncTask::Note(_) | SyncTask::Keep => Ok(()),
        };
        report.done(&task, written.as_ref().err());
    }
    db.set_last_sync(NOW).unwrap();
    report
}

fn page(http: &mut MockHttp, url: &str, html: &str) {
    http.texts.push((url.to_string(), html.to_string()));
}

fn find<'a>(models: &'a [CatalogModel], name: &str) -> &'a CatalogModel {
    models.iter().find(|m| m.name == name).unwrap()
}

fn offline() -> MockHttp {
    MockHttp::default()
}

#[test]
fn offline_sync_still_persists_curated() {
    let db = Db::open();
    let report = sync_into(&offline(), &db, &SyncOptions::default());
    assert_eq!(report.curated, 5);
    assert_eq!(report.ollama_tags, 0);
    assert_eq!(report.discovered, 0);
    for what in ["ollama tags llama3.1: ", "ollama discovery index: ", "huggingface: ", "mlx: "] {
        assert!(report.errors.iter().any(|e| e.starts_with(what)), "{:?}", report.errors);
    }
    assert_eq!(db.last_sync().unwrap(), Some(NOW));
    let models = db.list_models().unwrap();
    assert_eq!(models.len(), 5);
    assert_eq!(find(&models, "llama3.1:8b").variants.len(), 1);
    assert_eq!(find(&models, "llama3.1:8b").variants[0].source_tag, None);
    assert_eq!(
        report.summary(),
        "synced: 5 curated (0 ollama tags), 0 discovered, 0 huggingface, 0 mlx"
    );
}

#[test]
fn disabled_registry_reads_no_tags() {
    let db = Db::open();
    let opts = SyncOptions {
        ollama_registry: false,
        discover_limit: None,
        ..SyncOptions::default()
    };
    let report = sync_into(&offline(), &db, &opts);
    assert_eq!(report.ollama_tags, 0);
    assert_eq!(report.errors.len(), 2, "{:?}", report.errors);
}

#[test]
fn registry_tags_enrich_curated_models() {
    let db = Db::open();
    let mut http = MockHttp::default();
    page(
        &mut http,
        "https://ollama.com/library/llama3.1/tags",
        r#"
        <a href="/library/llama3.1:8b">8b</a>
        <a href="/library/llama3.1:8b-instruct-q4_K_M">x</a>
        <a href="/library/llama3.1:8b-instruct-q8_0">x</a>
        <a href="/library/llama3.1:70b-instruct-q4_K_M">x</a>
        <a href="/library/llama3.1:70b-instruct-q6_K">x</a>
    "#,
    );
    page(
        &mut http,
        "https://ollama.com/library/qwen3/tags",
        r#"
        <a href="/library/qwen3:8b-q4_K_M">x</a>
        <a href="/library/qwen3:8b-fp16">x</a>
    "#,
    );
    let report = sync_into(&http, &db, &SyncOptions::default());
    assert_eq!(report.ollama_tags, 6, "errors: {:?}", report.errors);

    let models = db.list_models().unwrap();
    let m8 = find(&models, "llama3.1:8b");
    assert_eq!(m8.variants.len(), 2);
    let q4 = m8.variants.iter().find(|v| v.quant == "Q4_K_M").unwrap();
    assert_eq!(q4.source_tag.as_deref(), Some("8b"));
    let q8 = m8.variants.iter().find(|v| v.quant == "Q8_0").unwrap();
    assert_eq!(q8.source_tag.as_deref(), Some("8b-instruct-q8_0"));
    assert_eq!(q8.layers, 32);
    assert_eq!(q8.embedding_dim, 4096);
    let m70 = find(&models, "llama3.1:70b");
    assert_eq!(m70.variants.len(), 2);
    assert!(m70.variants.iter().all(|v| v.source_tag.is_some()));
    let q3 = find(&models, "qwen3:8b");
    assert!(q3.variants.iter().any(|v| v.source_tag.as_deref() == Some("8b-fp16")));
    let q14 = find(&models, "qwen3:14b");
    assert_eq!(q14.variants.len(), 1);
    assert_eq!(q14.variants[0].source_tag, None);
    assert!(report.errors.iter().any(|e| e.contains("ollama tags gemma3")));
}

#[test]
fn enriched_variants_survive_a_sync_without_tags() {
    let db = Db::open();
    let mut http = MockHttp::default();
    page(
        &mut http,
        "https://ollama.com/library/llama3.1/tags",
        r#"
        <a href="/library/llama3.1:8b-instruct-q4_K_M">x</a>
        <a href="/library/llama3.1:8b-instruct-q8_0">x</a>
    "#,
    );
    sync_into(&http, &db, &SyncOptions::default());
    assert_eq!(find(&db.list_models().unwrap(), "llama3.1:8b").variants.len(), 2);

    let disabled = SyncOptions {
        ollama_registry: false,
        ..SyncOptions::default()
    };
    for opts in [SyncOptions::default(), disabled] {
        let report = sync_into(&offline(), &db, &opts);
        assert_eq!(report.curated, 5);
        let models = db.list_models().unwrap();
        let m = find(&models, "llama3.1:8b");
        assert_eq!(m.variants.len(), 2);
        assert!(m
            .variants
            .iter()
            .any(|v| v.source_tag.as_deref() == Some("8b-instruct-q8_0")));
    }
}

/// Minimal GGUF v3 header builder (spec: github.com/ggml-org/ggml/docs/gguf.md).
struct GgufBuilder {
    kvs: Vec<u8>,
    count: u64,
}

impl GgufBuilder {
    fn new() -> Self {
        Self {
            kvs: Vec::new(),
            count: 0,
        }
    }

    fn push_key(&mut self, key: &str) {
        self.kvs.extend((key.len() as u64).to_le_bytes());
        self.kvs.extend(key.as_bytes());
    }

    fn string(mut self, key: &str, val: &str) -> Self {
        self.push_key(key);
        self.kvs.extend(8u32.to_le_bytes()); // type 8 = string
        self.kvs.extend((val.len() as u64).to_le_bytes());
        self.kvs.extend(val.as_bytes());
        self.count += 1;
        self
    }

    fn u32(mut self, key: &str, val: u32) -> Self {
        self.push_key(key);
        self.kvs.extend(4u32.to_le_bytes()); // type 4 = u32
        self.kvs.extend(val.to_le_bytes());
        self.count += 1;
        self
    }

    fn u64(mut self, key: &str, val: u64) -> Self {
        self.push_key(key);
        self.kvs.extend(10u32.to_le_bytes()); // type 10 = u64
        self.kvs.extend(val.to_le_bytes());
        self.count += 1;
        self
    }

    fn f32(mut self, key: &str, val: f32) -> Self {
        self.push_key(key);
        self.kvs.extend(6u32.to_le_bytes()); // type 6 = f32
        self.kvs.extend(val.to_le_bytes());
        self.count += 1;
        self
    }

    fn i32(mut self, key: &str, val: i32) -> Self {
        self.push_key(key);
        self.kvs.extend(5u32.to_le_bytes()); // type 5 = i32
        self.kvs.extend(val.to_le_bytes());
        self.count += 1;
        self
    }

    fn u32_array(mut self, key: &str, vals: &[u32]) -> Self {
        self.push_key(key);
        self.kvs.extend(9u32.to_le_bytes()); // type 9 = array
        self.kvs.extend(4u32.to_le_bytes()); // element type u32
        self.kvs.extend((vals.len() as u64).to_le_bytes());
        for v in vals {
            self.kvs.extend(v.to_le_bytes());
        }
        self.count += 1;
        self
    }

    fn build(self) -> Vec<u8> {
        let mut out = Vec::new();
        out.extend(b"GGUF");
        out.extend(3u32.to_le_bytes()); // version
        out.extend(0u64.to_le_bytes()); // tensor_count
        out.extend(self.count.to_le_bytes()); // kv count
        out.extend(self.kvs);
        out
    }
}

fn add_lfm25_fixtures(http: &mut MockHttp) {
    page(
        http,
        "https://ollama.com/library/lfm2.5/tags",
        r#"
            <a href="/library/lfm2.5:1.2b">1.2b</a>
            <a href="/library/lfm2.5:1.2b-q8_0">x</a>
        "#,
    );
    http.jsons.push((
        "https://registry.ollama.ai/v2/library/lfm2.5/manifests/1.2b".to_string(),
        r#"{"schemaVersion": 2, "layers": [{
            "mediaType": "application/vnd.ollama.image.model",
            "digest": "sha256:blob",
            "size": 736000000}]}"#
            .to_string(),
    ));
    http.ranges.push((
        "https://registry.ollama.ai/v2/library/lfm2.5/blobs/sha256:blob".to_string(),
        GgufBuilder::new()
            .string("general.architecture", "lfm2moe")
            .u64("general.parameter_count", 1_170_000_000)
            .u32("lfm2moe.block_count", 16)
            .u32("lfm2moe.attention.head_count", 16)
            .u32("lfm2moe.attention.head_count_kv", 4)
            .u32("lfm2moe.embedding_length", 2048)
            .u32("lfm2moe.context_length", 32768)
            .build(),
    ));
}

#[test]
fn sync_discovers_uncurated_library_models() {
    let db = Db::open();
    let mut http = MockHttp::default();
    page(
        &mut http,
        "https://ollama.com/library",
        r#"
            <a href="/library/llama3.1"><h2>llama3.1</h2></a>
            <a href="/library/lfm2.5"><h2>lfm2.5</h2></a>
        "#,
    );
    add_lfm25_fixtures(&mut http);
    let report = sync_into(&http, &db, &SyncOptions::default());
    assert_eq!(report.discovered, 1, "errors: {:?}", report.errors);
    assert!(
        !report.errors.iter().any(|e| e.contains("discover llama3.1")),
        "curated bases must be excluded from discovery: {:?}",
        report.errors
    );
    let models = db.list_models().unwrap();
    let m = find(&models, "lfm2.5:1.2b");
    assert_eq!(m.source, Source::Ollama);
    assert_eq!(m.architecture.as_deref(), Some("lfm2moe"));
    assert_eq!(m.params_total, 1_170_000_000);
    assert_eq!(m.variants.len(), 2);
    assert!(m.variants.iter().all(|v| v.source_tag.is_some()));
    assert_eq!(m.released_at, None);
    assert!(!m.released_approx);
}

#[test]
fn sync_discover_limit_caps_attempts() {
    let db = Db::open();
    let mut http = MockHttp::default();
    page(
        &mut http,
        "https://ollama.com/library",
        r#"
            <a href="/library/lfm2.5"><h2>lfm2.5</h2></a>
            <a href="/library/somemodel"><h2>somemodel</h2></a>
        "#,
    );
    add_lfm25_fixtures(&mut http);
    let opts = SyncOptions {
        discover_limit: Some(1),
        ..SyncOptions::default()
    };
    let report = sync_into(&http, &db, &opts);
    assert_eq!(report.discovered, 1, "errors: {:?}", report.errors);
    assert!(
        !report.errors.iter().any(|e| e.contains("discover somemodel")),
        "limit must cap discovery attempts: {:?}",
        report.errors
    );
}

#[test]
fn failed_lookups_and_writes_are_reported() {
    let held = curated()
        .iter()
        .map(|_| Err(PaddockError::Db("locked".to_string())))
        .collect();
    let opts = SyncOptions {
        ollama_registry: false,
        discover_limit: None,
        ..SyncOptions::default()
    };
    let tasks = sync(&offline(), curated(), &held, &opts, NOW);
    let mut report = SyncReport::default();
    let broken = PaddockError::Db("locked".to_string());
    for t in &tasks {
        report.done(t, Some(&broken));
    }
    let locked = "catalog database error: locked. \
                  Try deleting the catalog and re-running `paddock sync`.";
    assert_eq!(report.errors[0], format!("curated lookup llama3.1:8b: {locked}"));
    assert_eq!(report.errors[5], format!("curated upsert llama3.1:8b: {locked}"));
    assert_eq!(report.curated, 0);
    for (origin, text) in [
        (Origin::Discovered, "discover upsert"),
        (Origin::HuggingFace, "huggingface upsert"),
        (Origin::Mlx, "mlx upsert"),
    ] {
        let mut r = SyncReport::default();
        let t = SyncTask::Write(origin, sample_model());
        r.done(&t, Some(&broken));
        assert_eq!(r.errors, vec![format!("{text} llama3.1:8b: {locked}")]);
        r.done(&t, None);
        assert_eq!(r.discovered + r.huggingface + r.mlx, 1);
    }
}

#[test]
fn held_models_are_left_alone_in_every_task() {
    let db = Db::open();
    sync_into(&offline(), &db, &SyncOptions::default());
    // The index lists a curated model, and its page cannot be read.
    let mut http = MockHttp::default();
    page(
        &mut http,
        "https://ollama.com/library",
        r#"<a href="/library/llama3.1"></a><a href="/library/llama3.1:8b"></a>"#,
    );
    for ollama_registry in [true, false] {
        let opts = SyncOptions {
            ollama_registry,
            ..SyncOptions::default()
        };
        let models = curated();
        let held = models.iter().map(|m| db.model_exists(m.source, &m.name)).collect();
        let tasks = sync(&http, models, &held, &opts, NOW);
        assert_eq!(tasks.iter().filter(|t| matches!(t, SyncTask::Keep)).count(), 5);
        assert!(!tasks
            .iter()
            .any(|t| matches!(t, SyncTask::WriteCurated(_) | SyncTask::Write(_, _))));
        let mut report = SyncReport::default();
        for t in &tasks {
            report.done(t, None);
        }
        assert_eq!(report.curated, 5);
        for base in ["llama3.1", "qwen3", "gemma3"] {
            let line = format!("ollama tags {base}: ");
            assert_eq!(
                report.errors.iter().any(|e| e.starts_with(&line)),
                ollama_registry,
                "{:?}",
                report.errors
            );
        }
    }
}

#[test]
fn second_of_two_upserts_wins() {
    let db = Db::open();
    let variant = |quant: &str, source_tag: Option<&str>| CatalogVariant {
        quant: quant.into(),
        bpw: 483 * CENT,
        file_size_bytes: None,
        layers: 32,
        kv_heads: 8,
        head_dim: 128,
        embedding_dim: 4096,
        runtime_compat: vec![RuntimeKind::Ollama, RuntimeKind::LlamaCpp],
        source_tag: source_tag.map(String::from),
    };
    let other = |name: &str, source: Source, params_total: u64| CatalogModel {
        name: name.into(),
        source,
        params_total,
        ..sample_model()
    };
    let mut a = sample_model();
    a.released_at = Some(7);
    a.variants = vec![variant("Q4_K_M", Some("8b")), variant("Q8_0", None)];
    let mut b = sample_model();
    b.family = None;
    b.released_at = None;
    b.variants = vec![variant("Q6_K", None), variant("Q4_K_M", None)];
    let first = db.upsert_model(&a).unwrap();
    db.upsert_model(&other("small", a.source, 1)).unwrap();
    db.upsert_model(&other(&a.name, Source::Mlx, u64::MAX >> 1)).unwrap();
    assert_eq!(db.upsert_model(&b).unwrap(), first);

    let models = db.list_models().unwrap();
    let sizes: Vec<u64> = models.iter().map(|m| m.params_total).collect();
    assert_eq!(sizes, [u64::MAX >> 1, b.params_total, 1]);
    let own: Vec<&CatalogModel> = models
        .iter()
        .filter(|m| m.source == b.source && m.name == b.name)
        .collect();
    assert_eq!(own.len(), 1);
    assert_eq!((own[0].id, own[0].released_at, &own[0].family), (first, None, &None));
    let mut read: Vec<String> = own[0].variants.iter().map(|v| format!("{v:?}")).collect();
    let mut written: Vec<String> = b.variants.iter().map(|v| format!("{v:?}")).collect();
    read.sort();
    written.sort();
    assert_eq!(read, written);
}

#[test]
fn steps_of_an_upsert_come_in_order() {
    let mut m = sample_model();
    m.variants.clear();
    let steps = upsert_steps(&m);
    assert_eq!(steps.len(), 2);
    assert!(matches!(&steps[0], Step::PutModel(row) if row.source == "ollama" && row.name == m.name));
    assert!(matches!(&steps[1], Step::Prune(quants) if quants.is_empty()));
}
