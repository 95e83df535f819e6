//! The curated list of popular Ollama models.

use vstd::prelude::*;

use crate::catalog::{bpw_of, quant_bpw, CatalogModel, CatalogVariant, Model, RuntimeKind, Source,
    Variant};

verus! {

/// One entry of the list.
#[derive(Debug)]
pub struct CuratedEntry {
    pub name: String,
    pub family: String,
    pub params_total: u64,
    /// Left out for dense models.
    pub params_active: Option<u64>,
    pub context_max: u32,
    pub layers: u32,
    pub kv_heads: u32,
    pub head_dim: u32,
    pub embedding_dim: u32,
    pub quant: String,
    pub file_size_bytes: u64,
}

/// The catalog model of an entry: its one variant runs with Ollama.
pub open spec fn curated(e: CuratedEntry) -> Model {
    Model {
        id: 0,
        name: e.name@,
        family: Some(e.family@),
        source: Source::Ollama,
        repo: None,
        params_total: e.params_total,
        params_active: match e.params_active {
            Some(n) => n,
            None => e.params_total,
        },
        architecture: Some(e.family@),
        context_max: e.context_max,
        released_at: None,
        released_approx: false,
        variants: seq![
            Variant {
                quant: e.quant@,
                bpw: match bpw_of(e.quant@) {
                    Some(b) => b,
                    None => 48_300_000_000_000_000,
                },
                file_size_bytes: Some(e.file_size_bytes),
                layers: e.layers,
                kv_heads: e.kv_heads,
                head_dim: e.head_dim,
                embedding_dim: e.embedding_dim,
                runtime_compat: seq![RuntimeKind::Ollama],
                source_tag: None,
            },
        ],
    }
}

/// An entry's model is dense where the entry names no active parameters, has
/// the bits per weight of its quantization or, for one that is not known, those
/// of `Q4_K_M`, and keeps all other figures of the entry.
pub proof fn entry_figures_are_kept(e: CuratedEntry)
    ensures
        ({
            let m = curated(e);
            let v = m.variants[0];
            &&& m.name == e.name@ && m.params_total == e.params_total
            &&& e.params_active is None ==> m.params_active == m.params_total
            &&& e.params_active matches Some(n) ==> m.params_active == n
            &&& m.context_max == e.context_max
            &&& m.variants.len() == 1
            &&& v.quant == e.quant@
            &&& bpw_of(e.quant@) is Some ==> Some(v.bpw) == bpw_of(e.quant@)
            &&& bpw_of(e.quant@) is None ==> Some(v.bpw) == bpw_of("Q4_K_M"@)
            &&& v.file_size_bytes == Some(e.file_size_bytes)
            &&& v.layers == e.layers && v.kv_heads == e.kv_heads && v.head_dim == e.head_dim
                && v.embedding_dim == e.embedding_dim
            &&& v.runtime_compat.contains(home_runtime(m.source))
        }),
{
    crate::catalog::lemma_plain_names();
    let q = "Q4_K_M"@;
    assert(q.take(3)[0] == 'Q');
    assert(bpw_of(q) == crate::catalog::plain_bpw(q));
    assert(curated(e).variants[0].runtime_compat[0] == RuntimeKind::Ollama);
}

/// The runtime of the place that a model comes from.
pub open spec fn home_runtime(s: Source) -> RuntimeKind {
    match s {
        Source::Ollama => RuntimeKind::Ollama,
        Source::Mlx => RuntimeKind::MlxLm,
        Source::HuggingFace => RuntimeKind::LlamaCpp,
    }
}

/// The catalog model of an entry.
pub fn curated_model(e: &CuratedEntry) -> (r: CatalogModel)
    ensures
        r@ == curated(*e),
{
    let v = CatalogVariant {
        bpw: match quant_bpw(e.quant.as_str()) {
            Some(b) => b,
            None => 48_300_000_000_000_000,
        },
        quant: e.quant.clone(),
        file_size_bytes: Some(e.file_size_bytes),
        layers: e.layers,
        kv_heads: e.kv_heads,
        head_dim: e.head_dim,
        embedding_dim: e.embedding_dim,
        runtime_compat: vec![RuntimeKind::Ollama],
        source_tag: None,
    };
    assert(v@.runtime_compat =~= seq![RuntimeKind::Ollama]);
    let ghost w = v@;
    let variants = vec![v];
    assert(variants.deep_view() =~= seq![w]);
    CatalogModel {
        id: 0,
        name: e.name.clone(),
        family: Some(e.family.clone()),
        source: Source::Ollama,
        repo: None,
        params_total: e.params_total,
        params_active: match e.params_active {
            Some(n) => n,
            None => e.params_total,
        },
        architecture: Some(e.family.clone()),
        context_max: e.context_max,
        released_at: None,
        released_approx: false,
        variants,
    }
}

/// The catalog models of the list, in order.
pub fn curated_ollama_models(entries: &Vec<CuratedEntry>) -> (r: Vec<CatalogModel>)
    ensures
        r.deep_view() == entries@.map_values(|e: CuratedEntry| curated(e)),
{
    let mut out: Vec<CatalogModel> = Vec::new();
    for i in 0..entries.len()
        invariant
            out@.len() == i,
            forall|j: int| 0 <= j < i ==> (#[trigger] out@[j])@ == curated(entries@[j]),
    {
        out.push(curated_model(&entries[i]));
    }
    assert(out.deep_view() =~= entries@.map_values(|e: CuratedEntry| curated(e)));
    out
}

} // verus!
