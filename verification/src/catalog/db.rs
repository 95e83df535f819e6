//! How catalog values stand in the columns of the database.

use vstd::prelude::*;

use crate::catalog::{
    clone_text, CatalogModel, CatalogVariant, Model, RuntimeKind, Source, Variant,
};
use crate::json::{
    array, as_array, as_str, parse, parsed, render, text, text_in, tree, trees, Tree,
};
use crate::numeral::{
    digits, parse_signed, push_decimal, read_signed, signed_decimal, signed_digits,
    signed_numeral_reads_back,
};
use crate::paths::{join_path, set_or_below};
use crate::text::{chars_of, same};

verus! {

/// The catalog's database: the path that was set, else `catalog.db` in the
/// application's directory.
pub fn default_db_path(set: Option<String>, support_dir: &str) -> (r: String)
    ensures
        r@ == set_or_below(set.deep_view(), support_dir@, "catalog.db"@),
{
    match set {
        Some(p) => p,
        None => join_path(support_dir, "catalog.db"),
    }
}

pub open spec fn source_text(s: Source) -> Seq<char> {
    match s {
        Source::HuggingFace => "huggingface"@,
        Source::Ollama => "ollama"@,
        Source::Mlx => "mlx"@,
    }
}

/// What a source is by its text; unknown ones count as Ollama.
pub open spec fn source_of(s: Seq<char>) -> Source {
    if s == "huggingface"@ {
        Source::HuggingFace
    } else if s == "mlx"@ {
        Source::Mlx
    } else {
        Source::Ollama
    }
}

pub fn source_str(s: Source) -> (r: &'static str)
    ensures
        r@ == source_text(s),
{
    match s {
        Source::HuggingFace => "huggingface",
        Source::Ollama => "ollama",
        Source::Mlx => "mlx",
    }
}

pub fn parse_source(s: &str) -> (r: Source)
    ensures
        r == source_of(s@),
{
    if same(s, "huggingface") {
        Source::HuggingFace
    } else if same(s, "mlx") {
        Source::Mlx
    } else {
        Source::Ollama
    }
}

/// A source is read back as it was written.
pub proof fn source_reads_back(s: Source)
    ensures
        source_of(source_text(s)) == s,
{
    reveal_strlit("huggingface");
    reveal_strlit("ollama");
    reveal_strlit("mlx");
    assert("huggingface"@.len() == 11);
    assert("ollama"@.len() == 6);
    assert("mlx"@.len() == 3);
}

pub open spec fn runtime_text(k: RuntimeKind) -> Seq<char> {
    match k {
        RuntimeKind::Ollama => "ollama"@,
        RuntimeKind::LlamaCpp => "llama_cpp"@,
        RuntimeKind::MlxLm => "mlx_lm"@,
    }
}

pub open spec fn runtime_of(s: Seq<char>) -> Option<RuntimeKind> {
    if s == "ollama"@ {
        Some(RuntimeKind::Ollama)
    } else if s == "llama_cpp"@ {
        Some(RuntimeKind::LlamaCpp)
    } else if s == "mlx_lm"@ {
        Some(RuntimeKind::MlxLm)
    } else {
        None
    }
}

/// A runtime is read back as it was written.
pub proof fn runtime_reads_back(k: RuntimeKind)
    ensures
        runtime_of(runtime_text(k)) == Some(k),
{
    reveal_strlit("ollama");
    reveal_strlit("llama_cpp");
    reveal_strlit("mlx_lm");
    assert("ollama"@[0] == 'o');
    assert("llama_cpp"@[0] == 'l');
    assert("mlx_lm"@[0] == 'm');
}

/// A list of runtimes as a JSON array of their texts.
pub open spec fn compat_tree(v: Seq<RuntimeKind>) -> Tree {
    Tree::List(v.map_values(|k: RuntimeKind| Tree::Text(runtime_text(k))))
}

/// The runtime that an element of such an array names.
pub open spec fn runtime_in(t: Tree) -> Option<RuntimeKind> {
    match text_in(t) {
        Some(s) => runtime_of(s),
        None => None,
    }
}

/// The runtimes that a JSON value lists: none at all if it is no array of
/// known runtimes.
pub open spec fn compat_in(t: Tree) -> Seq<RuntimeKind> {
    match t {
        Tree::List(s) => if forall|i: int|
            0 <= i < s.len() ==> runtime_in(#[trigger] s[i]) is Some {
            s.map_values(|e: Tree| runtime_in(e)->Some_0)
        } else {
            Seq::empty()
        },
        _ => Seq::empty(),
    }
}

/// The runtimes that a text lists; none if it is no JSON.
pub open spec fn compat_of_text(s: Seq<char>) -> Seq<RuntimeKind> {
    match parsed(s) {
        Ok(t) => compat_in(t),
        Err(_) => Seq::empty(),
    }
}

fn runtime_name(k: RuntimeKind) -> (r: &'static str)
    ensures
        r@ == runtime_text(k),
{
    match k {
        RuntimeKind::Ollama => "ollama",
        RuntimeKind::LlamaCpp => "llama_cpp",
        RuntimeKind::MlxLm => "mlx_lm",
    }
}

/// Writes a list of runtimes. Reading the text gives the list back.
pub fn compat_text(v: &Vec<RuntimeKind>) -> (r: String)
    ensures
        r@ == crate::json::written(compat_tree(v@)),
        compat_of_text(r@) == v@,
{
    let mut items: Vec<serde_json::Value> = Vec::new();
    for i in 0..v.len()
        invariant
            items@.len() == i,
            forall|j: int|
                0 <= j < i ==> tree(#[trigger] items@[j]) == Tree::Text(runtime_text(v@[j])),
    {
        items.push(text(runtime_name(v[i])));
    }
    let list = array(items);
    proof {
        let t = compat_tree(v@);
        let s = v@.map_values(|k: RuntimeKind| Tree::Text(runtime_text(k)));
        assert(tree(list) == Tree::List(trees(items@)));
        assert(trees(items@) =~= s);
        assert forall|i: int| 0 <= i < s.len() implies runtime_in(#[trigger] s[i]) == Some(
            v@[i],
        ) by {
            runtime_reads_back(v@[i]);
        }
        assert(s.map_values(|e: Tree| runtime_in(e)->Some_0) =~= v@);
        assert(compat_in(t) == v@);
    }
    render(&list)
}

/// The runtimes that a JSON value lists.
pub fn compat_in_value(v: &serde_json::Value) -> (r: Vec<RuntimeKind>)
    ensures
        r@ == compat_in(tree(*v)),
{
    let mut out: Vec<RuntimeKind> = Vec::new();
    let items = match as_array(v) {
        Some(items) => items,
        None => {
            return out;
        },
    };
    let ghost s = trees(items@);
    for i in 0..items.len()
        invariant
            s == trees(items@),
            tree(*v) == Tree::List(s),
            out@.len() == i,
            forall|j: int| 0 <= j < i ==> runtime_in(#[trigger] s[j]) == Some(out@[j]),
    {
        assert(s[i as int] == tree(items@[i as int]));
        let kind: Option<RuntimeKind> = match as_str(&items[i]) {
            Some(t) => if same(t, "ollama") {
                Some(RuntimeKind::Ollama)
            } else if same(t, "llama_cpp") {
                Some(RuntimeKind::LlamaCpp)
            } else if same(t, "mlx_lm") {
                Some(RuntimeKind::MlxLm)
            } else {
                None
            },
            None => None,
        };
        match kind {
            Some(k) => {
                out.push(k);
            },
            None => {
                assert(runtime_in(s[i as int]) is None);
                let none: Vec<RuntimeKind> = Vec::new();
                assert(none@ =~= Seq::<RuntimeKind>::empty());
                return none;
            },
        }
    }
    assert(s.map_values(|e: Tree| runtime_in(e)->Some_0) =~= out@);
    out
}

/// Reads a list of runtimes; none if the text is no such list.
pub fn parse_compat(s: &str) -> (r: Vec<RuntimeKind>)
    ensures
        r@ == compat_of_text(s@),
{
    match parse(s) {
        Ok(v) => compat_in_value(&v),
        Err(_) => Vec::new(),
    }
}

/// The moment of a sync for its column. Reading it gives the moment back.
pub fn last_sync_text(t: i64) -> (r: String)
    ensures
        r@ == signed_digits(t as int),
        parse_signed(r@) == Some(t as int),
{
    proof {
        signed_numeral_reads_back(t as int);
    }
    signed_decimal(t)
}

/// The moment of the last sync, as its column holds it.
pub fn parse_last_sync(s: &str) -> (r: Option<i64>)
    ensures
        match r {
            Some(n) => parse_signed(s@) == Some(n as int),
            None => parse_signed(s@) is None,
        },
{
    read_signed(&chars_of(s))
}

// ---------------------------------------------------------------------------
// Rows
// ---------------------------------------------------------------------------

/// A count as an integer column holds it: the same 64 bits, signed.
pub open spec fn column_of(n: u64) -> i64 {
    if n <= i64::MAX {
        n as i64
    } else {
        (n - 0x1_0000_0000_0000_0000) as i64
    }
}

/// The count that an integer column holds.
pub open spec fn count_of(c: i64) -> u64 {
    if c >= 0 {
        c as u64
    } else {
        (c + 0x1_0000_0000_0000_0000) as u64
    }
}

/// A count is read back as it was written.
pub proof fn count_reads_back(n: u64)
    ensures
        count_of(column_of(n)) == n,
{
}

pub fn to_column(n: u64) -> (r: i64)
    ensures
        r == column_of(n),
{
    if n <= i64::MAX as u64 {
        n as i64
    } else {
        -((u64::MAX - n) as i64) - 1
    }
}

pub fn from_column(c: i64) -> (r: u64)
    ensures
        r == count_of(c),
{
    if c >= 0 {
        c as u64
    } else {
        u64::MAX - (-(c + 1)) as u64
    }
}

/// A row of the table of models.
#[derive(Debug)]
pub struct ModelRow {
    pub id: i64,
    pub name: String,
    pub family: Option<String>,
    pub source: String,
    pub repo: Option<String>,
    pub params_total: i64,
    pub params_active: i64,
    pub architecture: Option<String>,
    pub context_max: u32,
    pub released_at: Option<i64>,
    pub released_approx: i64,
}

/// A row of the table of variants. Bits per weight are in units of
/// 10^-16.
#[derive(Debug)]
pub struct VariantRow {
    pub quant: String,
    pub bpw: u64,
    pub file_size_bytes: Option<i64>,
    pub layers: u32,
    pub kv_heads: u32,
    pub head_dim: u32,
    pub embedding_dim: u32,
    pub runtime_compat: String,
    pub source_tag: Option<String>,
}

/// The variant that a row holds.
pub open spec fn variant_in(row: VariantRow) -> Variant {
    Variant {
        quant: row.quant@,
        bpw: row.bpw,
        file_size_bytes: match row.file_size_bytes {
            Some(c) => Some(count_of(c)),
            None => None,
        },
        layers: row.layers,
        kv_heads: row.kv_heads,
        head_dim: row.head_dim,
        embedding_dim: row.embedding_dim,
        runtime_compat: compat_of_text(row.runtime_compat@),
        source_tag: row.source_tag.deep_view(),
    }
}

/// The model that a row holds, with the variants of its own rows.
pub open spec fn model_in(row: ModelRow, variants: Seq<VariantRow>) -> Model {
    Model {
        id: row.id,
        name: row.name@,
        family: row.family.deep_view(),
        source: source_of(row.source@),
        repo: row.repo.deep_view(),
        params_total: count_of(row.params_total),
        params_active: count_of(row.params_active),
        architecture: row.architecture.deep_view(),
        context_max: row.context_max,
        released_at: row.released_at,
        released_approx: row.released_approx != 0,
        variants: variants.map_values(|v: VariantRow| variant_in(v)),
    }
}

/// The row of a variant. It holds just that variant.
pub fn variant_row(v: &CatalogVariant) -> (r: VariantRow)
    ensures
        variant_in(r) == v@,
{
    let file_size_bytes: Option<i64> = match v.file_size_bytes {
        Some(n) => Some(to_column(n)),
        None => None,
    };
    VariantRow {
        quant: v.quant.clone(),
        bpw: v.bpw,
        file_size_bytes,
        layers: v.layers,
        kv_heads: v.kv_heads,
        head_dim: v.head_dim,
        embedding_dim: v.embedding_dim,
        runtime_compat: compat_text(&v.runtime_compat),
        source_tag: clone_text(&v.source_tag),
    }
}

/// The row of a model and those of its variants. They hold just that model.
pub fn model_rows(m: &CatalogModel) -> (r: (ModelRow, Vec<VariantRow>))
    ensures
        model_in(r.0, r.1@) == m@,
        r.0.source@ == source_text(m.source),
{
    let row = ModelRow {
        id: m.id,
        name: m.name.clone(),
        family: clone_text(&m.family),
        source: source_str(m.source).to_owned(),
        repo: clone_text(&m.repo),
        params_total: to_column(m.params_total),
        params_active: to_column(m.params_active),
        architecture: clone_text(&m.architecture),
        context_max: m.context_max,
        released_at: m.released_at,
        released_approx: if m.released_approx {
            1
        } else {
            0
        },
    };
    let mut rows: Vec<VariantRow> = Vec::new();
    let n: usize = m.variants.len();
    for i in 0..n
        invariant
            n == m.variants@.len(),
            rows@.len() == i,
            forall|j: int| 0 <= j < i ==> variant_in(#[trigger] rows@[j]) == m.variants@[j]@,
    {
        rows.push(variant_row(&m.variants[i]));
    }
    proof {
        source_reads_back(m.source);
        assert(rows@.map_values(|v: VariantRow| variant_in(v)) =~= m@.variants);
    }
    (row, rows)
}

/// The model that a row holds, with the variants of its own rows.
pub fn model_of_rows(row: ModelRow, variants: &Vec<VariantRow>) -> (r: CatalogModel)
    ensures
        r@ == model_in(row, variants@),
{
    let mut list: Vec<CatalogVariant> = Vec::new();
    let n: usize = variants.len();
    for i in 0..n
        invariant
            n == variants@.len(),
            list@.len() == i,
            forall|j: int| 0 <= j < i ==> (#[trigger] list@[j])@ == variant_in(variants@[j]),
    {
        let v = &variants[i];
        let file_size_bytes: Option<u64> = match v.file_size_bytes {
            Some(c) => Some(from_column(c)),
            None => None,
        };
        list.push(
            CatalogVariant {
                quant: v.quant.clone(),
                bpw: v.bpw,
                file_size_bytes,
                layers: v.layers,
                kv_heads: v.kv_heads,
                head_dim: v.head_dim,
                embedding_dim: v.embedding_dim,
                runtime_compat: parse_compat(v.runtime_compat.as_str()),
                source_tag: clone_text(&v.source_tag),
            },
        );
    }
    assert(list.deep_view() =~= variants@.map_values(|v: VariantRow| variant_in(v)));
    CatalogModel {
        id: row.id,
        name: row.name,
        family: row.family,
        source: parse_source(row.source.as_str()),
        repo: row.repo,
        params_total: from_column(row.params_total),
        params_active: from_column(row.params_active),
        architecture: row.architecture,
        context_max: row.context_max,
        released_at: row.released_at,
        released_approx: row.released_approx != 0,
        variants: list,
    }
}

/// Places of parameters from the second on, a comma between.
pub open spec fn places(n: nat) -> Seq<char>
    decreases n,
{
    if n == 0 {
        Seq::empty()
    } else if n == 1 {
        "?2"@
    } else {
        places((n - 1) as nat) + ", ?"@ + digits(n + 1)
    }
}

/// The statement that removes the variants of a model which are not among the
/// `n` listed ones.
pub fn prune_sql(n: usize) -> (r: String)
    requires
        n < usize::MAX,
    ensures
        r@ == if n == 0 {
            "DELETE FROM variants WHERE model_id = ?1"@
        } else {
            "DELETE FROM variants WHERE model_id = ?1 AND quant NOT IN ("@ + places(n as nat)
                + ")"@
        },
{
    if n == 0 {
        return "DELETE FROM variants WHERE model_id = ?1".to_owned();
    }
    let mut list = "?2".to_owned();
    for i in 1..n
        invariant
            n < usize::MAX,
            list@ == places(i as nat),
    {
        list.append(", ?");
        push_decimal(&mut list, i as u128 + 2);
    }
    let mut s = "DELETE FROM variants WHERE model_id = ?1 AND quant NOT IN (".to_owned();
    s.append(list.as_str());
    s.append(")");
    s
}

// ---------------------------------------------------------------------------
// Writing a model, and what the tables hold then
// ---------------------------------------------------------------------------

/// One statement of the transaction that writes a model.
#[derive(Debug)]
pub enum Step {
    /// Inserts the row, or replaces all but the number of the row with its
    /// source and name. The other steps are about the row's number.
    PutModel(ModelRow),
    /// Inserts the variant, or replaces that of the same quantization.
    PutVariant(VariantRow),
    /// Removes the variants of other quantizations.
    Prune(Vec<String>),
}

/// The quantizations of variants.
pub open spec fn quants_of(vs: Seq<Variant>) -> Seq<Seq<char>> {
    vs.map_values(|v: Variant| v.quant)
}

/// The steps write the model: its row, its variants in order, and no others.
pub open spec fn is_upsert(steps: Seq<Step>, m: Model) -> bool {
    &&& steps.len() == m.variants.len() + 2
    &&& steps[0] is PutModel
    &&& model_in(steps[0]->PutModel_0, Seq::empty()) == (Model { variants: Seq::empty(), ..m })
    &&& steps[0]->PutModel_0.source@ == source_text(m.source)
    &&& forall|i: int|
        0 <= i < m.variants.len() ==> (#[trigger] steps[i + 1]) is PutVariant && variant_in(
            steps[i + 1]->PutVariant_0,
        ) == m.variants[i]
    &&& steps.last() is Prune
    &&& steps.last()->Prune_0.deep_view() == quants_of(m.variants)
}

/// The steps that write a model.
pub fn upsert_steps(m: &CatalogModel) -> (r: Vec<Step>)
    ensures
        is_upsert(r@, m@),
{
    let (row, rows) = model_rows(m);
    let ghost all = rows@;
    assert(model_in(row, Seq::empty()).variants =~= Seq::<Variant>::empty());
    let mut quants: Vec<String> = Vec::new();
    let mut steps: Vec<Step> = Vec::new();
    steps.push(Step::PutModel(row));
    let n: usize = rows.len();
    let mut i: usize = 0;
    while i < n
        invariant
            i <= n,
            n == rows@.len(),
            rows@ == all,
            quants@.len() == i,
            forall|j: int| 0 <= j < i ==> (#[trigger] quants@[j])@ == all[j].quant@,
        decreases n - i,
    {
        quants.push(rows[i].quant.clone());
        i = i + 1;
    }
    for v in it: rows
        invariant
            it.seq() == all,
            n == all.len(),
            steps@.len() == it.index() + 1,
            steps@[0] == Step::PutModel(row),
            forall|j: int|
                0 <= j < it.index() ==> (#[trigger] steps@[j + 1]) == Step::PutVariant(all[j]),
    {
        let ghost before = steps@;
        steps.push(Step::PutVariant(v));
        assert forall|j: int| 0 <= j < before.len() - 1 implies (#[trigger] steps@[j + 1])
            == before[j + 1] by {}
    }
    let ghost before = steps@;
    steps.push(Step::Prune(quants));
    proof {
        assert(model_in(row, all).variants == m@.variants);
        assert forall|j: int| 0 <= j < n implies (#[trigger] steps@[j + 1]) is PutVariant
            && variant_in(steps@[j + 1]->PutVariant_0) == m@.variants[j] by {
            assert(before[j + 1] == Step::PutVariant(all[j]));
            assert(model_in(row, all).variants[j] == variant_in(all[j]));
        }
        assert(quants.deep_view() =~= quants_of(m@.variants)) by {
            assert forall|j: int| 0 <= j < n implies quants.deep_view()[j]
                == #[trigger] quants_of(m@.variants)[j] by {
                assert(quants@[j]@ == all[j].quant@);
                assert(model_in(row, all).variants[j] == variant_in(all[j]));
            }
        }
    }
    steps
}

/// The two tables: models by their number, and the variants of each number by
/// their quantization.
pub ghost struct Tables {
    pub models: Map<i64, ModelRow>,
    pub variants: Map<i64, Map<Seq<char>, VariantRow>>,
}

/// The row holds the model of this source and name.
pub open spec fn is_row_of(row: ModelRow, source: Source, name: Seq<char>) -> bool {
    row.source@ == source_text(source) && row.name@ == name
}

impl Tables {
    /// Rows stand under their number and quantization, sources are known, and
    /// no two rows have the same source and name.
    pub open spec fn wf(self) -> bool {
        &&& forall|i: i64| #[trigger]
            self.models.contains_key(i) ==> self.models[i].id == i && self.variants.contains_key(i)
                && self.models[i].source@ == source_text(source_of(self.models[i].source@))
        &&& forall|i: i64, j: i64|
            self.models.contains_key(i) && self.models.contains_key(j) && (
            #[trigger] self.models[i]).source@ == (#[trigger] self.models[j]).source@
                && self.models[i].name@ == self.models[j].name@ ==> i == j
        &&& forall|i: i64, q: Seq<char>|
            self.models.contains_key(i) && #[trigger] self.variants[i].contains_key(q)
                ==> self.variants[i][q].quant@ == q
    }

    /// The number of the row for a source and a name: that of the row that
    /// holds them, else one that no row has.
    pub open spec fn numbers(self, source: Source, name: Seq<char>, id: i64) -> bool {
        ||| self.models.contains_key(id) && is_row_of(self.models[id], source, name)
        ||| !self.models.contains_key(id) && forall|i: i64| #[trigger]
            self.models.contains_key(i) ==> !is_row_of(self.models[i], source, name)
    }

    /// The variants of a number; none where there are no such rows.
    pub open spec fn variants_of(self, id: i64) -> Map<Seq<char>, VariantRow> {
        if self.models.contains_key(id) {
            self.variants[id]
        } else {
            Map::empty()
        }
    }

    /// The tables after a step for the row with number `id`.
    pub open spec fn after(self, id: i64, step: Step) -> Tables {
        match step {
            Step::PutModel(row) => Tables {
                models: self.models.insert(id, ModelRow { id, ..row }),
                variants: self.variants.insert(id, self.variants_of(id)),
            },
            Step::PutVariant(v) => Tables {
                variants: self.variants.insert(id, self.variants[id].insert(v.quant@, v)),
                ..self
            },
            Step::Prune(quants) => Tables {
                variants: self.variants.insert(
                    id,
                    self.variants[id].restrict(quants.deep_view().to_set()),
                ),
                ..self
            },
        }
    }

    /// The tables after steps for the row with number `id`.
    pub open spec fn after_all(self, id: i64, steps: Seq<Step>) -> Tables
        decreases steps.len(),
    {
        if steps.len() == 0 {
            self
        } else {
            self.after_all(id, steps.drop_last()).after(id, steps.last())
        }
    }

    /// `vs` are the variants of a number, each once, in some order.
    pub open spec fn lists_variants(self, id: i64, vs: Seq<VariantRow>) -> bool {
        &&& forall|i: int|
            0 <= i < vs.len() ==> self.variants[id].contains_key((#[trigger] vs[i]).quant@)
                && self.variants[id][vs[i].quant@] == vs[i]
        &&& forall|i: int, j: int|
            0 <= i < j < vs.len() ==> (#[trigger] vs[i]).quant@ != (#[trigger] vs[j]).quant@
        &&& forall|q: Seq<char>| #[trigger]
            self.variants[id].contains_key(q) ==> exists|i: int|
                0 <= i < vs.len() && (#[trigger] vs[i]).quant@ == q
    }

    /// `m` may be read of the row with number `id`.
    pub open spec fn reads(self, id: i64, m: Model) -> bool {
        exists|vs: Seq<VariantRow>| #[trigger]
            self.lists_variants(id, vs) && m == model_in(self.models[id], vs)
    }

    /// `out` may be what the tables list: the models of all rows, those with
    /// most parameters first; `ids` are the numbers of their rows.
    pub open spec fn lists(self, ids: Seq<i64>, out: Seq<Model>) -> bool {
        &&& ids.no_duplicates()
        &&& forall|i: i64| #[trigger] ids.contains(i) <==> self.models.contains_key(i)
        &&& out.len() == ids.len()
        &&& forall|k: int| 0 <= k < ids.len() ==> self.reads(ids[k], #[trigger] out[k])
        &&& forall|k: int, l: int|
            0 <= k < l < ids.len() ==> self.models[#[trigger] ids[k]].params_total
                >= self.models[#[trigger] ids[l]].params_total
    }
}

/// The same model, but for its number and the order of its variants.
pub open spec fn same_model(a: Model, b: Model) -> bool {
    &&& a == (Model { id: a.id, variants: a.variants, ..b })
    &&& a.variants.len() == b.variants.len()
    &&& forall|v: Variant| a.variants.contains(v) <==> b.variants.contains(v)
}

/// What the first steps of an upsert leave.
proof fn lemma_first_steps(t: Tables, id: i64, steps: Seq<Step>, m: Model, n: int)
    requires
        t.wf(),
        is_upsert(steps, m),
        0 <= n <= m.variants.len(),
    ensures
        ({
            let u = t.after_all(id, steps.take(n + 1));
            &&& u.models == t.models.insert(id, ModelRow { id, ..steps[0]->PutModel_0 })
            &&& u.variants.contains_key(id)
            &&& forall|i: i64|
                i != id ==> (#[trigger] u.variants.contains_key(i) <==> t.variants.contains_key(i))
            &&& forall|i: i64|
                i != id && t.variants.contains_key(i) ==> #[trigger] u.variants[i] == t.variants[i]
            &&& forall|q: Seq<char>| #[trigger]
                u.variants[id].contains_key(q) ==> u.variants[id][q].quant@ == q
            &&& quants_of(m.variants).no_duplicates() ==> forall|i: int|
                0 <= i < n ==> u.variants[id].contains_key(
                    (#[trigger] steps[i + 1])->PutVariant_0.quant@,
                ) && u.variants[id][steps[i + 1]->PutVariant_0.quant@]
                    == steps[i + 1]->PutVariant_0
            &&& forall|i: int|
                0 <= i < n ==> u.variants[id].contains_key(
                    (#[trigger] steps[i + 1])->PutVariant_0.quant@,
                )
        }),
    decreases n,
{
    let now = steps.take(n + 1);
    assert(now.drop_last() =~= steps.take(n));
    assert(now.last() == steps[n]);
    if n == 0 {
        assert(t.after_all(id, steps.take(0)) == t);
    } else {
        lemma_first_steps(t, id, steps, m, n - 1);
        let u = t.after_all(id, steps.take(n));
        let w = t.after_all(id, now);
        assert(steps[(n - 1) + 1] is PutVariant);
        let v = steps[n]->PutVariant_0;
        assert(w == u.after(id, Step::PutVariant(v)));
        assert forall|i: int|
            0 <= i < n && quants_of(m.variants).no_duplicates() implies w.variants[id].contains_key(
            (#[trigger] steps[i + 1])->PutVariant_0.quant@,
        ) && w.variants[id][steps[i + 1]->PutVariant_0.quant@] == steps[i + 1]->PutVariant_0 by {
            if i < n - 1 {
                assert(quants_of(m.variants)[i] != quants_of(m.variants)[n - 1]);
                assert(variant_in(steps[i + 1]->PutVariant_0) == m.variants[i]);
                assert(variant_in(v) == m.variants[n - 1]);
            }
        }
    }
}

/// What an upsert leaves: the row and just the variants of the model under its
/// number, and all other rows as they were.
proof fn lemma_upsert(t: Tables, id: i64, steps: Seq<Step>, m: Model)
    requires
        t.wf(),
        is_upsert(steps, m),
    ensures
        ({
            let u = t.after_all(id, steps);
            &&& u.models == t.models.insert(id, ModelRow { id, ..steps[0]->PutModel_0 })
            &&& u.variants.contains_key(id)
            &&& forall|i: i64|
                i != id ==> (#[trigger] u.variants.contains_key(i) <==> t.variants.contains_key(i))
            &&& forall|i: i64|
                i != id && t.variants.contains_key(i) ==> #[trigger] u.variants[i] == t.variants[i]
            &&& forall|q: Seq<char>| #[trigger]
                u.variants[id].contains_key(q) ==> u.variants[id][q].quant@ == q
            &&& forall|q: Seq<char>| #[trigger]
                u.variants[id].contains_key(q) <==> quants_of(m.variants).contains(q)
            &&& quants_of(m.variants).no_duplicates() ==> forall|i: int|
                0 <= i < m.variants.len() ==> u.variants[id][(
                #[trigger] steps[i + 1])->PutVariant_0.quant@] == steps[i + 1]->PutVariant_0
        }),
{
    let n = m.variants.len() as int;
    lemma_first_steps(t, id, steps, m, n);
    let b = t.after_all(id, steps.take(n + 1));
    let u = t.after_all(id, steps);
    assert(steps.drop_last() =~= steps.take(n + 1));
    let quants = steps.last()->Prune_0;
    assert(u == b.after(id, steps.last()));
    assert forall|q: Seq<char>| #[trigger] u.variants[id].contains_key(q) <==> quants_of(
        m.variants,
    ).contains(q) by {
        if quants_of(m.variants).contains(q) {
            let i = choose|i: int| 0 <= i < n && quants_of(m.variants)[i] == q;
            assert(variant_in(steps[i + 1]->PutVariant_0) == m.variants[i]);
            assert(b.variants[id].contains_key(steps[i + 1]->PutVariant_0.quant@));
        }
    }
    assert forall|i: int|
        0 <= i < n && quants_of(m.variants).no_duplicates() implies u.variants[id][(
    #[trigger] steps[i + 1])->PutVariant_0.quant@] == steps[i + 1]->PutVariant_0 by {
        let q = steps[i + 1]->PutVariant_0.quant@;
        assert(variant_in(steps[i + 1]->PutVariant_0) == m.variants[i]);
        assert(quants_of(m.variants)[i] == q);
        assert(u.variants[id].contains_key(q));
    }
}

/// The catalog is listed from the largest model down.
pub proof fn largest_models_come_first(
    t: Tables,
    ids: Seq<i64>,
    out: Seq<Model>,
    k: int,
    l: int,
)
    requires
        t.lists(ids, out),
        0 <= k < l < out.len(),
        out[k].params_total <= i64::MAX,
        out[l].params_total <= i64::MAX,
    ensures
        out[k].params_total >= out[l].params_total,
{
    assert(t.reads(ids[k], out[k]));
    assert(t.reads(ids[l], out[l]));
    assert(t.models[ids[k]].params_total >= t.models[ids[l]].params_total);
}

/// Writing a model keeps the tables in order, and leaves the rows of all other
/// models as they are.
pub proof fn upsert_keeps_the_rest(t: Tables, id: i64, steps: Seq<Step>, m: Model)
    requires
        t.wf(),
        t.numbers(m.source, m.name, id),
        is_upsert(steps, m),
    ensures
        t.after_all(id, steps).wf(),
        forall|i: i64|
            i != id ==> (#[trigger] t.after_all(id, steps).models.contains_key(i)
                <==> t.models.contains_key(i)),
        forall|i: i64|
            i != id && t.models.contains_key(i) ==> #[trigger] t.after_all(id, steps).models[i]
                == t.models[i] && t.after_all(id, steps).variants[i] == t.variants[i],
        t.after_all(id, steps).numbers(m.source, m.name, id),
{
    lemma_upsert(t, id, steps, m);
    source_reads_back(m.source);
    let u = t.after_all(id, steps);
    let row = steps[0]->PutModel_0;
    assert(row.name@ == m.name) by {
        assert(model_in(row, Seq::empty()).name == m.name);
    }
    assert forall|i: i64, j: i64|
        u.models.contains_key(i) && u.models.contains_key(j) && (#[trigger] u.models[i]).source@
            == (#[trigger] u.models[j]).source@ && u.models[i].name@
            == u.models[j].name@ implies i == j by {
        if i != j && (i == id || j == id) {
            let k = if i == id {
                j
            } else {
                i
            };
            assert(t.models.contains_key(k));
            assert(is_row_of(t.models[k], m.source, m.name));
            if t.models.contains_key(id) {
                assert(t.models[id].source@ == t.models[k].source@);
            }
        }
    }
    assert forall|i: i64| i != id && t.models.contains_key(i) implies #[trigger] u.models[i]
        == t.models[i] && u.variants[i] == t.variants[i] by {
        assert(t.variants.contains_key(i));
        assert(u.variants[i] == t.variants[i]);
    }
}

/// The row that was written is read as the model.
proof fn lemma_reads_back(t: Tables, id: i64, steps: Seq<Step>, m: Model, r: Model)
    requires
        t.wf(),
        is_upsert(steps, m),
        quants_of(m.variants).no_duplicates(),
        t.after_all(id, steps).reads(id, r),
    ensures
        same_model(r, m),
        r.id == id,
{
    lemma_upsert(t, id, steps, m);
    let u = t.after_all(id, steps);
    let row = steps[0]->PutModel_0;
    let vs = choose|vs: Seq<VariantRow>| #[trigger]
        u.lists_variants(id, vs) && r == model_in(u.models[id], vs);
    let base = model_in(row, Seq::empty());
    assert(base == (Model { variants: Seq::empty(), ..m }));
    assert(r == (Model { id, variants: r.variants, ..base }));
    let mine = quants_of(m.variants);
    let read = quants_of(r.variants);
    assert forall|i: int| 0 <= i < vs.len() implies #[trigger] read[i] == vs[i].quant@ by {}
    assert(read.no_duplicates());
    assert forall|q: Seq<char>| read.contains(q) <==> mine.contains(q) by {
        if read.contains(q) {
            let i = choose|i: int| 0 <= i < read.len() && read[i] == q;
            assert(u.variants[id].contains_key(vs[i].quant@));
        }
        if mine.contains(q) {
            assert(u.variants[id].contains_key(q));
            let i = choose|i: int| 0 <= i < vs.len() && (#[trigger] vs[i]).quant@ == q;
            assert(read[i] == q);
        }
    }
    read.unique_seq_to_set();
    mine.unique_seq_to_set();
    assert(read.to_set() =~= mine.to_set());
    assert forall|v: Variant| r.variants.contains(v) <==> m.variants.contains(v) by {
        if r.variants.contains(v) {
            let i = choose|i: int| 0 <= i < r.variants.len() && r.variants[i] == v;
            assert(read[i] == v.quant);
            assert(mine.contains(v.quant));
            let j = choose|j: int| 0 <= j < mine.len() && mine[j] == v.quant;
            assert(variant_in(steps[j + 1]->PutVariant_0) == m.variants[j]);
            assert(vs[i] == steps[j + 1]->PutVariant_0);
            assert(m.variants[j] == v);
        }
        if m.variants.contains(v) {
            let j = choose|j: int| 0 <= j < m.variants.len() && m.variants[j] == v;
            assert(mine[j] == v.quant);
            assert(read.contains(v.quant));
            let i = choose|i: int| 0 <= i < read.len() && read[i] == v.quant;
            assert(variant_in(steps[j + 1]->PutVariant_0) == m.variants[j]);
            assert(vs[i] == steps[j + 1]->PutVariant_0);
            assert(r.variants[i] == v);
        }
    }
}

/// A model that was written is listed as it was written, whatever the tables
/// held: once, with its own variants and no others. The list goes down by
/// parameters.
pub proof fn written_model_is_listed(
    t: Tables,
    id: i64,
    steps: Seq<Step>,
    m: Model,
    ids: Seq<i64>,
    out: Seq<Model>,
)
    requires
        t.wf(),
        t.numbers(m.source, m.name, id),
        is_upsert(steps, m),
        quants_of(m.variants).no_duplicates(),
        t.after_all(id, steps).lists(ids, out),
    ensures
        exists|k: int| 0 <= k < out.len() && same_model(#[trigger] out[k], m) && out[k].id == id,
        forall|k: int|
            0 <= k < out.len() && (#[trigger] out[k]).source == m.source && out[k].name == m.name
                ==> same_model(out[k], m) && out[k].id == id,
        forall|k: int, l: int|
            0 <= k < l < out.len() && (#[trigger] out[k]).source == m.source && out[k].name
                == m.name ==> !((#[trigger] out[l]).source == m.source && out[l].name == m.name),
        forall|k: int, l: int|
            0 <= k < l < out.len() ==> column_of((#[trigger] out[k]).params_total) >= column_of(
                (#[trigger] out[l]).params_total,
            ),
{
    lemma_upsert(t, id, steps, m);
    upsert_keeps_the_rest(t, id, steps, m);
    let u = t.after_all(id, steps);
    let row = steps[0]->PutModel_0;
    assert(model_in(row, Seq::empty()).name == m.name);
    assert(u.models.contains_key(id));
    assert(ids.contains(id));
    let at = choose|k: int| 0 <= k < ids.len() && ids[k] == id;
    assert(u.reads(ids[at], out[at]));
    lemma_reads_back(t, id, steps, m, out[at]);
    assert forall|k: int|
        0 <= k < out.len() && (#[trigger] out[k]).source == m.source && out[k].name
            == m.name implies k == at by {
        assert(u.reads(ids[k], out[k]));
        assert(ids.contains(ids[k]));
        let other = u.models[ids[k]];
        assert(other.source@ == source_text(source_of(other.source@)));
        assert(other.source@ == u.models[id].source@ && other.name@ == u.models[id].name@);
        assert(ids[k] == id);
    }
    assert forall|k: int, l: int| 0 <= k < l < out.len() implies column_of(
        (#[trigger] out[k]).params_total,
    ) >= column_of((#[trigger] out[l]).params_total) by {
        assert(u.reads(ids[k], out[k]) && u.reads(ids[l], out[l]));
        let (x, y) = (u.models[ids[k]].params_total, u.models[ids[l]].params_total);
        assert(column_of(count_of(x)) == x && column_of(count_of(y)) == y);
        assert(u.models[ids[k]].params_total >= u.models[ids[l]].params_total);
    }
}

/// Of two models of one source and name that are written one after the other,
/// the second is listed and nothing of the first: variants that only the first
/// had are gone, and what the second leaves out is cleared.
pub proof fn second_upsert_wins(
    t: Tables,
    first: i64,
    a_steps: Seq<Step>,
    a: Model,
    second: i64,
    b_steps: Seq<Step>,
    b: Model,
    ids: Seq<i64>,
    out: Seq<Model>,
)
    requires
        t.wf(),
        a.source == b.source,
        a.name == b.name,
        t.numbers(a.source, a.name, first),
        is_upsert(a_steps, a),
        t.after_all(first, a_steps).numbers(b.source, b.name, second),
        is_upsert(b_steps, b),
        quants_of(b.variants).no_duplicates(),
        t.after_all(first, a_steps).after_all(second, b_steps).lists(ids, out),
    ensures
        first == second,
        exists|k: int| 0 <= k < out.len() && same_model(#[trigger] out[k], b),
        forall|k: int|
            0 <= k < out.len() && (#[trigger] out[k]).source == b.source && out[k].name == b.name
                ==> same_model(out[k], b),
        forall|k: int, l: int|
            0 <= k < l < out.len() && (#[trigger] out[k]).source == b.source && out[k].name
                == b.name ==> !((#[trigger] out[l]).source == b.source && out[l].name == b.name),
        forall|k: int, l: int|
            0 <= k < l < out.len() ==> column_of((#[trigger] out[k]).params_total) >= column_of(
                (#[trigger] out[l]).params_total,
            ),
{
    lemma_upsert(t, first, a_steps, a);
    upsert_keeps_the_rest(t, first, a_steps, a);
    let u = t.after_all(first, a_steps);
    assert(u.models.contains_key(first));
    assert(model_in(a_steps[0]->PutModel_0, Seq::empty()).name == a.name);
    assert(is_row_of(u.models[first], b.source, b.name));
    assert(first == second) by {
        if first != second && u.models.contains_key(second) {
            assert(u.models[first].source@ == u.models[second].source@);
        }
    }
    written_model_is_listed(u, second, b_steps, b, ids, out);
}

} // verus!
