//! Choosing a model by name, and the steps from a plan to a server.

use vstd::prelude::*;

use crate::app::none_fits;
use crate::catalog::{model_figures, CatalogModel, Model, RuntimeKind, Variant};
use crate::error::{Failure, PaddockError};
use crate::estimate::{memory_of, rung, FitVerdict, MemoryBudget, DEFAULT_CONTEXT};
use crate::output::{gib, gib_text};
use crate::runtime::{clone_strings, Install, InstallPlan, Serve, ServePlan};
use crate::score::{best_variant_index, is_best, picked_fits_no_worse};
use crate::text::{
    ascii_lower, chars_of, contains, contains_chars, eq_ignore_ascii_case, lowercase, same,
    join, joined, same_ignoring_case, to_lowercase, trim, trimmed,
};

verus! {

// ---------------------------------------------------------------------------
// Models by name
// ---------------------------------------------------------------------------

/// What a name stands for.
pub enum Lookup<'a> {
    Found(&'a CatalogModel),
    /// The names of the models that it may stand for.
    Ambiguous(Vec<&'a str>),
    NotFound,
}

/// `Lookup` without its storage.
pub ghost enum Find {
    Found(Model),
    Ambiguous(Seq<Seq<char>>),
    NotFound,
}

pub open spec fn texts(v: Seq<&str>) -> Seq<Seq<char>> {
    Seq::new(v.len(), |i: int| v[i]@)
}

impl<'a> View for Lookup<'a> {
    type V = Find;

    open spec fn view(&self) -> Find {
        match *self {
            Lookup::Found(m) => Find::Found(m@),
            Lookup::Ambiguous(v) => Find::Ambiguous(texts(v@)),
            Lookup::NotFound => Find::NotFound,
        }
    }
}

pub open spec fn names_of(models: Seq<Model>) -> Seq<Seq<char>> {
    models.map_values(|m: Model| m.name)
}

pub open spec fn low_names_of(models: Seq<Model>) -> Seq<Seq<char>> {
    models.map_values(|m: Model| lowercase(m.name))
}

/// The positions of the names that hold `q`.
pub open spec fn holding(low: Seq<Seq<char>>, q: Seq<char>) -> Seq<int>
    decreases low.len(),
{
    if low.len() == 0 {
        Seq::empty()
    } else {
        let before = holding(low.drop_last(), q);
        if contains(low.last(), q) {
            before.push(low.len() - 1)
        } else {
            before
        }
    }
}

/// What a name stands for, given the names of the models and the name in lower
/// case: the model of exactly that name, else the first that differs in case
/// only, else the only one whose name holds it.
pub open spec fn lookup(
    models: Seq<Model>,
    low: Seq<Seq<char>>,
    query: Seq<char>,
    q: Seq<char>,
) -> Find {
    if let Some(i) = names_of(models).index_of_first(query) {
        Find::Found(models[i])
    } else if let Some(i) = low.index_of_first(q) {
        Find::Found(models[i])
    } else {
        let hits = holding(low, q);
        if hits.len() == 0 {
            Find::NotFound
        } else if hits.len() == 1 {
            Find::Found(models[hits[0]])
        } else {
            Find::Ambiguous(Seq::new(hits.len(), |k: int| models[hits[k]].name))
        }
    }
}

proof fn lemma_holders(low: Seq<Seq<char>>, q: Seq<char>)
    ensures
        forall|k: int|
            0 <= k < holding(low, q).len() ==> 0 <= #[trigger] holding(low, q)[k] < low.len()
                && contains(low[holding(low, q)[k]], q),
        forall|i: int|
            0 <= i < low.len() && contains(#[trigger] low[i], q) ==> exists|k: int|
                0 <= k < holding(low, q).len() && holding(low, q)[k] == i,
    decreases low.len(),
{
    if low.len() > 0 {
        let t = low.drop_last();
        lemma_holders(t, q);
        let (before, all) = (holding(t, q), holding(low, q));
        assert forall|k: int| 0 <= k < all.len() implies 0 <= #[trigger] all[k] < low.len()
            && contains(low[all[k]], q) by {
            if k < before.len() {
                assert(all[k] == before[k]);
                assert(t[before[k]] == low[before[k]]);
            } else {
                assert(low.last() == low[low.len() - 1]);
            }
        }
        assert forall|i: int| 0 <= i < low.len() && contains(#[trigger] low[i], q) implies exists|
            k: int,
        | 0 <= k < all.len() && all[k] == i by {
            if i < low.len() - 1 {
                assert(t[i] == low[i]);
                let k = choose|k: int| 0 <= k < before.len() && before[k] == i;
                assert(all[k] == i);
            } else {
                assert(all[before.len() as int] == i);
            }
        }
    }
}

/// A model that is found is one of the catalog's and its name, in small
/// letters, holds what was asked for; where it is not the name itself, no other
/// model's name holds it. Nothing is found only where no name holds it.
pub proof fn found_model_holds_the_query(
    models: Seq<Model>,
    low: Seq<Seq<char>>,
    query: Seq<char>,
    q: Seq<char>,
)
    requires
        low == low_names_of(models),
        q == lowercase(query),
    ensures
        match lookup(models, low, query, q) {
            Find::Found(m) => exists|i: int|
                0 <= i < models.len() && #[trigger] models[i] == m && (m.name == query || low[i] == q
                    || (contains(low[i], q) && forall|j: int|
                    0 <= j < models.len() && contains(#[trigger] low[j], q) ==> j == i)),
            Find::NotFound => forall|i: int|
                0 <= i < models.len() ==> !contains(#[trigger] low[i], q) && low[i] != q
                    && models[i].name != query,
            Find::Ambiguous(names) => names.len() >= 2,
        },
{
    let names = names_of(models);
    names.index_of_first_ensures(query);
    low.index_of_first_ensures(q);
    lemma_holders(low, q);
    let hits = holding(low, q);
    if let Some(i) = names.index_of_first(query) {
        assert(models[i].name == query);
    } else if let Some(i) = low.index_of_first(q) {
        assert(models[i] == models[i]);
    } else if hits.len() == 1 {
        let i = hits[0];
        assert forall|j: int| 0 <= j < models.len() && contains(#[trigger] low[j], q) implies j
            == i by {
            let k = choose|k: int| 0 <= k < hits.len() && hits[k] == j;
        }
        assert(models[i] == models[i]);
    } else if hits.len() == 0 {
        assert forall|i: int| 0 <= i < models.len() implies !contains(#[trigger] low[i], q)
            && low[i] != q && models[i].name != query by {
            assert(names[i] == models[i].name);
        }
    }
}

fn find_exact(models: &[CatalogModel], query: &str) -> (r: Option<usize>)
    ensures
        match r {
            Some(i) => names_of(models.deep_view()).index_of_first(query@) == Some(i as int) && i
                < models@.len(),
            None => names_of(models.deep_view()).index_of_first(query@) is None,
        },
{
    let ghost names = names_of(models.deep_view());
    proof {
        names.index_of_first_ensures(query@);
    }
    for i in 0..models.len()
        invariant
            names == names_of(models.deep_view()),
            forall|j: int| 0 <= j < i ==> names[j] != query@,
            match names.index_of_first(query@) {
                Some(index) => {
                    &&& names.contains(query@)
                    &&& 0 <= index < names.len()
                    &&& names[index] == query@
                    &&& forall|j: int| 0 <= j < index < names.len() ==> names[j] != query@
                },
                None => !names.contains(query@),
            },
    {
        assert(names[i as int] == models@[i as int]@.name);
        if same(models[i].name.as_str(), query) {
            return Some(i);
        }
    }
    None
}

fn find_text(list: &Vec<String>, q: &str) -> (r: Option<usize>)
    ensures
        match r {
            Some(i) => list.deep_view().index_of_first(q@) == Some(i as int) && i < list@.len(),
            None => list.deep_view().index_of_first(q@) is None,
        },
{
    let ghost all = list.deep_view();
    proof {
        all.index_of_first_ensures(q@);
    }
    for i in 0..list.len()
        invariant
            all == list.deep_view(),
            forall|j: int| 0 <= j < i ==> all[j] != q@,
            match all.index_of_first(q@) {
                Some(index) => {
                    &&& all.contains(q@)
                    &&& 0 <= index < all.len()
                    &&& all[index] == q@
                    &&& forall|j: int| 0 <= j < index < all.len() ==> all[j] != q@
                },
                None => !all.contains(q@),
            },
    {
        assert(all[i as int] == list@[i as int]@);
        if same(list[i].as_str(), q) {
            return Some(i);
        }
    }
    None
}

/// What a name stands for, given the names of the models and the name in lower
/// case.
pub fn find_lowered<'a>(
    models: &'a [CatalogModel],
    low: &Vec<String>,
    query: &str,
    q: &str,
) -> (r: Lookup<'a>)
    requires
        low@.len() == models@.len(),
    ensures
        r@ == lookup(models.deep_view(), low.deep_view(), query@, q@),
{
    let ghost all = models.deep_view();
    let ghost names = low.deep_view();
    if let Some(i) = find_exact(models, query) {
        assert(all[i as int] == models@[i as int]@);
        return Lookup::Found(&models[i]);
    }
    if let Some(i) = find_text(low, q) {
        assert(all[i as int] == models@[i as int]@);
        return Lookup::Found(&models[i]);
    }
    let n: usize = models.len();
    let needle = chars_of(q);
    let mut hits: Vec<&'a str> = Vec::new();
    let mut first: usize = 0;
    let ghost mut found: Seq<int> = Seq::empty();
    assert(found =~= holding(names.take(0), q@));
    for i in 0..n
        invariant
            n == models@.len(),
            low@.len() == n,
            all == models.deep_view(),
            names == low.deep_view(),
            needle@ == q@,
            found == holding(names.take(i as int), q@),
            hits@.len() == found.len(),
            forall|k: int| 0 <= k < found.len() ==> 0 <= #[trigger] found[k] < i,
            forall|k: int|
                0 <= k < found.len() ==> (#[trigger] hits@[k])@ == all[found[k]].name,
            found.len() > 0 ==> first == found[0],
    {
        assert(names.take(i as int + 1).drop_last() =~= names.take(i as int));
        assert(names.take(i as int + 1).last() == low@[i as int]@);
        assert(all[i as int] == models@[i as int]@);
        if contains_chars(&chars_of(low[i].as_str()), &needle) {
            if hits.len() == 0 {
                first = i;
            }
            hits.push(models[i].name.as_str());
            proof {
                found = found.push(i as int);
            }
        }
    }
    assert(names.take(n as int) =~= names);
    if hits.len() == 0 {
        Lookup::NotFound
    } else if hits.len() == 1 {
        assert(all[first as int] == models@[first as int]@);
        Lookup::Found(&models[first])
    } else {
        assert(texts(hits@) =~= Seq::new(found.len(), |k: int| all[found[k]].name));
        Lookup::Ambiguous(hits)
    }
}

/// What a name stands for: the model of exactly that name, else the first that
/// differs in case only, else the only one whose name holds it.
pub fn find_model<'a>(models: &'a [CatalogModel], query: &str) -> (r: Lookup<'a>)
    ensures
        r@ == lookup(
            models.deep_view(),
            low_names_of(models.deep_view()),
            query@,
            lowercase(query@),
        ),
{
    let mut low: Vec<String> = Vec::new();
    let n: usize = models.len();
    for i in 0..n
        invariant
            n == models@.len(),
            low@.len() == i,
            forall|j: int| 0 <= j < i ==> (#[trigger] low@[j])@ == lowercase(models@[j]@.name),
    {
        low.push(to_lowercase(models[i].name.as_str()));
    }
    assert(low.deep_view() =~= low_names_of(models.deep_view()));
    let q = to_lowercase(query);
    find_lowered(models, &low, query, q.as_str())
}

/// An exact name always finds its model, whatever other names hold it.
pub proof fn exact_name_wins(
    models: Seq<Model>,
    low: Seq<Seq<char>>,
    query: Seq<char>,
    q: Seq<char>,
)
    requires
        names_of(models).contains(query),
    ensures
        lookup(models, low, query, q) matches Find::Found(m) && m.name == query,
{
    names_of(models).index_of_first_ensures(query);
}

proof fn lemma_holding(low: Seq<Seq<char>>, q: Seq<char>)
    ensures
        forall|k: int|
            0 <= k < holding(low, q).len() ==> 0 <= #[trigger] holding(low, q)[k] < low.len()
                && contains(low[holding(low, q)[k]], q),
    decreases low.len(),
{
    if low.len() > 0 {
        let before = holding(low.drop_last(), q);
        lemma_holding(low.drop_last(), q);
        assert forall|k: int| 0 <= k < holding(low, q).len() implies 0 <= #[trigger] holding(
            low,
            q,
        )[k] < low.len() && contains(low[holding(low, q)[k]], q) by {
            if k < before.len() {
                assert(holding(low, q)[k] == before[k]);
                assert(low.drop_last()[before[k]] == low[before[k]]);
            }
        }
    }
}

/// `name` is the name of a model, and holds `q` in lower case.
pub open spec fn names_a_holder(
    models: Seq<Model>,
    low: Seq<Seq<char>>,
    q: Seq<char>,
    name: Seq<char>,
) -> bool {
    exists|i: int|
        0 <= i < models.len() && (#[trigger] models[i]).name == name && contains(low[i], q)
}

/// A name is ambiguous only if several models' names hold it, and no model has
/// it, in whatever case.
pub proof fn ambiguity_has_its_reasons(
    models: Seq<Model>,
    low: Seq<Seq<char>>,
    query: Seq<char>,
    q: Seq<char>,
)
    requires
        low.len() == models.len(),
    ensures
        lookup(models, low, query, q) matches Find::Ambiguous(names) ==> {
            &&& names.len() >= 2
            &&& !names_of(models).contains(query)
            &&& !low.contains(q)
            &&& forall|k: int|
                0 <= k < names.len() ==> names_a_holder(models, low, q, #[trigger] names[k])
        },
{
    names_of(models).index_of_first_ensures(query);
    low.index_of_first_ensures(q);
    lemma_holding(low, q);
    let hits = holding(low, q);
    if let Find::Ambiguous(names) = lookup(models, low, query, q) {
        assert forall|k: int| 0 <= k < names.len() implies names_a_holder(
            models,
            low,
            q,
            #[trigger] names[k],
        ) by {
            let i = hits[k];
            assert(models[i].name == names[k]);
        }
    }
}

// ---------------------------------------------------------------------------
// Variants
// ---------------------------------------------------------------------------

pub open spec fn no_fit_failure(m: Model, budget: MemoryBudget) -> Failure {
    Failure::Other(
        "no quantization of `"@ + m.name + "` fits this machine ("@ + gib_text(
            budget.ram_total_bytes,
        ) + " RAM); try a smaller model from `paddock fit`"@,
    )
}

/// The quantizations of a model.
pub open spec fn quants(m: Model) -> Seq<Seq<char>> {
    m.variants.map_values(|v: Variant| v.quant)
}

pub open spec fn unknown_quant_failure(m: Model, quant: Seq<char>) -> Failure {
    Failure::Other(
        "model `"@ + m.name + "` has no quantization `"@ + quant + "`; available: "@ + joined(
            quants(m),
            ", "@,
        ),
    )
}

/// The first variant of this quantization, whatever its case, from `k` on.
pub open spec fn variant_of_quant(m: Model, quant: Seq<char>, k: int) -> Option<int>
    decreases m.variants.len() - k,
{
    if k < 0 || k >= m.variants.len() {
        None
    } else if same_ignoring_case(m.variants[k].quant, quant) {
        Some(k)
    } else {
        variant_of_quant(m, quant, k + 1)
    }
}

/// The variant of a quantization has it, letters in either case, and none
/// before it does; there is none only where no variant has the quantization.
pub proof fn variant_has_the_quantization(m: Model, quant: Seq<char>, k: int)
    requires
        0 <= k,
    ensures
        match variant_of_quant(m, quant, k) {
            Some(i) => {
                &&& k <= i < m.variants.len()
                &&& same_ignoring_case(m.variants[i].quant, quant)
                &&& forall|j: int|
                    k <= j < i ==> !same_ignoring_case((#[trigger] m.variants[j]).quant, quant)
            },
            None => forall|j: int|
                k <= j < m.variants.len() ==> !same_ignoring_case(
                    (#[trigger] m.variants[j]).quant,
                    quant,
                ),
        },
    decreases m.variants.len() - k,
{
    if k < m.variants.len() && !same_ignoring_case(m.variants[k].quant, quant) {
        variant_has_the_quantization(m, quant, k + 1);
    }
}

pub open spec fn text_view(t: Option<&str>) -> Option<Seq<char>> {
    match t {
        Some(t) => Some(t@),
        None => None,
    }
}

/// Whether a launch takes variant `i`: the one of the quantization asked for,
/// else the best that fits.
pub open spec fn is_choice(
    m: Model,
    quant: Option<Seq<char>>,
    budget: MemoryBudget,
    i: int,
) -> bool {
    &&& 0 <= i < m.variants.len()
    &&& match quant {
        Some(q) => variant_of_quant(m, q, 0) == Some(i),
        None => is_best(model_figures(m), budget, i),
    }
}

/// A chosen variant has the quantization that was asked for, letters in either
/// case; where none was asked for it fits the machine, and no variant of the
/// model fits better.
pub proof fn choice_is_asked_for_or_fits(
    m: Model,
    quant: Option<Seq<char>>,
    budget: MemoryBudget,
    i: int,
    j: int,
)
    requires
        is_choice(m, quant, budget, i),
        0 <= j < m.variants.len(),
    ensures
        quant matches Some(q) ==> same_ignoring_case(m.variants[i].quant, q),
        quant is None ==> {
            let default = DEFAULT_CONTEXT as nat;
            let chosen = memory_of(model_figures(m)[i], default, budget).verdict;
            &&& chosen != FitVerdict::DoesNotFit
            &&& rung(chosen) <= rung(memory_of(model_figures(m)[j], default, budget).verdict)
        },
{
    if let Some(q) = quant {
        variant_has_the_quantization(m, q, 0);
    } else {
        picked_fits_no_worse(model_figures(m), budget, i, j);
    }
}

/// Why no variant can be launched, if so.
pub open spec fn choice_failure(
    m: Model,
    quant: Option<Seq<char>>,
    budget: MemoryBudget,
) -> Option<Failure> {
    match quant {
        Some(q) => if variant_of_quant(m, q, 0) is None {
            Some(unknown_quant_failure(m, q))
        } else {
            None
        },
        None => if none_fits(model_figures(m), budget) {
            Some(no_fit_failure(m, budget))
        } else {
            None
        },
    }
}

fn find_quant(m: &CatalogModel, q: &str) -> (r: Option<usize>)
    ensures
        match r {
            Some(i) => variant_of_quant(m@, q@, 0) == Some(i as int) && i < m@.variants.len(),
            None => variant_of_quant(m@, q@, 0) is None,
        },
{
    let want = chars_of(q);
    let mut k: usize = 0;
    while k < m.variants.len()
        invariant
            k <= m.variants@.len(),
            want@ == q@,
            variant_of_quant(m@, q@, 0) == variant_of_quant(m@, q@, k as int),
        decreases m.variants@.len() - k,
    {
        assert(m@.variants[k as int] == m.variants@[k as int]@);
        if eq_ignore_ascii_case(&chars_of(m.variants[k].quant.as_str()), &want) {
            return Some(k);
        }
        k = k + 1;
    }
    None
}

/// The variant to launch: the one of the quantization asked for, whether it
/// fits or not; else the best one that fits this machine.
pub fn choose_variant(m: &CatalogModel, quant: Option<&str>, budget: &MemoryBudget) -> (r: Result<
    usize,
    PaddockError,
>)
    ensures
        match r {
            Ok(i) => choice_failure(m@, text_view(quant), *budget) is None && is_choice(
                m@,
                text_view(quant),
                *budget,
                i as int,
            ),
            Err(e) => choice_failure(m@, text_view(quant), *budget) == Some(e@),
        },
{
    if let Some(q) = quant {
        if let Some(k) = find_quant(m, q) {
            return Ok(k);
        }
        let mut s = "model `".to_owned();
        s.append(m.name.as_str());
        s.append("` has no quantization `");
        s.append(q);
        s.append("`; available: ");
        s.append(join(&quants_of(m), ", ").as_str());
        return Err(PaddockError::Other(s));
    }
    let vs = m.model_variants();
    match best_variant_index(vs.as_slice(), budget) {
        Some(i) => Ok(i),
        None => {
            let mut s = "no quantization of `".to_owned();
            s.append(m.name.as_str());
            s.append("` fits this machine (");
            s.append(gib(budget.ram_total_bytes).as_str());
            s.append(" RAM); try a smaller model from `paddock fit`");
            Err(PaddockError::Other(s))
        },
    }
}

fn quants_of(m: &CatalogModel) -> (r: Vec<String>)
    ensures
        r.deep_view() == quants(m@),
{
    let mut r: Vec<String> = Vec::new();
    let n: usize = m.variants.len();
    for i in 0..n
        invariant
            n == m.variants@.len(),
            r@.len() == i,
            forall|j: int| 0 <= j < i ==> (#[trigger] r@[j])@ == m.variants@[j]@.quant,
    {
        r.push(m.variants[i].quant.clone());
    }
    assert(r.deep_view() =~= quants(m@));
    r
}

/// The model and the variant that a launch is for.
pub enum Resolved<'a> {
    Chosen(&'a CatalogModel, usize),
    /// The name stands for several models: the lines to show.
    Ambiguous(Vec<String>),
    Failed(PaddockError),
}

pub open spec fn candidate_lines(query: Seq<char>, names: Seq<Seq<char>>) -> Seq<Seq<char>> {
    seq!["model name `"@ + query + "` is ambiguous — candidates:"@] + names.map_values(
        |n: Seq<char>| "  "@ + n,
    )
}

/// Whether this is the answer to a request to launch a model of this name.
pub open spec fn resolves(
    r: Resolved,
    found: Find,
    query: Seq<char>,
    quant: Option<Seq<char>>,
    budget: MemoryBudget,
) -> bool {
    match found {
        Find::NotFound => r matches Resolved::Failed(e) && e@ == Failure::ModelNotFound(query),
        Find::Ambiguous(names) => r matches Resolved::Ambiguous(lines) && lines.deep_view()
            == candidate_lines(query, names),
        Find::Found(m) => match choice_failure(m, quant, budget) {
            Some(f) => r matches Resolved::Failed(e) && e@ == f,
            None => r matches Resolved::Chosen(c, i) && c@ == m && is_choice(
                m,
                quant,
                budget,
                i as int,
            ),
        },
    }
}

/// The model that a name stands for, and the variant of it to launch.
pub fn resolve_found<'a>(
    found: Lookup<'a>,
    query: &str,
    quant: Option<&str>,
    budget: &MemoryBudget,
) -> (r: Resolved<'a>)
    ensures
        resolves(r, found@, query@, text_view(quant), *budget),
{
    match found {
        Lookup::NotFound => Resolved::Failed(PaddockError::ModelNotFound(query.to_owned())),
        Lookup::Ambiguous(names) => {
            let mut lines: Vec<String> = Vec::new();
            let mut s = "model name `".to_owned();
            s.append(query);
            s.append("` is ambiguous — candidates:");
            lines.push(s);
            let n: usize = names.len();
            for i in 0..n
                invariant
                    n == names@.len(),
                    lines@.len() == i + 1,
                    lines@[0]@ == "model name `"@ + query@ + "` is ambiguous — candidates:"@,
                    forall|j: int| 0 <= j < i ==> (#[trigger] lines@[j + 1])@ == "  "@ + names@[j]@,
            {
                let mut line = "  ".to_owned();
                line.append(names[i]);
                lines.push(line);
            }
            proof {
                let want = candidate_lines(query@, texts(names@));
                assert forall|k: int| 0 <= k < lines@.len() implies (#[trigger] lines@[k])@
                    == want[k] by {
                    if k > 0 {
                        let j = k - 1;
                        assert(lines@[j + 1]@ == "  "@ + names@[j]@);
                    }
                }
                assert(lines.deep_view() =~= want);
            }
            Resolved::Ambiguous(lines)
        },
        Lookup::Found(m) => match choose_variant(m, quant, budget) {
            Ok(i) => Resolved::Chosen(m, i),
            Err(e) => Resolved::Failed(e),
        },
    }
}

/// The model that a name stands for, and the variant of it to launch.
pub fn resolve_model<'a>(
    models: &'a [CatalogModel],
    query: &str,
    quant: Option<&str>,
    budget: &MemoryBudget,
) -> (r: Resolved<'a>)
    ensures
        resolves(
            r,
            lookup(
                models.deep_view(),
                low_names_of(models.deep_view()),
                query@,
                lowercase(query@),
            ),
            query@,
            text_view(quant),
            *budget,
        ),
{
    resolve_found(find_model(models, query), query, quant, budget)
}

/// A quantization that is asked for is launched whether it fits or not.
pub proof fn asked_quant_needs_no_memory(
    m: Model,
    quant: Seq<char>,
    a: MemoryBudget,
    b: MemoryBudget,
)
    ensures
        choice_failure(m, Some(quant), a) == choice_failure(m, Some(quant), b),
        forall|i: int|
            is_choice(m, Some(quant), a, i) == #[trigger] is_choice(m, Some(quant), b, i),
{
}

// ---------------------------------------------------------------------------
// Questions
// ---------------------------------------------------------------------------

/// Whether an answer agrees to an install: `y` or `yes`, whatever their case.
pub fn agrees_to_install(answer: &str) -> (r: bool)
    ensures
        r == agrees(answer@),
{
    let t = trimmed(&chars_of(answer));
    let yes_low: bool = eq_ignore_ascii_case(&t, &chars_of("yes"));
    let y_low: bool = eq_ignore_ascii_case(&t, &chars_of("y"));
    proof {
        reveal_strlit("y");
        reveal_strlit("yes");
        assert(ascii_lower("y"@) =~= "y"@);
        assert(ascii_lower("yes"@) =~= "yes"@);
    }
    y_low || yes_low
}

/// Where to get a program that installs others.
pub open spec fn missing_hint(bin: Seq<char>) -> Seq<char> {
    if bin == "brew"@ {
        "brew not found — install Homebrew from https://brew.sh first"@
    } else if bin == "uv"@ {
        "uv not found — install uv from https://docs.astral.sh/uv first"@
    } else {
        bin + " not found — install it and make sure it is in PATH first"@
    }
}

/// Where to get a program that installs others.
pub fn installer_missing_hint(bin: &str) -> (r: String)
    ensures
        r@ == missing_hint(bin@),
{
    if same(bin, "brew") {
        "brew not found — install Homebrew from https://brew.sh first".to_owned()
    } else if same(bin, "uv") {
        "uv not found — install uv from https://docs.astral.sh/uv first".to_owned()
    } else {
        let mut s = bin.to_owned();
        s.append(" not found — install it and make sure it is in PATH first");
        s
    }
}

/// What came of the last step of an install.
#[derive(Debug)]
pub enum InstallEvent {
    /// Whether there is a terminal to ask at.
    Terminal(bool),
    /// What the user answered.
    Answer(String),
    /// Whether the installer was found.
    Found(bool),
    /// How the installer ended: `None` if well.
    Exited(Option<String>),
}

/// What to do next for an install.
#[derive(Debug)]
pub enum InstallStep {
    Ask(String),
    /// Look for the installer.
    Look(String),
    Run(Vec<String>),
    Done,
    /// Tell why nothing was installed, and stop.
    Stop(String),
}

/// `InstallStep` without its storage.
pub ghost enum Installing {
    Ask(Seq<char>),
    Look(Seq<char>),
    Run(Seq<Seq<char>>),
    Done,
    Stop(Seq<char>),
}

impl View for InstallStep {
    type V = Installing;

    open spec fn view(&self) -> Installing {
        match *self {
            InstallStep::Ask(s) => Installing::Ask(s@),
            InstallStep::Look(s) => Installing::Look(s@),
            InstallStep::Run(argv) => Installing::Run(argv.deep_view()),
            InstallStep::Done => Installing::Done,
            InstallStep::Stop(s) => Installing::Stop(s@),
        }
    }
}

/// Whether an answer agrees to an install.
pub open spec fn agrees(answer: Seq<char>) -> bool {
    ascii_lower(trim(answer)) == "y"@ || ascii_lower(trim(answer)) == "yes"@
}

/// Only an answer that begins with a `y`, large or small, agrees; to say
/// nothing does not.
pub proof fn agreement_is_spoken(answer: Seq<char>)
    requires
        agrees(answer),
    ensures
        trim(answer).len() > 0,
        trim(answer)[0] == 'y' || trim(answer)[0] == 'Y',
        trim(answer).len() == 1 || trim(answer).len() == 3,
{
    reveal_strlit("y");
    reveal_strlit("yes");
    let t = trim(answer);
    assert(ascii_lower(t).len() == t.len());
    assert(ascii_lower(t)[0] == 'y');
    assert(crate::text::lower_char(t[0]) == 'y');
}

/// What to do next for an install.
pub open spec fn installing(argv: Seq<Seq<char>>, e: InstallEvent) -> Installing {
    let cmd = joined(argv, " "@);
    match e {
        InstallEvent::Terminal(false) => Installing::Stop(
            "required runtime is not installed and stdin is not a terminal — re-run interactively to confirm install (`"@
                + cmd + "`)."@,
        ),
        InstallEvent::Terminal(true) => Installing::Ask(
            "required runtime is not installed. install with `"@ + cmd + "`? [y/N] "@,
        ),
        InstallEvent::Answer(a) => if agrees(a@) {
            Installing::Look(argv[0])
        } else {
            Installing::Stop(
                "install declined — nothing launched. Run `"@ + cmd + "` yourself, then retry."@,
            )
        },
        InstallEvent::Found(true) => Installing::Run(argv),
        InstallEvent::Found(false) => Installing::Stop(missing_hint(argv[0])),
        InstallEvent::Exited(None) => Installing::Done,
        InstallEvent::Exited(Some(status)) => Installing::Stop(
            "`"@ + cmd + "` failed ("@ + status@ + "); fix the install and retry"@,
        ),
    }
}

/// What to do next for an install. Nothing is run before the user agreed.
pub fn install_step(plan: &InstallPlan, e: &InstallEvent) -> (r: InstallStep)
    requires
        plan.argv@.len() > 0,
    ensures
        r@ == installing(plan@.argv, *e),
{
    let cmd = join(&plan.argv, " ");
    assert(plan.argv.deep_view()[0] == plan.argv@[0]@);
    match e {
        InstallEvent::Terminal(there) => {
            if *there {
                let mut s = "required runtime is not installed. install with `".to_owned();
                s.append(cmd.as_str());
                s.append("`? [y/N] ");
                InstallStep::Ask(s)
            } else {
                let mut s =
                    "required runtime is not installed and stdin is not a terminal — re-run interactively to confirm install (`".to_owned();
                s.append(cmd.as_str());
                s.append("`).");
                InstallStep::Stop(s)
            }
        },
        InstallEvent::Answer(a) => {
            if agrees_to_install(a.as_str()) {
                InstallStep::Look(plan.argv[0].clone())
            } else {
                let mut s = "install declined — nothing launched. Run `".to_owned();
                s.append(cmd.as_str());
                s.append("` yourself, then retry.");
                InstallStep::Stop(s)
            }
        },
        InstallEvent::Found(found) => {
            if *found {
                InstallStep::Run(clone_strings(&plan.argv))
            } else {
                InstallStep::Stop(installer_missing_hint(plan.argv[0].as_str()))
            }
        },
        InstallEvent::Exited(failure) => match failure {
            None => InstallStep::Done,
            Some(status) => {
                let mut s = "`".to_owned();
                s.append(cmd.as_str());
                s.append("` failed (");
                s.append(status.as_str());
                s.append("); fix the install and retry");
                InstallStep::Stop(s)
            },
        },
    }
}

/// The installer is looked for only after the user agreed.
pub proof fn install_needs_consent(argv: Seq<Seq<char>>, e: InstallEvent)
    ensures
        installing(argv, e) is Look ==> (e matches InstallEvent::Answer(a) && agrees(a@)),
        installing(argv, e) is Run ==> e == InstallEvent::Found(true),
{
}

// ---------------------------------------------------------------------------
// Waiting for a server
// ---------------------------------------------------------------------------

/// Seconds to wait for a server. One that we started may be downloading its
/// model, so it has all the time; a daemon is expected to be up.
pub fn readiness_deadline(child_spawned: bool) -> (r: Option<u64>)
    ensures
        r == if child_spawned {
            None
        } else {
            Some(3u64)
        },
{
    if child_spawned {
        None
    } else {
        Some(3)
    }
}

/// The server ended before it answered.
pub fn exited_message(status: &str, argv: &Vec<String>) -> (r: String)
    ensures
        r@ == "server exited with "@ + status@ + " before becoming ready — run `"@ + joined(
            argv.deep_view(),
            " "@,
        ) + "` manually to see the error"@,
{
    let mut s = "server exited with ".to_owned();
    s.append(status);
    s.append(" before becoming ready — run `");
    s.append(join(argv, " ").as_str());
    s.append("` manually to see the error");
    s
}

/// What is known while a server is waited for.
#[derive(Debug, Clone, Copy, PartialEq, Eq, Structural)]
pub struct Waiting {
    pub child_spawned: bool,
    /// The user was told that it may take a while.
    pub notified: bool,
    /// Seconds after which the user is told again that it still takes.
    pub next_heartbeat: u64,
}

/// What one look at the server tells.
#[derive(Debug, Clone, Copy, PartialEq, Eq, Structural)]
pub struct Look {
    pub answers: bool,
    /// The process that we started is gone.
    pub exited: bool,
    /// Milliseconds waited so far.
    pub elapsed_ms: u64,
}

/// What to do after a look.
#[derive(Debug, Clone, Copy, PartialEq, Eq, Structural)]
pub enum WaitStep {
    Ready,
    /// The process ended before it was ready.
    FailExited,
    /// The daemon did not answer in time.
    FailUnreachable,
    /// Tell what is due, then look again.
    Again { notify: bool, heartbeat: bool },
}

impl Waiting {
    pub fn new(child_spawned: bool) -> (r: Waiting)
        ensures
            r == (Waiting { child_spawned, notified: false, next_heartbeat: 60 }),
    {
        Waiting { child_spawned, notified: false, next_heartbeat: 60 }
    }

    /// What to do after a look: the user is told once after five seconds, and
    /// every minute from the first on.
    pub fn step(&mut self, look: Look) -> (r: WaitStep)
        requires
            old(self).next_heartbeat <= u64::MAX / 2,
        ensures
            final(self).child_spawned == old(self).child_spawned,
            look.answers <==> r is Ready,
            r is FailExited <==> !look.answers && old(self).child_spawned && look.exited,
            r is FailUnreachable <==> !look.answers && !old(self).child_spawned && look.elapsed_ms
                >= 3_000,
            r matches WaitStep::Again { notify, heartbeat } ==> {
                &&& notify == (!old(self).notified && look.elapsed_ms >= 5_000)
                &&& heartbeat == (look.elapsed_ms / 1_000 >= old(self).next_heartbeat)
                &&& final(self).notified == (old(self).notified || notify)
                &&& final(self).next_heartbeat == if heartbeat {
                    old(self).next_heartbeat + 60
                } else {
                    old(self).next_heartbeat as int
                }
            },
            !(r is Again) ==> *final(self) == *old(self),
    {
        if look.answers {
            return WaitStep::Ready;
        }
        if self.child_spawned && look.exited {
            return WaitStep::FailExited;
        }
        if let Some(limit) = readiness_deadline(self.child_spawned) {
            if look.elapsed_ms >= limit * 1_000 {
                return WaitStep::FailUnreachable;
            }
        }
        let notify = !self.notified && look.elapsed_ms >= 5_000;
        if notify {
            self.notified = true;
        }
        let heartbeat = look.elapsed_ms / 1_000 >= self.next_heartbeat;
        if heartbeat {
            self.next_heartbeat = self.next_heartbeat + 60;
        }
        WaitStep::Again { notify, heartbeat }
    }
}

// ---------------------------------------------------------------------------
// Serving
// ---------------------------------------------------------------------------

/// What a plan to serve asks for next.
#[derive(Debug)]
pub enum ServeStep {
    /// Say that the port is ignored.
    WarnPort,
    /// Ask the user, then install.
    Install(InstallPlan),
    /// Start the server, attached or not.
    Spawn { argv: Vec<String>, detached: bool },
    /// Wait until the server answers.
    Await { url: String },
    /// Run a command to its end.
    Run(Vec<String>),
    /// Load the model; a failure only means that the first request waits.
    WarmUp(String),
    /// Tell where the server answers.
    ShowEndpoint,
    /// Note the server and stay with it.
    Attend,
    /// Note the server and leave it.
    Detach,
    /// Stop the server that was started.
    Kill,
    Finish,
    /// Report the failure.
    Fail,
}

/// `ServeStep` without its storage.
pub ghost enum Step {
    WarnPort,
    Install(Install),
    Spawn(Seq<Seq<char>>, bool),
    Await(Seq<char>),
    Run(Seq<Seq<char>>),
    WarmUp(Seq<char>),
    ShowEndpoint,
    Attend,
    Detach,
    Kill,
    Finish,
    Fail,
}

impl View for ServeStep {
    type V = Step;

    open spec fn view(&self) -> Step {
        match *self {
            ServeStep::WarnPort => Step::WarnPort,
            ServeStep::Install(p) => Step::Install(p@),
            ServeStep::Spawn { argv, detached } => Step::Spawn(argv.deep_view(), detached),
            ServeStep::Await { url } => Step::Await(url@),
            ServeStep::Run(argv) => Step::Run(argv.deep_view()),
            ServeStep::WarmUp(m) => Step::WarmUp(m@),
            ServeStep::ShowEndpoint => Step::ShowEndpoint,
            ServeStep::Attend => Step::Attend,
            ServeStep::Detach => Step::Detach,
            ServeStep::Kill => Step::Kill,
            ServeStep::Finish => Step::Finish,
            ServeStep::Fail => Step::Fail,
        }
    }
}

/// How far a plan to serve has come.
#[derive(Debug, Clone, Copy, PartialEq, Eq, Structural)]
pub enum Phase {
    Start,
    Warned,
    Installed,
    Spawned,
    /// The server answers; so many of the commands have run.
    Ready(usize),
    Loaded,
    Shown,
    Left,
    Failed,
}

/// A plan to serve on its way.
pub struct ServeFlow {
    pub plan: ServePlan,
    pub foreground: bool,
    pub phase: Phase,
    /// A server of our own was started and not stopped.
    pub child: bool,
}

/// `ServeFlow` without its storage.
pub ghost struct Flow {
    pub plan: Serve,
    pub foreground: bool,
    pub phase: Phase,
    pub child: bool,
}

impl View for ServeFlow {
    type V = Flow;

    open spec fn view(&self) -> Flow {
        Flow {
            plan: self.plan@,
            foreground: self.foreground,
            phase: self.phase,
            child: self.child,
        }
    }
}

/// What follows a failure: a server that was started is stopped first.
pub open spec fn failing(f: Flow) -> (Flow, Step) {
    if f.child {
        (Flow { phase: Phase::Failed, child: false, ..f }, Step::Kill)
    } else {
        (Flow { phase: Phase::Failed, ..f }, Step::Fail)
    }
}

/// From the moment that the runtime is there.
pub open spec fn from_installed(f: Flow) -> (Flow, Step) {
    match f.plan.server_argv {
        Some(argv) => (
            Flow { phase: Phase::Spawned, child: true, ..f },
            Step::Spawn(argv, !f.foreground),
        ),
        None => from_spawned(f),
    }
}

/// From the moment that the server was started, or needs no start.
pub open spec fn from_spawned(f: Flow) -> (Flow, Step) {
    (Flow { phase: Phase::Ready(0), ..f }, Step::Await(f.plan.endpoint + f.plan.ready_path))
}

/// From the moment that the server answers and `i` commands have run.
pub open spec fn from_ready(f: Flow, i: int) -> (Flow, Step) {
    if 0 <= i < f.plan.pre_steps.len() {
        (Flow { phase: Phase::Ready((i + 1) as usize), ..f }, Step::Run(f.plan.pre_steps[i]))
    } else if f.plan.runtime == RuntimeKind::Ollama {
        (Flow { phase: Phase::Loaded, ..f }, Step::WarmUp(f.plan.model_ref))
    } else {
        (Flow { phase: Phase::Shown, ..f }, Step::ShowEndpoint)
    }
}

/// The next step, given whether the last one succeeded.
pub open spec fn next_step(f: Flow, ok: bool) -> (Flow, Step) {
    match f.phase {
        Phase::Start => if f.plan.port_ignored {
            (Flow { phase: Phase::Warned, ..f }, Step::WarnPort)
        } else {
            from_warned(f)
        },
        Phase::Warned => from_warned(f),
        Phase::Installed => if ok {
            from_installed(f)
        } else {
            failing(f)
        },
        // The start itself may have failed: then there is nothing to stop.
        Phase::Spawned => if ok {
            from_spawned(f)
        } else {
            failing(Flow { child: false, ..f })
        },
        Phase::Ready(i) => if ok {
            from_ready(f, i as int)
        } else {
            failing(f)
        },
        // Warming up is a courtesy.
        Phase::Loaded => (Flow { phase: Phase::Shown, ..f }, Step::ShowEndpoint),
        Phase::Shown => if !f.child {
            (Flow { phase: Phase::Left, ..f }, Step::Finish)
        } else if f.foreground {
            (Flow { phase: Phase::Left, ..f }, Step::Attend)
        } else {
            (Flow { phase: Phase::Left, ..f }, Step::Detach)
        },
        // A server that was attended has ended by itself.
        Phase::Left => if ok {
            (f, Step::Finish)
        } else {
            (Flow { phase: Phase::Failed, child: false, ..f }, Step::Fail)
        },
        Phase::Failed => (f, Step::Fail),
    }
}

/// From the moment that an ignored port was told.
pub open spec fn from_warned(f: Flow) -> (Flow, Step) {
    match f.plan.install {
        Some(p) => (Flow { phase: Phase::Installed, ..f }, Step::Install(p)),
        None => from_installed(f),
    }
}

/// Every step is the one that the plan speaks of: the server started is the
/// plan's, detached exactly if it does not run in the foreground; what is waited
/// for is the plan's endpoint; what is installed is what the plan misses; only
/// Ollama is warmed up, with the plan's model; and only a server that was
/// started is attended, left or killed.
pub proof fn steps_follow_the_plan(f: Flow, ok: bool)
    ensures
        ({
            let (g, s) = next_step(f, ok);
            &&& g.plan == f.plan && g.foreground == f.foreground
            &&& match s {
                Step::WarnPort => f.plan.port_ignored && f.phase is Start,
                Step::Install(p) => f.plan.install == Some(p),
                Step::Spawn(argv, detached) => {
                    &&& f.plan.server_argv == Some(argv)
                    &&& detached != f.foreground
                    &&& g.child
                },
                Step::Await(url) => url == f.plan.endpoint + f.plan.ready_path,
                Step::Run(argv) => f.plan.pre_steps.contains(argv) && ok,
                Step::WarmUp(model) => model == f.plan.model_ref && f.plan.runtime
                    == RuntimeKind::Ollama && ok,
                Step::ShowEndpoint => f.phase is Loaded || (f.phase is Ready && ok),
                Step::Attend => f.child && f.foreground && f.phase is Shown,
                Step::Detach => f.child && !f.foreground && f.phase is Shown,
                Step::Kill => f.child && !ok && !g.child,
                Step::Finish => f.phase is Left || (f.phase is Shown && !f.child),
                Step::Fail => f.phase is Failed || !ok,
            }
        }),
{
    if f.phase is Ready {
        let i = f.phase->Ready_0 as int;
        if 0 <= i < f.plan.pre_steps.len() {
            assert(f.plan.pre_steps.contains(f.plan.pre_steps[i]));
        }
    }
}

fn url_of(a: &str, b: &str) -> (r: String)
    ensures
        r@ == a@ + b@,
{
    let mut s = a.to_owned();
    s.append(b);
    s
}

impl ServeFlow {
    pub fn new(plan: ServePlan, foreground: bool) -> (r: ServeFlow)
        ensures
            r@ == (Flow { plan: plan@, foreground, phase: Phase::Start, child: false }),
    {
        ServeFlow { plan, foreground, phase: Phase::Start, child: false }
    }

    fn fail(&mut self) -> (r: ServeStep)
        ensures
            (final(self)@, r@) == failing(old(self)@),
    {
        self.phase = Phase::Failed;
        if self.child {
            self.child = false;
            ServeStep::Kill
        } else {
            ServeStep::Fail
        }
    }

    fn after_spawn(&mut self) -> (r: ServeStep)
        ensures
            (final(self)@, r@) == from_spawned(old(self)@),
    {
        self.phase = Phase::Ready(0);
        ServeStep::Await {
            url: url_of(self.plan.endpoint.as_str(), self.plan.ready_path.as_str()),
        }
    }

    fn after_install(&mut self) -> (r: ServeStep)
        ensures
            (final(self)@, r@) == from_installed(old(self)@),
    {
        let argv: Option<Vec<String>> = match &self.plan.server_argv {
            Some(a) => Some(clone_strings(a)),
            None => None,
        };
        match argv {
            Some(argv) => {
                self.phase = Phase::Spawned;
                self.child = true;
                ServeStep::Spawn { argv, detached: !self.foreground }
            },
            None => self.after_spawn(),
        }
    }

    fn after_warning(&mut self) -> (r: ServeStep)
        ensures
            (final(self)@, r@) == from_warned(old(self)@),
    {
        let install: Option<InstallPlan> = match &self.plan.install {
            Some(p) => Some(p.clone()),
            None => None,
        };
        match install {
            Some(p) => {
                self.phase = Phase::Installed;
                ServeStep::Install(p)
            },
            None => self.after_install(),
        }
    }

    fn after_ready(&mut self, i: usize) -> (r: ServeStep)
        ensures
            (final(self)@, r@) == from_ready(old(self)@, i as int),
    {
        if i < self.plan.pre_steps.len() {
            let argv = clone_strings(&self.plan.pre_steps[i]);
            assert(self@.plan.pre_steps[i as int] == argv.deep_view());
            self.phase = Phase::Ready(i + 1);
            ServeStep::Run(argv)
        } else if self.plan.runtime == RuntimeKind::Ollama {
            self.phase = Phase::Loaded;
            ServeStep::WarmUp(self.plan.model_ref.clone())
        } else {
            self.phase = Phase::Shown;
            ServeStep::ShowEndpoint
        }
    }

    /// The next step, given whether the last one succeeded.
    pub fn next(&mut self, ok: bool) -> (r: ServeStep)
        ensures
            (final(self)@, r@) == next_step(old(self)@, ok),
    {
        match self.phase {
            Phase::Start => {
                if self.plan.port_ignored {
                    self.phase = Phase::Warned;
                    ServeStep::WarnPort
                } else {
                    self.after_warning()
                }
            },
            Phase::Warned => self.after_warning(),
            Phase::Installed => {
                if ok {
                    self.after_install()
                } else {
                    self.fail()
                }
            },
            Phase::Spawned => {
                if ok {
                    self.after_spawn()
                } else {
                    self.child = false;
                    self.fail()
                }
            },
            Phase::Ready(i) => {
                if ok {
                    self.after_ready(i)
                } else {
                    self.fail()
                }
            },
            Phase::Loaded => {
                self.phase = Phase::Shown;
                ServeStep::ShowEndpoint
            },
            Phase::Shown => {
                self.phase = Phase::Left;
                if !self.child {
                    ServeStep::Finish
                } else if self.foreground {
                    ServeStep::Attend
                } else {
                    ServeStep::Detach
                }
            },
            Phase::Left => {
                if ok {
                    ServeStep::Finish
                } else {
                    self.phase = Phase::Failed;
                    self.child = false;
                    ServeStep::Fail
                }
            },
            Phase::Failed => ServeStep::Fail,
        }
    }
}

/// What holds of every flow: a server of our own is one that the plan starts,
/// and no more commands have run than there are.
pub open spec fn flow_wf(f: Flow) -> bool {
    &&& f.child ==> f.plan.server_argv is Some && !(f.phase is Start || f.phase is Warned
        || f.phase is Installed || f.phase is Failed)
    &&& f.phase matches Phase::Ready(i) ==> i <= f.plan.pre_steps.len()
}

/// How many steps are left at most.
pub open spec fn steps_left(f: Flow) -> nat {
    let n = f.plan.pre_steps.len();
    match f.phase {
        Phase::Start => n + 9,
        Phase::Warned => n + 8,
        Phase::Installed => n + 7,
        Phase::Spawned => n + 6,
        Phase::Ready(i) => if i <= n {
            (n - i + 5) as nat
        } else {
            0
        },
        Phase::Loaded => 4,
        Phase::Shown => 3,
        Phase::Left => 2,
        Phase::Failed => 1,
    }
}

/// Every flow comes to its end, keeps what holds of every flow, and fails only
/// with no server left behind.
pub proof fn every_flow_ends(f: Flow, ok: bool)
    requires
        flow_wf(f),
        f.plan.pre_steps.len() < usize::MAX,
    ensures
        ({
            let (g, step) = next_step(f, ok);
            &&& flow_wf(g)
            &&& g.plan == f.plan
            &&& step == Step::Finish || step == Step::Fail || steps_left(g) < steps_left(f)
            &&& step == Step::Fail ==> !g.child
        }),
{
}

/// A failure before the endpoint is shown never leaves a server behind: one
/// that was started is stopped before the failure is reported.
pub proof fn failure_leaves_no_server(f: Flow)
    requires
        f.phase is Installed || f.phase is Ready,
    ensures
        ({
            let (g, step) = next_step(f, false);
            &&& f.child ==> step == Step::Kill && next_step(g, true).1 == Step::Fail
            &&& !f.child ==> step == Step::Fail
            &&& !g.child
        }),
{
}

/// Nothing is installed but what the plan proposes, and nothing is started
/// before that was done.
pub proof fn install_comes_first(f: Flow, ok: bool)
    requires
        f.phase is Start || f.phase is Warned,
        f.plan.install is Some,
    ensures
        ({
            let (g, step) = next_step(f, ok);
            step == Step::WarnPort || step == Step::Install(f.plan.install->Some_0)
        }),
{
}

/// The commands of a plan run only once the server answers, in their order.
pub proof fn commands_run_in_order(f: Flow, ok: bool)
    ensures
        next_step(f, ok).1 matches Step::Run(argv) ==> {
            &&& ok
            &&& f.phase matches Phase::Ready(i) && i < f.plan.pre_steps.len()
                && f.plan.pre_steps[i as int] == argv
        },
{
}

/// Whether the catalog is to be synced when the interface opens: it is empty,
/// was never synced, or was synced more than a day ago.
pub fn needs_sync(last_sync: Option<i64>, now: i64, catalog_empty: bool) -> (r: bool)
    requires
        last_sync matches Some(t) ==> i64::MIN <= now - t <= i64::MAX,
    ensures
        r == (catalog_empty || match last_sync {
            Some(t) => now - t > 86_400,
            None => true,
        }),
{
    let stale = match last_sync {
        Some(t) => now - t > 86_400,
        None => true,
    };
    stale || catalog_empty
}

} // verus!
