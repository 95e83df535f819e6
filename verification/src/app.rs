//! Rows of the ranking: each model with the variant picked for this machine,
//! its estimates and its score.

use vstd::arithmetic::power2::pow2;
use vstd::prelude::*;

use crate::catalog::{model_figures, CatalogModel, Model};
use crate::double::less;
use crate::estimate::{
    estimate_memory, estimate_speed_calibrated, generation_tps, is_speed, kv_bytes, memory_of,
    rung, share_of, verdict_of, Figures, FitVerdict, MemoryBudget, MemoryEstimate, SpeedCalibration, SpeedEstimate,
    DEFAULT_CONTEXT,
};
use crate::hardware::runtimes::Runtimes;
use crate::hardware::{profile_of, HardwareProfile, Profile};
use crate::rounding::{at_most, scaled_keeps_order};
use crate::score::{
    is_best, is_smallest_variant, pick_variant, picked_fits_no_worse, variant_rung, Score,
};

verus! {

/// A model in the ranking.
#[derive(Debug)]
pub struct ScoredModel {
    pub model: CatalogModel,
    /// The variant picked, a position in the model's variants.
    pub variant_idx: usize,
    pub memory: MemoryEstimate,
    pub speed: SpeedEstimate,
    pub score: Score,
}

/// `ScoredModel` without its storage.
pub ghost struct Ranked {
    pub model: Model,
    pub variant_idx: usize,
    pub memory: MemoryEstimate,
    pub speed: SpeedEstimate,
    pub score: Score,
}

impl View for ScoredModel {
    type V = Ranked;

    open spec fn view(&self) -> Ranked {
        Ranked {
            model: self.model@,
            variant_idx: self.variant_idx,
            memory: self.memory,
            speed: self.speed,
            score: self.score,
        }
    }
}

impl DeepView for ScoredModel {
    type V = Ranked;

    open spec fn deep_view(&self) -> Ranked {
        self@
    }
}

impl Clone for ScoredModel {
    fn clone(&self) -> (r: ScoredModel)
        ensures
            r@ == self@,
    {
        ScoredModel {
            model: self.model.clone(),
            variant_idx: self.variant_idx,
            memory: self.memory,
            speed: self.speed,
            score: self.score,
        }
    }
}

pub open spec fn score_wf(s: Score) -> bool {
    s.total.wf() && s.fit.wf() && s.speed.wf() && s.quality.wf() && s.context.wf()
}

/// A row that can be shown: its variant exists, and its numbers are numbers.
pub open spec fn row_wf(r: Ranked) -> bool {
    &&& r.variant_idx < r.model.variants.len()
    &&& r.speed.generation_tps.wf()
    &&& r.speed.prompt_tps_range.0.wf()
    &&& r.speed.prompt_tps_range.1.wf()
    &&& score_wf(r.score)
}

/// Every row can be shown.
pub open spec fn rows_wf(rows: Seq<Ranked>) -> bool {
    forall|i: int| 0 <= i < rows.len() ==> row_wf(#[trigger] rows[i])
}

pub fn clone_rows(rows: &Vec<ScoredModel>) -> (r: Vec<ScoredModel>)
    ensures
        r.deep_view() == rows.deep_view(),
{
    let mut out: Vec<ScoredModel> = Vec::new();
    for i in 0..rows.len()
        invariant
            out@.len() == i,
            forall|j: int| 0 <= j < i ==> (#[trigger] out@[j])@ == rows@[j]@,
    {
        out.push(rows[i].clone());
    }
    assert(out.deep_view() =~= rows.deep_view());
    out
}

/// The memory budget of a machine: what its GPU may take, and all its memory.
pub open spec fn budget_in(p: Profile) -> MemoryBudget {
    MemoryBudget {
        gpu_effective_bytes: p.gpu.effective_limit_bytes,
        ram_total_bytes: p.ram_total_bytes,
    }
}

/// A model that takes no more than the GPU of the machine says it may take fits
/// it; one that takes more than the machine's memory does not, where the GPU says
/// no more than that; and without a word of the GPU's, nor a limit set, what
/// takes more than three quarters of the memory does not fit the GPU.
pub proof fn machine_decides_what_fits(
    brand: Option<Seq<char>>,
    memory: Option<u64>,
    perf_cores: Option<u64>,
    efficiency_cores: Option<u64>,
    working_set: Option<u64>,
    wired_limit_mb: Option<u64>,
    runtimes: Runtimes,
    total: nat,
)
    ensures
        ({
            let p = profile_of(
                brand,
                memory,
                perf_cores,
                efficiency_cores,
                working_set,
                wired_limit_mb,
                runtimes,
            );
            let verdict = verdict_of(total, budget_in(p));
            &&& working_set is Some ==> (verdict == FitVerdict::FitsGpu <==> total
                <= working_set->Some_0)
            &&& working_set is Some && memory is Some && working_set->Some_0 <= memory->Some_0 ==> (
            verdict == FitVerdict::DoesNotFit <==> total > memory->Some_0)
            &&& working_set is None && wired_limit_mb is None && memory is Some && 4 * total > 3
                * memory->Some_0 ==> verdict != FitVerdict::FitsGpu
            &&& working_set is None && wired_limit_mb is None && memory is Some && 4 * total + 4 <= 3
                * memory->Some_0 ==> verdict == FitVerdict::FitsGpu
        }),
{
}

/// The memory budget of a machine.
pub fn budget_of(p: &HardwareProfile) -> (r: MemoryBudget)
    ensures
        r == budget_in(p@),
        r.gpu_effective_bytes == p.gpu.effective_limit_bytes,
        r.ram_total_bytes == p.ram_total_bytes,
{
    MemoryBudget {
        gpu_effective_bytes: p.gpu.effective_limit_bytes,
        ram_total_bytes: p.ram_total_bytes,
    }
}

/// A model with the variant picked for this machine and its estimates.
#[derive(Debug, Clone, Copy)]
pub struct Estimates {
    pub variant_idx: usize,
    pub memory: MemoryEstimate,
    pub speed: SpeedEstimate,
}

/// Variant `i` is the one to show for a model: the best that fits; where none
/// does and such models are wanted, the one with the fewest bits per weight.
pub open spec fn is_pick(m: Model, budget: MemoryBudget, include_unfit: bool, i: int) -> bool {
    let figs = model_figures(m);
    is_best(figs, budget, i) || (none_fits(figs, budget) && include_unfit && is_smallest_variant(
        figs,
        i,
    ))
}

pub open spec fn none_fits(figs: Seq<Figures>, budget: MemoryBudget) -> bool {
    forall|j: int| 0 <= j < figs.len() ==> variant_rung(#[trigger] figs[j], budget) == 3
}

/// Whether these are the estimates for a model: of the variant to show, with
/// the default context; none if there is no variant to show.
pub open spec fn is_estimated(
    m: Model,
    budget: MemoryBudget,
    bandwidth: u32,
    calibration: SpeedCalibration,
    include_unfit: bool,
    r: Option<Estimates>,
) -> bool {
    match r {
        Some(e) => {
            let v = model_figures(m)[e.variant_idx as int];
            &&& is_pick(m, budget, include_unfit, e.variant_idx as int)
            &&& e.memory == memory_of(v, DEFAULT_CONTEXT as nat, budget)
            &&& is_speed(
                e.speed,
                generation_tps(
                    v,
                    bandwidth,
                    kv_bytes(v, DEFAULT_CONTEXT as nat),
                    share_of(calibration, v)@,
                ),
            )
        },
        None => none_fits(model_figures(m), budget) && (!include_unfit || m.variants.len() == 0),
    }
}

/// The estimates for a model: of the variant to show, with the default
/// context. `None` if there is no variant to show.
pub fn estimates(
    m: &CatalogModel,
    budget: &MemoryBudget,
    bandwidth: u32,
    calibration: &SpeedCalibration,
    include_unfit: bool,
) -> (r: Option<Estimates>)
    requires
        calibration.wf(),
    ensures
        is_estimated(m@, *budget, bandwidth, *calibration, include_unfit, r),
{
    let vs = m.model_variants();
    let ghost figs = model_figures(m@);
    match pick_variant(vs.as_slice(), budget, include_unfit) {
        Some(i) => {
            assert(is_pick(m@, *budget, include_unfit, i as int));
            assert(figs[i as int] == vs@[i as int]@);
            let memory = estimate_memory(&vs[i], DEFAULT_CONTEXT, budget);
            let speed = estimate_speed_calibrated(
                &vs[i],
                bandwidth,
                memory.kv_cache_bytes,
                calibration,
            );
            Some(Estimates { variant_idx: i, memory, speed })
        },
        None => {
            assert(figs.len() == m@.variants.len());
            None
        },
    }
}

/// A model to show, with its estimates.
#[derive(Debug)]
pub struct Candidate {
    pub model: CatalogModel,
    pub estimates: Estimates,
}

impl DeepView for Candidate {
    type V = (Model, Estimates);

    open spec fn deep_view(&self) -> (Model, Estimates) {
        (self.model@, self.estimates)
    }
}

/// The models that have estimates, in order.
pub open spec fn with_estimates(models: Seq<Model>, outs: Seq<Option<Estimates>>) -> Seq<
    (Model, Estimates),
>
    decreases models.len(),
{
    if models.len() == 0 || outs.len() != models.len() {
        Seq::empty()
    } else {
        let before = with_estimates(models.drop_last(), outs.drop_last());
        match outs.last() {
            Some(e) => before.push((models.last(), e)),
            None => before,
        }
    }
}

/// Every model with estimates is a candidate with them, and nothing else is.
pub proof fn candidates_are_the_estimated(models: Seq<Model>, outs: Seq<Option<Estimates>>)
    requires
        outs.len() == models.len(),
    ensures
        forall|i: int|
            0 <= i < models.len() && #[trigger] outs[i] is Some ==> with_estimates(
                models,
                outs,
            ).contains((models[i], outs[i]->Some_0)),
        forall|k: int|
            0 <= k < with_estimates(models, outs).len() ==> exists|i: int|
                0 <= i < models.len() && #[trigger] outs[i] == Some(
                    (#[trigger] with_estimates(models, outs)[k]).1,
                ) && models[i] == with_estimates(models, outs)[k].0,
    decreases models.len(),
{
    if models.len() > 0 {
        let (f, a) = (models.drop_last(), outs.drop_last());
        candidates_are_the_estimated(f, a);
        let (before, all) = (with_estimates(f, a), with_estimates(models, outs));
        let n = models.len() - 1;
        assert forall|i: int|
            0 <= i < models.len() && #[trigger] outs[i] is Some implies all.contains(
            (models[i], outs[i]->Some_0),
        ) by {
            if i < n {
                assert(a[i] == outs[i] && f[i] == models[i]);
                let k = choose|k: int|
                    0 <= k < before.len() && before[k] == (f[i], a[i]->Some_0);
                assert(all[k] == before[k]);
            } else {
                assert(all[all.len() - 1] == (models[i], outs[i]->Some_0));
            }
        }
        assert forall|k: int| 0 <= k < all.len() implies exists|i: int|
            0 <= i < models.len() && #[trigger] outs[i] == Some((#[trigger] all[k]).1) && models[i]
                == all[k].0 by {
            if k < before.len() {
                let i = choose|i: int|
                    0 <= i < f.len() && #[trigger] a[i] == Some(before[k].1) && f[i] == before[k].0;
                assert(outs[i] == a[i] && models[i] == f[i] && all[k] == before[k]);
            } else {
                assert(outs[n] == outs.last() && models[n] == models.last());
            }
        }
    }
}

/// The memory of a candidate is that of its variant with the default context,
/// its speed the one with the cache that this context fills; and the variant
/// fits no worse than any other of the model.
pub proof fn estimates_are_those_of_the_variant(
    m: Model,
    budget: MemoryBudget,
    bandwidth: u32,
    calibration: SpeedCalibration,
    include_unfit: bool,
    e: Estimates,
    j: int,
)
    requires
        is_estimated(m, budget, bandwidth, calibration, include_unfit, Some(e)),
        0 <= j < m.variants.len(),
    ensures
        ({
            let figs = model_figures(m);
            let v = figs[e.variant_idx as int];
            &&& e.variant_idx < m.variants.len()
            &&& v.quant == m.variants[e.variant_idx as int].quant
            &&& v.bpw == m.variants[e.variant_idx as int].bpw
            &&& e.memory == memory_of(v, 8192, budget)
            &&& e.speed.generation_tps@ == generation_tps(
                v,
                bandwidth,
                e.memory.kv_cache_bytes,
                share_of(calibration, v)@,
            )
            &&& rung(e.memory.verdict) <= rung(memory_of(figs[j], 8192, budget).verdict)
        }),
{
    let figs = model_figures(m);
    let i = e.variant_idx as int;
    if is_best(figs, budget, i) {
        picked_fits_no_worse(figs, budget, i, j);
    } else {
        assert(variant_rung(figs[i], budget) == 3);
        assert(variant_rung(figs[j], budget) == 3);
    }
}

/// `r` may be the models to show.
pub open spec fn are_candidates(
    models: Seq<Model>,
    budget: MemoryBudget,
    bandwidth: u32,
    calibration: SpeedCalibration,
    include_unfit: bool,
    r: Seq<(Model, Estimates)>,
) -> bool {
    exists|outs: Seq<Option<Estimates>>|
        {
            &&& outs.len() == models.len()
            &&& forall|i: int|
                0 <= i < models.len() ==> is_estimated(
                    models[i],
                    budget,
                    bandwidth,
                    calibration,
                    include_unfit,
                    #[trigger] outs[i],
                )
            &&& r == #[trigger] with_estimates(models, outs)
        }
}

/// The models of the catalog to show, each with its estimates. Models of which
/// nothing fits are among them only if they are wanted.
pub fn candidates(
    models: &Vec<CatalogModel>,
    budget: &MemoryBudget,
    bandwidth: u32,
    calibration: &SpeedCalibration,
    include_unfit: bool,
) -> (r: Vec<Candidate>)
    requires
        calibration.wf(),
    ensures
        are_candidates(
            models.deep_view(),
            *budget,
            bandwidth,
            *calibration,
            include_unfit,
            r.deep_view(),
        ),
{
    let ghost all = models.deep_view();
    let mut out: Vec<Candidate> = Vec::new();
    let ghost mut outs: Seq<Option<Estimates>> = Seq::empty();
    assert(out.deep_view() =~= Seq::<(Model, Estimates)>::empty());
    let n: usize = models.len();
    for i in 0..n
        invariant
            n == models@.len(),
            all == models.deep_view(),
            calibration.wf(),
            outs.len() == i,
            forall|j: int|
                0 <= j < i ==> is_estimated(
                    all[j],
                    *budget,
                    bandwidth,
                    *calibration,
                    include_unfit,
                    #[trigger] outs[j],
                ),
            out.deep_view() == with_estimates(all.take(i as int), outs),
    {
        assert(all[i as int] == models@[i as int]@);
        let e = estimates(&models[i], budget, bandwidth, calibration, include_unfit);
        let ghost had = out.deep_view();
        proof {
            let before = outs;
            outs = outs.push(e);
            assert(outs.drop_last() =~= before);
            assert(all.take(i as int + 1).drop_last() =~= all.take(i as int));
            assert(all.take(i as int + 1).last() == all[i as int]);
        }
        if let Some(e) = e {
            let c = Candidate { model: models[i].clone(), estimates: e };
            let ghost w = c.deep_view();
            out.push(c);
            assert(out.deep_view() =~= had.push(w));
        }
    }
    assert(all.take(n as int) =~= all);
    out
}

/// Without the models that do not fit, every model shown runs on this machine.
pub proof fn shown_models_fit(
    m: Model,
    budget: MemoryBudget,
    bandwidth: u32,
    calibration: SpeedCalibration,
    e: Estimates,
)
    requires
        is_estimated(m, budget, bandwidth, calibration, false, Some(e)),
    ensures
        e.memory.verdict != FitVerdict::DoesNotFit,
{
}

// ---------------------------------------------------------------------------
// Order
// ---------------------------------------------------------------------------

/// Row `i` ranks before row `j`: a higher score, else first in the list.
pub open spec fn ranks_before(rows: Seq<Ranked>, i: int, j: int) -> bool {
    let a = rows[i].score.total@;
    let b = rows[j].score.total@;
    less(b, a) || (!less(a, b) && i < j)
}

/// `order` lists every row once, the higher scores first.
pub open spec fn is_ranking(rows: Seq<Ranked>, order: Seq<usize>) -> bool {
    &&& order.len() == rows.len()
    &&& forall|k: int| 0 <= k < order.len() ==> (#[trigger] order[k]) < rows.len()
    &&& forall|i: usize| i < rows.len() ==> order.contains(i)
    &&& forall|k: int, l: int|
        0 <= k < l < order.len() ==> ranks_before(
            rows,
            #[trigger] order[k] as int,
            #[trigger] order[l] as int,
        )
}

proof fn lemma_rank_transitive(rows: Seq<Ranked>, i: int, j: int, k: int)
    requires
        rows[i].score.total.wf(),
        rows[j].score.total.wf(),
        rows[k].score.total.wf(),
        ranks_before(rows, i, j),
        ranks_before(rows, j, k),
    ensures
        ranks_before(rows, i, k),
{
    let a = rows[i].score.total@;
    let b = rows[j].score.total@;
    let c = rows[k].score.total@;
    crate::double::lemma_less(a, b);
    crate::double::lemma_less(b, a);
    crate::double::lemma_less(b, c);
    crate::double::lemma_less(c, b);
    crate::double::lemma_less(a, c);
    crate::double::lemma_less(c, a);
}

/// The row that ranks first has no lower a total.
pub proof fn ranked_before_is_no_lower(rows: Seq<Ranked>, i: int, j: int)
    requires
        rows[i].score.total.wf(),
        rows[j].score.total.wf(),
        ranks_before(rows, i, j),
    ensures
        at_most(rows[j].score.total@, rows[i].score.total@),
{
    crate::double::lemma_less(rows[i].score.total@, rows[j].score.total@);
    crate::double::lemma_less(rows[j].score.total@, rows[i].score.total@);
}

/// The best rows come first: the number that a total stands for, its mantissa
/// times a power of two, never grows from one place of the ranking to a later
/// one; rows with the same total keep the order of the list.
pub proof fn best_comes_first(rows: Seq<Ranked>, order: Seq<usize>, k: int, l: int, n: int)
    requires
        is_ranking(rows, order),
        0 <= k < l < order.len(),
        rows[order[k] as int].score.total.wf(),
        rows[order[l] as int].score.total.wf(),
        rows[order[k] as int].score.total.exponent + n >= 0,
        rows[order[l] as int].score.total.exponent + n >= 0,
    ensures
        ({
            let first = rows[order[k] as int].score.total;
            let later = rows[order[l] as int].score.total;
            &&& later.mantissa as nat * pow2((later.exponent + n) as nat) <= first.mantissa as nat
                * pow2((first.exponent + n) as nat)
            &&& first == later ==> order[k] < order[l]
        }),
{
    let (i, j) = (order[k] as int, order[l] as int);
    ranked_before_is_no_lower(rows, i, j);
    scaled_keeps_order(rows[j].score.total@, rows[i].score.total@, n);
    crate::double::lemma_less(rows[i].score.total@, rows[j].score.total@);
}

/// The ranking names every row, and none of them twice.
pub proof fn ranking_keeps_every_row(rows: Seq<Ranked>, order: Seq<usize>, i: usize)
    requires
        is_ranking(rows, order),
        i < rows.len(),
        rows[i as int].score.total.wf(),
    ensures
        exists|k: int| 0 <= k < order.len() && order[k] == i,
        forall|k: int, l: int|
            0 <= k < order.len() && 0 <= l < order.len() && order[k] == i && order[l] == i ==> k
                == l,
{
    assert(order.contains(i));
    crate::double::lemma_less(rows[i as int].score.total@, rows[i as int].score.total@);
    assert forall|k: int, l: int|
        0 <= k < order.len() && 0 <= l < order.len() && order[k] == i && order[l] == i implies k
        == l by {
        if k < l {
            assert(ranks_before(rows, order[k] as int, order[l] as int));
        } else if l < k {
            assert(ranks_before(rows, order[l] as int, order[k] as int));
        }
    }
}

/// The positions of the rows, the higher scores first.
pub fn ranking(rows: &Vec<ScoredModel>) -> (r: Vec<usize>)
    requires
        forall|i: int| 0 <= i < rows@.len() ==> (#[trigger] rows@[i]).score.total.wf(),
    ensures
        is_ranking(rows.deep_view(), r@),
{
    let ghost all = rows.deep_view();
    let mut order: Vec<usize> = Vec::new();
    let n: usize = rows.len();
    for i in 0..n
        invariant
            n == rows@.len(),
            all == rows.deep_view(),
            forall|i: int| 0 <= i < rows@.len() ==> (#[trigger] rows@[i]).score.total.wf(),
            order@.len() == i,
            forall|k: int| 0 <= k < order@.len() ==> (#[trigger] order@[k]) < i,
            forall|j: usize| j < i ==> order@.contains(j),
            forall|k: int, l: int|
                0 <= k < l < order@.len() ==> ranks_before(
                    all,
                    #[trigger] order@[k] as int,
                    #[trigger] order@[l] as int,
                ),
    {
        let mut p: usize = 0;
        while p < order.len() && !rows[order[p]].score.total.is_less(rows[i].score.total)
            invariant
                n == rows@.len(),
                all == rows.deep_view(),
                forall|i: int| 0 <= i < rows@.len() ==> (#[trigger] rows@[i]).score.total.wf(),
                i < n,
                p <= order@.len(),
                order@.len() == i,
                forall|k: int| 0 <= k < order@.len() ==> (#[trigger] order@[k]) < i,
                forall|k: int|
                    0 <= k < p ==> !less(
                        all[#[trigger] order@[k] as int].score.total@,
                        all[i as int].score.total@,
                    ),
            decreases order@.len() - p,
        {
            p = p + 1;
        }
        let ghost before = order@;
        order.insert(p, i);
        proof {
            assert(all[i as int] == rows@[i as int]@);
            assert forall|k: int, l: int| 0 <= k < l < order@.len() implies ranks_before(
                all,
                #[trigger] order@[k] as int,
                #[trigger] order@[l] as int,
            ) by {
                if l < p {
                    assert(order@[k] == before[k] && order@[l] == before[l]);
                } else if k < p && l == p {
                    assert(order@[k] == before[k]);
                } else if k < p {
                    assert(order@[k] == before[k] && order@[l] == before[l - 1]);
                } else if k == p {
                    assert(order@[l] == before[l - 1]);
                    assert(all[before[p as int] as int] == rows@[before[p as int] as int]@);
                    assert(less(
                        all[before[p as int] as int].score.total@,
                        all[i as int].score.total@,
                    ));
                    assert(ranks_before(all, i as int, before[p as int] as int));
                    if l - 1 > p {
                        assert(ranks_before(all, before[p as int] as int, before[l - 1] as int));
                        assert(all[before[l - 1] as int] == rows@[before[l - 1] as int]@);
                        lemma_rank_transitive(
                            all,
                            i as int,
                            before[p as int] as int,
                            before[l - 1] as int,
                        );
                    }
                } else {
                    assert(order@[k] == before[k - 1] && order@[l] == before[l - 1]);
                }
            }
            assert forall|k: int| 0 <= k < order@.len() implies (#[trigger] order@[k]) < i + 1 by {
                if k < p {
                    assert(order@[k] == before[k]);
                } else if k > p {
                    assert(order@[k] == before[k - 1]);
                }
            }
            assert forall|j: usize| j < i + 1 implies order@.contains(j) by {
                if j < i {
                    assert(before.contains(j));
                    let k = choose|k: int| 0 <= k < before.len() && before[k] == j;
                    if k < p {
                        assert(order@[k] == j);
                    } else {
                        assert(order@[k + 1] == j);
                    }
                } else {
                    assert(order@[p as int] == j);
                }
            }
        }
    }
    order
}

/// The rows, the higher scores first.
pub fn ranked(rows: &Vec<ScoredModel>) -> (r: Vec<ScoredModel>)
    requires
        forall|i: int| 0 <= i < rows@.len() ==> (#[trigger] rows@[i]).score.total.wf(),
    ensures
        exists|order: Seq<usize>|
            #[trigger] is_ranking(rows.deep_view(), order) && r.deep_view() == Seq::new(
                order.len(),
                |k: int| rows.deep_view()[order[k] as int],
            ),
        r@.len() == rows@.len(),
        forall|k: int, l: int|
            0 <= k < l < r@.len() ==> at_most(
                (#[trigger] r@[l]).score.total@,
                (#[trigger] r@[k]).score.total@,
            ),
{
    let order = ranking(rows);
    let mut out: Vec<ScoredModel> = Vec::new();
    let n: usize = order.len();
    for k in 0..n
        invariant
            n == order@.len(),
            is_ranking(rows.deep_view(), order@),
            out@.len() == k,
            forall|j: int|
                0 <= j < k ==> (#[trigger] out@[j])@ == rows.deep_view()[order@[j] as int],
    {
        out.push(rows[order[k]].clone());
    }
    assert(out.deep_view() =~= Seq::new(
        order@.len(),
        |k: int| rows.deep_view()[order@[k] as int],
    ));
    assert forall|k: int, l: int| 0 <= k < l < out@.len() implies at_most(
        (#[trigger] out@[l]).score.total@,
        (#[trigger] out@[k]).score.total@,
    ) by {
        assert(out@[k]@ == rows.deep_view()[order@[k] as int]);
        assert(out@[l]@ == rows.deep_view()[order@[l] as int]);
        assert(rows.deep_view()[order@[k] as int] == rows@[order@[k] as int]@);
        assert(rows.deep_view()[order@[l] as int] == rows@[order@[l] as int]@);
        ranked_before_is_no_lower(rows.deep_view(), order@[k] as int, order@[l] as int);
    }
    out
}

} // verus!
