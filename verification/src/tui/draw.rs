//! What the terminal interface shows, as text without styles.

use vstd::prelude::*;

use crate::app::{row_wf, Ranked, ScoredModel};
use crate::double::{less, nearest, round_whole, Double};
use crate::estimate::{
    estimate_speed, generation_tps, kv_bytes, kv_cache_bytes, tier_label, Figures, FitVerdict,
    ModelVariant,
};
use crate::hardware::{HardwareProfile, Profile};
use crate::numeral::{decimal, digits, push_decimal};
use crate::output::{
    age_label, age_text, bandwidth_label, bandwidth_text, ctx_text, cut, gib, gib_text,
    humanize_since, in_range, pid_text, runtime_label, runtime_name, since_text, size_text,
    status_label, status_text, truncate, uptime_text, verdict_label, verdict_text,
};
use crate::runtime::{shell_line, Run, RunPlan, Serve, ServePlan};
use crate::score::UseCase;
use crate::serving::{AvailableRow, Row, ServerRow, StopHandle};
use crate::tui::state::{
    run_view, serve_view, use_case_label, use_case_text, Mode, Shown, SyncStatus,
};

verus! {

fn cat(a: &str, b: &str) -> (r: String)
    ensures
        r@ == a@ + b@,
{
    let mut s = a.to_owned();
    s.append(b);
    s
}

// ---------------------------------------------------------------------------
// The detail of a model
// ---------------------------------------------------------------------------

/// A line of the detail.
#[derive(Debug)]
pub enum DetailLine {
    Title { name: String, quant: String },
    Blank,
    Section(String),
    Field { key: String, value: String },
    /// A command for a shell.
    Command(String),
    /// Why there is no plan.
    Problem(String),
    /// Where the model would be served, and with what.
    ServeHint { endpoint: String, runtime: String },
}

/// `DetailLine` without its storage.
pub ghost enum Line {
    Title(Seq<char>, Seq<char>),
    Blank,
    Section(Seq<char>),
    Field(Seq<char>, Seq<char>),
    Command(Seq<char>),
    Problem(Seq<char>),
    ServeHint(Seq<char>, Seq<char>),
}

impl View for DetailLine {
    type V = Line;

    open spec fn view(&self) -> Line {
        match *self {
            DetailLine::Title { name, quant } => Line::Title(name@, quant@),
            DetailLine::Blank => Line::Blank,
            DetailLine::Section(s) => Line::Section(s@),
            DetailLine::Field { key, value } => Line::Field(key@, value@),
            DetailLine::Command(s) => Line::Command(s@),
            DetailLine::Problem(s) => Line::Problem(s@),
            DetailLine::ServeHint { endpoint, runtime } => Line::ServeHint(endpoint@, runtime@),
        }
    }
}

impl DeepView for DetailLine {
    type V = Line;

    open spec fn deep_view(&self) -> Line {
        self@
    }
}

/// A number to the nearest whole one.
pub open spec fn whole(d: Double) -> Seq<char> {
    digits(round_whole(d@))
}

pub open spec fn breakdown_text(r: Ranked) -> Seq<char> {
    "fit "@ + whole(r.score.fit) + " · speed "@ + whole(r.score.speed) + " · quality "@ + whole(
        r.score.quality,
    ) + " · context "@ + whole(r.score.context)
}

pub open spec fn total_memory_text(r: Ranked) -> Seq<char> {
    gib_text(r.memory.total_bytes) + " vs GPU limit "@ + gib_text(r.memory.gpu_limit_bytes) + " ("@
        + verdict_text(r.memory.verdict) + ")"@
}

pub open spec fn generation_text(r: Ranked) -> Seq<char> {
    "~"@ + whole(r.speed.generation_tps) + " tok/s ("@ + tier_label(r.speed.tier) + ")"@
}

pub open spec fn prompt_text(r: Ranked) -> Seq<char> {
    "~"@ + whole(r.speed.prompt_tps_range.0) + "–"@ + whole(r.speed.prompt_tps_range.1)
        + " tok/s"@
}

/// The lines above the plans.
pub open spec fn estimate_lines(r: Ranked) -> Seq<Line> {
    seq![
        Line::Title(r.model.name, r.model.variants[r.variant_idx as int].quant),
        Line::Blank,
        Line::Section("score"@),
        Line::Field("total"@, whole(r.score.total) + "/100"@),
        Line::Field("breakdown"@, breakdown_text(r)),
        Line::Blank,
        Line::Section("memory"@),
        Line::Field("weights"@, gib_text(r.memory.weights_bytes)),
        Line::Field("kv cache @8k"@, gib_text(r.memory.kv_cache_bytes)),
        Line::Field("overhead"@, gib_text(r.memory.overhead_bytes)),
        Line::Field("total"@, total_memory_text(r)),
        Line::Blank,
        Line::Section("speed"@),
        Line::Field("generation"@, generation_text(r)),
        Line::Field("prompt"@, prompt_text(r)),
        Line::Blank,
        Line::Section("run"@),
    ]
}

pub open spec fn run_lines(plan: Option<Result<Run, Seq<char>>>) -> Seq<Line> {
    match plan {
        Some(Ok(p)) => seq![Line::Command(shell_line(p.argv))],
        Some(Err(e)) => seq![Line::Problem(e)],
        None => Seq::empty(),
    }
}

pub open spec fn serve_lines(plan: Option<Result<Serve, Seq<char>>>) -> Seq<Line> {
    match plan {
        Some(Ok(p)) => seq![Line::ServeHint(p.endpoint, runtime_name(p.runtime))],
        Some(Err(e)) => seq![Line::Problem(e)],
        None => Seq::empty(),
    }
}

/// The limit to set, in megabytes: what the model takes and one gibibyte more.
pub open spec fn tuning_mb(total_bytes: u64) -> nat {
    total_bytes as nat / 1_048_576 + 1024
}

/// How to raise the GPU's limit, where that makes the model fit.
pub open spec fn tuning_lines(r: Ranked) -> Seq<Line> {
    if r.memory.verdict == FitVerdict::FitsWithSysctlTuning {
        seq![
            Line::Blank,
            Line::Section("tuning"@),
            Line::Field(
                "hint"@,
                "sudo sysctl iogpu.wired_limit_mb="@ + digits(tuning_mb(r.memory.total_bytes)),
            ),
        ]
    } else {
        Seq::empty()
    }
}

/// The detail of a row.
pub open spec fn detail_of(
    r: Ranked,
    plan: Option<Result<Run, Seq<char>>>,
    serve: Option<Result<Serve, Seq<char>>>,
) -> Seq<Line> {
    (estimate_lines(r) + run_lines(plan) + serve_lines(serve) + tuning_lines(r)).push(Line::Blank)
}

fn push_line(lines: &mut Vec<DetailLine>, l: DetailLine)
    ensures
        final(lines).deep_view() == old(lines).deep_view().push(l@),
{
    let ghost before = lines.deep_view();
    lines.push(l);
    assert(lines.deep_view() =~= before.push(l@));
}

fn field(key: &str, value: String) -> (r: DetailLine)
    ensures
        r@ == Line::Field(key@, value@),
{
    DetailLine::Field { key: key.to_owned(), value }
}

fn section(name: &str) -> (r: DetailLine)
    ensures
        r@ == Line::Section(name@),
{
    DetailLine::Section(name.to_owned())
}

fn score_lines(r: &ScoredModel) -> (s: (String, String))
    requires
        row_wf(r@),
    ensures
        s.0@ == whole(r.score.total) + "/100"@,
        s.1@ == breakdown_text(r@),
{
    let mut total = r.score.total.whole_text();
    total.append("/100");
    let mut b = cat("fit ", r.score.fit.whole_text().as_str());
    b.append(" · speed ");
    b.append(r.score.speed.whole_text().as_str());
    b.append(" · quality ");
    b.append(r.score.quality.whole_text().as_str());
    b.append(" · context ");
    b.append(r.score.context.whole_text().as_str());
    (total, b)
}

fn memory_line(r: &ScoredModel) -> (s: String)
    ensures
        s@ == total_memory_text(r@),
{
    let mut s = cat(gib(r.memory.total_bytes).as_str(), " vs GPU limit ");
    s.append(gib(r.memory.gpu_limit_bytes).as_str());
    s.append(" (");
    s.append(verdict_label(r.memory.verdict));
    s.append(")");
    s
}

fn speed_lines(r: &ScoredModel) -> (s: (String, String))
    requires
        row_wf(r@),
    ensures
        s.0@ == generation_text(r@),
        s.1@ == prompt_text(r@),
{
    let mut g = cat("~", r.speed.generation_tps.whole_text().as_str());
    g.append(" tok/s (");
    g.append(r.speed.tier.label());
    g.append(")");
    let mut p = cat("~", r.speed.prompt_tps_range.0.whole_text().as_str());
    p.append("–");
    p.append(r.speed.prompt_tps_range.1.whole_text().as_str());
    p.append(" tok/s");
    (g, p)
}

fn estimates(r: &ScoredModel) -> (lines: Vec<DetailLine>)
    requires
        row_wf(r@),
    ensures
        lines.deep_view() == estimate_lines(r@),
{
    let v = &r.model.variants[r.variant_idx];
    assert(r@.model.variants[r.variant_idx as int] == v@);
    let (total, breakdown) = score_lines(r);
    let (generation, prompt) = speed_lines(r);
    let mut lines: Vec<DetailLine> = Vec::new();
    lines.push(DetailLine::Title { name: r.model.name.clone(), quant: v.quant.clone() });
    lines.push(DetailLine::Blank);
    lines.push(section("score"));
    lines.push(field("total", total));
    lines.push(field("breakdown", breakdown));
    lines.push(DetailLine::Blank);
    lines.push(section("memory"));
    lines.push(field("weights", gib(r.memory.weights_bytes)));
    lines.push(field("kv cache @8k", gib(r.memory.kv_cache_bytes)));
    lines.push(field("overhead", gib(r.memory.overhead_bytes)));
    lines.push(field("total", memory_line(r)));
    lines.push(DetailLine::Blank);
    lines.push(section("speed"));
    lines.push(field("generation", generation));
    lines.push(field("prompt", prompt));
    lines.push(DetailLine::Blank);
    lines.push(section("run"));
    assert(lines.deep_view() =~= estimate_lines(r@));
    lines
}

/// The lines of the detail of a row, with the plans to run and to serve it.
pub fn detail_lines(
    r: &ScoredModel,
    plan: &Option<Result<RunPlan, String>>,
    serve_plan: &Option<Result<ServePlan, String>>,
) -> (lines: Vec<DetailLine>)
    requires
        row_wf(r@),
    ensures
        lines.deep_view() == detail_of(r@, run_view(*plan), serve_view(*serve_plan)),
{
    let mut lines = estimates(r);
    match plan {
        Some(Ok(p)) => push_line(&mut lines, DetailLine::Command(p.display())),
        Some(Err(e)) => push_line(&mut lines, DetailLine::Problem(e.clone())),
        None => {},
    }
    assert(lines.deep_view() =~= estimate_lines(r@) + run_lines(run_view(*plan)));
    match serve_plan {
        Some(Ok(p)) => push_line(
            &mut lines,
            DetailLine::ServeHint {
                endpoint: p.endpoint.clone(),
                runtime: runtime_label(p.runtime).to_owned(),
            },
        ),
        Some(Err(e)) => push_line(&mut lines, DetailLine::Problem(e.clone())),
        None => {},
    }
    assert(lines.deep_view() =~= estimate_lines(r@) + run_lines(run_view(*plan)) + serve_lines(
        serve_view(*serve_plan),
    ));
    if r.memory.verdict == FitVerdict::FitsWithSysctlTuning {
        let mb: u64 = r.memory.total_bytes / 1_048_576 + 1024;
        let mut hint = "sudo sysctl iogpu.wired_limit_mb=".to_owned();
        push_decimal(&mut hint, mb as u128);
        push_line(&mut lines, DetailLine::Blank);
        push_line(&mut lines, section("tuning"));
        push_line(&mut lines, field("hint", hint));
    }
    assert(lines.deep_view() =~= estimate_lines(r@) + run_lines(run_view(*plan)) + serve_lines(
        serve_view(*serve_plan),
    ) + tuning_lines(r@));
    push_line(&mut lines, DetailLine::Blank);
    lines
}

/// The limit that the hint sets is enough for the model.
pub proof fn tuning_hint_is_enough(total_bytes: u64)
    ensures
        tuning_mb(total_bytes) * 1_048_576 > total_bytes,
{
}

// ---------------------------------------------------------------------------
// The box about this machine
// ---------------------------------------------------------------------------

/// The box about this machine: labels and values.
pub open spec fn machine_of(p: Profile) -> Seq<(Seq<char>, Seq<char>)> {
    seq![
        ("chip"@, p.chip_name),
        ("ram"@, gib_text(p.ram_total_bytes)),
        (
            "gpu limit"@,
            match p.gpu.metal_limit_bytes {
                Some(b) => gib_text(b) + " (Metal working set)"@,
                None => gib_text(p.gpu.effective_limit_bytes) + " (fallback: 75% of RAM)"@,
            },
        ),
        ("bandwidth"@, bandwidth_text(p.bandwidth, p.bandwidth_estimated)),
        (
            "runtimes"@,
            status_text(p.runtimes.ollama, "ollama"@) + " · "@ + status_text(
                p.runtimes.llama_cpp,
                "llama.cpp"@,
            ) + " · "@ + status_text(p.runtimes.mlx, "mlx-lm"@),
        ),
    ]
}

/// The box about this machine: labels and values.
pub fn machine_box(p: &HardwareProfile) -> (r: Vec<(&'static str, String)>)
    ensures
        r@.map_values(|e: (&'static str, String)| (e.0@, e.1@)) == machine_of(p@),
{
    let limit = match p.gpu.metal_limit_bytes {
        Some(b) => cat(gib(b).as_str(), " (Metal working set)"),
        None => cat(gib(p.gpu.effective_limit_bytes).as_str(), " (fallback: 75% of RAM)"),
    };
    let mut rts = cat(status_label(&p.runtimes.ollama, "ollama").as_str(), " · ");
    rts.append(status_label(&p.runtimes.llama_cpp, "llama.cpp").as_str());
    rts.append(" · ");
    rts.append(status_label(&p.runtimes.mlx, "mlx-lm").as_str());
    let mut out: Vec<(&'static str, String)> = Vec::new();
    out.push(("chip", p.chip_name.clone()));
    out.push(("ram", gib(p.ram_total_bytes)));
    out.push(("gpu limit", limit));
    out.push(("bandwidth", bandwidth_label(p.bandwidth, p.bandwidth_estimated)));
    out.push(("runtimes", rts));
    assert(out@.map_values(|e: (&'static str, String)| (e.0@, e.1@)) =~= machine_of(p@));
    out
}

// ---------------------------------------------------------------------------
// The table of models
// ---------------------------------------------------------------------------

/// The cells of a row.
pub open spec fn cells_of(r: Ranked, now: i64) -> Seq<Seq<char>> {
    seq![
        r.model.name,
        age_text(r.model.released_at, r.model.released_approx, now),
        r.model.variants[r.variant_idx as int].quant,
        gib_text(r.memory.total_bytes),
        whole(r.speed.generation_tps),
        verdict_text(r.memory.verdict),
        whole(r.score.total),
    ]
}

/// The cells of a row: name, age, quantization, memory, speed, fit, score.
pub fn table_cells(r: &ScoredModel, now: i64) -> (cells: Vec<String>)
    requires
        row_wf(r@),
        in_range(now, r.model.released_at),
    ensures
        cells.deep_view() == cells_of(r@, now),
{
    let v = &r.model.variants[r.variant_idx];
    assert(r@.model.variants[r.variant_idx as int] == v@);
    let mut cells: Vec<String> = Vec::new();
    cells.push(r.model.name.clone());
    cells.push(age_label(r.model.released_at, r.model.released_approx, now));
    cells.push(v.quant.clone());
    cells.push(gib(r.memory.total_bytes));
    cells.push(r.speed.generation_tps.whole_text());
    cells.push(verdict_label(r.memory.verdict).to_owned());
    cells.push(r.score.total.whole_text());
    assert(cells.deep_view() =~= cells_of(r@, now));
    cells
}

// ---------------------------------------------------------------------------
// The footer
// ---------------------------------------------------------------------------

/// The frames of the spinner.
pub open spec fn spinner(tick: u64) -> Seq<char> {
    let n = tick % 10;
    if n == 0 {
        "⠋"@
    } else if n == 1 {
        "⠙"@
    } else if n == 2 {
        "⠹"@
    } else if n == 3 {
        "⠸"@
    } else if n == 4 {
        "⠼"@
    } else if n == 5 {
        "⠴"@
    } else if n == 6 {
        "⠦"@
    } else if n == 7 {
        "⠧"@
    } else if n == 8 {
        "⠇"@
    } else {
        "⠏"@
    }
}

/// The detail says of each figure of a row what it is: the parts of the memory
/// with their own sizes and the total with the limit, the speeds, and the parts
/// of the score.
pub proof fn detail_says_each_figure(
    r: Ranked,
    plan: Option<Result<Run, Seq<char>>>,
    serve: Option<Result<Serve, Seq<char>>>,
)
    ensures
        ({
            let lines = detail_of(r, plan, serve);
            &&& lines.contains(Line::Field("weights"@, gib_text(r.memory.weights_bytes)))
            &&& lines.contains(Line::Field("kv cache @8k"@, gib_text(r.memory.kv_cache_bytes)))
            &&& lines.contains(Line::Field("overhead"@, gib_text(r.memory.overhead_bytes)))
            &&& lines.contains(Line::Field("total"@, total_memory_text(r)))
            &&& lines.contains(Line::Field("generation"@, generation_text(r)))
            &&& lines.contains(Line::Field("prompt"@, prompt_text(r)))
            &&& lines.contains(Line::Field("total"@, whole(r.score.total) + "/100"@))
            &&& plan matches Some(Ok(p)) ==> lines.contains(Line::Command(shell_line(p.argv)))
            &&& plan matches Some(Err(e)) ==> lines.contains(Line::Problem(e))
            &&& serve matches Some(Ok(p)) ==> lines.contains(
                Line::ServeHint(p.endpoint, runtime_name(p.runtime)),
            )
        }),
{
    let lines = detail_of(r, plan, serve);
    assert(estimate_lines(r).len() == 17);
    assert(lines[7] == Line::Field("weights"@, gib_text(r.memory.weights_bytes)));
    assert(lines[8] == Line::Field("kv cache @8k"@, gib_text(r.memory.kv_cache_bytes)));
    assert(lines[9] == Line::Field("overhead"@, gib_text(r.memory.overhead_bytes)));
    assert(lines[10] == Line::Field("total"@, total_memory_text(r)));
    assert(lines[13] == Line::Field("generation"@, generation_text(r)));
    assert(lines[14] == Line::Field("prompt"@, prompt_text(r)));
    assert(lines[3] == Line::Field("total"@, whole(r.score.total) + "/100"@));
    if plan is Some {
        assert(lines[17] == run_lines(plan)[0]);
    }
    if serve is Some {
        assert(lines[17 + run_lines(plan).len() as int] == serve_lines(serve)[0]);
    }
}

/// The table of the interface says of a row what the printed one does.
pub proof fn both_tables_say_the_same(r: Ranked, now: i64)
    ensures
        ({
            let c = cells_of(r, now);
            crate::output::ranked_line(r, now) == crate::output::fit_line(
                cut(c[0], 32),
                c[1],
                c[2],
                c[3],
                c[4],
                c[5],
                c[6],
            )
        }),
{
}

/// A server's line says of it what the interface does.
pub proof fn both_lists_say_the_same(r: Row, now: i64)
    ensures
        ({
            let c = server_cells_of(r, now);
            crate::output::row_line(r, now) == crate::output::running_line(
                c[0],
                c[1],
                c[2],
                c[3],
                c[4],
                c[5],
            )
        }),
{
}

/// The spinner turns: ten ticks show ten different signs, and then the same.
pub proof fn spinner_turns(a: u64, b: u64)
    ensures
        spinner(a) == spinner(b) <==> a % 10 == b % 10,
{
    reveal_strlit("⠋");
    reveal_strlit("⠙");
    reveal_strlit("⠹");
    reveal_strlit("⠸");
    reveal_strlit("⠼");
    reveal_strlit("⠴");
    reveal_strlit("⠦");
    reveal_strlit("⠧");
    reveal_strlit("⠇");
    reveal_strlit("⠏");
    assert("⠋"@[0] == '⠋' && "⠙"@[0] == '⠙' && "⠹"@[0] == '⠹' && "⠸"@[0] == '⠸');
    assert("⠼"@[0] == '⠼' && "⠴"@[0] == '⠴' && "⠦"@[0] == '⠦' && "⠧"@[0] == '⠧');
    assert("⠇"@[0] == '⠇' && "⠏"@[0] == '⠏');
}

fn spinner_frame(tick: u64) -> (r: &'static str)
    ensures
        r@ == spinner(tick),
{
    let n: u64 = tick % 10;
    if n == 0 {
        "⠋"
    } else if n == 1 {
        "⠙"
    } else if n == 2 {
        "⠹"
    } else if n == 3 {
        "⠸"
    } else if n == 4 {
        "⠼"
    } else if n == 5 {
        "⠴"
    } else if n == 6 {
        "⠦"
    } else if n == 7 {
        "⠧"
    } else if n == 8 {
        "⠇"
    } else {
        "⠏"
    }
}

/// What the footer says of the sync: that it runs, for five seconds that it is
/// done, else how old the catalog is, if that is known.
pub open spec fn sync_text(
    status: SyncStatus,
    done_secs: u64,
    tick: u64,
    last_sync: Option<i64>,
    now: i64,
) -> Option<Seq<char>> {
    if status is Running {
        Some(spinner(tick) + " syncing…"@)
    } else if status is Done && done_secs < 5 {
        Some("catalog updated"@)
    } else {
        match last_sync {
            Some(t) => Some("synced "@ + since_text(now - t) + " ago"@),
            None => None,
        }
    }
}

fn sync_segment(
    status: &SyncStatus,
    done_secs: u64,
    tick: u64,
    last_sync: Option<i64>,
    now: i64,
) -> (r: Option<String>)
    requires
        in_range(now, last_sync),
    ensures
        r.deep_view() == sync_text(*status, done_secs, tick, last_sync, now),
{
    match status {
        SyncStatus::Running => {
            return Some(cat(spinner_frame(tick), " syncing…"));
        },
        SyncStatus::Done { .. } => {
            if done_secs < 5 {
                return Some("catalog updated".to_owned());
            }
        },
        _ => {},
    }
    match last_sync {
        Some(t) => {
            let mut s = cat("synced ", humanize_since(now - t).as_str());
            s.append(" ago");
            Some(s)
        },
        None => None,
    }
}

/// The use case, and the search as it is typed or in force.
pub open spec fn search_text(uc: UseCase, mode: Shown, query: Seq<char>) -> Seq<char> {
    match mode {
        Shown::Search(q) => use_case_text(uc) + " · /"@ + q + "▌"@,
        _ => if query.len() > 0 {
            use_case_text(uc) + " · /"@ + query
        } else {
            use_case_text(uc)
        },
    }
}

/// The right end of the footer.
pub open spec fn footer_right_text(sync: Option<Seq<char>>, search: Seq<char>) -> Seq<char> {
    match sync {
        Some(seg) => seg + " · "@ + search,
        None => search,
    }
}

/// The right end of the footer. `done_secs` is how long a finished sync has
/// been finished.
pub fn footer_right(
    status: &SyncStatus,
    done_secs: u64,
    tick: u64,
    last_sync: Option<i64>,
    now: i64,
    uc: UseCase,
    mode: &Mode,
    query: &str,
) -> (r: String)
    requires
        in_range(now, last_sync),
    ensures
        r@ == footer_right_text(
            sync_text(*status, done_secs, tick, last_sync, now),
            search_text(uc, mode@, query@),
        ),
{
    let mut search = use_case_label(uc).to_owned();
    match mode {
        Mode::Search { query } => {
            search.append(" · /");
            search.append(query.as_str());
            search.append("▌");
        },
        _ => {
            if !query.is_empty() {
                search.append(" · /");
                search.append(query);
            }
        },
    }
    match sync_segment(status, done_secs, tick, last_sync, now) {
        Some(seg) => {
            let mut s = seg;
            s.append(" · ");
            s.append(search.as_str());
            s
        },
        None => search,
    }
}

/// The left end of the footer on the models tab: the last error, else a failed
/// sync, else the keys.
pub open spec fn footer_left_text(last_error: Option<Seq<char>>, status: SyncStatus) -> Seq<char> {
    match last_error {
        Some(e) => "error: "@ + e,
        None => match status {
            SyncStatus::Failed(m) => "sync failed: "@ + m@,
            _ => "↑↓ move · enter detail · x run · s serve · / search · g/c/r/h use-case · R sync · tab servers · q quit"@,
        },
    }
}

/// The left end of the footer on the models tab, and whether it tells of a
/// failure.
pub fn footer_left(last_error: &Option<String>, status: &SyncStatus) -> (r: (String, bool))
    ensures
        r.0@ == footer_left_text(last_error.deep_view(), *status),
        r.1 == (last_error is Some || status is Failed),
{
    if let Some(e) = last_error {
        return (cat("error: ", e.as_str()), true);
    }
    match status {
        SyncStatus::Failed(m) => (cat("sync failed: ", m.as_str()), true),
        _ => (
            "↑↓ move · enter detail · x run · s serve · / search · g/c/r/h use-case · R sync · tab servers · q quit".to_owned(),
            false,
        ),
    }
}

// ---------------------------------------------------------------------------
// The chart of speeds
// ---------------------------------------------------------------------------

/// The longest context of the chart.
pub open spec fn chart_context(context_max: u32) -> u32 {
    if context_max < 8_192 {
        8_192
    } else if context_max > 131_072 {
        131_072
    } else {
        context_max
    }
}

/// The context of sample `i` of 64.
pub open spec fn sample_context(max: u32, i: int) -> int {
    max * i / 64
}

/// A sample: the context, and the speed with a cache of that depth.
pub open spec fn is_sample(s: (u32, Double), v: Figures, bandwidth: u32, max: u32, i: int) -> bool {
    &&& s.0 == sample_context(max, i)
    &&& s.1@ == generation_tps(
        v,
        bandwidth,
        kv_bytes(v, sample_context(max, i) as nat),
        if v.params_active < v.params_total {
            nearest(3, 10)
        } else {
            nearest(3, 4)
        },
    )
    &&& s.1.wf()
}

/// The contexts of the curve go from none to the longest in steps that are
/// equal but for one token, and stay between 8192 and 131072 where the model's
/// own does.
pub proof fn samples_go_from_none_to_the_longest(context_max: u32, i: int)
    requires
        0 <= i < 64,
    ensures
        ({
            let max = chart_context(context_max);
            let step = sample_context(max, i + 1) - sample_context(max, i);
            &&& 8_192 <= max <= 131_072
            &&& 8_192 <= context_max <= 131_072 ==> max == context_max
            &&& context_max < max ==> max == 8_192
            &&& context_max > max ==> max == 131_072
            &&& sample_context(max, 0) == 0
            &&& sample_context(max, 64) == max
            &&& 64 * (step - 1) < max < 64 * (step + 1)
            &&& 0 <= step
        }),
{
    let max = chart_context(context_max) as int;
    assert(max * (i + 1) == max * i + max) by (nonlinear_arith);
    assert(max * 0 == 0);
}

/// The curve never rises: with more context the estimate is no faster.
pub proof fn curve_never_rises(
    s: (u32, Double),
    t: (u32, Double),
    v: Figures,
    bandwidth: u32,
    max: u32,
    i: int,
    j: int,
)
    requires
        is_sample(s, v, bandwidth, max, i),
        is_sample(t, v, bandwidth, max, j),
        0 <= i <= j,
        v.params_active > 0 || v.bpw == 0,
    ensures
        s.0 <= t.0,
        crate::rounding::at_most(t.1@, s.1@),
{
    assert(max * i <= max * j) by (nonlinear_arith)
        requires
            0 <= i,
            i <= j,
            0 <= max,
    ;
    let (a, b) = (sample_context(max, i), sample_context(max, j));
    assert(0 <= max * i) by (nonlinear_arith)
        requires
            0 <= i,
            0 <= max,
    ;
    assert(a <= b);
    crate::estimate::longer_context_takes_no_less(v, a as nat, b as nat);
    let share = if v.params_active < v.params_total {
        nearest(3, 10)
    } else {
        nearest(3, 4)
    };
    crate::rounding::rounded_is_number(3, 10, 0);
    crate::rounding::rounded_is_number(3, 4, 0);
    if v.bpw > 0 {
        crate::estimate::token_streams_active_weights_and_cache(v, kv_bytes(v, a as nat));
        let bytes = crate::estimate::bytes_per_token(v, kv_bytes(v, a as nat));
        crate::precision::about_something(
            bytes,
            (v.params_active * v.bpw + 8 * crate::estimate::BIT * kv_bytes(v, a as nat)) as nat,
            (8 * crate::estimate::BIT) as nat,
            12,
        );
    }
    crate::estimate::deeper_cache_is_no_faster(
        v,
        bandwidth,
        kv_bytes(v, a as nat),
        kv_bytes(v, b as nat),
        share,
    );
}

/// Speed by depth of context, in 65 samples from an empty one.
pub fn speed_curve(v: &ModelVariant, bandwidth: u32, context_max: u32) -> (r: Vec<(u32, Double)>)
    ensures
        r@.len() == 65,
        forall|i: int|
            0 <= i < 65 ==> is_sample(
                #[trigger] r@[i],
                v@,
                bandwidth,
                chart_context(context_max),
                i,
            ),
{
    let max: u32 = if context_max < 8_192 {
        8_192
    } else if context_max > 131_072 {
        131_072
    } else {
        context_max
    };
    let mut out: Vec<(u32, Double)> = Vec::new();
    let mut i: u64 = 0;
    while i < 65
        invariant
            i <= 65,
            max == chart_context(context_max),
            8_192 <= max <= 131_072,
            out@.len() == i,
            forall|j: int| 0 <= j < i ==> is_sample(#[trigger] out@[j], v@, bandwidth, max, j),
        decreases 65 - i,
    {
        assert(max * i <= 131_072 * 64) by (nonlinear_arith)
            requires
                max <= 131_072,
                i <= 64,
        ;
        let ctx: u32 = (max as u64 * i / 64) as u32;
        let kv: u64 = kv_cache_bytes(v, ctx);
        let s = estimate_speed(v, bandwidth, kv);
        out.push((ctx, s.generation_tps));
        i = i + 1;
    }
    out
}

/// The top of the chart: the speed with an empty context, at least one.
pub fn chart_top(first: Double) -> (r: Double)
    requires
        first.wf(),
    ensures
        r@ == if less(first@, nearest(1, 1)) {
            nearest(1, 1)
        } else {
            first@
        },
        r.wf(),
{
    let one = Double::of_ratio(1, 1);
    if first.is_less(one) {
        one
    } else {
        first
    }
}

/// A context of the chart's axis in thousands, rounded half up. `halves` is
/// twice the context.
pub open spec fn axis_text(halves: u32) -> Seq<char> {
    digits(((halves + 1024) / 2048) as nat) + "k"@
}

/// The labels of the chart's axis: nothing, half, all of the longest context.
pub fn axis_labels(context_max: u32) -> (r: (String, String, String))
    ensures
        r.0@ == "0"@,
        r.1@ == axis_text(chart_context(context_max)),
        r.2@ == axis_text((2 * chart_context(context_max)) as u32),
{
    let max: u32 = if context_max < 8_192 {
        8_192
    } else if context_max > 131_072 {
        131_072
    } else {
        context_max
    };
    let mut half = decimal(((max + 1024) / 2048) as u128);
    half.append("k");
    let mut all = decimal(((2 * max + 1024) / 2048) as u128);
    all.append("k");
    ("0".to_owned(), half, all)
}

// ---------------------------------------------------------------------------
// Layout
// ---------------------------------------------------------------------------

/// A rectangle of the terminal, in characters.
#[derive(Debug, Clone, Copy, PartialEq, Eq, Structural)]
pub struct Area {
    pub x: u16,
    pub y: u16,
    pub width: u16,
    pub height: u16,
}

/// `inner` lies within `outer`.
pub open spec fn is_within(inner: Area, outer: Area) -> bool {
    &&& outer.x <= inner.x
    &&& outer.y <= inner.y
    &&& inner.x + inner.width <= outer.x + outer.width
    &&& inner.y + inner.height <= outer.y + outer.height
}

/// A popup in the middle of an area: so many percent of its width, at least
/// forty characters, and so many rows, both no more than the area has.
pub fn centered(area: Area, percent: u16, height: u16) -> (r: Area)
    requires
        area.x + area.width <= u16::MAX,
        area.y + area.height <= u16::MAX,
    ensures
        is_within(r, area),
        r.height == if height < area.height {
            height
        } else {
            area.height
        },
        r.width == ({
            let w = area.width * percent / 100;
            let at_least = if w < 40 {
                40
            } else {
                w
            };
            if at_least < area.width {
                at_least
            } else {
                area.width as int
            }
        }),
        r.x == area.x + (area.width - r.width) / 2,
        r.y == area.y + (area.height - r.height) / 2,
{
    assert(0 <= area.width * percent <= 65_535 * 65_535) by (nonlinear_arith)
        requires
            0 <= area.width <= 65_535,
            0 <= percent <= 65_535,
    ;
    let w: u32 = area.width as u32 * percent as u32 / 100;
    let wide: u32 = if w < 40 {
        40
    } else {
        w
    };
    let width: u16 = if wide < area.width as u32 {
        wide as u16
    } else {
        area.width
    };
    let rows: u16 = if height < area.height {
        height
    } else {
        area.height
    };
    Area {
        x: area.x + (area.width - width) / 2,
        y: area.y + (area.height - rows) / 2,
        width,
        height: rows,
    }
}

// ---------------------------------------------------------------------------
// The servers
// ---------------------------------------------------------------------------

/// What the table of servers shows of one that runs.
pub open spec fn server_cells_of(r: Row, now: i64) -> Seq<Seq<char>> {
    seq![
        cut(r.model, 28),
        runtime_name(r.runtime),
        cut(r.endpoint, 26),
        ctx_text(r.ctx),
        uptime_text(r.started_at, now),
        pid_text(r.stop),
    ]
}

/// What the table of servers shows of one that runs.
pub fn server_cells(r: &ServerRow, now: i64) -> (cells: Vec<String>)
    requires
        in_range(now, r.started_at),
    ensures
        cells.deep_view() == server_cells_of(r@, now),
{
    let mut cells: Vec<String> = Vec::new();
    cells.push(truncate(r.model.as_str(), 28));
    cells.push(runtime_label(r.runtime).to_owned());
    cells.push(truncate(r.endpoint.as_str(), 26));
    cells.push(
        match r.ctx {
            Some(c) => decimal(c as u128),
            None => "-".to_owned(),
        },
    );
    cells.push(
        match r.started_at {
            Some(t) => humanize_since(now - t),
            None => "-".to_owned(),
        },
    );
    cells.push(
        match &r.stop {
            StopHandle::Pid(p) => decimal(*p as u128),
            StopHandle::OllamaModel(_) => "-".to_owned(),
        },
    );
    assert(cells.deep_view() =~= server_cells_of(r@, now));
    cells
}

/// What the table of servers shows of a model that could be served.
pub fn available_cells(r: &AvailableRow) -> (cells: Vec<String>)
    ensures
        cells.deep_view() == seq![
            cut(r@.model, 28),
            runtime_name(r.runtime),
            "available"@,
            size_text(r.size_bytes),
        ],
{
    let mut cells: Vec<String> = Vec::new();
    cells.push(truncate(r.model.as_str(), 28));
    cells.push(runtime_label(r.runtime).to_owned());
    cells.push("available".to_owned());
    cells.push(
        match r.size_bytes {
            Some(n) => gib(n),
            None => "-".to_owned(),
        },
    );
    assert(cells.deep_view() =~= seq![
        cut(r@.model, 28),
        runtime_name(r.runtime),
        "available"@,
        size_text(r.size_bytes),
    ]);
    cells
}

// ---------------------------------------------------------------------------
// Sizes
// ---------------------------------------------------------------------------

/// Rows of the chart in the detail.
pub const SPEED_CHART_HEIGHT: u16 = 9;

/// Columns of the wordmark.
pub const WORDMARK_WIDTH: u16 = 57;

/// Rows of the detail: its lines, the chart and the borders.
pub fn popup_height(lines: usize) -> (r: u16)
    ensures
        r == if lines % 65_536 + 11 > u16::MAX {
            u16::MAX as int
        } else {
            lines % 65_536 + 11
        },
{
    let n: u32 = (lines % 65_536) as u32 + 11;
    if n > 65_535 {
        65_535
    } else {
        n as u16
    }
}

/// Whether the header is wide enough for the wordmark beside the box.
pub fn shows_wordmark(width: u16) -> (r: bool)
    ensures
        r == (width >= WORDMARK_WIDTH + 46),
{
    width >= WORDMARK_WIDTH + 46
}

} // verus!
