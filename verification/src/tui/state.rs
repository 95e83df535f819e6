//! The state of the terminal interface and what every key does to it.

use vstd::prelude::*;

use crate::app::{clone_rows, row_wf, rows_wf, Ranked, ScoredModel};
use crate::catalog::{figures, model_figures, Model};
use crate::clock::now;
use crate::error::{failure_text, Failure};
use crate::estimate::{resolve_ctx, resolved_ctx, MemoryBudget};
use crate::hardware::runtimes::{Runtimes, RuntimesStatus};
use crate::runtime::{plan_run, plan_serve, run_plan, serve_plan, Run, RunPlan, Serve, ServePlan};
use crate::score::{
    better, is_quality_order, lemma_not_better_than_itself, quality_order, variants_by_quality, UseCase,
};
use crate::serving::{Available, AvailableRow, Row, ServerRow, Stop, StopHandle};
use crate::text::{chars_of, contains, contains_chars, lowercase, part, same, string_of, to_lowercase};

verus! {

/// A key without its modifiers.
#[derive(Debug, Clone, Copy, PartialEq, Eq, Structural)]
pub enum KeyCode {
    Char(char),
    Enter,
    Esc,
    Backspace,
    Tab,
    Up,
    Down,
    Other,
}

/// A key as it was pressed.
#[derive(Debug, Clone, Copy, PartialEq, Eq, Structural)]
pub struct KeyEvent {
    pub code: KeyCode,
    pub ctrl: bool,
    pub alt: bool,
}

#[derive(Debug, PartialEq, Eq)]
pub enum Mode {
    List,
    Detail,
    Search { query: String },
}

#[derive(Debug, Clone, Copy, PartialEq, Eq, Structural)]
pub enum Tab {
    Models,
    Servers,
}

/// A sync in the background, as the interface sees it.
#[derive(Debug)]
pub enum SyncStatus {
    /// No sync so far.
    Idle,
    Running,
    /// Finished at this moment.
    Done { at: std::time::Instant },
    /// Failed, with the message to show.
    Failed(String),
}

impl SyncStatus {
    pub fn advance_running(self) -> (r: SyncStatus)
        ensures
            r is Running,
    {
        SyncStatus::Running
    }

    pub fn on_done(self) -> (r: SyncStatus)
        ensures
            r is Done,
    {
        SyncStatus::Done { at: now() }
    }

    pub fn on_failed(self, msg: String) -> (r: SyncStatus)
        ensures
            r == SyncStatus::Failed(msg),
    {
        SyncStatus::Failed(msg)
    }
}

/// What the interface asks for.
#[derive(Debug)]
pub enum Action {
    Nothing,
    Quit,
    /// Leave, then run the plan.
    Run(RunPlan),
    Serve(ServePlan),
    /// Score the catalog for another use case.
    Rescore(UseCase),
    StartSync,
    StopServer(StopHandle),
    /// Put this URL on the clipboard.
    CopyEndpoint(String),
}

pub struct TuiState {
    /// Rows shown, filtered by the search.
    pub rows: Vec<ScoredModel>,
    /// All rows of the use case.
    pub all_rows: Vec<ScoredModel>,
    pub selected: usize,
    pub use_case: UseCase,
    pub mode: Mode,
    /// The search in force; empty for none.
    pub query: String,
    pub runtimes: RuntimesStatus,
    /// Memory of this machine, to size the context with.
    pub budget: MemoryBudget,
    /// Why the last plan failed, for the footer.
    pub last_error: Option<String>,
    /// How to run the selected row, computed when its detail is opened.
    pub detail_plan: Option<Result<RunPlan, String>>,
    /// How to serve it.
    pub detail_serve_plan: Option<Result<ServePlan, String>>,
    /// The variant chosen in the detail.
    pub detail_variant: usize,
    pub sync_status: SyncStatus,
    /// Frame of the spinner.
    pub tick: u64,
    /// Moment of the last sync in epoch seconds.
    pub last_sync: Option<i64>,
    pub tab: Tab,
    /// What runs.
    pub servers: Vec<ServerRow>,
    /// What could be served.
    pub available: Vec<AvailableRow>,
    /// Cursor over what runs and, behind it, what could be served.
    pub server_selected: usize,
}

// ---------------------------------------------------------------------------
// The model
// ---------------------------------------------------------------------------

/// `Mode` without its storage.
pub ghost enum Shown {
    List,
    Detail,
    Search(Seq<char>),
}

/// `Action` without its storage.
pub ghost enum Act {
    Nothing,
    Quit,
    Run(Run),
    Serve(Serve),
    Rescore(UseCase),
    StartSync,
    StopServer(Stop),
    CopyEndpoint(Seq<char>),
}

/// `TuiState` without its storage.
pub ghost struct State {
    pub rows: Seq<Ranked>,
    pub all_rows: Seq<Ranked>,
    pub selected: int,
    pub use_case: UseCase,
    pub mode: Shown,
    pub query: Seq<char>,
    pub runtimes: Runtimes,
    pub budget: MemoryBudget,
    pub last_error: Option<Seq<char>>,
    pub detail_plan: Option<Result<Run, Seq<char>>>,
    pub detail_serve_plan: Option<Result<Serve, Seq<char>>>,
    pub detail_variant: int,
    pub sync_status: SyncStatus,
    pub tick: u64,
    pub last_sync: Option<i64>,
    pub tab: Tab,
    pub servers: Seq<Row>,
    pub available: Seq<Available>,
    pub server_selected: int,
}

impl View for Mode {
    type V = Shown;

    open spec fn view(&self) -> Shown {
        match *self {
            Mode::List => Shown::List,
            Mode::Detail => Shown::Detail,
            Mode::Search { query } => Shown::Search(query@),
        }
    }
}

impl View for Action {
    type V = Act;

    open spec fn view(&self) -> Act {
        match *self {
            Action::Nothing => Act::Nothing,
            Action::Quit => Act::Quit,
            Action::Run(p) => Act::Run(p@),
            Action::Serve(p) => Act::Serve(p@),
            Action::Rescore(uc) => Act::Rescore(uc),
            Action::StartSync => Act::StartSync,
            Action::StopServer(h) => Act::StopServer(h@),
            Action::CopyEndpoint(s) => Act::CopyEndpoint(s@),
        }
    }
}

pub open spec fn run_view(p: Option<Result<RunPlan, String>>) -> Option<Result<Run, Seq<char>>> {
    match p {
        Some(Ok(r)) => Some(Ok(r@)),
        Some(Err(e)) => Some(Err(e@)),
        None => None,
    }
}

pub open spec fn serve_view(p: Option<Result<ServePlan, String>>) -> Option<
    Result<Serve, Seq<char>>,
> {
    match p {
        Some(Ok(r)) => Some(Ok(r@)),
        Some(Err(e)) => Some(Err(e@)),
        None => None,
    }
}

impl View for TuiState {
    type V = State;

    open spec fn view(&self) -> State {
        State {
            rows: self.rows.deep_view(),
            all_rows: self.all_rows.deep_view(),
            selected: self.selected as int,
            use_case: self.use_case,
            mode: self.mode@,
            query: self.query@,
            runtimes: self.runtimes@,
            budget: self.budget,
            last_error: self.last_error.deep_view(),
            detail_plan: run_view(self.detail_plan),
            detail_serve_plan: serve_view(self.detail_serve_plan),
            detail_variant: self.detail_variant as int,
            sync_status: self.sync_status,
            tick: self.tick,
            last_sync: self.last_sync,
            tab: self.tab,
            servers: self.servers.deep_view(),
            available: self.available.deep_view(),
            server_selected: self.server_selected as int,
        }
    }
}

/// A state in which every row has its variant and no count is out of range.
pub open spec fn state_wf(s: State) -> bool {
    &&& rows_wf(s.rows)
    &&& rows_wf(s.all_rows)
    &&& 0 <= s.selected < usize::MAX
    &&& 0 <= s.server_selected < usize::MAX
    &&& s.servers.len() + s.available.len() < usize::MAX
}

/// The cursors point at rows, or at the top where there are none.
pub open spec fn in_bounds(s: State) -> bool {
    &&& 0 <= s.selected
    &&& s.selected < s.rows.len() || s.selected == 0
    &&& 0 <= s.server_selected
    &&& s.server_selected < s.servers.len() + s.available.len() || s.server_selected == 0
}

/// `i` moved to the last of `n` places if it lies behind them.
pub open spec fn clamped(i: int, n: nat) -> int {
    if i < n {
        i
    } else if n == 0 {
        0
    } else {
        n - 1
    }
}

/// The rows whose name, in lower case, holds `needle`.
pub open spec fn rows_with(rows: Seq<Ranked>, low: Seq<Seq<char>>, needle: Seq<char>) -> Seq<Ranked>
    decreases rows.len(),
{
    if rows.len() == 0 || low.len() != rows.len() {
        Seq::empty()
    } else {
        let before = rows_with(rows.drop_last(), low.drop_last(), needle);
        if contains(low.last(), needle) {
            before.push(rows.last())
        } else {
            before
        }
    }
}

/// The names of the rows in lower case.
pub open spec fn low_names(rows: Seq<Ranked>) -> Seq<Seq<char>> {
    rows.map_values(|r: Ranked| lowercase(r.model.name))
}

/// The rows that a search shows: all of them for an empty one.
pub open spec fn found_rows(all: Seq<Ranked>, q: Seq<char>) -> Seq<Ranked> {
    if q.len() == 0 || lowercase(q).len() == 0 {
        all
    } else {
        rows_with(all, low_names(all), lowercase(q))
    }
}

/// The state with another search: the cursor goes to the top.
pub open spec fn searched(s: State, q: Seq<char>) -> State {
    State { query: q, rows: found_rows(s.all_rows, q), selected: 0, ..s }
}

/// The variant that a plan is for: the one chosen in the detail, else the one
/// picked for the row.
pub open spec fn active_variant(s: State) -> int {
    if s.mode == Shown::Detail {
        s.detail_variant
    } else if s.selected < s.rows.len() {
        s.rows[s.selected].variant_idx as int
    } else {
        0
    }
}

/// How to run the selected row, its context sized for this machine.
pub open spec fn run_for_selected(s: State) -> Option<Result<Run, Seq<char>>> {
    if 0 <= s.selected < s.rows.len() {
        let m = s.rows[s.selected].model;
        let v = m.variants[clamped(active_variant(s), m.variants.len())];
        let ctx = resolved_ctx(None, figures(m, v), s.budget, m.context_max);
        match run_plan(m, v, s.runtimes, Some(ctx)) {
            Ok(p) => Some(Ok(p)),
            Err(f) => Some(Err(failure_text(f))),
        }
    } else {
        None
    }
}

/// How to serve the selected row, its context sized for this machine.
pub open spec fn serve_for_selected(s: State) -> Option<Result<Serve, Seq<char>>> {
    if 0 <= s.selected < s.rows.len() {
        let m = s.rows[s.selected].model;
        let v = m.variants[clamped(active_variant(s), m.variants.len())];
        let ctx = resolved_ctx(None, figures(m, v), s.budget, m.context_max);
        match serve_plan(m, v, s.runtimes, None, Some(ctx)) {
            Ok(p) => Some(Ok(p)),
            Err(f) => Some(Err(failure_text(f))),
        }
    } else {
        None
    }
}

/// The state with the detail's plans computed anew.
pub open spec fn with_plans(s: State) -> State {
    State {
        detail_plan: run_for_selected(s),
        detail_serve_plan: serve_for_selected(s),
        ..s
    }
}

/// The list again, without the detail's plans.
pub open spec fn detail_closed(s: State) -> State {
    State { mode: Shown::List, detail_plan: None, detail_serve_plan: None, ..s }
}

/// The detail of the selected row, opened on the variant picked for it.
pub open spec fn detail_opened(s: State) -> State {
    if 0 <= s.selected < s.rows.len() {
        with_plans(
            State {
                detail_variant: s.rows[s.selected].variant_idx as int,
                mode: Shown::Detail,
                ..s
            },
        )
    } else {
        s
    }
}

/// The variant `delta` places on in the order of quality, no further than its
/// ends.
pub open spec fn moved_variant(m: Model, current: int, delta: int) -> int {
    let order = quality_order(model_figures(m));
    let pos = match order.index_of_first(current as usize) {
        Some(i) => i,
        None => 0,
    };
    let to = pos + delta;
    order[
        if to < 0 {
            0
        } else {
            clamped(to, order.len())
        }
    ] as int
}

/// The detail moved to another variant, its plans computed anew.
pub open spec fn variant_moved(s: State, delta: int) -> State {
    if 0 <= s.selected < s.rows.len() {
        with_plans(
            State {
                detail_variant: moved_variant(s.rows[s.selected].model, s.detail_variant, delta),
                ..s
            },
        )
    } else {
        s
    }
}

/// Running the selected row: a plan that fails is shown, nothing else happens.
pub open spec fn run_pressed(s: State) -> (State, Act) {
    match run_for_selected(s) {
        Some(Ok(p)) => (s, Act::Run(p)),
        Some(Err(e)) => (State { last_error: Some(e), ..s }, Act::Nothing),
        None => (s, Act::Nothing),
    }
}

/// Serving the selected row: the detail closes, since the servers are shown
/// next. A plan that fails is shown, nothing else happens.
pub open spec fn serve_pressed(s: State) -> (State, Act) {
    match serve_for_selected(s) {
        Some(Ok(p)) => (detail_closed(s), Act::Serve(p)),
        Some(Err(e)) => (State { last_error: Some(e), ..s }, Act::Nothing),
        None => (s, Act::Nothing),
    }
}

/// What a key does while a search is typed. Keys with a modifier are no input.
pub open spec fn search_key(s: State, q: Seq<char>, k: KeyEvent) -> (State, Act) {
    match k.code {
        KeyCode::Esc => (searched(State { mode: Shown::List, ..s }, ""@), Act::Nothing),
        KeyCode::Enter => (searched(State { mode: Shown::List, ..s }, q), Act::Nothing),
        KeyCode::Backspace => {
            let shorter = if q.len() > 0 {
                q.drop_last()
            } else {
                q
            };
            (searched(State { mode: Shown::Search(shorter), ..s }, shorter), Act::Nothing)
        },
        KeyCode::Char(c) => if !k.ctrl && !k.alt {
            (searched(State { mode: Shown::Search(q.push(c)), ..s }, q.push(c)), Act::Nothing)
        } else {
            (s, Act::Nothing)
        },
        _ => (s, Act::Nothing),
    }
}

/// What a key does in the detail.
pub open spec fn detail_key(s: State, k: KeyEvent) -> (State, Act) {
    match k.code {
        KeyCode::Esc => (detail_closed(s), Act::Nothing),
        KeyCode::Enter => (detail_closed(s), Act::Nothing),
        KeyCode::Up => (variant_moved(s, -1), Act::Nothing),
        KeyCode::Down => (variant_moved(s, 1), Act::Nothing),
        KeyCode::Char(c) => if c == 'q' {
            (detail_closed(s), Act::Nothing)
        } else if c == 'x' {
            run_pressed(s)
        } else if c == 's' {
            serve_pressed(s)
        } else {
            (s, Act::Nothing)
        },
        _ => (s, Act::Nothing),
    }
}

pub open spec fn use_case_set(s: State, uc: UseCase) -> (State, Act) {
    (State { use_case: uc, ..s }, Act::Rescore(uc))
}

/// What a key does in the list of models.
pub open spec fn models_key(s: State, k: KeyEvent) -> (State, Act) {
    match k.code {
        KeyCode::Up => (
            State {
                selected: if s.selected > 0 {
                    s.selected - 1
                } else {
                    0
                },
                ..s
            },
            Act::Nothing,
        ),
        KeyCode::Down => (
            State { selected: clamped(s.selected + 1, s.rows.len()), ..s },
            Act::Nothing,
        ),
        KeyCode::Enter => (detail_opened(s), Act::Nothing),
        KeyCode::Char(c) => if c == 'q' {
            (s, Act::Quit)
        } else if c == 'x' {
            run_pressed(s)
        } else if c == 's' {
            serve_pressed(s)
        } else if c == '/' {
            (State { mode: Shown::Search(Seq::empty()), ..s }, Act::Nothing)
        } else if c == 'g' {
            use_case_set(s, UseCase::General)
        } else if c == 'c' {
            use_case_set(s, UseCase::Coding)
        } else if c == 'r' {
            use_case_set(s, UseCase::Reasoning)
        } else if c == 'h' {
            use_case_set(s, UseCase::Chat)
        } else if c == 'R' {
            (s, Act::StartSync)
        } else {
            (s, Act::Nothing)
        },
        _ => (s, Act::Nothing),
    }
}

/// The running server under the cursor.
pub open spec fn running_selected(s: State) -> Option<Row> {
    if 0 <= s.server_selected < s.servers.len() {
        Some(s.servers[s.server_selected])
    } else {
        None
    }
}

/// The available model under the cursor.
pub open spec fn available_selected(s: State) -> Option<Available> {
    let i = s.server_selected - s.servers.len();
    if 0 <= i < s.available.len() {
        Some(s.available[i])
    } else {
        None
    }
}

/// What a key does in the list of servers.
pub open spec fn servers_key(s: State, k: KeyEvent) -> (State, Act) {
    match k.code {
        KeyCode::Up => (
            State {
                server_selected: if s.server_selected > 0 {
                    s.server_selected - 1
                } else {
                    0
                },
                ..s
            },
            Act::Nothing,
        ),
        KeyCode::Down => (
            State {
                server_selected: clamped(
                    s.server_selected + 1,
                    s.servers.len() + s.available.len(),
                ),
                ..s
            },
            Act::Nothing,
        ),
        KeyCode::Enter => match available_selected(s) {
            Some(a) => (s, Act::Serve(a.plan)),
            None => (s, Act::Nothing),
        },
        KeyCode::Char(c) => if c == 'q' {
            (s, Act::Quit)
        } else if c == 'x' {
            match running_selected(s) {
                Some(r) => (s, Act::StopServer(r.stop)),
                None => (s, Act::Nothing),
            }
        } else if c == 'c' {
            match running_selected(s) {
                Some(r) => (s, Act::CopyEndpoint(r.openai_url)),
                None => (s, Act::Nothing),
            }
        } else {
            (s, Act::Nothing)
        },
        _ => (s, Act::Nothing),
    }
}

pub open spec fn other_tab(t: Tab) -> Tab {
    match t {
        Tab::Models => Tab::Servers,
        Tab::Servers => Tab::Models,
    }
}

/// What a key does. It clears the last error. Control-C quits wherever it is
/// pressed.
pub open spec fn on_key(before: State, k: KeyEvent) -> (State, Act) {
    let s = State { last_error: None, ..before };
    if k.ctrl && k.code == KeyCode::Char('c') {
        (s, Act::Quit)
    } else {
        match s.mode {
            Shown::Search(q) => search_key(s, q, k),
            Shown::Detail => detail_key(s, k),
            Shown::List => if k.code == KeyCode::Tab {
                (State { tab: other_tab(s.tab), ..s }, Act::Nothing)
            } else {
                match s.tab {
                    Tab::Models => models_key(s, k),
                    Tab::Servers => servers_key(s, k),
                }
            },
        }
    }
}

// ---------------------------------------------------------------------------
// The machine
// ---------------------------------------------------------------------------

/// The rows whose name, in lower case, holds `needle`.
pub fn filter_rows(rows: &Vec<ScoredModel>, low: &Vec<String>, needle: &str) -> (r: Vec<
    ScoredModel,
>)
    requires
        low@.len() == rows@.len(),
    ensures
        r.deep_view() == rows_with(rows.deep_view(), low.deep_view(), needle@),
{
    let ghost all = rows.deep_view();
    let ghost names = low.deep_view();
    let needle_cs = chars_of(needle);
    let mut out: Vec<ScoredModel> = Vec::new();
    assert(out.deep_view() =~= Seq::<Ranked>::empty());
    for i in 0..rows.len()
        invariant
            all == rows.deep_view(),
            names == low.deep_view(),
            low@.len() == rows@.len(),
            needle_cs@ == needle@,
            out.deep_view() == rows_with(all.take(i as int), names.take(i as int), needle@),
    {
        assert(all.take(i as int + 1).drop_last() =~= all.take(i as int));
        assert(names.take(i as int + 1).drop_last() =~= names.take(i as int));
        assert(names.take(i as int + 1).last() == low@[i as int]@);
        assert(all.take(i as int + 1).last() == rows@[i as int]@);
        if contains_chars(&chars_of(low[i].as_str()), &needle_cs) {
            let ghost before = out.deep_view();
            out.push(rows[i].clone());
            assert(out.deep_view() =~= before.push(rows@[i as int]@));
        }
    }
    assert(all.take(all.len() as int) =~= all);
    assert(names.take(names.len() as int) =~= names);
    out
}

fn names_low(rows: &Vec<ScoredModel>) -> (r: Vec<String>)
    ensures
        r.deep_view() == low_names(rows.deep_view()),
        r@.len() == rows@.len(),
{
    let mut out: Vec<String> = Vec::new();
    for i in 0..rows.len()
        invariant
            out@.len() == i,
            forall|j: int|
                0 <= j < i ==> (#[trigger] out@[j])@ == lowercase(rows@[j]@.model.name),
    {
        out.push(to_lowercase(rows[i].model.name.as_str()));
    }
    assert(out.deep_view() =~= low_names(rows.deep_view()));
    out
}

proof fn lemma_rows_with(rows: Seq<Ranked>, low: Seq<Seq<char>>, needle: Seq<char>)
    ensures
        rows_with(rows, low, needle).len() <= rows.len(),
        forall|i: int|
            0 <= i < rows_with(rows, low, needle).len() ==> rows.contains(
                #[trigger] rows_with(rows, low, needle)[i],
            ),
    decreases rows.len(),
{
    if rows.len() > 0 && low.len() == rows.len() {
        let t = rows.drop_last();
        lemma_rows_with(t, low.drop_last(), needle);
        let before = rows_with(t, low.drop_last(), needle);
        let all = rows_with(rows, low, needle);
        assert forall|i: int| 0 <= i < all.len() implies rows.contains(#[trigger] all[i]) by {
            if i < before.len() {
                assert(all[i] == before[i]);
                assert(t.contains(before[i]));
                let k = choose|k: int| 0 <= k < t.len() && t[k] == before[i];
                assert(rows[k] == all[i]);
            } else {
                assert(rows[rows.len() - 1] == all[i]);
            }
        }
    }
}

proof fn lemma_found_wf(all: Seq<Ranked>, q: Seq<char>)
    requires
        rows_wf(all),
    ensures
        rows_wf(found_rows(all, q)),
{
    let found = found_rows(all, q);
    if q.len() > 0 && lowercase(q).len() > 0 {
        lemma_rows_with(all, low_names(all), lowercase(q));
        assert forall|i: int| 0 <= i < found.len() implies row_wf(#[trigger] found[i]) by {
            assert(all.contains(found[i]));
            let k = choose|k: int| 0 <= k < all.len() && all[k] == found[i];
            assert(row_wf(all[k]));
        }
    }
}

fn without_last(s: &str) -> (r: String)
    ensures
        r@ == if s@.len() > 0 {
            s@.drop_last()
        } else {
            s@
        },
{
    let cs = chars_of(s);
    if cs.len() == 0 {
        return s.to_owned();
    }
    assert(cs@.subrange(0, cs@.len() - 1) =~= cs@.drop_last());
    string_of(&part(&cs, 0, cs.len() - 1))
}

impl TuiState {
    pub fn new(
        rows: Vec<ScoredModel>,
        use_case: UseCase,
        runtimes: RuntimesStatus,
        budget: MemoryBudget,
    ) -> (r: TuiState)
        ensures
            r@ == (State {
                rows: rows.deep_view(),
                all_rows: rows.deep_view(),
                selected: 0,
                use_case,
                mode: Shown::List,
                query: Seq::empty(),
                runtimes: runtimes@,
                budget,
                last_error: None,
                detail_plan: None,
                detail_serve_plan: None,
                detail_variant: 0,
                sync_status: SyncStatus::Idle,
                tick: 0,
                last_sync: None,
                tab: Tab::Models,
                servers: Seq::empty(),
                available: Seq::empty(),
                server_selected: 0,
            }),
    {
        let servers: Vec<ServerRow> = Vec::new();
        let available: Vec<AvailableRow> = Vec::new();
        assert(servers.deep_view() =~= Seq::<Row>::empty());
        assert(available.deep_view() =~= Seq::<Available>::empty());
        TuiState {
            all_rows: clone_rows(&rows),
            rows,
            selected: 0,
            use_case,
            mode: Mode::List,
            query: String::new(),
            runtimes,
            budget,
            last_error: None,
            detail_plan: None,
            detail_serve_plan: None,
            detail_variant: 0,
            sync_status: SyncStatus::Idle,
            tick: 0,
            last_sync: None,
            tab: Tab::Models,
            servers,
            available,
            server_selected: 0,
        }
    }

    /// Shows the rows that a search finds; the cursor goes to the top.
    pub fn apply_search(&mut self, q: &str)
        ensures
            final(self)@ == searched(old(self)@, q@),
    {
        let needle = to_lowercase(q);
        self.query = q.to_owned();
        if q.is_empty() || needle.as_str().is_empty() {
            self.rows = clone_rows(&self.all_rows);
        } else {
            let low = names_low(&self.all_rows);
            self.rows = filter_rows(&self.all_rows, &low, needle.as_str());
        }
        self.selected = 0;
    }

    fn active_variant_idx(&self) -> (r: usize)
        ensures
            r == active_variant(self@),
    {
        let detail = match &self.mode {
            Mode::Detail => true,
            _ => false,
        };
        if detail {
            self.detail_variant
        } else if self.selected < self.rows.len() {
            self.rows[self.selected].variant_idx
        } else {
            0
        }
    }

    /// How to run the selected row, its context sized for this machine.
    pub fn plan_for_selected(&self) -> (r: Option<Result<RunPlan, String>>)
        requires
            rows_wf(self@.rows),
        ensures
            run_view(r) == run_for_selected(self@),
    {
        if self.selected >= self.rows.len() {
            return None;
        }
        let row = &self.rows[self.selected];
        assert(row_wf(self@.rows[self.selected as int]));
        assert(row@ == self@.rows[self.selected as int]);
        let n: usize = row.model.variants.len();
        let active: usize = self.active_variant_idx();
        let idx: usize = if active < n {
            active
        } else {
            n - 1
        };
        let variant = &row.model.variants[idx];
        assert(row@.model.variants[idx as int] == variant@);
        let mv = row.model.to_model_variant(variant);
        let ctx: u32 = resolve_ctx(None, &mv, &self.budget, row.model.context_max);
        match plan_run(&row.model, variant, &self.runtimes, Some(ctx)) {
            Ok(p) => Some(Ok(p)),
            Err(e) => Some(Err(e.message())),
        }
    }

    /// How to serve the selected row, its context sized for this machine.
    pub fn serve_plan_for_selected(&self) -> (r: Option<Result<ServePlan, String>>)
        requires
            rows_wf(self@.rows),
        ensures
            serve_view(r) == serve_for_selected(self@),
    {
        if self.selected >= self.rows.len() {
            return None;
        }
        let row = &self.rows[self.selected];
        assert(row_wf(self@.rows[self.selected as int]));
        assert(row@ == self@.rows[self.selected as int]);
        let n: usize = row.model.variants.len();
        let active: usize = self.active_variant_idx();
        let idx: usize = if active < n {
            active
        } else {
            n - 1
        };
        let variant = &row.model.variants[idx];
        assert(row@.model.variants[idx as int] == variant@);
        let mv = row.model.to_model_variant(variant);
        let ctx: u32 = resolve_ctx(None, &mv, &self.budget, row.model.context_max);
        match plan_serve(&row.model, variant, &self.runtimes, None, Some(ctx)) {
            Ok(p) => Some(Ok(p)),
            Err(e) => Some(Err(e.message())),
        }
    }

    /// Closes the detail.
    pub fn close_detail(&mut self)
        ensures
            final(self)@ == detail_closed(old(self)@),
    {
        self.mode = Mode::List;
        self.detail_plan = None;
        self.detail_serve_plan = None;
    }

    fn compute_plans(&mut self)
        requires
            rows_wf(old(self)@.rows),
        ensures
            final(self)@ == with_plans(old(self)@),
    {
        let run = self.plan_for_selected();
        let serve = self.serve_plan_for_selected();
        self.detail_plan = run;
        self.detail_serve_plan = serve;
    }

    fn open_detail(&mut self)
        requires
            rows_wf(old(self)@.rows),
        ensures
            final(self)@ == detail_opened(old(self)@),
    {
        if self.selected < self.rows.len() {
            assert(self@.rows[self.selected as int] == self.rows@[self.selected as int]@);
            self.detail_variant = self.rows[self.selected].variant_idx;
            self.mode = Mode::Detail;
            self.compute_plans();
        }
    }

    fn move_detail_variant(&mut self, down: bool)
        requires
            rows_wf(old(self)@.rows),
        ensures
            final(self)@ == variant_moved(
                old(self)@,
                if down {
                    1
                } else {
                    -1
                },
            ),
    {
        if self.selected >= self.rows.len() {
            return;
        }
        let ghost m = self@.rows[self.selected as int].model;
        assert(row_wf(self@.rows[self.selected as int]));
        let order = {
            let model = &self.rows[self.selected].model;
            assert(model@ == m);
            let mvs = model.model_variants();
            variants_by_quality(mvs.as_slice())
        };
        let ghost figs = model_figures(m);
        assert(order@ == quality_order(figs));
        assert(order@.len() == m.variants.len());
        let n: usize = order.len();
        let pos: usize = position(&order, self.detail_variant);
        let to: usize = if down {
            if pos + 1 < n {
                pos + 1
            } else {
                n - 1
            }
        } else if pos > 0 {
            pos - 1
        } else {
            0
        };
        self.detail_variant = order[to];
        self.compute_plans();
    }

    fn run_selected(&mut self) -> (r: Action)
        requires
            rows_wf(old(self)@.rows),
        ensures
            (final(self)@, r@) == run_pressed(old(self)@),
    {
        match self.plan_for_selected() {
            Some(Ok(plan)) => Action::Run(plan),
            Some(Err(e)) => {
                self.last_error = Some(e);
                Action::Nothing
            },
            None => Action::Nothing,
        }
    }

    fn serve_selected(&mut self) -> (r: Action)
        requires
            rows_wf(old(self)@.rows),
        ensures
            (final(self)@, r@) == serve_pressed(old(self)@),
    {
        match self.serve_plan_for_selected() {
            Some(Ok(plan)) => {
                self.close_detail();
                Action::Serve(plan)
            },
            Some(Err(e)) => {
                self.last_error = Some(e);
                Action::Nothing
            },
            None => Action::Nothing,
        }
    }

    fn set_use_case(&mut self, uc: UseCase) -> (r: Action)
        ensures
            (final(self)@, r@) == use_case_set(old(self)@, uc),
    {
        self.use_case = uc;
        Action::Rescore(uc)
    }

    fn handle_search_key(&mut self, q: String, k: KeyEvent) -> (r: Action)
        requires
            old(self)@.mode == Shown::Search(q@),
        ensures
            (final(self)@, r@) == search_key(old(self)@, q@, k),
    {
        match k.code {
            KeyCode::Esc => {
                self.mode = Mode::List;
                self.apply_search("");
            },
            KeyCode::Enter => {
                self.mode = Mode::List;
                self.apply_search(q.as_str());
            },
            KeyCode::Backspace => {
                let shorter = without_last(q.as_str());
                self.mode = Mode::Search { query: shorter.clone() };
                self.apply_search(shorter.as_str());
            },
            KeyCode::Char(c) => {
                if !k.ctrl && !k.alt {
                    let mut longer = q;
                    longer.push(c);
                    self.mode = Mode::Search { query: longer.clone() };
                    self.apply_search(longer.as_str());
                }
            },
            _ => {},
        }
        Action::Nothing
    }

    fn handle_detail_key(&mut self, k: KeyEvent) -> (r: Action)
        requires
            rows_wf(old(self)@.rows),
        ensures
            (final(self)@, r@) == detail_key(old(self)@, k),
    {
        match k.code {
            KeyCode::Esc => self.close_detail(),
            KeyCode::Enter => self.close_detail(),
            KeyCode::Up => self.move_detail_variant(false),
            KeyCode::Down => self.move_detail_variant(true),
            KeyCode::Char(c) => {
                if c == 'q' {
                    self.close_detail();
                } else if c == 'x' {
                    return self.run_selected();
                } else if c == 's' {
                    return self.serve_selected();
                }
            },
            _ => {},
        }
        Action::Nothing
    }

    fn handle_models_key(&mut self, k: KeyEvent) -> (r: Action)
        requires
            state_wf(old(self)@),
        ensures
            (final(self)@, r@) == models_key(old(self)@, k),
    {
        match k.code {
            KeyCode::Up => {
                if self.selected > 0 {
                    self.selected = self.selected - 1;
                }
            },
            KeyCode::Down => {
                let n: usize = self.rows.len();
                self.selected = if self.selected + 1 < n {
                    self.selected + 1
                } else if n == 0 {
                    0
                } else {
                    n - 1
                };
            },
            KeyCode::Enter => self.open_detail(),
            KeyCode::Char(c) => {
                if c == 'q' {
                    return Action::Quit;
                } else if c == 'x' {
                    return self.run_selected();
                } else if c == 's' {
                    return self.serve_selected();
                } else if c == '/' {
                    self.mode = Mode::Search { query: String::new() };
                } else if c == 'g' {
                    return self.set_use_case(UseCase::General);
                } else if c == 'c' {
                    return self.set_use_case(UseCase::Coding);
                } else if c == 'r' {
                    return self.set_use_case(UseCase::Reasoning);
                } else if c == 'h' {
                    return self.set_use_case(UseCase::Chat);
                } else if c == 'R' {
                    return Action::StartSync;
                }
            },
            _ => {},
        }
        Action::Nothing
    }

    fn handle_servers_key(&mut self, k: KeyEvent) -> (r: Action)
        requires
            state_wf(old(self)@),
        ensures
            (final(self)@, r@) == servers_key(old(self)@, k),
    {
        let n: usize = self.servers.len();
        assert(n == self@.servers.len());
        assert(self.available@.len() == self@.available.len());
        match k.code {
            KeyCode::Up => {
                if self.server_selected > 0 {
                    self.server_selected = self.server_selected - 1;
                }
            },
            KeyCode::Down => {
                let len: usize = n + self.available.len();
                self.server_selected = if self.server_selected + 1 < len {
                    self.server_selected + 1
                } else if len == 0 {
                    0
                } else {
                    len - 1
                };
            },
            KeyCode::Enter => {
                if self.server_selected >= n && self.server_selected - n < self.available.len() {
                    let a = &self.available[self.server_selected - n];
                    assert(self@.available[self.server_selected - n] == a@);
                    return Action::Serve(a.plan.clone());
                }
            },
            KeyCode::Char(c) => {
                if c == 'q' {
                    return Action::Quit;
                }
                if self.server_selected < n {
                    let r = &self.servers[self.server_selected];
                    assert(self@.servers[self.server_selected as int] == r@);
                    if c == 'x' {
                        return Action::StopServer(r.stop.clone());
                    } else if c == 'c' {
                        return Action::CopyEndpoint(r.openai_url.clone());
                    }
                }
            },
            _ => {},
        }
        Action::Nothing
    }

    /// Takes a key and says what is to be done.
    pub fn handle_key(&mut self, key: KeyEvent) -> (r: Action)
        requires
            state_wf(old(self)@),
        ensures
            (final(self)@, r@) == on_key(old(self)@, key),
    {
        self.last_error = None;
        if key.ctrl && key.code == KeyCode::Char('c') {
            return Action::Quit;
        }
        let query: Option<String> = match &self.mode {
            Mode::Search { query } => Some(query.clone()),
            _ => None,
        };
        if let Some(q) = query {
            return self.handle_search_key(q, key);
        }
        let detail = match &self.mode {
            Mode::Detail => true,
            _ => false,
        };
        if detail {
            return self.handle_detail_key(key);
        }
        if key.code == KeyCode::Tab {
            self.tab = match self.tab {
                Tab::Models => Tab::Servers,
                Tab::Servers => Tab::Models,
            };
            return Action::Nothing;
        }
        match self.tab {
            Tab::Models => self.handle_models_key(key),
            Tab::Servers => self.handle_servers_key(key),
        }
    }
}

// ---------------------------------------------------------------------------
// New rows
// ---------------------------------------------------------------------------

/// The state with rows of another use case: the search and the place of the
/// cursor stay, as far as there are rows.
pub open spec fn rows_set(s: State, rows: Seq<Ranked>, uc: UseCase) -> State {
    let t = searched(State { all_rows: rows, use_case: uc, ..s }, s.query);
    State { selected: clamped(s.selected, t.rows.len()), ..t }
}

/// The names of the rows.
pub open spec fn row_names(rows: Seq<Ranked>) -> Seq<Seq<char>> {
    rows.map_values(|r: Ranked| r.model.name)
}

/// The state with rows of another sync: the search stays, and the cursor
/// follows the model that it was on; to the top if that is gone.
pub open spec fn rows_refreshed(s: State, rows: Seq<Ranked>, uc: UseCase) -> State {
    let t = searched(State { all_rows: rows, use_case: uc, ..s }, s.query);
    let to = if 0 <= s.selected < s.rows.len() {
        match row_names(t.rows).index_of_first(s.rows[s.selected].model.name) {
            Some(i) => i,
            None => 0,
        }
    } else {
        0
    };
    State { selected: clamped(to, t.rows.len()), ..t }
}

/// What tells the rows of the servers apart: the group and the model.
pub open spec fn row_keys(servers: Seq<Row>, available: Seq<Available>) -> Seq<Seq<char>> {
    servers.map_values(|r: Row| "r:"@ + r.model) + available.map_values(
        |a: Available| "a:"@ + a.model,
    )
}

/// The state with other servers: the cursor follows the row that it was on; to
/// the top if that is gone.
pub open spec fn snapshot_set(s: State, servers: Seq<Row>, available: Seq<Available>) -> State {
    let old_keys = row_keys(s.servers, s.available);
    let keys = row_keys(servers, available);
    let to = if 0 <= s.server_selected < old_keys.len() {
        match keys.index_of_first(old_keys[s.server_selected]) {
            Some(i) => i,
            None => 0,
        }
    } else {
        0
    };
    State { servers, available, server_selected: clamped(to, keys.len()), ..s }
}

/// The state without the running server under the cursor.
pub open spec fn selected_removed(s: State) -> State {
    let servers = if 0 <= s.server_selected < s.servers.len() {
        s.servers.remove(s.server_selected)
    } else {
        s.servers
    };
    State {
        servers,
        server_selected: clamped(s.server_selected, servers.len() + s.available.len()),
        ..s
    }
}

fn clamp(i: usize, n: usize) -> (r: usize)
    ensures
        r == clamped(i as int, n as nat),
{
    if i < n {
        i
    } else if n == 0 {
        0
    } else {
        n - 1
    }
}

fn find_name(rows: &Vec<ScoredModel>, name: &str) -> (r: Option<usize>)
    ensures
        match r {
            Some(i) => row_names(rows.deep_view()).index_of_first(name@) == Some(i as int),
            None => row_names(rows.deep_view()).index_of_first(name@) is None,
        },
{
    let ghost names = row_names(rows.deep_view());
    proof {
        names.index_of_first_ensures(name@);
    }
    for i in 0..rows.len()
        invariant
            names == row_names(rows.deep_view()),
            forall|j: int| 0 <= j < i ==> names[j] != name@,
            match names.index_of_first(name@) {
                Some(index) => {
                    &&& names.contains(name@)
                    &&& 0 <= index < names.len()
                    &&& names[index] == name@
                    &&& forall|j: int| 0 <= j < index < names.len() ==> names[j] != name@
                },
                None => !names.contains(name@),
            },
    {
        assert(names[i as int] == rows@[i as int]@.model.name);
        if same(rows[i].model.name.as_str(), name) {
            return Some(i);
        }
    }
    None
}

fn keyed(group: &str, model: &str) -> (r: String)
    ensures
        r@ == group@ + model@,
{
    let mut s = group.to_owned();
    s.append(model);
    s
}

fn keys_of(servers: &Vec<ServerRow>, available: &Vec<AvailableRow>) -> (r: Vec<String>)
    ensures
        r.deep_view() == row_keys(servers.deep_view(), available.deep_view()),
{
    let mut out: Vec<String> = Vec::new();
    let n: usize = servers.len();
    for i in 0..n
        invariant
            n == servers@.len(),
            out@.len() == i,
            forall|j: int| 0 <= j < i ==> (#[trigger] out@[j])@ == "r:"@ + servers@[j]@.model,
    {
        out.push(keyed("r:", servers[i].model.as_str()));
    }
    for i in 0..available.len()
        invariant
            n == servers@.len(),
            out@.len() == n + i,
            forall|j: int| 0 <= j < n ==> (#[trigger] out@[j])@ == "r:"@ + servers@[j]@.model,
            forall|j: int|
                n <= j < n + i ==> (#[trigger] out@[j])@ == "a:"@ + available@[j - n]@.model,
    {
        out.push(keyed("a:", available[i].model.as_str()));
    }
    assert(out.deep_view() =~= row_keys(servers.deep_view(), available.deep_view()));
    out
}

fn find_key(keys: &Vec<String>, key: &str) -> (r: Option<usize>)
    ensures
        match r {
            Some(i) => keys.deep_view().index_of_first(key@) == Some(i as int),
            None => keys.deep_view().index_of_first(key@) is None,
        },
{
    let ghost all = keys.deep_view();
    proof {
        all.index_of_first_ensures(key@);
    }
    for i in 0..keys.len()
        invariant
            all == keys.deep_view(),
            forall|j: int| 0 <= j < i ==> all[j] != key@,
            match all.index_of_first(key@) {
                Some(index) => {
                    &&& all.contains(key@)
                    &&& 0 <= index < all.len()
                    &&& all[index] == key@
                    &&& forall|j: int| 0 <= j < index < all.len() ==> all[j] != key@
                },
                None => !all.contains(key@),
            },
    {
        assert(all[i as int] == keys@[i as int]@);
        if same(keys[i].as_str(), key) {
            return Some(i);
        }
    }
    None
}

impl TuiState {
    /// Takes the rows of another use case.
    pub fn set_rows(&mut self, rows: Vec<ScoredModel>, use_case: UseCase)
        ensures
            final(self)@ == rows_set(old(self)@, rows.deep_view(), use_case),
    {
        self.all_rows = rows;
        self.use_case = use_case;
        let q = self.query.clone();
        let cursor: usize = self.selected;
        self.apply_search(q.as_str());
        assert(self.rows@.len() == self@.rows.len());
        self.selected = clamp(cursor, self.rows.len());
    }

    /// Takes the rows of another sync; the cursor follows its model.
    pub fn set_rows_preserving(&mut self, rows: Vec<ScoredModel>, use_case: UseCase)
        ensures
            final(self)@ == rows_refreshed(old(self)@, rows.deep_view(), use_case),
    {
        let name: Option<String> = if self.selected < self.rows.len() {
            assert(self@.rows[self.selected as int] == self.rows@[self.selected as int]@);
            Some(self.rows[self.selected].model.name.clone())
        } else {
            None
        };
        self.all_rows = rows;
        self.use_case = use_case;
        let q = self.query.clone();
        self.apply_search(q.as_str());
        assert(self.rows@.len() == self@.rows.len());
        let to: usize = match name {
            Some(n) => match find_name(&self.rows, n.as_str()) {
                Some(i) => i,
                None => 0,
            },
            None => 0,
        };
        self.selected = clamp(to, self.rows.len());
    }

    /// Takes what runs and what could be served; the cursor follows its row.
    pub fn set_snapshot(&mut self, running: Vec<ServerRow>, available: Vec<AvailableRow>)
        requires
            running@.len() + available@.len() < usize::MAX,
        ensures
            final(self)@ == snapshot_set(
                old(self)@,
                running.deep_view(),
                available.deep_view(),
            ),
    {
        let old_keys = keys_of(&self.servers, &self.available);
        let keys = keys_of(&running, &available);
        assert(old_keys.deep_view().len() == old_keys@.len());
        let to: usize = if self.server_selected < old_keys.len() {
            let key = old_keys[self.server_selected].as_str();
            assert(old_keys.deep_view()[self.server_selected as int] == key@);
            match find_key(&keys, key) {
                Some(i) => i,
                None => 0,
            }
        } else {
            0
        };
        assert(keys.deep_view().len() == keys@.len());
        self.servers = running;
        self.available = available;
        self.server_selected = clamp(to, keys.len());
    }

    /// Drops the running server under the cursor, once it was stopped.
    pub fn remove_selected(&mut self)
        requires
            state_wf(old(self)@),
        ensures
            final(self)@ == selected_removed(old(self)@),
    {
        let ghost before = self.servers.deep_view();
        if self.server_selected < self.servers.len() {
            let i: usize = self.server_selected;
            self.servers.remove(i);
            assert(self.servers.deep_view() =~= before.remove(i as int));
        }
        assert(self.servers@.len() == self.servers.deep_view().len());
        assert(self.available@.len() == self.available.deep_view().len());
        let len: usize = self.servers.len() + self.available.len();
        self.server_selected = clamp(self.server_selected, len);
    }

    /// The running server under the cursor.
    pub fn selected_server(&self) -> (r: Option<&ServerRow>)
        ensures
            match r {
                Some(row) => running_selected(self@) == Some(row@),
                None => running_selected(self@) is None,
            },
    {
        if self.server_selected < self.servers.len() {
            let row = &self.servers[self.server_selected];
            assert(self@.servers[self.server_selected as int] == row@);
            Some(row)
        } else {
            None
        }
    }
}

pub open spec fn use_case_text(uc: UseCase) -> Seq<char> {
    match uc {
        UseCase::General => "general"@,
        UseCase::Coding => "coding"@,
        UseCase::Chat => "chat"@,
        UseCase::Reasoning => "reasoning"@,
    }
}

pub fn use_case_label(uc: UseCase) -> (r: &'static str)
    ensures
        r@ == use_case_text(uc),
{
    match uc {
        UseCase::General => "general",
        UseCase::Coding => "coding",
        UseCase::Chat => "chat",
        UseCase::Reasoning => "reasoning",
    }
}

// ---------------------------------------------------------------------------
// Laws
// ---------------------------------------------------------------------------

/// No key takes a cursor off its rows, and every state stays one that keys
/// can be pressed in.
pub proof fn keys_keep_cursors_in_bounds(s: State, k: KeyEvent)
    requires
        in_bounds(s),
        state_wf(s),
    ensures
        in_bounds(on_key(s, k).0),
        rows_wf(on_key(s, k).0.rows),
        rows_wf(on_key(s, k).0.all_rows),
{
    if let Shown::Search(q) = s.mode {
        lemma_found_wf(s.all_rows, ""@);
        lemma_found_wf(s.all_rows, q);
        if q.len() > 0 {
            lemma_found_wf(s.all_rows, q.drop_last());
        }
        if let KeyCode::Char(c) = k.code {
            lemma_found_wf(s.all_rows, q.push(c));
        }
    }
}

/// Neither new rows nor new servers nor a stopped server take a cursor off its
/// rows.
pub proof fn updates_keep_cursors_in_bounds(
    s: State,
    rows: Seq<Ranked>,
    uc: UseCase,
    servers: Seq<Row>,
    available: Seq<Available>,
)
    requires
        in_bounds(s),
    ensures
        in_bounds(rows_set(s, rows, uc)),
        in_bounds(rows_refreshed(s, rows, uc)),
        in_bounds(snapshot_set(s, servers, available)),
        in_bounds(selected_removed(s)),
{
    let t = searched(State { all_rows: rows, use_case: uc, ..s }, s.query);
    if 0 <= s.selected < s.rows.len() {
        row_names(t.rows).index_of_first_ensures(s.rows[s.selected].model.name);
    }
    let old_keys = row_keys(s.servers, s.available);
    let keys = row_keys(servers, available);
    if 0 <= s.server_selected < old_keys.len() {
        keys.index_of_first_ensures(old_keys[s.server_selected]);
    }
    assert(keys.len() == servers.len() + available.len());
}

/// Control-C quits in every mode and on every tab, and is never typed into a
/// search.
pub proof fn control_c_always_quits(s: State, k: KeyEvent)
    requires
        k.ctrl,
        k.code == KeyCode::Char('c'),
    ensures
        on_key(s, k).1 == Act::Quit,
        on_key(s, k).0 == (State { last_error: None, ..s }),
{
}

/// Pressing the tab key twice in the list leads back.
pub proof fn tab_twice_returns(s: State, k: KeyEvent)
    requires
        s.mode == Shown::List,
        k.code == KeyCode::Tab,
    ensures
        on_key(on_key(s, k).0, k).0 == (State { last_error: None, ..s }),
{
}

/// After new rows the cursor is on the model that it was on, if that is still
/// shown.
pub proof fn cursor_follows_its_model(s: State, rows: Seq<Ranked>, uc: UseCase)
    requires
        0 <= s.selected < s.rows.len(),
        row_names(found_rows(rows, s.query)).contains(s.rows[s.selected].model.name),
    ensures
        ({
            let t = rows_refreshed(s, rows, uc);
            &&& 0 <= t.selected < t.rows.len()
            &&& t.rows[t.selected].model.name == s.rows[s.selected].model.name
        }),
{
    let names = row_names(found_rows(rows, s.query));
    names.index_of_first_ensures(s.rows[s.selected].model.name);
}

/// Clearing a search shows all rows again.
pub proof fn escape_shows_all_rows(s: State, q: Seq<char>, k: KeyEvent)
    requires
        s.mode == Shown::Search(q),
        k.code == KeyCode::Esc,
    ensures
        on_key(s, k).0.rows == s.all_rows,
        on_key(s, k).0.mode == Shown::List,
        on_key(s, k).0.query == ""@,
{
    reveal_strlit("");
}

proof fn lemma_found_rows(rows: Seq<Ranked>, low: Seq<Seq<char>>, needle: Seq<char>)
    requires
        low.len() == rows.len(),
    ensures
        forall|k: int|
            0 <= k < rows_with(rows, low, needle).len() ==> exists|i: int|
                0 <= i < rows.len() && contains(low[i], needle) && #[trigger] rows[i]
                    == #[trigger] rows_with(rows, low, needle)[k],
        forall|i: int|
            0 <= i < rows.len() && contains(low[i], needle) ==> rows_with(
                rows,
                low,
                needle,
            ).contains(#[trigger] rows[i]),
    decreases rows.len(),
{
    if rows.len() > 0 {
        let (f, a) = (rows.drop_last(), low.drop_last());
        lemma_found_rows(f, a, needle);
        let (before, all) = (rows_with(f, a, needle), rows_with(rows, low, needle));
        let n = rows.len() - 1;
        assert forall|k: int| 0 <= k < all.len() implies exists|i: int|
            0 <= i < rows.len() && contains(low[i], needle) && #[trigger] rows[i]
                == #[trigger] all[k] by {
            if k < before.len() {
                let i = choose|i: int|
                    0 <= i < f.len() && contains(a[i], needle) && #[trigger] f[i] == before[k];
                assert(rows[i] == f[i] && low[i] == a[i] && all[k] == before[k]);
            } else {
                assert(rows[n] == rows.last() && low[n] == low.last());
            }
        }
        assert forall|i: int| 0 <= i < rows.len() && contains(low[i], needle) implies all.contains(
            #[trigger] rows[i],
        ) by {
            if i < n {
                assert(rows[i] == f[i] && low[i] == a[i]);
                let k = choose|k: int| 0 <= k < before.len() && before[k] == f[i];
                assert(all[k] == before[k]);
            } else {
                assert(all[all.len() - 1] == rows[i]);
            }
        }
    }
}

/// A search shows the rows whose model's name holds the query, letters in either
/// case, and each of these.
pub proof fn search_shows_what_holds_the_query(all: Seq<Ranked>, q: Seq<char>, i: int)
    requires
        0 <= i < all.len(),
        lowercase(q).len() > 0,
        q.len() > 0,
    ensures
        contains(lowercase(all[i].model.name), lowercase(q)) ==> found_rows(all, q).contains(
            all[i],
        ),
        forall|k: int|
            0 <= k < found_rows(all, q).len() ==> contains(
                lowercase((#[trigger] found_rows(all, q)[k]).model.name),
                lowercase(q),
            ),
{
    let low = low_names(all);
    lemma_found_rows(all, low, lowercase(q));
    assert(low[i] == lowercase(all[i].model.name));
    let found = found_rows(all, q);
    assert forall|k: int| 0 <= k < found.len() implies contains(
        lowercase((#[trigger] found[k]).model.name),
        lowercase(q),
    ) by {
        let j = choose|j: int|
            0 <= j < all.len() && contains(low[j], lowercase(q)) && #[trigger] all[j] == found[k];
        assert(low[j] == lowercase(all[j].model.name));
    }
}

/// In the list a key down goes to the next row and a key up back; at the ends
/// they stay.
pub proof fn down_and_up_again_returns(s: State, down: KeyEvent, up: KeyEvent)
    requires
        s.mode == Shown::List,
        in_bounds(s),
        down.code == KeyCode::Down,
        up.code == KeyCode::Up,
    ensures
        s.tab == Tab::Models && s.selected + 1 < s.rows.len() ==> on_key(s, down).0.selected
            == s.selected + 1 && on_key(on_key(s, down).0, up).0.selected == s.selected,
        s.tab == Tab::Models && s.selected + 1 == s.rows.len() ==> on_key(s, down).0.selected
            == s.selected,
        s.tab == Tab::Models && s.selected == 0 ==> on_key(s, up).0.selected == 0,
        s.tab == Tab::Servers && s.server_selected + 1 < s.servers.len() + s.available.len()
            ==> on_key(s, down).0.server_selected == s.server_selected + 1 && on_key(
            on_key(s, down).0,
            up,
        ).0.server_selected == s.server_selected,
        s.tab == Tab::Servers && s.server_selected == 0 ==> on_key(s, up).0.server_selected == 0,
{
}

/// To take a letter back undoes typing it.
pub proof fn backspace_undoes_a_letter(s: State, q: Seq<char>, letter: KeyEvent, back: KeyEvent)
    requires
        s.mode == Shown::Search(q),
        letter.code is Char,
        !letter.ctrl,
        !letter.alt,
        back.code == KeyCode::Backspace,
    ensures
        ({
            let t = on_key(s, letter).0;
            let u = on_key(t, back).0;
            &&& t.mode == Shown::Search(q.push(letter.code->Char_0))
            &&& t.query == q.push(letter.code->Char_0)
            &&& u.mode == s.mode
            &&& u.query == q
            &&& u.rows == found_rows(s.all_rows, q)
        }),
{
    let c = letter.code->Char_0;
    assert(q.push(c).drop_last() =~= q);
}

/// In the detail a key down leads to a variant of less quality, a key up to one
/// of better quality, each to the next one; at the ends the variant stays.
pub proof fn down_leads_to_less_quality(m: Model, order: Seq<usize>, current: int)
    requires
        is_quality_order(model_figures(m), order),
        0 <= current < m.variants.len() <= usize::MAX,
    ensures
        ({
            let figs = model_figures(m);
            let down = moved_variant(m, current, 1);
            let up = moved_variant(m, current, -1);
            &&& down == current || better(figs, current, down)
            &&& up == current || better(figs, up, current)
            &&& down == current ==> forall|j: int|
                0 <= j < m.variants.len() && j != current ==> #[trigger] better(figs, j, current)
            &&& up == current ==> forall|j: int|
                0 <= j < m.variants.len() && j != current ==> #[trigger] better(figs, current, j)
        }),
{
    let figs = model_figures(m);
    assert(is_quality_order(figs, quality_order(figs)));
    let order = quality_order(figs);
    let x = current as usize;
    assert(order.contains(x));
    order.index_of_first_ensures(x);
    let pos = order.index_of_first(x)->Some_0;
    if pos + 1 < order.len() {
        assert(better(figs, order[pos] as int, order[pos + 1] as int));
        lemma_not_better_than_itself(figs, current);
    } else {
        assert forall|j: int| 0 <= j < m.variants.len() && j != current implies #[trigger] better(
            figs,
            j,
            current,
        ) by {
            assert(order.contains(j as usize));
            let k = choose|k: int| 0 <= k < order.len() && order[k] == j as usize;
            assert(better(figs, order[k] as int, order[pos] as int));
        }
    }
    if pos > 0 {
        assert(better(figs, order[pos - 1] as int, order[pos] as int));
        lemma_not_better_than_itself(figs, current);
    } else {
        assert forall|j: int| 0 <= j < m.variants.len() && j != current implies #[trigger] better(
            figs,
            current,
            j,
        ) by {
            assert(order.contains(j as usize));
            let k = choose|k: int| 0 <= k < order.len() && order[k] == j as usize;
            assert(better(figs, order[pos] as int, order[k] as int));
        }
    }
}

/// Among the servers a key acts on the selected one: it stops a running one or
/// copies its address, and serves one that is available as its plan says.
pub proof fn servers_keys_act_on_the_selected(s: State, k: KeyEvent)
    requires
        s.mode == Shown::List,
        s.tab == Tab::Servers,
        in_bounds(s),
    ensures
        on_key(s, k).1 matches Act::StopServer(h) ==> s.server_selected < s.servers.len() && h
            == s.servers[s.server_selected].stop,
        on_key(s, k).1 matches Act::CopyEndpoint(u) ==> s.server_selected < s.servers.len() && u
            == s.servers[s.server_selected].openai_url,
        on_key(s, k).1 matches Act::Serve(p) ==> s.servers.len() <= s.server_selected && p
            == s.available[s.server_selected - s.servers.len()].plan,
        !(on_key(s, k).1 is Run) && !(on_key(s, k).1 is Rescore) && !(on_key(s, k).1 is StartSync),
{
}

/// A key that scores anew sets the use case that it scores for; its letter
/// begins the name of the use case, or is the second of `chat`.
pub proof fn use_case_keys_say_the_use_case(s: State, k: KeyEvent)
    ensures
        on_key(s, k).1 matches Act::Rescore(uc) ==> {
            &&& on_key(s, k).0.use_case == uc
            &&& k.code is Char
            &&& k.code->Char_0 == use_case_text(uc)[0] || (uc == UseCase::Chat && k.code->Char_0
                == use_case_text(uc)[1])
            &&& k.code->Char_0 == 'c' ==> uc == UseCase::Coding
        },
{
    reveal_strlit("general");
    reveal_strlit("coding");
    reveal_strlit("chat");
    reveal_strlit("reasoning");
    assert("general"@[0] == 'g' && "coding"@[0] == 'c' && "chat"@[1] == 'h' && "reasoning"@[0]
        == 'r');
}

/// What runs or is served out of the models is the selected model, in the
/// variant shown, as the plan for it says.
pub proof fn models_keys_act_on_the_selected(s: State, k: KeyEvent)
    requires
        s.mode == Shown::Detail || (s.mode == Shown::List && s.tab == Tab::Models),
        in_bounds(s),
        state_wf(s),
        0 <= s.detail_variant,
    ensures
        on_key(s, k).1 is Run || on_key(s, k).1 is Serve ==> s.selected < s.rows.len(),
        on_key(s, k).1 matches Act::Run(p) ==> exists|i: int, ctx: u32|
            {
                &&& 0 <= i < s.rows[s.selected].model.variants.len()
                &&& s.mode == Shown::List ==> i == s.rows[s.selected].variant_idx
                &&& s.mode == Shown::Detail && s.detail_variant
                    < s.rows[s.selected].model.variants.len() ==> i
                    == s.detail_variant
                &&& #[trigger] run_plan(
                    s.rows[s.selected].model,
                    s.rows[s.selected].model.variants[i],
                    s.runtimes,
                    Some(ctx),
                ) == Ok::<
                    Run,
                    Failure,
                >(p)
                &&& ctx <= s.rows[s.selected].model.context_max
            },
{
    if on_key(s, k).1 is Run {
        let m = s.rows[s.selected].model;
        assert(row_wf(s.rows[s.selected]));
        let t = State { last_error: None, ..s };
        let i = clamped(active_variant(t), m.variants.len());
        let v = m.variants[i];
        let ctx = resolved_ctx(None, figures(m, v), s.budget, m.context_max);
        crate::estimate::sized_context_fits(figures(m, v), s.budget, m.context_max);
        assert(run_plan(m, v, s.runtimes, Some(ctx)) == Ok::<Run, Failure>(on_key(s, k).1->Run_0));
    }
}

/// A server that was stopped leaves the list, and no other does.
pub proof fn removing_takes_the_selected(s: State, i: int)
    requires
        0 <= s.server_selected < s.servers.len(),
        0 <= i < s.servers.len(),
    ensures
        ({
            let t = selected_removed(s);
            &&& t.servers.len() == s.servers.len() - 1
            &&& t.available == s.available
            &&& i < s.server_selected ==> t.servers[i] == s.servers[i]
            &&& i > s.server_selected ==> t.servers[i - 1] == s.servers[i]
        }),
{
}

/// A plan is only ever served out of the detail with the detail closed.
pub proof fn serving_closes_the_detail(s: State, k: KeyEvent)
    requires
        s.mode == Shown::Detail,
    ensures
        on_key(s, k).1 is Serve ==> on_key(s, k).0.mode == Shown::List && on_key(
            s,
            k,
        ).0.detail_plan is None && on_key(s, k).0.detail_serve_plan is None,
{
}

/// The first position of `x`, zero if there is none.
fn position(v: &Vec<usize>, x: usize) -> (r: usize)
    requires
        v@.len() > 0,
    ensures
        r == match v@.index_of_first(x) {
            Some(i) => i,
            None => 0,
        },
        r < v@.len(),
{
    proof {
        v@.index_of_first_ensures(x);
    }
    for i in 0..v.len()
        invariant
            v@.len() > 0,
            forall|j: int| 0 <= j < i ==> v@[j] != x,
            match v@.index_of_first(x) {
                Some(index) => {
                    &&& v@.contains(x)
                    &&& 0 <= index < v@.len()
                    &&& v@[index] == x
                    &&& forall|j: int| 0 <= j < index < v@.len() ==> v@[j] != x
                },
                None => !v@.contains(x),
            },
    {
        if v[i] == x {
            return i;
        }
    }
    0
}

} // verus!
