//! Servers that were started, models that are loaded, and how a user's words
//! choose among them.

use vstd::prelude::*;

use crate::catalog::{clone_text, RuntimeKind};
use crate::hardware::probe::SystemProbe;
use crate::json::{
    as_array, as_str, as_u64, get, member, members, object, parse, parsed, render, text, text_in,
    tree, trees, unsigned_in, written, Tree,
};
use crate::numeral::{
    all_digits, digits, digits_value, parse_unsigned, push_decimal, read_digits, read_unsigned,
};
use crate::paths::{below, join_path, set_or_below};
use crate::runtime::{Serve, ServePlan};
use crate::text::{
    chars_of, contains, contains_chars, lowercase, part, rfind_char, same, same_chars, to_lowercase,
};

verus! {

/// A server that was started.
#[derive(Debug)]
pub struct ServingRecord {
    pub pid: u32,
    pub runtime: RuntimeKind,
    pub endpoint: String,
    pub openai_url: String,
    pub model_ref: String,
    pub ready_path: String,
    pub started_at: i64,
    /// Context window; zero where it does not apply.
    pub ctx: u32,
    /// Log of a detached server.
    pub log_path: Option<String>,
    /// Port of a server of our own.
    pub port: Option<u16>,
}

/// `ServingRecord` without its storage.
pub ghost struct Record {
    pub pid: u32,
    pub runtime: RuntimeKind,
    pub endpoint: Seq<char>,
    pub openai_url: Seq<char>,
    pub model_ref: Seq<char>,
    pub ready_path: Seq<char>,
    pub started_at: i64,
    pub ctx: u32,
    pub log_path: Option<Seq<char>>,
    pub port: Option<u16>,
}

impl View for ServingRecord {
    type V = Record;

    open spec fn view(&self) -> Record {
        Record {
            pid: self.pid,
            runtime: self.runtime,
            endpoint: self.endpoint@,
            openai_url: self.openai_url@,
            model_ref: self.model_ref@,
            ready_path: self.ready_path@,
            started_at: self.started_at,
            ctx: self.ctx,
            log_path: self.log_path.deep_view(),
            port: self.port,
        }
    }
}

impl DeepView for ServingRecord {
    type V = Record;

    open spec fn deep_view(&self) -> Record {
        self@
    }
}

impl Clone for ServingRecord {
    fn clone(&self) -> (r: ServingRecord)
        ensures
            r@ == self@,
    {
        ServingRecord {
            pid: self.pid,
            runtime: self.runtime,
            endpoint: self.endpoint.clone(),
            openai_url: self.openai_url.clone(),
            model_ref: self.model_ref.clone(),
            ready_path: self.ready_path.clone(),
            started_at: self.started_at,
            ctx: self.ctx,
            log_path: clone_text(&self.log_path),
            port: self.port,
        }
    }
}

/// The record of a server that a plan started.
pub open spec fn record_of(p: Serve, pid: u32, log_path: Option<Seq<char>>, started_at: i64) -> Record {
    Record {
        pid,
        runtime: p.runtime,
        endpoint: p.endpoint,
        openai_url: p.openai_url,
        model_ref: p.model_ref,
        ready_path: p.ready_path,
        started_at,
        ctx: p.ctx,
        log_path,
        port: p.port,
    }
}

/// The record of a server that a plan started.
pub fn build_record(plan: &ServePlan, pid: u32, log_path: Option<String>, started_at: i64) -> (r:
    ServingRecord)
    ensures
        r@ == record_of(plan@, pid, log_path.deep_view(), started_at),
{
    ServingRecord {
        pid,
        runtime: plan.runtime,
        endpoint: plan.endpoint.clone(),
        openai_url: plan.openai_url.clone(),
        model_ref: plan.model_ref.clone(),
        ready_path: plan.ready_path.clone(),
        started_at,
        ctx: plan.ctx,
        log_path,
        port: plan.port,
    }
}

// ---------------------------------------------------------------------------
// The registry
// ---------------------------------------------------------------------------

/// The directory with one file per server.
#[derive(Debug)]
pub struct Registry {
    pub dir: String,
}

/// The directory of the registry and the history: the one that was set, else
/// `serving` in the application's directory.
pub fn default_serving_dir(set: Option<String>, support_dir: &str) -> (r: String)
    ensures
        r@ == set_or_below(set.deep_view(), support_dir@, "serving"@),
{
    match set {
        Some(d) => d,
        None => join_path(support_dir, "serving"),
    }
}

impl Registry {
    pub fn at(dir: &str) -> (r: Registry)
        ensures
            r.dir@ == dir@,
    {
        Registry { dir: dir.to_owned() }
    }

    /// The registry in its default directory.
    pub fn open_default(set: Option<String>, support_dir: &str) -> (r: Registry)
        ensures
            r.dir@ == set_or_below(set.deep_view(), support_dir@, "serving"@),
    {
        Registry { dir: default_serving_dir(set, support_dir) }
    }

    /// The file of a server.
    pub fn path_for(&self, pid: u32) -> (r: String)
        ensures
            r@ == below(self.dir@, digits(pid as nat) + ".json"@),
    {
        let mut name = String::new();
        push_decimal(&mut name, pid as u128);
        name.append(".json");
        assert(name@ =~= digits(pid as nat) + ".json"@);
        join_path(self.dir.as_str(), name.as_str())
    }

    /// The file that a record is written to before it takes its place.
    pub fn tmp_path_for(&self, pid: u32) -> (r: String)
        ensures
            r@ == below(self.dir@, digits(pid as nat) + ".json.tmp"@),
    {
        let mut name = String::new();
        push_decimal(&mut name, pid as u128);
        name.append(".json.tmp");
        assert(name@ =~= digits(pid as nat) + ".json.tmp"@);
        join_path(self.dir.as_str(), name.as_str())
    }
}

/// A file name with the extension `json` and, before it, a process number.
pub open spec fn names_record(name: Seq<char>) -> bool {
    match name.index_of_last('.') {
        Some(i) => i > 0 && name.skip(i + 1) == "json"@ && parse_unsigned(
            name.take(i),
            u32::MAX as nat,
        ) is Some,
        None => false,
    }
}

/// The file that a process's record is kept in is taken for a record.
pub proof fn record_files_are_found_again(pid: u32)
    ensures
        names_record(digits(pid as nat) + ".json"@),
{
    let d = digits(pid as nat);
    let name = d + ".json"@;
    reveal_strlit(".json");
    reveal_strlit("json");
    crate::numeral::lemma_digits(pid as nat);
    name.index_of_last_ensures('.');
    assert(name[d.len() as int] == '.');
    assert(name.contains('.'));
    let i = name.index_of_last('.')->Some_0;
    if i > d.len() {
        assert(name[i] == ".json"@[i - d.len()]);
        assert(".json"@[1] == 'j' && ".json"@[2] == 's' && ".json"@[3] == 'o' && ".json"@[4] == 'n');
    }
    assert(i == d.len());
    assert(name.skip(i + 1) =~= "json"@);
    assert(name.take(i) =~= d);
    crate::numeral::numeral_reads_back(pid as nat, u32::MAX as nat);
}

/// Whether a file of the registry's directory is a record. Others are never
/// touched.
pub fn is_record_file(name: &str) -> (r: bool)
    ensures
        r == names_record(name@),
{
    let cs = chars_of(name);
    let n: usize = cs.len();
    match rfind_char(&cs, '.') {
        Some(i) => {
            assert(i < n);
            assert(cs@.subrange(0, i as int) =~= cs@.take(i as int));
            assert(cs@.subrange(i as int + 1, n as int) =~= cs@.skip(i as int + 1));
            i > 0 && same_chars(&part(&cs, i + 1, n), &chars_of("json")) && read_unsigned(
                &part(&cs, 0, i),
                u32::MAX as u64,
            ).is_some()
        },
        None => false,
    }
}

/// What happens to a record's file.
#[derive(Debug, Clone, Copy, PartialEq, Eq, Structural)]
pub enum RecordFate {
    /// The file goes.
    Delete,
    /// The file stays, the server is not shown.
    Hide,
    Show,
}

/// A record goes if it cannot be read or its process is gone. A process that
/// does not answer for the moment is only hidden.
pub fn record_fate(readable: bool, alive: bool, answers: bool) -> (r: RecordFate)
    ensures
        r == RecordFate::Delete <==> !readable || !alive,
        r == RecordFate::Show <==> readable && alive && answers,
{
    if !readable || !alive {
        RecordFate::Delete
    } else if answers {
        RecordFate::Show
    } else {
        RecordFate::Hide
    }
}

/// The number that a signal to a process takes; `None` for numbers that no
/// process of ours has.
pub fn signal_target(pid: u32) -> (r: Option<i32>)
    ensures
        match r {
            Some(n) => n == pid && 0 < n,
            None => pid == 0 || pid > i32::MAX,
        },
{
    if pid == 0 || pid > i32::MAX as u32 {
        None
    } else {
        Some(pid as i32)
    }
}

/// `order` lists every record once, the earlier started first; of those
/// started together, in the order given.
pub open spec fn is_start_order(records: Seq<Record>, order: Seq<usize>) -> bool {
    &&& order.len() == records.len()
    &&& forall|k: int| 0 <= k < order.len() ==> (#[trigger] order[k]) < records.len()
    &&& forall|k: int, l: int|
        0 <= k < l < order.len() ==> started_before(
            records,
            #[trigger] order[k] as int,
            #[trigger] order[l] as int,
        )
}

pub open spec fn started_before(records: Seq<Record>, i: int, j: int) -> bool {
    records[i].started_at < records[j].started_at || (records[i].started_at
        == records[j].started_at && i < j)
}

/// The server that was started first comes first, and of those started
/// together the one given first; no server is listed twice.
pub proof fn earliest_comes_first(records: Seq<Record>, order: Seq<usize>, k: int, l: int)
    requires
        is_start_order(records, order),
        0 <= k < l < order.len(),
    ensures
        records[order[k] as int].started_at <= records[order[l] as int].started_at,
        records[order[k] as int].started_at == records[order[l] as int].started_at ==> order[k]
            < order[l],
        order[k] != order[l],
{
    assert(started_before(records, order[k] as int, order[l] as int));
}

/// The positions of the records by the time they were started.
pub fn start_order(records: &Vec<ServingRecord>) -> (r: Vec<usize>)
    ensures
        is_start_order(records.deep_view(), r@),
{
    let ghost all = records.deep_view();
    let mut order: Vec<usize> = Vec::new();
    let n: usize = records.len();
    for i in 0..n
        invariant
            n == records@.len(),
            all == records.deep_view(),
            order@.len() == i,
            forall|k: int| 0 <= k < order@.len() ==> (#[trigger] order@[k]) < i,
            forall|k: int, l: int|
                0 <= k < l < order@.len() ==> started_before(
                    all,
                    #[trigger] order@[k] as int,
                    #[trigger] order@[l] as int,
                ),
    {
        let mut p: usize = 0;
        while p < order.len() && records[order[p]].started_at <= records[i].started_at
            invariant
                n == records@.len(),
                all == records.deep_view(),
                i < n,
                p <= order@.len(),
                order@.len() == i,
                forall|k: int| 0 <= k < order@.len() ==> (#[trigger] order@[k]) < i,
                forall|k: int|
                    0 <= k < p ==> all[#[trigger] order@[k] as int].started_at
                        <= all[i as int].started_at,
            decreases order@.len() - p,
        {
            p = p + 1;
        }
        let ghost before = order@;
        order.insert(p, i);
        proof {
            if p < before.len() {
                assert(all[before[p as int] as int].started_at > all[i as int].started_at);
            }
            assert forall|k: int, l: int| 0 <= k < l < order@.len() implies started_before(
                all,
                #[trigger] order@[k] as int,
                #[trigger] order@[l] as int,
            ) by {
                if l < p {
                    assert(order@[k] == before[k] && order@[l] == before[l]);
                } else if k < p && l == p {
                    assert(order@[k] == before[k]);
                } else if k < p {
                    assert(order@[k] == before[k] && order@[l] == before[l - 1]);
                } else if k == p {
                    assert(order@[l] == before[l - 1]);
                    if l - 1 > p {
                        assert(started_before(
                            all,
                            before[p as int] as int,
                            before[l - 1] as int,
                        ));
                    }
                } else {
                    assert(order@[k] == before[k - 1] && order@[l] == before[l - 1]);
                }
            }
            assert forall|k: int| 0 <= k < order@.len() implies (#[trigger] order@[k]) < i + 1 by {
                if k < p {
                    assert(order@[k] == before[k]);
                } else if k > p {
                    assert(order@[k] == before[k - 1]);
                }
            }
        }
    }
    order
}

/// The records by the time they were started.
pub fn sorted_by_start(records: &Vec<ServingRecord>) -> (r: Vec<ServingRecord>)
    ensures
        exists|order: Seq<usize>|
            #[trigger] is_start_order(records.deep_view(), order) && r.deep_view() == Seq::new(
                order.len(),
                |k: int| records.deep_view()[order[k] as int],
            ),
        r@.len() == records@.len(),
        forall|k: int, l: int|
            0 <= k < l < r@.len() ==> (#[trigger] r@[k]).started_at <= (
            #[trigger] r@[l]).started_at,
{
    let order = start_order(records);
    let mut out: Vec<ServingRecord> = Vec::new();
    let n: usize = order.len();
    for k in 0..n
        invariant
            n == order@.len(),
            is_start_order(records.deep_view(), order@),
            out@.len() == k,
            forall|j: int|
                0 <= j < k ==> (#[trigger] out@[j])@ == records.deep_view()[order@[j] as int],
    {
        out.push(records[order[k]].clone());
    }
    assert(out.deep_view() =~= Seq::new(
        order@.len(),
        |k: int| records.deep_view()[order@[k] as int],
    ));
    assert forall|k: int, l: int| 0 <= k < l < out@.len() implies (
    #[trigger] out@[k]).started_at <= (#[trigger] out@[l]).started_at by {
        assert(out@[k]@ == records.deep_view()[order@[k] as int]);
        assert(out@[l]@ == records.deep_view()[order@[l] as int]);
        earliest_comes_first(records.deep_view(), order@, k, l);
    }
    out
}

/// A file of the registry's directory.
#[derive(Debug)]
pub struct SeenFile {
    pub name: String,
    /// What the file holds; `None` if it cannot be read as a record.
    pub record: Option<ServingRecord>,
    /// The record's process runs.
    pub alive: bool,
}

/// `SeenFile` without its storage.
pub ghost struct Seen {
    pub name: Seq<char>,
    pub record: Option<Record>,
    pub alive: bool,
}

impl View for SeenFile {
    type V = Seen;

    open spec fn view(&self) -> Seen {
        Seen { name: self.name@, record: self.record.deep_view(), alive: self.alive }
    }
}

impl DeepView for SeenFile {
    type V = Seen;

    open spec fn deep_view(&self) -> Seen {
        self@
    }
}

/// A record whose process runs: whether it answers is asked.
pub open spec fn is_asked(f: Seen) -> bool {
    names_record(f.name) && f.record is Some && f.alive
}

/// A record that cannot be read, or whose process is gone.
pub open spec fn is_stale(f: Seen) -> bool {
    names_record(f.name) && (f.record is None || !f.alive)
}

/// The records that answer.
pub open spec fn answering(files: Seq<Seen>, answers: Seq<bool>) -> Seq<Record>
    decreases files.len(),
{
    if files.len() == 0 || answers.len() != files.len() {
        Seq::empty()
    } else {
        let before = answering(files.drop_last(), answers.drop_last());
        if is_asked(files.last()) && answers.last() {
            before.push(files.last().record->Some_0)
        } else {
            before
        }
    }
}

/// A server is listed exactly if its record was read, its process lives, and it
/// answered.
pub proof fn listed_servers_answer(files: Seq<Seen>, answers: Seq<bool>)
    requires
        answers.len() == files.len(),
    ensures
        forall|k: int|
            0 <= k < answering(files, answers).len() ==> exists|i: int|
                0 <= i < files.len() && is_asked(#[trigger] files[i]) && answers[i]
                    && files[i].record == Some(#[trigger] answering(files, answers)[k]),
        forall|i: int|
            0 <= i < files.len() && is_asked(#[trigger] files[i]) && answers[i] ==> answering(
                files,
                answers,
            ).contains(files[i].record->Some_0),
    decreases files.len(),
{
    if files.len() > 0 {
        let (f, a) = (files.drop_last(), answers.drop_last());
        listed_servers_answer(f, a);
        let (before, all) = (answering(f, a), answering(files, answers));
        let n = files.len() - 1;
        assert forall|k: int| 0 <= k < all.len() implies exists|i: int|
            0 <= i < files.len() && is_asked(#[trigger] files[i]) && answers[i] && files[i].record
                == Some(#[trigger] all[k]) by {
            if k < before.len() {
                let i = choose|i: int|
                    0 <= i < f.len() && is_asked(#[trigger] f[i]) && a[i] && f[i].record == Some(
                        before[k],
                    );
                assert(files[i] == f[i] && answers[i] == a[i] && all[k] == before[k]);
            } else {
                assert(files[n] == files.last() && answers[n] == answers.last());
            }
        }
        assert forall|i: int|
            0 <= i < files.len() && is_asked(#[trigger] files[i]) && answers[i] implies all.contains(
            files[i].record->Some_0,
        ) by {
            if i < n {
                assert(files[i] == f[i] && answers[i] == a[i]);
                let k = choose|k: int|
                    0 <= k < before.len() && before[k] == f[i].record->Some_0;
                assert(all[k] == before[k]);
            } else {
                assert(all[all.len() - 1] == files[i].record->Some_0);
            }
        }
    }
}

/// The names of the stale files.
pub open spec fn stale_names(files: Seq<Seen>) -> Seq<Seq<char>>
    decreases files.len(),
{
    if files.len() == 0 {
        Seq::empty()
    } else {
        let before = stale_names(files.drop_last());
        if is_stale(files.last()) {
            before.push(files.last().name)
        } else {
            before
        }
    }
}

/// `f` is stale, and its name is `name`.
pub open spec fn names_stale(f: Seen, name: Seq<char>) -> bool {
    is_stale(f) && f.name == name
}

/// The file of a process that is gone goes, and so does one that cannot be read;
/// no other file does.
pub proof fn records_of_the_dead_go(files: Seq<Seen>)
    ensures
        forall|i: int|
            0 <= i < files.len() && names_record((#[trigger] files[i]).name) && (!files[i].alive
                || files[i].record is None) ==> stale_names(files).contains(files[i].name),
        forall|k: int|
            #![trigger stale_names(files)[k]]
            0 <= k < stale_names(files).len() ==> exists|i: int|
                0 <= i < files.len() && names_stale(#[trigger] files[i], stale_names(files)[k]),
        forall|f: Seen|
            #[trigger] is_stale(f) ==> names_record(f.name) && (!f.alive || f.record is None),
    decreases files.len(),
{
    if files.len() > 0 {
        let t = files.drop_last();
        records_of_the_dead_go(t);
        let (before, all) = (stale_names(t), stale_names(files));
        assert forall|i: int|
            0 <= i < files.len() && names_record((#[trigger] files[i]).name) && (!files[i].alive
                || files[i].record is None) implies all.contains(files[i].name) by {
            if i < t.len() {
                assert(t[i] == files[i]);
                let k = choose|k: int| 0 <= k < before.len() && before[k] == t[i].name;
                assert(all[k] == before[k]);
            } else {
                assert(all[all.len() - 1] == files[i].name);
            }
        }
        assert forall|k: int|
            #![trigger all[k]]
            0 <= k < all.len() implies exists|i: int|
            0 <= i < files.len() && names_stale(#[trigger] files[i], all[k]) by {
            if k < before.len() {
                let i = choose|i: int|
                    0 <= i < t.len() && names_stale(#[trigger] t[i], before[k]);
                assert(files[i] == t[i] && all[k] == before[k]);
            } else {
                assert(names_stale(files[files.len() - 1], all[k]));
            }
        }
    }
}

/// `answers` may be told for whether the servers of the files answer.
pub open spec fn may_answer<P: SystemProbe>(
    probe: P,
    files: Seq<Seen>,
    answers: Seq<bool>,
) -> bool {
    &&& answers.len() == files.len()
    &&& forall|i: int|
        0 <= i < files.len() && is_asked(files[i]) ==> told(
            probe,
            files[i].record->Some_0,
            #[trigger] answers[i],
        )
}

pub open spec fn told<P: SystemProbe>(probe: P, r: Record, answer: bool) -> bool {
    exists|page: Option<Seq<char>>| #[trigger]
        probe.tells_page(r.endpoint + r.ready_path, page) && answer == (page is Some)
}

/// The records by the time they were started.
pub open spec fn is_by_start(records: Seq<Record>, sorted: Seq<Record>) -> bool {
    exists|order: Seq<usize>| #[trigger]
        is_start_order(records, order) && sorted == Seq::new(
            order.len(),
            |k: int| records[order[k] as int],
        )
}

/// What the files of the registry come to.
#[derive(Debug)]
pub struct Sweep {
    /// The servers that answer, by the time they were started.
    pub live: Vec<ServingRecord>,
    /// The files to remove.
    pub gone: Vec<String>,
}

/// What may become of the files.
pub open spec fn may_sweep<P: SystemProbe>(probe: P, files: Seq<Seen>, s: Sweep) -> bool {
    &&& s.gone.deep_view() == stale_names(files)
    &&& exists|answers: Seq<bool>| #[trigger]
        may_answer(probe, files, answers) && is_by_start(
            answering(files, answers),
            s.live.deep_view(),
        )
}

/// The servers of the registry that answer, and the files to remove: those of
/// records that cannot be read or whose process is gone. A server that does
/// not answer for the moment keeps its file, and other files are not touched.
pub fn list_live<P: SystemProbe>(probe: &P, files: &Vec<SeenFile>) -> (r: Sweep)
    ensures
        may_sweep(*probe, files.deep_view(), r),
{
    let ghost all = files.deep_view();
    let mut live: Vec<ServingRecord> = Vec::new();
    let mut gone: Vec<String> = Vec::new();
    let ghost mut answers: Seq<bool> = Seq::empty();
    assert(live.deep_view() =~= Seq::<Record>::empty());
    assert(gone.deep_view() =~= Seq::<Seq<char>>::empty());
    let n: usize = files.len();
    for i in 0..n
        invariant
            n == files@.len(),
            all == files.deep_view(),
            may_answer(*probe, all.take(i as int), answers),
            live.deep_view() == answering(all.take(i as int), answers),
            gone.deep_view() == stale_names(all.take(i as int)),
    {
        let f = &files[i];
        let ghost before = all.take(i as int);
        let ghost now = all.take(i as int + 1);
        let ghost old_answers = answers;
        assert(now.drop_last() =~= before);
        assert(now.last() == f@);
        let ghost had = live.deep_view();
        let ghost lost = gone.deep_view();
        if is_record_file(f.name.as_str()) {
            let fate = record_fate(f.record.is_some(), f.alive, true);
            match &f.record {
                Some(r) => {
                    if fate == RecordFate::Delete {
                        gone.push(f.name.clone());
                        assert(gone.deep_view() =~= lost.push(f@.name));
                        proof {
                            answers = answers.push(false);
                        }
                    } else {
                        let mut url = r.endpoint.clone();
                        url.append(r.ready_path.as_str());
                        let page = probe.http_get_local(url.as_str());
                        let yes = page.is_some();
                        proof {
                            answers = answers.push(yes);
                            assert(probe.tells_page(
                                r@.endpoint + r@.ready_path,
                                page.deep_view(),
                            ));
                            assert(told(*probe, r@, yes));
                        }
                        if record_fate(true, f.alive, yes) == RecordFate::Show {
                            live.push(r.clone());
                            assert(live.deep_view() =~= had.push(r@));
                        }
                    }
                },
                None => {
                    gone.push(f.name.clone());
                    assert(gone.deep_view() =~= lost.push(f@.name));
                    proof {
                        answers = answers.push(false);
                    }
                },
            }
        } else {
            proof {
                answers = answers.push(false);
            }
        }
        proof {
            assert(answers.drop_last() =~= old_answers);
            assert forall|j: int| 0 <= j < now.len() && is_asked(now[j]) implies told(
                *probe,
                now[j].record->Some_0,
                #[trigger] answers[j],
            ) by {
                if j < i {
                    assert(now[j] == before[j]);
                    assert(answers[j] == old_answers[j]);
                }
            }
        }
    }
    assert(all.take(n as int) =~= all);
    let sorted = sorted_by_start(&live);
    assert(is_by_start(answering(all, answers), sorted.deep_view()));
    Sweep { live: sorted, gone }
}

/// A file that is no record, and the file of a record whose process runs, are
/// never removed.
pub proof fn running_servers_keep_their_files(files: Seq<Seen>, name: Seq<char>)
    requires
        forall|i: int|
            0 <= i < files.len() && (#[trigger] files[i]).name == name ==> !names_record(name)
                || is_asked(files[i]),
    ensures
        !stale_names(files).contains(name),
    decreases files.len(),
{
    if files.len() > 0 {
        let before = files.drop_last();
        assert forall|i: int|
            0 <= i < before.len() && (#[trigger] before[i]).name == name implies !names_record(name)
            || is_asked(before[i]) by {
            assert(before[i] == files[i]);
        }
        running_servers_keep_their_files(before, name);
        let last = files[files.len() - 1];
        let all = stale_names(files);
        if all.contains(name) {
            let k = choose|k: int| 0 <= k < all.len() && all[k] == name;
            if k < stale_names(before).len() {
                assert(stale_names(before)[k] == name);
            }
        }
    }
}

/// The ports to try for a server: the wanted one and the fifty above it.
pub fn port_candidates(start: u16) -> (r: Vec<u16>)
    ensures
        r@.len() == if start <= u16::MAX - 50 {
            51
        } else {
            u16::MAX - start + 1
        },
        forall|i: int| 0 <= i < r@.len() ==> #[trigger] r@[i] == start + i,
{
    let last: u16 = start.saturating_add(50);
    let mut out: Vec<u16> = Vec::new();
    let mut p: u16 = start;
    while p < last
        invariant
            start <= p <= last,
            out@.len() == p - start,
            forall|i: int| 0 <= i < out@.len() ==> #[trigger] out@[i] == start + i,
        decreases last - p,
    {
        out.push(p);
        p = p + 1;
    }
    out.push(p);
    out
}

// ---------------------------------------------------------------------------
// Choosing a record
// ---------------------------------------------------------------------------

/// What the words for a server stand for.
pub enum RecordMatch<'a> {
    /// The records to act on.
    Matched(Vec<&'a ServingRecord>),
    /// Records of several models: the user has to be more specific.
    Ambiguous(Vec<&'a ServingRecord>),
    NotFound,
}

/// `RecordMatch` without its storage.
pub ghost enum Match {
    Matched(Seq<Record>),
    Ambiguous(Seq<Record>),
    NotFound,
}

/// The records without their storage.
pub open spec fn records_of(v: Seq<&ServingRecord>) -> Seq<Record> {
    Seq::new(v.len(), |i: int| v[i]@)
}

impl<'a> View for RecordMatch<'a> {
    type V = Match;

    open spec fn view(&self) -> Match {
        match *self {
            RecordMatch::Matched(v) => Match::Matched(records_of(v@)),
            RecordMatch::Ambiguous(v) => Match::Ambiguous(records_of(v@)),
            RecordMatch::NotFound => Match::NotFound,
        }
    }
}

impl<'a> RecordMatch<'a> {
    /// The records to act on; none unless they are sure.
    pub fn matched(&self) -> (r: &[&'a ServingRecord])
        ensures
            records_of(r@) == match self@ {
                Match::Matched(s) => s,
                _ => Seq::<Record>::empty(),
            },
    {
        match self {
            RecordMatch::Matched(v) => v.as_slice(),
            _ => {
                let none: &[&'a ServingRecord] = &[];
                assert(records_of(none@) =~= Seq::<Record>::empty());
                none
            },
        }
    }
}

/// The first record with a process number, from `k` on.
pub open spec fn record_with_pid(records: Seq<Record>, pid: nat, k: int) -> Option<Record>
    decreases records.len() - k,
{
    if k < 0 || k >= records.len() {
        None
    } else if records[k].pid == pid {
        Some(records[k])
    } else {
        record_with_pid(records, pid, k + 1)
    }
}

/// The records whose name, given in lower case, holds `needle`.
pub open spec fn records_with(records: Seq<Record>, low: Seq<Seq<char>>, needle: Seq<char>) -> Seq<
    Record,
>
    decreases records.len(),
{
    if records.len() == 0 || low.len() != records.len() {
        Seq::empty()
    } else {
        let before = records_with(records.drop_last(), low.drop_last(), needle);
        if contains(low.last(), needle) {
            before.push(records.last())
        } else {
            before
        }
    }
}

/// All the records are of one model.
pub open spec fn one_model(records: Seq<Record>) -> bool {
    forall|i: int|
        0 <= i < records.len() ==> (#[trigger] records[i]).model_ref == records[0].model_ref
}

/// What the words for a server stand for, given the names of the records and
/// the words in lower case: `all` for every record, digits for a process
/// number, anything else for a part of a model's name.
pub open spec fn matching(
    records: Seq<Record>,
    low: Seq<Seq<char>>,
    target: Seq<char>,
    needle: Seq<char>,
) -> Match {
    if target == "all"@ {
        if records.len() == 0 {
            Match::NotFound
        } else {
            Match::Matched(records)
        }
    } else if target.len() > 0 && all_digits(target) {
        match record_with_pid(records, digits_value(target), 0) {
            Some(r) => Match::Matched(seq![r]),
            None => Match::NotFound,
        }
    } else {
        let hits = records_with(records, low, needle);
        if hits.len() == 0 {
            Match::NotFound
        } else if one_model(hits) {
            Match::Matched(hits)
        } else {
            Match::Ambiguous(hits)
        }
    }
}

/// The names of the records in lower case.
pub open spec fn lowered_refs(records: Seq<Record>) -> Seq<Seq<char>> {
    records.map_values(|r: Record| lowercase(r.model_ref))
}

proof fn lemma_records_with(records: Seq<Record>, low: Seq<Seq<char>>, needle: Seq<char>)
    requires
        low.len() == records.len(),
    ensures
        forall|k: int|
            0 <= k < records_with(records, low, needle).len() ==> exists|i: int|
                0 <= i < records.len() && contains(low[i], needle) && #[trigger] records[i]
                    == #[trigger] records_with(records, low, needle)[k],
        forall|i: int|
            0 <= i < records.len() && contains(low[i], needle) ==> records_with(
                records,
                low,
                needle,
            ).contains(#[trigger] records[i]),
    decreases records.len(),
{
    if records.len() > 0 {
        let (f, a) = (records.drop_last(), low.drop_last());
        lemma_records_with(f, a, needle);
        let (before, all) = (
            records_with(f, a, needle),
            records_with(records, low, needle),
        );
        let n = records.len() - 1;
        assert forall|k: int| 0 <= k < all.len() implies exists|i: int|
            0 <= i < records.len() && contains(low[i], needle) && #[trigger] records[i]
                == #[trigger] all[k] by {
            if k < before.len() {
                let i = choose|i: int|
                    0 <= i < f.len() && contains(a[i], needle) && #[trigger] f[i] == before[k];
                assert(records[i] == f[i] && low[i] == a[i] && all[k] == before[k]);
            } else {
                assert(records[n] == records.last() && low[n] == low.last());
            }
        }
        assert forall|i: int| 0 <= i < records.len() && contains(low[i], needle) implies all.contains(
            #[trigger] records[i],
        ) by {
            if i < n {
                assert(records[i] == f[i] && low[i] == a[i]);
                let k = choose|k: int| 0 <= k < before.len() && before[k] == f[i];
                assert(all[k] == before[k]);
            } else {
                assert(all[all.len() - 1] == records[i]);
            }
        }
    }
}

proof fn lemma_record_with_pid(records: Seq<Record>, pid: nat, k: int)
    requires
        0 <= k,
    ensures
        match record_with_pid(records, pid, k) {
            Some(r) => r.pid == pid && records.contains(r),
            None => forall|i: int| k <= i < records.len() ==> (#[trigger] records[i]).pid != pid,
        },
    decreases records.len() - k,
{
    if k < records.len() {
        assert(records[k] == records[k]);
        lemma_record_with_pid(records, pid, k + 1);
    }
}

/// What a target matches are servers of the list: with a number the process of
/// that number; with a text other than `all` the servers whose model holds it in
/// small letters, and each of these. Nothing matches only where none is such.
pub proof fn target_matches_its_servers(
    records: Seq<Record>,
    target: Seq<char>,
    needle: Seq<char>,
    i: int,
)
    requires
        0 <= i < records.len(),
        target != "all"@,
    ensures
        ({
            let found = matching(records, lowered_refs(records), target, needle);
            if target.len() > 0 && all_digits(target) {
                match found {
                    Match::Matched(v) => v.len() == 1 && v[0].pid == digits_value(target)
                        && records.contains(v[0]),
                    Match::NotFound => records[i].pid != digits_value(target),
                    Match::Ambiguous(_) => false,
                }
            } else {
                match found {
                    Match::Matched(v) => contains(lowercase(records[i].model_ref), needle)
                        <==> v.contains(records[i]),
                    Match::Ambiguous(v) => contains(lowercase(records[i].model_ref), needle)
                        <==> v.contains(records[i]),
                    Match::NotFound => !contains(lowercase(records[i].model_ref), needle),
                }
            }
        }),
{
    let low = lowered_refs(records);
    lemma_records_with(records, low, needle);
    let hits = records_with(records, low, needle);
    assert(low[i] == lowercase(records[i].model_ref));
    if hits.contains(records[i]) {
        let k = choose|k: int| 0 <= k < hits.len() && hits[k] == records[i];
        let j = choose|j: int|
            0 <= j < records.len() && contains(low[j], needle) && #[trigger] records[j] == hits[k];
        assert(low[j] == lowercase(records[j].model_ref));
    }
    lemma_record_with_pid(records, digits_value(target), 0);
}

fn digits_only(s: &[char]) -> (r: bool)
    ensures
        r == (s@.len() > 0 && all_digits(s@)),
{
    for i in 0..s.len()
        invariant
            forall|j: int| 0 <= j < i ==> crate::numeral::is_digit(#[trigger] s@[j]),
    {
        if s[i] < '0' || s[i] > '9' {
            assert(!crate::numeral::is_digit(s@[i as int]));
            return false;
        }
    }
    s.len() > 0
}

/// What the words for a server stand for, given the names of the records and
/// the words in lower case.
pub fn match_lowered<'a>(
    records: &'a [ServingRecord],
    low: &Vec<String>,
    target: &str,
    needle: &str,
) -> (r: RecordMatch<'a>)
    requires
        low@.len() == records@.len(),
    ensures
        r@ == matching(
            Seq::new(records@.len(), |i: int| records@[i]@),
            low.deep_view(),
            target@,
            needle@,
        ),
{
    let ghost all = Seq::new(records@.len(), |i: int| records@[i]@);
    let n: usize = records.len();
    if same(target, "all") {
        if n == 0 {
            return RecordMatch::NotFound;
        }
        let mut v: Vec<&'a ServingRecord> = Vec::new();
        assert(records_of(v@) =~= all.take(0));
        for i in 0..n
            invariant
                n == records@.len(),
                all == Seq::new(records@.len(), |i: int| records@[i]@),
                records_of(v@) == all.take(i as int),
        {
            let ghost before = records_of(v@);
            v.push(&records[i]);
            assert(records_of(v@) =~= before.push(all[i as int]));
            assert(before.push(all[i as int]) =~= all.take(i as int + 1));
        }
        assert(all.take(n as int) =~= all);
        return RecordMatch::Matched(v);
    }
    let cs = chars_of(target);
    if digits_only(&cs) {
        assert(cs@.subrange(0, cs@.len() as int) =~= cs@);
        let pid: u64 = match read_digits(&cs, 0, cs.len(), u64::MAX) {
            Some(p) => p,
            None => u64::MAX,
        };
        let mut k: usize = 0;
        while k < n
            invariant
                n == records@.len(),
                all == Seq::new(records@.len(), |i: int| records@[i]@),
                k <= n,
                cs@ == target@,
                target@ != "all"@,
                target@.len() > 0 && all_digits(target@),
                digits_value(cs@) <= u64::MAX ==> pid == digits_value(cs@),
                digits_value(cs@) > u64::MAX ==> pid == u64::MAX,
                record_with_pid(all, digits_value(cs@), 0) == record_with_pid(
                    all,
                    digits_value(cs@),
                    k as int,
                ),
            decreases n - k,
        {
            if records[k].pid as u64 == pid {
                let mut v: Vec<&'a ServingRecord> = Vec::new();
                v.push(&records[k]);
                assert(records_of(v@) =~= seq![all[k as int]]);
                return RecordMatch::Matched(v);
            }
            k = k + 1;
        }
        return RecordMatch::NotFound;
    }
    let needle_cs = chars_of(needle);
    let ghost names = low.deep_view();
    let mut hits: Vec<&'a ServingRecord> = Vec::new();
    assert(records_of(hits@) =~= Seq::<Record>::empty());
    for i in 0..n
        invariant
            n == records@.len(),
            low@.len() == n,
            all == Seq::new(records@.len(), |i: int| records@[i]@),
            names == low.deep_view(),
            needle_cs@ == needle@,
            records_of(hits@) == records_with(
                all.take(i as int),
                names.take(i as int),
                needle@,
            ),
    {
        assert(all.take(i as int + 1).drop_last() =~= all.take(i as int));
        assert(names.take(i as int + 1).drop_last() =~= names.take(i as int));
        assert(names.take(i as int + 1).last() == low@[i as int]@);
        let ghost before = records_of(hits@);
        if contains_chars(&chars_of(low[i].as_str()), &needle_cs) {
            hits.push(&records[i]);
            assert(records_of(hits@) =~= before.push(all[i as int]));
        }
    }
    assert(all.take(n as int) =~= all);
    assert(names.take(n as int) =~= names);
    if hits.len() == 0 {
        return RecordMatch::NotFound;
    }
    let ghost found = records_of(hits@);
    let m: usize = hits.len();
    for i in 0..m
        invariant
            m == hits@.len(),
            m > 0,
            found == records_of(hits@),
            target@ != "all"@,
            !(target@.len() > 0 && all_digits(target@)),
            found == records_with(all, names, needle@),
            all == Seq::new(records@.len(), |i: int| records@[i]@),
            names == low.deep_view(),
            forall|j: int|
                0 <= j < i ==> (#[trigger] found[j]).model_ref == found[0].model_ref,
    {
        if !same(hits[i].model_ref.as_str(), hits[0].model_ref.as_str()) {
            assert(found[i as int].model_ref != found[0].model_ref);
            return RecordMatch::Ambiguous(hits);
        }
    }
    RecordMatch::Matched(hits)
}

/// What the words for a server stand for: `all`, a process number, or a part
/// of a model's name, whatever its case.
pub fn match_records<'a>(records: &'a [ServingRecord], target: &str) -> (r: RecordMatch<'a>)
    ensures
        ({
            let all = Seq::new(records@.len(), |i: int| records@[i]@);
            r@ == matching(all, lowered_refs(all), target@, lowercase(target@))
        }),
{
    let ghost all = Seq::new(records@.len(), |i: int| records@[i]@);
    let mut low: Vec<String> = Vec::new();
    let n: usize = records.len();
    for i in 0..n
        invariant
            n == records@.len(),
            low@.len() == i,
            forall|j: int|
                0 <= j < i ==> (#[trigger] low@[j])@ == lowercase(records@[j]@.model_ref),
    {
        low.push(to_lowercase(records[i].model_ref.as_str()));
    }
    assert(low.deep_view() =~= lowered_refs(all));
    let needle = to_lowercase(target);
    match_lowered(records, &low, target, needle.as_str())
}

/// `all` stands for every record.
pub proof fn all_means_all(records: Seq<Record>, low: Seq<Seq<char>>, needle: Seq<char>)
    requires
        records.len() > 0,
    ensures
        matching(records, low, "all"@, needle) == Match::Matched(records),
{
}

/// What is matched is never of several models, unless all were asked for.
pub proof fn match_is_one_model(
    records: Seq<Record>,
    low: Seq<Seq<char>>,
    target: Seq<char>,
    needle: Seq<char>,
)
    requires
        target != "all"@,
    ensures
        matching(records, low, target, needle) matches Match::Matched(s) ==> s.len() > 0
            && one_model(s),
        matching(records, low, target, needle) matches Match::Ambiguous(s) ==> s.len() > 1
            && !one_model(s),
{
}

// ---------------------------------------------------------------------------
// Models in the Ollama daemon
// ---------------------------------------------------------------------------

/// A model that the Ollama daemon holds.
#[derive(Debug)]
pub struct LoadedModel {
    pub name: String,
    pub size_bytes: u64,
}

/// `LoadedModel` without its storage.
pub ghost struct Loaded {
    pub name: Seq<char>,
    pub size_bytes: u64,
}

impl View for LoadedModel {
    type V = Loaded;

    open spec fn view(&self) -> Loaded {
        Loaded { name: self.name@, size_bytes: self.size_bytes }
    }
}

impl DeepView for LoadedModel {
    type V = Loaded;

    open spec fn deep_view(&self) -> Loaded {
        self@
    }
}

/// The models that a list of the daemon names; those without a name do not
/// count, and an unknown size is zero.
pub open spec fn named_models(items: Seq<Tree>) -> Seq<Loaded>
    decreases items.len(),
{
    if items.len() == 0 {
        Seq::empty()
    } else {
        let before = named_models(items.drop_last());
        match text_in(member(items.last(), "name"@)) {
            Some(name) => before.push(
                Loaded {
                    name,
                    size_bytes: match unsigned_in(member(items.last(), "size"@)) {
                        Some(n) => n,
                        None => 0,
                    },
                },
            ),
            None => before,
        }
    }
}

/// Every item with a name is listed by it, with the size that it says; nothing
/// else is.
pub proof fn named_items_are_listed(items: Seq<Tree>)
    ensures
        named_models(items).len() <= items.len(),
        forall|i: int|
            0 <= i < items.len() && text_in(member(#[trigger] items[i], "name"@)) is Some
                ==> exists|k: int|
                0 <= k < named_models(items).len() && Some((#[trigger] named_models(items)[k]).name)
                    == text_in(member(items[i], "name"@)) && (unsigned_in(
                    member(items[i], "size"@),
                ) matches Some(n) ==> named_models(items)[k].size_bytes == n),
    decreases items.len(),
{
    if items.len() > 0 {
        let t = items.drop_last();
        named_items_are_listed(t);
        let (before, all) = (named_models(t), named_models(items));
        assert forall|i: int|
            0 <= i < items.len() && text_in(
                member(#[trigger] items[i], "name"@),
            ) is Some implies exists|k: int|
            0 <= k < all.len() && Some((#[trigger] all[k]).name) == text_in(
                member(items[i], "name"@),
            ) && (unsigned_in(member(items[i], "size"@)) matches Some(n) ==> all[k].size_bytes
                == n) by {
            if i < t.len() {
                assert(t[i] == items[i]);
                let k = choose|k: int|
                    0 <= k < before.len() && Some((#[trigger] before[k]).name) == text_in(
                        member(t[i], "name"@),
                    ) && (unsigned_in(member(t[i], "size"@)) matches Some(n)
                        ==> before[k].size_bytes == n);
                assert(all[k] == before[k]);
            } else {
                assert(Some(all[all.len() - 1].name) == text_in(member(items[i], "name"@)));
            }
        }
    }
}

/// The models in an answer of the daemon; `None` if it has no list of them.
pub open spec fn models_in(t: Tree) -> Option<Seq<Loaded>> {
    match member(t, "models"@) {
        Tree::List(items) => Some(named_models(items)),
        _ => None,
    }
}

/// The models in the text of an answer, if there is one.
pub open spec fn models_told(answer: Option<Seq<char>>) -> Option<Seq<Loaded>> {
    match answer {
        Some(body) => match parsed(body) {
            Ok(t) => models_in(t),
            Err(_) => None,
        },
        None => None,
    }
}

/// The models in an answer of the daemon.
pub fn models_in_value(v: &serde_json::Value) -> (r: Option<Vec<LoadedModel>>)
    ensures
        r.deep_view() == models_in(tree(*v)),
{
    let list = get(v, "models");
    let items = match as_array(list) {
        Some(items) => items,
        None => {
            return None;
        },
    };
    let ghost all = trees(items@);
    let mut out: Vec<LoadedModel> = Vec::new();
    assert(out.deep_view() =~= Seq::<Loaded>::empty());
    for i in 0..items.len()
        invariant
            all == trees(items@),
            out.deep_view() == named_models(all.take(i as int)),
    {
        assert(all.take(i as int + 1).drop_last() =~= all.take(i as int));
        assert(all.take(i as int + 1).last() == tree(items@[i as int]));
        if let Some(name) = as_str(get(&items[i], "name")) {
            let size_bytes: u64 = match as_u64(get(&items[i], "size")) {
                Some(n) => n,
                None => 0,
            };
            let ghost before = out.deep_view();
            let m = LoadedModel { name: name.to_owned(), size_bytes };
            let ghost w = m@;
            out.push(m);
            assert(out.deep_view() =~= before.push(w));
        }
    }
    assert(all.take(all.len() as int) =~= all);
    Some(out)
}

fn models_in_answer(answer: Option<String>) -> (r: Option<Vec<LoadedModel>>)
    ensures
        r.deep_view() == models_told(answer.deep_view()),
{
    match answer {
        Some(body) => match parse(body.as_str()) {
            Ok(v) => models_in_value(&v),
            Err(_) => None,
        },
        None => None,
    }
}

/// `r` is what the daemon's page at `url` may tell.
pub open spec fn may_list<P: SystemProbe>(probe: P, url: Seq<char>, r: Option<Seq<Loaded>>) -> bool {
    exists|answer: Option<Seq<char>>|
        #[trigger] probe.tells_page(url, answer) && r == models_told(answer)
}

/// The models loaded in the Ollama daemon; `None` when it cannot be reached.
pub fn ollama_loaded_models<P: SystemProbe>(probe: &P) -> (r: Option<Vec<LoadedModel>>)
    ensures
        may_list(*probe, "http://127.0.0.1:11434/api/ps"@, r.deep_view()),
{
    let answer = probe.http_get_local("http://127.0.0.1:11434/api/ps");
    assert(probe.tells_page("http://127.0.0.1:11434/api/ps"@, answer.deep_view()));
    models_in_answer(answer)
}

/// The models installed in the Ollama daemon; `None` when it cannot be reached.
pub fn ollama_installed_models<P: SystemProbe>(probe: &P) -> (r: Option<Vec<LoadedModel>>)
    ensures
        may_list(*probe, "http://127.0.0.1:11434/api/tags"@, r.deep_view()),
{
    let answer = probe.http_get_local("http://127.0.0.1:11434/api/tags");
    assert(probe.tells_page("http://127.0.0.1:11434/api/tags"@, answer.deep_view()));
    models_in_answer(answer)
}

/// The request that loads a model without generating anything: its name and
/// how long it stays without traffic.
pub open spec fn warm_up_tree(model: Seq<char>) -> Tree {
    Tree::Object(
        members(seq![("model"@, Tree::Text(model)), ("keep_alive"@, Tree::Text("30m"@))]),
    )
}

/// The request that loads a model.
pub fn warm_up_body(model_ref: &str) -> (r: String)
    ensures
        r@ == written(warm_up_tree(model_ref@)),
{
    let mut fields: Vec<(String, serde_json::Value)> = Vec::new();
    fields.push(("model".to_owned(), text(model_ref)));
    fields.push(("keep_alive".to_owned(), text("30m")));
    assert(fields@.map_values(|f: (String, serde_json::Value)| (f.0@, tree(f.1))) =~= seq![
        ("model"@, Tree::Text(model_ref@)),
        ("keep_alive"@, Tree::Text("30m"@)),
    ]);
    render(&object(fields))
}

/// Loads a model into the Ollama daemon, so that the first request does not
/// wait for it. False if the daemon cannot be reached or refuses.
pub fn warm_up_ollama<P: SystemProbe>(probe: &P, model_ref: &str) -> (r: bool)
    ensures
        exists|reply: Option<Seq<char>>|
            #[trigger] probe.tells_reply(
                "http://127.0.0.1:11434/api/generate"@,
                written(warm_up_tree(model_ref@)),
                reply,
            ) && r == (reply is Some),
{
    let body = warm_up_body(model_ref);
    let reply = probe.http_post_local("http://127.0.0.1:11434/api/generate", body.as_str());
    assert(probe.tells_reply(
        "http://127.0.0.1:11434/api/generate"@,
        written(warm_up_tree(model_ref@)),
        reply.deep_view(),
    ));
    reply.is_some()
}

// ---------------------------------------------------------------------------
// Rows
// ---------------------------------------------------------------------------

/// How to stop a running server.
#[derive(Debug, PartialEq, Eq)]
pub enum StopHandle {
    /// A server of our own, by its process.
    Pid(u32),
    /// A model of the Ollama daemon, which keeps running.
    OllamaModel(String),
}

/// `StopHandle` without its storage.
pub ghost enum Stop {
    Pid(u32),
    OllamaModel(Seq<char>),
}

impl View for StopHandle {
    type V = Stop;

    open spec fn view(&self) -> Stop {
        match *self {
            StopHandle::Pid(p) => Stop::Pid(p),
            StopHandle::OllamaModel(m) => Stop::OllamaModel(m@),
        }
    }
}

impl Clone for StopHandle {
    fn clone(&self) -> (r: StopHandle)
        ensures
            r@ == self@,
    {
        match self {
            StopHandle::Pid(p) => StopHandle::Pid(*p),
            StopHandle::OllamaModel(m) => StopHandle::OllamaModel(m.clone()),
        }
    }
}

/// A running server, ours or the daemon's. What does not apply is `None`.
#[derive(Debug)]
pub struct ServerRow {
    pub model: String,
    pub runtime: RuntimeKind,
    pub endpoint: String,
    pub openai_url: String,
    pub ctx: Option<u32>,
    pub started_at: Option<i64>,
    pub stop: StopHandle,
}

/// `ServerRow` without its storage.
pub ghost struct Row {
    pub model: Seq<char>,
    pub runtime: RuntimeKind,
    pub endpoint: Seq<char>,
    pub openai_url: Seq<char>,
    pub ctx: Option<u32>,
    pub started_at: Option<i64>,
    pub stop: Stop,
}

impl View for ServerRow {
    type V = Row;

    open spec fn view(&self) -> Row {
        Row {
            model: self.model@,
            runtime: self.runtime,
            endpoint: self.endpoint@,
            openai_url: self.openai_url@,
            ctx: self.ctx,
            started_at: self.started_at,
            stop: self.stop@,
        }
    }
}

impl DeepView for ServerRow {
    type V = Row;

    open spec fn deep_view(&self) -> Row {
        self@
    }
}

/// The row of a server of our own; a context of zero does not apply.
pub open spec fn record_row(r: Record) -> Row {
    Row {
        model: r.model_ref,
        runtime: r.runtime,
        endpoint: r.endpoint,
        openai_url: r.openai_url,
        ctx: if r.ctx != 0 {
            Some(r.ctx)
        } else {
            None
        },
        started_at: Some(r.started_at),
        stop: Stop::Pid(r.pid),
    }
}

/// A server that was started for a plan is listed with the plan's model, runtime
/// and address, and is stopped by its process.
pub proof fn served_plan_is_listed_as_planned(
    p: Serve,
    pid: u32,
    log_path: Option<Seq<char>>,
    started_at: i64,
)
    ensures
        ({
            let row = record_row(record_of(p, pid, log_path, started_at));
            &&& row.model == p.model_ref && row.runtime == p.runtime
            &&& row.endpoint == p.endpoint && row.openai_url == p.openai_url
            &&& row.stop == Stop::Pid(pid)
            &&& row.started_at == Some(started_at)
            &&& p.ctx > 0 ==> row.ctx == Some(p.ctx)
            &&& p.ctx == 0 ==> row.ctx is None
        }),
{
}

/// The row of a model loaded in the daemon.
pub open spec fn loaded_row(m: Loaded) -> Row {
    Row {
        model: m.name,
        runtime: RuntimeKind::Ollama,
        endpoint: "http://127.0.0.1:11434"@,
        openai_url: "http://127.0.0.1:11434/v1/chat/completions"@,
        ctx: None,
        started_at: None,
        stop: Stop::OllamaModel(m.name),
    }
}

/// The rows of all that runs: servers of our own, then the daemon's models.
pub open spec fn all_rows(live: Seq<Record>, loaded: Option<Seq<Loaded>>) -> Seq<Row> {
    live.map_values(|r: Record| record_row(r)) + match loaded {
        Some(models) => models.map_values(|m: Loaded| loaded_row(m)),
        None => Seq::empty(),
    }
}

/// A row stops what it shows: one of a record the process of that record, one of
/// a loaded model that model. Every record and every loaded model has a row, the
/// records first.
pub proof fn rows_stop_what_they_show(live: Seq<Record>, loaded: Option<Seq<Loaded>>, i: int)
    requires
        0 <= i < all_rows(live, loaded).len(),
    ensures
        ({
            let rows = all_rows(live, loaded);
            let models = match loaded {
                Some(models) => models,
                None => Seq::empty(),
            };
            &&& rows.len() == live.len() + models.len()
            &&& if i < live.len() {
                &&& rows[i].stop == Stop::Pid(live[i].pid)
                &&& rows[i].model == live[i].model_ref
                &&& rows[i].endpoint == live[i].endpoint
                &&& rows[i].started_at == Some(live[i].started_at)
                &&& rows[i].ctx is Some <==> live[i].ctx > 0
                &&& rows[i].ctx matches Some(c) ==> c == live[i].ctx
            } else {
                &&& rows[i].stop == Stop::OllamaModel(rows[i].model)
                &&& rows[i].model == models[i - live.len()].name
                &&& rows[i].runtime == RuntimeKind::Ollama
            }
        }),
{
}

/// Everything that runs: servers of our own, then the daemon's models.
pub fn list_all_servers(live: &Vec<ServingRecord>, loaded: &Option<Vec<LoadedModel>>) -> (r: Vec<
    ServerRow,
>)
    ensures
        r.deep_view() == all_rows(live.deep_view(), loaded.deep_view()),
{
    let ghost first = live.deep_view().map_values(|r: Record| record_row(r));
    let mut rows: Vec<ServerRow> = Vec::new();
    for i in 0..live.len()
        invariant
            rows@.len() == i,
            forall|j: int| 0 <= j < i ==> (#[trigger] rows@[j])@ == record_row(live@[j]@),
    {
        let r = &live[i];
        rows.push(
            ServerRow {
                model: r.model_ref.clone(),
                runtime: r.runtime,
                endpoint: r.endpoint.clone(),
                openai_url: r.openai_url.clone(),
                ctx: if r.ctx != 0 {
                    Some(r.ctx)
                } else {
                    None
                },
                started_at: Some(r.started_at),
                stop: StopHandle::Pid(r.pid),
            },
        );
    }
    let n: usize = live.len();
    if let Some(models) = loaded {
        for i in 0..models.len()
            invariant
                n == live@.len(),
                rows@.len() == n + i,
                forall|j: int| 0 <= j < n ==> (#[trigger] rows@[j])@ == record_row(live@[j]@),
                forall|j: int|
                    n <= j < n + i ==> (#[trigger] rows@[j])@ == loaded_row(models@[j - n]@),
        {
            let m = &models[i];
            rows.push(
                ServerRow {
                    model: m.name.clone(),
                    runtime: RuntimeKind::Ollama,
                    endpoint: "http://127.0.0.1:11434".to_owned(),
                    openai_url: "http://127.0.0.1:11434/v1/chat/completions".to_owned(),
                    ctx: None,
                    started_at: None,
                    stop: StopHandle::OllamaModel(m.name.clone()),
                },
            );
        }
    }
    assert(rows.deep_view() =~= all_rows(live.deep_view(), loaded.deep_view()));
    rows
}

// ---------------------------------------------------------------------------
// History
// ---------------------------------------------------------------------------

/// A model that was served, with the plan to serve it again.
#[derive(Debug)]
pub struct HistoryEntry {
    pub plan: ServePlan,
    pub last_served_at: i64,
}

/// `HistoryEntry` without its storage.
pub ghost struct Served {
    pub plan: Serve,
    pub last_served_at: i64,
}

impl View for HistoryEntry {
    type V = Served;

    open spec fn view(&self) -> Served {
        Served { plan: self.plan@, last_served_at: self.last_served_at }
    }
}

impl DeepView for HistoryEntry {
    type V = Served;

    open spec fn deep_view(&self) -> Served {
        self@
    }
}

/// The file with the models that were served.
#[derive(Debug)]
pub struct History {
    pub dir: String,
}

impl History {
    pub fn at(dir: &str) -> (r: History)
        ensures
            r.dir@ == dir@,
    {
        History { dir: dir.to_owned() }
    }

    /// The history in its default directory.
    pub fn open_default(set: Option<String>, support_dir: &str) -> (r: History)
        ensures
            r.dir@ == set_or_below(set.deep_view(), support_dir@, "serving"@),
    {
        History { dir: default_serving_dir(set, support_dir) }
    }

    pub fn path(&self) -> (r: String)
        ensures
            r@ == below(self.dir@, "history.json"@),
    {
        join_path(self.dir.as_str(), "history.json")
    }
}

/// The entries of other models.
pub open spec fn entries_without(entries: Seq<Served>, model: Seq<char>) -> Seq<Served>
    decreases entries.len(),
{
    if entries.len() == 0 {
        Seq::empty()
    } else {
        let before = entries_without(entries.drop_last(), model);
        if entries.last().plan.model_ref != model {
            before.push(entries.last())
        } else {
            before
        }
    }
}

/// The history once a plan was served.
pub open spec fn history_after(entries: Seq<Served>, plan: Serve, now: i64) -> Seq<Served> {
    entries_without(entries, plan.model_ref).push(Served { plan, last_served_at: now })
}

/// Each model has one entry at most.
pub open spec fn one_entry_each(entries: Seq<Served>) -> bool {
    forall|i: int, j: int|
        0 <= i < j < entries.len() ==> (#[trigger] entries[i]).plan.model_ref != (
        #[trigger] entries[j]).plan.model_ref
}

/// Notes that a plan was served: the model's former entry goes.
pub fn record_served(entries: Vec<HistoryEntry>, plan: &ServePlan, now: i64) -> (r: Vec<
    HistoryEntry,
>)
    ensures
        r.deep_view() == history_after(entries.deep_view(), plan@, now),
{
    let ghost all = entries.deep_view();
    let mut out: Vec<HistoryEntry> = Vec::new();
    assert(out.deep_view() =~= Seq::<Served>::empty());
    for i in 0..entries.len()
        invariant
            all == entries.deep_view(),
            out.deep_view() == entries_without(all.take(i as int), plan@.model_ref),
    {
        assert(all.take(i as int + 1).drop_last() =~= all.take(i as int));
        assert(all.take(i as int + 1).last() == entries@[i as int]@);
        if !same(entries[i].plan.model_ref.as_str(), plan.model_ref.as_str()) {
            let ghost before = out.deep_view();
            let e = HistoryEntry {
                plan: entries[i].plan.clone(),
                last_served_at: entries[i].last_served_at,
            };
            let ghost w = e@;
            out.push(e);
            assert(out.deep_view() =~= before.push(w));
        }
    }
    assert(all.take(all.len() as int) =~= all);
    let ghost before = out.deep_view();
    let last = HistoryEntry { plan: plan.clone(), last_served_at: now };
    let ghost w = last@;
    out.push(last);
    assert(out.deep_view() =~= before.push(w));
    out
}

proof fn lemma_entries_without(entries: Seq<Served>, model: Seq<char>)
    ensures
        forall|i: int|
            0 <= i < entries_without(entries, model).len() ==> (#[trigger] entries_without(
                entries,
                model,
            )[i]).plan.model_ref != model && entries.contains(entries_without(entries, model)[i]),
        one_entry_each(entries) ==> one_entry_each(entries_without(entries, model)),
        forall|e: Served|
            #[trigger] entries.contains(e) && e.plan.model_ref != model ==> entries_without(
                entries,
                model,
            ).contains(e),
    decreases entries.len(),
{
    if entries.len() > 0 {
        let t = entries.drop_last();
        lemma_entries_without(t, model);
        let before = entries_without(t, model);
        let all = entries_without(entries, model);
        assert forall|i: int| 0 <= i < all.len() implies (#[trigger] all[i]).plan.model_ref != model
            && entries.contains(all[i]) by {
            if i < before.len() {
                assert(all[i] == before[i]);
                assert(t.contains(before[i]));
                let k = choose|k: int| 0 <= k < t.len() && t[k] == before[i];
                assert(entries[k] == all[i]);
            } else {
                assert(entries[entries.len() - 1] == all[i]);
            }
        }
        if one_entry_each(entries) {
            assert(one_entry_each(t)) by {
                assert forall|i: int, j: int| 0 <= i < j < t.len() implies (
                #[trigger] t[i]).plan.model_ref != (#[trigger] t[j]).plan.model_ref by {
                    assert(entries[i] == t[i] && entries[j] == t[j]);
                }
            }
            assert forall|i: int, j: int| 0 <= i < j < all.len() implies (
            #[trigger] all[i]).plan.model_ref != (#[trigger] all[j]).plan.model_ref by {
                if j < before.len() {
                    assert(all[i] == before[i] && all[j] == before[j]);
                } else {
                    assert(all[i] == before[i]);
                    assert(t.contains(before[i]));
                    let k = choose|k: int| 0 <= k < t.len() && t[k] == before[i];
                    assert(entries[k] == all[i]);
                    assert(entries[entries.len() - 1] == all[j]);
                }
            }
        }
        assert forall|e: Served|
            #[trigger] entries.contains(e) && e.plan.model_ref != model implies all.contains(e) by {
            let k = choose|k: int| 0 <= k < entries.len() && entries[k] == e;
            if k < t.len() {
                assert(t[k] == e);
                assert(t.contains(e));
                let i = choose|i: int| 0 <= i < before.len() && before[i] == e;
                assert(all[i] == e);
            } else {
                assert(all[before.len() as int] == e);
            }
        }
    }
}

/// Serving a model leaves one entry for it, with the latest time, and the
/// entries of all other models.
pub proof fn last_serve_wins(entries: Seq<Served>, plan: Serve, now: i64)
    requires
        one_entry_each(entries),
    ensures
        one_entry_each(history_after(entries, plan, now)),
        history_after(entries, plan, now).contains(Served { plan, last_served_at: now }),
        forall|e: Served|
            #[trigger] entries.contains(e) && e.plan.model_ref != plan.model_ref ==> history_after(
                entries,
                plan,
                now,
            ).contains(e),
{
    lemma_entries_without(entries, plan.model_ref);
    let before = entries_without(entries, plan.model_ref);
    let all = history_after(entries, plan, now);
    assert(all[before.len() as int] == (Served { plan, last_served_at: now }));
    assert forall|i: int, j: int| 0 <= i < j < all.len() implies (
    #[trigger] all[i]).plan.model_ref != (#[trigger] all[j]).plan.model_ref by {
        assert(all[i] == before[i]);
        if j < before.len() {
            assert(all[j] == before[j]);
        }
    }
    assert forall|e: Served|
        #[trigger] entries.contains(e) && e.plan.model_ref != plan.model_ref implies all.contains(
        e,
    ) by {
        assert(before.contains(e));
        let i = choose|i: int| 0 <= i < before.len() && before[i] == e;
        assert(all[i] == e);
    }
}

// ---------------------------------------------------------------------------
// Available models
// ---------------------------------------------------------------------------

/// A model that is here but not running, with the plan to serve it.
#[derive(Debug)]
pub struct AvailableRow {
    pub model: String,
    pub runtime: RuntimeKind,
    pub size_bytes: Option<u64>,
    pub last_served_at: Option<i64>,
    pub plan: ServePlan,
}

/// `AvailableRow` without its storage.
pub ghost struct Available {
    pub model: Seq<char>,
    pub runtime: RuntimeKind,
    pub size_bytes: Option<u64>,
    pub last_served_at: Option<i64>,
    pub plan: Serve,
}

impl View for AvailableRow {
    type V = Available;

    open spec fn view(&self) -> Available {
        Available {
            model: self.model@,
            runtime: self.runtime,
            size_bytes: self.size_bytes,
            last_served_at: self.last_served_at,
            plan: self.plan@,
        }
    }
}

impl DeepView for AvailableRow {
    type V = Available;

    open spec fn deep_view(&self) -> Available {
        self@
    }
}

/// Some running server serves the model.
pub open spec fn is_running(rows: Seq<Row>, model: Seq<char>) -> bool {
    exists|i: int| 0 <= i < rows.len() && (#[trigger] rows[i]).model == model
}

/// How the running daemon serves a model that it has: there is nothing to
/// start and nothing to pull.
pub open spec fn installed_plan(model: Seq<char>) -> Serve {
    Serve {
        server_argv: None,
        pre_steps: Seq::empty(),
        endpoint: "http://127.0.0.1:11434"@,
        openai_url: "http://127.0.0.1:11434/v1/chat/completions"@,
        model_ref: model,
        ready_path: "/api/version"@,
        install: None,
        port_ignored: false,
        runtime: RuntimeKind::Ollama,
        ctx: 0,
        port: None,
    }
}

pub open spec fn installed_row(m: Loaded) -> Available {
    Available {
        model: m.name,
        runtime: RuntimeKind::Ollama,
        size_bytes: Some(m.size_bytes),
        last_served_at: None,
        plan: installed_plan(m.name),
    }
}

pub open spec fn served_row(e: Served) -> Available {
    Available {
        model: e.plan.model_ref,
        runtime: e.plan.runtime,
        size_bytes: None,
        last_served_at: Some(e.last_served_at),
        plan: e.plan,
    }
}

/// The rows of the models that do not run.
pub open spec fn not_running(all: Seq<Available>, rows: Seq<Row>) -> Seq<Available>
    decreases all.len(),
{
    if all.len() == 0 {
        Seq::empty()
    } else {
        let before = not_running(all.drop_last(), rows);
        if is_running(rows, all.last().model) {
            before
        } else {
            before.push(all.last())
        }
    }
}

/// Everything that could be served: the models of the daemon, then those that
/// were served before.
pub open spec fn servable(installed: Option<Seq<Loaded>>, history: Seq<Served>) -> Seq<Available> {
    (match installed {
        Some(models) => models.map_values(|m: Loaded| installed_row(m)),
        None => Seq::empty(),
    }) + history.map_values(|e: Served| served_row(e))
}

/// What is offered serves the model and the runtime that it shows; a model
/// served before is served again as it was.
pub proof fn offers_serve_what_they_show(
    installed: Option<Seq<Loaded>>,
    history: Seq<Served>,
    i: int,
)
    requires
        0 <= i < servable(installed, history).len(),
    ensures
        ({
            let a = servable(installed, history)[i];
            let n = match installed {
                Some(models) => models.len(),
                None => 0,
            };
            &&& a.plan.model_ref == a.model
            &&& a.plan.runtime == a.runtime
            &&& i < n ==> a.size_bytes == Some(installed->Some_0[i].size_bytes) && a.model
                == installed->Some_0[i].name
            &&& i >= n ==> a.plan == history[i - n].plan && a.last_served_at == Some(
                history[i - n].last_served_at,
            )
        }),
{
}

fn runs(rows: &Vec<ServerRow>, model: &str) -> (r: bool)
    ensures
        r == is_running(rows.deep_view(), model@),
{
    for i in 0..rows.len()
        invariant
            forall|j: int| 0 <= j < i ==> (#[trigger] rows@[j])@.model != model@,
    {
        if same(rows[i].model.as_str(), model) {
            assert(rows.deep_view()[i as int].model == model@);
            return true;
        }
    }
    assert forall|j: int| 0 <= j < rows.deep_view().len() implies (
    #[trigger] rows.deep_view()[j]).model != model@ by {
        assert(rows@[j]@.model != model@);
    }
    false
}

fn ollama_plan(model: &str) -> (r: ServePlan)
    ensures
        r@ == installed_plan(model@),
{
    let pre_steps: Vec<Vec<String>> = Vec::new();
    assert(pre_steps.deep_view() =~= Seq::<Seq<Seq<char>>>::empty());
    ServePlan {
        server_argv: None,
        pre_steps,
        endpoint: "http://127.0.0.1:11434".to_owned(),
        openai_url: "http://127.0.0.1:11434/v1/chat/completions".to_owned(),
        model_ref: model.to_owned(),
        ready_path: "/api/version".to_owned(),
        install: None,
        port_ignored: false,
        runtime: RuntimeKind::Ollama,
        ctx: 0,
        port: None,
    }
}

/// What could be served and does not run: the models of the Ollama daemon, as
/// far as it answers, then the models that were served before.
pub fn list_available(
    history: &Vec<HistoryEntry>,
    installed: &Option<Vec<LoadedModel>>,
    running: &Vec<ServerRow>,
) -> (r: Vec<AvailableRow>)
    ensures
        r.deep_view() == not_running(
            servable(installed.deep_view(), history.deep_view()),
            running.deep_view(),
        ),
{
    let ghost rows = running.deep_view();
    let ghost all = servable(installed.deep_view(), history.deep_view());
    let mut out: Vec<AvailableRow> = Vec::new();
    assert(out.deep_view() =~= Seq::<Available>::empty());
    let mut n: usize = 0;
    if let Some(models) = installed {
        for i in 0..models.len()
            invariant
                rows == running.deep_view(),
                all.len() >= models@.len(),
                forall|j: int|
                    0 <= j < models@.len() ==> #[trigger] all[j] == installed_row(models@[j]@),
                out.deep_view() == not_running(all.take(i as int), rows),
        {
            assert(all.take(i as int + 1).drop_last() =~= all.take(i as int));
            assert(all.take(i as int + 1).last() == all[i as int]);
            if !runs(running, models[i].name.as_str()) {
                let ghost before = out.deep_view();
                let row = AvailableRow {
                    model: models[i].name.clone(),
                    runtime: RuntimeKind::Ollama,
                    size_bytes: Some(models[i].size_bytes),
                    last_served_at: None,
                    plan: ollama_plan(models[i].name.as_str()),
                };
                let ghost w = row@;
                out.push(row);
                assert(out.deep_view() =~= before.push(w));
            }
        }
        n = models.len();
    }
    for i in 0..history.len()
        invariant
            rows == running.deep_view(),
            all.len() == n + history@.len(),
            forall|j: int|
                0 <= j < history@.len() ==> #[trigger] all[n + j] == served_row(history@[j]@),
            out.deep_view() == not_running(all.take(n + i), rows),
    {
        assert(all.take(n + i + 1).drop_last() =~= all.take(n + i));
        assert(all.take(n + i + 1).last() == all[n + i]);
        let plan = &history[i].plan;
        if !runs(running, plan.model_ref.as_str()) {
            let ghost before = out.deep_view();
            let row = AvailableRow {
                model: plan.model_ref.clone(),
                runtime: plan.runtime,
                size_bytes: None,
                last_served_at: Some(history[i].last_served_at),
                plan: plan.clone(),
            };
            let ghost w = row@;
            out.push(row);
            assert(out.deep_view() =~= before.push(w));
        }
    }
    assert(all.take(all.len() as int) =~= all);
    out
}

/// No model is both running and available.
pub proof fn available_does_not_run(all: Seq<Available>, rows: Seq<Row>)
    ensures
        forall|i: int|
            0 <= i < not_running(all, rows).len() ==> !is_running(
                rows,
                (#[trigger] not_running(all, rows)[i]).model,
            ),
    decreases all.len(),
{
    if all.len() > 0 {
        let before = not_running(all.drop_last(), rows);
        available_does_not_run(all.drop_last(), rows);
        assert forall|i: int| 0 <= i < not_running(all, rows).len() implies !is_running(
            rows,
            (#[trigger] not_running(all, rows)[i]).model,
        ) by {
            if i < before.len() {
                assert(not_running(all, rows)[i] == before[i]);
            }
        }
    }
}

} // verus!
