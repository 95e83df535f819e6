//! What the menu of the menu bar item holds.

use vstd::prelude::*;

use crate::bench::{trim_slashes, without_slashes};
use crate::catalog::RuntimeKind;
use crate::hardware::runtimes::{Runtimes, RuntimesStatus};
use crate::output::{gib, gib_text};
use crate::serving::{Loaded, LoadedModel, Record, ServingRecord};
use crate::text::{chars_of, part, starts_with, string_of};

verus! {

/// One line of the menu.
#[derive(Debug, PartialEq, Eq)]
pub enum MenuEntry {
    /// Head of a section, not clickable.
    Header(String),
    /// A model; a click copies its URL.
    Model { label: String, copy_url: String },
    /// A remark, not clickable.
    Info(String),
    Separator,
}

#[derive(Debug, PartialEq, Eq)]
pub struct MenuModel {
    pub entries: Vec<MenuEntry>,
}

/// `MenuEntry` without its storage.
pub ghost enum Entry {
    Header(Seq<char>),
    Model(Seq<char>, Seq<char>),
    Info(Seq<char>),
    Separator,
}

impl View for MenuEntry {
    type V = Entry;

    open spec fn view(&self) -> Entry {
        match *self {
            MenuEntry::Header(s) => Entry::Header(s@),
            MenuEntry::Model { label, copy_url } => Entry::Model(label@, copy_url@),
            MenuEntry::Info(s) => Entry::Info(s@),
            MenuEntry::Separator => Entry::Separator,
        }
    }
}

impl DeepView for MenuEntry {
    type V = Entry;

    open spec fn deep_view(&self) -> Entry {
        self@
    }
}

/// `s` without any number of `p` in front.
pub open spec fn without_prefixes(s: Seq<char>, p: Seq<char>) -> Seq<char>
    decreases s.len(),
{
    if p.len() > 0 && p.is_prefix_of(s) {
        without_prefixes(s.skip(p.len() as int), p)
    } else {
        s
    }
}

/// Host and port of an endpoint.
pub open spec fn host_of(endpoint: Seq<char>) -> Seq<char> {
    without_slashes(without_prefixes(without_prefixes(endpoint, "http://"@), "https://"@))
}

proof fn lemma_without_prefixes(s: Seq<char>, p: Seq<char>)
    ensures
        without_prefixes(s, p).is_suffix_of(s),
        p.len() > 0 ==> !p.is_prefix_of(without_prefixes(s, p)),
    decreases s.len(),
{
    if p.len() > 0 && p.is_prefix_of(s) {
        let t = s.skip(p.len() as int);
        lemma_without_prefixes(t, p);
        let w = without_prefixes(t, p);
        assert(t.subrange(t.len() - w.len(), t.len() as int) =~= s.subrange(
            s.len() - w.len(),
            s.len() as int,
        ));
    } else {
        assert(s.subrange(0, s.len() as int) =~= s);
    }
}

/// What is left of an endpoint is a part of it that ends in no slash; one
/// without a scheme and without a slash at its end is left as it is.
pub proof fn host_is_a_part_of_the_endpoint(endpoint: Seq<char>)
    ensures
        host_of(endpoint).len() > 0 ==> host_of(endpoint).last() != '/',
        !"http://"@.is_prefix_of(endpoint) && !"https://"@.is_prefix_of(endpoint) && (
        endpoint.len() == 0 || endpoint.last() != '/') ==> host_of(endpoint) == endpoint,
        host_of(endpoint).len() <= endpoint.len(),
{
    let a = without_prefixes(endpoint, "http://"@);
    let b = without_prefixes(a, "https://"@);
    lemma_without_prefixes(endpoint, "http://"@);
    lemma_without_prefixes(a, "https://"@);
    crate::bench::only_slashes_are_cut(b);
}

fn strip_prefixes(s: &str, p: &str) -> (r: String)
    requires
        p@.len() > 0,
    ensures
        r@ == without_prefixes(s@, p@),
{
    let mut cs = chars_of(s);
    let mark = chars_of(p);
    while starts_with(&cs, &mark)
        invariant
            mark@ == p@,
            p@.len() > 0,
            without_prefixes(s@, p@) == without_prefixes(cs@, p@),
        decreases cs@.len(),
    {
        let rest = part(&cs, mark.len(), cs.len());
        assert(rest@ =~= cs@.skip(p@.len() as int));
        cs = rest;
    }
    string_of(&cs)
}

/// Host and port of an endpoint: `127.0.0.1:8080` for `http://127.0.0.1:8080`.
pub fn host_port(endpoint: &str) -> (r: String)
    ensures
        r@ == host_of(endpoint@),
{
    proof {
        reveal_strlit("http://");
        reveal_strlit("https://");
    }
    let a = strip_prefixes(endpoint, "http://");
    let b = strip_prefixes(a.as_str(), "https://");
    trim_slashes(b.as_str())
}

/// The line of a model loaded in the daemon.
pub open spec fn loaded_entry(m: Loaded) -> Entry {
    Entry::Model(
        m.name + " — "@ + gib_text(m.size_bytes),
        "http://127.0.0.1:11434/v1/chat/completions"@,
    )
}

/// The section of the Ollama daemon: none unless it is installed; a remark if
/// it cannot be reached or holds nothing.
pub open spec fn ollama_section(loaded: Option<Seq<Loaded>>, rt: Runtimes) -> Seq<Entry> {
    if !rt.ollama.installed {
        Seq::empty()
    } else {
        match loaded {
            Some(models) => if models.len() > 0 {
                seq![Entry::Header("Ollama — 127.0.0.1:11434"@)] + models.map_values(
                    |m: Loaded| loaded_entry(m),
                )
            } else {
                seq![
                    Entry::Header("Ollama — 127.0.0.1:11434"@),
                    Entry::Info("aucun modèle chargé"@),
                ]
            },
            None => seq![Entry::Info("Ollama — injoignable"@)],
        }
    }
}

pub open spec fn server_name(k: RuntimeKind) -> Seq<char> {
    match k {
        RuntimeKind::MlxLm => "mlx-lm"@,
        _ => "llama-server"@,
    }
}

/// The section of a server of our own, apart from what stands above. The
/// daemon's section covers an Ollama that we started.
pub open spec fn with_record(entries: Seq<Entry>, r: Record) -> Seq<Entry> {
    if r.runtime == RuntimeKind::Ollama {
        entries
    } else {
        (if entries.len() > 0 {
            entries.push(Entry::Separator)
        } else {
            entries
        }) + seq![
            Entry::Header(server_name(r.runtime) + " — "@ + host_of(r.endpoint)),
            Entry::Model(r.model_ref, r.openai_url),
        ]
    }
}

/// The sections of the first `n` servers below `entries`.
pub open spec fn with_records(entries: Seq<Entry>, records: Seq<Record>, n: int) -> Seq<Entry>
    decreases n,
{
    if n <= 0 {
        entries
    } else {
        with_record(with_records(entries, records, n - 1), records[n - 1])
    }
}

/// The menu: the daemon's section, a section per server of our own, and
/// remarks if nothing is active or nothing is installed.
pub open spec fn menu(records: Seq<Record>, loaded: Option<Seq<Loaded>>, rt: Runtimes) -> Seq<
    Entry,
> {
    let sections = with_records(ollama_section(loaded, rt), records, records.len() as int);
    let active = if sections.len() == 0 {
        seq![Entry::Info("Aucun serveur actif"@)]
    } else {
        sections
    };
    if !rt.ollama.installed && !rt.llama_cpp.installed && !rt.mlx.installed {
        active.push(
            Entry::Info("Aucun runtime installé — lance `paddock run` pour installer"@),
        )
    } else {
        active
    }
}

proof fn lemma_with_records(entries: Seq<Entry>, records: Seq<Record>, n: int, i: int)
    requires
        0 <= n <= records.len(),
    ensures
        entries.is_prefix_of(with_records(entries, records, n)),
        0 <= i < n && records[i].runtime != RuntimeKind::Ollama ==> with_records(
            entries,
            records,
            n,
        ).contains(Entry::Model(records[i].model_ref, records[i].openai_url)),
    decreases n,
{
    if n > 0 {
        lemma_with_records(entries, records, n - 1, i);
        let before = with_records(entries, records, n - 1);
        let all = with_records(entries, records, n);
        assert(before.is_prefix_of(all));
        if 0 <= i < n && records[i].runtime != RuntimeKind::Ollama {
            let e = Entry::Model(records[i].model_ref, records[i].openai_url);
            if i < n - 1 {
                let k = choose|k: int| 0 <= k < before.len() && before[k] == e;
                assert(all[k] == e);
            } else {
                assert(all[all.len() - 1] == e);
            }
        }
    }
}

/// Every server that is no Ollama has an entry with its model and the address to
/// copy, and so has every model that an installed Ollama holds.
pub proof fn menu_lists_every_server(
    records: Seq<Record>,
    loaded: Option<Seq<Loaded>>,
    rt: Runtimes,
    i: int,
)
    ensures
        0 <= i < records.len() && records[i].runtime != RuntimeKind::Ollama ==> menu(
            records,
            loaded,
            rt,
        ).contains(Entry::Model(records[i].model_ref, records[i].openai_url)),
        rt.ollama.installed && loaded is Some && 0 <= i < loaded->Some_0.len() ==> menu(
            records,
            loaded,
            rt,
        ).contains(loaded_entry(loaded->Some_0[i])),
{
    let first = ollama_section(loaded, rt);
    let n = records.len() as int;
    lemma_with_records(first, records, n, i);
    let sections = with_records(first, records, n);
    let all = menu(records, loaded, rt);
    if 0 <= i < n && records[i].runtime != RuntimeKind::Ollama {
        let e = Entry::Model(records[i].model_ref, records[i].openai_url);
        let k = choose|k: int| 0 <= k < sections.len() && sections[k] == e;
        assert(all[k] == e);
    }
    if rt.ollama.installed && loaded is Some && 0 <= i < loaded->Some_0.len() {
        let e = loaded_entry(loaded->Some_0[i]);
        assert(first[i + 1] == e);
        assert(sections[i + 1] == e);
        assert(all[i + 1] == e);
    }
}

fn push_entry(entries: &mut Vec<MenuEntry>, e: MenuEntry)
    ensures
        final(entries).deep_view() == old(entries).deep_view().push(e@),
{
    let ghost before = entries.deep_view();
    entries.push(e);
    assert(entries.deep_view() =~= before.push(e@));
}

fn with_dash(a: &str, b: &str) -> (r: String)
    ensures
        r@ == a@ + " — "@ + b@,
{
    let mut s = a.to_owned();
    s.append(" — ");
    s.append(b);
    s
}

fn push_ollama_section(
    entries: &mut Vec<MenuEntry>,
    loaded: Option<&[LoadedModel]>,
    rt: &RuntimesStatus,
)
    requires
        old(entries)@.len() == 0,
    ensures
        final(entries).deep_view() == ollama_section(
            match loaded {
                Some(v) => Some(v.deep_view()),
                None => None,
            },
            rt@,
        ),
{
    assert(entries.deep_view() =~= Seq::<Entry>::empty());
    if !rt.ollama.installed {
        return;
    }
    match loaded {
        Some(models) => {
            let ghost all = models.deep_view();
            push_entry(entries, MenuEntry::Header("Ollama — 127.0.0.1:11434".to_owned()));
            if models.len() == 0 {
                push_entry(entries, MenuEntry::Info("aucun modèle chargé".to_owned()));
                assert(entries.deep_view() =~= seq![
                    Entry::Header("Ollama — 127.0.0.1:11434"@),
                    Entry::Info("aucun modèle chargé"@),
                ]);
                return;
            }
            let ghost lines = all.map_values(|m: Loaded| loaded_entry(m));
            let ghost head = seq![Entry::Header("Ollama — 127.0.0.1:11434"@)];
            assert(entries.deep_view() =~= head + lines.take(0));
            for i in 0..models.len()
                invariant
                    all == models.deep_view(),
                    lines == all.map_values(|m: Loaded| loaded_entry(m)),
                    entries.deep_view() == head + lines.take(i as int),
            {
                let m = &models[i];
                assert(lines[i as int] == loaded_entry(m@));
                push_entry(
                    entries,
                    MenuEntry::Model {
                        label: with_dash(m.name.as_str(), gib(m.size_bytes).as_str()),
                        copy_url: "http://127.0.0.1:11434/v1/chat/completions".to_owned(),
                    },
                );
                assert((head + lines.take(i as int)).push(lines[i as int]) =~= head + lines.take(
                    i as int + 1,
                ));
            }
            assert(lines.take(lines.len() as int) =~= lines);
        },
        None => {
            push_entry(entries, MenuEntry::Info("Ollama — injoignable".to_owned()));
            assert(entries.deep_view() =~= seq![Entry::Info("Ollama — injoignable"@)]);
        },
    }
}

/// The menu for the servers of our own, the models of the daemon (`None` if it
/// cannot be reached) and the runtimes.
pub fn build_menu_model(
    records: &[ServingRecord],
    ollama_ps: Option<&[LoadedModel]>,
    runtimes: &RuntimesStatus,
) -> (r: MenuModel)
    ensures
        r.entries.deep_view() == menu(
            Seq::new(records@.len(), |i: int| records@[i]@),
            match ollama_ps {
                Some(v) => Some(v.deep_view()),
                None => None,
            },
            runtimes@,
        ),
{
    let ghost all = Seq::new(records@.len(), |i: int| records@[i]@);
    let mut entries: Vec<MenuEntry> = Vec::new();
    push_ollama_section(&mut entries, ollama_ps, runtimes);
    let ghost top = entries.deep_view();
    for i in 0..records.len()
        invariant
            all == Seq::new(records@.len(), |i: int| records@[i]@),
            entries.deep_view() == with_records(top, all, i as int),
    {
        let r = &records[i];
        let ghost before = entries.deep_view();
        assert(all[i as int] == r@);
        let label: Option<&str> = match r.runtime {
            RuntimeKind::Ollama => None,
            RuntimeKind::LlamaCpp => Some("llama-server"),
            RuntimeKind::MlxLm => Some("mlx-lm"),
        };
        if let Some(name) = label {
            assert(before.len() == entries@.len());
            if entries.len() > 0 {
                push_entry(&mut entries, MenuEntry::Separator);
            }
            let host = host_port(r.endpoint.as_str());
            push_entry(&mut entries, MenuEntry::Header(with_dash(name, host.as_str())));
            push_entry(
                &mut entries,
                MenuEntry::Model { label: r.model_ref.clone(), copy_url: r.openai_url.clone() },
            );
            assert(entries.deep_view() =~= with_record(before, r@));
        }
    }
    assert(entries.deep_view().len() == entries@.len());
    if entries.len() == 0 {
        push_entry(&mut entries, MenuEntry::Info("Aucun serveur actif".to_owned()));
        assert(entries.deep_view() =~= seq![Entry::Info("Aucun serveur actif"@)]);
    }
    if !runtimes.ollama.installed && !runtimes.llama_cpp.installed && !runtimes.mlx.installed {
        push_entry(
            &mut entries,
            MenuEntry::Info(
                "Aucun runtime installé — lance `paddock run` pour installer".to_owned(),
            ),
        );
    }
    MenuModel { entries }
}

/// The menu is never empty.
pub proof fn menu_says_something(records: Seq<Record>, loaded: Option<Seq<Loaded>>, rt: Runtimes)
    ensures
        menu(records, loaded, rt).len() > 0,
{
}

/// Servers that we started as Ollama add nothing: the daemon's section covers
/// them.
pub proof fn ollama_records_add_nothing(
    records: Seq<Record>,
    loaded: Option<Seq<Loaded>>,
    rt: Runtimes,
)
    requires
        forall|i: int|
            0 <= i < records.len() ==> (#[trigger] records[i]).runtime == RuntimeKind::Ollama,
    ensures
        menu(records, loaded, rt) == menu(Seq::empty(), loaded, rt),
{
    lemma_only_ollama(ollama_section(loaded, rt), records, records.len() as int);
}

proof fn lemma_only_ollama(entries: Seq<Entry>, records: Seq<Record>, n: int)
    requires
        0 <= n <= records.len(),
        forall|i: int|
            0 <= i < records.len() ==> (#[trigger] records[i]).runtime == RuntimeKind::Ollama,
    ensures
        with_records(entries, records, n) == entries,
    decreases n,
{
    if n > 0 {
        lemma_only_ollama(entries, records, n - 1);
        assert(records[n - 1].runtime == RuntimeKind::Ollama);
    }
}

} // verus!
