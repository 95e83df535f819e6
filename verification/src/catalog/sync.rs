//! What a sync does with what its sources answer.

use vstd::prelude::*;

use crate::catalog::hf::{
    fetch_hf_gguf, fetch_mlx, gguf_models_keep_their_source, gives_gguf_models, gives_mlx_models,
    mlx_models_keep_their_source, models_outcome,
};
use crate::catalog::http::HttpClient;
use crate::catalog::ollama_registry::{
    discover_model, discovered_models_keep_the_name, distinct, distinct_members, enrich_with_tags,
    enriched, fetch_library_index, fetch_model_tags, gives_index, gives_model, gives_tags, index_on,
    is_listed, is_name_char, is_plain_name, listed_names_are_plain, model_outcome, names_outcome,
    select_variant_tags, selected, tags_url_of,
};
use crate::catalog::{CatalogModel, Model, Source};
use crate::error::{failure_text, Failure, PaddockError};
use crate::numeral::{digits, push_decimal};
use crate::text::{chars_of, find_char, part, same, string_of};

verus! {

/// Options of a sync. The limits keep the first sync fast.
#[derive(Debug)]
pub struct SyncOptions {
    pub hf_limit: usize,
    pub mlx_limit: usize,
    /// Enrich the curated models with the tags of the Ollama library.
    pub ollama_registry: bool,
    /// Discover this many library models beyond the curated ones; `None`
    /// discovers none.
    pub discover_limit: Option<usize>,
}

impl Default for SyncOptions {
    fn default() -> (r: SyncOptions)
        ensures
            r.hf_limit == 100,
            r.mlx_limit == 60,
            r.ollama_registry,
            r.discover_limit == Some(60usize),
    {
        SyncOptions {
            hf_limit: 100,
            mlx_limit: 60,
            ollama_registry: true,
            discover_limit: Some(60),
        }
    }
}

// ---------------------------------------------------------------------------
// Names with a tag
// ---------------------------------------------------------------------------

/// `base:size` taken apart at the first colon.
pub open spec fn name_parts(name: Seq<char>) -> Option<(Seq<char>, Seq<char>)> {
    match name.index_of_first(':') {
        Some(i) => Some((name.take(i), name.skip(i + 1))),
        None => None,
    }
}

/// What goes before the first colon, all of a name without one.
pub open spec fn base_of(name: Seq<char>) -> Seq<char> {
    match name_parts(name) {
        Some((base, _)) => base,
        None => name,
    }
}

/// A name with a colon is its base, the colon and its tag; the base holds no
/// colon. A name without one is its own base.
pub proof fn name_is_base_and_tag(name: Seq<char>)
    ensures
        name_parts(name) matches Some((base, tag)) ==> name == base + ":"@ + tag && !base.contains(
            ':',
        ) && base_of(name) == base,
        name_parts(name) is None ==> !name.contains(':') && base_of(name) == name,
{
    reveal_strlit(":");
    name.index_of_first_ensures(':');
    if let Some(i) = name.index_of_first(':') {
        assert(name =~= name.take(i) + ":"@ + name.skip(i + 1));
        if name.take(i).contains(':') {
            let k = choose|k: int| 0 <= k < name.take(i).len() && name.take(i)[k] == ':';
            assert(name[k] == ':');
        }
    }
}

/// `base:size` taken apart at the first colon.
pub fn split_name(name: &str) -> (r: Option<(String, String)>)
    ensures
        match r {
            Some((base, size)) => name_parts(name@) == Some((base@, size@)),
            None => name_parts(name@) is None,
        },
{
    let cs = chars_of(name);
    let n: usize = cs.len();
    match find_char(&cs, ':') {
        Some(i) => {
            assert(i < n);
            assert(cs@.subrange(0, i as int) =~= cs@.take(i as int));
            assert(cs@.subrange(i as int + 1, n as int) =~= cs@.skip(i as int + 1));
            Some((string_of(&part(&cs, 0, i)), string_of(&part(&cs, i + 1, n))))
        },
        None => None,
    }
}

/// What goes before the first colon, all of a name without one.
pub fn base_name_of(name: &str) -> (r: String)
    ensures
        r@ == base_of(name@),
{
    match split_name(name) {
        Some((base, _)) => base,
        None => name.to_owned(),
    }
}

/// The bases of the models whose name has a tag, in order.
pub open spec fn tagged_bases(models: Seq<Model>) -> Seq<Seq<char>>
    decreases models.len(),
{
    if models.len() == 0 {
        Seq::empty()
    } else {
        let before = tagged_bases(models.drop_last());
        match name_parts(models.last().name) {
            Some((base, _)) => before.push(base),
            None => before,
        }
    }
}

/// The library pages to read for the curated models: one per base name, in
/// the order of the models.
pub fn library_bases(models: &Vec<CatalogModel>) -> (r: Vec<String>)
    ensures
        r.deep_view() == distinct(tagged_bases(models.deep_view())),
{
    let ghost all = models.deep_view();
    let mut out: Vec<String> = Vec::new();
    assert(out.deep_view() =~= Seq::<Seq<char>>::empty());
    for i in 0..models.len()
        invariant
            all == models.deep_view(),
            out.deep_view() == distinct(tagged_bases(all.take(i as int))),
    {
        assert(all.take(i as int + 1).drop_last() =~= all.take(i as int));
        assert(all.take(i as int + 1).last() == models@[i as int]@);
        let ghost bases = tagged_bases(all.take(i as int));
        if let Some((base, _)) = split_name(models[i].name.as_str()) {
            let ghost b = base@;
            assert(bases.push(b).drop_last() =~= bases);
            if !is_listed(&out, base.as_str()) {
                out.push(base);
                assert(out.deep_view() =~= distinct(bases).push(b));
            }
        }
    }
    assert(all.take(all.len() as int) =~= all);
    out
}

// ---------------------------------------------------------------------------
// Curated models
// ---------------------------------------------------------------------------

/// A curated model once the tags of `base` are known. Models of other bases
/// stay as they are.
pub open spec fn with_tags(m: Model, base: Seq<char>, tags: Seq<Seq<char>>) -> Model {
    match name_parts(m.name) {
        Some((b, size)) => if b == base && m.variants.len() > 0 {
            enriched(m, selected(tags, size, m.variants[0].quant))
        } else {
            m
        },
        None => m,
    }
}

/// The tags of one base name change models with that base name only, and of
/// these nothing but the variants.
pub proof fn tags_concern_their_base_only(m: Model, base: Seq<char>, tags: Seq<Seq<char>>)
    ensures
        base_of(m.name) != base ==> with_tags(m, base, tags) == m,
        with_tags(m, base, tags) == (Model { variants: with_tags(m, base, tags).variants, ..m }),
        m.variants.len() > 0 ==> with_tags(m, base, tags).variants.len() > 0,
{
}

/// Enriches the curated models of `base` with its tags.
pub fn apply_tags(models: &mut Vec<CatalogModel>, base: &str, tags: &Vec<String>)
    ensures
        final(models).deep_view() == old(models).deep_view().map_values(
            |m: Model| with_tags(m, base@, tags.deep_view()),
        ),
{
    let ghost start = models.deep_view();
    let n: usize = models.len();
    for i in 0..n
        invariant
            n == models@.len(),
            start.len() == n,
            forall|j: int|
                0 <= j < i ==> (#[trigger] models@[j])@ == with_tags(
                    start[j],
                    base@,
                    tags.deep_view(),
                ),
            forall|j: int| i <= j < n ==> (#[trigger] models@[j])@ == start[j],
    {
        let mut m = models[i].clone();
        if let Some((b, size)) = split_name(m.name.as_str()) {
            if same(b.as_str(), base) && m.variants.len() > 0 {
                let quant = m.variants[0].quant.clone();
                assert(m@.variants[0].quant == quant@);
                let chosen = select_variant_tags(tags.as_slice(), size.as_str(), quant.as_str());
                assert(Seq::new(tags@.len(), |i: int| tags@[i]@) =~= tags.deep_view());
                assert(Seq::new(chosen@.len(), |i: int| chosen@[i]@) =~= chosen.deep_view());
                enrich_with_tags(&mut m, chosen.as_slice());
            }
        }
        models.set(i, m);
    }
    assert(models.deep_view() =~= start.map_values(
        |m: Model| with_tags(m, base@, tags.deep_view()),
    ));
}

/// The positions of the models of `base`, in order.
pub open spec fn of_base(models: Seq<Model>, base: Seq<char>, i: int) -> bool {
    0 <= i < models.len() && match name_parts(models[i].name) {
        Some((b, _)) => b == base,
        None => false,
    }
}

/// The curated models while their pages are read.
pub ghost struct Enriching {
    pub models: Seq<Model>,
    /// Names of models that stay as the catalog has them.
    pub preserved: Seq<Seq<char>>,
    /// What went wrong so far.
    pub notes: Seq<Seq<char>>,
}

/// A message about one model.
pub open spec fn note_text(what: Seq<char>, name: Seq<char>, f: Failure) -> Seq<char> {
    what + name + ": "@ + failure_text(f)
}

/// After a look at whether the catalog holds model `i`.
pub open spec fn looked_up(
    s: Enriching,
    what: Seq<char>,
    held: Seq<Result<bool, Failure>>,
    i: int,
) -> Enriching {
    let name = s.models[i].name;
    match held[i] {
        Ok(true) => Enriching { preserved: s.preserved.push(name), ..s },
        Ok(false) => s,
        Err(e) => Enriching { notes: s.notes.push(note_text(what, name, e)), ..s },
    }
}

/// Model `i` is of this base; any model is if there is none.
pub open spec fn concerned(models: Seq<Model>, base: Option<Seq<char>>, i: int) -> bool {
    match base {
        Some(b) => of_base(models, b, i),
        None => true,
    }
}

/// After a look at whether the catalog holds the first `n` models, those of
/// one base only if there is one.
pub open spec fn looked_up_all(
    s: Enriching,
    what: Seq<char>,
    base: Option<Seq<char>>,
    held: Seq<Result<bool, Failure>>,
    n: int,
) -> Enriching
    decreases n,
{
    if n <= 0 {
        s
    } else {
        let before = looked_up_all(s, what, base, held, n - 1);
        if concerned(s.models, base, n - 1) {
            looked_up(before, what, held, n - 1)
        } else {
            before
        }
    }
}

/// After the tags of `base` were asked for. If they could not be read, the
/// models of the base that the catalog holds stay as they are there.
pub open spec fn after_base(
    s: Enriching,
    base: Seq<char>,
    tags: Result<Seq<Seq<char>>, Failure>,
    held: Seq<Result<bool, Failure>>,
) -> Enriching {
    match tags {
        Ok(t) => Enriching { models: s.models.map_values(|m: Model| with_tags(m, base, t)), ..s },
        Err(e) => looked_up_all(
            Enriching { notes: s.notes.push(note_text("ollama tags "@, base, e)), ..s },
            "ollama preserve "@,
            Some(base),
            held,
            s.models.len() as int,
        ),
    }
}

/// After the tags of all bases were asked for, one after the other.
pub open spec fn after_bases(
    s: Enriching,
    bases: Seq<Seq<char>>,
    tags: Seq<Result<Seq<Seq<char>>, Failure>>,
    held: Seq<Result<bool, Failure>>,
) -> Enriching
    decreases bases.len(),
{
    if bases.len() == 0 || tags.len() != bases.len() {
        s
    } else {
        after_base(
            after_bases(s, bases.drop_last(), tags.drop_last(), held),
            bases.last(),
            tags.last(),
            held,
        )
    }
}

/// What looks at the catalog came to.
pub open spec fn lookups(held: Seq<Result<bool, PaddockError>>) -> Seq<Result<bool, Failure>> {
    Seq::new(
        held.len(),
        |i: int|
            match held[i] {
                Ok(b) => Ok::<bool, Failure>(b),
                Err(e) => Err(e@),
            },
    )
}

pub open spec fn start_of(models: Seq<Model>) -> Enriching {
    Enriching { models, preserved: Seq::empty(), notes: Seq::empty() }
}

/// `out` may be what the curated models come to. Without the registry no
/// page is read, and all that the catalog holds stay as they are.
pub open spec fn gives_curated<H: HttpClient>(
    http: &H,
    models: Seq<Model>,
    held: Seq<Result<bool, Failure>>,
    registry: bool,
    out: Enriching,
) -> bool {
    if registry {
        enriches(http, models, distinct(tagged_bases(models)), held, out)
    } else {
        out == looked_up_all(
            start_of(models),
            "curated lookup "@,
            None,
            held,
            models.len() as int,
        )
    }
}

pub open spec fn enriches<H: HttpClient>(
    http: &H,
    models: Seq<Model>,
    bases: Seq<Seq<char>>,
    held: Seq<Result<bool, Failure>>,
    out: Enriching,
) -> bool {
    exists|tags: Seq<Result<Seq<Seq<char>>, Failure>>|
        {
            &&& tags.len() == bases.len()
            &&& forall|i: int|
                0 <= i < bases.len() ==> gives_tags(http, bases[i], #[trigger] tags[i])
            &&& out == #[trigger] after_bases(start_of(models), bases, tags, held)
        }
}

/// The curated models while a sync decides what to write.
#[derive(Debug)]
pub struct CuratedSync {
    pub models: Vec<CatalogModel>,
    /// Names of models that stay as the catalog has them.
    pub preserved: Vec<String>,
    /// What went wrong so far.
    pub notes: Vec<String>,
}

impl View for CuratedSync {
    type V = Enriching;

    open spec fn view(&self) -> Enriching {
        Enriching {
            models: self.models.deep_view(),
            preserved: self.preserved.deep_view(),
            notes: self.notes.deep_view(),
        }
    }
}

fn note(what: &str, name: &str, e: &PaddockError) -> (r: String)
    ensures
        r@ == note_text(what@, name@, e@),
{
    let mut s = what.to_owned();
    s.append(name);
    s.append(": ");
    s.append(e.message().as_str());
    s
}

impl CuratedSync {
    pub fn new(models: Vec<CatalogModel>) -> (r: CuratedSync)
        ensures
            r@ == start_of(models.deep_view()),
    {
        let r = CuratedSync { models, preserved: Vec::new(), notes: Vec::new() };
        assert(r.preserved.deep_view() =~= Seq::<Seq<char>>::empty());
        assert(r.notes.deep_view() =~= Seq::<Seq<char>>::empty());
        r
    }

    fn push_note(&mut self, s: String)
        ensures
            final(self)@ == (Enriching { notes: old(self)@.notes.push(s@), ..old(self)@ }),
            final(self).models == old(self).models,
    {
        let ghost line = s@;
        let ghost before = self.notes.deep_view();
        self.notes.push(s);
        assert(self.notes.deep_view() =~= before.push(line));
    }

    fn look_up(&mut self, what: &str, base: Option<&str>, held: &Vec<Result<bool, PaddockError>>)
        requires
            held@.len() == old(self).models@.len(),
        ensures
            final(self)@ == looked_up_all(
                old(self)@,
                what@,
                match base {
                    Some(b) => Some(b@),
                    None => None,
                },
                lookups(held@),
                old(self)@.models.len() as int,
            ),
            final(self).models == old(self).models,
    {
        let ghost start = self@;
        let ghost kept = self.models;
        let ghost only = match base {
            Some(b) => Some(b@),
            None => None,
        };
        let n: usize = self.models.len();
        for i in 0..n
            invariant
                n == self.models@.len(),
                self.models == kept,
                held@.len() == n,
                start.models == self@.models,
                only == match base {
                    Some(b) => Some(b@),
                    None => None,
                },
                self@ == looked_up_all(start, what@, only, lookups(held@), i as int),
        {
            assert(self@.models[i as int] == self.models@[i as int]@);
            let wanted = match base {
                Some(b) => match split_name(self.models[i].name.as_str()) {
                    Some((own, _)) => same(own.as_str(), b),
                    None => false,
                },
                None => true,
            };
            if wanted {
                match &held[i] {
                    Ok(found) => {
                        if *found {
                            let name = self.models[i].name.clone();
                            let ghost before = self.preserved.deep_view();
                            self.preserved.push(name);
                            assert(self.preserved.deep_view() =~= before.push(
                                self.models@[i as int]@.name,
                            ));
                        }
                    },
                    Err(e) => {
                        let s = note(what, self.models[i].name.as_str(), e);
                        self.push_note(s);
                    },
                }
            }
        }
    }

    fn read_base<H: HttpClient>(
        &mut self,
        http: &H,
        base: &str,
        held: &Vec<Result<bool, PaddockError>>,
    ) -> (tags: Ghost<Result<Seq<Seq<char>>, Failure>>)
        requires
            held@.len() == old(self).models@.len(),
        ensures
            gives_tags(http, base@, tags@),
            final(self)@ == after_base(old(self)@, base@, tags@, lookups(held@)),
            final(self).models@.len() == old(self).models@.len(),
    {
        let answer = fetch_model_tags(http, base);
        let ghost out = names_outcome(answer);
        match answer {
            Ok(tags) => {
                apply_tags(&mut self.models, base, &tags);
                assert(self.models.deep_view().len() == self.models@.len());
            },
            Err(e) => {
                self.push_note(note("ollama tags ", base, &e));
                self.look_up("ollama preserve ", Some(base), held);
            },
        }
        Ghost(out)
    }
}

/// Reads the library pages of the curated models, or none of them without the
/// registry. `held` tells of each model whether the catalog holds it.
pub fn enrich_curated<H: HttpClient>(
    http: &H,
    models: Vec<CatalogModel>,
    held: &Vec<Result<bool, PaddockError>>,
    registry: bool,
) -> (r: CuratedSync)
    requires
        held@.len() == models@.len(),
    ensures
        gives_curated(http, models.deep_view(), lookups(held@), registry, r@),
{
    let ghost all = models.deep_view();
    let bases = library_bases(&models);
    let mut s = CuratedSync::new(models);
    let ghost start = s@;
    if !registry {
        s.look_up("curated lookup ", None, held);
        return s;
    }
    let ghost names = bases.deep_view();
    let ghost mut answers: Seq<Result<Seq<Seq<char>>, Failure>> = Seq::empty();
    let n: usize = bases.len();
    assert(names.take(0) =~= Seq::<Seq<char>>::empty());
    for i in 0..n
        invariant
            n == bases@.len(),
            names == bases.deep_view(),
            held@.len() == s.models@.len(),
            answers.len() == i,
            forall|j: int| 0 <= j < i ==> gives_tags(http, names[j], #[trigger] answers[j]),
            s@ == after_bases(start, names.take(i as int), answers, lookups(held@)),
    {
        assert(names[i as int] == bases@[i as int]@);
        let tags = s.read_base(http, bases[i].as_str(), held);
        proof {
            let before = answers;
            answers = answers.push(tags@);
            assert(answers.drop_last() =~= before);
            assert(names.take(i as int + 1).drop_last() =~= names.take(i as int));
            assert(names.take(i as int + 1).last() == names[i as int]);
        }
    }
    assert(names.take(n as int) =~= names);
    assert(enriches(http, all, names, lookups(held@), s@));
    s
}

proof fn lemma_look_ups(
    s: Enriching,
    what: Seq<char>,
    base: Option<Seq<char>>,
    held: Seq<Result<bool, Failure>>,
    n: int,
    name: Seq<char>,
)
    requires
        0 <= n <= s.models.len(),
    ensures
        ({
            let r = looked_up_all(s, what, base, held, n);
            &&& r.models == s.models
            &&& r.preserved.contains(name) <==> s.preserved.contains(name) || exists|i: int|
                0 <= i < n && #[trigger] concerned(s.models, base, i) && held[i] == Ok::<
                    bool,
                    Failure,
                >(true) && s.models[i].name == name
        }),
    decreases n,
{
    if n > 0 {
        lemma_look_ups(s, what, base, held, n - 1, name);
        let before = looked_up_all(s, what, base, held, n - 1);
        let r = looked_up_all(s, what, base, held, n);
        assert(forall|p: Seq<Seq<char>>, x: Seq<char>| #[trigger]
            p.push(x).contains(name) <==> p.contains(name) || x == name) by {
            assert forall|p: Seq<Seq<char>>, x: Seq<char>| #[trigger]
                p.push(x).contains(name) <==> p.contains(name) || x == name by {
                if p.contains(name) {
                    let k = choose|k: int| 0 <= k < p.len() && p[k] == name;
                    assert(p.push(x)[k] == name);
                }
                if x == name {
                    assert(p.push(x)[p.len() as int] == name);
                }
                if p.push(x).contains(name) {
                    let k = choose|k: int| 0 <= k < p.push(x).len() && p.push(x)[k] == name;
                    if k < p.len() {
                        assert(p[k] == name);
                    }
                }
            }
        }
        if concerned(s.models, base, n - 1) && held[n - 1] == Ok::<bool, Failure>(true)
            && s.models[n - 1].name == name {
            assert(r.preserved.contains(name));
        }
        if r.preserved.contains(name) && !before.preserved.contains(name) {
            assert(concerned(s.models, base, n - 1) && held[n - 1] == Ok::<bool, Failure>(true)
                && s.models[n - 1].name == name);
        }
    }
}

/// The names of the models never change.
proof fn lemma_names_stay(
    s: Enriching,
    bases: Seq<Seq<char>>,
    tags: Seq<Result<Seq<Seq<char>>, Failure>>,
    held: Seq<Result<bool, Failure>>,
)
    requires
        tags.len() == bases.len(),
    ensures
        ({
            let r = after_bases(s, bases, tags, held);
            &&& r.models.len() == s.models.len()
            &&& forall|i: int|
                0 <= i < s.models.len() ==> (#[trigger] r.models[i]).name == s.models[i].name
        }),
    decreases bases.len(),
{
    if bases.len() > 0 {
        lemma_names_stay(s, bases.drop_last(), tags.drop_last(), held);
        let before = after_bases(s, bases.drop_last(), tags.drop_last(), held);
        match tags.last() {
            Ok(t) => {},
            Err(e) => {
                lemma_look_ups(
                    Enriching {
                        notes: before.notes.push(note_text("ollama tags "@, bases.last(), e)),
                        ..before
                    },
                    "ollama preserve "@,
                    Some(bases.last()),
                    held,
                    before.models.len() as int,
                    Seq::empty(),
                );
            },
        }
    }
}

/// A model that the catalog holds is not overwritten when the page of its
/// base could not be read: what an earlier sync has learnt of it survives.
pub proof fn unread_models_survive(
    models: Seq<Model>,
    bases: Seq<Seq<char>>,
    tags: Seq<Result<Seq<Seq<char>>, Failure>>,
    held: Seq<Result<bool, Failure>>,
    k: int,
    i: int,
)
    requires
        tags.len() == bases.len(),
        0 <= k < bases.len(),
        tags[k] is Err,
        of_base(models, bases[k], i),
        held[i] == Ok::<bool, Failure>(true),
    ensures
        after_bases(start_of(models), bases, tags, held).preserved.contains(models[i].name),
    decreases bases.len(),
{
    let s = start_of(models);
    let name = models[i].name;
    let before = after_bases(s, bases.drop_last(), tags.drop_last(), held);
    lemma_names_stay(s, bases.drop_last(), tags.drop_last(), held);
    if k < bases.len() - 1 {
        unread_models_survive(models, bases.drop_last(), tags.drop_last(), held, k, i);
    }
    match tags.last() {
        Ok(t) => {},
        Err(e) => {
            let noted = Enriching {
                notes: before.notes.push(note_text("ollama tags "@, bases.last(), e)),
                ..before
            };
            lemma_look_ups(
                noted,
                "ollama preserve "@,
                Some(bases.last()),
                held,
                before.models.len() as int,
                name,
            );
            if k == bases.len() - 1 {
                assert(noted.models[i].name == name);
                assert(concerned(noted.models, Some(bases.last()), i));
            }
        },
    }
}

/// Without a network, every curated model that the catalog does not hold is
/// written as it is.
pub proof fn offline_sync_fills_the_catalog(
    models: Seq<Model>,
    bases: Seq<Seq<char>>,
    tags: Seq<Result<Seq<Seq<char>>, Failure>>,
    held: Seq<Result<bool, Failure>>,
)
    requires
        tags.len() == bases.len(),
        forall|k: int| 0 <= k < tags.len() ==> (#[trigger] tags[k]) is Err,
    ensures
        after_bases(start_of(models), bases, tags, held).models == models,
        forall|name: Seq<char>|
            after_bases(start_of(models), bases, tags, held).preserved.contains(name) ==> exists|
                i: int,
            |
                0 <= i < models.len() && (#[trigger] models[i]).name == name && held[i] == Ok::<
                    bool,
                    Failure,
                >(true),
    decreases bases.len(),
{
    if bases.len() > 0 {
        offline_sync_fills_the_catalog(models, bases.drop_last(), tags.drop_last(), held);
        let before = after_bases(start_of(models), bases.drop_last(), tags.drop_last(), held);
        assert(tags.last() is Err);
        let e = tags.last()->Err_0;
        let noted = Enriching {
            notes: before.notes.push(note_text("ollama tags "@, bases.last(), e)),
            ..before
        };
        assert forall|name: Seq<char>|
            after_bases(start_of(models), bases, tags, held).preserved.contains(
                name,
            ) implies exists|i: int|
            0 <= i < models.len() && (#[trigger] models[i]).name == name && held[i] == Ok::<
                bool,
                Failure,
            >(true) by {
            lemma_look_ups(
                noted,
                "ollama preserve "@,
                Some(bases.last()),
                held,
                models.len() as int,
                name,
            );
        }
        lemma_look_ups(
            noted,
            "ollama preserve "@,
            Some(bases.last()),
            held,
            models.len() as int,
            Seq::empty(),
        );
    }
}

// ---------------------------------------------------------------------------
// Discovery
// ---------------------------------------------------------------------------

/// Some curated model has this base name.
pub open spec fn is_curated(models: Seq<Model>, base: Seq<char>) -> bool {
    exists|i: int| 0 <= i < models.len() && base_of((#[trigger] models[i]).name) == base
}

/// The names of the index that no curated model has, in order, `limit` at most.
pub open spec fn uncurated(index: Seq<Seq<char>>, models: Seq<Model>, limit: nat) -> Seq<Seq<char>>
    decreases index.len(),
{
    if index.len() == 0 {
        Seq::empty()
    } else {
        let before = uncurated(index.drop_last(), models, limit);
        if before.len() < limit && !is_curated(models, index.last()) {
            before.push(index.last())
        } else {
            before
        }
    }
}

/// Candidates are names of the index that no curated model has, in their order
/// and no more than the limit; only the limit leaves such a name out.
pub proof fn candidates_are_the_first_uncurated(
    index: Seq<Seq<char>>,
    models: Seq<Model>,
    limit: nat,
)
    ensures
        uncurated(index, models, limit).len() <= limit,
        forall|k: int|
            0 <= k < uncurated(index, models, limit).len() ==> index.contains(
                #[trigger] uncurated(index, models, limit)[k],
            ) && !is_curated(models, uncurated(index, models, limit)[k]),
        uncurated(index, models, limit).len() < limit ==> forall|i: int|
            0 <= i < index.len() && !is_curated(models, #[trigger] index[i]) ==> uncurated(
                index,
                models,
                limit,
            ).contains(index[i]),
    decreases index.len(),
{
    if index.len() > 0 {
        let t = index.drop_last();
        candidates_are_the_first_uncurated(t, models, limit);
        let (before, all) = (uncurated(t, models, limit), uncurated(index, models, limit));
        assert forall|k: int| 0 <= k < all.len() implies index.contains(#[trigger] all[k])
            && !is_curated(models, all[k]) by {
            if k < before.len() {
                assert(all[k] == before[k]);
                let i = choose|i: int| 0 <= i < t.len() && t[i] == before[k];
                assert(index[i] == t[i]);
            } else {
                assert(index[index.len() - 1] == all[k]);
            }
        }
        if all.len() < limit {
            assert forall|i: int|
                0 <= i < index.len() && !is_curated(models, #[trigger] index[i]) implies all.contains(
                index[i],
            ) by {
                if i < t.len() {
                    assert(t[i] == index[i]);
                    let k = choose|k: int| 0 <= k < before.len() && before[k] == t[i];
                    assert(all[k] == before[k]);
                } else {
                    assert(all[all.len() - 1] == index[i]);
                }
            }
        }
    }
}

fn has_base(models: &Vec<CatalogModel>, base: &str) -> (r: bool)
    ensures
        r == is_curated(models.deep_view(), base@),
{
    for i in 0..models.len()
        invariant
            forall|j: int| 0 <= j < i ==> base_of((#[trigger] models@[j])@.name) != base@,
    {
        let b = base_name_of(models[i].name.as_str());
        if same(b.as_str(), base) {
            assert(base_of(models.deep_view()[i as int].name) == base@);
            return true;
        }
    }
    assert forall|j: int| 0 <= j < models.deep_view().len() implies base_of(
        (#[trigger] models.deep_view()[j]).name,
    ) != base@ by {
        assert(base_of(models@[j]@.name) != base@);
    }
    false
}

/// The library models to discover: those of the index that are not curated,
/// in the order of the index, `limit` at most.
pub fn discovery_candidates(index: &Vec<String>, models: &Vec<CatalogModel>, limit: usize) -> (r:
    Vec<String>)
    ensures
        r.deep_view() == uncurated(index.deep_view(), models.deep_view(), limit as nat),
        r@.len() <= limit,
{
    let ghost all = index.deep_view();
    let mut out: Vec<String> = Vec::new();
    assert(out.deep_view() =~= Seq::<Seq<char>>::empty());
    for i in 0..index.len()
        invariant
            all == index.deep_view(),
            out@.len() <= limit,
            out.deep_view() == uncurated(all.take(i as int), models.deep_view(), limit as nat),
    {
        assert(all.take(i as int + 1).drop_last() =~= all.take(i as int));
        assert(all.take(i as int + 1).last() == index@[i as int]@);
        assert(out.deep_view().len() == out@.len());
        if out.len() < limit && !has_base(models, index[i].as_str()) {
            let ghost before = out.deep_view();
            out.push(index[i].clone());
            assert(out.deep_view() =~= before.push(index@[i as int]@));
        }
    }
    assert(all.take(all.len() as int) =~= all);
    out
}

/// No curated model is discovered again.
pub proof fn curated_models_are_not_discovered(
    index: Seq<Seq<char>>,
    models: Seq<Model>,
    limit: nat,
    name: Seq<char>,
)
    requires
        uncurated(index, models, limit).contains(name),
    ensures
        !is_curated(models, name),
        index.contains(name),
    decreases index.len(),
{
    if index.len() > 0 {
        let t = index.drop_last();
        let before = uncurated(t, models, limit);
        let all = uncurated(index, models, limit);
        let k = choose|k: int| 0 <= k < all.len() && all[k] == name;
        if k < before.len() {
            assert(before[k] == name);
            curated_models_are_not_discovered(t, models, limit, name);
            let i = choose|i: int| 0 <= i < t.len() && t[i] == name;
            assert(index[i] == name);
        } else {
            assert(index[index.len() - 1] == name);
        }
    }
}

// ---------------------------------------------------------------------------
// Report
// ---------------------------------------------------------------------------

/// What a sync did.
#[derive(Debug)]
pub struct SyncReport {
    pub curated: usize,
    /// Curated variants with an exact library tag.
    pub ollama_tags: usize,
    /// Library models discovered beyond the curated ones.
    pub discovered: usize,
    pub huggingface: usize,
    pub mlx: usize,
    pub errors: Vec<String>,
}

/// `SyncReport` without its storage.
pub ghost struct Report {
    pub curated: nat,
    pub ollama_tags: nat,
    pub discovered: nat,
    pub huggingface: nat,
    pub mlx: nat,
    pub errors: Seq<Seq<char>>,
}

impl View for SyncReport {
    type V = Report;

    open spec fn view(&self) -> Report {
        Report {
            curated: self.curated as nat,
            ollama_tags: self.ollama_tags as nat,
            discovered: self.discovered as nat,
            huggingface: self.huggingface as nat,
            mlx: self.mlx as nat,
            errors: self.errors.deep_view(),
        }
    }
}

/// The report of nothing done.
pub open spec fn no_report() -> Report {
    Report {
        curated: 0,
        ollama_tags: 0,
        discovered: 0,
        huggingface: 0,
        mlx: 0,
        errors: Seq::empty(),
    }
}

impl Default for SyncReport {
    fn default() -> (r: SyncReport)
        ensures
            r@ == no_report(),
    {
        let errors: Vec<String> = Vec::new();
        assert(errors.deep_view() =~= Seq::<Seq<char>>::empty());
        SyncReport { curated: 0, ollama_tags: 0, discovered: 0, huggingface: 0, mlx: 0, errors }
    }
}

/// How many variants have an exact library tag.
pub open spec fn tagged_count(m: Model, n: int) -> nat
    decreases n,
{
    if n <= 0 {
        0
    } else {
        tagged_count(m, n - 1) + if m.variants[n - 1].source_tag is Some {
            1nat
        } else {
            0
        }
    }
}

fn count_tagged(m: &CatalogModel) -> (r: usize)
    ensures
        r == tagged_count(m@, m@.variants.len() as int),
        r <= m.variants@.len(),
{
    let mut n: usize = 0;
    for i in 0..m.variants.len()
        invariant
            n <= i,
            n == tagged_count(m@, i as int),
    {
        assert(m@.variants[i as int] == m.variants@[i as int]@);
        if m.variants[i].source_tag.is_some() {
            n = n + 1;
        }
    }
    n
}

/// Where a model that is not curated comes from.
#[derive(Debug, Clone, Copy, PartialEq, Eq, Structural)]
pub enum Origin {
    Discovered,
    HuggingFace,
    Mlx,
}

/// One thing that a sync has to do with the catalog.
#[derive(Debug)]
pub enum SyncTask {
    /// Report a failure.
    Note(String),
    /// A curated model stays as the catalog has it.
    Keep,
    WriteCurated(CatalogModel),
    Write(Origin, CatalogModel),
}

/// `SyncTask` without its storage.
pub ghost enum Task {
    Note(Seq<char>),
    Keep,
    WriteCurated(Model),
    Write(Origin, Model),
}

impl View for SyncTask {
    type V = Task;

    open spec fn view(&self) -> Task {
        match *self {
            SyncTask::Note(s) => Task::Note(s@),
            SyncTask::Keep => Task::Keep,
            SyncTask::WriteCurated(m) => Task::WriteCurated(m@),
            SyncTask::Write(o, m) => Task::Write(o, m@),
        }
    }
}

impl DeepView for SyncTask {
    type V = Task;

    open spec fn deep_view(&self) -> Task {
        self@
    }
}

/// The curated models that stay, and those that are written.
pub open spec fn curated_writes(s: Enriching) -> Seq<Task> {
    s.models.map_values(
        |m: Model|
            if s.preserved.contains(m.name) {
                Task::Keep
            } else {
                Task::WriteCurated(m)
            },
    )
}

/// What the curated models come to.
pub open spec fn curated_tasks(s: Enriching) -> Seq<Task> {
    s.notes.map_values(|n: Seq<char>| Task::Note(n)) + curated_writes(s)
}

/// What the discovery of one model comes to.
pub open spec fn discovery_task(name: Seq<char>, out: Result<Option<Model>, Failure>) -> Option<
    Task,
> {
    match out {
        Ok(Some(m)) => Some(Task::Write(Origin::Discovered, m)),
        Ok(None) => None,
        Err(e) => Some(Task::Note(note_text("discover "@, name, e))),
    }
}

/// What the discovery of models comes to.
pub open spec fn discovery_tasks(
    names: Seq<Seq<char>>,
    outs: Seq<Result<Option<Model>, Failure>>,
) -> Seq<Task>
    decreases names.len(),
{
    if names.len() == 0 || outs.len() != names.len() {
        Seq::empty()
    } else {
        let before = discovery_tasks(names.drop_last(), outs.drop_last());
        match discovery_task(names.last(), outs.last()) {
            Some(t) => before.push(t),
            None => before,
        }
    }
}

pub open spec fn discovers<H: HttpClient>(
    http: &H,
    names: Seq<Seq<char>>,
    now: i64,
    out: Seq<Task>,
) -> bool {
    exists|found: Seq<Result<Option<Model>, Failure>>|
        {
            &&& found.len() == names.len()
            &&& forall|i: int|
                0 <= i < names.len() ==> gives_model(http, names[i], now, #[trigger] found[i])
            &&& out == #[trigger] discovery_tasks(names, found)
        }
}

/// `out` may be what discovery comes to, given the answer for the index.
pub open spec fn discovers_in<H: HttpClient>(
    http: &H,
    models: Seq<Model>,
    limit: nat,
    now: i64,
    index: Result<Seq<Seq<char>>, Failure>,
    out: Seq<Task>,
) -> bool {
    match index {
        Err(e) => out == seq![Task::Note("ollama discovery index: "@ + failure_text(e))],
        Ok(names) => discovers(http, uncurated(names, models, limit), now, out),
    }
}

/// `out` may be what discovery comes to. Without a limit there is none.
pub open spec fn gives_discovered<H: HttpClient>(
    http: &H,
    models: Seq<Model>,
    limit: Option<usize>,
    now: i64,
    out: Seq<Task>,
) -> bool {
    match limit {
        None => out == Seq::<Task>::empty(),
        Some(limit) => gives_discovered_within(http, models, limit as nat, now, out),
    }
}

pub open spec fn gives_discovered_within<H: HttpClient>(
    http: &H,
    models: Seq<Model>,
    limit: nat,
    now: i64,
    out: Seq<Task>,
) -> bool {
    exists|index: Result<Seq<Seq<char>>, Failure>| #[trigger]
        gives_index(http, 20, index) && discovers_in(http, models, limit, now, index, out)
}

/// What the models of a source come to.
pub open spec fn source_tasks(
    origin: Origin,
    what: Seq<char>,
    r: Result<Seq<Model>, Failure>,
) -> Seq<Task> {
    match r {
        Ok(models) => models.map_values(|m: Model| Task::Write(origin, m)),
        Err(e) => seq![Task::Note(what + failure_text(e))],
    }
}

/// `out` may be what a sync comes to: the curated models, those discovered,
/// and those of the two sources, in this order. No source depends on another.
pub open spec fn gives_sync<H: HttpClient>(
    http: &H,
    models: Seq<Model>,
    held: Seq<Result<bool, Failure>>,
    registry: bool,
    discover_limit: Option<usize>,
    hf_limit: nat,
    mlx_limit: nat,
    now: i64,
    out: Seq<Task>,
) -> bool {
    exists|
        c: Enriching,
        d: Seq<Task>,
        h: Result<Seq<Model>, Failure>,
        m: Result<Seq<Model>, Failure>,
    |
        {
            &&& #[trigger] gives_curated(http, models, held, registry, c)
            &&& #[trigger] gives_discovered(http, c.models, discover_limit, now, d)
            &&& #[trigger] gives_gguf_models(http, hf_limit, h)
            &&& #[trigger] gives_mlx_models(http, mlx_limit, m)
            &&& out == curated_tasks(c) + d + source_tasks(
                Origin::HuggingFace,
                "huggingface: "@,
                h,
            ) + source_tasks(Origin::Mlx, "mlx: "@, m)
        }
}

fn push_curated(tasks: &mut Vec<SyncTask>, s: CuratedSync)
    requires
        old(tasks)@.len() == 0,
    ensures
        final(tasks).deep_view() == curated_tasks(s@),
{
    let n: usize = s.notes.len();
    for i in 0..n
        invariant
            n == s.notes@.len(),
            tasks@.len() == i,
            forall|j: int|
                0 <= j < i ==> (#[trigger] tasks@[j])@ == Task::Note(s.notes@[j]@),
    {
        tasks.push(SyncTask::Note(s.notes[i].clone()));
    }
    let count: usize = s.models.len();
    for i in 0..count
        invariant
            n == s.notes@.len(),
            count == s.models@.len(),
            tasks@.len() == n + i,
            forall|j: int|
                0 <= j < n ==> (#[trigger] tasks@[j])@ == Task::Note(s.notes@[j]@),
            forall|j: int|
                0 <= j < i ==> (#[trigger] tasks@[n + j])@ == if s@.preserved.contains(
                    s.models@[j]@.name,
                ) {
                    Task::Keep
                } else {
                    Task::WriteCurated(s.models@[j]@)
                },
    {
        let ghost before = tasks@;
        if is_listed(&s.preserved, s.models[i].name.as_str()) {
            tasks.push(SyncTask::Keep);
        } else {
            tasks.push(SyncTask::WriteCurated(s.models[i].clone()));
        }
        assert forall|j: int| 0 <= j < i implies tasks@[n + j] == #[trigger] before[n + j] by {}
    }
    proof {
        let want = curated_tasks(s@);
        assert forall|k: int| 0 <= k < tasks@.len() implies (#[trigger] tasks@[k])@ == want[k] by {
            if k >= n {
                let j = k - n;
                assert(tasks@[n + j]@ == tasks@[k]@);
            }
        }
        assert(tasks.deep_view() =~= want);
    }
}

fn push_task(tasks: &mut Vec<SyncTask>, t: SyncTask)
    ensures
        final(tasks).deep_view() == old(tasks).deep_view().push(t@),
{
    let ghost before = tasks.deep_view();
    let ghost w = t@;
    tasks.push(t);
    assert(tasks.deep_view() =~= before.push(w));
}

fn push_source(
    tasks: &mut Vec<SyncTask>,
    origin: Origin,
    what: &str,
    r: Result<Vec<CatalogModel>, PaddockError>,
)
    ensures
        final(tasks).deep_view() == old(tasks).deep_view() + source_tasks(
            origin,
            what@,
            models_outcome(r),
        ),
{
    let ghost start = tasks.deep_view();
    match r {
        Ok(models) => {
            let ghost all = models.deep_view();
            let n: usize = models.len();
            let ghost want = all.map_values(|m: Model| Task::Write(origin, m));
            assert(start + want.take(0) =~= start);
            for i in 0..n
                invariant
                    n == models@.len(),
                    all == models.deep_view(),
                    want == all.map_values(|m: Model| Task::Write(origin, m)),
                    tasks.deep_view() == start + want.take(i as int),
            {
                assert(want.take(i as int + 1) =~= want.take(i as int).push(
                    Task::Write(origin, models@[i as int]@),
                ));
                push_task(tasks, SyncTask::Write(origin, models[i].clone()));
                assert(tasks.deep_view() =~= start + want.take(i as int + 1));
            }
            assert(want.take(n as int) =~= want);
        },
        Err(e) => {
            let mut s = what.to_owned();
            s.append(e.message().as_str());
            push_task(tasks, SyncTask::Note(s));
            assert(tasks.deep_view() =~= start + source_tasks(origin, what@, Err(e@)));
        },
    }
}

fn push_discovered<H: HttpClient>(
    tasks: &mut Vec<SyncTask>,
    http: &H,
    models: &Vec<CatalogModel>,
    limit: usize,
    now: i64,
) -> (d: Ghost<Seq<Task>>)
    ensures
        gives_discovered_within(http, models.deep_view(), limit as nat, now, d@),
        final(tasks).deep_view() == old(tasks).deep_view() + d@,
{
    let ghost start = tasks.deep_view();
    let answer = fetch_library_index(http, 20);
    let ghost index = names_outcome(answer);
    assert(gives_index(http, 20, index));
    let list = match answer {
        Ok(list) => list,
        Err(e) => {
            let mut s = "ollama discovery index: ".to_owned();
            s.append(e.message().as_str());
            let ghost d = seq![Task::Note(s@)];
            push_task(tasks, SyncTask::Note(s));
            assert(tasks.deep_view() =~= start + d);
            assert(discovers_in(http, models.deep_view(), limit as nat, now, index, d));
            return Ghost(d);
        },
    };
    let chosen = discovery_candidates(&list, models, limit);
    let ghost names = chosen.deep_view();
    let ghost mut found: Seq<Result<Option<Model>, Failure>> = Seq::empty();
    let n: usize = chosen.len();
    assert(start + discovery_tasks(names.take(0), found) =~= start);
    for i in 0..n
        invariant
            n == chosen@.len(),
                names == chosen.deep_view(),
            found.len() == i,
            forall|j: int| 0 <= j < i ==> gives_model(http, names[j], now, #[trigger] found[j]),
            tasks.deep_view() == start + discovery_tasks(names.take(i as int), found),
    {
        assert(names[i as int] == chosen@[i as int]@);
        let ghost had = discovery_tasks(names.take(i as int), found);
        let r = discover_model(http, chosen[i].as_str(), now);
        proof {
            let before = found;
            found = found.push(model_outcome(r));
            assert(found.drop_last() =~= before);
            assert(names.take(i as int + 1).drop_last() =~= names.take(i as int));
            assert(names.take(i as int + 1).last() == names[i as int]);
        }
        match r {
            Ok(Some(m)) => {
                let ghost t = Task::Write(Origin::Discovered, m@);
                push_task(tasks, SyncTask::Write(Origin::Discovered, m));
                assert((start + had).push(t) =~= start + had.push(t));
            },
            Ok(None) => {},
            Err(e) => {
                let s = note("discover ", chosen[i].as_str(), &e);
                let ghost t = Task::Note(s@);
                push_task(tasks, SyncTask::Note(s));
                assert((start + had).push(t) =~= start + had.push(t));
            },
        }
    }
    assert(names.take(n as int) =~= names);
    let ghost d = discovery_tasks(names, found);
    assert(discovers(http, names, now, d));
    assert(discovers_in(http, models.deep_view(), limit as nat, now, index, d));
    Ghost(d)
}

/// What a sync has to do with the catalog, in order. `held` tells of each
/// curated model whether the catalog holds it.
pub fn sync<H: HttpClient>(
    http: &H,
    curated: Vec<CatalogModel>,
    held: &Vec<Result<bool, PaddockError>>,
    opts: &SyncOptions,
    now: i64,
) -> (r: Vec<SyncTask>)
    requires
        held@.len() == curated@.len(),
    ensures
        gives_sync(
            http,
            curated.deep_view(),
            lookups(held@),
            opts.ollama_registry,
            opts.discover_limit,
            opts.hf_limit as nat,
            opts.mlx_limit as nat,
            now,
            r.deep_view(),
        ),
{
    let ghost all = curated.deep_view();
    let s = enrich_curated(http, curated, held, opts.ollama_registry);
    let ghost c = s@;
    let models = clone_models(&s.models);
    let mut tasks: Vec<SyncTask> = Vec::new();
    push_curated(&mut tasks, s);
    let ghost mut d: Seq<Task> = Seq::empty();
    assert(tasks.deep_view() + d =~= tasks.deep_view());
    if let Some(limit) = opts.discover_limit {
        let more = push_discovered(&mut tasks, http, &models, limit, now);
        proof {
            d = more@;
        }
    }
    assert(gives_discovered(http, c.models, opts.discover_limit, now, d));
    let gguf = fetch_hf_gguf(http, opts.hf_limit);
    let ghost h = models_outcome(gguf);
    assert(gives_gguf_models(http, opts.hf_limit as nat, h));
    push_source(&mut tasks, Origin::HuggingFace, "huggingface: ", gguf);
    let mlx = fetch_mlx(http, opts.mlx_limit);
    let ghost m = models_outcome(mlx);
    assert(gives_mlx_models(http, opts.mlx_limit as nat, m));
    push_source(&mut tasks, Origin::Mlx, "mlx: ", mlx);
    tasks
}

fn clone_models(v: &Vec<CatalogModel>) -> (r: Vec<CatalogModel>)
    ensures
        r.deep_view() == v.deep_view(),
{
    let mut r: Vec<CatalogModel> = Vec::new();
    let n: usize = v.len();
    for i in 0..n
        invariant
            n == v@.len(),
            r@.len() == i,
            forall|j: int| 0 <= j < i ==> (#[trigger] r@[j])@ == v@[j]@,
    {
        r.push(v[i].clone());
    }
    assert(r.deep_view() =~= v.deep_view());
    r
}

/// The label of a source in messages.
pub open spec fn origin_label(o: Origin) -> Seq<char> {
    match o {
        Origin::Discovered => "discover upsert "@,
        Origin::HuggingFace => "huggingface upsert "@,
        Origin::Mlx => "mlx upsert "@,
    }
}

/// The report once a task is done; `failure` tells why the catalog could not
/// be written, if so.
pub open spec fn reported(r: Report, t: Task, failure: Option<Failure>) -> Report {
    match t {
        Task::Note(s) => Report { errors: r.errors.push(s), ..r },
        Task::Keep => Report { curated: r.curated + 1, ..r },
        Task::WriteCurated(m) => match failure {
            Some(f) => Report {
                errors: r.errors.push(note_text("curated upsert "@, m.name, f)),
                ..r
            },
            None => Report {
                curated: r.curated + 1,
                ollama_tags: r.ollama_tags + tagged_count(m, m.variants.len() as int),
                ..r
            },
        },
        Task::Write(o, m) => match failure {
            Some(f) => Report {
                errors: r.errors.push(note_text(origin_label(o), m.name, f)),
                ..r
            },
            None => match o {
                Origin::Discovered => Report { discovered: r.discovered + 1, ..r },
                Origin::HuggingFace => Report { huggingface: r.huggingface + 1, ..r },
                Origin::Mlx => Report { mlx: r.mlx + 1, ..r },
            },
        },
    }
}

impl SyncReport {
    fn push_error(&mut self, s: String)
        ensures
            final(self)@ == (Report { errors: old(self)@.errors.push(s@), ..old(self)@ }),
    {
        let ghost line = s@;
        let ghost before = self.errors.deep_view();
        self.errors.push(s);
        assert(self.errors.deep_view() =~= before.push(line));
    }

    /// Notes that a task is done, or why it failed. No failure ends a sync.
    pub fn done(&mut self, t: &SyncTask, failure: Option<&PaddockError>)
        requires
            old(self).curated < usize::MAX,
            old(self).discovered < usize::MAX,
            old(self).huggingface < usize::MAX,
            old(self).mlx < usize::MAX,
            t matches SyncTask::WriteCurated(m) ==> old(self).ollama_tags + m.variants@.len()
                <= usize::MAX,
        ensures
            final(self)@ == reported(
                old(self)@,
                t@,
                match failure {
                    Some(e) => Some(e@),
                    None => None,
                },
            ),
    {
        match t {
            SyncTask::Note(s) => self.push_error(s.clone()),
            SyncTask::Keep => {
                self.curated = self.curated + 1;
            },
            SyncTask::WriteCurated(m) => match failure {
                Some(e) => self.push_error(note("curated upsert ", m.name.as_str(), e)),
                None => {
                    let n: usize = count_tagged(m);
                    self.curated = self.curated + 1;
                    self.ollama_tags = self.ollama_tags + n;
                },
            },
            SyncTask::Write(o, m) => match failure {
                Some(e) => {
                    let what = match o {
                        Origin::Discovered => "discover upsert ",
                        Origin::HuggingFace => "huggingface upsert ",
                        Origin::Mlx => "mlx upsert ",
                    };
                    self.push_error(note(what, m.name.as_str(), e));
                },
                None => match o {
                    Origin::Discovered => {
                        self.discovered = self.discovered + 1;
                    },
                    Origin::HuggingFace => {
                        self.huggingface = self.huggingface + 1;
                    },
                    Origin::Mlx => {
                        self.mlx = self.mlx + 1;
                    },
                },
            },
        }
    }

    /// The line that tells what was synced.
    pub fn summary(&self) -> (r: String)
        ensures
            r@ == "synced: "@ + digits(self@.curated) + " curated ("@ + digits(self@.ollama_tags)
                + " ollama tags), "@ + digits(self@.discovered) + " discovered, "@ + digits(
                self@.huggingface,
            ) + " huggingface, "@ + digits(self@.mlx) + " mlx"@,
    {
        let mut s = "synced: ".to_owned();
        push_decimal(&mut s, self.curated as u128);
        s.append(" curated (");
        push_decimal(&mut s, self.ollama_tags as u128);
        s.append(" ollama tags), ");
        push_decimal(&mut s, self.discovered as u128);
        s.append(" discovered, ");
        push_decimal(&mut s, self.huggingface as u128);
        s.append(" huggingface, ");
        push_decimal(&mut s, self.mlx as u128);
        s.append(" mlx");
        s
    }
}

// ---------------------------------------------------------------------------
// What a sync leaves alone, and what it tells
// ---------------------------------------------------------------------------

/// The report once all tasks are done; `failures` tells of each why the
/// catalog could not be written, if so.
pub open spec fn report_of(tasks: Seq<Task>, failures: Seq<Option<Failure>>) -> Report
    decreases tasks.len(),
{
    if tasks.len() == 0 || failures.len() != tasks.len() {
        no_report()
    } else {
        reported(
            report_of(tasks.drop_last(), failures.drop_last()),
            tasks.last(),
            failures.last(),
        )
    }
}

/// Of a task that was done, the count of its kind rises by one and nothing else
/// does but the tags of a curated model; of one that failed, and of a note, one
/// line is added.
pub proof fn each_task_counts_once(r: Report, t: Task, failure: Option<Failure>)
    ensures
        ({
            let s = reported(r, t, failure);
            &&& t is Note || (failure is Some && !(t is Keep)) ==> s == (Report {
                errors: s.errors,
                ..r
            }) && s.errors.len() == r.errors.len() + 1 && r.errors.is_prefix_of(s.errors)
            &&& t is Keep || (t is WriteCurated && failure is None) ==> s.curated == r.curated + 1
                && s == (Report { curated: s.curated, ollama_tags: s.ollama_tags, ..r })
            &&& t is Keep ==> s.ollama_tags == r.ollama_tags
            &&& t matches Task::Write(Origin::Discovered, _) ==> failure is None ==> s == (Report {
                discovered: r.discovered + 1,
                ..r
            })
            &&& t matches Task::Write(Origin::HuggingFace, _) ==> failure is None ==> s == (Report {
                huggingface: r.huggingface + 1,
                ..r
            })
            &&& t matches Task::Write(Origin::Mlx, _) ==> failure is None ==> s == (Report {
                mlx: r.mlx + 1,
                ..r
            })
        }),
{
}

/// Every task of a sync is counted or noted, and none twice.
pub proof fn every_task_is_reported(tasks: Seq<Task>, failures: Seq<Option<Failure>>)
    requires
        failures.len() == tasks.len(),
    ensures
        ({
            let r = report_of(tasks, failures);
            r.curated + r.discovered + r.huggingface + r.mlx + r.errors.len() == tasks.len()
        }),
    decreases tasks.len(),
{
    if tasks.len() > 0 {
        every_task_is_reported(tasks.drop_last(), failures.drop_last());
        each_task_counts_once(
            report_of(tasks.drop_last(), failures.drop_last()),
            tasks.last(),
            failures.last(),
        );
    }
}

/// No more tags are counted than a model has variants, and as many where all
/// its variants have tags.
pub proof fn tags_are_counted(m: Model, n: int)
    requires
        0 <= n <= m.variants.len(),
    ensures
        tagged_count(m, n) <= n,
        (forall|i: int| 0 <= i < n ==> (#[trigger] m.variants[i]).source_tag is Some)
            <==> tagged_count(m, n) == n,
        (forall|i: int| 0 <= i < n ==> (#[trigger] m.variants[i]).source_tag is None)
            <==> tagged_count(m, n) == 0,
    decreases n,
{
    if n > 0 {
        tags_are_counted(m, n - 1);
        assert(m.variants[n - 1] == m.variants[n - 1]);
    }
}

/// How many curated models could not be written.
pub open spec fn failed_writes(tasks: Seq<Task>, failures: Seq<Option<Failure>>) -> nat
    decreases tasks.len(),
{
    if tasks.len() == 0 || failures.len() != tasks.len() {
        0
    } else {
        failed_writes(tasks.drop_last(), failures.drop_last()) + if tasks.last() is WriteCurated
            && failures.last() is Some {
            1nat
        } else {
            0
        }
    }
}

/// How many tasks are about a curated model.
pub open spec fn about_curated(tasks: Seq<Task>) -> nat
    decreases tasks.len(),
{
    if tasks.len() == 0 {
        0
    } else {
        about_curated(tasks.drop_last()) + if tasks.last() is Keep || tasks.last() is WriteCurated {
            1nat
        } else {
            0
        }
    }
}

proof fn lemma_about_curated(a: Seq<Task>, b: Seq<Task>)
    ensures
        about_curated(a + b) == about_curated(a) + about_curated(b),
    decreases b.len(),
{
    if b.len() == 0 {
        assert(a + b =~= a);
    } else {
        lemma_about_curated(a, b.drop_last());
        assert((a + b).drop_last() =~= a + b.drop_last());
    }
}

proof fn lemma_all_about_curated(t: Seq<Task>)
    ensures
        (forall|k: int| 0 <= k < t.len() ==> (#[trigger] t[k]) is Keep || t[k] is WriteCurated)
            ==> about_curated(t) == t.len(),
        (forall|k: int| 0 <= k < t.len() ==> (#[trigger] t[k]) is Note || t[k] is Write)
            ==> about_curated(t) == 0,
    decreases t.len(),
{
    if t.len() > 0 {
        lemma_all_about_curated(t.drop_last());
        assert forall|k: int| 0 <= k < t.len() - 1 implies #[trigger] t.drop_last()[k] == t[k] by {}
        assert(t.last() == t[t.len() - 1]);
    }
}

proof fn lemma_discovery_tasks(
    names: Seq<Seq<char>>,
    outs: Seq<Result<Option<Model>, Failure>>,
    k: int,
)
    requires
        outs.len() == names.len(),
        0 <= k < discovery_tasks(names, outs).len(),
    ensures
        ({
            let t = discovery_tasks(names, outs)[k];
            ||| t is Note
            ||| exists|j: int|
                0 <= j < names.len() && t is Write && #[trigger] outs[j] == Ok::<
                    Option<Model>,
                    Failure,
                >(Some(t->Write_1))
        }),
    decreases names.len(),
{
    if names.len() > 0 {
        let before = discovery_tasks(names.drop_last(), outs.drop_last());
        let t = discovery_tasks(names, outs)[k];
        if k < before.len() {
            assert(before[k] == t);
            lemma_discovery_tasks(names.drop_last(), outs.drop_last(), k);
            if !(t is Note) {
                let j = choose|j: int|
                    0 <= j < names.len() - 1 && t is Write && #[trigger] outs.drop_last()[j]
                        == Ok::<Option<Model>, Failure>(Some(t->Write_1));
                assert(outs[j] == Ok::<Option<Model>, Failure>(Some(t->Write_1)));
            }
        } else if !(t is Note) {
            assert(outs[names.len() - 1] == Ok::<Option<Model>, Failure>(Some(t->Write_1)));
        }
    }
}

/// What discovery comes to: messages, and models whose base no curated model
/// has.
proof fn lemma_discovered<H: HttpClient>(
    http: &H,
    models: Seq<Model>,
    limit: Option<usize>,
    now: i64,
    d: Seq<Task>,
    k: int,
)
    requires
        gives_discovered(http, models, limit, now, d),
        0 <= k < d.len(),
    ensures
        d[k] is Note || (d[k] is Write && !is_curated(models, base_of(d[k]->Write_1.name))),
{
    let index = choose|index: Result<Seq<Seq<char>>, Failure>| #[trigger]
        gives_index(http, 20, index) && discovers_in(
            http,
            models,
            limit->Some_0 as nat,
            now,
            index,
            d,
        );
    if let Ok(listed) = index {
        let names = uncurated(listed, models, limit->Some_0 as nat);
        let found = choose|found: Seq<Result<Option<Model>, Failure>>|
            {
                &&& found.len() == names.len()
                &&& forall|i: int|
                    0 <= i < names.len() ==> gives_model(http, names[i], now, #[trigger] found[i])
                &&& d == #[trigger] discovery_tasks(names, found)
            };
        lemma_discovery_tasks(names, found, k);
        if !(d[k] is Note) {
            let m = d[k]->Write_1;
            let j = choose|j: int|
                0 <= j < names.len() && d[k] is Write && #[trigger] found[j] == Ok::<
                    Option<Model>,
                    Failure,
                >(Some(m));
            assert(gives_model(http, names[j], now, found[j]));
            discovered_models_keep_the_name(http, names[j], now, found[j]);
            assert(names.contains(names[j]));
            curated_models_are_not_discovered(
                listed,
                models,
                limit->Some_0 as nat,
                names[j],
            );
            let (popular, newest) = choose|
                popular: Result<Seq<char>, Failure>,
                newest: Result<Seq<char>, Failure>,
            |
                {
                    &&& #[trigger] http.gives_text("https://ollama.com/library"@, popular)
                    &&& popular is Ok ==> http.gives_text(
                        "https://ollama.com/library?sort=newest"@,
                        newest,
                    )
                    &&& index == #[trigger] index_on(popular, newest, 20)
                };
            listed_names_are_plain(popular, newest, 20, names[j]);
            let size = choose|size: Seq<char>| m.name == #[trigger] (names[j] + ":"@ + size);
            lemma_base_of(names[j], size);
        }
    }
}

proof fn lemma_base_of(name: Seq<char>, size: Seq<char>)
    requires
        is_plain_name(name),
    ensures
        base_of(name + ":"@ + size) == name,
{
    reveal_strlit(":");
    let s = name + ":"@ + size;
    s.index_of_first_ensures(':');
    assert(s[name.len() as int] == ':');
    let i = s.index_of_first(':')->Some_0;
    if i < name.len() {
        assert(is_name_char(name[i]));
    }
    assert(i == name.len());
    assert(s.take(i) =~= name);
}

/// The library page of a model's base cannot be read.
pub open spec fn page_fails<H: HttpClient>(http: &H, name: Seq<char>) -> bool {
    match name_parts(name) {
        Some((base, _)) => forall|page: Result<Seq<char>, Failure>| #[trigger]
            http.gives_text(tags_url_of(base), page) ==> page is Err,
        None => false,
    }
}

/// A task that changes what the catalog holds of a library model.
pub open spec fn changes(t: Task, name: Seq<char>) -> bool {
    match t {
        Task::Note(_) => false,
        Task::Keep => false,
        Task::WriteCurated(m) => m.name == name,
        Task::Write(_, m) => m.source == Source::Ollama && m.name == name,
    }
}

proof fn lemma_bases(models: Seq<Model>, i: int)
    requires
        0 <= i < models.len(),
        name_parts(models[i].name) is Some,
    ensures
        tagged_bases(models).contains(name_parts(models[i].name)->Some_0.0),
    decreases models.len(),
{
    let base = name_parts(models[i].name)->Some_0.0;
    let t = models.drop_last();
    let before = tagged_bases(t);
    let all = tagged_bases(models);
    if i < t.len() {
        assert(t[i] == models[i]);
        lemma_bases(t, i);
        let k = choose|k: int| 0 <= k < before.len() && before[k] == base;
        assert(all[k] == base);
    } else {
        assert(all[before.len() as int] == base);
    }
}

/// The message about a page that could not be read stays among the messages.
proof fn lemma_notes_stay(
    s: Enriching,
    bases: Seq<Seq<char>>,
    tags: Seq<Result<Seq<Seq<char>>, Failure>>,
    held: Seq<Result<bool, Failure>>,
    k: int,
)
    requires
        tags.len() == bases.len(),
        0 <= k < bases.len(),
        tags[k] is Err,
    ensures
        after_bases(s, bases, tags, held).notes.contains(
            note_text("ollama tags "@, bases[k], tags[k]->Err_0),
        ),
    decreases bases.len(),
{
    let line = note_text("ollama tags "@, bases[k], tags[k]->Err_0);
    let before = after_bases(s, bases.drop_last(), tags.drop_last(), held);
    if k < bases.len() - 1 {
        lemma_notes_stay(s, bases.drop_last(), tags.drop_last(), held, k);
    }
    if let Err(e) = tags.last() {
        let noted = Enriching {
            notes: before.notes.push(note_text("ollama tags "@, bases.last(), e)),
            ..before
        };
        if k < bases.len() - 1 {
            let j = choose|j: int| 0 <= j < before.notes.len() && before.notes[j] == line;
            assert(noted.notes[j] == line);
        } else {
            assert(noted.notes[before.notes.len() as int] == line);
        }
        lemma_looks_keep_notes(
            noted,
            "ollama preserve "@,
            Some(bases.last()),
            held,
            before.models.len() as int,
            line,
        );
    }
}

proof fn lemma_looks_keep_notes(
    s: Enriching,
    what: Seq<char>,
    base: Option<Seq<char>>,
    held: Seq<Result<bool, Failure>>,
    n: int,
    line: Seq<char>,
)
    requires
        s.notes.contains(line),
    ensures
        looked_up_all(s, what, base, held, n).notes.contains(line),
    decreases n,
{
    if n > 0 {
        lemma_looks_keep_notes(s, what, base, held, n - 1, line);
        let before = looked_up_all(s, what, base, held, n - 1);
        let after = looked_up_all(s, what, base, held, n);
        let j = choose|j: int| 0 <= j < before.notes.len() && before.notes[j] == line;
        assert(after.notes[j] == line);
    }
}

/// The curated models keep their names and their number.
proof fn lemma_curated_names<H: HttpClient>(
    http: &H,
    models: Seq<Model>,
    held: Seq<Result<bool, Failure>>,
    registry: bool,
    c: Enriching,
)
    requires
        gives_curated(http, models, held, registry, c),
    ensures
        c.models.len() == models.len(),
        forall|i: int| 0 <= i < models.len() ==> (#[trigger] c.models[i]).name == models[i].name,
{
    if registry {
        let bases = distinct(tagged_bases(models));
        let tags = choose|tags: Seq<Result<Seq<Seq<char>>, Failure>>|
            {
                &&& tags.len() == bases.len()
                &&& forall|i: int|
                    0 <= i < bases.len() ==> gives_tags(http, bases[i], #[trigger] tags[i])
                &&& c == #[trigger] after_bases(start_of(models), bases, tags, held)
            };
        lemma_names_stay(start_of(models), bases, tags, held);
    } else {
        lemma_look_ups(
            start_of(models),
            "curated lookup "@,
            None,
            held,
            models.len() as int,
            Seq::empty(),
        );
    }
}

/// A held model whose page was not read is preserved, and the page that failed
/// is told of.
proof fn lemma_unread<H: HttpClient>(
    http: &H,
    models: Seq<Model>,
    held: Seq<Result<bool, Failure>>,
    registry: bool,
    c: Enriching,
    i: int,
)
    requires
        gives_curated(http, models, held, registry, c),
        0 <= i < models.len(),
        registry ==> page_fails(http, models[i].name),
    ensures
        held[i] == Ok::<bool, Failure>(true) ==> c.preserved.contains(models[i].name),
        registry ==> exists|f: Failure|
            c.notes.contains(#[trigger] note_text("ollama tags "@, base_of(models[i].name), f)),
{
    let name = models[i].name;
    if registry {
        let bases = distinct(tagged_bases(models));
        let base = base_of(name);
        let tags = choose|tags: Seq<Result<Seq<Seq<char>>, Failure>>|
            {
                &&& tags.len() == bases.len()
                &&& forall|i: int|
                    0 <= i < bases.len() ==> gives_tags(http, bases[i], #[trigger] tags[i])
                &&& c == #[trigger] after_bases(start_of(models), bases, tags, held)
            };
        lemma_bases(models, i);
        distinct_members(tagged_bases(models));
        assert(bases.contains(base));
        let k = choose|k: int| 0 <= k < bases.len() && bases[k] == base;
        assert(gives_tags(http, bases[k], tags[k]));
        assert(tags[k] is Err);
        assert(of_base(models, bases[k], i));
        if held[i] == Ok::<bool, Failure>(true) {
            unread_models_survive(models, bases, tags, held, k, i);
        }
        lemma_notes_stay(start_of(models), bases, tags, held, k);
    } else if held[i] == Ok::<bool, Failure>(true) {
        lemma_look_ups(
            start_of(models),
            "curated lookup "@,
            None,
            held,
            models.len() as int,
            name,
        );
        assert(concerned(models, None, i));
    }
}

/// A curated model that the catalog holds is left alone by a whole sync
/// without the registry, and by one that cannot read the page of its base: no
/// task changes what the catalog holds of it, be it among the curated ones, by
/// discovery or from another source. The page that failed is told of.
pub proof fn held_models_are_left_alone<H: HttpClient>(
    http: &H,
    models: Seq<Model>,
    held: Seq<Result<bool, Failure>>,
    registry: bool,
    discover_limit: Option<usize>,
    hf_limit: nat,
    mlx_limit: nat,
    now: i64,
    out: Seq<Task>,
    i: int,
)
    requires
        gives_sync(
            http,
            models,
            held,
            registry,
            discover_limit,
            hf_limit,
            mlx_limit,
            now,
            out,
        ),
        0 <= i < models.len(),
        held[i] == Ok::<bool, Failure>(true),
        registry ==> page_fails(http, models[i].name),
    ensures
        forall|k: int| 0 <= k < out.len() ==> !changes(#[trigger] out[k], models[i].name),
        registry ==> exists|f: Failure|
            out.contains(
                Task::Note(#[trigger] note_text("ollama tags "@, base_of(models[i].name), f)),
            ),
{
    let name = models[i].name;
    let (c, d, h, m) = choose|
        c: Enriching,
        d: Seq<Task>,
        h: Result<Seq<Model>, Failure>,
        m: Result<Seq<Model>, Failure>,
    |
        {
            &&& #[trigger] gives_curated(http, models, held, registry, c)
            &&& #[trigger] gives_discovered(http, c.models, discover_limit, now, d)
            &&& #[trigger] gives_gguf_models(http, hf_limit, h)
            &&& #[trigger] gives_mlx_models(http, mlx_limit, m)
            &&& out == curated_tasks(c) + d + source_tasks(
                Origin::HuggingFace,
                "huggingface: "@,
                h,
            ) + source_tasks(Origin::Mlx, "mlx: "@, m)
        };
    lemma_curated_names(http, models, held, registry, c);
    lemma_unread(http, models, held, registry, c, i);
    let first = curated_tasks(c);
    let third = source_tasks(Origin::HuggingFace, "huggingface: "@, h);
    let fourth = source_tasks(Origin::Mlx, "mlx: "@, m);
    assert forall|k: int| 0 <= k < out.len() implies !changes(#[trigger] out[k], name) by {
        if k < first.len() {
            assert(out[k] == first[k]);
        } else if k < first.len() + d.len() {
            let j = k - first.len();
            assert(out[k] == d[j]);
            lemma_discovered(http, c.models, discover_limit, now, d, j);
            if d[j] is Write && d[j]->Write_1.name == name {
                assert(base_of(c.models[i].name) == base_of(name));
            }
        } else if k < first.len() + d.len() + third.len() {
            let j = k - first.len() - d.len();
            assert(out[k] == third[j]);
            if let Ok(all) = h {
                assert(all.contains(all[j]));
                gguf_models_keep_their_source(http, hf_limit, h, all[j]);
            }
        } else {
            let j = k - first.len() - d.len() - third.len();
            assert(out[k] == fourth[j]);
            if let Ok(all) = m {
                assert(all.contains(all[j]));
                mlx_models_keep_their_source(http, mlx_limit, m, all[j]);
            }
        }
    }
    if registry {
        let f = choose|f: Failure|
            c.notes.contains(#[trigger] note_text("ollama tags "@, base_of(name), f));
        let line = note_text("ollama tags "@, base_of(name), f);
        let j = choose|j: int| 0 <= j < c.notes.len() && c.notes[j] == line;
        assert(out[j] == Task::Note(line));
    }
}

/// Every curated model counts in the report, whether it was written or left as
/// the catalog has it, but for those that could not be written. Every message
/// is among its errors.
pub proof fn every_curated_model_is_reported<H: HttpClient>(
    http: &H,
    models: Seq<Model>,
    held: Seq<Result<bool, Failure>>,
    registry: bool,
    discover_limit: Option<usize>,
    hf_limit: nat,
    mlx_limit: nat,
    now: i64,
    out: Seq<Task>,
    failures: Seq<Option<Failure>>,
)
    requires
        gives_sync(
            http,
            models,
            held,
            registry,
            discover_limit,
            hf_limit,
            mlx_limit,
            now,
            out,
        ),
        failures.len() == out.len(),
    ensures
        report_of(out, failures).curated + failed_writes(out, failures) == models.len(),
        forall|line: Seq<char>|
            out.contains(Task::Note(line)) ==> #[trigger] report_of(
                out,
                failures,
            ).errors.contains(line),
{
    let (c, d, h, m) = choose|
        c: Enriching,
        d: Seq<Task>,
        h: Result<Seq<Model>, Failure>,
        m: Result<Seq<Model>, Failure>,
    |
        {
            &&& #[trigger] gives_curated(http, models, held, registry, c)
            &&& #[trigger] gives_discovered(http, c.models, discover_limit, now, d)
            &&& #[trigger] gives_gguf_models(http, hf_limit, h)
            &&& #[trigger] gives_mlx_models(http, mlx_limit, m)
            &&& out == curated_tasks(c) + d + source_tasks(
                Origin::HuggingFace,
                "huggingface: "@,
                h,
            ) + source_tasks(Origin::Mlx, "mlx: "@, m)
        };
    lemma_curated_names(http, models, held, registry, c);
    let notes = c.notes.map_values(|n: Seq<char>| Task::Note(n));
    let third = source_tasks(Origin::HuggingFace, "huggingface: "@, h);
    let fourth = source_tasks(Origin::Mlx, "mlx: "@, m);
    assert forall|k: int| 0 <= k < d.len() implies (#[trigger] d[k]) is Note || d[k] is Write by {
        lemma_discovered(http, c.models, discover_limit, now, d, k);
    }
    lemma_all_about_curated(notes);
    lemma_all_about_curated(curated_writes(c));
    lemma_all_about_curated(d);
    lemma_all_about_curated(third);
    lemma_all_about_curated(fourth);
    lemma_about_curated(notes, curated_writes(c));
    lemma_about_curated(curated_tasks(c), d);
    lemma_about_curated(curated_tasks(c) + d, third);
    lemma_about_curated(curated_tasks(c) + d + third, fourth);
    lemma_report(out, failures);
}

proof fn lemma_report(tasks: Seq<Task>, failures: Seq<Option<Failure>>)
    requires
        failures.len() == tasks.len(),
    ensures
        report_of(tasks, failures).curated + failed_writes(tasks, failures) == about_curated(tasks),
        forall|line: Seq<char>|
            tasks.contains(Task::Note(line)) ==> #[trigger] report_of(
                tasks,
                failures,
            ).errors.contains(line),
    decreases tasks.len(),
{
    if tasks.len() > 0 {
        let (t, f) = (tasks.drop_last(), failures.drop_last());
        lemma_report(t, f);
        let before = report_of(t, f).errors;
        let after = report_of(tasks, failures).errors;
        assert forall|line: Seq<char>| tasks.contains(Task::Note(line)) implies #[trigger] report_of(
            tasks,
            failures,
        ).errors.contains(line) by {
            let k = choose|k: int| 0 <= k < tasks.len() && tasks[k] == Task::Note(line);
            if k < t.len() {
                assert(t[k] == Task::Note(line));
                assert(t.contains(Task::Note(line)));
                assert(report_of(t, f).errors.contains(line));
                let j = choose|j: int| 0 <= j < before.len() && before[j] == line;
                assert(after[j] == line);
            } else {
                assert(after[before.len() as int] == line);
            }
        }
    }
}

} // verus!
