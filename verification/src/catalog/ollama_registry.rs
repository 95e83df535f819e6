//! The Ollama library: reading its pages, choosing tags, and building catalog
//! models from what they say.

use vstd::prelude::*;

use crate::catalog::dates::{is_oldest_age, oldest_relative_date};
use crate::catalog::gguf::{header, parse_gguf_header, GgufMeta, Meta};
use crate::catalog::http::{bytes_outcome, json_outcome, text_outcome, HttpClient};
use crate::catalog::{
    bpw_of, clone_text, quant_bpw, CatalogModel, CatalogVariant, Model, RuntimeKind, Source,
    Variant,
};
use crate::decimal::{float_of, infinity, read_float};
use crate::double::{nearest, product, quotient, whole_part, Double, LEAST};
use crate::error::{Failure, PaddockError};
use crate::estimate::{bits_number, bits_of, BIT};
use crate::json::{as_array, as_str, as_u64, get, items_in, member, text_in, tree, unsigned_in, Tree};
use crate::numeral::saturated;
use crate::text::{
    ascii_lower, ascii_upper, chars_of, contains, contains_chars, lowered, matches_at, occurs_at,
    part, rfind_char, same, same_chars, starts_with, string_of, upper_char,
};
use crate::precision::{
    above_line, below_line, nearest_is_close, product_is_close, quotient_is_close,
    saturated_is_no_more, whole_multiple_is_close, whole_part_of_close, PARTS,
};

verus! {

// ---------------------------------------------------------------------------
// Names on a page
// ---------------------------------------------------------------------------

/// The characters of a tag or a model name.
pub open spec fn is_name_char(c: char) -> bool {
    ('0' <= c && c <= '9') || ('a' <= c && c <= 'z') || ('A' <= c && c <= 'Z') || c == '.' || c
        == '_' || c == '-'
}

fn name_char(c: char) -> (r: bool)
    ensures
        r == is_name_char(c),
{
    ('0' <= c && c <= '9') || ('a' <= c && c <= 'z') || ('A' <= c && c <= 'Z') || c == '.' || c
        == '_' || c == '-'
}

/// The name that `s` begins with; it ends at the first other character.
pub open spec fn leading_name(s: Seq<char>) -> Seq<char>
    decreases s.len(),
{
    if s.len() > 0 && is_name_char(s[0]) {
        seq![s[0]] + leading_name(s.skip(1))
    } else {
        Seq::empty()
    }
}

/// The names that follow `mark` on the page, from `from` on; empty ones do
/// not count.
pub open spec fn names_after(page: Seq<char>, mark: Seq<char>, from: int) -> Seq<Seq<char>>
    decreases page.len() - from,
{
    if mark.len() == 0 || from < 0 || from + mark.len() > page.len() {
        Seq::empty()
    } else if occurs_at(page, mark, from) {
        let name = leading_name(page.skip(from + mark.len()));
        let rest = names_after(page, mark, from + mark.len());
        if name.len() > 0 {
            seq![name] + rest
        } else {
            rest
        }
    } else {
        names_after(page, mark, from + 1)
    }
}

/// Each member once, where it occurs first.
pub open spec fn distinct(s: Seq<Seq<char>>) -> Seq<Seq<char>>
    decreases s.len(),
{
    if s.len() == 0 {
        Seq::empty()
    } else {
        let d = distinct(s.drop_last());
        if d.contains(s.last()) {
            d
        } else {
            d.push(s.last())
        }
    }
}

/// Nothing occurs twice in `distinct(s)`, and it has the members of `s`.
pub proof fn distinct_members(s: Seq<Seq<char>>)
    ensures
        distinct(s).no_duplicates(),
        forall|x: Seq<char>| distinct(s).contains(x) <==> s.contains(x),
    decreases s.len(),
{
    if s.len() > 0 {
        let t = s.drop_last();
        distinct_members(t);
        let d = distinct(t);
        assert forall|x: Seq<char>| distinct(s).contains(x) <==> s.contains(x) by {
            if s.contains(x) {
                let i = choose|i: int| 0 <= i < s.len() && s[i] == x;
                if i < t.len() {
                    assert(t[i] == x);
                    assert(t.contains(x));
                    let k = choose|k: int| 0 <= k < d.len() && d[k] == x;
                    assert(distinct(s)[k] == x);
                } else {
                    assert(x == s.last());
                    if !d.contains(x) {
                        assert(distinct(s)[d.len() as int] == x);
                    }
                }
            }
            if distinct(s).contains(x) {
                let k = choose|k: int| 0 <= k < distinct(s).len() && distinct(s)[k] == x;
                if k < d.len() {
                    assert(d[k] == x);
                    assert(d.contains(x));
                    assert(t.contains(x));
                    let i = choose|i: int| 0 <= i < t.len() && t[i] == x;
                    assert(s[i] == x);
                } else {
                    assert(s[s.len() - 1] == x);
                }
            }
        }
    }
}

/// Whether `name` is one of `names`.
pub fn is_listed(names: &Vec<String>, name: &str) -> (r: bool)
    ensures
        r == names.deep_view().contains(name@),
{
    for i in 0..names.len()
        invariant
            forall|j: int| 0 <= j < i ==> names@[j]@ != name@,
    {
        if same(names[i].as_str(), name) {
            assert(names.deep_view()[i as int] == name@);
            return true;
        }
    }
    assert forall|j: int| 0 <= j < names.deep_view().len() implies names.deep_view()[j]
        != name@ by {
        assert(names@[j]@ != name@);
    }
    false
}

/// Puts `name` behind `names` unless it is there already.
fn push_distinct(names: &mut Vec<String>, name: String, Ghost(all): Ghost<Seq<Seq<char>>>)
    requires
        old(names).deep_view() == distinct(all),
    ensures
        final(names).deep_view() == distinct(all.push(name@)),
{
    assert(all.push(name@).drop_last() =~= all);
    if !is_listed(names, name.as_str()) {
        names.push(name);
        assert(names.deep_view() =~= distinct(all).push(name@));
    }
}

/// The name that stands at `from`.
fn name_at(page: &[char], from: usize) -> (r: String)
    requires
        from <= page@.len(),
    ensures
        r@ == leading_name(page@.skip(from as int)),
{
    let mut out = String::new();
    let mut i: usize = from;
    while i < page.len() && name_char(page[i])
        invariant
            from <= i <= page@.len(),
            leading_name(page@.skip(from as int)) == out@ + leading_name(page@.skip(i as int)),
        decreases page@.len() - i,
    {
        assert(page@.skip(i as int).skip(1) =~= page@.skip(i as int + 1));
        assert(out@.push(page@[i as int]) + leading_name(page@.skip(i as int + 1)) =~= out@ + (seq![
            page@[i as int],
        ] + leading_name(page@.skip(i as int + 1))));
        out.push(page[i]);
        i = i + 1;
    }
    assert(out@ + Seq::<char>::empty() =~= out@);
    out
}

/// The names that follow `mark` on the page, each once, in order.
fn linked_names(page: &[char], mark: &[char]) -> (r: Vec<String>)
    requires
        mark@.len() > 0,
    ensures
        r.deep_view() == distinct(names_after(page@, mark@, 0)),
{
    let mut out: Vec<String> = Vec::new();
    let ghost mut all: Seq<Seq<char>> = Seq::empty();
    assert(out.deep_view() =~= distinct(all));
    assert(all + names_after(page@, mark@, 0) =~= names_after(page@, mark@, 0));
    let mut i: usize = 0;
    while i <= page.len() && mark.len() <= page.len() - i
        invariant
            mark@.len() > 0,
            i <= page@.len(),
            out.deep_view() == distinct(all),
            names_after(page@, mark@, 0) == all + names_after(page@, mark@, i as int),
        decreases page@.len() - i,
    {
        if matches_at(page, mark, i) {
            let name = name_at(page, i + mark.len());
            let ghost rest = names_after(page@, mark@, i + mark@.len());
            if name.as_str().is_empty() {
            } else {
                let ghost n = name@;
                push_distinct(&mut out, name, Ghost(all));
                proof {
                    assert(all + (seq![n] + rest) =~= all.push(n) + rest);
                    all = all.push(n);
                }
            }
            i = i + mark.len();
        } else {
            i = i + 1;
        }
    }
    assert(all + Seq::<Seq<char>>::empty() =~= all);
    out
}

/// What goes before a tag of `base` in a link of the library.
pub open spec fn tag_mark(base: Seq<char>) -> Seq<char> {
    "/library/"@ + base + ":"@
}

/// Every tag of `base` on a tags page, in page order, each once.
pub fn extract_tag_names(html: &str, base: &str) -> (r: Vec<String>)
    ensures
        r.deep_view() == distinct(names_after(html@, tag_mark(base@), 0)),
{
    let mut mark = "/library/".to_owned();
    mark.append(base);
    mark.append(":");
    proof {
        reveal_strlit(":");
    }
    linked_names(&chars_of(html), &chars_of(mark.as_str()))
}

/// Every model name in a link of the library, in page order, each once. A
/// link to a tag counts for its model.
pub fn parse_library_names(html: &str) -> (r: Vec<String>)
    ensures
        r.deep_view() == distinct(names_after(html@, "href=\"/library/"@, 0)),
{
    proof {
        reveal_strlit("href=\"/library/");
    }
    linked_names(&chars_of(html), &chars_of("href=\"/library/"))
}

/// The names of `newest` that `popularity` lacks, in order, `n` at most.
pub open spec fn newcomers(popularity: Seq<Seq<char>>, newest: Seq<Seq<char>>, n: nat) -> Seq<
    Seq<char>,
>
    decreases newest.len(),
{
    if newest.len() == 0 {
        Seq::empty()
    } else {
        let before = newcomers(popularity, newest.drop_last(), n);
        if before.len() < n && !popularity.contains(newest.last()) {
            before.push(newest.last())
        } else {
            before
        }
    }
}

/// Newcomers are names of the newest that are not among the popular ones, and no
/// more than places are kept for them.
pub proof fn newcomers_are_new(popularity: Seq<Seq<char>>, newest: Seq<Seq<char>>, n: nat)
    ensures
        newcomers(popularity, newest, n).len() <= n,
        forall|k: int|
            0 <= k < newcomers(popularity, newest, n).len() ==> newest.contains(
                #[trigger] newcomers(popularity, newest, n)[k],
            ) && !popularity.contains(newcomers(popularity, newest, n)[k]),
    decreases newest.len(),
{
    if newest.len() > 0 {
        let t = newest.drop_last();
        newcomers_are_new(popularity, t, n);
        let (before, all) = (newcomers(popularity, t, n), newcomers(popularity, newest, n));
        assert forall|k: int| 0 <= k < all.len() implies newest.contains(#[trigger] all[k])
            && !popularity.contains(all[k]) by {
            if k < before.len() {
                assert(all[k] == before[k]);
                let i = choose|i: int| 0 <= i < t.len() && t[i] == before[k];
                assert(newest[i] == t[i]);
            } else {
                assert(newest[newest.len() - 1] == all[k]);
            }
        }
    }
}

/// Both lists in one: first up to `reserve` names that only `newest` has,
/// then the popular ones, then the rest of the newest.
pub open spec fn merged(popularity: Seq<Seq<char>>, newest: Seq<Seq<char>>, reserve: nat) -> Seq<
    Seq<char>,
> {
    distinct(newcomers(popularity, newest, reserve) + popularity + newest)
}

proof fn lemma_distinct_prefix(a: Seq<Seq<char>>, b: Seq<Seq<char>>)
    ensures
        distinct(a).is_prefix_of(distinct(a + b)),
    decreases b.len(),
{
    if b.len() > 0 {
        lemma_distinct_prefix(a, b.drop_last());
        assert((a + b).drop_last() =~= a + b.drop_last());
    } else {
        assert(a + b =~= a);
    }
}

/// The newcomers that places are kept for come first of all, then the popular
/// names.
pub proof fn newcomers_come_first(
    popularity: Seq<Seq<char>>,
    newest: Seq<Seq<char>>,
    reserve: nat,
)
    ensures
        distinct(newcomers(popularity, newest, reserve)).is_prefix_of(
            merged(popularity, newest, reserve),
        ),
        distinct(newcomers(popularity, newest, reserve) + popularity).is_prefix_of(
            merged(popularity, newest, reserve),
        ),
{
    let n = newcomers(popularity, newest, reserve);
    lemma_distinct_prefix(n + popularity, newest);
    lemma_distinct_prefix(n, popularity + newest);
    assert(n + (popularity + newest) =~= n + popularity + newest);
}

fn push_all_distinct(out: &mut Vec<String>, names: &Vec<String>, Ghost(all): Ghost<Seq<Seq<char>>>)
    requires
        old(out).deep_view() == distinct(all),
    ensures
        final(out).deep_view() == distinct(all + names.deep_view()),
{
    let ghost all_names = names.deep_view();
    assert(all + all_names.take(0) =~= all);
    for i in 0..names.len()
        invariant
            all_names == names.deep_view(),
            out.deep_view() == distinct(all + all_names.take(i as int)),
    {
        push_distinct(out, names[i].clone(), Ghost(all + all_names.take(i as int)));
        assert((all + all_names.take(i as int)).push(names@[i as int]@) =~= all + all_names.take(
            i as int + 1,
        ));
    }
    assert(all_names.take(all_names.len() as int) =~= all_names);
}

/// The popular names and the newest in one list, in which up to
/// `newest_reserve` names that are only among the newest come first, so that
/// they survive a later cut.
pub fn merge_library_names(
    popularity: Vec<String>,
    newest: Vec<String>,
    newest_reserve: usize,
) -> (r: Vec<String>)
    ensures
        r.deep_view() == merged(popularity.deep_view(), newest.deep_view(), newest_reserve as nat),
{
    let mut reserved: Vec<String> = Vec::new();
    let ghost pop = popularity.deep_view();
    let ghost new = newest.deep_view();
    assert(reserved.deep_view() =~= Seq::<Seq<char>>::empty());
    for i in 0..newest.len()
        invariant
            pop == popularity.deep_view(),
            new == newest.deep_view(),
            reserved.deep_view() == newcomers(pop, new.take(i as int), newest_reserve as nat),
    {
        assert(new.take(i as int + 1).drop_last() =~= new.take(i as int));
        assert(new.take(i as int + 1).last() == newest@[i as int]@);
        assert(reserved.deep_view().len() == reserved@.len());
        if reserved.len() < newest_reserve && !is_listed(&popularity, newest[i].as_str()) {
            let ghost before = reserved.deep_view();
            reserved.push(newest[i].clone());
            assert(reserved.deep_view() =~= before.push(newest@[i as int]@));
        }
    }
    assert(new.take(new.len() as int) =~= new);
    let mut out: Vec<String> = Vec::new();
    let ghost none = Seq::<Seq<char>>::empty();
    assert(out.deep_view() =~= distinct(none));
    push_all_distinct(&mut out, &reserved, Ghost(none));
    push_all_distinct(&mut out, &popularity, Ghost(none + reserved.deep_view()));
    push_all_distinct(
        &mut out,
        &newest,
        Ghost(none + reserved.deep_view() + popularity.deep_view()),
    );
    assert(none + reserved.deep_view() =~= reserved.deep_view());
    out
}

/// The merged list holds every name of both lists, none twice.
pub proof fn merge_keeps_every_name(
    popularity: Seq<Seq<char>>,
    newest: Seq<Seq<char>>,
    reserve: nat,
)
    ensures
        merged(popularity, newest, reserve).no_duplicates(),
        forall|x: Seq<char>|
            merged(popularity, newest, reserve).contains(x) <==> popularity.contains(x)
                || newest.contains(x),
{
    let first = newcomers(popularity, newest, reserve);
    distinct_members(first + popularity + newest);
    lemma_newcomers(popularity, newest, reserve);
    assert forall|x: Seq<char>|
        (first + popularity + newest).contains(x) <==> popularity.contains(x) || newest.contains(
            x,
        ) by {
        let all = first + popularity + newest;
        if all.contains(x) {
            let i = choose|i: int| 0 <= i < all.len() && all[i] == x;
            if i < first.len() {
                assert(first[i] == x);
                assert(first.contains(x));
            } else if i < first.len() + popularity.len() {
                assert(popularity[i - first.len()] == x);
            } else {
                assert(newest[i - first.len() - popularity.len()] == x);
            }
        }
        if popularity.contains(x) {
            let i = choose|i: int| 0 <= i < popularity.len() && popularity[i] == x;
            assert(all[first.len() + i] == x);
        }
        if newest.contains(x) {
            let i = choose|i: int| 0 <= i < newest.len() && newest[i] == x;
            assert(all[first.len() + popularity.len() + i] == x);
        }
    }
}

proof fn lemma_newcomers(popularity: Seq<Seq<char>>, newest: Seq<Seq<char>>, n: nat)
    ensures
        newcomers(popularity, newest, n).len() <= n,
        forall|x: Seq<char>|
            newcomers(popularity, newest, n).contains(x) ==> newest.contains(x)
                && !popularity.contains(x),
    decreases newest.len(),
{
    if newest.len() > 0 {
        let t = newest.drop_last();
        lemma_newcomers(popularity, t, n);
        let before = newcomers(popularity, t, n);
        let all = newcomers(popularity, newest, n);
        assert forall|x: Seq<char>| all.contains(x) implies newest.contains(x)
            && !popularity.contains(x) by {
            let i = choose|i: int| 0 <= i < all.len() && all[i] == x;
            if i < before.len() {
                assert(before[i] == x);
                assert(before.contains(x));
                assert(t.contains(x));
                let k = choose|k: int| 0 <= k < t.len() && t[k] == x;
                assert(newest[k] == x);
            } else {
                assert(newest[newest.len() - 1] == x);
            }
        }
    }
}

// ---------------------------------------------------------------------------
// Choosing tags
// ---------------------------------------------------------------------------

/// One tag of the library, kept for a model size.
#[derive(Debug, PartialEq, Eq)]
pub struct OllamaTag {
    /// Exact library tag, `8b-instruct-q4_K_M` or plain `8b`.
    pub tag: String,
    /// The quantization as the catalog names it.
    pub quant: String,
}

impl Clone for OllamaTag {
    fn clone(&self) -> (r: OllamaTag)
        ensures
            r@ == self@,
    {
        OllamaTag { tag: self.tag.clone(), quant: self.quant.clone() }
    }
}

/// `OllamaTag` without its storage.
pub ghost struct Tag {
    pub tag: Seq<char>,
    pub quant: Seq<char>,
}

impl View for OllamaTag {
    type V = Tag;

    open spec fn view(&self) -> Tag {
        Tag { tag: self.tag@, quant: self.quant@ }
    }
}

impl DeepView for OllamaTag {
    type V = Tag;

    open spec fn deep_view(&self) -> Tag {
        self@
    }
}

/// The catalog's name for the quantization at the end of a tag: upper case,
/// and `F16` for `fp16`. `None` if the catalog does not know it.
pub open spec fn normal_quant(suffix: Seq<char>) -> Option<Seq<char>> {
    let q = if ascii_lower(suffix) == "fp16"@ {
        "F16"@
    } else {
        ascii_upper(suffix)
    };
    if bpw_of(q) is Some {
        Some(q)
    } else {
        None
    }
}

fn raised(c: char) -> (r: char)
    ensures
        r == upper_char(c),
{
    if 'a' <= c && c <= 'z' {
        (c as u8 - 32) as char
    } else {
        c
    }
}

/// The catalog's name for the quantization at the end of a tag.
pub fn normalize_quant(suffix: &str) -> (r: Option<String>)
    ensures
        r.deep_view() == normal_quant(suffix@),
{
    let cs = chars_of(suffix);
    let mut low: Vec<char> = Vec::new();
    let mut up: Vec<char> = Vec::new();
    for i in 0..cs.len()
        invariant
            cs@ == suffix@,
            low@ == ascii_lower(suffix@.take(i as int)),
            up@ == ascii_upper(suffix@.take(i as int)),
    {
        low.push(lowered(cs[i]));
        up.push(raised(cs[i]));
        assert(low@ =~= ascii_lower(suffix@.take(i as int + 1)));
        assert(up@ =~= ascii_upper(suffix@.take(i as int + 1)));
    }
    assert(suffix@.take(suffix@.len() as int) =~= suffix@);
    let candidate = if same_chars(&low, &chars_of("fp16")) {
        "F16".to_owned()
    } else {
        string_of(&up)
    };
    if quant_bpw(candidate.as_str()).is_some() {
        Some(candidate)
    } else {
        None
    }
}

/// What follows the last `-` of a tag.
pub open spec fn last_segment(tag: Seq<char>) -> Seq<char> {
    match tag.index_of_last('-') {
        Some(i) => tag.skip(i + 1),
        None => tag,
    }
}

/// How canonical a tag is for its size and quantization suffix: the instruct
/// form, the `it` form, the bare form, any other.
pub open spec fn form_rank(tag: Seq<char>, size: Seq<char>, suffix: Seq<char>) -> nat {
    if tag == size + "-instruct-"@ + suffix {
        1
    } else if tag == size + "-it-"@ + suffix {
        2
    } else if tag == size + "-"@ + suffix {
        3
    } else {
        4
    }
}

/// Of the builds with one suffix the one for instructions goes before the one
/// marked `it`, that before the bare one, and the bare one before every other.
pub proof fn instruct_builds_go_first(size: Seq<char>, suffix: Seq<char>, other: Seq<char>)
    ensures
        ({
            let instruct = form_rank(size + "-instruct-"@ + suffix, size, suffix);
            let it = form_rank(size + "-it-"@ + suffix, size, suffix);
            let bare = form_rank(size + "-"@ + suffix, size, suffix);
            &&& instruct < it < bare
            &&& other != size + "-instruct-"@ + suffix && other != size + "-it-"@ + suffix && other
                != size + "-"@ + suffix ==> bare < form_rank(other, size, suffix)
        }),
{
    reveal_strlit("-instruct-");
    reveal_strlit("-it-");
    reveal_strlit("-");
    let (a, b, c) = (
        size + "-instruct-"@ + suffix,
        size + "-it-"@ + suffix,
        size + "-"@ + suffix,
    );
    assert(a.len() == size.len() + 10 + suffix.len());
    assert(b.len() == size.len() + 4 + suffix.len());
    assert(c.len() == size.len() + 1 + suffix.len());
}

/// The quantization that a tag stands for, and how canonical it is. The plain
/// size stands for the default quantization and comes first of all. Tags of
/// other sizes, text and base models and unknown quantizations stand for none.
pub open spec fn tag_quant(tag: Seq<char>, size: Seq<char>, default: Seq<char>) -> Option<
    (Seq<char>, nat),
> {
    if tag == size {
        Some((default, 0))
    } else if !(size + "-"@).is_prefix_of(tag) || contains(tag, "-text"@) || contains(
        tag,
        "-base"@,
    ) {
        None
    } else {
        match normal_quant(last_segment(tag)) {
            Some(q) => Some((q, form_rank(tag, size, last_segment(tag)))),
            None => None,
        }
    }
}

/// A tag that says no more than the size goes before all others and is the
/// default quantization; every other tag that counts begins with the size and a
/// dash, is neither a text nor a base build, and is the quantization that its
/// last part says, one whose bits per weight are known.
pub proof fn tag_is_of_its_size(tag: Seq<char>, size: Seq<char>, default: Seq<char>)
    ensures
        tag_quant(size, size, default) == Some((default, 0nat)),
        tag != size ==> (tag_quant(tag, size, default) matches Some((q, rank)) ==> {
            &&& rank > 0
            &&& (size + "-"@).is_prefix_of(tag)
            &&& !contains(tag, "-text"@)
            &&& !contains(tag, "-base"@)
            &&& normal_quant(last_segment(tag)) == Some(q)
            &&& bpw_of(q) is Some
        }),
{
}

/// What a suffix says is the same in small letters and in capitals: the
/// quantization of that name in capitals, or `F16` for `fp16`.
pub proof fn suffix_says_its_quantization(suffix: Seq<char>)
    ensures
        normal_quant(suffix) matches Some(q) ==> {
            &&& bpw_of(q) is Some
            &&& q == ascii_upper(suffix) || (q == "F16"@ && ascii_lower(suffix) == "fp16"@)
        },
        bpw_of(ascii_upper(suffix)) is Some && ascii_lower(suffix) != "fp16"@ ==> normal_quant(
            suffix,
        ) == Some(ascii_upper(suffix)),
{
}

/// The last part of a tag holds no dash, and stands at its end.
pub proof fn last_part_holds_no_dash(tag: Seq<char>)
    ensures
        !last_segment(tag).contains('-'),
        last_segment(tag).is_suffix_of(tag),
{
    tag.index_of_last_ensures('-');
    if let Some(i) = tag.index_of_last('-') {
        let rest = tag.skip(i + 1);
        if rest.contains('-') {
            let k = choose|k: int| 0 <= k < rest.len() && rest[k] == '-';
            assert(tag[i + 1 + k] == '-');
        }
    }
}

/// A tag under consideration.
pub ghost struct Candidate {
    pub tag: Seq<char>,
    pub quant: Seq<char>,
    pub rank: nat,
}

/// Length of a text in bytes.
pub open spec fn byte_len(s: Seq<char>) -> nat {
    vstd::utf8::encode_utf8(s).len()
}

/// `a` is preferred to `b`: more canonical, or as canonical and shorter.
pub open spec fn preferred(a: Candidate, b: Candidate) -> bool {
    a.rank < b.rank || (a.rank == b.rank && byte_len(a.tag) < byte_len(b.tag))
}

/// Of two builds one is preferred at most, never over a better form, and with
/// the same form the one with the shorter tag.
pub proof fn shorter_tags_are_preferred(a: Candidate, b: Candidate)
    ensures
        preferred(a, b) ==> !preferred(b, a) && a.rank <= b.rank,
        a.rank < b.rank ==> preferred(a, b),
        a.rank == b.rank && byte_len(a.tag) < byte_len(b.tag) ==> preferred(a, b),
        a.rank == b.rank && a.tag == b.tag ==> !preferred(a, b),
{
}

/// Where `quant` stands in `list`, from `k` on.
pub open spec fn slot(list: Seq<Candidate>, quant: Seq<char>, k: int) -> Option<int>
    decreases list.len() - k,
{
    if k < 0 || k >= list.len() {
        None
    } else if list[k].quant == quant {
        Some(k)
    } else {
        slot(list, quant, k + 1)
    }
}

/// `list` after `c` was considered.
pub open spec fn considered(list: Seq<Candidate>, c: Candidate) -> Seq<Candidate> {
    match slot(list, c.quant, 0) {
        None => list.push(c),
        Some(i) => if preferred(c, list[i]) {
            list.update(i, c)
        } else {
            list
        },
    }
}

/// The candidates left when every tag was considered, in order.
pub open spec fn candidates(
    tags: Seq<Seq<char>>,
    size: Seq<char>,
    default: Seq<char>,
) -> Seq<Candidate>
    decreases tags.len(),
{
    if tags.len() == 0 {
        Seq::empty()
    } else {
        let before = candidates(tags.drop_last(), size, default);
        let tag = tags.last();
        match tag_quant(tag, size, default) {
            Some((quant, rank)) => considered(before, Candidate { tag, quant, rank }),
            None => before,
        }
    }
}

/// The tags kept for a size.
pub open spec fn selected(tags: Seq<Seq<char>>, size: Seq<char>, default: Seq<char>) -> Seq<Tag> {
    candidates(tags, size, default).map_values(
        |c: Candidate| Tag { tag: c.tag, quant: c.quant },
    )
}

proof fn lemma_slot(list: Seq<Candidate>, quant: Seq<char>, k: int)
    requires
        0 <= k,
    ensures
        match slot(list, quant, k) {
            Some(i) => k <= i < list.len() && list[i].quant == quant,
            None => forall|j: int| k <= j < list.len() ==> list[j].quant != quant,
        },
    decreases list.len() - k,
{
    if k < list.len() && list[k].quant != quant {
        lemma_slot(list, quant, k + 1);
    }
}

/// One tag is kept per quantization, it is one of the tags given and stands
/// for that quantization, and no tag that stands for the same quantization is
/// preferred to it.
pub proof fn best_tag_per_quant(tags: Seq<Seq<char>>, size: Seq<char>, default: Seq<char>)
    ensures
        ({
            let kept = candidates(tags, size, default);
            &&& forall|i: int, j: int|
                0 <= i < j < kept.len() ==> (#[trigger] kept[i]).quant != (#[trigger] kept[j]).quant
            &&& forall|i: int|
                0 <= i < kept.len() ==> tags.contains((#[trigger] kept[i]).tag) && tag_quant(
                    kept[i].tag,
                    size,
                    default,
                ) == Some((kept[i].quant, kept[i].rank))
            &&& forall|t: int|
                0 <= t < tags.len() ==> (tag_quant(#[trigger] tags[t], size, default) matches Some(
                    (q, r),
                ) ==> exists|i: int|
                    0 <= i < kept.len() && (#[trigger] kept[i]).quant == q && !preferred(
                        Candidate { tag: tags[t], quant: q, rank: r },
                        kept[i],
                    ))
        }),
    decreases tags.len(),
{
    if tags.len() > 0 {
        let t = tags.drop_last();
        let last = tags.last();
        best_tag_per_quant(t, size, default);
        let before = candidates(t, size, default);
        let kept = candidates(tags, size, default);
        assert forall|x: Seq<char>| t.contains(x) implies tags.contains(x) by {
            let i = choose|i: int| 0 <= i < t.len() && t[i] == x;
            assert(tags[i] == x);
        }
        assert(tags[tags.len() - 1] == last);
        assert(tags.contains(last));
        if let Some((q, r)) = tag_quant(last, size, default) {
            let c = Candidate { tag: last, quant: q, rank: r };
            lemma_slot(before, q, 0);
            assert forall|k: int| 0 <= k < tags.len() implies (tag_quant(
                #[trigger] tags[k],
                size,
                default,
            ) matches Some((q2, r2)) ==> exists|i: int|
                0 <= i < kept.len() && (#[trigger] kept[i]).quant == q2 && !preferred(
                    Candidate { tag: tags[k], quant: q2, rank: r2 },
                    kept[i],
                )) by {
                if let Some((q2, r2)) = tag_quant(tags[k], size, default) {
                    let c2 = Candidate { tag: tags[k], quant: q2, rank: r2 };
                    if k < t.len() {
                        assert(t[k] == tags[k]);
                        let i = choose|i: int|
                            0 <= i < before.len() && (#[trigger] before[i]).quant == q2
                                && !preferred(c2, before[i]);
                        assert(kept[i].quant == q2);
                        assert(!preferred(c2, kept[i]));
                    } else {
                        match slot(before, q, 0) {
                            Some(i) => {
                                assert(kept[i].quant == q);
                                assert(!preferred(c2, kept[i]));
                            },
                            None => {
                                assert(kept[before.len() as int] == c);
                            },
                        }
                    }
                }
            }
        } else {
            assert forall|k: int| 0 <= k < tags.len() implies (tag_quant(
                #[trigger] tags[k],
                size,
                default,
            ) matches Some((q2, r2)) ==> exists|i: int|
                0 <= i < kept.len() && (#[trigger] kept[i]).quant == q2 && !preferred(
                    Candidate { tag: tags[k], quant: q2, rank: r2 },
                    kept[i],
                )) by {
                if k < t.len() {
                    assert(t[k] == tags[k]);
                }
            }
        }
    }
}

struct Kept {
    tag: String,
    quant: String,
    rank: u8,
}

impl Kept {
    spec fn model(&self) -> Candidate {
        Candidate { tag: self.tag@, quant: self.quant@, rank: self.rank as nat }
    }
}

spec fn models(v: Seq<Kept>) -> Seq<Candidate> {
    v.map_values(|k: Kept| k.model())
}

fn joined3(a: &str, b: &str, c: &str) -> (r: String)
    ensures
        r@ == a@ + b@ + c@,
{
    let mut s = a.to_owned();
    s.append(b);
    s.append(c);
    s
}

/// The quantization that a tag stands for, and how canonical it is.
fn classify(tag: &str, size: &str, default_quant: &str) -> (r: Option<(String, u8)>)
    ensures
        match r {
            Some((q, rank)) => tag_quant(tag@, size@, default_quant@) == Some((q@, rank as nat)),
            None => tag_quant(tag@, size@, default_quant@) is None,
        },
{
    if same(tag, size) {
        return Some((default_quant.to_owned(), 0));
    }
    let cs = chars_of(tag);
    let mut prefix = size.to_owned();
    prefix.append("-");
    if !starts_with(&cs, &chars_of(prefix.as_str())) {
        return None;
    }
    if contains_chars(&cs, &chars_of("-text")) || contains_chars(&cs, &chars_of("-base")) {
        return None;
    }
    let n: usize = cs.len();
    let raw = match rfind_char(&cs, '-') {
        Some(i) => {
            assert(i < n);
            assert(cs@.subrange(i as int + 1, cs@.len() as int) =~= cs@.skip(i as int + 1));
            string_of(&part(&cs, i + 1, n))
        },
        None => tag.to_owned(),
    };
    assert(raw@ == last_segment(tag@));
    let quant = match normalize_quant(raw.as_str()) {
        Some(q) => q,
        None => {
            return None;
        },
    };
    let rank: u8 = if same(tag, joined3(size, "-instruct-", raw.as_str()).as_str()) {
        1
    } else if same(tag, joined3(size, "-it-", raw.as_str()).as_str()) {
        2
    } else if same(tag, joined3(size, "-", raw.as_str()).as_str()) {
        3
    } else {
        4
    };
    Some((quant, rank))
}

fn find_quant(list: &Vec<Kept>, quant: &str) -> (r: Option<usize>)
    ensures
        match r {
            Some(i) => slot(models(list@), quant@, 0) == Some(i as int) && i < list@.len(),
            None => slot(models(list@), quant@, 0) is None,
        },
{
    let mut k: usize = 0;
    while k < list.len()
        invariant
            k <= list@.len(),
            slot(models(list@), quant@, 0) == slot(models(list@), quant@, k as int),
        decreases list@.len() - k,
    {
        assert(models(list@)[k as int].quant == list@[k as int].quant@);
        if same(list[k].quant.as_str(), quant) {
            return Some(k);
        }
        k = k + 1;
    }
    None
}

/// The tags kept for one size (`8b`): one per quantization, the most canonical
/// form first, then the shortest.
pub fn select_variant_tags(tags: &[String], size_prefix: &str, default_quant: &str) -> (r: Vec<
    OllamaTag,
>)
    ensures
        r.deep_view() == selected(
            Seq::new(tags@.len(), |i: int| tags@[i]@),
            size_prefix@,
            default_quant@,
        ),
{
    let ghost names = Seq::new(tags@.len(), |i: int| tags@[i]@);
    let mut out: Vec<Kept> = Vec::new();
    assert(models(out@) =~= Seq::<Candidate>::empty());
    for i in 0..tags.len()
        invariant
            names == Seq::new(tags@.len(), |i: int| tags@[i]@),
            models(out@) == candidates(names.take(i as int), size_prefix@, default_quant@),
    {
        assert(names.take(i as int + 1).drop_last() =~= names.take(i as int));
        assert(names.take(i as int + 1).last() == tags@[i as int]@);
        let ghost before = models(out@);
        let tag = tags[i].as_str();
        if let Some((quant, rank)) = classify(tag, size_prefix, default_quant) {
            let kept = Kept { tag: tag.to_owned(), quant, rank };
            let ghost c = kept.model();
            match find_quant(&out, kept.quant.as_str()) {
                Some(k) => {
                    let n: usize = tag.as_bytes().len();
                    let m: usize = out[k].tag.as_str().as_bytes().len();
                    assert(before[k as int] == out@[k as int].model());
                    if rank < out[k].rank || (rank == out[k].rank && n < m) {
                        out.set(k, kept);
                        assert(models(out@) =~= before.update(k as int, c));
                    }
                },
                None => {
                    out.push(kept);
                    assert(models(out@) =~= before.push(c));
                },
            }
            assert(models(out@) == considered(before, c));
        }
    }
    assert(names.take(names.len() as int) =~= names);
    let mut r: Vec<OllamaTag> = Vec::new();
    for i in 0..out.len()
        invariant
            r@.len() == i,
            forall|j: int| 0 <= j < i ==> (#[trigger] r@[j])@ == (Tag {
                tag: out@[j].tag@,
                quant: out@[j].quant@,
            }),
    {
        r.push(OllamaTag { tag: out[i].tag.clone(), quant: out[i].quant.clone() });
    }
    assert(r.deep_view() =~= selected(names, size_prefix@, default_quant@)) by {
        let kept = candidates(names, size_prefix@, default_quant@);
        assert(kept.len() == out@.len());
        assert forall|j: int| 0 <= j < out@.len() implies (#[trigger] r.deep_view()[j]) == selected(
            names,
            size_prefix@,
            default_quant@,
        )[j] by {
            assert(models(out@)[j] == out@[j].model());
        }
    }
    r
}

// ---------------------------------------------------------------------------
// Curated models
// ---------------------------------------------------------------------------

/// The variant that a tag stands for, with the shape of `arch`; the file size
/// is known only for the quantization that `arch` has.
pub open spec fn tagged_variant(t: Tag, arch: Variant) -> Option<Variant> {
    match bpw_of(t.quant) {
        Some(bpw) => Some(
            Variant {
                quant: t.quant,
                bpw,
                file_size_bytes: if t.quant == arch.quant {
                    arch.file_size_bytes
                } else {
                    None
                },
                runtime_compat: seq![RuntimeKind::Ollama],
                source_tag: Some(t.tag),
                ..arch
            },
        ),
        None => None,
    }
}

/// The variants that the tags stand for, in order.
pub open spec fn tagged_variants(tags: Seq<Tag>, arch: Variant) -> Seq<Variant>
    decreases tags.len(),
{
    if tags.len() == 0 {
        Seq::empty()
    } else {
        let before = tagged_variants(tags.drop_last(), arch);
        match tagged_variant(tags.last(), arch) {
            Some(v) => before.push(v),
            None => before,
        }
    }
}

/// The model with one variant per tag. It stays as it is without tags,
/// without a variant to take the shape from, and where no tag gives a variant.
pub open spec fn enriched(m: Model, tags: Seq<Tag>) -> Model {
    if tags.len() == 0 || m.variants.len() == 0 {
        m
    } else {
        let variants = tagged_variants(tags, m.variants[0]);
        if variants.len() == 0 {
            m
        } else {
            Model { variants, ..m }
        }
    }
}

proof fn lemma_tagged_variants(tags: Seq<Tag>, arch: Variant, k: int)
    requires
        0 <= k < tagged_variants(tags, arch).len(),
    ensures
        exists|i: int|
            0 <= i < tags.len() && tagged_variant(#[trigger] tags[i], arch) == Some(
                tagged_variants(tags, arch)[k],
            ),
    decreases tags.len(),
{
    let before = tagged_variants(tags.drop_last(), arch);
    if k < before.len() {
        lemma_tagged_variants(tags.drop_last(), arch, k);
        let i = choose|i: int|
            0 <= i < tags.drop_last().len() && tagged_variant(#[trigger] tags.drop_last()[i], arch)
                == Some(before[k]);
        assert(tags[i] == tags.drop_last()[i]);
    } else {
        assert(tags.last() == tags[tags.len() - 1]);
    }
}

/// Tags change nothing of a model but its variants, which are as many at least
/// as one; each variant is a listed tag with the bits per weight of its
/// quantization, runs with Ollama, and has the shape that the model had.
pub proof fn tags_change_the_variants_only(m: Model, tags: Seq<Tag>, k: int)
    requires
        0 <= k < enriched(m, tags).variants.len(),
        enriched(m, tags) != m,
    ensures
        enriched(m, tags) == (Model { variants: enriched(m, tags).variants, ..m }),
        ({
            let v = enriched(m, tags).variants[k];
            let arch = m.variants[0];
            &&& exists|i: int|
                0 <= i < tags.len() && (#[trigger] tags[i]).quant == v.quant && Some(tags[i].tag)
                    == v.source_tag
            &&& bpw_of(v.quant) == Some(v.bpw)
            &&& v.layers == arch.layers && v.kv_heads == arch.kv_heads
            &&& v.head_dim == arch.head_dim && v.embedding_dim == arch.embedding_dim
            &&& v.runtime_compat == seq![RuntimeKind::Ollama]
            &&& v.file_size_bytes is Some ==> v.quant == arch.quant && v.file_size_bytes
                == arch.file_size_bytes
        }),
{
    lemma_tagged_variants(tags, m.variants[0], k);
    let v = enriched(m, tags).variants[k];
    let i = choose|i: int|
        0 <= i < tags.len() && tagged_variant(#[trigger] tags[i], m.variants[0]) == Some(v);
    assert(tags[i].quant == v.quant);
}

/// Replaces the model's variants by one per tag.
pub fn enrich_with_tags(model: &mut CatalogModel, tags: &[OllamaTag])
    ensures
        final(model)@ == enriched(old(model)@, Seq::new(tags@.len(), |i: int| tags@[i]@)),
{
    let ghost all = Seq::new(tags@.len(), |i: int| tags@[i]@);
    if tags.len() == 0 || model.variants.len() == 0 {
        return;
    }
    let arch = model.variants[0].clone();
    assert(arch@ == model@.variants[0]);
    let mut variants: Vec<CatalogVariant> = Vec::new();
    assert(variants.deep_view() =~= Seq::<Variant>::empty());
    for i in 0..tags.len()
        invariant
            all == Seq::new(tags@.len(), |i: int| tags@[i]@),
            variants.deep_view() == tagged_variants(all.take(i as int), arch@),
    {
        assert(all.take(i as int + 1).drop_last() =~= all.take(i as int));
        assert(all.take(i as int + 1).last() == tags@[i as int]@);
        let t = &tags[i];
        if let Some(bpw) = quant_bpw(t.quant.as_str()) {
            let ghost before = variants.deep_view();
            let file_size_bytes: Option<u64> = if same(t.quant.as_str(), arch.quant.as_str()) {
                arch.file_size_bytes
            } else {
                None
            };
            let v = CatalogVariant {
                quant: t.quant.clone(),
                bpw,
                file_size_bytes,
                layers: arch.layers,
                kv_heads: arch.kv_heads,
                head_dim: arch.head_dim,
                embedding_dim: arch.embedding_dim,
                runtime_compat: vec![RuntimeKind::Ollama],
                source_tag: Some(t.tag.clone()),
            };
            assert(v@.runtime_compat =~= seq![RuntimeKind::Ollama]);
            let ghost w = v@;
            variants.push(v);
            assert(variants.deep_view() =~= before.push(w));
        }
    }
    assert(all.take(all.len() as int) =~= all);
    assert(variants.deep_view().len() == variants@.len());
    if variants.len() > 0 {
        model.variants = variants;
    }
}

// ---------------------------------------------------------------------------
// Discovering models
// ---------------------------------------------------------------------------

/// Bytes of a model file that a probe fetches.
pub const BLOB_PROBE_BYTES: u64 = 262_144;

/// What a request for a manifest has to accept.
pub const MANIFEST_ACCEPT: &'static str = "application/vnd.docker.distribution.manifest.v2+json";

/// The library's index, by popularity.
pub const LIBRARY_URL: &'static str = "https://ollama.com/library";

/// The library's index, newest first.
pub const NEWEST_URL: &'static str = "https://ollama.com/library?sort=newest";

/// The tags page of a model.
pub fn tags_url(base: &str) -> (r: String)
    ensures
        r@ == "https://ollama.com/library/"@ + base@ + "/tags"@,
{
    joined3("https://ollama.com/library/", base, "/tags")
}

/// The manifest of a tag.
pub fn manifest_url(base: &str, tag: &str) -> (r: String)
    ensures
        r@ == "https://registry.ollama.ai/v2/library/"@ + base@ + "/manifests/"@ + tag@,
{
    let mut s = joined3("https://registry.ollama.ai/v2/library/", base, "/manifests/");
    s.append(tag);
    s
}

/// A file of a model.
pub fn blob_url(name: &str, digest: &str) -> (r: String)
    ensures
        r@ == "https://registry.ollama.ai/v2/library/"@ + name@ + "/blobs/"@ + digest@,
{
    let mut s = joined3("https://registry.ollama.ai/v2/library/", name, "/blobs/");
    s.append(digest);
    s
}

/// The model names of the library: those of the page by popularity with those
/// of the page of the newest, which may have failed to load.
pub fn library_index(popular_page: &str, newest_page: Option<&str>, newest_reserve: usize) -> (r:
    Vec<String>)
    ensures
        r.deep_view() == merged(
            distinct(names_after(popular_page@, "href=\"/library/"@, 0)),
            match newest_page {
                Some(page) => distinct(names_after(page@, "href=\"/library/"@, 0)),
                None => Seq::empty(),
            },
            newest_reserve as nat,
        ),
{
    let popularity = parse_library_names(popular_page);
    let newest = match newest_page {
        Some(page) => parse_library_names(page),
        None => {
            let none: Vec<String> = Vec::new();
            assert(none.deep_view() =~= Seq::<Seq<char>>::empty());
            none
        },
    };
    merge_library_names(popularity, newest, newest_reserve)
}

/// The first layer, from `k` on, that is the model's weights and has a digest:
/// its digest and its size.
pub open spec fn weights_layer(layers: Seq<Tree>, k: int) -> Option<(Seq<char>, u64)>
    decreases layers.len() - k,
{
    if k < 0 || k >= layers.len() {
        None
    } else {
        let kind = text_in(member(layers[k], "mediaType"@));
        let digest = text_in(member(layers[k], "digest"@));
        if kind is Some && contains(kind->Some_0, "model"@) && digest is Some {
            Some(
                (
                    digest->Some_0,
                    match unsigned_in(member(layers[k], "size"@)) {
                        Some(n) => n,
                        None => 0,
                    },
                ),
            )
        } else {
            weights_layer(layers, k + 1)
        }
    }
}

/// The weights of a manifest are a layer that says it is a model, with its
/// digest and its size; none that says so and has a digest goes before it.
pub proof fn weights_are_a_model_layer(layers: Seq<Tree>, k: int)
    requires
        0 <= k,
    ensures
        weights_layer(layers, k) matches Some((digest, size)) ==> exists|i: int|
            k <= i < layers.len() && text_in(member(#[trigger] layers[i], "digest"@)) == Some(
                digest,
            ) && text_in(member(layers[i], "mediaType"@)) is Some && contains(
                text_in(member(layers[i], "mediaType"@))->Some_0,
                "model"@,
            ) && (unsigned_in(member(layers[i], "size"@)) matches Some(n) ==> size == n),
        weights_layer(layers, k) is None ==> forall|i: int|
            k <= i < layers.len() ==> text_in(member(#[trigger] layers[i], "digest"@)) is None
                || text_in(member(layers[i], "mediaType"@)) is None || !contains(
                text_in(member(layers[i], "mediaType"@))->Some_0,
                "model"@,
            ),
    decreases layers.len() - k,
{
    if k < layers.len() {
        weights_are_a_model_layer(layers, k + 1);
        assert(layers[k] == layers[k]);
    }
}

/// The digest and the size of the weights that a manifest lists.
pub fn manifest_model_blob(manifest: &serde_json::Value, base: &str, tag: &str) -> (r: Result<
    (String, u64),
    PaddockError,
>)
    ensures
        match weights_layer(items_in(member(tree(*manifest), "layers"@)), 0) {
            Some((digest, size)) => r is Ok && r->Ok_0.0@ == digest && r->Ok_0.1 == size,
            None => r is Err && r->Err_0@ == Failure::Network(
                base@ + ":"@ + tag@ + ": manifest has no model layer"@,
            ),
        },
{
    let layers_value = get(manifest, "layers");
    let ghost layers = items_in(tree(*layers_value));
    if let Some(list) = as_array(layers_value) {
        let mut k: usize = 0;
        assert(layers.len() == list@.len());
        while k < list.len()
            invariant
                k <= list@.len(),
                layers == crate::json::trees(list@),
                layers == items_in(member(tree(*manifest), "layers"@)),
                weights_layer(layers, 0) == weights_layer(layers, k as int),
            decreases list@.len() - k,
        {
            let layer = &list[k];
            assert(layers[k as int] == tree(*layer));
            let weights = match as_str(get(layer, "mediaType")) {
                Some(kind) => contains_chars(&chars_of(kind), &chars_of("model")),
                None => false,
            };
            if weights {
                if let Some(digest) = as_str(get(layer, "digest")) {
                    let size: u64 = match as_u64(get(layer, "size")) {
                        Some(n) => n,
                        None => 0,
                    };
                    return Ok((digest.to_owned(), size));
                }
            }
            k = k + 1;
        }
    }
    let mut m = joined3(base, ":", tag);
    m.append(": manifest has no model layer");
    Err(PaddockError::Network(m))
}

/// The parameter count of a size token: a decimal number of billions (`8b`,
/// `1.2b`) or millions (`350m`), above zero.
pub open spec fn size_params(size: Seq<char>) -> Option<u64> {
    if size.len() == 0 || (size.last() != 'b' && size.last() != 'm') {
        None
    } else {
        match float_of(size.drop_last()) {
            Some(v) => if v.0 == 0 || v == infinity() {
                None
            } else if size.last() == 'b' {
                Some(saturated(whole_part(product(v, nearest(1_000_000_000, 1)))))
            } else {
                Some(saturated(whole_part(product(v, nearest(1_000_000, 1)))))
            },
            None => None,
        }
    }
}

/// A size in `b` is so many billions of parameters, one in `m` so many millions,
/// without what stands behind the point: but for four parts in 2^53.
pub proof fn sizes_are_billions_and_millions(size: Seq<char>)
    ensures
        size_params(size) matches Some(p) ==> {
            &&& size.len() > 0
            &&& size.last() == 'b' || size.last() == 'm'
            &&& float_of(size.drop_last()) is Some
            &&& {
                let v = float_of(size.drop_last())->Some_0;
                let unit = if size.last() == 'b' {
                    1_000_000_000nat
                } else {
                    1_000_000nat
                };
                &&& PARTS * (p * below_line(v)) <= (PARTS + 4) * (above_line(v) * unit)
                &&& p < u64::MAX ==> (PARTS - 4) * (above_line(v) * unit) < PARTS * ((p + 1)
                    * below_line(v))
            }
        },
{
    if size.len() > 0 && float_of(size.drop_last()) is Some {
        let v = float_of(size.drop_last())->Some_0;
        whole_multiple_is_close(v, 1_000_000_000);
        whole_multiple_is_close(v, 1_000_000);
        saturated_is_no_more(
            whole_part(product(v, nearest(1_000_000_000, 1))),
            below_line(v),
            (PARTS + 4) * (above_line(v) * 1_000_000_000),
        );
        saturated_is_no_more(
            whole_part(product(v, nearest(1_000_000, 1))),
            below_line(v),
            (PARTS + 4) * (above_line(v) * 1_000_000),
        );
    }
}

/// The parameter count of a library size token.
pub fn params_from_size_token(size: &str) -> (r: Option<u64>)
    ensures
        r == size_params(size@),
{
    let cs = chars_of(size);
    let n: usize = cs.len();
    if n == 0 || (cs[n - 1] != 'b' && cs[n - 1] != 'm') {
        return None;
    }
    let number = part(&cs, 0, n - 1);
    assert(number@ =~= cs@.drop_last());
    let v = match read_float(&number) {
        Some(v) => v,
        None => {
            return None;
        },
    };
    if v.mantissa == 0 || (v.mantissa == LEAST && v.exponent == 4_000) {
        return None;
    }
    let scale: u64 = if cs[n - 1] == 'b' {
        1_000_000_000
    } else {
        1_000_000
    };
    Some(v.times(Double::of_ratio(scale, 1)).to_u64())
}

/// The tags that run on this machine: none of those that end in `-cloud`.
pub open spec fn local_tags(tags: Seq<Seq<char>>) -> Seq<Seq<char>>
    decreases tags.len(),
{
    if tags.len() == 0 {
        Seq::empty()
    } else {
        let before = local_tags(tags.drop_last());
        if "-cloud"@.is_suffix_of(tags.last()) {
            before
        } else {
            before.push(tags.last())
        }
    }
}

/// What goes before the first `-` of a tag.
pub open spec fn first_segment(tag: Seq<char>) -> Seq<char> {
    match tag.index_of_first('-') {
        Some(i) => tag.take(i),
        None => tag,
    }
}

pub open spec fn has_digit(s: Seq<char>) -> bool {
    exists|i: int| 0 <= i < s.len() && '0' <= #[trigger] s[i] && s[i] <= '9'
}

/// The first size that the tags name, from `k` on: a first segment with a
/// digit in it, of a tag other than `latest`.
pub open spec fn first_size(tags: Seq<Seq<char>>, k: int) -> Option<Seq<char>>
    decreases tags.len() - k,
{
    if k < 0 || k >= tags.len() {
        None
    } else if tags[k] != "latest"@ && has_digit(first_segment(tags[k])) {
        Some(first_segment(tags[k]))
    } else {
        first_size(tags, k + 1)
    }
}

/// The size chosen is the first part of a tag, holds a digit, and comes from no
/// later tag than any that has such a part.
pub proof fn size_comes_from_the_first_tag(tags: Seq<Seq<char>>, k: int, j: int)
    requires
        0 <= k <= j < tags.len(),
        tags[j] != "latest"@,
        has_digit(first_segment(tags[j])),
    ensures
        first_size(tags, k) matches Some(size) && has_digit(size) && exists|i: int|
            k <= i <= j && #[trigger] tags[i] != "latest"@ && first_segment(tags[i]) == size,
    decreases j - k,
{
    if tags[k] != "latest"@ && has_digit(first_segment(tags[k])) {
    } else {
        size_comes_from_the_first_tag(tags, k + 1, j);
        let size = first_size(tags, k + 1)->Some_0;
        let i = choose|i: int|
            k + 1 <= i <= j && #[trigger] tags[i] != "latest"@ && first_segment(tags[i]) == size;
        assert(tags[i] != "latest"@);
    }
}

/// The first part of a tag holds no dash and stands at its beginning.
pub proof fn first_part_holds_no_dash(tag: Seq<char>)
    ensures
        !first_segment(tag).contains('-'),
        first_segment(tag).is_prefix_of(tag),
{
    tag.index_of_first_ensures('-');
    if let Some(i) = tag.index_of_first('-') {
        if tag.take(i).contains('-') {
            let k = choose|k: int| 0 <= k < tag.take(i).len() && tag.take(i)[k] == '-';
            assert(tag[k] == '-');
        }
    }
}

/// What the tags page of a model says: the size to look at and the tags to
/// choose from. The first of these is the one to probe.
pub open spec fn page_choice(html: Seq<char>, name: Seq<char>) -> Option<(Seq<char>, Seq<Tag>)> {
    let tags = local_tags(distinct(names_after(html, tag_mark(name), 0)));
    match first_size(tags, 0) {
        None => None,
        Some(size) => {
            let chosen = selected(tags, size, "Q4_K_M"@);
            if chosen.len() == 0 {
                None
            } else {
                Some((size, chosen))
            }
        },
    }
}

proof fn lemma_local(tags: Seq<Seq<char>>, tag: Seq<char>)
    requires
        local_tags(tags).contains(tag),
    ensures
        !"-cloud"@.is_suffix_of(tag),
        tags.contains(tag),
    decreases tags.len(),
{
    if tags.len() > 0 {
        let before = local_tags(tags.drop_last());
        let all = local_tags(tags);
        let k = choose|k: int| 0 <= k < all.len() && all[k] == tag;
        if k < before.len() {
            assert(before[k] == tag);
            lemma_local(tags.drop_last(), tag);
            let i = choose|i: int| 0 <= i < tags.drop_last().len() && tags.drop_last()[i] == tag;
            assert(tags[i] == tag);
        } else {
            assert(tags[tags.len() - 1] == tag);
        }
    }
}

/// What does not run on this machine is never chosen: no tag of a discovered
/// model is a cloud build, and each is listed on the page.
pub proof fn cloud_builds_are_never_chosen(html: Seq<char>, name: Seq<char>, i: int)
    requires
        page_choice(html, name) matches Some(c) && 0 <= i < c.1.len(),
    ensures
        ({
            let tag = page_choice(html, name)->Some_0.1[i].tag;
            &&& !"-cloud"@.is_suffix_of(tag)
            &&& distinct(names_after(html, tag_mark(name), 0)).contains(tag)
        }),
{
    let listed = distinct(names_after(html, tag_mark(name), 0));
    let tags = local_tags(listed);
    let (size, chosen) = page_choice(html, name)->Some_0;
    best_tag_per_quant(tags, size, "Q4_K_M"@);
    assert(chosen[i].tag == candidates(tags, size, "Q4_K_M"@)[i].tag);
    lemma_local(listed, chosen[i].tag);
}

/// What a model's tags page tells before the model is probed.
#[derive(Debug)]
pub struct Discovery {
    pub size: String,
    /// At least one; the first is probed.
    pub selected: Vec<OllamaTag>,
    pub released_at: Option<i64>,
}

fn digit_in(s: &[char]) -> (r: bool)
    ensures
        r == has_digit(s@),
{
    for i in 0..s.len()
        invariant
            forall|j: int| 0 <= j < i ==> !('0' <= #[trigger] s@[j] && s@[j] <= '9'),
    {
        if '0' <= s[i] && s[i] <= '9' {
            assert('0' <= s@[i as int] && s@[i as int] <= '9');
            return true;
        }
    }
    false
}

fn without_cloud(tags: &Vec<String>) -> (r: Vec<String>)
    ensures
        r.deep_view() == local_tags(tags.deep_view()),
{
    let mut out: Vec<String> = Vec::new();
    let ghost all = tags.deep_view();
    assert(out.deep_view() =~= Seq::<Seq<char>>::empty());
    for i in 0..tags.len()
        invariant
            all == tags.deep_view(),
            out.deep_view() == local_tags(all.take(i as int)),
    {
        assert(all.take(i as int + 1).drop_last() =~= all.take(i as int));
        assert(all.take(i as int + 1).last() == tags@[i as int]@);
        let ghost before = out.deep_view();
        if !crate::text::ends_with(&chars_of(tags[i].as_str()), &chars_of("-cloud")) {
            out.push(tags[i].clone());
            assert(out.deep_view() =~= before.push(tags@[i as int]@));
        }
    }
    assert(all.take(all.len() as int) =~= all);
    out
}

fn find_size(tags: &Vec<String>) -> (r: Option<String>)
    ensures
        r.deep_view() == first_size(tags.deep_view(), 0),
{
    let mut k: usize = 0;
    while k < tags.len()
        invariant
            k <= tags@.len(),
            first_size(tags.deep_view(), 0) == first_size(tags.deep_view(), k as int),
        decreases tags@.len() - k,
    {
        assert(tags.deep_view()[k as int] == tags@[k as int]@);
        let cs = chars_of(tags[k].as_str());
        let first = match crate::text::find_char(&cs, '-') {
            Some(i) => {
                assert(cs@.subrange(0, i as int) =~= cs@.take(i as int));
                part(&cs, 0, i)
            },
            None => {
                assert(cs@.subrange(0, cs@.len() as int) =~= cs@);
                part(&cs, 0, cs.len())
            },
        };
        if !same(tags[k].as_str(), "latest") && digit_in(&first) {
            return Some(string_of(&first));
        }
        k = k + 1;
    }
    None
}

pub open spec fn widened(t: Option<i64>) -> Option<int> {
    match t {
        Some(t) => Some(t as int),
        None => None,
    }
}

/// Reads the tags page of the model `name`. `None` if nothing on it runs on
/// this machine.
pub fn read_tags_page(html: &str, name: &str, now: i64) -> (r: Option<Discovery>)
    ensures
        match r {
            Some(d) => {
                &&& page_choice(html@, name@) == Some((d.size@, d.selected.deep_view()))
                &&& d.selected@.len() > 0
                &&& is_oldest_age(html@, now as int, widened(d.released_at))
            },
            None => page_choice(html@, name@) is None,
        },
{
    let tags = without_cloud(&extract_tag_names(html, name));
    let size = match find_size(&tags) {
        Some(s) => s,
        None => {
            return None;
        },
    };
    let chosen = select_variant_tags(tags.as_slice(), size.as_str(), "Q4_K_M");
    assert(Seq::new(tags@.len(), |i: int| tags@[i]@) =~= tags.deep_view());
    assert(chosen.deep_view().len() == chosen@.len());
    if chosen.len() == 0 {
        return None;
    }
    Some(Discovery { size, selected: chosen, released_at: oldest_relative_date(html, now) })
}

/// The low 32 bits of a number.
pub open spec fn low32(n: u64) -> u32 {
    (n % 0x1_0000_0000) as u32
}

fn low_bits(n: u64) -> (r: u32)
    ensures
        r == low32(n),
{
    (n % 0x1_0000_0000) as u32
}

/// The low 32 bits of a number, zero if there is none.
pub open spec fn low32_or_zero(n: Option<u64>) -> u32 {
    match n {
        Some(n) => low32(n),
        None => 0,
    }
}

pub(crate) fn low_bits_or_zero(n: Option<u64>) -> (r: u32)
    ensures
        r == low32_or_zero(n),
{
    match n {
        Some(n) => low_bits(n),
        None => 0,
    }
}

/// The width of one attention head that a header gives.
pub open spec fn meta_head_dim(m: Meta) -> Option<u64> {
    match (m.embedding_length, m.head_count) {
        (Some(e), Some(h)) if h > 0 => Some((e / h) as u64),
        _ => None,
    }
}

/// The number of key/value heads that a header gives: all heads if it does not
/// tell them apart.
pub open spec fn meta_kv_heads(m: Meta) -> Option<u64> {
    match m.head_count_kv {
        Some(n) => Some(n),
        None => m.head_count,
    }
}

/// Parameters of a model: what its header says, else what the size of its
/// file and the bits per weight give, else what its size token says.
pub open spec fn discovered_params(m: Meta, blob_size: u64, quant: Seq<char>, size: Seq<char>) -> Option<
    u64,
> {
    match m.parameter_count {
        Some(p) if p > 0 => Some(p),
        _ => match bpw_of(quant) {
            Some(bpw) if blob_size > 0 => Some(
                saturated(
                    whole_part(
                        quotient(
                            product(nearest(blob_size as nat, 1), nearest(8, 1)),
                            bits_of(bpw),
                        ),
                    ),
                ),
            ),
            _ => size_params(size),
        },
    }
}

/// Parameters active per token: the share of the experts in use, roughly.
pub open spec fn discovered_active(m: Meta, total: u64) -> u64 {
    match (m.expert_count, m.expert_used_count) {
        (Some(experts), Some(used)) if 0 < used && used < experts => saturated(
            whole_part(
                quotient(
                    product(nearest(total as nat, 1), nearest(used as nat, 1)),
                    nearest(experts as nat, 1),
                ),
            ),
        ),
        _ => total,
    }
}

/// Parameters that a header does not count are those whose bits fill the file:
/// their number times the bits per weight, over eight, is the size of the file,
/// less one parameter and but for ten parts in 2^53. What a header counts goes
/// before.
pub proof fn counted_parameters_fill_the_file(
    m: Meta,
    blob_size: u64,
    quant: Seq<char>,
    size: Seq<char>,
)
    ensures
        m.parameter_count matches Some(p) ==> p > 0 ==> discovered_params(
            m,
            blob_size,
            quant,
            size,
        ) == Some(p),
        (m.parameter_count is None || m.parameter_count == Some(0u64)) && blob_size > 0 && bpw_of(
            quant,
        ) is Some ==> discovered_params(m, blob_size, quant, size) is Some && {
            let p = discovered_params(m, blob_size, quant, size)->Some_0;
            &&& PARTS * (p * bpw_of(quant)->Some_0) <= (PARTS + 10) * (blob_size * 8 * BIT)
            &&& p < u64::MAX ==> (PARTS - 10) * (blob_size * 8 * BIT) < PARTS * ((p + 1) * bpw_of(
                quant,
            )->Some_0)
        },
        (m.parameter_count is None || m.parameter_count == Some(0u64)) && (blob_size == 0 || bpw_of(
            quant,
        ) is None) ==> discovered_params(m, blob_size, quant, size) == size_params(size),
{
    if blob_size > 0 && bpw_of(quant) is Some {
        let bpw = bpw_of(quant)->Some_0;
        lemma_bpw_positive(quant);
        let (n, w) = (blob_size as nat, bpw as nat);
        nearest_is_close(n, 1);
        nearest_is_close(8, 1);
        nearest_is_close(w, BIT as nat);
        let x = product(nearest(n, 1), nearest(8, 1));
        product_is_close(nearest(n, 1), nearest(8, 1), n, 1, 8, 1, 1, 1);
        quotient_is_close(x, bits_of(bpw), n * 8, 1 * 1, w, BIT as nat, 5, 1);
        whole_part_of_close(quotient(x, bits_of(bpw)), n * 8 * BIT as nat, 1 * 1 * w, 10);
        saturated_is_no_more(
            whole_part(quotient(x, bits_of(bpw))),
            w,
            (PARTS + 10) * (n * 8 * BIT as nat),
        );
    }
}

/// Of a mixture of experts as large a share of the parameters is active as of
/// the experts is used: without what stands behind the point, and but for ten
/// parts in 2^53. Elsewhere all are.
pub proof fn active_share_is_that_of_the_experts(m: Meta, total: u64)
    ensures
        m.expert_count is None || m.expert_used_count is None ==> discovered_active(m, total)
            == total,
        m.expert_count matches Some(experts) ==> m.expert_used_count matches Some(used) ==> {
            let active = discovered_active(m, total);
            &&& used == 0 || used >= experts ==> active == total
            &&& 0 < used && used < experts ==> {
                &&& PARTS * (active * experts) <= (PARTS + 10) * (total * used)
                &&& active < u64::MAX ==> (PARTS - 10) * (total * used) < PARTS * ((active + 1)
                    * experts)
            }
        },
{
    if let (Some(experts), Some(used)) = (m.expert_count, m.expert_used_count) {
        if 0 < used && used < experts {
            let (n, u, e) = (total as nat, used as nat, experts as nat);
            nearest_is_close(u, 1);
            nearest_is_close(e, 1);
            let x = product(nearest(n, 1), nearest(u, 1));
            if n > 0 {
                nearest_is_close(n, 1);
                product_is_close(nearest(n, 1), nearest(u, 1), n, 1, u, 1, 1, 1);
                quotient_is_close(x, nearest(e, 1), n * u, 1 * 1, e, 1, 5, 1);
                whole_part_of_close(quotient(x, nearest(e, 1)), n * u * 1, 1 * 1 * e, 10);
                saturated_is_no_more(
                    whole_part(quotient(x, nearest(e, 1))),
                    e,
                    (PARTS + 10) * (n * u * 1),
                );
            } else {
                assert(0 * nearest(u, 1).0 == 0);
                assert(x == (0nat, 0int));
                assert(quotient(x, nearest(e, 1)) == (0nat, 0int));
                assert(0 * u == 0);
                assert(0 * e == 0 && (0 + 1) * e == e) by (nonlinear_arith);
            }
        }
    }
}

/// Embedding and vision models, which generate no text.
pub open spec fn is_skipped_arch(arch: Option<Seq<char>>) -> bool {
    arch == Some("bert"@) || arch == Some("nomic-bert"@) || arch == Some("clip"@)
}

/// The variant that a tag stands for, with the shape that the header gives.
/// The file size is known for the probed tag only.
pub open spec fn probed_variant(t: Tag, probe: Tag, m: Meta, blob_size: u64) -> Option<Variant> {
    match bpw_of(t.quant) {
        Some(bpw) => Some(
            Variant {
                quant: t.quant,
                bpw,
                file_size_bytes: if t.tag == probe.tag && blob_size > 0 {
                    Some(blob_size)
                } else {
                    None
                },
                layers: low32_or_zero(m.block_count),
                kv_heads: low32_or_zero(meta_kv_heads(m)),
                head_dim: low32_or_zero(meta_head_dim(m)),
                embedding_dim: low32_or_zero(m.embedding_length),
                runtime_compat: seq![RuntimeKind::Ollama],
                source_tag: Some(t.tag),
            },
        ),
        None => None,
    }
}

pub open spec fn probed_variants(tags: Seq<Tag>, probe: Tag, m: Meta, blob_size: u64) -> Seq<
    Variant,
>
    decreases tags.len(),
{
    if tags.len() == 0 {
        Seq::empty()
    } else {
        let before = probed_variants(tags.drop_last(), probe, m, blob_size);
        match probed_variant(tags.last(), probe, m, blob_size) {
            Some(v) => before.push(v),
            None => before,
        }
    }
}

/// The catalog model that the page of `name`, the weights' size and the header
/// of the weights give. `None` for models that generate no text, for headers
/// without the shape of the attention, and where the parameters stay unknown.
pub open spec fn discovered(
    name: Seq<char>,
    size: Seq<char>,
    tags: Seq<Tag>,
    released_at: Option<i64>,
    blob_size: u64,
    m: Meta,
) -> Option<Model> {
    let params = discovered_params(m, blob_size, tags[0].quant, size);
    let variants = probed_variants(tags, tags[0], m, blob_size);
    if is_skipped_arch(m.architecture) || low32_or_zero(m.block_count) == 0 || low32_or_zero(
        meta_kv_heads(m),
    ) == 0 || low32_or_zero(meta_head_dim(m)) == 0 || low32_or_zero(m.embedding_length) == 0
        || params is None || variants.len() == 0 {
        None
    } else {
        Some(
            Model {
                id: 0,
                name: name + ":"@ + size,
                family: m.architecture,
                source: Source::Ollama,
                repo: None,
                params_total: params->Some_0,
                params_active: discovered_active(m, params->Some_0),
                architecture: m.architecture,
                context_max: if low32_or_zero(m.context_length) == 0 {
                    4096
                } else {
                    low32_or_zero(m.context_length)
                },
                released_at,
                released_approx: released_at is Some,
                variants,
            },
        )
    }
}

proof fn lemma_probed_variants(tags: Seq<Tag>, probe: Tag, m: Meta, blob_size: u64, k: int)
    requires
        0 <= k < probed_variants(tags, probe, m, blob_size).len(),
    ensures
        exists|i: int|
            0 <= i < tags.len() && probed_variant(#[trigger] tags[i], probe, m, blob_size) == Some(
                probed_variants(tags, probe, m, blob_size)[k],
            ),
    decreases tags.len(),
{
    let before = probed_variants(tags.drop_last(), probe, m, blob_size);
    if k < before.len() {
        lemma_probed_variants(tags.drop_last(), probe, m, blob_size, k);
        let i = choose|i: int|
            0 <= i < tags.drop_last().len() && probed_variant(
                #[trigger] tags.drop_last()[i],
                probe,
                m,
                blob_size,
            ) == Some(before[k]);
        assert(tags[i] == tags.drop_last()[i]);
    } else {
        assert(tags.last() == tags[tags.len() - 1]);
    }
}

/// Models that embed texts or read images are not offered.
pub proof fn embedding_models_are_not_offered(
    name: Seq<char>,
    size: Seq<char>,
    tags: Seq<Tag>,
    released_at: Option<i64>,
    blob_size: u64,
    m: Meta,
)
    requires
        m.architecture == Some("bert"@) || m.architecture == Some("nomic-bert"@) || m.architecture
            == Some("clip"@),
    ensures
        discovered(name, size, tags, released_at, blob_size, m) is None,
{
}

/// Each variant of a discovered model is a listed tag, with the bits per weight
/// of its quantization and the shape that the header tells: a cache and a width
/// of heads that are something, whose product with the number of heads is the
/// width of the model, but for less than the number of heads.
pub proof fn discovered_variants_are_tags(
    name: Seq<char>,
    size: Seq<char>,
    tags: Seq<Tag>,
    released_at: Option<i64>,
    blob_size: u64,
    m: Meta,
    k: int,
)
    requires
        discovered(name, size, tags, released_at, blob_size, m) matches Some(c) && 0 <= k
            < c.variants.len(),
    ensures
        ({
            let c = discovered(name, size, tags, released_at, blob_size, m)->Some_0;
            let v = c.variants[k];
            &&& exists|i: int|
                0 <= i < tags.len() && (#[trigger] tags[i]).quant == v.quant && Some(tags[i].tag)
                    == v.source_tag
            &&& bpw_of(v.quant) == Some(v.bpw)
            &&& v.layers > 0 && v.kv_heads > 0 && v.head_dim > 0
            &&& v.file_size_bytes matches Some(n) ==> n == blob_size
            &&& m.block_count->Some_0 <= u32::MAX ==> v.layers == m.block_count->Some_0
            &&& m.head_count_kv is None && m.head_count->Some_0 <= u32::MAX ==> v.kv_heads
                == m.head_count->Some_0
            &&& m.head_count_kv is Some && m.head_count_kv->Some_0 <= u32::MAX ==> v.kv_heads
                == m.head_count_kv->Some_0
            &&& m.embedding_length->Some_0 <= u32::MAX ==> v.embedding_dim
                == m.embedding_length->Some_0 && v.head_dim * m.head_count->Some_0
                <= v.embedding_dim < (v.head_dim + 1) * m.head_count->Some_0
            &&& m.context_length is Some && 0 < m.context_length->Some_0 <= u32::MAX
                ==> c.context_max == m.context_length->Some_0
            &&& c.context_max > 0
            &&& c.released_at == released_at
            &&& c.params_active == discovered_active(m, c.params_total)
        }),
{
    lemma_probed_variants(tags, tags[0], m, blob_size, k);
    let v = probed_variants(tags, tags[0], m, blob_size)[k];
    let i = choose|i: int|
        0 <= i < tags.len() && probed_variant(#[trigger] tags[i], tags[0], m, blob_size) == Some(v);
    assert(tags[i].quant == v.quant);
    if m.embedding_length->Some_0 <= u32::MAX {
        let (e, h) = (m.embedding_length->Some_0 as int, m.head_count->Some_0 as int);
        let (d, r) = (e / h, e % h);
        vstd::arithmetic::div_mod::lemma_fundamental_div_mod(e, h);
        assert(d * h <= e && e < (d + 1) * h) by (nonlinear_arith)
            requires
                e == h * d + r,
                0 <= r,
                r < h,
        ;
        assert(d <= e) by (nonlinear_arith)
            requires
                d * h <= e,
                h >= 1,
                d >= 0,
        ;
    }
}

fn params_of(m: &GgufMeta, blob_size: u64, quant: &str, size: &str) -> (r: Option<u64>)
    ensures
        r == discovered_params(m@, blob_size, quant@, size@),
{
    if let Some(p) = m.parameter_count {
        if p > 0 {
            return Some(p);
        }
    }
    if let Some(bpw) = quant_bpw(quant) {
        if blob_size > 0 {
            proof {
                lemma_bpw_positive(quant@);
            }
            let bits = Double::of_ratio(blob_size, 1).times(Double::of_ratio(8, 1));
            return Some(bits.over(bits_number(bpw)).to_u64());
        }
    }
    params_from_size_token(size)
}

/// Every known quantization has bits.
pub proof fn lemma_bpw_positive(q: Seq<char>)
    ensures
        bpw_of(q) matches Some(b) ==> 33_500_000_000_000_000 <= b <= 160_000_000_000_000_000,
    decreases q.len(),
{
    if q.len() >= 3 && q.take(3) == "UD-"@ {
        lemma_bpw_positive(q.skip(3));
    }
}

fn active_of(m: &GgufMeta, total: u64) -> (r: u64)
    ensures
        r == discovered_active(m@, total),
{
    if let (Some(experts), Some(used)) = (m.expert_count, m.expert_used_count) {
        if used > 0 && used < experts {
            let share = Double::of_ratio(total, 1).times(Double::of_ratio(used, 1));
            return share.over(Double::of_ratio(experts, 1)).to_u64();
        }
    }
    total
}

fn skipped_arch(arch: &Option<String>) -> (r: bool)
    ensures
        r == is_skipped_arch(arch.deep_view()),
{
    match arch {
        Some(a) => same(a.as_str(), "bert") || same(a.as_str(), "nomic-bert") || same(
            a.as_str(),
            "clip",
        ),
        None => false,
    }
}

/// Builds the model that a tags page, the size of the weights and the header
/// of the weights tell of.
pub fn discovered_model(name: &str, d: &Discovery, blob_size: u64, meta: &GgufMeta) -> (r: Option<
    CatalogModel,
>)
    requires
        d.selected@.len() > 0,
    ensures
        r.deep_view() == discovered(
            name@,
            d.size@,
            d.selected.deep_view(),
            d.released_at,
            blob_size,
            meta@,
        ),
{
    let ghost tags = d.selected.deep_view();
    let probe = &d.selected[0];
    assert(tags[0] == probe@);
    let layers: u32 = low_bits_or_zero(meta.block_count);
    let kv: Option<u64> = match meta.head_count_kv {
        Some(n) => Some(n),
        None => meta.head_count,
    };
    let kv_heads: u32 = low_bits_or_zero(kv);
    let head_dim: u32 = low_bits_or_zero(meta.head_dim());
    let embedding_dim: u32 = low_bits_or_zero(meta.embedding_length);
    if skipped_arch(&meta.architecture) || layers == 0 || kv_heads == 0 || head_dim == 0
        || embedding_dim == 0 {
        return None;
    }
    let params_total: u64 = match params_of(
        meta,
        blob_size,
        probe.quant.as_str(),
        d.size.as_str(),
    ) {
        Some(p) => p,
        None => {
            return None;
        },
    };
    let mut variants: Vec<CatalogVariant> = Vec::new();
    assert(variants.deep_view() =~= Seq::<Variant>::empty());
    for i in 0..d.selected.len()
        invariant
            tags == d.selected.deep_view(),
            layers == low32_or_zero(meta@.block_count),
            kv_heads == low32_or_zero(meta_kv_heads(meta@)),
            head_dim == low32_or_zero(meta_head_dim(meta@)),
            embedding_dim == low32_or_zero(meta@.embedding_length),
            variants.deep_view() == probed_variants(
                tags.take(i as int),
                probe@,
                meta@,
                blob_size,
            ),
    {
        assert(tags.take(i as int + 1).drop_last() =~= tags.take(i as int));
        assert(tags.take(i as int + 1).last() == d.selected@[i as int]@);
        let t = &d.selected[i];
        if let Some(bpw) = quant_bpw(t.quant.as_str()) {
            let ghost before = variants.deep_view();
            let file_size_bytes: Option<u64> = if same(t.tag.as_str(), probe.tag.as_str())
                && blob_size > 0 {
                Some(blob_size)
            } else {
                None
            };
            let v = CatalogVariant {
                quant: t.quant.clone(),
                bpw,
                file_size_bytes,
                layers,
                kv_heads,
                head_dim,
                embedding_dim,
                runtime_compat: vec![RuntimeKind::Ollama],
                source_tag: Some(t.tag.clone()),
            };
            assert(v@.runtime_compat =~= seq![RuntimeKind::Ollama]);
            let ghost w = v@;
            variants.push(v);
            assert(variants.deep_view() =~= before.push(w));
        }
    }
    assert(tags.take(tags.len() as int) =~= tags);
    assert(variants.deep_view().len() == variants@.len());
    if variants.len() == 0 {
        return None;
    }
    let context: u32 = low_bits_or_zero(meta.context_length);
    Some(
        CatalogModel {
            id: 0,
            name: joined3(name, ":", d.size.as_str()),
            family: clone_text(&meta.architecture),
            source: Source::Ollama,
            repo: None,
            params_total,
            params_active: active_of(meta, params_total),
            architecture: clone_text(&meta.architecture),
            context_max: if context == 0 {
                4096
            } else {
                context
            },
            released_at: d.released_at,
            released_approx: d.released_at.is_some(),
            variants,
        },
    )
}

/// Builds the model from the first bytes of its weights. `None` also where
/// they are no header.
pub fn discover_from_header(name: &str, d: &Discovery, blob_size: u64, bytes: &[u8]) -> (r: Option<
    CatalogModel,
>)
    requires
        d.selected@.len() > 0,
    ensures
        r.deep_view() == match header(bytes@) {
            Ok(m) => discovered(
                name@,
                d.size@,
                d.selected.deep_view(),
                d.released_at,
                blob_size,
                m,
            ),
            Err(_) => None,
        },
{
    match parse_gguf_header(bytes) {
        Ok(meta) => discovered_model(name, d, blob_size, &meta),
        Err(_) => None,
    }
}

// ---------------------------------------------------------------------------
// Asking the library
// ---------------------------------------------------------------------------

/// What came of a request for names.
pub open spec fn names_outcome(r: Result<Vec<String>, PaddockError>) -> Result<
    Seq<Seq<char>>,
    Failure,
> {
    match r {
        Ok(v) => Ok(v.deep_view()),
        Err(e) => Err(e@),
    }
}

pub open spec fn tags_url_of(base: Seq<char>) -> Seq<char> {
    "https://ollama.com/library/"@ + base + "/tags"@
}

pub open spec fn manifest_url_of(base: Seq<char>, tag: Seq<char>) -> Seq<char> {
    "https://registry.ollama.ai/v2/library/"@ + base + "/manifests/"@ + tag
}

pub open spec fn blob_url_of(name: Seq<char>, digest: Seq<char>) -> Seq<char> {
    "https://registry.ollama.ai/v2/library/"@ + name + "/blobs/"@ + digest
}

/// The tags of `base` on the answer to a request for its tags page.
pub open spec fn tags_on(page: Result<Seq<char>, Failure>, base: Seq<char>) -> Result<
    Seq<Seq<char>>,
    Failure,
> {
    match page {
        Ok(html) => Ok(distinct(names_after(html, tag_mark(base), 0))),
        Err(e) => Err(e),
    }
}

/// `out` may be what a request for the tags of `base` comes to.
pub open spec fn gives_tags<H: HttpClient>(
    http: &H,
    base: Seq<char>,
    out: Result<Seq<Seq<char>>, Failure>,
) -> bool {
    exists|page: Result<Seq<char>, Failure>| #[trigger]
        http.gives_text(tags_url_of(base), page) && out == tags_on(page, base)
}

/// Every tag of `base` in the library, in page order.
pub fn fetch_model_tags<H: HttpClient>(http: &H, base: &str) -> (r: Result<
    Vec<String>,
    PaddockError,
>)
    ensures
        gives_tags(http, base@, names_outcome(r)),
{
    let answer = http.get_text(tags_url(base).as_str());
    let ghost page = text_outcome(answer);
    assert(http.gives_text(tags_url_of(base@), page));
    match answer {
        Ok(html) => Ok(extract_tag_names(html.as_str(), base)),
        Err(e) => Err(e),
    }
}

/// The names that the two answers for the library's index come to. Without
/// the page of the newest, the other counts alone.
pub open spec fn index_on(
    popular: Result<Seq<char>, Failure>,
    newest: Result<Seq<char>, Failure>,
    newest_reserve: nat,
) -> Result<Seq<Seq<char>>, Failure> {
    match popular {
        Err(e) => Err(e),
        Ok(page) => Ok(
            merged(
                distinct(names_after(page, "href=\"/library/"@, 0)),
                match newest {
                    Ok(page) => distinct(names_after(page, "href=\"/library/"@, 0)),
                    Err(_) => Seq::empty(),
                },
                newest_reserve,
            ),
        ),
    }
}

/// Every character can stand in a name.
pub open spec fn is_plain_name(s: Seq<char>) -> bool {
    forall|i: int| 0 <= i < s.len() ==> is_name_char(#[trigger] s[i])
}

proof fn lemma_leading_name(s: Seq<char>)
    ensures
        is_plain_name(leading_name(s)),
    decreases s.len(),
{
    if s.len() > 0 && is_name_char(s[0]) {
        let rest = leading_name(s.skip(1));
        lemma_leading_name(s.skip(1));
        assert forall|i: int| 0 <= i < leading_name(s).len() implies is_name_char(
            #[trigger] leading_name(s)[i],
        ) by {
            if i > 0 {
                assert(leading_name(s)[i] == rest[i - 1]);
            }
        }
    }
}

proof fn lemma_names_after(page: Seq<char>, mark: Seq<char>, from: int, x: Seq<char>)
    requires
        names_after(page, mark, from).contains(x),
    ensures
        is_plain_name(x),
    decreases page.len() - from,
{
    let all = names_after(page, mark, from);
    let k = choose|k: int| 0 <= k < all.len() && all[k] == x;
    assert(all.len() > 0);
    if occurs_at(page, mark, from) {
        let name = leading_name(page.skip(from + mark.len()));
        let rest = names_after(page, mark, from + mark.len());
        lemma_leading_name(page.skip(from + mark.len()));
        if name.len() == 0 || k > 0 {
            let j = if name.len() == 0 {
                k
            } else {
                k - 1
            };
            assert(rest[j] == x);
            lemma_names_after(page, mark, from + mark.len(), x);
        }
    } else {
        lemma_names_after(page, mark, from + 1, x);
    }
}

/// Whatever the pages of the index say, the names read from them hold nothing
/// but the characters of a name: no colon among them.
pub proof fn listed_names_are_plain(
    popular: Result<Seq<char>, Failure>,
    newest: Result<Seq<char>, Failure>,
    newest_reserve: nat,
    x: Seq<char>,
)
    requires
        index_on(popular, newest, newest_reserve) matches Ok(names) && names.contains(x),
    ensures
        is_plain_name(x),
{
    let mark = "href=\"/library/"@;
    let from_popular = names_after(popular->Ok_0, mark, 0);
    let from_newest = match newest {
        Ok(page) => names_after(page, mark, 0),
        Err(_) => Seq::empty(),
    };
    let new = match newest {
        Ok(page) => distinct(names_after(page, mark, 0)),
        Err(_) => Seq::empty(),
    };
    let first = newcomers(distinct(from_popular), new, newest_reserve);
    let all = first + distinct(from_popular) + new;
    distinct_members(all);
    distinct_members(from_popular);
    distinct_members(from_newest);
    assert(index_on(popular, newest, newest_reserve)->Ok_0 == distinct(all));
    assert(all.contains(x));
    let k = choose|k: int| 0 <= k < all.len() && all[k] == x;
    if k < first.len() {
        assert(first[k] == x);
        lemma_newcomers(distinct(from_popular), new, newest_reserve);
    } else if k < first.len() + distinct(from_popular).len() {
        assert(distinct(from_popular)[k - first.len()] == x);
    } else {
        assert(new[k - first.len() - distinct(from_popular).len()] == x);
    }
    if new.contains(x) {
        lemma_names_after(newest->Ok_0, mark, 0, x);
    } else {
        lemma_names_after(popular->Ok_0, mark, 0, x);
    }
}

/// `out` may be what a request for the library's index comes to.
pub open spec fn gives_index<H: HttpClient>(
    http: &H,
    newest_reserve: nat,
    out: Result<Seq<Seq<char>>, Failure>,
) -> bool {
    exists|popular: Result<Seq<char>, Failure>, newest: Result<Seq<char>, Failure>|
        {
            &&& #[trigger] http.gives_text("https://ollama.com/library"@, popular)
            &&& popular is Ok ==> http.gives_text(
                "https://ollama.com/library?sort=newest"@,
                newest,
            )
            &&& out == #[trigger] index_on(popular, newest, newest_reserve)
        }
}

/// The model names of the library, by popularity. The first `newest_reserve`
/// of those that only the page of the newest has go before them.
pub fn fetch_library_index<H: HttpClient>(http: &H, newest_reserve: usize) -> (r: Result<
    Vec<String>,
    PaddockError,
>)
    ensures
        gives_index(http, newest_reserve as nat, names_outcome(r)),
{
    let answer = http.get_text("https://ollama.com/library");
    let ghost popular = text_outcome(answer);
    match answer {
        Ok(page) => {
            let second = http.get_text("https://ollama.com/library?sort=newest");
            let ghost newest = text_outcome(second);
            let r = match second {
                Ok(n) => library_index(page.as_str(), Some(n.as_str()), newest_reserve),
                Err(_) => library_index(page.as_str(), None, newest_reserve),
            };
            assert(index_on(popular, newest, newest_reserve as nat)
                == Ok::<Seq<Seq<char>>, Failure>(r.deep_view()));
            Ok(r)
        },
        Err(e) => {
            assert(index_on(popular, popular, newest_reserve as nat)
                == Err::<Seq<Seq<char>>, Failure>(e@));
            Err(e)
        },
    }
}

/// What came of a request for the weights of a tag: their digest and size.
pub open spec fn blob_outcome(r: Result<(String, u64), PaddockError>) -> Result<
    (Seq<char>, u64),
    Failure,
> {
    match r {
        Ok(b) => Ok((b.0@, b.1)),
        Err(e) => Err(e@),
    }
}

/// The weights that the answer to a request for a manifest lists.
pub open spec fn blob_on(
    manifest: Result<Tree, Failure>,
    base: Seq<char>,
    tag: Seq<char>,
) -> Result<(Seq<char>, u64), Failure> {
    match manifest {
        Err(e) => Err(e),
        Ok(t) => match weights_layer(items_in(member(t, "layers"@)), 0) {
            Some(b) => Ok(b),
            None => Err(Failure::Network(base + ":"@ + tag + ": manifest has no model layer"@)),
        },
    }
}

/// `out` may be what a request for the weights of a tag comes to.
pub open spec fn gives_blob<H: HttpClient>(
    http: &H,
    base: Seq<char>,
    tag: Seq<char>,
    out: Result<(Seq<char>, u64), Failure>,
) -> bool {
    exists|manifest: Result<Tree, Failure>| #[trigger]
        http.gives_accepted(
            manifest_url_of(base, tag),
            "application/vnd.docker.distribution.manifest.v2+json"@,
            manifest,
        ) && out == blob_on(manifest, base, tag)
}

/// The digest and the size of the weights of a tag, by its manifest.
pub fn fetch_manifest_model_blob<H: HttpClient>(http: &H, base: &str, tag: &str) -> (r: Result<
    (String, u64),
    PaddockError,
>)
    ensures
        gives_blob(http, base@, tag@, blob_outcome(r)),
{
    let answer = http.get_json_with_accept(
        manifest_url(base, tag).as_str(),
        "application/vnd.docker.distribution.manifest.v2+json",
    );
    let ghost manifest = json_outcome(answer);
    assert(http.gives_accepted(
        manifest_url_of(base@, tag@),
        "application/vnd.docker.distribution.manifest.v2+json"@,
        manifest,
    ));
    match answer {
        Ok(v) => {
            let r = manifest_model_blob(&v, base, tag);
            assert(blob_outcome(r) == blob_on(manifest, base@, tag@));
            r
        },
        Err(e) => {
            assert(blob_on(manifest, base@, tag@) == Err::<(Seq<char>, u64), Failure>(e@));
            Err(e)
        },
    }
}

/// What came of the discovery of a model.
pub open spec fn model_outcome(r: Result<Option<CatalogModel>, PaddockError>) -> Result<
    Option<Model>,
    Failure,
> {
    match r {
        Ok(m) => Ok(m.deep_view()),
        Err(e) => Err(e@),
    }
}

/// The model that the first bytes of its weights tell of.
pub open spec fn discovered_by(
    bytes: Result<Seq<u8>, Failure>,
    name: Seq<char>,
    size: Seq<char>,
    tags: Seq<Tag>,
    released_at: Option<i64>,
    blob_size: u64,
) -> Result<Option<Model>, Failure> {
    match bytes {
        Err(e) => Err(e),
        Ok(b) => match header(b) {
            Ok(m) => Ok(discovered(name, size, tags, released_at, blob_size, m)),
            Err(_) => Ok(None),
        },
    }
}

/// `out` may be what discovery comes to, given the digest and the size of the
/// weights of the first tag.
pub open spec fn discovery_by_weights<H: HttpClient>(
    http: &H,
    name: Seq<char>,
    size: Seq<char>,
    tags: Seq<Tag>,
    released_at: Option<i64>,
    digest: Seq<char>,
    blob_size: u64,
    out: Result<Option<Model>, Failure>,
) -> bool {
    exists|bytes: Result<Seq<u8>, Failure>| #[trigger]
        http.gives_range(blob_url_of(name, digest), 0, 262_143, bytes) && out == discovered_by(
            bytes,
            name,
            size,
            tags,
            released_at,
            blob_size,
        )
}

/// `out` may be what discovery comes to, given the answer for the manifest of
/// the first tag.
pub open spec fn discovery_by_blob<H: HttpClient>(
    http: &H,
    name: Seq<char>,
    size: Seq<char>,
    tags: Seq<Tag>,
    released_at: Option<i64>,
    blob: Result<(Seq<char>, u64), Failure>,
    out: Result<Option<Model>, Failure>,
) -> bool {
    match blob {
        Err(e) => out == Err::<Option<Model>, Failure>(e),
        Ok(b) => discovery_by_weights(http, name, size, tags, released_at, b.0, b.1, out),
    }
}

/// `out` may be what discovery comes to, given the size and the tags that its
/// page lists.
pub open spec fn discovery_by_tags<H: HttpClient>(
    http: &H,
    name: Seq<char>,
    now: i64,
    html: Seq<char>,
    size: Seq<char>,
    tags: Seq<Tag>,
    out: Result<Option<Model>, Failure>,
) -> bool {
    exists|released_at: Option<i64>, blob: Result<(Seq<char>, u64), Failure>|
        {
            &&& is_oldest_age(html, now as int, #[trigger] widened(released_at))
            &&& #[trigger] gives_blob(http, name, tags[0].tag, blob)
            &&& discovery_by_blob(http, name, size, tags, released_at, blob, out)
        }
}

/// `out` may be what discovery comes to, given the answer for the tags page.
/// A model of which nothing runs on this machine is passed over without
/// another request.
pub open spec fn discovery_by_page<H: HttpClient>(
    http: &H,
    name: Seq<char>,
    now: i64,
    page: Result<Seq<char>, Failure>,
    out: Result<Option<Model>, Failure>,
) -> bool {
    match page {
        Err(e) => out == Err::<Option<Model>, Failure>(e),
        Ok(html) => match page_choice(html, name) {
            None => out == Ok::<Option<Model>, Failure>(None),
            Some(c) => discovery_by_tags(http, name, now, html, c.0, c.1, out),
        },
    }
}

/// `out` may be what the discovery of the model `name` comes to.
pub open spec fn gives_model<H: HttpClient>(
    http: &H,
    name: Seq<char>,
    now: i64,
    out: Result<Option<Model>, Failure>,
) -> bool {
    exists|page: Result<Seq<char>, Failure>| #[trigger]
        http.gives_text(tags_url_of(name), page) && discovery_by_page(http, name, now, page, out)
}

/// `m` is a model of the Ollama library, named after `name` and a size.
pub open spec fn is_library_model(m: Model, name: Seq<char>) -> bool {
    &&& m.source == Source::Ollama
    &&& exists|size: Seq<char>| m.name == #[trigger] (name + ":"@ + size)
}

/// A model that is discovered is one of the Ollama library, named after what
/// was looked for.
pub proof fn discovered_models_keep_the_name<H: HttpClient>(
    http: &H,
    name: Seq<char>,
    now: i64,
    out: Result<Option<Model>, Failure>,
)
    requires
        gives_model(http, name, now, out),
    ensures
        out matches Ok(Some(m)) ==> is_library_model(m, name),
{
    if let Ok(Some(m)) = out {
        let page = choose|page: Result<Seq<char>, Failure>| #[trigger]
            http.gives_text(tags_url_of(name), page) && discovery_by_page(
                http,
                name,
                now,
                page,
                out,
            );
        let (size, tags) = page_choice(page->Ok_0, name)->Some_0;
        let (released_at, blob) = choose|
            released_at: Option<i64>,
            blob: Result<(Seq<char>, u64), Failure>,
        |
            {
                &&& is_oldest_age(page->Ok_0, now as int, #[trigger] widened(released_at))
                &&& #[trigger] gives_blob(http, name, tags[0].tag, blob)
                &&& discovery_by_blob(http, name, size, tags, released_at, blob, out)
            };
        let bytes = choose|bytes: Result<Seq<u8>, Failure>| #[trigger]
            http.gives_range(blob_url_of(name, blob->Ok_0.0), 0, 262_143, bytes) && out
                == discovered_by(bytes, name, size, tags, released_at, blob->Ok_0.1);
        assert(m.name == name + ":"@ + size);
    }
}

proof fn lemma_by_page<H: HttpClient>(
    http: &H,
    name: Seq<char>,
    now: i64,
    html: Seq<char>,
    d: Discovery,
    blob: Result<(Seq<char>, u64), Failure>,
    out: Result<Option<Model>, Failure>,
)
    requires
        page_choice(html, name) == Some((d.size@, d.selected.deep_view())),
        is_oldest_age(html, now as int, widened(d.released_at)),
        gives_blob(http, name, d.selected.deep_view()[0].tag, blob),
        discovery_by_blob(
            http,
            name,
            d.size@,
            d.selected.deep_view(),
            d.released_at,
            blob,
            out,
        ),
    ensures
        discovery_by_page(http, name, now, Ok(html), out),
{
    assert(discovery_by_tags(http, name, now, html, d.size@, d.selected.deep_view(), out));
}

/// Discovers a library model: its tags page, the manifest of the first tag
/// chosen, and the first bytes of the weights that it lists. `None` if it is
/// passed over.
pub fn discover_model<H: HttpClient>(http: &H, name: &str, now: i64) -> (r: Result<
    Option<CatalogModel>,
    PaddockError,
>)
    ensures
        gives_model(http, name@, now, model_outcome(r)),
{
    let answer = http.get_text(tags_url(name).as_str());
    let ghost page = text_outcome(answer);
    assert(http.gives_text(tags_url_of(name@), page));
    let html = match answer {
        Ok(html) => html,
        Err(e) => {
            assert(discovery_by_page(http, name@, now, page, Err(e@)));
            return Err(e);
        },
    };
    let d = match read_tags_page(html.as_str(), name, now) {
        Some(d) => d,
        None => {
            assert(discovery_by_page(http, name@, now, page, Ok(None)));
            return Ok(None);
        },
    };
    let ghost tags = d.selected.deep_view();
    assert(tags[0] == d.selected@[0]@);
    let found = fetch_manifest_model_blob(http, name, d.selected[0].tag.as_str());
    let ghost blob = blob_outcome(found);
    assert(gives_blob(http, name@, tags[0].tag, blob));
    let (digest, blob_size) = match found {
        Ok(b) => b,
        Err(e) => {
            assert(discovery_by_blob(http, name@, d.size@, tags, d.released_at, blob, Err(e@)));
            proof {
                lemma_by_page(http, name@, now, html@, d, blob, Err(e@));
            }
            return Err(e);
        },
    };
    let fetched = http.get_range(
        blob_url(name, digest.as_str()).as_str(),
        0,
        BLOB_PROBE_BYTES - 1,
    );
    let ghost bytes = bytes_outcome(fetched);
    assert(http.gives_range(blob_url_of(name@, digest@), 0, 262_143, bytes));
    let r = match fetched {
        Ok(b) => Ok(discover_from_header(name, &d, blob_size, b.as_slice())),
        Err(e) => Err(e),
    };
    assert(model_outcome(r) == discovered_by(
        bytes,
        name@,
        d.size@,
        tags,
        d.released_at,
        blob_size,
    ));
    assert(discovery_by_weights(
        http,
        name@,
        d.size@,
        tags,
        d.released_at,
        digest@,
        blob_size,
        model_outcome(r),
    ));
    proof {
        lemma_by_page(http, name@, now, html@, d, blob, model_outcome(r));
    }
    r
}

} // verus!
