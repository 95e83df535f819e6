//! Hugging Face repositories: what their listings, files and names say about
//! a model.

use vstd::prelude::*;

use crate::catalog::dates::{alphanumeric, is_alphanumeric};
use crate::catalog::gguf::{header, parse_gguf_header, GgufMeta, Meta};
use crate::catalog::http::{bytes_outcome, json_outcome, HttpClient};
use crate::catalog::ollama_registry::{
    low32_or_zero, low_bits_or_zero, meta_head_dim, meta_kv_heads, model_outcome,
};
use crate::catalog::{
    bpw_of, clone_text, plain_bpw, quant_bpw, quant_in, quant_in_upper, CatalogModel, CatalogVariant, Model,
    RuntimeKind, Source, Variant,
};
use crate::error::{Failure, PaddockError};
use crate::decimal::{float_of, read_float, read_number_is_nearest};
use crate::double::{lemma_less, less, nearest, product, whole_part, Double};
use crate::estimate::BIT;
use crate::json::{as_array, as_str, as_u64, get, items_in, member, text_in, text_of, tree,
    unsigned_in, Tree};
use crate::numeral::{digits, push_decimal, saturated};
use crate::precision::{
    above_line, below_line, number_is_itself, saturated_is_no_more, whole_multiple_is_close, PARTS,
};
use crate::rounding::{at_most, is_number, order_is_transitive, rounded_is_number};
use crate::text::{
    chars_of, contains, contains_chars, ends_with, lowercase, matches_at, occurs_at, part,
    rfind_char, starts_with, string_of, to_lowercase, to_uppercase, uppercase,
};

verus! {

/// Bytes of a model file that a probe fetches.
pub const GGUF_HEADER_PROBE_BYTES: u64 = 2_097_152;

fn joined(a: &str, b: &str, c: &str, d: &str) -> (r: String)
    ensures
        r@ == a@ + b@ + c@ + d@,
{
    let mut s = a.to_owned();
    s.append(b);
    s.append(c);
    s.append(d);
    s
}

/// The most downloaded GGUF repositories.
pub fn gguf_list_url(limit: usize) -> (r: String)
    ensures
        r@ == "https://huggingface.co/api/models?filter=gguf&sort=downloads&limit="@ + digits(
            limit as nat,
        ),
{
    let mut s = "https://huggingface.co/api/models?filter=gguf&sort=downloads&limit=".to_owned();
    push_decimal(&mut s, limit as u128);
    s
}

/// The most downloaded MLX repositories.
pub fn mlx_list_url(limit: usize) -> (r: String)
    ensures
        r@ == "https://huggingface.co/api/models?author=mlx-community&sort=downloads&limit="@
            + digits(limit as nat),
{
    let mut s =
        "https://huggingface.co/api/models?author=mlx-community&sort=downloads&limit=".to_owned();
    push_decimal(&mut s, limit as u128);
    s
}

/// A repository with its files.
pub fn repo_url(repo: &str) -> (r: String)
    ensures
        r@ == "https://huggingface.co/api/models/"@ + repo@ + "?blobs=true"@,
{
    let s = joined("https://huggingface.co/api/models/", repo, "?blobs=true", "");
    assert(s@ =~= "https://huggingface.co/api/models/"@ + repo@ + "?blobs=true"@) by {
        reveal_strlit("");
    }
    s
}

/// A file of a repository.
pub fn file_url(repo: &str, file: &str) -> (r: String)
    ensures
        r@ == "https://huggingface.co/"@ + repo@ + "/resolve/main/"@ + file@,
{
    joined("https://huggingface.co/", repo, "/resolve/main/", file)
}

// ---------------------------------------------------------------------------
// Listings
// ---------------------------------------------------------------------------

/// The names of the listed repositories, without entries that have none.
pub open spec fn listed_repos(items: Seq<Tree>) -> Seq<Seq<char>>
    decreases items.len(),
{
    if items.len() == 0 {
        Seq::empty()
    } else {
        let before = listed_repos(items.drop_last());
        match text_in(member(items.last(), "id"@)) {
            Some(id) => before.push(id),
            None => before,
        }
    }
}

/// Every item of a listing that has an identifier is listed by it, in order;
/// nothing else is.
pub proof fn listed_repositories_have_identifiers(items: Seq<Tree>)
    ensures
        listed_repos(items).len() <= items.len(),
        forall|i: int|
            0 <= i < items.len() && text_in(member(#[trigger] items[i], "id"@)) is Some
                ==> listed_repos(items).contains(text_in(member(items[i], "id"@))->Some_0),
        forall|k: int|
            0 <= k < listed_repos(items).len() ==> exists|i: int|
                0 <= i < items.len() && text_in(member(#[trigger] items[i], "id"@)) == Some(
                    #[trigger] listed_repos(items)[k],
                ),
    decreases items.len(),
{
    if items.len() > 0 {
        let t = items.drop_last();
        listed_repositories_have_identifiers(t);
        let (before, all) = (listed_repos(t), listed_repos(items));
        assert forall|i: int|
            0 <= i < items.len() && text_in(
                member(#[trigger] items[i], "id"@),
            ) is Some implies all.contains(text_in(member(items[i], "id"@))->Some_0) by {
            let id = text_in(member(items[i], "id"@))->Some_0;
            if i < t.len() {
                assert(t[i] == items[i]);
                let k = choose|k: int| 0 <= k < before.len() && before[k] == id;
                assert(all[k] == before[k]);
            } else {
                assert(all[all.len() - 1] == id);
            }
        }
        assert forall|k: int| 0 <= k < all.len() implies exists|i: int|
            0 <= i < items.len() && text_in(member(#[trigger] items[i], "id"@)) == Some(
                #[trigger] all[k],
            ) by {
            if k < before.len() {
                let i = choose|i: int|
                    0 <= i < t.len() && text_in(member(#[trigger] t[i], "id"@)) == Some(before[k]);
                assert(items[i] == t[i] && all[k] == before[k]);
            } else {
                assert(items[items.len() - 1] == items.last());
            }
        }
    }
}

/// The names of the repositories in a listing.
pub fn repo_ids(list: &serde_json::Value) -> (r: Vec<String>)
    ensures
        r.deep_view() == listed_repos(items_in(tree(*list))),
{
    let mut out: Vec<String> = Vec::new();
    assert(out.deep_view() =~= Seq::<Seq<char>>::empty());
    if let Some(items) = as_array(list) {
        let ghost all = items_in(tree(*list));
        for i in 0..items.len()
            invariant
                all == crate::json::trees(items@),
                out.deep_view() == listed_repos(all.take(i as int)),
        {
            assert(all.take(i as int + 1).drop_last() =~= all.take(i as int));
            assert(all.take(i as int + 1).last() == tree(items@[i as int]));
            if let Some(id) = as_str(get(&items[i], "id")) {
                let ghost before = out.deep_view();
                out.push(id.to_owned());
                assert(out.deep_view() =~= before.push(id@));
            }
        }
        assert(all.take(all.len() as int) =~= all);
    }
    out
}

/// What follows the last `/` of a path.
pub open spec fn base_name(path: Seq<char>) -> Seq<char> {
    match path.index_of_last('/') {
        Some(i) => path.skip(i + 1),
        None => path,
    }
}

fn name_of(path: &str) -> (r: String)
    ensures
        r@ == base_name(path@),
{
    let cs = chars_of(path);
    let n: usize = cs.len();
    match rfind_char(&cs, '/') {
        Some(i) => {
            assert(i < n);
            assert(cs@.subrange(i as int + 1, n as int) =~= cs@.skip(i as int + 1));
            string_of(&part(&cs, i + 1, n))
        },
        None => path.to_owned(),
    }
}

// ---------------------------------------------------------------------------
// Files of a repository
// ---------------------------------------------------------------------------

/// What a file of a repository is.
#[derive(Debug)]
pub enum FileRole {
    /// The weights in the named quantization.
    Weights(String),
    /// A separate vision projector, which Ollama cannot import.
    Projector,
    Other,
}

/// `FileRole` without its storage.
pub ghost enum Role {
    Weights(Seq<char>),
    Projector,
    Other,
}

impl View for FileRole {
    type V = Role;

    open spec fn view(&self) -> Role {
        match *self {
            FileRole::Weights(q) => Role::Weights(q@),
            FileRole::Projector => Role::Projector,
            FileRole::Other => Role::Other,
        }
    }
}

/// What a file is by its name, the base name in lower case, and the name in
/// upper case. Parts of split files count for nothing.
pub open spec fn role_of(name: Seq<char>, base_low: Seq<char>, upper: Seq<char>) -> Role {
    if !".gguf"@.is_suffix_of(name) || contains(name, "-of-"@) {
        Role::Other
    } else if "mmproj"@.is_prefix_of(base_low) && ".gguf"@.is_suffix_of(base_low) {
        Role::Projector
    } else {
        match quant_in(upper) {
            Some(q) => Role::Weights(q),
            None => Role::Other,
        }
    }
}

/// What a file is, by its name.
pub open spec fn file_role(name: Seq<char>) -> Role {
    role_of(name, lowercase(base_name(name)), uppercase(name))
}

/// A file of weights is a whole GGUF file whose name tells its quantization: no
/// piece of a split one, and no projector, which is a GGUF file too.
pub proof fn weights_are_whole_files(name: Seq<char>)
    ensures
        file_role(name) matches Role::Weights(q) ==> {
            &&& ".gguf"@.is_suffix_of(name)
            &&& !contains(name, "-of-"@)
            &&& !"mmproj"@.is_prefix_of(lowercase(base_name(name)))
                || !".gguf"@.is_suffix_of(lowercase(base_name(name)))
            &&& quant_in(uppercase(name)) == Some(q)
            &&& bpw_of(q) is Some
        },
        file_role(name) is Projector ==> ".gguf"@.is_suffix_of(name) && "mmproj"@.is_prefix_of(
            lowercase(base_name(name)),
        ),
{
    crate::catalog::told_quant_is_known(uppercase(name));
}

/// The last part of a path holds no slash, and stands at its end.
pub proof fn base_name_is_the_last_part(path: Seq<char>)
    ensures
        !base_name(path).contains('/'),
        base_name(path).is_suffix_of(path),
        path.contains('/') ==> base_name(path).len() < path.len() && path[path.len()
            - base_name(path).len() - 1] == '/',
{
    path.index_of_last_ensures('/');
    if let Some(i) = path.index_of_last('/') {
        let rest = path.skip(i + 1);
        if rest.contains('/') {
            let k = choose|k: int| 0 <= k < rest.len() && rest[k] == '/';
            assert(path[i + 1 + k] == '/');
        }
    }
}

/// What a file is by its name, the base name in lower case, and the name in
/// upper case.
pub fn role_by_names(name: &str, base_low: &str, upper: &str) -> (r: FileRole)
    ensures
        r@ == role_of(name@, base_low@, upper@),
{
    let cs = chars_of(name);
    let low = chars_of(base_low);
    if !ends_with(&cs, &chars_of(".gguf")) || contains_chars(&cs, &chars_of("-of-")) {
        return FileRole::Other;
    }
    if starts_with(&low, &chars_of("mmproj")) && ends_with(&low, &chars_of(".gguf")) {
        return FileRole::Projector;
    }
    match quant_in_upper(upper) {
        Some(q) => FileRole::Weights(q),
        None => FileRole::Other,
    }
}

/// What a file is, by its name.
pub fn role(name: &str) -> (r: FileRole)
    ensures
        r@ == file_role(name@),
{
    let base_low = to_lowercase(name_of(name).as_str());
    let upper = to_uppercase(name);
    role_by_names(name, base_low.as_str(), upper.as_str())
}

/// A file with weights.
#[derive(Debug)]
pub struct RepoFile {
    pub name: String,
    pub quant: String,
    pub size: u64,
}

/// `RepoFile` without its storage.
pub ghost struct WeightsFile {
    pub name: Seq<char>,
    pub quant: Seq<char>,
    pub size: u64,
}

impl View for RepoFile {
    type V = WeightsFile;

    open spec fn view(&self) -> WeightsFile {
        WeightsFile { name: self.name@, quant: self.quant@, size: self.size }
    }
}

impl DeepView for RepoFile {
    type V = WeightsFile;

    open spec fn deep_view(&self) -> WeightsFile {
        self@
    }
}

/// The files with weights among the siblings, in order.
pub open spec fn weights_files(siblings: Seq<Tree>) -> Seq<WeightsFile>
    decreases siblings.len(),
{
    if siblings.len() == 0 {
        Seq::empty()
    } else {
        let before = weights_files(siblings.drop_last());
        let last = siblings.last();
        match text_in(member(last, "rfilename"@)) {
            None => before,
            Some(name) => match file_role(name) {
                Role::Weights(quant) => before.push(
                    WeightsFile {
                        name,
                        quant,
                        size: match unsigned_in(member(last, "size"@)) {
                            Some(n) => n,
                            None => 0,
                        },
                    },
                ),
                _ => before,
            },
        }
    }
}

/// One of the siblings is a vision projector.
pub open spec fn has_projector(siblings: Seq<Tree>) -> bool
    decreases siblings.len(),
{
    siblings.len() > 0 && (has_projector(siblings.drop_last()) || match text_in(
        member(siblings.last(), "rfilename"@),
    ) {
        Some(name) => file_role(name) == Role::Projector,
        None => false,
    })
}

/// What the description of a repository says.
#[derive(Debug)]
pub struct RepoInfo {
    pub architecture: Option<String>,
    pub context_max: u32,
    pub params_total: u64,
    pub files: Vec<RepoFile>,
    pub has_mmproj: bool,
}

/// Reads the description of a repository.
pub fn read_repo(detail: &serde_json::Value) -> (r: RepoInfo)
    ensures
        ({
            let t = tree(*detail);
            let gguf = member(t, "gguf"@);
            let siblings = items_in(member(t, "siblings"@));
            &&& r.architecture.deep_view() == text_in(member(gguf, "architecture"@))
            &&& r.context_max == low32_or_zero(unsigned_in(member(gguf, "context_length"@)))
            &&& r.params_total == match unsigned_in(member(gguf, "total"@)) {
                Some(n) => n,
                None => 0,
            }
            &&& r.files.deep_view() == weights_files(siblings)
            &&& r.has_mmproj == has_projector(siblings)
        }),
{
    let gguf = get(detail, "gguf");
    let mut files: Vec<RepoFile> = Vec::new();
    let mut has_mmproj: bool = false;
    let siblings_value = get(detail, "siblings");
    assert(files.deep_view() =~= Seq::<WeightsFile>::empty());
    if let Some(items) = as_array(siblings_value) {
        let ghost all = items_in(tree(*siblings_value));
        for i in 0..items.len()
            invariant
                all == crate::json::trees(items@),
                files.deep_view() == weights_files(all.take(i as int)),
                has_mmproj == has_projector(all.take(i as int)),
        {
            assert(all.take(i as int + 1).drop_last() =~= all.take(i as int));
            assert(all.take(i as int + 1).last() == tree(items@[i as int]));
            let item = &items[i];
            if let Some(name) = as_str(get(item, "rfilename")) {
                match role(name) {
                    FileRole::Weights(quant) => {
                        let size: u64 = match as_u64(get(item, "size")) {
                            Some(n) => n,
                            None => 0,
                        };
                        let ghost before = files.deep_view();
                        let f = RepoFile { name: name.to_owned(), quant, size };
                        let ghost w = f@;
                        files.push(f);
                        assert(files.deep_view() =~= before.push(w));
                    },
                    FileRole::Projector => {
                        has_mmproj = true;
                    },
                    FileRole::Other => {},
                }
            }
        }
        assert(all.take(all.len() as int) =~= all);
    }
    RepoInfo {
        architecture: text_of(get(gguf, "architecture")),
        context_max: low_bits_or_zero(as_u64(get(gguf, "context_length"))),
        params_total: match as_u64(get(gguf, "total")) {
            Some(n) => n,
            None => 0,
        },
        files,
        has_mmproj,
    }
}

/// `i` is the first of the smallest files.
pub open spec fn is_smallest(files: Seq<WeightsFile>, i: int) -> bool {
    &&& 0 <= i < files.len()
    &&& forall|j: int| 0 <= j < files.len() ==> files[i].size <= (#[trigger] files[j]).size
    &&& forall|j: int| 0 <= j < i ==> files[i].size < (#[trigger] files[j]).size
}

/// The file probed is no larger than any other, and of those as small the first.
pub proof fn probed_file_is_the_smallest(files: Seq<WeightsFile>, i: int, j: int)
    requires
        is_smallest(files, i),
        0 <= j < files.len(),
    ensures
        0 <= i < files.len(),
        files[i].size <= files[j].size,
        files[i].size == files[j].size ==> i <= j,
{
    assert(files[j] == files[j]);
}

/// Every file of weights among the siblings is listed, with its name, the
/// quantization that this tells and its size; nothing else is.
pub proof fn weights_are_listed(siblings: Seq<Tree>)
    ensures
        forall|i: int|
            0 <= i < siblings.len() && text_in(member(#[trigger] siblings[i], "rfilename"@)) is Some
                && file_role(text_in(member(siblings[i], "rfilename"@))->Some_0) is Weights
                ==> weights_files(siblings).contains(
                WeightsFile {
                    name: text_in(member(siblings[i], "rfilename"@))->Some_0,
                    quant: file_role(text_in(member(siblings[i], "rfilename"@))->Some_0)->Weights_0,
                    size: match unsigned_in(member(siblings[i], "size"@)) {
                        Some(n) => n,
                        None => 0,
                    },
                },
            ),
        forall|k: int|
            0 <= k < weights_files(siblings).len() ==> file_role(
                (#[trigger] weights_files(siblings)[k]).name,
            ) == Role::Weights(weights_files(siblings)[k].quant),
    decreases siblings.len(),
{
    if siblings.len() > 0 {
        let t = siblings.drop_last();
        weights_are_listed(t);
        let (before, all) = (weights_files(t), weights_files(siblings));
        assert forall|i: int|
            0 <= i < siblings.len() && text_in(member(#[trigger] siblings[i], "rfilename"@)) is Some
                && file_role(
                text_in(member(siblings[i], "rfilename"@))->Some_0,
            ) is Weights implies all.contains(
            WeightsFile {
                name: text_in(member(siblings[i], "rfilename"@))->Some_0,
                quant: file_role(text_in(member(siblings[i], "rfilename"@))->Some_0)->Weights_0,
                size: match unsigned_in(member(siblings[i], "size"@)) {
                    Some(n) => n,
                    None => 0,
                },
            },
        ) by {
            let f = WeightsFile {
                name: text_in(member(siblings[i], "rfilename"@))->Some_0,
                quant: file_role(text_in(member(siblings[i], "rfilename"@))->Some_0)->Weights_0,
                size: match unsigned_in(member(siblings[i], "size"@)) {
                    Some(n) => n,
                    None => 0,
                },
            };
            if i < t.len() {
                assert(t[i] == siblings[i]);
                let k = choose|k: int| 0 <= k < before.len() && before[k] == f;
                assert(all[k] == before[k]);
            } else {
                assert(all[all.len() - 1] == f);
            }
        }
        assert forall|k: int| 0 <= k < all.len() implies file_role((#[trigger] all[k]).name)
            == Role::Weights(all[k].quant) by {
            if k < before.len() {
                assert(all[k] == before[k]);
            }
        }
    }
}

/// A repository has a projector exactly if one of its files is one.
pub proof fn projector_is_a_file(siblings: Seq<Tree>)
    ensures
        has_projector(siblings) <==> exists|i: int|
            0 <= i < siblings.len() && text_in(member(#[trigger] siblings[i], "rfilename"@)) is Some
                && file_role(text_in(member(siblings[i], "rfilename"@))->Some_0) == Role::Projector,
    decreases siblings.len(),
{
    if siblings.len() > 0 {
        let t = siblings.drop_last();
        projector_is_a_file(t);
        if has_projector(t) {
            let i = choose|i: int|
                0 <= i < t.len() && text_in(member(#[trigger] t[i], "rfilename"@)) is Some
                    && file_role(text_in(member(t[i], "rfilename"@))->Some_0) == Role::Projector;
            assert(siblings[i] == t[i]);
        } else {
            assert forall|i: int|
                0 <= i < t.len() && text_in(member(#[trigger] siblings[i], "rfilename"@)) is Some
                    && file_role(text_in(member(siblings[i], "rfilename"@))->Some_0)
                    == Role::Projector implies false by {
                assert(t[i] == siblings[i]);
            }
        }
        assert(siblings.last() == siblings[siblings.len() - 1]);
    }
}

/// The file to probe for its header: the first of the smallest.
pub fn probe_file(files: &Vec<RepoFile>) -> (r: Option<usize>)
    ensures
        match r {
            Some(i) => is_smallest(files.deep_view(), i as int),
            None => files@.len() == 0,
        },
{
    if files.len() == 0 {
        return None;
    }
    let mut best: usize = 0;
    let mut k: usize = 1;
    while k < files.len()
        invariant
            0 <= best < k <= files@.len(),
            forall|j: int| 0 <= j < k ==> files@[best as int].size <= (#[trigger] files@[j]).size,
            forall|j: int| 0 <= j < best ==> files@[best as int].size < (#[trigger] files@[j]).size,
        decreases files@.len() - k,
    {
        if files[k].size < files[best].size {
            best = k;
        }
        k = k + 1;
    }
    assert(is_smallest(files.deep_view(), best as int)) by {
        let v = files.deep_view();
        assert forall|j: int| 0 <= j < v.len() implies v[best as int].size <= (
        #[trigger] v[j]).size by {
            assert(files@[best as int].size <= files@[j].size);
        }
        assert forall|j: int| 0 <= j < best implies v[best as int].size < (#[trigger] v[j]).size by {
            assert(files@[best as int].size < files@[j].size);
        }
    }
    Some(best)
}

// ---------------------------------------------------------------------------
// Parameters in names
// ---------------------------------------------------------------------------

pub open spec fn is_digit_or_point(c: char) -> bool {
    ('0' <= c && c <= '9') || c == '.'
}

/// Where the digits and points that begin at `i` end.
pub open spec fn number_end(s: Seq<char>, i: int) -> int
    decreases s.len() - i,
{
    if 0 <= i < s.len() && is_digit_or_point(s[i]) {
        number_end(s, i + 1)
    } else {
        i
    }
}

/// Where the digits that end before `i` begin.
pub open spec fn digits_start(s: Seq<char>, i: int) -> int
    decreases i,
{
    if 0 < i <= s.len() && '0' <= s[i - 1] && s[i - 1] <= '9' {
        digits_start(s, i - 1)
    } else {
        i
    }
}

/// The billions of parameters that the number from `start` to `end` tells: it
/// is followed by a `b` that ends a word. An `8x` right before it multiplies.
pub open spec fn billions_at(s: Seq<char>, start: int, end: int) -> Option<(nat, int)> {
    if end < s.len() && s[end] == 'b' && (end + 1 == s.len() || !is_alphanumeric(s[end + 1])) {
        match float_of(s.subrange(start, end)) {
            None => None,
            Some(v) => {
                let x = start - 1;
                if x >= 1 && s[x] == 'x' && digits_start(s, x) < x {
                    match float_of(s.subrange(digits_start(s, x), x)) {
                        Some(n) => Some(product(n, v)),
                        None => Some(v),
                    }
                } else {
                    Some(v)
                }
            },
        }
    } else {
        None
    }
}

/// The greater of two numbers, if there are any.
pub open spec fn greater(x: Option<(nat, int)>, y: Option<(nat, int)>) -> Option<(nat, int)> {
    match (x, y) {
        (Some(a), Some(b)) => if less(a, b) {
            Some(b)
        } else {
            Some(a)
        },
        (Some(a), None) => Some(a),
        (None, _) => y,
    }
}

/// The greatest number of billions in `s` from `i` on, `best` included.
pub open spec fn most_billions(s: Seq<char>, i: int, best: Option<(nat, int)>) -> Option<
    (nat, int),
>
    decreases s.len() - i,
{
    if i < 0 || i >= s.len() {
        best
    } else if '0' <= s[i] && s[i] <= '9' {
        let end = number_end(s, i);
        if i < end <= s.len() {
            most_billions(s, end, greater(best, billions_at(s, i, end)))
        } else {
            best
        }
    } else {
        most_billions(s, i + 1, best)
    }
}

/// The parameters that a name in lower case tells.
pub open spec fn named_params(s: Seq<char>) -> Option<u64> {
    match most_billions(s, 0, None) {
        Some(b) => Some(saturated(whole_part(product(b, nearest(1_000_000_000, 1))))),
        None => None,
    }
}

/// A name that speaks of billions tells so many parameters, without what stands
/// behind the point: but for four parts in 2^53.
pub proof fn named_parameters_are_billions(s: Seq<char>)
    ensures
        most_billions(s, 0, None) matches Some(b) ==> named_params(s) is Some && {
            let p = named_params(s)->Some_0;
            &&& PARTS * (p * below_line(b)) <= (PARTS + 4) * (above_line(b) * 1_000_000_000)
            &&& p < u64::MAX ==> (PARTS - 4) * (above_line(b) * 1_000_000_000) < PARTS * ((p + 1)
                * below_line(b))
        },
        most_billions(s, 0, None) is None ==> named_params(s) is None,
{
    if let Some(b) = most_billions(s, 0, None) {
        whole_multiple_is_close(b, 1_000_000_000);
        number_is_itself(b);
        saturated_is_no_more(
            whole_part(product(b, nearest(1_000_000_000, 1))),
            below_line(b),
            (PARTS + 4) * (above_line(b) * 1_000_000_000),
        );
    }
}

proof fn lemma_number_end(s: Seq<char>, i: int)
    requires
        0 <= i <= s.len(),
    ensures
        i <= number_end(s, i) <= s.len(),
        forall|k: int| i <= k < number_end(s, i) ==> is_digit_or_point(s[k]),
        number_end(s, i) < s.len() ==> !is_digit_or_point(s[number_end(s, i)]),
    decreases s.len() - i,
{
    if i < s.len() && is_digit_or_point(s[i]) {
        lemma_number_end(s, i + 1);
    }
}

proof fn lemma_billions(s: Seq<char>, start: int, end: int)
    ensures
        billions_at(s, start, end) matches Some(v) ==> is_number(v),
{
    read_number_is_nearest(s.subrange(start, end));
    let x = start - 1;
    let t = s.subrange(digits_start(s, x), x);
    read_number_is_nearest(t);
    if float_of(t) is Some && float_of(s.subrange(start, end)) is Some {
        let (n, v) = (float_of(t)->Some_0, float_of(s.subrange(start, end))->Some_0);
        rounded_is_number(n.0 * v.0, 1, n.1 + v.1);
    }
}

proof fn lemma_most_billions(s: Seq<char>, i: int, best: Option<(nat, int)>, j: int)
    requires
        0 <= i,
        best matches Some(b) ==> is_number(b),
    ensures
        most_billions(s, i, best) matches Some(b) ==> is_number(b),
        best matches Some(a) ==> most_billions(s, i, best) matches Some(b) && at_most(a, b),
        i <= j < s.len() && '0' <= s[j] && s[j] <= '9' && (j == 0 || !is_digit_or_point(s[j - 1]))
            ==> (billions_at(s, j, number_end(s, j)) matches Some(v) ==> most_billions(s, i, best)
            matches Some(b) && at_most(v, b)),
    decreases s.len() - i,
{
    if best is Some {
        lemma_less(best->Some_0, best->Some_0);
    }
    if i < s.len() {
        if '0' <= s[i] && s[i] <= '9' {
            let end = number_end(s, i);
            lemma_number_end(s, i);
            assert(is_digit_or_point(s[i]));
            let v = billions_at(s, i, end);
            lemma_billions(s, i, end);
            let next = greater(best, v);
            if best is Some && v is Some {
                lemma_less(best->Some_0, v->Some_0);
                lemma_less(v->Some_0, best->Some_0);
                lemma_less(v->Some_0, v->Some_0);
            } else if v is Some {
                lemma_less(v->Some_0, v->Some_0);
            }
            lemma_most_billions(s, end, next, j);
            if next is Some {
                let b = most_billions(s, end, next)->Some_0;
                if best is Some {
                    order_is_transitive(best->Some_0, next->Some_0, b);
                }
                if v is Some {
                    order_is_transitive(v->Some_0, next->Some_0, b);
                }
            }
            if i < j && j < end {
                assert(is_digit_or_point(s[j - 1]));
            }
        } else {
            lemma_most_billions(s, i + 1, best, j);
        }
    }
}

/// No number of billions that a name speaks of is greater than the one that
/// counts.
pub proof fn largest_number_counts(s: Seq<char>, j: int)
    requires
        0 <= j < s.len(),
        '0' <= s[j],
        s[j] <= '9',
        j == 0 || !is_digit_or_point(s[j - 1]),
        billions_at(s, j, number_end(s, j)) is Some,
    ensures
        most_billions(s, 0, None) matches Some(b) && at_most(
            billions_at(s, j, number_end(s, j))->Some_0,
            b,
        ),
{
    lemma_most_billions(s, 0, None, j);
}

fn find_number_end(s: &[char], i: usize) -> (r: usize)
    requires
        i <= s@.len(),
    ensures
        r == number_end(s@, i as int),
        i <= r <= s@.len(),
        i < s@.len() && is_digit_or_point(s@[i as int]) ==> i < r,
{
    let mut k: usize = i;
    while k < s.len() && (('0' <= s[k] && s[k] <= '9') || s[k] == '.')
        invariant
            i <= k <= s@.len(),
            number_end(s@, i as int) == number_end(s@, k as int),
        decreases s@.len() - k,
    {
        k = k + 1;
    }
    k
}

fn find_digits_start(s: &[char], i: usize) -> (r: usize)
    requires
        i <= s@.len(),
    ensures
        r == digits_start(s@, i as int),
        r <= i,
{
    let mut k: usize = i;
    while k > 0 && '0' <= s[k - 1] && s[k - 1] <= '9'
        invariant
            k <= i <= s@.len(),
            digits_start(s@, i as int) == digits_start(s@, k as int),
        decreases k,
    {
        k = k - 1;
    }
    k
}

/// A number with an exponent that further arithmetic can take.
spec fn handy(d: Double) -> bool {
    d.wf() && -9_000 <= d.exponent <= 9_000
}

fn billions(s: &[char], start: usize, end: usize) -> (r: Option<Double>)
    requires
        start <= end <= s@.len(),
    ensures
        match r {
            Some(d) => billions_at(s@, start as int, end as int) == Some(d@) && handy(d),
            None => billions_at(s@, start as int, end as int) is None,
        },
{
    let n: usize = s.len();
    if end >= n || s[end] != 'b' || (end + 1 != n && alphanumeric(s[end + 1])) {
        return None;
    }
    let v = match read_float(&part(s, start, end)) {
        Some(v) => v,
        None => {
            return None;
        },
    };
    if start >= 2 && s[start - 1] == 'x' {
        let x: usize = start - 1;
        let k: usize = find_digits_start(s, x);
        if k < x {
            if let Some(m) = read_float(&part(s, k, x)) {
                return Some(m.times(v));
            }
        }
    }
    Some(v)
}

/// The parameters that a name in lower case tells.
pub fn params_in_lower(s: &[char]) -> (r: Option<u64>)
    ensures
        r == named_params(s@),
{
    let mut best: Option<Double> = None;
    let mut i: usize = 0;
    while i < s.len()
        invariant
            i <= s@.len(),
            match best {
                Some(d) => handy(d) && most_billions(s@, 0, None) == most_billions(
                    s@,
                    i as int,
                    Some(d@),
                ),
                None => most_billions(s@, 0, None) == most_billions(s@, i as int, None),
            },
        decreases s@.len() - i,
    {
        if '0' <= s[i] && s[i] <= '9' {
            let end: usize = find_number_end(s, i);
            if let Some(v) = billions(s, i, end) {
                best = match best {
                    Some(b) => if b.is_less(v) {
                        Some(v)
                    } else {
                        Some(b)
                    },
                    None => Some(v),
                };
            }
            i = end;
        } else {
            i = i + 1;
        }
    }
    match best {
        Some(b) => Some(b.times(Double::of_ratio(1_000_000_000, 1)).to_u64()),
        None => None,
    }
}

/// The parameters that the name of a repository tells (`...-7B-...`).
pub fn params_from_name(repo: &str) -> (r: Option<u64>)
    ensures
        r == named_params(lowercase(repo@)),
{
    params_in_lower(&chars_of(to_lowercase(repo).as_str()))
}

/// Active parameters of known mixture-of-experts models, by a part of the name.
pub open spec fn known_active(s: Seq<char>) -> Option<u64> {
    if contains(s, "mixtral-8x7b"@) {
        Some(12_900_000_000)
    } else if contains(s, "mixtral-8x22b"@) {
        Some(39_000_000_000)
    } else if contains(s, "qwen3-30b-a3b"@) {
        Some(3_300_000_000)
    } else if contains(s, "qwen3-235b-a22b"@) {
        Some(22_000_000_000)
    } else if contains(s, "gpt-oss-20b"@) {
        Some(3_600_000_000)
    } else if contains(s, "gpt-oss-120b"@) {
        Some(5_100_000_000)
    } else if contains(s, "deepseek-v3"@) {
        Some(37_000_000_000)
    } else {
        None
    }
}

/// The active parameters that the first suffix like `-a3b` tells, from `i` on.
pub open spec fn suffix_active(s: Seq<char>, i: int) -> Option<u64>
    decreases s.len() - i,
{
    if i < 0 || i >= s.len() {
        None
    } else if occurs_at(s, "-a"@, i) {
        let end = number_end(s, i + 2);
        if end > i + 2 && end < s.len() && s[end] == 'b' && float_of(
            s.subrange(i + 2, end),
        ) is Some {
            let v = float_of(s.subrange(i + 2, end))->Some_0;
            Some(saturated(whole_part(product(v, nearest(1_000_000_000, 1)))))
        } else {
            suffix_active(s, i + 1)
        }
    } else {
        suffix_active(s, i + 1)
    }
}

/// Active parameters by the name of a repository in lower case.
pub open spec fn active_params(s: Seq<char>, total: u64) -> u64 {
    match known_active(s) {
        Some(n) => n,
        None => match suffix_active(s, 0) {
            Some(n) => n,
            None => total,
        },
    }
}

/// Parameters all count as active where neither the name is a known mixture's
/// nor tells the active ones; what a name tells as `-a` and billions counts as
/// such, but for four parts in 2^53.
pub proof fn active_parameters_are_told_or_all(s: Seq<char>, total: u64)
    ensures
        known_active(s) is None && suffix_active(s, 0) is None ==> active_params(s, total) == total,
        known_active(s) is None && suffix_active(s, 0) is Some ==> exists|i: int| #[trigger]
            tells_active(s, i, active_params(s, total)),
{
    if known_active(s) is None && suffix_active(s, 0) is Some {
        let i = lemma_suffix_active(s, 0);
        assert(tells_active(s, i, active_params(s, total)));
    }
}

/// `-a`, a number and `b` stand at position `i`, and `n` is so many billions.
pub open spec fn tells_active(s: Seq<char>, i: int, n: u64) -> bool {
    let end = number_end(s, i + 2);
    &&& occurs_at(s, "-a"@, i)
    &&& i + 2 < end < s.len()
    &&& s[end] == 'b'
    &&& float_of(s.subrange(i + 2, end)) is Some
    &&& {
        let v = float_of(s.subrange(i + 2, end))->Some_0;
        &&& PARTS * (n * below_line(v)) <= (PARTS + 4) * (above_line(v) * 1_000_000_000)
        &&& n < u64::MAX ==> (PARTS - 4) * (above_line(v) * 1_000_000_000) < PARTS * ((n + 1)
            * below_line(v))
    }
}

proof fn lemma_suffix_active(s: Seq<char>, k: int) -> (i: int)
    requires
        suffix_active(s, k) is Some,
    ensures
        k <= i < s.len(),
        tells_active(s, i, suffix_active(s, k)->Some_0),
    decreases s.len() - k,
{
    let end = number_end(s, k + 2);
    if occurs_at(s, "-a"@, k) && end > k + 2 && end < s.len() && s[end] == 'b' && float_of(
        s.subrange(k + 2, end),
    ) is Some {
        let v = float_of(s.subrange(k + 2, end))->Some_0;
        whole_multiple_is_close(v, 1_000_000_000);
        number_is_itself(v);
        saturated_is_no_more(
            whole_part(product(v, nearest(1_000_000_000, 1))),
            below_line(v),
            (PARTS + 4) * (above_line(v) * 1_000_000_000),
        );
        k
    } else {
        lemma_suffix_active(s, k + 1)
    }
}

/// The known mixtures are sparse. Of Mixtral two of eight experts are active,
/// which share some of their parameters: more than one expert, fewer than two.
/// The Qwen mixtures have the active billions of their names, or a tenth more.
/// The larger GPT-OSS has more than the smaller, but a lesser share, and
/// DeepSeek more than either.
pub proof fn known_mixtures_are_sparse(s: Seq<char>, t: Seq<char>)
    ensures
        known_active(s) matches Some(n) ==> n < 44_000_000_000,
        contains(s, "mixtral-8x7b"@) ==> (known_active(s) matches Some(n) && 7_000_000_000 < n
            < 14_000_000_000),
        contains(s, "mixtral-8x22b"@) && !contains(s, "mixtral-8x7b"@) ==> (known_active(
            s,
        ) matches Some(n) && 22_000_000_000 < n < 44_000_000_000),
        no_mixtral(s) && contains(s, "qwen3-30b-a3b"@) ==> (known_active(s) matches Some(n)
            && 3_000_000_000 <= n <= 3_300_000_000),
        no_mixtral(s) && !contains(s, "qwen3-30b-a3b"@) && contains(s, "qwen3-235b-a22b"@) ==> (
        known_active(s) matches Some(n) && 22_000_000_000 <= n <= 24_200_000_000),
        no_qwen(s) && contains(s, "gpt-oss-20b"@) ==> (known_active(s) matches Some(n) && n * 5
            < 20_000_000_000 < n * 6),
        no_qwen(s) && contains(s, "gpt-oss-20b"@) && no_qwen(t) && !contains(t, "gpt-oss-20b"@)
            && contains(t, "gpt-oss-120b"@) ==> (known_active(s) matches Some(m) && known_active(
            t,
        ) matches Some(n) && m < n < 2 * m),
        no_qwen(s) && !contains(s, "gpt-oss-20b"@) && !contains(s, "gpt-oss-120b"@) && contains(
            s,
            "deepseek-v3"@,
        ) ==> (known_active(s) matches Some(n) && n * 18 < 671_000_000_000 < n * 19),
{
}

/// Names no Mixtral.
pub open spec fn no_mixtral(s: Seq<char>) -> bool {
    !contains(s, "mixtral-8x7b"@) && !contains(s, "mixtral-8x22b"@)
}

/// Names neither a Mixtral nor a Qwen mixture.
pub open spec fn no_qwen(s: Seq<char>) -> bool {
    no_mixtral(s) && !contains(s, "qwen3-30b-a3b"@) && !contains(s, "qwen3-235b-a22b"@)
}

fn find_known_active(s: &[char]) -> (r: Option<u64>)
    ensures
        r == known_active(s@),
{
    if contains_chars(s, &chars_of("mixtral-8x7b")) {
        Some(12_900_000_000)
    } else if contains_chars(s, &chars_of("mixtral-8x22b")) {
        Some(39_000_000_000)
    } else if contains_chars(s, &chars_of("qwen3-30b-a3b")) {
        Some(3_300_000_000)
    } else if contains_chars(s, &chars_of("qwen3-235b-a22b")) {
        Some(22_000_000_000)
    } else if contains_chars(s, &chars_of("gpt-oss-20b")) {
        Some(3_600_000_000)
    } else if contains_chars(s, &chars_of("gpt-oss-120b")) {
        Some(5_100_000_000)
    } else if contains_chars(s, &chars_of("deepseek-v3")) {
        Some(37_000_000_000)
    } else {
        None
    }
}

fn find_suffix_active(s: &[char]) -> (r: Option<u64>)
    ensures
        r == suffix_active(s@, 0),
{
    let mark = chars_of("-a");
    proof {
        reveal_strlit("-a");
    }
    let mut i: usize = 0;
    while i < s.len()
        invariant
            i <= s@.len(),
            mark@ == "-a"@,
            mark@.len() == 2,
            suffix_active(s@, 0) == suffix_active(s@, i as int),
        decreases s@.len() - i,
    {
        if matches_at(s, &mark, i) {
            let end: usize = find_number_end(s, i + 2);
            if end > i + 2 && end < s.len() && s[end] == 'b' {
                if let Some(v) = read_float(&part(s, i + 2, end)) {
                    return Some(v.times(Double::of_ratio(1_000_000_000, 1)).to_u64());
                }
            }
        }
        i = i + 1;
    }
    None
}

/// Active parameters by the name of a repository in lower case.
pub fn active_params_in_lower(s: &[char], params_total: u64) -> (r: u64)
    ensures
        r == active_params(s@, params_total),
{
    match find_known_active(s) {
        Some(n) => n,
        None => match find_suffix_active(s) {
            Some(n) => n,
            None => params_total,
        },
    }
}

/// Active parameters of a model, by the name of its repository: all of them
/// unless the name tells otherwise.
pub fn moe_active_params(repo: &str, params_total: u64) -> (r: u64)
    ensures
        r == active_params(lowercase(repo@), params_total),
{
    active_params_in_lower(&chars_of(to_lowercase(repo).as_str()), params_total)
}

// ---------------------------------------------------------------------------
// Models
// ---------------------------------------------------------------------------

/// The variant that a file with weights is.
pub open spec fn file_variant(f: WeightsFile, shape: Meta, compat: Seq<RuntimeKind>) -> Option<
    Variant,
> {
    match bpw_of(f.quant) {
        Some(bpw) => Some(
            Variant {
                quant: f.quant,
                bpw,
                file_size_bytes: if f.size > 0 {
                    Some(f.size)
                } else {
                    None
                },
                layers: low32_or_zero(shape.block_count),
                kv_heads: low32_or_zero(meta_kv_heads(shape)),
                head_dim: low32_or_zero(meta_head_dim(shape)),
                embedding_dim: low32_or_zero(shape.embedding_length),
                runtime_compat: compat,
                source_tag: None,
            },
        ),
        None => None,
    }
}

pub open spec fn file_variants(
    files: Seq<WeightsFile>,
    shape: Meta,
    compat: Seq<RuntimeKind>,
) -> Seq<Variant>
    decreases files.len(),
{
    if files.len() == 0 {
        Seq::empty()
    } else {
        let before = file_variants(files.drop_last(), shape, compat);
        match file_variant(files.last(), shape, compat) {
            Some(v) => before.push(v),
            None => before,
        }
    }
}

/// The programs that can run a repository's files: a vision projector rules
/// Ollama out.
pub open spec fn repo_compat(has_mmproj: bool) -> Seq<RuntimeKind> {
    if has_mmproj {
        seq![RuntimeKind::LlamaCpp]
    } else {
        seq![RuntimeKind::Ollama, RuntimeKind::LlamaCpp]
    }
}

/// The catalog model of a repository, given what its description says and the
/// header of one of its files. `None` without the shape of the attention or
/// the parameters, and without a file.
pub open spec fn repo_model_of(
    repo: Seq<char>,
    architecture: Option<Seq<char>>,
    context_max: u32,
    params_total: u64,
    files: Seq<WeightsFile>,
    has_mmproj: bool,
    shape: Meta,
) -> Option<Model> {
    let arch = match architecture {
        Some(a) => Some(a),
        None => shape.architecture,
    };
    let context = if context_max == 0 {
        low32_or_zero(shape.context_length)
    } else {
        context_max
    };
    let variants = file_variants(files, shape, repo_compat(has_mmproj));
    if low32_or_zero(shape.block_count) == 0 || low32_or_zero(meta_kv_heads(shape)) == 0
        || low32_or_zero(meta_head_dim(shape)) == 0 || params_total == 0 || variants.len() == 0 {
        None
    } else {
        Some(
            Model {
                id: 0,
                name: base_name(repo),
                family: arch,
                source: Source::HuggingFace,
                repo: Some(repo),
                params_total,
                params_active: active_params(lowercase(repo), params_total),
                architecture: arch,
                context_max: if context == 0 {
                    4096
                } else {
                    context
                },
                released_at: None,
                released_approx: false,
                variants,
            },
        )
    }
}

proof fn lemma_file_variants(files: Seq<WeightsFile>, shape: Meta, compat: Seq<RuntimeKind>, k: int)
    requires
        0 <= k < file_variants(files, shape, compat).len(),
    ensures
        exists|i: int|
            0 <= i < files.len() && file_variant(#[trigger] files[i], shape, compat) == Some(
                file_variants(files, shape, compat)[k],
            ),
    decreases files.len(),
{
    let before = file_variants(files.drop_last(), shape, compat);
    if k < before.len() {
        lemma_file_variants(files.drop_last(), shape, compat, k);
        let i = choose|i: int|
            0 <= i < files.drop_last().len() && file_variant(
                #[trigger] files.drop_last()[i],
                shape,
                compat,
            ) == Some(before[k]);
        assert(files[i] == files.drop_last()[i]);
    } else {
        assert(files.last() == files[files.len() - 1]);
    }
}

/// Each variant of a repository's model is one of its files: its quantization,
/// its size, the bits per weight of the quantization, and the shape that the
/// header tells. The width of the heads times their number is the width of the
/// model, or falls short of it by less than the number of heads; key/value
/// heads that the header leaves out are as many as the heads.
pub proof fn repo_variants_are_its_files(
    repo: Seq<char>,
    architecture: Option<Seq<char>>,
    context_max: u32,
    params_total: u64,
    files: Seq<WeightsFile>,
    has_mmproj: bool,
    shape: Meta,
    k: int,
)
    requires
        repo_model_of(
            repo,
            architecture,
            context_max,
            params_total,
            files,
            has_mmproj,
            shape,
        ) matches Some(m) && 0 <= k < m.variants.len(),
    ensures
        ({
            let m = repo_model_of(
                repo,
                architecture,
                context_max,
                params_total,
                files,
                has_mmproj,
                shape,
            )->Some_0;
            let v = m.variants[k];
            &&& m.params_total == params_total
            &&& bpw_of(v.quant) == Some(v.bpw)
            &&& exists|i: int|
                0 <= i < files.len() && (#[trigger] files[i]).quant == v.quant && (
                v.file_size_bytes matches Some(n) ==> n == files[i].size)
            &&& v.layers > 0 && v.kv_heads > 0 && v.head_dim > 0
            &&& shape.block_count is Some
            &&& shape.block_count->Some_0 <= u32::MAX ==> v.layers == shape.block_count->Some_0
            &&& shape.head_count_kv is None && shape.head_count->Some_0 <= u32::MAX ==> v.kv_heads
                == shape.head_count->Some_0
            &&& shape.head_count_kv is Some && shape.head_count_kv->Some_0 <= u32::MAX
                ==> v.kv_heads == shape.head_count_kv->Some_0
            &&& shape.embedding_length->Some_0 <= u32::MAX ==> v.embedding_dim
                == shape.embedding_length->Some_0 && v.head_dim * shape.head_count->Some_0
                <= v.embedding_dim < (v.head_dim + 1) * shape.head_count->Some_0
            &&& context_max > 0 ==> m.context_max == context_max
            &&& m.context_max > 0
        }),
{
    let compat = repo_compat(has_mmproj);
    lemma_file_variants(files, shape, compat, k);
    let v = file_variants(files, shape, compat)[k];
    let i = choose|i: int|
        0 <= i < files.len() && file_variant(#[trigger] files[i], shape, compat) == Some(v);
    assert(files[i].quant == v.quant);
    if shape.embedding_length->Some_0 <= u32::MAX {
        let (e, h) = (shape.embedding_length->Some_0 as int, shape.head_count->Some_0 as int);
        let (d, r) = (e / h, e % h);
        vstd::arithmetic::div_mod::lemma_fundamental_div_mod(e, h);
        assert(d * h <= e && e < (d + 1) * h) by (nonlinear_arith)
            requires
                e == h * d + r,
                0 <= r,
                r < h,
        ;
        assert(d <= e) by (nonlinear_arith)
            requires
                d * h <= e,
                h >= 1,
                d >= 0,
        ;
    }
}

proof fn lemma_file_compat(files: Seq<WeightsFile>, shape: Meta, compat: Seq<RuntimeKind>)
    ensures
        forall|i: int|
            0 <= i < file_variants(files, shape, compat).len() ==> (#[trigger] file_variants(
                files,
                shape,
                compat,
            )[i]).runtime_compat == compat,
    decreases files.len(),
{
    if files.len() > 0 {
        lemma_file_compat(files.drop_last(), shape, compat);
    }
}

/// Every variant of a repository with a vision projector is for llama.cpp
/// alone.
pub proof fn projector_rules_ollama_out(
    repo: Seq<char>,
    architecture: Option<Seq<char>>,
    context_max: u32,
    params_total: u64,
    files: Seq<WeightsFile>,
    shape: Meta,
)
    ensures
        repo_model_of(repo, architecture, context_max, params_total, files, true, shape) matches Some(
            m,
        ) ==> forall|i: int|
            0 <= i < m.variants.len() ==> (#[trigger] m.variants[i]).runtime_compat == seq![
                RuntimeKind::LlamaCpp,
            ],
{
    lemma_file_compat(files, shape, repo_compat(true));
}

fn compat_of(has_mmproj: bool) -> (r: Vec<RuntimeKind>)
    ensures
        r@ == repo_compat(has_mmproj),
{
    let r = if has_mmproj {
        vec![RuntimeKind::LlamaCpp]
    } else {
        vec![RuntimeKind::Ollama, RuntimeKind::LlamaCpp]
    };
    assert(r@ =~= repo_compat(has_mmproj));
    r
}

/// Builds the model of a repository from its description and the header of
/// one of its files.
pub fn repo_model(repo: &str, info: &RepoInfo, meta: &GgufMeta) -> (r: Option<CatalogModel>)
    ensures
        r.deep_view() == repo_model_of(
            repo@,
            info.architecture.deep_view(),
            info.context_max,
            info.params_total,
            info.files.deep_view(),
            info.has_mmproj,
            meta@,
        ),
{
    let layers: u32 = low_bits_or_zero(meta.block_count);
    let kv: Option<u64> = match meta.head_count_kv {
        Some(n) => Some(n),
        None => meta.head_count,
    };
    let kv_heads: u32 = low_bits_or_zero(kv);
    let head_dim: u32 = low_bits_or_zero(meta.head_dim());
    let embedding_dim: u32 = low_bits_or_zero(meta.embedding_length);
    if layers == 0 || kv_heads == 0 || head_dim == 0 || info.params_total == 0 {
        return None;
    }
    let ghost files = info.files.deep_view();
    let ghost compat = repo_compat(info.has_mmproj);
    let mut variants: Vec<CatalogVariant> = Vec::new();
    assert(variants.deep_view() =~= Seq::<Variant>::empty());
    for i in 0..info.files.len()
        invariant
            files == info.files.deep_view(),
            compat == repo_compat(info.has_mmproj),
            layers == low32_or_zero(meta@.block_count),
            kv_heads == low32_or_zero(meta_kv_heads(meta@)),
            head_dim == low32_or_zero(meta_head_dim(meta@)),
            embedding_dim == low32_or_zero(meta@.embedding_length),
            variants.deep_view() == file_variants(files.take(i as int), meta@, compat),
    {
        assert(files.take(i as int + 1).drop_last() =~= files.take(i as int));
        assert(files.take(i as int + 1).last() == info.files@[i as int]@);
        let f = &info.files[i];
        if let Some(bpw) = quant_bpw(f.quant.as_str()) {
            let ghost before = variants.deep_view();
            let v = CatalogVariant {
                quant: f.quant.clone(),
                bpw,
                file_size_bytes: if f.size > 0 {
                    Some(f.size)
                } else {
                    None
                },
                layers,
                kv_heads,
                head_dim,
                embedding_dim,
                runtime_compat: compat_of(info.has_mmproj),
                source_tag: None,
            };
            let ghost w = v@;
            variants.push(v);
            assert(variants.deep_view() =~= before.push(w));
        }
    }
    assert(files.take(files.len() as int) =~= files);
    assert(variants.deep_view().len() == variants@.len());
    if variants.len() == 0 {
        return None;
    }
    let architecture = match &info.architecture {
        Some(a) => Some(a.clone()),
        None => clone_text(&meta.architecture),
    };
    let context: u32 = if info.context_max == 0 {
        low_bits_or_zero(meta.context_length)
    } else {
        info.context_max
    };
    Some(
        CatalogModel {
            id: 0,
            name: name_of(repo),
            family: clone_text(&architecture),
            source: Source::HuggingFace,
            repo: Some(repo.to_owned()),
            params_total: info.params_total,
            params_active: moe_active_params(repo, info.params_total),
            architecture,
            context_max: if context == 0 {
                4096
            } else {
                context
            },
            released_at: None,
            released_approx: false,
            variants,
        },
    )
}

/// Builds the model of a repository from its description and the first bytes
/// of one of its files, if those could be fetched. Without a header there is
/// no model.
pub fn repo_model_from_bytes(repo: &str, info: &RepoInfo, bytes: Option<&[u8]>) -> (r: Option<
    CatalogModel,
>)
    ensures
        r.deep_view() == match bytes {
            Some(b) => match header(b@) {
                Ok(m) => repo_model_of(
                    repo@,
                    info.architecture.deep_view(),
                    info.context_max,
                    info.params_total,
                    info.files.deep_view(),
                    info.has_mmproj,
                    m,
                ),
                Err(_) => None,
            },
            None => None,
        },
{
    match bytes {
        Some(b) => match parse_gguf_header(b) {
            Ok(meta) => repo_model(repo, info, &meta),
            Err(_) => None,
        },
        None => None,
    }
}

/// The quantization of an MLX model by its bits, and its bits per weight.
pub open spec fn mlx_quant(bits: Option<u64>) -> (Seq<char>, u64) {
    if bits == Some(4u64) {
        ("MLX_4BIT"@, 45_000_000_000_000_000)
    } else if bits == Some(8u64) {
        ("MLX_8BIT"@, 85_000_000_000_000_000)
    } else {
        ("F16"@, 160_000_000_000_000_000)
    }
}

/// Where the configuration states four or eight bits, the quantization is
/// labelled with these bits; elsewhere the weights are sixteen-bit floats. Either
/// way its bits per weight are those of the label, and no fewer than the four or
/// eight stated.
pub proof fn mlx_label_says_the_bits(bits: Option<u64>)
    ensures
        ({
            let (label, bpw) = mlx_quant(bits);
            &&& bpw_of(label) == Some(bpw)
            &&& if bits == Some(4u64) || bits == Some(8u64) {
                &&& label == "MLX_"@ + digits(bits->Some_0 as nat) + "BIT"@
                &&& bits->Some_0 * BIT <= bpw < (bits->Some_0 + 1) * BIT
            } else {
                &&& label == "F16"@
                &&& bpw == 16 * BIT
            }
        }),
{
    reveal_strlit("MLX_");
    reveal_strlit("BIT");
    reveal_strlit("MLX_4BIT");
    reveal_strlit("MLX_8BIT");
    crate::catalog::lemma_plain_names();
    reveal_with_fuel(digits, 2);
    let label = mlx_quant(bits).0;
    assert(label.take(3)[0] == label[0]);
    assert(bpw_of(label) == plain_bpw(label));
    crate::catalog::bits_go_by_the_name(label);
    if bits == Some(4u64) {
        assert(label =~= "MLX_"@ + digits(4) + "BIT"@);
    } else if bits == Some(8u64) {
        assert(label =~= "MLX_"@ + digits(8) + "BIT"@);
    }
}

/// Two configurations that state different bits, of those that have a
/// quantization, get different ones.
pub proof fn mlx_bits_are_told_apart(a: Option<u64>, b: Option<u64>)
    requires
        mlx_quant(a).0 == mlx_quant(b).0,
    ensures
        a == b || (a != Some(4u64) && a != Some(8u64) && b != Some(4u64) && b != Some(8u64)),
{
    crate::catalog::lemma_plain_names();
}

/// The catalog model of an MLX repository, given its configuration and the
/// parameters that its name tells. `None` without the shape of the attention
/// or the parameters.
pub open spec fn mlx_model_of(
    repo: Seq<char>,
    config: Tree,
    params: Option<u64>,
    active: u64,
) -> Option<Model> {
    let layers = low32_or_zero(unsigned_in(member(config, "num_hidden_layers"@)));
    let heads = low32_or_zero(unsigned_in(member(config, "num_attention_heads"@)));
    let kv = unsigned_in(member(config, "num_key_value_heads"@));
    let hidden = low32_or_zero(unsigned_in(member(config, "hidden_size"@)));
    let context = unsigned_in(member(config, "max_position_embeddings"@));
    let kind = text_in(member(config, "model_type"@));
    let (quant, bpw) = mlx_quant(unsigned_in(member(member(config, "quantization"@), "bits"@)));
    if layers == 0 || heads == 0 || hidden == 0 || params is None {
        None
    } else {
        Some(
            Model {
                id: 0,
                name: base_name(repo),
                family: kind,
                source: Source::Mlx,
                repo: Some(repo),
                params_total: params->Some_0,
                params_active: active,
                architecture: kind,
                context_max: match context {
                    Some(_) => low32_or_zero(context),
                    None => 4096,
                },
                released_at: None,
                released_approx: false,
                variants: seq![
                    Variant {
                        quant,
                        bpw,
                        file_size_bytes: None,
                        layers,
                        kv_heads: match kv {
                            Some(_) => low32_or_zero(kv),
                            None => heads,
                        },
                        head_dim: (hidden / heads) as u32,
                        embedding_dim: hidden,
                        runtime_compat: seq![RuntimeKind::MlxLm],
                        source_tag: None,
                    },
                ],
            },
        )
    }
}

/// A model has the quantization that its configuration states: models whose
/// configurations state different bits, four and eight, differ in it.
pub proof fn mlx_model_has_the_stated_bits(
    repo: Seq<char>,
    config: Tree,
    params: Option<u64>,
    active: u64,
)
    ensures
        mlx_model_of(repo, config, params, active) matches Some(m) ==> {
            let bits = unsigned_in(member(member(config, "quantization"@), "bits"@));
            &&& m.variants.len() == 1
            &&& bpw_of(m.variants[0].quant) == Some(m.variants[0].bpw)
            &&& if bits == Some(4u64) || bits == Some(8u64) {
                &&& m.variants[0].quant == "MLX_"@ + digits(bits->Some_0 as nat) + "BIT"@
                &&& m.variants[0].bpw >= bits->Some_0 * BIT
            } else {
                m.variants[0].quant == "F16"@
            }
        },
{
    mlx_label_says_the_bits(unsigned_in(member(member(config, "quantization"@), "bits"@)));
}

/// The shape of an MLX model is that of its configuration: the width of the
/// heads times their number is the width of the model, or falls short of it by
/// less than the number of heads.
pub proof fn mlx_heads_share_the_width(
    repo: Seq<char>,
    config: Tree,
    params: Option<u64>,
    active: u64,
)
    ensures
        mlx_model_of(repo, config, params, active) matches Some(m) ==> {
            let heads = low32_or_zero(unsigned_in(member(config, "num_attention_heads"@)));
            let v = m.variants[0];
            &&& v.head_dim * heads <= v.embedding_dim < (v.head_dim + 1) * heads
            &&& v.kv_heads > 0 || unsigned_in(member(config, "num_key_value_heads"@)) is Some
            &&& v.layers > 0
            &&& m.params_total == params->Some_0
            &&& m.params_active == active
            &&& v.runtime_compat == seq![RuntimeKind::MlxLm]
        },
{
    let heads = low32_or_zero(unsigned_in(member(config, "num_attention_heads"@)));
    let hidden = low32_or_zero(unsigned_in(member(config, "hidden_size"@)));
    if heads > 0 {
        let (h, n) = (hidden as int, heads as int);
        let (d, r) = (h / n, h % n);
        vstd::arithmetic::div_mod::lemma_fundamental_div_mod(hidden as int, heads as int);
        assert(d * n <= h && h < (d + 1) * n) by (nonlinear_arith)
            requires
                h == n * d + r,
                0 <= r,
                r < n,
        ;
    }
}

/// Builds the model of an MLX repository from its configuration, the
/// parameters and the active parameters.
pub fn mlx_model_with(
    repo: &str,
    config: &serde_json::Value,
    params: Option<u64>,
    active: u64,
) -> (r: Option<CatalogModel>)
    ensures
        r.deep_view() == mlx_model_of(repo@, tree(*config), params, active),
{
    let layers: u32 = low_bits_or_zero(as_u64(get(config, "num_hidden_layers")));
    let heads: u32 = low_bits_or_zero(as_u64(get(config, "num_attention_heads")));
    let kv: Option<u64> = as_u64(get(config, "num_key_value_heads"));
    let kv_heads: u32 = match kv {
        Some(_) => low_bits_or_zero(kv),
        None => heads,
    };
    let hidden: u32 = low_bits_or_zero(as_u64(get(config, "hidden_size")));
    let context: Option<u64> = as_u64(get(config, "max_position_embeddings"));
    let context_max: u32 = match context {
        Some(_) => low_bits_or_zero(context),
        None => 4096,
    };
    if layers == 0 || heads == 0 || hidden == 0 {
        return None;
    }
    let params_total: u64 = match params {
        Some(p) => p,
        None => {
            return None;
        },
    };
    let bits: Option<u64> = as_u64(get(get(config, "quantization"), "bits"));
    let (quant, bpw): (&str, u64) = match bits {
        Some(n) => if n == 4 {
            ("MLX_4BIT", 45_000_000_000_000_000)
        } else if n == 8 {
            ("MLX_8BIT", 85_000_000_000_000_000)
        } else {
            ("F16", 160_000_000_000_000_000)
        },
        None => ("F16", 160_000_000_000_000_000),
    };
    let kind = get(config, "model_type");
    let v = CatalogVariant {
        quant: quant.to_owned(),
        bpw,
        file_size_bytes: None,
        layers,
        kv_heads,
        head_dim: hidden / heads,
        embedding_dim: hidden,
        runtime_compat: vec![RuntimeKind::MlxLm],
        source_tag: None,
    };
    assert(v@.runtime_compat =~= seq![RuntimeKind::MlxLm]);
    let ghost w = v@;
    let variants = vec![v];
    assert(variants.deep_view() =~= seq![w]);
    Some(
        CatalogModel {
            id: 0,
            name: name_of(repo),
            family: text_of(kind),
            source: Source::Mlx,
            repo: Some(repo.to_owned()),
            params_total,
            params_active: active,
            architecture: text_of(kind),
            context_max,
            released_at: None,
            released_approx: false,
            variants,
        },
    )
}

/// Builds the model of an MLX repository from its configuration.
pub fn mlx_model(repo: &str, config: &serde_json::Value) -> (r: Option<CatalogModel>)
    ensures
        r.deep_view() == mlx_model_in(repo@, tree(*config)),
{
    let params: Option<u64> = params_from_name(repo);
    let active: u64 = match params {
        Some(p) => moe_active_params(repo, p),
        None => 0,
    };
    mlx_model_with(repo, config, params, active)
}

// ---------------------------------------------------------------------------
// Asking Hugging Face
// ---------------------------------------------------------------------------

pub open spec fn gguf_list_url_of(limit: nat) -> Seq<char> {
    "https://huggingface.co/api/models?filter=gguf&sort=downloads&limit="@ + digits(limit)
}

pub open spec fn mlx_list_url_of(limit: nat) -> Seq<char> {
    "https://huggingface.co/api/models?author=mlx-community&sort=downloads&limit="@ + digits(limit)
}

pub open spec fn repo_url_of(repo: Seq<char>) -> Seq<char> {
    "https://huggingface.co/api/models/"@ + repo + "?blobs=true"@
}

pub open spec fn file_url_of(repo: Seq<char>, file: Seq<char>) -> Seq<char> {
    "https://huggingface.co/"@ + repo + "/resolve/main/"@ + file
}

/// The model of a repository, given its description and the answer to a
/// request for the first bytes of one of its files.
pub open spec fn repo_model_by(
    repo: Seq<char>,
    detail: Tree,
    bytes: Result<Seq<u8>, Failure>,
) -> Option<Model> {
    let gguf = member(detail, "gguf"@);
    let siblings = items_in(member(detail, "siblings"@));
    match bytes {
        Ok(b) => match header(b) {
            Ok(m) => repo_model_of(
                repo,
                text_in(member(gguf, "architecture"@)),
                low32_or_zero(unsigned_in(member(gguf, "context_length"@))),
                match unsigned_in(member(gguf, "total"@)) {
                    Some(n) => n,
                    None => 0,
                },
                weights_files(siblings),
                has_projector(siblings),
                m,
            ),
            Err(_) => None,
        },
        Err(_) => None,
    }
}

/// `out` may be what a repository comes to, given its description: the file
/// probed is the first of the smallest.
pub open spec fn repo_by_detail<H: HttpClient>(
    http: &H,
    repo: Seq<char>,
    detail: Tree,
    out: Option<Model>,
) -> bool {
    let files = weights_files(items_in(member(detail, "siblings"@)));
    if files.len() == 0 {
        out is None
    } else {
        repo_by_files(http, repo, detail, files, out)
    }
}

pub open spec fn repo_by_files<H: HttpClient>(
    http: &H,
    repo: Seq<char>,
    detail: Tree,
    files: Seq<WeightsFile>,
    out: Option<Model>,
) -> bool {
    exists|i: int, bytes: Result<Seq<u8>, Failure>|
        {
            &&& is_smallest(files, i)
            &&& #[trigger] http.gives_range(
                file_url_of(repo, files[i].name),
                0,
                2_097_151,
                bytes,
            )
            &&& out == repo_model_by(repo, detail, bytes)
        }
}

/// `out` may be what a request for the model of a repository comes to.
pub open spec fn gives_repo<H: HttpClient>(
    http: &H,
    repo: Seq<char>,
    out: Result<Option<Model>, Failure>,
) -> bool {
    exists|detail: Result<Tree, Failure>| #[trigger]
        http.gives_json(repo_url_of(repo), detail) && repo_after(http, repo, detail, out)
}

pub open spec fn repo_after<H: HttpClient>(
    http: &H,
    repo: Seq<char>,
    detail: Result<Tree, Failure>,
    out: Result<Option<Model>, Failure>,
) -> bool {
    match detail {
        Err(e) => out == Err::<Option<Model>, Failure>(e),
        Ok(t) => out is Ok && repo_by_detail(http, repo, t, out->Ok_0),
    }
}

/// The model of a repository: its description, and the header of its smallest
/// file. `None` if they do not say enough to estimate it.
pub fn fetch_hf_repo<H: HttpClient>(http: &H, repo: &str) -> (r: Result<
    Option<CatalogModel>,
    PaddockError,
>)
    ensures
        gives_repo(http, repo@, model_outcome(r)),
{
    let answer = http.get_json(repo_url(repo).as_str());
    let ghost detail = json_outcome(answer);
    assert(http.gives_json(repo_url_of(repo@), detail));
    let v = match answer {
        Ok(v) => v,
        Err(e) => {
            assert(repo_after(http, repo@, detail, Err(e@)));
            return Err(e);
        },
    };
    let info = read_repo(&v);
    let ghost files = weights_files(items_in(member(tree(v), "siblings"@)));
    assert(info.files.deep_view() == files);
    let i: usize = match probe_file(&info.files) {
        Some(i) => i,
        None => {
            assert(files.len() == 0);
            assert(repo_after(http, repo@, detail, Ok(None)));
            return Ok(None);
        },
    };
    assert(files[i as int] == info.files@[i as int]@);
    let fetched = http.get_range(
        file_url(repo, info.files[i].name.as_str()).as_str(),
        0,
        GGUF_HEADER_PROBE_BYTES - 1,
    );
    let ghost bytes = bytes_outcome(fetched);
    assert(http.gives_range(file_url_of(repo@, files[i as int].name), 0, 2_097_151, bytes));
    let r = match fetched {
        Ok(b) => repo_model_from_bytes(repo, &info, Some(b.as_slice())),
        Err(_) => repo_model_from_bytes(repo, &info, None),
    };
    assert(r.deep_view() == repo_model_by(repo@, tree(v), bytes));
    assert(repo_by_files(http, repo@, tree(v), files, r.deep_view()));
    assert(repo_after(http, repo@, detail, Ok(r.deep_view())));
    Ok(r)
}

/// What came of a request for models.
pub open spec fn models_outcome(r: Result<Vec<CatalogModel>, PaddockError>) -> Result<
    Seq<Model>,
    Failure,
> {
    match r {
        Ok(v) => Ok(v.deep_view()),
        Err(e) => Err(e@),
    }
}

/// The models among what came of requests, in order. A request that failed
/// only costs its own model.
pub open spec fn kept_models(outcomes: Seq<Result<Option<Model>, Failure>>) -> Seq<Model>
    decreases outcomes.len(),
{
    if outcomes.len() == 0 {
        Seq::empty()
    } else {
        let before = kept_models(outcomes.drop_last());
        match outcomes.last() {
            Ok(Some(m)) => before.push(m),
            _ => before,
        }
    }
}

/// `out` may be the models of the repositories.
pub open spec fn gives_repos<H: HttpClient>(
    http: &H,
    repos: Seq<Seq<char>>,
    out: Seq<Model>,
) -> bool {
    exists|outcomes: Seq<Result<Option<Model>, Failure>>|
        {
            &&& outcomes.len() == repos.len()
            &&& forall|i: int|
                0 <= i < repos.len() ==> gives_repo(http, repos[i], #[trigger] outcomes[i])
            &&& out == #[trigger] kept_models(outcomes)
        }
}

/// `out` may be what a request for the GGUF models comes to.
pub open spec fn gives_gguf_models<H: HttpClient>(
    http: &H,
    limit: nat,
    out: Result<Seq<Model>, Failure>,
) -> bool {
    exists|list: Result<Tree, Failure>| #[trigger]
        http.gives_json(gguf_list_url_of(limit), list) && gguf_models_in(http, list, out)
}

pub open spec fn gguf_models_in<H: HttpClient>(
    http: &H,
    list: Result<Tree, Failure>,
    out: Result<Seq<Model>, Failure>,
) -> bool {
    match list {
        Err(e) => out == Err::<Seq<Model>, Failure>(e),
        Ok(t) => out is Ok && gives_repos(http, listed_repos(items_in(t)), out->Ok_0),
    }
}

/// The models of the most downloaded GGUF repositories.
pub fn fetch_hf_gguf<H: HttpClient>(http: &H, limit: usize) -> (r: Result<
    Vec<CatalogModel>,
    PaddockError,
>)
    ensures
        gives_gguf_models(http, limit as nat, models_outcome(r)),
{
    let answer = http.get_json(gguf_list_url(limit).as_str());
    let ghost list = json_outcome(answer);
    assert(http.gives_json(gguf_list_url_of(limit as nat), list));
    let v = match answer {
        Ok(v) => v,
        Err(e) => {
            assert(gguf_models_in(http, list, Err(e@)));
            return Err(e);
        },
    };
    let ids = repo_ids(&v);
    let ghost repos = ids.deep_view();
    let mut out: Vec<CatalogModel> = Vec::new();
    let ghost mut outcomes: Seq<Result<Option<Model>, Failure>> = Seq::empty();
    assert(out.deep_view() =~= kept_models(outcomes));
    let n: usize = ids.len();
    for i in 0..n
        invariant
            n == ids@.len(),
            repos == ids.deep_view(),
            outcomes.len() == i,
            forall|j: int| 0 <= j < i ==> gives_repo(http, repos[j], #[trigger] outcomes[j]),
            out.deep_view() == kept_models(outcomes),
    {
        let r = fetch_hf_repo(http, ids[i].as_str());
        let ghost before = outcomes;
        let ghost had = out.deep_view();
        proof {
            outcomes = outcomes.push(model_outcome(r));
            assert(outcomes.drop_last() =~= before);
            assert(repos[i as int] == ids@[i as int]@);
        }
        if let Ok(Some(m)) = r {
            let ghost w = m@;
            out.push(m);
            assert(out.deep_view() =~= had.push(w));
        }
    }
    assert(gives_repos(http, repos, out.deep_view()));
    assert(gguf_models_in(http, list, Ok(out.deep_view())));
    Ok(out)
}

/// The model of an MLX repository, given the answer for its configuration.
pub open spec fn mlx_model_by(repo: Seq<char>, config: Result<Tree, Failure>) -> Result<
    Option<Model>,
    Failure,
> {
    match config {
        Err(e) => Err(e),
        Ok(t) => Ok(mlx_model_in(repo, t)),
    }
}

/// The model of an MLX repository by its configuration.
pub open spec fn mlx_model_in(repo: Seq<char>, config: Tree) -> Option<Model> {
    let params = named_params(lowercase(repo));
    mlx_model_of(
        repo,
        config,
        params,
        match params {
            Some(p) => active_params(lowercase(repo), p),
            None => 0,
        },
    )
}

/// `out` may be the models of the MLX repositories.
pub open spec fn gives_mlx_repos<H: HttpClient>(
    http: &H,
    repos: Seq<Seq<char>>,
    out: Seq<Model>,
) -> bool {
    exists|configs: Seq<Result<Tree, Failure>>|
        {
            &&& configs.len() == repos.len()
            &&& forall|i: int|
                0 <= i < repos.len() ==> http.gives_json(
                    file_url_of(repos[i], "config.json"@),
                    #[trigger] configs[i],
                )
            &&& out == kept_models(#[trigger] mlx_models_by(repos, configs))
        }
}

pub open spec fn mlx_models_by(repos: Seq<Seq<char>>, configs: Seq<Result<Tree, Failure>>) -> Seq<
    Result<Option<Model>, Failure>,
> {
    Seq::new(configs.len(), |i: int| mlx_model_by(repos[i], configs[i]))
}

/// `out` may be what a request for the MLX models comes to.
pub open spec fn gives_mlx_models<H: HttpClient>(
    http: &H,
    limit: nat,
    out: Result<Seq<Model>, Failure>,
) -> bool {
    exists|list: Result<Tree, Failure>| #[trigger]
        http.gives_json(mlx_list_url_of(limit), list) && mlx_models_in(http, list, out)
}

pub open spec fn mlx_models_in<H: HttpClient>(
    http: &H,
    list: Result<Tree, Failure>,
    out: Result<Seq<Model>, Failure>,
) -> bool {
    match list {
        Err(e) => out == Err::<Seq<Model>, Failure>(e),
        Ok(t) => out is Ok && gives_mlx_repos(http, listed_repos(items_in(t)), out->Ok_0),
    }
}

/// The models of the most downloaded MLX repositories.
pub fn fetch_mlx<H: HttpClient>(http: &H, limit: usize) -> (r: Result<
    Vec<CatalogModel>,
    PaddockError,
>)
    ensures
        gives_mlx_models(http, limit as nat, models_outcome(r)),
{
    let answer = http.get_json(mlx_list_url(limit).as_str());
    let ghost list = json_outcome(answer);
    assert(http.gives_json(mlx_list_url_of(limit as nat), list));
    let v = match answer {
        Ok(v) => v,
        Err(e) => {
            assert(mlx_models_in(http, list, Err(e@)));
            return Err(e);
        },
    };
    let ids = repo_ids(&v);
    let ghost repos = ids.deep_view();
    let mut out: Vec<CatalogModel> = Vec::new();
    let ghost mut configs: Seq<Result<Tree, Failure>> = Seq::empty();
    assert(out.deep_view() =~= kept_models(mlx_models_by(repos, configs)));
    let n: usize = ids.len();
    for i in 0..n
        invariant
            n == ids@.len(),
            repos == ids.deep_view(),
            configs.len() == i,
            forall|j: int|
                0 <= j < i ==> http.gives_json(
                    file_url_of(repos[j], "config.json"@),
                    #[trigger] configs[j],
                ),
            out.deep_view() == kept_models(mlx_models_by(repos, configs)),
    {
        assert(repos[i as int] == ids@[i as int]@);
        let fetched = http.get_json(file_url(ids[i].as_str(), "config.json").as_str());
        let ghost before = mlx_models_by(repos, configs);
        let ghost had = out.deep_view();
        proof {
            configs = configs.push(json_outcome(fetched));
            assert(mlx_models_by(repos, configs).drop_last() =~= before);
        }
        if let Ok(config) = fetched {
            if let Some(m) = mlx_model(ids[i].as_str(), &config) {
                let ghost w = m@;
                out.push(m);
                assert(out.deep_view() =~= had.push(w));
            }
        }
    }
    assert(gives_mlx_repos(http, repos, out.deep_view()));
    assert(mlx_models_in(http, list, Ok(out.deep_view())));
    Ok(out)
}

/// A repository whose request fails costs no other repository its model.
pub proof fn bad_repo_costs_only_itself(
    before: Seq<Result<Option<Model>, Failure>>,
    e: Failure,
    after: Seq<Result<Option<Model>, Failure>>,
)
    ensures
        kept_models(before.push(Err(e)) + after) == kept_models(before) + kept_models(after),
        kept_models(before + after) == kept_models(before) + kept_models(after),
    decreases after.len(),
{
    let bad = before.push(Err(e));
    if after.len() == 0 {
        assert(bad + after =~= bad);
        assert(before + after =~= before);
        assert(bad.drop_last() =~= before);
        assert(kept_models(before) + kept_models(after) =~= kept_models(before));
    } else {
        let rest = after.drop_last();
        bad_repo_costs_only_itself(before, e, rest);
        assert((bad + after).drop_last() =~= bad + rest);
        assert((before + after).drop_last() =~= before + rest);
        assert((bad + after).last() == after.last());
        assert((before + after).last() == after.last());
        match after.last() {
            Ok(Some(m)) => {
                assert(kept_models(before) + kept_models(rest).push(m) =~= (kept_models(before)
                    + kept_models(rest)).push(m));
            },
            _ => {},
        }
    }
}

proof fn lemma_kept_models(outcomes: Seq<Result<Option<Model>, Failure>>, m: Model)
    requires
        kept_models(outcomes).contains(m),
    ensures
        exists|i: int|
            0 <= i < outcomes.len() && #[trigger] outcomes[i] == Ok::<Option<Model>, Failure>(
                Some(m),
            ),
    decreases outcomes.len(),
{
    if outcomes.len() > 0 {
        let before = kept_models(outcomes.drop_last());
        let all = kept_models(outcomes);
        let k = choose|k: int| 0 <= k < all.len() && all[k] == m;
        if k < before.len() {
            assert(before[k] == m);
            lemma_kept_models(outcomes.drop_last(), m);
            let i = choose|i: int|
                0 <= i < outcomes.len() - 1 && #[trigger] outcomes.drop_last()[i] == Ok::<
                    Option<Model>,
                    Failure,
                >(Some(m));
            assert(outcomes[i] == Ok::<Option<Model>, Failure>(Some(m)));
        } else {
            assert(outcomes[outcomes.len() - 1] == Ok::<Option<Model>, Failure>(Some(m)));
        }
    }
}

/// A model of a GGUF repository is one of Hugging Face.
pub proof fn gguf_models_keep_their_source<H: HttpClient>(
    http: &H,
    limit: nat,
    out: Result<Seq<Model>, Failure>,
    m: Model,
)
    requires
        gives_gguf_models(http, limit, out),
        out matches Ok(all) && all.contains(m),
    ensures
        m.source == Source::HuggingFace,
{
    let list = choose|list: Result<Tree, Failure>| #[trigger]
        http.gives_json(gguf_list_url_of(limit), list) && gguf_models_in(http, list, out);
    let repos = listed_repos(items_in(list->Ok_0));
    let outcomes = choose|outcomes: Seq<Result<Option<Model>, Failure>>|
        {
            &&& outcomes.len() == repos.len()
            &&& forall|i: int|
                0 <= i < repos.len() ==> gives_repo(http, repos[i], #[trigger] outcomes[i])
            &&& out->Ok_0 == #[trigger] kept_models(outcomes)
        };
    lemma_kept_models(outcomes, m);
    let i = choose|i: int|
        0 <= i < outcomes.len() && #[trigger] outcomes[i] == Ok::<Option<Model>, Failure>(Some(m));
    assert(gives_repo(http, repos[i], outcomes[i]));
}

/// A model of an MLX repository is one of MLX.
pub proof fn mlx_models_keep_their_source<H: HttpClient>(
    http: &H,
    limit: nat,
    out: Result<Seq<Model>, Failure>,
    m: Model,
)
    requires
        gives_mlx_models(http, limit, out),
        out matches Ok(all) && all.contains(m),
    ensures
        m.source == Source::Mlx,
{
    let list = choose|list: Result<Tree, Failure>| #[trigger]
        http.gives_json(mlx_list_url_of(limit), list) && mlx_models_in(http, list, out);
    let repos = listed_repos(items_in(list->Ok_0));
    let configs = choose|configs: Seq<Result<Tree, Failure>>|
        {
            &&& configs.len() == repos.len()
            &&& forall|i: int|
                0 <= i < repos.len() ==> http.gives_json(
                    file_url_of(repos[i], "config.json"@),
                    #[trigger] configs[i],
                )
            &&& out->Ok_0 == kept_models(#[trigger] mlx_models_by(repos, configs))
        };
    lemma_kept_models(mlx_models_by(repos, configs), m);
}

} // verus!
