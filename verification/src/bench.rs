//! Measuring the generation speed of a running server: one request to warm it
//! up, one to time.

use vstd::prelude::*;

use crate::catalog::ollama_registry::{low32, low_bits_or_zero};
use crate::catalog::sync::{base_name_of, base_of, name_parts, split_name};
use crate::catalog::{model_figures, CatalogModel, Model, RuntimeKind, Variant};
use crate::clock::{now, time_since};
use crate::double::{nearest, positive_of_bits, quotient, sum, Double};
use crate::error::{Failure, PaddockError};
use crate::estimate::Figures;
use crate::hardware::probe::SystemProbe;
use crate::json::{
    array, as_number_bits, as_u64, boolean, get, member, members, object, parse, parsed, render,
    text, tree, trees, unsigned, unsigned_in, written, Tree,
};
use crate::precision::{
    error_may_grow, is_about, nearest_is_close, quotient_is_close, same_ratio_is_close, sum_is_close,
};
use crate::rounding::rounded_is_number;
use crate::score::{better, figures_of, is_better};
use crate::text::{
    chars_of, contains, contains_chars, eq_ignore_ascii_case, has_char, lowercase, part, rfind_char,
    same_ignoring_case, starts_with, string_of, to_lowercase,
};

verus! {

/// Tokens to generate unless told otherwise: long enough to amortize the
/// request, short enough that the key/value cache does not count.
pub const DEFAULT_BENCH_TOKENS: u32 = 128;

const WARM_UP_TOKENS: u32 = 8;

/// Where a speed comes from.
#[derive(Debug, Clone, Copy, PartialEq, Eq, Structural)]
pub enum TimingSource {
    /// The server's own clock.
    ServerTimings,
    /// The time that the whole request took.
    WallClock,
}

impl TimingSource {
    pub fn label(&self) -> (r: &'static str)
        ensures
            r@ == match *self {
                TimingSource::ServerTimings => "server timings"@,
                TimingSource::WallClock => "wall clock"@,
            },
    {
        match self {
            TimingSource::ServerTimings => "server timings",
            TimingSource::WallClock => "wall clock",
        }
    }
}

/// A measured speed in tokens per second.
#[derive(Debug, Clone, Copy)]
pub struct BenchMeasurement {
    pub tps: Double,
    pub tokens: u32,
    pub timing: TimingSource,
}

/// What a response tells: the number of tokens and, where the server timed
/// them, their speed.
#[derive(Debug, Clone, Copy)]
pub struct ParsedTiming {
    pub tokens: u32,
    pub server_tps: Option<Double>,
}

// ---------------------------------------------------------------------------
// Requests
// ---------------------------------------------------------------------------

/// An open question, so that the model does not stop early.
pub const BENCH_PROMPT: &'static str =
    "Write a detailed, multi-paragraph history of the horse, from domestication to the present day.";

/// The request that has `tokens` tokens generated.
pub open spec fn request_tree(runtime: RuntimeKind, model: Seq<char>, tokens: u32) -> Tree {
    match runtime {
        RuntimeKind::Ollama => Tree::Object(
            members(
                seq![
                    ("model"@, Tree::Text(model)),
                    ("prompt"@, Tree::Text(BENCH_PROMPT@)),
                    ("stream"@, Tree::Bool(false)),
                    (
                        "options"@,
                        Tree::Object(members(seq![("num_predict"@, Tree::Unsigned(tokens as u64))])),
                    ),
                ],
            ),
        ),
        RuntimeKind::LlamaCpp => Tree::Object(
            members(
                seq![
                    ("prompt"@, Tree::Text(BENCH_PROMPT@)),
                    ("n_predict"@, Tree::Unsigned(tokens as u64)),
                    ("stream"@, Tree::Bool(false)),
                ],
            ),
        ),
        RuntimeKind::MlxLm => Tree::Object(
            members(
                seq![
                    ("model"@, Tree::Text(model)),
                    (
                        "messages"@,
                        Tree::List(
                            seq![
                                Tree::Object(
                                    members(
                                        seq![
                                            ("role"@, Tree::Text("user"@)),
                                            ("content"@, Tree::Text(BENCH_PROMPT@)),
                                        ],
                                    ),
                                ),
                            ],
                        ),
                    ),
                    ("max_tokens"@, Tree::Unsigned(tokens as u64)),
                    ("stream"@, Tree::Bool(false)),
                ],
            ),
        ),
    }
}

/// The path of the request.
pub open spec fn request_path(runtime: RuntimeKind) -> Seq<char> {
    match runtime {
        RuntimeKind::Ollama => "/api/generate"@,
        RuntimeKind::LlamaCpp => "/completion"@,
        RuntimeKind::MlxLm => "/v1/chat/completions"@,
    }
}

/// Each runtime is asked at a path of its own, from the root.
pub proof fn request_paths_differ(a: RuntimeKind, b: RuntimeKind)
    ensures
        request_path(a).len() > 0 && request_path(a)[0] == '/',
        request_path(a) == request_path(b) ==> a == b,
{
    reveal_strlit("/api/generate");
    reveal_strlit("/completion");
    reveal_strlit("/v1/chat/completions");
    assert("/api/generate"@.len() == 13 && "/completion"@.len() == 11
        && "/v1/chat/completions"@.len() == 20);
}

/// `s` without the slashes behind.
pub open spec fn without_slashes(s: Seq<char>) -> Seq<char>
    decreases s.len(),
{
    if s.len() > 0 && s.last() == '/' {
        without_slashes(s.drop_last())
    } else {
        s
    }
}

/// Nothing but slashes goes from the end of an address, and none is left there.
pub proof fn only_slashes_are_cut(s: Seq<char>)
    ensures
        without_slashes(s).is_prefix_of(s),
        without_slashes(s).len() > 0 ==> without_slashes(s).last() != '/',
        forall|i: int| without_slashes(s).len() <= i < s.len() ==> s[i] == '/',
    decreases s.len(),
{
    if s.len() > 0 && s.last() == '/' {
        only_slashes_are_cut(s.drop_last());
        assert forall|i: int| without_slashes(s).len() <= i < s.len() implies s[i] == '/' by {
            if i < s.len() - 1 {
                assert(s.drop_last()[i] == s[i]);
            }
        }
    }
}

/// Where each runtime wants the number of tokens.
pub open spec fn tokens_asked(runtime: RuntimeKind, t: Tree) -> Tree {
    match runtime {
        RuntimeKind::Ollama => member(member(t, "options"@), "num_predict"@),
        RuntimeKind::LlamaCpp => member(t, "n_predict"@),
        RuntimeKind::MlxLm => member(t, "max_tokens"@),
    }
}

/// Every runtime is asked for as many tokens as were wanted, in one piece, and
/// those that serve several models for the model that is served.
pub proof fn request_asks_for_the_tokens(runtime: RuntimeKind, model: Seq<char>, tokens: u32)
    ensures
        ({
            let t = request_tree(runtime, model, tokens);
            &&& tokens_asked(runtime, t) == Tree::Unsigned(tokens as u64)
            &&& member(t, "stream"@) == Tree::Bool(false)
            &&& runtime != RuntimeKind::LlamaCpp ==> member(t, "model"@) == Tree::Text(model)
            &&& runtime != RuntimeKind::MlxLm ==> member(t, "prompt"@) == Tree::Text(BENCH_PROMPT@)
        }),
{
    reveal_strlit("model");
    reveal_strlit("prompt");
    reveal_strlit("stream");
    reveal_strlit("options");
    reveal_strlit("messages");
    reveal_strlit("max_tokens");
    reveal_strlit("n_predict");
    assert("model"@.len() == 5 && "prompt"@.len() == 6 && "stream"@.len() == 6);
    assert("options"@.len() == 7 && "messages"@.len() == 8 && "max_tokens"@.len() == 10);
    assert("n_predict"@.len() == 9);
    assert("prompt"@[0] == 'p' && "stream"@[0] == 's');
    reveal_with_fuel(members, 5);
    let t = request_tree(runtime, model, tokens);
    match runtime {
        RuntimeKind::Ollama => {
            let options = seq![("num_predict"@, Tree::Unsigned(tokens as u64))];
            let all = seq![
                ("model"@, Tree::Text(model)),
                ("prompt"@, Tree::Text(BENCH_PROMPT@)),
                ("stream"@, Tree::Bool(false)),
                ("options"@, Tree::Object(members(options))),
            ];
            assert(t == Tree::Object(members(all)));
            assert(all.drop_last() =~= all.take(3));
            assert(all.take(3).drop_last() =~= all.take(2));
            assert(all.take(2).drop_last() =~= all.take(1));
            assert(options.drop_last().len() == 0);
            assert(all.take(1).drop_last().len() == 0);
        },
        RuntimeKind::LlamaCpp => {
            let all = seq![
                ("prompt"@, Tree::Text(BENCH_PROMPT@)),
                ("n_predict"@, Tree::Unsigned(tokens as u64)),
                ("stream"@, Tree::Bool(false)),
            ];
            assert(t == Tree::Object(members(all)));
            assert(all.drop_last() =~= all.take(2));
            assert(all.take(2).drop_last() =~= all.take(1));
            assert(all.take(1).drop_last().len() == 0);
        },
        RuntimeKind::MlxLm => {
            let message = Tree::Object(
                members(
                    seq![
                        ("role"@, Tree::Text("user"@)),
                        ("content"@, Tree::Text(BENCH_PROMPT@)),
                    ],
                ),
            );
            let all = seq![
                ("model"@, Tree::Text(model)),
                ("messages"@, Tree::List(seq![message])),
                ("max_tokens"@, Tree::Unsigned(tokens as u64)),
                ("stream"@, Tree::Bool(false)),
            ];
            assert(t == Tree::Object(members(all)));
            assert(all.drop_last() =~= all.take(3));
            assert(all.take(3).drop_last() =~= all.take(2));
            assert(all.take(2).drop_last() =~= all.take(1));
            assert(all.take(1).drop_last().len() == 0);
        },
    }
}

pub(crate) fn trim_slashes(s: &str) -> (r: String)
    ensures
        r@ == without_slashes(s@),
{
    let cs = chars_of(s);
    let mut n: usize = cs.len();
    assert(cs@.take(n as int) =~= cs@);
    while n > 0 && cs[n - 1] == '/'
        invariant
            n <= cs@.len(),
            without_slashes(cs@) == without_slashes(cs@.take(n as int)),
        decreases n,
    {
        assert(cs@.take(n as int).drop_last() =~= cs@.take(n as int - 1));
        n = n - 1;
    }
    assert(cs@.subrange(0, n as int) =~= cs@.take(n as int));
    string_of(&part(&cs, 0, n))
}

/// The members of an object without their storage.
spec fn fields_of(f: Seq<(String, serde_json::Value)>) -> Seq<(Seq<char>, Tree)> {
    f.map_values(|f: (String, serde_json::Value)| (f.0@, tree(f.1)))
}

fn request_value(runtime: RuntimeKind, model_ref: &str, tokens: u32) -> (r: serde_json::Value)
    ensures
        tree(r) == request_tree(runtime, model_ref@, tokens),
{
    let mut f: Vec<(String, serde_json::Value)> = Vec::new();
    match runtime {
        RuntimeKind::Ollama => {
            let mut options: Vec<(String, serde_json::Value)> = Vec::new();
            options.push(("num_predict".to_owned(), unsigned(tokens as u64)));
            assert(fields_of(options@) =~= seq![("num_predict"@, Tree::Unsigned(tokens as u64))]);
            let inner = object(options);
            f.push(("model".to_owned(), text(model_ref)));
            f.push(("prompt".to_owned(), text(BENCH_PROMPT)));
            f.push(("stream".to_owned(), boolean(false)));
            f.push(("options".to_owned(), inner));
            assert(fields_of(f@) =~= seq![
                ("model"@, Tree::Text(model_ref@)),
                ("prompt"@, Tree::Text(BENCH_PROMPT@)),
                ("stream"@, Tree::Bool(false)),
                ("options"@, tree(inner)),
            ]);
        },
        RuntimeKind::LlamaCpp => {
            f.push(("prompt".to_owned(), text(BENCH_PROMPT)));
            f.push(("n_predict".to_owned(), unsigned(tokens as u64)));
            f.push(("stream".to_owned(), boolean(false)));
            assert(fields_of(f@) =~= seq![
                ("prompt"@, Tree::Text(BENCH_PROMPT@)),
                ("n_predict"@, Tree::Unsigned(tokens as u64)),
                ("stream"@, Tree::Bool(false)),
            ]);
        },
        RuntimeKind::MlxLm => {
            let mut message: Vec<(String, serde_json::Value)> = Vec::new();
            message.push(("role".to_owned(), text("user")));
            message.push(("content".to_owned(), text(BENCH_PROMPT)));
            assert(fields_of(message@) =~= seq![
                ("role"@, Tree::Text("user"@)),
                ("content"@, Tree::Text(BENCH_PROMPT@)),
            ]);
            let inner = object(message);
            let mut list: Vec<serde_json::Value> = Vec::new();
            list.push(inner);
            assert(trees(list@) =~= seq![tree(inner)]);
            let messages = array(list);
            f.push(("model".to_owned(), text(model_ref)));
            f.push(("messages".to_owned(), messages));
            f.push(("max_tokens".to_owned(), unsigned(tokens as u64)));
            f.push(("stream".to_owned(), boolean(false)));
            assert(fields_of(f@) =~= seq![
                ("model"@, Tree::Text(model_ref@)),
                ("messages"@, tree(messages)),
                ("max_tokens"@, Tree::Unsigned(tokens as u64)),
                ("stream"@, Tree::Bool(false)),
            ]);
        },
    }
    object(f)
}

/// The URL and the JSON text of a request that has `tokens` tokens generated.
pub fn bench_request(runtime: RuntimeKind, endpoint: &str, model_ref: &str, tokens: u32) -> (r: (
    String,
    String,
))
    ensures
        r.0@ == without_slashes(endpoint@) + request_path(runtime),
        r.1@ == written(request_tree(runtime, model_ref@, tokens)),
{
    let mut url = trim_slashes(endpoint);
    match runtime {
        RuntimeKind::Ollama => url.append("/api/generate"),
        RuntimeKind::LlamaCpp => url.append("/completion"),
        RuntimeKind::MlxLm => url.append("/v1/chat/completions"),
    }
    (url, render(&request_value(runtime, model_ref, tokens)))
}

// ---------------------------------------------------------------------------
// Responses
// ---------------------------------------------------------------------------

pub open spec fn missing_failure(field: Seq<char>) -> Failure {
    Failure::Other(
        "bench: server response has no `"@ + field
            + "` field; cannot count generated tokens"@,
    )
}

fn missing(field: &str) -> (r: PaddockError)
    ensures
        r@ == missing_failure(field@),
{
    let mut m = "bench: server response has no `".to_owned();
    m.append(field);
    m.append("` field; cannot count generated tokens");
    PaddockError::Other(m)
}

/// A number above zero, to double precision.
pub open spec fn positive_in(t: Tree) -> Option<(nat, int)> {
    match t {
        Tree::Unsigned(n) => if n > 0 {
            Some(nearest(n as nat, 1))
        } else {
            None
        },
        Tree::Number(bits) => positive_of_bits(bits),
        _ => None,
    }
}

/// Tokens per second: a number of tokens over nanoseconds.
pub open spec fn tokens_per_second(tokens: u32, nanos: u64) -> (nat, int) {
    quotient(
        nearest(tokens as nat, 1),
        quotient(nearest(nanos as nat, 1), nearest(1_000_000_000, 1)),
    )
}

/// What a response tells: the tokens and their speed, or the field that is
/// missing.
pub open spec fn timing_in(runtime: RuntimeKind, t: Tree) -> Result<
    (u32, Option<(nat, int)>),
    Failure,
> {
    match runtime {
        RuntimeKind::Ollama => match unsigned_in(member(t, "eval_count"@)) {
            None => Err(missing_failure("eval_count"@)),
            Some(n) => Ok(
                (
                    low32(n),
                    match unsigned_in(member(t, "eval_duration"@)) {
                        Some(ns) if ns > 0 => Some(tokens_per_second(low32(n), ns)),
                        _ => None,
                    },
                ),
            ),
        },
        RuntimeKind::LlamaCpp => {
            let timings = member(t, "timings"@);
            let count = match unsigned_in(member(timings, "predicted_n"@)) {
                Some(n) => Some(n),
                None => unsigned_in(member(t, "tokens_predicted"@)),
            };
            match count {
                None => Err(missing_failure("tokens_predicted"@)),
                Some(n) => Ok(
                    (low32(n), positive_in(member(timings, "predicted_per_second"@))),
                ),
            }
        },
        RuntimeKind::MlxLm => match unsigned_in(
            member(member(t, "usage"@), "completion_tokens"@),
        ) {
            None => Err(missing_failure("usage.completion_tokens"@)),
            Some(n) => Ok((low32(n), None)),
        },
    }
}

/// What a server counted are the tokens, and the speed is its own: Ollama's from
/// the nanoseconds that it gives, llama.cpp's as it gives it; MLX gives none.
/// Where a server counts nothing there is no measurement.
pub proof fn counts_are_taken_from_the_server(runtime: RuntimeKind, t: Tree)
    ensures
        ({
            let count = match runtime {
                RuntimeKind::Ollama => unsigned_in(member(t, "eval_count"@)),
                RuntimeKind::LlamaCpp => if unsigned_in(
                    member(member(t, "timings"@), "predicted_n"@),
                ) is Some {
                    unsigned_in(member(member(t, "timings"@), "predicted_n"@))
                } else {
                    unsigned_in(member(t, "tokens_predicted"@))
                },
                RuntimeKind::MlxLm => unsigned_in(
                    member(member(t, "usage"@), "completion_tokens"@),
                ),
            };
            &&& timing_in(runtime, t) is Ok <==> count is Some
            &&& count is Some && count->Some_0 <= u32::MAX ==> timing_in(runtime, t)->Ok_0.0
                == count->Some_0
            &&& runtime == RuntimeKind::MlxLm ==> timing_in(runtime, t) is Err || timing_in(
                runtime,
                t,
            )->Ok_0.1 is None
            &&& runtime == RuntimeKind::Ollama && count is Some && 0 < count->Some_0 <= u32::MAX ==> (
            match unsigned_in(member(t, "eval_duration"@)) {
                Some(ns) => if ns > 0 {
                    timing_in(runtime, t)->Ok_0.1 is Some && is_about(
                        timing_in(runtime, t)->Ok_0.1->Some_0,
                        (count->Some_0 * 1_000_000_000) as nat,
                        ns as nat,
                        11,
                    )
                } else {
                    timing_in(runtime, t)->Ok_0.1 is None
                },
                None => timing_in(runtime, t)->Ok_0.1 is None,
            })
        }),
{
    if runtime == RuntimeKind::Ollama {
        if let Some(n) = unsigned_in(member(t, "eval_count"@)) {
            if let Some(ns) = unsigned_in(member(t, "eval_duration"@)) {
                if 0 < n && n <= u32::MAX && ns > 0 {
                    speed_is_tokens_over_time(n as u32, ns);
                }
            }
        }
    }
}

/// A speed with an exponent that further arithmetic can take.
pub open spec fn is_speed(d: Double) -> bool {
    d.wf() && d.mantissa != 0 && -2_000 <= d.exponent <= 2_000
}

/// What a parsed timing says.
pub open spec fn is_timing(p: ParsedTiming, tokens: u32, tps: Option<(nat, int)>) -> bool {
    &&& p.tokens == tokens
    &&& match p.server_tps {
        Some(d) => tps == Some(d@) && d.wf() && -2_000 <= d.exponent <= 2_000,
        None => tps is None,
    }
}

fn positive_number(v: &serde_json::Value) -> (r: Option<Double>)
    ensures
        match r {
            Some(d) => positive_in(tree(*v)) == Some(d@) && is_speed(d),
            None => positive_in(tree(*v)) is None,
        },
{
    match as_u64(v) {
        Some(n) => if n > 0 {
            Some(Double::of_ratio(n, 1))
        } else {
            None
        },
        None => match as_number_bits(v) {
            Some(bits) => Double::from_bits(bits),
            None => None,
        },
    }
}

/// What a response tells.
pub fn timing_of(runtime: RuntimeKind, v: &serde_json::Value) -> (r: Result<
    ParsedTiming,
    PaddockError,
>)
    ensures
        match timing_in(runtime, tree(*v)) {
            Ok((tokens, tps)) => r is Ok && is_timing(r->Ok_0, tokens, tps),
            Err(f) => r is Err && r->Err_0@ == f,
        },
{
    match runtime {
        RuntimeKind::Ollama => {
            let count: Option<u64> = as_u64(get(v, "eval_count"));
            if count.is_none() {
                return Err(missing("eval_count"));
            }
            let tokens: u32 = low_bits_or_zero(count);
            let server_tps: Option<Double> = match as_u64(get(v, "eval_duration")) {
                Some(ns) => if ns > 0 {
                    let seconds = Double::of_ratio(ns, 1).over(Double::of_ratio(1_000_000_000, 1));
                    Some(Double::of_ratio(tokens as u64, 1).over(seconds))
                } else {
                    None
                },
                None => None,
            };
            Ok(ParsedTiming { tokens, server_tps })
        },
        RuntimeKind::LlamaCpp => {
            let timings = get(v, "timings");
            let count: Option<u64> = match as_u64(get(timings, "predicted_n")) {
                Some(n) => Some(n),
                None => as_u64(get(v, "tokens_predicted")),
            };
            if count.is_none() {
                return Err(missing("tokens_predicted"));
            }
            Ok(
                ParsedTiming {
                    tokens: low_bits_or_zero(count),
                    server_tps: positive_number(get(timings, "predicted_per_second")),
                },
            )
        },
        RuntimeKind::MlxLm => {
            let count: Option<u64> = as_u64(get(get(v, "usage"), "completion_tokens"));
            if count.is_none() {
                return Err(missing("usage.completion_tokens"));
            }
            Ok(ParsedTiming { tokens: low_bits_or_zero(count), server_tps: None })
        },
    }
}

/// What the text of a response tells.
pub open spec fn timing_told(runtime: RuntimeKind, body: Seq<char>) -> Result<
    (u32, Option<(nat, int)>),
    Failure,
> {
    match parsed(body) {
        Ok(t) => timing_in(runtime, t),
        Err(e) => Err(Failure::Other("bench: unparseable server response: "@ + e)),
    }
}

/// What the text of a response tells.
pub fn parse_timing(runtime: RuntimeKind, body: &str) -> (r: Result<ParsedTiming, PaddockError>)
    ensures
        match timing_told(runtime, body@) {
            Ok((tokens, tps)) => r is Ok && is_timing(r->Ok_0, tokens, tps),
            Err(f) => r is Err && r->Err_0@ == f,
        },
{
    match parse(body) {
        Ok(v) => timing_of(runtime, &v),
        Err(e) => {
            let mut m = "bench: unparseable server response: ".to_owned();
            m.append(e.as_str());
            Err(PaddockError::Other(m))
        },
    }
}

// ---------------------------------------------------------------------------
// Measurements
// ---------------------------------------------------------------------------

/// Seconds of a time in seconds and nanoseconds.
pub open spec fn seconds(secs: u64, nanos: u32) -> (nat, int) {
    sum(nearest(secs as nat, 1), quotient(nearest(nanos as nat, 1), nearest(1_000_000_000, 1)))
}

/// The speed of a timing: the server's where it gave one, else tokens over
/// the time that the request took.
pub open spec fn final_speed(
    tokens: u32,
    server_tps: Option<(nat, int)>,
    secs: u64,
    nanos: u32,
) -> Result<((nat, int), TimingSource), Failure> {
    if tokens == 0 {
        Err(
            Failure::Other(
                "bench: server generated 0 tokens; is the model loaded?"@,
            ),
        )
    } else {
        match server_tps {
            Some(tps) => Ok((tps, TimingSource::ServerTimings)),
            None => if secs == 0 && nanos == 0 {
                Err(Failure::Other("bench: zero wall time for the generation request"@))
            } else {
                Ok(
                    (
                        quotient(nearest(tokens as nat, 1), seconds(secs, nanos)),
                        TimingSource::WallClock,
                    ),
                )
            },
        }
    }
}

/// The speed from a server's counts is the tokens over the seconds: but for
/// eleven parts in 2^53.
pub proof fn speed_is_tokens_over_time(tokens: u32, nanos: u64)
    requires
        tokens > 0,
        nanos > 0,
    ensures
        is_about(
            tokens_per_second(tokens, nanos),
            (tokens * 1_000_000_000) as nat,
            nanos as nat,
            11,
        ),
{
    nearest_is_close(tokens as nat, 1);
    nearest_is_close(nanos as nat, 1);
    nearest_is_close(1_000_000_000, 1);
    let (x, y) = (nearest(nanos as nat, 1), nearest(1_000_000_000, 1));
    quotient_is_close(x, y, nanos as nat, 1, 1_000_000_000, 1, 1, 1);
    quotient_is_close(
        nearest(tokens as nat, 1),
        quotient(x, y),
        tokens as nat,
        1,
        nanos as nat * 1,
        1 * 1_000_000_000,
        1,
        6,
    );
}

/// The clock's seconds and nanoseconds make the time that they say: but for
/// eight parts in 2^53.
pub proof fn seconds_and_nanoseconds_add_up(secs: u64, nanos: u32)
    requires
        secs > 0 || nanos > 0,
    ensures
        is_about(
            seconds(secs, nanos),
            (secs * 1_000_000_000 + nanos) as nat,
            1_000_000_000,
            8,
        ),
{
    nearest_is_close(1_000_000_000, 1);
    let (x, z) = (nearest(secs as nat, 1), nearest(nanos as nat, 1));
    let y = quotient(z, nearest(1_000_000_000, 1));
    if nanos > 0 {
        nearest_is_close(nanos as nat, 1);
        quotient_is_close(
            z,
            nearest(1_000_000_000, 1),
            nanos as nat,
            1,
            1_000_000_000,
            1,
            1,
            1,
        );
        rounded_is_number(nanos as nat, 1, 0);
        rounded_is_number(1_000_000_000, 1, 0);
        rounded_is_number(z.0, nearest(1_000_000_000, 1).0, z.1 - nearest(1_000_000_000, 1).1);
        if secs > 0 {
            nearest_is_close(secs as nat, 1);
            rounded_is_number(secs as nat, 1, 0);
            error_may_grow(x, secs as nat, 1, 1, 6);
            sum_is_close(x, y, secs as nat, 1, nanos as nat * 1, 1 * 1_000_000_000, 6);
        } else {
            assert(x.0 == 0);
            error_may_grow(y, nanos as nat * 1, 1 * 1_000_000_000, 6, 8);
        }
    } else {
        rounded_is_number(1_000_000_000, 1, 0);
        rounded_is_number(0, nearest(1_000_000_000, 1).0, z.1 - nearest(1_000_000_000, 1).1);
        assert(y.0 == 0);
        nearest_is_close(secs as nat, 1);
        rounded_is_number(secs as nat, 1, 0);
        same_ratio_is_close(
            x,
            secs as nat,
            1,
            secs as nat * 1_000_000_000,
            1_000_000_000,
            1,
        );
        error_may_grow(x, secs as nat * 1_000_000_000, 1_000_000_000, 1, 8);
    }
}

/// What the server timed goes before the clock; by the clock the speed is the
/// tokens over the time, but for thirteen parts in 2^53. No tokens are no
/// measurement.
pub proof fn server_speed_goes_before_the_clock(
    tokens: u32,
    server: Option<(nat, int)>,
    secs: u64,
    nanos: u32,
)
    ensures
        tokens == 0 ==> final_speed(tokens, server, secs, nanos) is Err,
        tokens > 0 && server is Some ==> final_speed(tokens, server, secs, nanos) == Ok::<
            ((nat, int), TimingSource),
            Failure,
        >((server->Some_0, TimingSource::ServerTimings)),
        tokens > 0 && server is None && (secs > 0 || nanos > 0) ==> (final_speed(
            tokens,
            server,
            secs,
            nanos,
        ) matches Ok((tps, source)) && source == TimingSource::WallClock && is_about(
            tps,
            (tokens * 1_000_000_000) as nat,
            (secs * 1_000_000_000 + nanos) as nat,
            13,
        )),
{
    if tokens > 0 && server is None && (secs > 0 || nanos > 0) {
        seconds_and_nanoseconds_add_up(secs, nanos);
        nearest_is_close(tokens as nat, 1);
        let t = (secs * 1_000_000_000 + nanos) as nat;
        quotient_is_close(
            nearest(tokens as nat, 1),
            seconds(secs, nanos),
            tokens as nat,
            1,
            t,
            1_000_000_000,
            1,
            8,
        );
    }
}

/// The measurement that a timing and the time of the request give.
pub fn finalize(timing: ParsedTiming, secs: u64, nanos: u32) -> (r: Result<
    BenchMeasurement,
    PaddockError,
>)
    ensures
        match final_speed(
            timing.tokens,
            match timing.server_tps {
                Some(d) => Some(d@),
                None => None,
            },
            secs,
            nanos,
        ) {
            Ok((tps, source)) => r is Ok && r->Ok_0.tps@ == tps && r->Ok_0.tokens == timing.tokens
                && r->Ok_0.timing == source,
            Err(f) => r is Err && r->Err_0@ == f,
        },
{
    if timing.tokens == 0 {
        return Err(
            PaddockError::Other(
                "bench: server generated 0 tokens; is the model loaded?".to_owned(),
            ),
        );
    }
    if let Some(tps) = timing.server_tps {
        return Ok(
            BenchMeasurement { tps, tokens: timing.tokens, timing: TimingSource::ServerTimings },
        );
    }
    if secs == 0 && nanos == 0 {
        return Err(
            PaddockError::Other("bench: zero wall time for the generation request".to_owned()),
        );
    }
    let fraction = Double::of_ratio(nanos as u64, 1).over(Double::of_ratio(1_000_000_000, 1));
    let time = Double::of_ratio(secs, 1).plus(fraction);
    Ok(
        BenchMeasurement {
            tps: Double::of_ratio(timing.tokens as u64, 1).over(time),
            tokens: timing.tokens,
            timing: TimingSource::WallClock,
        },
    )
}

pub open spec fn unreachable_failure(endpoint: Seq<char>) -> Failure {
    Failure::Other(
        "bench: no answer from "@ + endpoint
            + "; the server died or refused the request (check `paddock ps` / `paddock logs`)"@,
    )
}

fn no_answer(endpoint: &str) -> (r: PaddockError)
    ensures
        r@ == unreachable_failure(endpoint@),
{
    let mut m = "bench: no answer from ".to_owned();
    m.append(endpoint);
    m.append("; the server died or refused the request (check `paddock ps` / `paddock logs`)");
    PaddockError::Other(m)
}

/// What comes of a reply after a time.
pub open spec fn outcome(
    runtime: RuntimeKind,
    endpoint: Seq<char>,
    reply: Option<Seq<char>>,
    secs: u64,
    nanos: u32,
) -> Result<(u32, ((nat, int), TimingSource)), Failure> {
    match reply {
        None => Err(unreachable_failure(endpoint)),
        Some(body) => match timing_told(runtime, body) {
            Err(f) => Err(f),
            Ok((tokens, tps)) => match final_speed(tokens, tps, secs, nanos) {
                Ok(s) => Ok((tokens, s)),
                Err(f) => Err(f),
            },
        },
    }
}

/// `r` says what `o` says.
pub open spec fn is_outcome(
    r: Result<BenchMeasurement, PaddockError>,
    o: Result<(u32, ((nat, int), TimingSource)), Failure>,
) -> bool {
    match o {
        Ok((tokens, (tps, source))) => r is Ok && r->Ok_0.tps@ == tps && r->Ok_0.tokens == tokens
            && r->Ok_0.timing == source,
        Err(f) => r is Err && r->Err_0@ == f,
    }
}

/// What comes of a reply after a time.
pub fn measured(
    runtime: RuntimeKind,
    endpoint: &str,
    reply: Option<String>,
    secs: u64,
    nanos: u32,
) -> (r: Result<BenchMeasurement, PaddockError>)
    ensures
        is_outcome(r, outcome(runtime, endpoint@, reply.deep_view(), secs, nanos)),
{
    match reply {
        None => Err(no_answer(endpoint)),
        Some(body) => match parse_timing(runtime, body.as_str()) {
            Ok(t) => finalize(t, secs, nanos),
            Err(e) => Err(e),
        },
    }
}

/// `r` is what a measurement may give: a server that does not answer the
/// request to warm it up is unreachable; else the second reply and the time
/// that it took decide.
pub open spec fn may_measure<P: SystemProbe>(
    probe: P,
    runtime: RuntimeKind,
    endpoint: Seq<char>,
    model: Seq<char>,
    tokens: u32,
    r: Result<BenchMeasurement, PaddockError>,
) -> bool {
    let url = without_slashes(endpoint) + request_path(runtime);
    exists|warm: Option<Seq<char>>|
        {
            &&& #[trigger] probe.tells_reply(url, written(request_tree(runtime, model, 8)), warm)
            &&& warm is None ==> r is Err && r->Err_0@ == unreachable_failure(endpoint)
            &&& warm is Some ==> exists|reply: Option<Seq<char>>, secs: u64, nanos: u32|
                {
                    &&& probe.tells_reply(url, written(request_tree(runtime, model, tokens)), reply)
                    &&& is_outcome(r, #[trigger] outcome(runtime, endpoint, reply, secs, nanos))
                }
        }
}

/// Warms a server up, then times one generation of `tokens` tokens.
pub fn measure<P: SystemProbe>(
    probe: &P,
    runtime: RuntimeKind,
    endpoint: &str,
    model_ref: &str,
    tokens: u32,
) -> (r: Result<BenchMeasurement, PaddockError>)
    ensures
        may_measure(*probe, runtime, endpoint@, model_ref@, tokens, r),
{
    let (url, warm_body) = bench_request(runtime, endpoint, model_ref, WARM_UP_TOKENS);
    let warm = probe.http_post_local(url.as_str(), warm_body.as_str());
    assert(probe.tells_reply(
        url@,
        written(request_tree(runtime, model_ref@, 8)),
        warm.deep_view(),
    ));
    if warm.is_none() {
        return Err(no_answer(endpoint));
    }
    let (url, body) = bench_request(runtime, endpoint, model_ref, tokens);
    let start = now();
    let reply = probe.http_post_local(url.as_str(), body.as_str());
    let (secs, nanos) = time_since(&start);
    let ghost told = reply.deep_view();
    let r = measured(runtime, endpoint, reply, secs, nanos);
    assert(is_outcome(r, outcome(runtime, endpoint@, told, secs, nanos)));
    r
}

// ---------------------------------------------------------------------------
// From a served name back to the catalog
// ---------------------------------------------------------------------------

/// The first of the positions from `k` up to `n` that has the property.
pub open spec fn first_with(n: int, fits: spec_fn(int) -> bool, k: int) -> Option<int>
    decreases n - k,
{
    if k < 0 || k >= n {
        None
    } else if fits(k) {
        Some(k)
    } else {
        first_with(n, fits, k + 1)
    }
}

/// The variant of the best quality among the first `n`, which are one at least.
pub open spec fn leader(figs: Seq<Figures>, n: int) -> int
    decreases n,
{
    if n <= 1 {
        0
    } else {
        let b = leader(figs, n - 1);
        if better(figs, n - 1, b) {
            n - 1
        } else {
            b
        }
    }
}

/// The variant of the best quality.
pub open spec fn best_quality(figs: Seq<Figures>) -> Option<int> {
    if figs.len() == 0 {
        None
    } else {
        Some(leader(figs, figs.len() as int))
    }
}

/// The leader is of better quality than every other variant.
pub proof fn leader_is_best(figs: Seq<Figures>, n: int)
    requires
        1 <= n <= figs.len(),
    ensures
        0 <= leader(figs, n) < n,
        forall|j: int| 0 <= j < n && j != leader(figs, n) ==> #[trigger] better(
            figs,
            leader(figs, n),
            j,
        ),
    decreases n,
{
    if n > 1 {
        leader_is_best(figs, n - 1);
        let b = leader(figs, n - 1);
        crate::score::quality_is_total(figs, n - 1, b);
        assert forall|j: int| 0 <= j < n && j != leader(figs, n) implies #[trigger] better(
            figs,
            leader(figs, n),
            j,
        ) by {
            if better(figs, n - 1, b) && j != b {
                crate::score::quality_is_transitive(figs, n - 1, b, j);
            }
        }
    }
}

fn best_quality_idx(m: &CatalogModel) -> (r: Option<usize>)
    ensures
        match r {
            Some(i) => best_quality(model_figures(m@)) == Some(i as int),
            None => best_quality(model_figures(m@)) is None,
        },
{
    let vs = m.model_variants();
    let ghost figs = figures_of(vs@);
    if vs.len() == 0 {
        return None;
    }
    let mut best: usize = 0;
    let mut k: usize = 1;
    while k < vs.len()
        invariant
            figs == figures_of(vs@),
            1 <= k <= vs@.len(),
            best < k,
            best == leader(figs, k as int),
        decreases vs@.len() - k,
    {
        if is_better(vs.as_slice(), k, best) {
            best = k;
        }
        k = k + 1;
    }
    Some(best)
}

/// The parts of a repository reference: the repository, and the quantization
/// behind the last colon.
pub open spec fn repo_parts(s: Seq<char>) -> (Seq<char>, Option<Seq<char>>) {
    match s.index_of_last(':') {
        Some(i) => (s.take(i), Some(s.skip(i + 1))),
        None => (s, None),
    }
}

/// The model and the variant that a repository reference names, whatever its
/// case.
pub open spec fn resolve_repo(models: Seq<Model>, s: Seq<char>) -> Option<(int, int)> {
    let (repo, quant) = repo_parts(s);
    match first_with(
        models.len() as int,
        |i: int| models[i].repo matches Some(r) && same_ignoring_case(r, repo),
        0,
    ) {
        None => None,
        Some(mi) => {
            let m = models[mi];
            let vi = match quant {
                Some(q) => first_with(
                    m.variants.len() as int,
                    |j: int| same_ignoring_case(m.variants[j].quant, q),
                    0,
                ),
                None => best_quality(model_figures(m)),
            };
            match vi {
                Some(vi) => Some((mi, vi)),
                None => None,
            }
        },
    }
}

/// The first variant with exactly this library tag, whatever its case.
pub open spec fn tag_variant(m: Model, tag: Seq<char>) -> Option<int> {
    first_with(
        m.variants.len() as int,
        |j: int| m.variants[j].source_tag matches Some(t) && same_ignoring_case(t, tag),
        0,
    )
}

/// The first model, from `k` on, with this base name and a variant with
/// exactly this tag.
pub open spec fn resolve_tag(models: Seq<Model>, base: Seq<char>, tag: Seq<char>, k: int) -> Option<
    (int, int),
>
    decreases models.len() - k,
{
    if k < 0 || k >= models.len() {
        None
    } else if same_ignoring_case(base_of(models[k].name), base) && tag_variant(
        models[k],
        tag,
    ) is Some {
        Some((k, tag_variant(models[k], tag)->Some_0))
    } else {
        resolve_tag(models, base, tag, k + 1)
    }
}

/// The first variant whose quantization, in lower case, stands in the tag.
pub open spec fn quant_in_tag(quants_low: Seq<Seq<char>>, tag_low: Seq<char>) -> Option<int> {
    first_with(quants_low.len() as int, |j: int| contains(tag_low, quants_low[j]), 0)
}

pub open spec fn lowered_quants(m: Model) -> Seq<Seq<char>> {
    m.variants.map_values(|v: Variant| lowercase(v.quant))
}

/// The model and the variant that a library reference names: an exact tag,
/// else a whole name, else a base name with the quantization that the tag
/// holds, else with the best one.
pub open spec fn resolve_library(models: Seq<Model>, s: Seq<char>) -> Option<(int, int)> {
    let (base, tag) = match name_parts(s) {
        Some((b, t)) => (b, Some(t)),
        None => (s, None),
    };
    let by_tag = match tag {
        Some(t) => resolve_tag(models, base, t, 0),
        None => None,
    };
    let by_name = first_with(
        models.len() as int,
        |i: int| same_ignoring_case(models[i].name, s),
        0,
    );
    let by_base = first_with(
        models.len() as int,
        |i: int| same_ignoring_case(base_of(models[i].name), base),
        0,
    );
    if by_tag is Some {
        by_tag
    } else if let Some(mi) = by_name {
        match best_quality(model_figures(models[mi])) {
            Some(vi) => Some((mi, vi)),
            None => None,
        }
    } else if let Some(mi) = by_base {
        let m = models[mi];
        let in_tag = match tag {
            Some(t) => quant_in_tag(lowered_quants(m), lowercase(t)),
            None => None,
        };
        match in_tag {
            Some(vi) => Some((mi, vi)),
            None => match best_quality(model_figures(m)) {
                Some(vi) => Some((mi, vi)),
                None => None,
            },
        }
    } else {
        None
    }
}

/// A reference without the host of its repository.
pub open spec fn without_host(s: Seq<char>) -> Seq<char> {
    if "hf.co/"@.is_prefix_of(s) {
        s.skip(6)
    } else {
        s
    }
}

/// The model and the variant that a served name stands for.
pub open spec fn resolve(models: Seq<Model>, served: Seq<char>) -> Option<(int, int)> {
    let s = without_host(served);
    if s.contains('/') {
        resolve_repo(models, s)
    } else {
        resolve_library(models, s)
    }
}

/// A served name of the library resolves to a model of that name, or of its base
/// name, letters in either case.
pub proof fn resolved_model_has_the_name(models: Seq<Model>, s: Seq<char>)
    ensures
        resolve_library(models, s) matches Some((mi, _)) ==> same_ignoring_case(models[mi].name, s)
            || same_ignoring_case(
            base_of(models[mi].name),
            match name_parts(s) {
                Some((base, _)) => base,
                None => s,
            },
        ),
{
    let n = models.len() as int;
    let (base, tag) = match name_parts(s) {
        Some((b, t)) => (b, Some(t)),
        None => (s, None),
    };
    if let Some(t) = tag {
        lemma_resolve_tag(models, base, t, 0);
    }
    lemma_first_with(n, |i: int| same_ignoring_case(models[i].name, s), 0);
    lemma_first_with(n, |i: int| same_ignoring_case(base_of(models[i].name), base), 0);
}

/// A served name with the host of the repositories before it resolves as it does
/// without it.
pub proof fn host_does_not_matter(models: Seq<Model>, s: Seq<char>)
    requires
        !"hf.co/"@.is_prefix_of(s),
    ensures
        resolve(models, "hf.co/"@ + s) == resolve(models, s),
{
    reveal_strlit("hf.co/");
    let t = "hf.co/"@ + s;
    assert(t.subrange(0, 6) =~= "hf.co/"@);
    assert("hf.co/"@.is_prefix_of(t));
    assert(t.skip(6) =~= s);
}

proof fn lemma_first_with(n: int, fits: spec_fn(int) -> bool, k: int)
    requires
        0 <= k,
    ensures
        match first_with(n, fits, k) {
            Some(i) => k <= i < n && fits(i) && (forall|j: int| k <= j < i ==> !#[trigger] fits(j)),
            None => forall|j: int| k <= j < n ==> !#[trigger] fits(j),
        },
    decreases n - k,
{
    if k < n && !fits(k) {
        lemma_first_with(n, fits, k + 1);
    }
}

proof fn lemma_resolve_tag(models: Seq<Model>, base: Seq<char>, tag: Seq<char>, k: int)
    requires
        0 <= k,
    ensures
        resolve_tag(models, base, tag, k) matches Some((mi, vi)) ==> {
            &&& k <= mi < models.len()
            &&& 0 <= vi < models[mi].variants.len()
            &&& same_ignoring_case(base_of(models[mi].name), base)
            &&& models[mi].variants[vi].source_tag is Some
            &&& same_ignoring_case(models[mi].variants[vi].source_tag->Some_0, tag)
        },
    decreases models.len() - k,
{
    if k < models.len() {
        let m = models[k];
        lemma_first_with(
            m.variants.len() as int,
            |j: int| m.variants[j].source_tag matches Some(t) && same_ignoring_case(t, tag),
            0,
        );
        lemma_resolve_tag(models, base, tag, k + 1);
    }
}

/// What a served name resolves to is a variant of a model in the catalog.
pub proof fn resolved_is_in_the_catalog(models: Seq<Model>, served: Seq<char>)
    ensures
        resolve(models, served) matches Some((mi, vi)) ==> 0 <= mi < models.len() && 0 <= vi
            < models[mi].variants.len(),
{
    let s = without_host(served);
    let n = models.len() as int;
    if s.contains('/') {
        resolved_repo_is_the_one_named(models, s);
    } else {
        let (base, tag) = match name_parts(s) {
            Some((b, t)) => (b, Some(t)),
            None => (s, None),
        };
        if let Some(t) = tag {
            lemma_resolve_tag(models, base, t, 0);
        }
        lemma_first_with(n, |i: int| same_ignoring_case(models[i].name, s), 0);
        lemma_first_with(n, |i: int| same_ignoring_case(base_of(models[i].name), base), 0);
        if let Some((mi, vi)) = resolve_library(models, s) {
            let m = models[mi];
            if let Some(t) = tag {
                let q = lowered_quants(m);
                lemma_first_with(q.len() as int, |j: int| contains(lowercase(t), q[j]), 0);
            }
            if m.variants.len() > 0 {
                leader_is_best(model_figures(m), m.variants.len() as int);
            }
        }
    }
}

/// A served repository resolves to the first model with that repository, and
/// to the variant whose quantization stands behind the colon where one does;
/// else to one that no other variant of the model is better than.
pub proof fn resolved_repo_is_the_one_named(models: Seq<Model>, s: Seq<char>)
    ensures
        resolve_repo(models, s) matches Some((mi, vi)) ==> {
            let (repo, quant) = repo_parts(s);
            &&& 0 <= mi < models.len()
            &&& models[mi].repo is Some
            &&& same_ignoring_case(models[mi].repo->Some_0, repo)
            &&& 0 <= vi < models[mi].variants.len()
            &&& quant matches Some(q) ==> same_ignoring_case(models[mi].variants[vi].quant, q)
            &&& quant is None ==> forall|j: int|
                0 <= j < models[mi].variants.len() && j != vi ==> #[trigger] better(
                    model_figures(models[mi]),
                    vi,
                    j,
                )
        },
{
    let (repo, quant) = repo_parts(s);
    let n = models.len() as int;
    lemma_first_with(
        n,
        |i: int| models[i].repo matches Some(r) && same_ignoring_case(r, repo),
        0,
    );
    if let Some((mi, vi)) = resolve_repo(models, s) {
        let m = models[mi];
        if let Some(q) = quant {
            lemma_first_with(
                m.variants.len() as int,
                |j: int| same_ignoring_case(m.variants[j].quant, q),
                0,
            );
        } else if m.variants.len() > 0 {
            leader_is_best(model_figures(m), m.variants.len() as int);
        }
    }
}

/// A served name with the tag of a variant resolves to a variant with that tag,
/// of a model with that base name.
pub proof fn resolved_tag_is_the_one_named(models: Seq<Model>, s: Seq<char>)
    ensures
        name_parts(s) matches Some((base, tag)) ==> resolve_tag(models, base, tag, 0) is Some ==> (
        resolve_library(models, s) matches Some((mi, vi)) && {
            &&& same_ignoring_case(base_of(models[mi].name), base)
            &&& models[mi].variants[vi].source_tag is Some
            &&& same_ignoring_case(models[mi].variants[vi].source_tag->Some_0, tag)
        }),
{
    if let Some((base, tag)) = name_parts(s) {
        lemma_resolve_tag(models, base, tag, 0);
    }
}

fn same_fold(a: &str, b: &str) -> (r: bool)
    ensures
        r == same_ignoring_case(a@, b@),
{
    eq_ignore_ascii_case(&chars_of(a), &chars_of(b))
}

fn find_repo_variant(models: &[CatalogModel], s: &[char], Ghost(all): Ghost<Seq<Model>>) -> (r:
    Option<(usize, usize)>)
    requires
        all == Seq::new(models@.len(), |i: int| models@[i]@),
    ensures
        match r {
            Some((mi, vi)) => resolve_repo(all, s@) == Some((mi as int, vi as int)),
            None => resolve_repo(all, s@) is None,
        },
{
    let n: usize = s.len();
    let (repo, quant): (String, Option<String>) = match rfind_char(s, ':') {
        Some(i) => {
            assert(i < n);
            assert(s@.subrange(0, i as int) =~= s@.take(i as int));
            assert(s@.subrange(i as int + 1, n as int) =~= s@.skip(i as int + 1));
            (string_of(&part(s, 0, i)), Some(string_of(&part(s, i + 1, n))))
        },
        None => (string_of(s), None),
    };
    assert(repo_parts(s@) == (repo@, quant.deep_view()));
    let ghost fits = |i: int| all[i].repo matches Some(r) && same_ignoring_case(r, repo@);
    let mut mi: usize = 0;
    while mi < models.len()
        invariant
            mi <= models@.len(),
            all == Seq::new(models@.len(), |i: int| models@[i]@),
            fits == (|i: int| all[i].repo matches Some(r) && same_ignoring_case(r, repo@)),
            repo_parts(s@) == (repo@, quant.deep_view()),
            first_with(all.len() as int, fits, 0) == first_with(all.len() as int, fits, mi as int),
        decreases models@.len() - mi,
    {
        assert(all[mi as int] == models@[mi as int]@);
        let found = match &models[mi].repo {
            Some(r) => same_fold(r.as_str(), repo.as_str()),
            None => false,
        };
        assert(found == fits(mi as int));
        if found {
            let m = &models[mi];
            let vi: Option<usize> = match &quant {
                Some(q) => find_quant(m, q.as_str()),
                None => best_quality_idx(m),
            };
            return match vi {
                Some(vi) => Some((mi, vi)),
                None => None,
            };
        }
        mi = mi + 1;
    }
    None
}

fn find_quant(m: &CatalogModel, q: &str) -> (r: Option<usize>)
    ensures
        ({
            let v = m@.variants;
            let found = first_with(
                v.len() as int,
                |j: int| same_ignoring_case(v[j].quant, q@),
                0,
            );
            match r {
                Some(j) => found == Some(j as int),
                None => found is None,
            }
        }),
{
    let ghost v = m@.variants;
    let ghost fits = |j: int| same_ignoring_case(v[j].quant, q@);
    let mut j: usize = 0;
    while j < m.variants.len()
        invariant
            j <= m.variants@.len(),
            v == m@.variants,
            fits == (|j: int| same_ignoring_case(v[j].quant, q@)),
            first_with(v.len() as int, fits, 0) == first_with(v.len() as int, fits, j as int),
        decreases m.variants@.len() - j,
    {
        assert(v[j as int] == m.variants@[j as int]@);
        if same_fold(m.variants[j].quant.as_str(), q) {
            assert(fits(j as int));
            return Some(j);
        }
        assert(!fits(j as int));
        j = j + 1;
    }
    None
}

fn find_tag(m: &CatalogModel, tag: &str) -> (r: Option<usize>)
    ensures
        match r {
            Some(j) => tag_variant(m@, tag@) == Some(j as int),
            None => tag_variant(m@, tag@) is None,
        },
{
    let ghost v = m@.variants;
    let ghost fits = |j: int| v[j].source_tag matches Some(t) && same_ignoring_case(t, tag@);
    let mut j: usize = 0;
    while j < m.variants.len()
        invariant
            j <= m.variants@.len(),
            v == m@.variants,
            fits == (|j: int| v[j].source_tag matches Some(t) && same_ignoring_case(t, tag@)),
            first_with(v.len() as int, fits, 0) == first_with(v.len() as int, fits, j as int),
        decreases m.variants@.len() - j,
    {
        assert(v[j as int] == m.variants@[j as int]@);
        let found = match &m.variants[j].source_tag {
            Some(t) => same_fold(t.as_str(), tag),
            None => false,
        };
        assert(found == fits(j as int));
        if found {
            return Some(j);
        }
        j = j + 1;
    }
    assert(tag_variant(m@, tag@) == first_with(
        v.len() as int,
        |j: int| m@.variants[j].source_tag matches Some(t) && same_ignoring_case(t, tag@),
        0,
    ));
    None
}

/// The first variant whose quantization, in lower case, stands in the tag.
pub fn find_quant_in_tag(quants_low: &Vec<String>, tag_low: &str) -> (r: Option<usize>)
    ensures
        match r {
            Some(j) => quant_in_tag(quants_low.deep_view(), tag_low@) == Some(j as int),
            None => quant_in_tag(quants_low.deep_view(), tag_low@) is None,
        },
{
    let ghost q = quants_low.deep_view();
    let ghost fits = |j: int| contains(tag_low@, q[j]);
    let t = chars_of(tag_low);
    let mut j: usize = 0;
    while j < quants_low.len()
        invariant
            j <= quants_low@.len(),
            t@ == tag_low@,
            q == quants_low.deep_view(),
            fits == (|j: int| contains(tag_low@, q[j])),
            first_with(q.len() as int, fits, 0) == first_with(q.len() as int, fits, j as int),
        decreases quants_low@.len() - j,
    {
        assert(q[j as int] == quants_low@[j as int]@);
        let found = contains_chars(&t, &chars_of(quants_low[j].as_str()));
        assert(found == fits(j as int));
        if found {
            return Some(j);
        }
        j = j + 1;
    }
    None
}

fn low_quants(m: &CatalogModel) -> (r: Vec<String>)
    ensures
        r.deep_view() == lowered_quants(m@),
{
    let mut out: Vec<String> = Vec::new();
    for i in 0..m.variants.len()
        invariant
            out@.len() == i,
            forall|j: int|
                0 <= j < i ==> (#[trigger] out@[j])@ == lowercase(m.variants@[j]@.quant),
    {
        out.push(to_lowercase(m.variants[i].quant.as_str()));
    }
    assert(out.deep_view() =~= lowered_quants(m@));
    out
}

fn find_library_variant(models: &[CatalogModel], s: &str, Ghost(all): Ghost<Seq<Model>>) -> (r:
    Option<(usize, usize)>)
    requires
        all == Seq::new(models@.len(), |i: int| models@[i]@),
    ensures
        match r {
            Some((mi, vi)) => resolve_library(all, s@) == Some((mi as int, vi as int)),
            None => resolve_library(all, s@) is None,
        },
{
    let (base, tag): (String, Option<String>) = match split_name(s) {
        Some((b, t)) => (b, Some(t)),
        None => (s.to_owned(), None),
    };
    let n: usize = models.len();
    if let Some(t) = &tag {
        let mut k: usize = 0;
        while k < n
            invariant
                n == models@.len(),
                k <= n,
                all == Seq::new(models@.len(), |i: int| models@[i]@),
                name_parts(s@) == Some((base@, t@)),
                resolve_tag(all, base@, t@, 0) == resolve_tag(all, base@, t@, k as int),
            decreases n - k,
        {
            assert(all[k as int] == models@[k as int]@);
            let b = base_name_of(models[k].name.as_str());
            if same_fold(b.as_str(), base.as_str()) {
                if let Some(vi) = find_tag(&models[k], t.as_str()) {
                    return Some((k, vi));
                }
            }
            k = k + 1;
        }
    }
    let ghost named = |i: int| same_ignoring_case(all[i].name, s@);
    let mut k: usize = 0;
    while k < n
        invariant
            n == models@.len(),
            k <= n,
            all == Seq::new(models@.len(), |i: int| models@[i]@),
            (match name_parts(s@) {
                Some((b, t)) => (b, Some(t)),
                None => (s@, None),
            }) == (base@, tag.deep_view()),
            tag matches Some(t) ==> resolve_tag(all, base@, t@, 0) is None,
            named == (|i: int| same_ignoring_case(all[i].name, s@)),
            first_with(all.len() as int, named, 0) == first_with(
                all.len() as int,
                named,
                k as int,
            ),
        decreases n - k,
    {
        assert(all[k as int] == models@[k as int]@);
        let found = same_fold(models[k].name.as_str(), s);
        assert(found == named(k as int));
        if found {
            return match best_quality_idx(&models[k]) {
                Some(vi) => Some((k, vi)),
                None => None,
            };
        }
        k = k + 1;
    }
    let ghost based = |i: int| same_ignoring_case(base_of(all[i].name), base@);
    let mut k: usize = 0;
    while k < n
        invariant
            n == models@.len(),
            k <= n,
            all == Seq::new(models@.len(), |i: int| models@[i]@),
            (match name_parts(s@) {
                Some((b, t)) => (b, Some(t)),
                None => (s@, None),
            }) == (base@, tag.deep_view()),
            tag matches Some(t) ==> resolve_tag(all, base@, t@, 0) is None,
            named == (|i: int| same_ignoring_case(all[i].name, s@)),
            first_with(all.len() as int, named, 0) is None,
            based == (|i: int| same_ignoring_case(base_of(all[i].name), base@)),
            first_with(all.len() as int, based, 0) == first_with(
                all.len() as int,
                based,
                k as int,
            ),
        decreases n - k,
    {
        assert(all[k as int] == models@[k as int]@);
        let b = base_name_of(models[k].name.as_str());
        let found = same_fold(b.as_str(), base.as_str());
        assert(found == based(k as int));
        if found {
            let m = &models[k];
            if let Some(t) = &tag {
                let quants = low_quants(m);
                let tag_low = to_lowercase(t.as_str());
                if let Some(vi) = find_quant_in_tag(&quants, tag_low.as_str()) {
                    return Some((k, vi));
                }
            }
            return match best_quality_idx(m) {
                Some(vi) => Some((k, vi)),
                None => None,
            };
        }
        k = k + 1;
    }
    None
}

/// The model and the variant that a served name stands for, so that its
/// parameters are known: positions in `models` and in the model's variants.
pub fn resolve_model_ref(models: &[CatalogModel], model_ref: &str) -> (r: Option<(usize, usize)>)
    ensures
        ({
            let all = Seq::new(models@.len(), |i: int| models@[i]@);
            match r {
                Some((mi, vi)) => resolve(all, model_ref@) == Some((mi as int, vi as int)),
                None => resolve(all, model_ref@) is None,
            }
        }),
{
    let ghost all = Seq::new(models@.len(), |i: int| models@[i]@);
    proof {
        reveal_strlit("hf.co/");
    }
    let cs = chars_of(model_ref);
    let s = if starts_with(&cs, &chars_of("hf.co/")) {
        assert(cs@.subrange(6, cs@.len() as int) =~= cs@.skip(6));
        part(&cs, 6, cs.len())
    } else {
        assert(cs@.subrange(0, cs@.len() as int) =~= cs@);
        part(&cs, 0, cs.len())
    };
    assert(s@ == without_host(model_ref@));
    if has_char(&s, '/') {
        find_repo_variant(models, &s, Ghost(all))
    } else {
        find_library_variant(models, string_of(&s).as_str(), Ghost(all))
    }
}

} // verus!
