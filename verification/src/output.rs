//! Text for people: sizes, ages, tables.

use vstd::prelude::*;

use crate::app::{row_wf, rows_wf, Ranked, ScoredModel};
use crate::catalog::RuntimeKind;
use crate::double::{
    at_least, less, nearest, quotient, round_whole, tenths_are_the_nearest, text_with_tenths,
    whole_part, Double,
};
use crate::estimate::{tier_label, FitVerdict};
use crate::hardware::runtimes::{RuntimeStatus, Status};
use crate::hardware::{HardwareProfile, Profile};
use crate::numeral::{
    decimal, digits, left, push_decimal, push_left, push_right, right, saturated,
};
use crate::precision::{
    above_line, below_line, is_about, nearest_is_close, quotient_is_close, same_ratio_is_close,
    whole_part_of_close, PARTS,
};
use crate::runtime::{chat_program, Serve, ServePlan};
use crate::serving::{Available, AvailableRow, Row, ServerRow, Stop, StopHandle};
use crate::text::{chars_of, contains, occurs_at, part, skip_space_back, string_of, trim_end};

verus! {

// ---------------------------------------------------------------------------
// Sizes and labels
// ---------------------------------------------------------------------------

/// Bytes in gibibytes, with one digit behind the point.
pub open spec fn gib_text(bytes: u64) -> Seq<char> {
    text_with_tenths(quotient(nearest(bytes as nat, 1), nearest(1_073_741_824, 1))) + " GiB"@
}

/// Memory is said in units of 2^30 bytes, to the nearest tenth: the number is the
/// bytes over 2^30, but for six parts in 2^53, and what is said of it is off by
/// half a tenth at most.
pub proof fn memory_is_said_in_gib(bytes: u64) -> (r: ((nat, int), nat))
    ensures
        gib_text(bytes) == crate::numeral::tenths_text(r.1) + " GiB"@,
        bytes > 0 ==> is_about(r.0, bytes as nat, 1024 * 1024 * 1024, 6),
        bytes == 0 ==> r.1 == 0,
        r.0.1 >= 0 ==> r.1 == 10 * above_line(r.0),
        r.0.1 < 0 ==> 2 * (r.1 * below_line(r.0)) <= 20 * r.0.0 + below_line(r.0) && 20 * r.0.0 <= 2
            * (r.1 * below_line(r.0)) + below_line(r.0),
{
    let x = quotient(nearest(bytes as nat, 1), nearest(1_073_741_824, 1));
    nearest_is_close(1_073_741_824, 1);
    if bytes > 0 {
        nearest_is_close(bytes as nat, 1);
        quotient_is_close(
            nearest(bytes as nat, 1),
            nearest(1_073_741_824, 1),
            bytes as nat,
            1,
            1_073_741_824,
            1,
            1,
            1,
        );
    } else {
        assert(x == (0nat, 0int));
    }
    vstd::arithmetic::power2::lemma2_to64();
    let t = tenths_are_the_nearest(x);
    (x, t)
}

/// Bytes in gibibytes, as macOS reports memory.
pub fn gib(bytes: u64) -> (r: String)
    ensures
        r@ == gib_text(bytes),
{
    let mut s = Double::of_ratio(bytes, 1).over(Double::of_ratio(1_073_741_824, 1)).tenths_text();
    s.append(" GiB");
    s
}

pub open spec fn verdict_text(v: FitVerdict) -> Seq<char> {
    match v {
        FitVerdict::FitsGpu => "fits"@,
        FitVerdict::FitsWithSysctlTuning => "tune sysctl"@,
        FitVerdict::FitsRamOnly => "ram only"@,
        FitVerdict::DoesNotFit => "no fit"@,
    }
}

/// A label speaks of what its verdict asks for: nothing where the GPU is enough,
/// `sysctl` where the limit must be tuned, the `ram` where only that is enough,
/// and `no` where nothing is.
pub proof fn labels_say_the_verdict(v: FitVerdict)
    ensures
        contains(verdict_text(v), "sysctl"@) <==> v == FitVerdict::FitsWithSysctlTuning,
        contains(verdict_text(v), "ram"@) <==> v == FitVerdict::FitsRamOnly,
        contains(verdict_text(v), "no"@) <==> v == FitVerdict::DoesNotFit,
{
    reveal_strlit("fits");
    reveal_strlit("tune sysctl");
    reveal_strlit("ram only");
    reveal_strlit("no fit");
    reveal_strlit("sysctl");
    reveal_strlit("ram");
    reveal_strlit("no");
    let t = verdict_text(v);
    assert("tune sysctl"@.subrange(5, 11) =~= "sysctl"@);
    assert("ram only"@.subrange(0, 3) =~= "ram"@);
    assert("no fit"@.subrange(0, 2) =~= "no"@);
    assert(occurs_at("tune sysctl"@, "sysctl"@, 5));
    assert(occurs_at("ram only"@, "ram"@, 0));
    assert(occurs_at("no fit"@, "no"@, 0));
    if contains(t, "sysctl"@) {
        let i = choose|i: int| occurs_at(t, "sysctl"@, i);
        assert(t.subrange(i, i + 6)[0] == 's' && t.subrange(i, i + 6)[1] == 'y');
        assert(t[i] == 's' && t[i + 1] == 'y');
    }
    if contains(t, "ram"@) {
        let i = choose|i: int| occurs_at(t, "ram"@, i);
        assert(t.subrange(i, i + 3)[0] == 'r');
        assert(t[i] == 'r');
    }
    if contains(t, "no"@) {
        let i = choose|i: int| occurs_at(t, "no"@, i);
        assert(t.subrange(i, i + 2)[0] == 'n' && t.subrange(i, i + 2)[1] == 'o');
        assert(t[i] == 'n' && t[i + 1] == 'o');
    }
}

/// Each verdict has a label of its own.
pub proof fn verdict_labels_differ(a: FitVerdict, b: FitVerdict)
    requires
        verdict_text(a) == verdict_text(b),
    ensures
        a == b,
{
    reveal_strlit("fits");
    reveal_strlit("tune sysctl");
    reveal_strlit("ram only");
    reveal_strlit("no fit");
    assert("fits"@.len() == 4 && "tune sysctl"@.len() == 11 && "ram only"@.len() == 8
        && "no fit"@.len() == 6);
}

pub fn verdict_label(v: FitVerdict) -> (r: &'static str)
    ensures
        r@ == verdict_text(v),
{
    match v {
        FitVerdict::FitsGpu => "fits",
        FitVerdict::FitsWithSysctlTuning => "tune sysctl",
        FitVerdict::FitsRamOnly => "ram only",
        FitVerdict::DoesNotFit => "no fit",
    }
}

pub open spec fn runtime_name(rt: RuntimeKind) -> Seq<char> {
    match rt {
        RuntimeKind::Ollama => "ollama"@,
        RuntimeKind::LlamaCpp => "llama.cpp"@,
        RuntimeKind::MlxLm => "mlx-lm"@,
    }
}

/// A runtime's name begins as the program that chats with it does.
pub proof fn runtime_names_begin_as_their_programs(rt: RuntimeKind)
    ensures
        runtime_name(rt).len() > 3,
        runtime_name(rt).take(3) == chat_program(rt).take(3),
{
    reveal_strlit("ollama");
    reveal_strlit("llama.cpp");
    reveal_strlit("mlx-lm");
    reveal_strlit("llama-cli");
    reveal_strlit("mlx_lm.chat");
    assert(runtime_name(rt).take(3) =~= chat_program(rt).take(3));
}

/// Each runtime has a name of its own.
pub proof fn runtime_names_differ(a: RuntimeKind, b: RuntimeKind)
    requires
        runtime_name(a) == runtime_name(b),
    ensures
        a == b,
{
    reveal_strlit("ollama");
    reveal_strlit("llama.cpp");
    reveal_strlit("mlx-lm");
    assert("ollama"@[0] == 'o' && "llama.cpp"@[0] == 'l' && "mlx-lm"@[0] == 'm');
}

pub fn runtime_label(rt: RuntimeKind) -> (r: &'static str)
    ensures
        r@ == runtime_name(rt),
{
    match rt {
        RuntimeKind::Ollama => "ollama",
        RuntimeKind::LlamaCpp => "llama.cpp",
        RuntimeKind::MlxLm => "mlx-lm",
    }
}

// ---------------------------------------------------------------------------
// Times
// ---------------------------------------------------------------------------

/// Days in a number of seconds; none in a negative one.
pub open spec fn days_in(secs: int) -> (nat, int) {
    if secs <= 0 {
        (0, 0)
    } else {
        quotient(nearest(secs as nat, 1), nearest(86_400, 1))
    }
}

/// An age: days below two weeks, weeks below eight, months below a year, years.
pub open spec fn age_core(secs: int) -> Seq<char> {
    let days = days_in(secs);
    if !at_least(days, 14) {
        digits(saturated(whole_part(days)) as nat) + "d"@
    } else if !at_least(days, 56) {
        digits(saturated(whole_part(quotient(days, nearest(7, 1)))) as nat) + "w"@
    } else if less(days, nearest(1461, 4)) {
        digits(saturated(whole_part(quotient(days, nearest(3044, 100)))) as nat) + "mo"@
    } else {
        text_with_tenths(quotient(days, nearest(1461, 4))) + "y"@
    }
}

/// The seconds in the units that ages are said in: days, weeks, and months of
/// 30.44 days.
pub open spec fn age_unit_seconds(unit: Seq<char>) -> int {
    if unit == "d"@ {
        86_400
    } else if unit == "w"@ {
        7 * 86_400int
    } else {
        2_630_016
    }
}

/// An age of less than a year is said in days, weeks or months, and is that many
/// units but for one unit at most; a longer one is said in years.
pub proof fn age_is_said_in_one_unit(secs: int) -> (r: (nat, Seq<char>))
    requires
        0 < secs < 0x1_0000_0000,
        less(days_in(secs), nearest(1461, 4)),
    ensures
        age_core(secs) == digits(r.0) + r.1,
        r.1 == "d"@ || r.1 == "w"@ || r.1 == "mo"@,
        r.0 * age_unit_seconds(r.1) <= secs <= (r.0 + 1) * age_unit_seconds(r.1),
        r.1 == "d"@ <==> !at_least(days_in(secs), 14),
        r.1 == "mo"@ <==> at_least(days_in(secs), 56),
{
    reveal_strlit("d");
    reveal_strlit("w");
    reveal_strlit("mo");
    assert("d"@[0] == 'd' && "w"@[0] == 'w' && "mo"@[0] == 'm');
    let days = days_in(secs);
    let n = secs as nat;
    nearest_is_close(n, 1);
    nearest_is_close(86_400, 1);
    quotient_is_close(nearest(n, 1), nearest(86_400, 1), n, 1, 86_400, 1, 1, 1);
    if !at_least(days, 14) {
        whole_part_of_close(days, n * 1, 1 * 86_400, 6);
        let w = whole_part(days);
        lemma_within(n, w, 86_400, 6);
        (w, "d"@)
    } else if !at_least(days, 56) {
        nearest_is_close(7, 1);
        let x = quotient(days, nearest(7, 1));
        quotient_is_close(days, nearest(7, 1), n * 1, 1 * 86_400, 7, 1, 6, 1);
        whole_part_of_close(x, n * 1 * 1, 1 * 86_400 * 7, 11);
        let w = whole_part(x);
        lemma_within(n, w, 604_800, 11);
        (w, "w"@)
    } else {
        nearest_is_close(3044, 100);
        let x = quotient(days, nearest(3044, 100));
        quotient_is_close(days, nearest(3044, 100), n * 1, 1 * 86_400, 3044, 100, 6, 1);
        same_ratio_is_close(x, n * 1 * 100, 1 * 86_400 * 3044, n, 2_630_016, 11);
        whole_part_of_close(x, n, 2_630_016, 11);
        let w = whole_part(x);
        lemma_within(n, w, 2_630_016, 11);
        (w, "mo"@)
    }
}

/// A whole number that is close to a ratio is the ratio but for one.
proof fn lemma_within(n: nat, w: nat, u: nat, c: nat)
    requires
        n < 0x1_0000_0000,
        0 < u,
        c <= 11,
        PARTS * (w * u) <= (PARTS + c) * n,
        (PARTS - c) * n < PARTS * ((w + 1) * u),
    ensures
        w * u <= n,
        n <= (w + 1) * u,
        w <= u64::MAX,
{
    let (a, b) = (w * u, (w + 1) * u);
    assert(PARTS * a <= PARTS * n + c * n) by (nonlinear_arith)
        requires
            PARTS * a <= (PARTS + c) * n,
    ;
    assert(PARTS * n - c * n < PARTS * b) by (nonlinear_arith)
        requires
            (PARTS - c) * n < PARTS * b,
    ;
    assert(c * n <= 11 * 0x1_0000_0000) by (nonlinear_arith)
        requires
            c <= 11,
            n < 0x1_0000_0000,
    ;
    assert(w <= a) by (nonlinear_arith)
        requires
            a == w * u,
            u >= 1,
    ;
}

/// The age at `now` of what was released at a moment: `?` if that is unknown,
/// with `~` if it is approximate.
pub open spec fn age_text(released_at: Option<i64>, approx: bool, now: i64) -> Seq<char> {
    match released_at {
        None => "?"@,
        Some(r) => if approx {
            "~"@ + age_core(now - r)
        } else {
            age_core(now - r)
        },
    }
}

/// A compact age: `3d`, `2w`, `7mo`, `1.2y`.
pub fn age_label(released_at: Option<i64>, approx: bool, now: i64) -> (r: String)
    requires
        released_at matches Some(t) ==> i64::MIN <= now - t <= i64::MAX,
    ensures
        r@ == age_text(released_at, approx, now),
{
    let t: i64 = match released_at {
        None => {
            return "?".to_owned();
        },
        Some(t) => t,
    };
    let secs: i64 = now - t;
    let days = if secs <= 0 {
        Double { mantissa: 0, exponent: 0 }
    } else {
        Double::of_ratio(secs as u64, 1).over(Double::of_ratio(86_400, 1))
    };
    assert(days@ == days_in(secs as int));
    let mut s = String::new();
    if approx {
        s.append("~");
    }
    let ghost mark = s@;
    if !days.is_at_least(14) {
        push_decimal(&mut s, days.to_u64() as u128);
        s.append("d");
    } else if !days.is_at_least(56) {
        push_decimal(&mut s, days.over(Double::of_ratio(7, 1)).to_u64() as u128);
        s.append("w");
    } else if days.is_less(Double::of_ratio(1461, 4)) {
        push_decimal(&mut s, days.over(Double::of_ratio(3044, 100)).to_u64() as u128);
        s.append("mo");
    } else {
        s.append(days.over(Double::of_ratio(1461, 4)).tenths_text().as_str());
        s.append("y");
    }
    assert(s@ =~= mark + age_core(secs as int));
    assert(s@ =~= age_text(released_at, approx, now));
    s
}

/// A time: seconds below a minute, minutes below an hour, hours below a day,
/// days. A negative time is none.
pub open spec fn since_text(secs: int) -> Seq<char> {
    if secs <= 0 {
        digits(0) + "s"@
    } else if secs < 60 {
        digits(secs as nat) + "s"@
    } else if secs < 3600 {
        digits((secs / 60) as nat) + "m"@
    } else if secs < 86400 {
        digits((secs / 3600) as nat) + "h"@
    } else {
        digits((secs / 86400) as nat) + "d"@
    }
}

/// The seconds in a unit of time, by its letter.
pub open spec fn unit_seconds(unit: Seq<char>) -> int {
    if unit == "d"@ {
        24int * 60 * 60
    } else if unit == "h"@ {
        60int * 60
    } else if unit == "m"@ {
        60
    } else {
        1
    }
}

/// A time is said in one unit, the largest that it fills once, and is off by
/// less than that unit.
pub proof fn time_is_said_in_its_largest_unit(secs: int) -> (r: (nat, Seq<char>))
    requires
        secs > 0,
    ensures
        since_text(secs) == digits(r.0) + r.1,
        r.0 * unit_seconds(r.1) <= secs < (r.0 + 1) * unit_seconds(r.1),
        r.0 > 0,
        r.1 == "s"@ ==> secs < 60,
        r.1 == "m"@ ==> secs < 60 * 60,
        r.1 == "h"@ ==> secs < 24 * 60 * 60,
        r.1 == "s"@ || r.1 == "m"@ || r.1 == "h"@ || r.1 == "d"@,
{
    reveal_strlit("s");
    reveal_strlit("m");
    reveal_strlit("h");
    reveal_strlit("d");
    assert("s"@[0] == 's' && "m"@[0] == 'm' && "h"@[0] == 'h' && "d"@[0] == 'd');
    let (n, unit, u): (nat, Seq<char>, int) = if secs < 60 {
        (secs as nat, "s"@, 1)
    } else if secs < 3600 {
        ((secs / 60) as nat, "m"@, 60)
    } else if secs < 86400 {
        ((secs / 3600) as nat, "h"@, 3600)
    } else {
        ((secs / 86400) as nat, "d"@, 86400)
    };
    assert(unit_seconds(unit) == u);
    assert(n * u <= secs && secs < (n + 1) * u) by (nonlinear_arith)
        requires
            (u == 1 && n == secs) || (u == 60 && n * 60 <= secs && secs < n * 60 + 60) || (u == 3600
                && n * 3600 <= secs && secs < n * 3600 + 3600) || (u == 86400 && n * 86400 <= secs
                && secs < n * 86400 + 86400),
    ;
    (n, unit)
}

/// A compact time since something: `5s`, `1m`, `3h`, `2d`.
pub fn humanize_since(secs: i64) -> (r: String)
    ensures
        r@ == since_text(secs as int),
{
    let s: u64 = if secs <= 0 {
        0
    } else {
        secs as u64
    };
    let (n, unit): (u64, &str) = if s < 60 {
        (s, "s")
    } else if s < 3600 {
        (s / 60, "m")
    } else if s < 86400 {
        (s / 3600, "h")
    } else {
        (s / 86400, "d")
    };
    let mut out = decimal(n as u128);
    out.append(unit);
    out
}

/// The time at `now` since a server was started.
pub fn uptime_label(started_at: i64, now: i64) -> (r: String)
    requires
        i64::MIN <= now - started_at <= i64::MAX,
    ensures
        r@ == since_text(now - started_at),
{
    humanize_since(now - started_at)
}

/// A context length: thousands from 1024 on.
pub open spec fn context_text(c: u32) -> Seq<char> {
    if c >= 1024 {
        digits((c / 1024) as nat) + "k"@
    } else {
        digits(c as nat)
    }
}

/// From 1024 tokens on a context is said in thousands of 1024, and is off by
/// less than one of them; below, it is said to the token.
pub proof fn context_is_said_in_thousands(c: u32) -> (k: nat)
    ensures
        c >= 1024 ==> context_text(c) == digits(k) + "k"@ && k * 1024 <= c < (k + 1) * 1024,
        c < 1024 ==> context_text(c) == digits(c as nat),
{
    (c / 1024) as nat
}

pub fn context_label(c: u32) -> (r: String)
    ensures
        r@ == context_text(c),
{
    if c >= 1024 {
        let mut s = decimal((c / 1024) as u128);
        s.append("k");
        s
    } else {
        decimal(c as u128)
    }
}

/// `s`, or its beginning and an ellipsis if it is longer than `n` characters.
pub open spec fn cut(s: Seq<char>, n: nat) -> Seq<char> {
    if s.len() <= n {
        s
    } else {
        s.take(
            if n == 0 {
                0
            } else {
                n - 1
            },
        ).push('…')
    }
}

/// A text that is cut keeps its beginning, and says that it was cut; one that is
/// short enough is kept whole.
pub proof fn cut_keeps_the_beginning(s: Seq<char>, n: nat)
    ensures
        s.len() <= n ==> cut(s, n) == s,
        s.len() > n && n > 0 ==> cut(s, n).len() == n && cut(s, n).drop_last().is_prefix_of(s)
            && cut(s, n).last() == '…',
{
    if s.len() > n && n > 0 {
        assert(cut(s, n).drop_last() =~= s.take(n - 1));
    }
}

/// The text in at most `n` characters.
pub fn truncate(s: &str, n: usize) -> (r: String)
    ensures
        r@ == cut(s@, n as nat),
{
    let cs = chars_of(s);
    if cs.len() <= n {
        return s.to_owned();
    }
    let k: usize = if n == 0 {
        0
    } else {
        n - 1
    };
    assert(cs@.subrange(0, k as int) =~= cs@.take(k as int));
    let mut out = string_of(&part(&cs, 0, k));
    out.push('…');
    out
}

/// What is cut has at most `n` characters, for `n` above zero.
pub proof fn cut_is_short(s: Seq<char>, n: nat)
    requires
        n > 0,
    ensures
        cut(s, n).len() <= n,
        s.len() <= n ==> cut(s, n) == s,
{
}

// ---------------------------------------------------------------------------
// Servers
// ---------------------------------------------------------------------------

pub open spec fn ctx_text(ctx: Option<u32>) -> Seq<char> {
    match ctx {
        Some(c) => digits(c as nat),
        None => "-"@,
    }
}

pub open spec fn uptime_text(started_at: Option<i64>, now: i64) -> Seq<char> {
    match started_at {
        Some(t) => since_text(now - t),
        None => "-"@,
    }
}

pub open spec fn pid_text(stop: Stop) -> Seq<char> {
    match stop {
        Stop::Pid(p) => digits(p as nat),
        Stop::OllamaModel(_) => "-"@,
    }
}

pub open spec fn size_text(size: Option<u64>) -> Seq<char> {
    match size {
        Some(n) => gib_text(n),
        None => "-"@,
    }
}

/// A line of the running servers.
pub open spec fn running_line(
    model: Seq<char>,
    runtime: Seq<char>,
    endpoint: Seq<char>,
    ctx: Seq<char>,
    uptime: Seq<char>,
    pid: Seq<char>,
) -> Seq<char> {
    left(model, 28) + " "@ + left(runtime, 9) + " "@ + left(endpoint, 26) + " "@ + right(ctx, 7)
        + " "@ + right(uptime, 8) + " "@ + right(pid, 7) + "\n"@
}

/// A line of the available models.
pub open spec fn available_line(
    model: Seq<char>,
    runtime: Seq<char>,
    size: Seq<char>,
    served: Seq<char>,
) -> Seq<char> {
    left(model, 28) + " "@ + left(runtime, 9) + " "@ + right(size, 10) + " "@ + right(served, 12)
        + "\n"@
}

pub open spec fn row_line(r: Row, now: i64) -> Seq<char> {
    running_line(
        cut(r.model, 28),
        runtime_name(r.runtime),
        cut(r.endpoint, 26),
        ctx_text(r.ctx),
        uptime_text(r.started_at, now),
        pid_text(r.stop),
    )
}

pub open spec fn available_row_line(r: Available, now: i64) -> Seq<char> {
    available_line(
        cut(r.model, 28),
        runtime_name(r.runtime),
        size_text(r.size_bytes),
        age_text(r.last_served_at, false, now),
    )
}

/// The lines of the first `n` running servers.
pub open spec fn running_lines(rows: Seq<Row>, n: int, now: i64) -> Seq<char>
    decreases n,
{
    if n <= 0 {
        Seq::empty()
    } else {
        running_lines(rows, n - 1, now) + row_line(rows[n - 1], now)
    }
}

/// The lines of the first `n` available models.
pub open spec fn available_lines(rows: Seq<Available>, n: int, now: i64) -> Seq<char>
    decreases n,
{
    if n <= 0 {
        Seq::empty()
    } else {
        available_lines(rows, n - 1, now) + available_row_line(rows[n - 1], now)
    }
}

/// The section of the running servers; none without servers.
pub open spec fn running_section(rows: Seq<Row>, now: i64) -> Seq<char> {
    if rows.len() == 0 {
        Seq::empty()
    } else {
        "RUNNING\n"@ + running_line("MODEL"@, "RUNTIME"@, "ENDPOINT"@, "CTX"@, "UPTIME"@, "PID"@)
            + running_lines(rows, rows.len() as int, now)
    }
}

/// The section of the available models; none without models.
pub open spec fn available_section(rows: Seq<Available>, now: i64) -> Seq<char> {
    if rows.len() == 0 {
        Seq::empty()
    } else {
        "AVAILABLE\n"@ + available_line("MODEL"@, "RUNTIME"@, "SIZE"@, "LAST-SERVED"@)
            + available_lines(rows, rows.len() as int, now)
    }
}

/// Both sections, an empty line between.
pub open spec fn servers_text(running: Seq<Row>, available: Seq<Available>, now: i64) -> Seq<char> {
    if running.len() == 0 && available.len() == 0 {
        "no servers running"@
    } else {
        trim_end(
            running_section(running, now) + (if running.len() > 0 && available.len() > 0 {
                "\n"@
            } else {
                Seq::empty()
            }) + available_section(available, now),
        )
    }
}

fn push_running_line(
    out: &mut String,
    model: &str,
    runtime: &str,
    endpoint: &str,
    ctx: &str,
    uptime: &str,
    pid: &str,
)
    ensures
        final(out)@ == old(out)@ + running_line(model@, runtime@, endpoint@, ctx@, uptime@, pid@),
{
    push_left(out, model, 28);
    out.append(" ");
    push_left(out, runtime, 9);
    out.append(" ");
    push_left(out, endpoint, 26);
    out.append(" ");
    push_right(out, ctx, 7);
    out.append(" ");
    push_right(out, uptime, 8);
    out.append(" ");
    push_right(out, pid, 7);
    out.append("\n");
    assert(out@ =~= old(out)@ + running_line(model@, runtime@, endpoint@, ctx@, uptime@, pid@));
}

fn push_available_line(out: &mut String, model: &str, runtime: &str, size: &str, served: &str)
    ensures
        final(out)@ == old(out)@ + available_line(model@, runtime@, size@, served@),
{
    push_left(out, model, 28);
    out.append(" ");
    push_left(out, runtime, 9);
    out.append(" ");
    push_right(out, size, 10);
    out.append(" ");
    push_right(out, served, 12);
    out.append("\n");
    assert(out@ =~= old(out)@ + available_line(model@, runtime@, size@, served@));
}

/// The difference of two moments is a number.
pub open spec fn in_range(now: i64, t: Option<i64>) -> bool {
    t matches Some(t) ==> i64::MIN <= now - t <= i64::MAX
}

fn push_running_section(s: &mut String, running: &[ServerRow], now: i64)
    requires
        forall|i: int|
            0 <= i < running@.len() ==> in_range(now, (#[trigger] running@[i]).started_at),
    ensures
        final(s)@ == old(s)@ + running_section(running.deep_view(), now),
{
    let ghost rows = running.deep_view();
    let ghost start = s@;
    if running.len() == 0 {
        assert(s@ =~= start + running_section(rows, now));
        return;
    }
    s.append("RUNNING\n");
    push_running_line(s, "MODEL", "RUNTIME", "ENDPOINT", "CTX", "UPTIME", "PID");
    let ghost head = "RUNNING\n"@ + running_line(
        "MODEL"@,
        "RUNTIME"@,
        "ENDPOINT"@,
        "CTX"@,
        "UPTIME"@,
        "PID"@,
    );
    assert(s@ =~= start + head + running_lines(rows, 0, now));
    for i in 0..running.len()
        invariant
            rows == running.deep_view(),
            start == old(s)@,
            forall|i: int|
                0 <= i < running@.len() ==> in_range(now, (#[trigger] running@[i]).started_at),
            s@ == start + head + running_lines(rows, i as int, now),
    {
        let r = &running[i];
        assert(rows[i as int] == r@);
        let ctx = match r.ctx {
            Some(c) => decimal(c as u128),
            None => "-".to_owned(),
        };
        let uptime = match r.started_at {
            Some(t) => humanize_since(now - t),
            None => "-".to_owned(),
        };
        let pid = match &r.stop {
            StopHandle::Pid(p) => decimal(*p as u128),
            StopHandle::OllamaModel(_) => "-".to_owned(),
        };
        let model = truncate(r.model.as_str(), 28);
        let endpoint = truncate(r.endpoint.as_str(), 26);
        push_running_line(
            s,
            model.as_str(),
            runtime_label(r.runtime),
            endpoint.as_str(),
            ctx.as_str(),
            uptime.as_str(),
            pid.as_str(),
        );
        assert(s@ =~= start + head + running_lines(rows, i as int + 1, now));
    }
    assert(s@ =~= start + running_section(rows, now));
}

fn push_available_section(s: &mut String, available: &[AvailableRow], now: i64)
    requires
        forall|i: int|
            0 <= i < available@.len() ==> in_range(now, (#[trigger] available@[i]).last_served_at),
    ensures
        final(s)@ == old(s)@ + available_section(available.deep_view(), now),
{
    let ghost rows = available.deep_view();
    let ghost start = s@;
    if available.len() == 0 {
        assert(s@ =~= start + available_section(rows, now));
        return;
    }
    s.append("AVAILABLE\n");
    push_available_line(s, "MODEL", "RUNTIME", "SIZE", "LAST-SERVED");
    let ghost head = "AVAILABLE\n"@ + available_line(
        "MODEL"@,
        "RUNTIME"@,
        "SIZE"@,
        "LAST-SERVED"@,
    );
    assert(s@ =~= start + head + available_lines(rows, 0, now));
    for i in 0..available.len()
        invariant
            rows == available.deep_view(),
            start == old(s)@,
            forall|i: int|
                0 <= i < available@.len() ==> in_range(
                    now,
                    (#[trigger] available@[i]).last_served_at,
                ),
            s@ == start + head + available_lines(rows, i as int, now),
    {
        let r = &available[i];
        assert(rows[i as int] == r@);
        let size = match r.size_bytes {
            Some(n) => gib(n),
            None => "-".to_owned(),
        };
        let served = age_label(r.last_served_at, false, now);
        let model = truncate(r.model.as_str(), 28);
        push_available_line(
            s,
            model.as_str(),
            runtime_label(r.runtime),
            size.as_str(),
            served.as_str(),
        );
        assert(s@ =~= start + head + available_lines(rows, i as int + 1, now));
    }
    assert(s@ =~= start + available_section(rows, now));
}

/// The text of `paddock ps`: a section of what runs and a section of what is
/// available. Empty sections are left out.
pub fn servers_view(running: &[ServerRow], available: &[AvailableRow], now: i64) -> (r:
    String)
    requires
        forall|i: int|
            0 <= i < running@.len() ==> in_range(now, (#[trigger] running@[i]).started_at),
        forall|i: int|
            0 <= i < available@.len() ==> in_range(now, (#[trigger] available@[i]).last_served_at),
    ensures
        r@ == servers_text(running.deep_view(), available.deep_view(), now),
{
    if running.len() == 0 && available.len() == 0 {
        return "no servers running".to_owned();
    }
    let mut s = String::new();
    push_running_section(&mut s, running, now);
    assert(s@ =~= running_section(running.deep_view(), now));
    if running.len() > 0 && available.len() > 0 {
        s.append("\n");
    }
    assert(s@ =~= running_section(running.deep_view(), now) + (if running@.len() > 0
        && available@.len() > 0 {
        "\n"@
    } else {
        Seq::empty()
    }));
    push_available_section(&mut s, available, now);
    let cs = chars_of(s.as_str());
    let end: usize = skip_space_back(&cs, 0, cs.len());
    assert(cs@.subrange(0, cs@.len() as int) =~= cs@);
    string_of(&part(&cs, 0, end))
}

// ---------------------------------------------------------------------------
// This machine
// ---------------------------------------------------------------------------

/// A runtime in one phrase.
pub open spec fn status_text(s: Status, name: Seq<char>) -> Seq<char> {
    if s.installed {
        name + " "@ + (match s.version {
            Some(v) => v,
            None => "?"@,
        }) + (if s.running {
            " (running)"@
        } else {
            ""@
        })
    } else {
        name + " not installed"@
    }
}

/// A runtime in one phrase.
pub fn status_label(s: &RuntimeStatus, name: &str) -> (r: String)
    ensures
        r@ == status_text(s@, name@),
{
    let mut out = name.to_owned();
    if s.installed {
        out.append(" ");
        match &s.version {
            Some(v) => out.append(v.as_str()),
            None => out.append("?"),
        }
        if s.running {
            out.append(" (running)");
        } else {
            out.append("");
        }
    } else {
        out.append(" not installed");
    }
    out
}

/// The bandwidth in whole gigabytes per second.
pub open spec fn bandwidth_text(bandwidth: u32, estimated: bool) -> Seq<char> {
    digits(round_whole(nearest(bandwidth as nat, 100))) + " GB/s"@ + (if estimated {
        " (estimated)"@
    } else {
        ""@
    })
}

/// A bandwidth is said in whole gigabytes per second, to the nearest one.
pub proof fn bandwidth_is_said_in_whole_gigabytes(bandwidth: u32, estimated: bool) -> (r: nat)
    ensures
        bandwidth_text(bandwidth, estimated) == digits(r) + " GB/s"@ + (if estimated {
            " (estimated)"@
        } else {
            ""@
        }),
        -50 <= 100 * r - bandwidth <= 50,
{
    let x = nearest(bandwidth as nat, 100);
    let r = round_whole(x);
    vstd::arithmetic::power2::lemma2_to64();
    if bandwidth > 0 {
        nearest_is_close(bandwidth as nat, 100);
        let (a, b, n) = (above_line(x), below_line(x), bandwidth as nat);
        lemma_round_whole(x);
        lemma_nearest_whole(a, b, r, n);
    } else {
        assert(x == (0nat, 0int));
    }
    r
}

proof fn lemma_round_whole(x: (nat, int))
    ensures
        ({
            let (a, b, r) = (above_line(x), below_line(x), round_whole(x));
            &&& b > 0
            &&& 2 * (r * b) <= 2 * a + b
            &&& 2 * a <= 2 * (r * b) + b
        }),
{
    vstd::arithmetic::power2::lemma2_to64();
    crate::precision::number_is_itself(x);
    if x.1 >= 0 {
        assert(round_whole(x) * 1 == above_line(x));
    } else {
        let d = below_line(x);
        assert(x.0 * 1 == x.0);
        vstd::arithmetic::div_mod::lemma_fundamental_div_mod(x.0 as int, d as int);
        vstd::arithmetic::div_mod::lemma_mod_bound(x.0 as int, d as int);
        let q = x.0 / d;
        assert(d * q == q * d) by (nonlinear_arith);
        assert((q + 1) * d == q * d + d) by (nonlinear_arith);
    }
}

proof fn lemma_nearest_whole(a: nat, b: nat, r: nat, n: nat)
    requires
        b > 0,
        n <= u32::MAX,
        2 * (r * b) <= 2 * a + b,
        2 * a <= 2 * (r * b) + b,
        (PARTS - 1) * (n * b) <= PARTS * (a * 100),
        PARTS * (a * 100) <= (PARTS + 1) * (n * b),
    ensures
        -50 <= 100 * r - n <= 50,
{
    let p = PARTS as int;
    let (rb, nb) = (r * b, n * b);
    assert(nb <= 0xffff_ffff * b) by (nonlinear_arith)
        requires
            nb == n * b,
            n <= 0xffff_ffff,
    ;
    assert((p - 1) * nb == p * nb - nb && (p + 1) * nb == p * nb + nb) by (nonlinear_arith);
    assert(p * (a * 100) == 100 * (p * a)) by (nonlinear_arith);
    // Twice the error, in parts: less than that of one unit.
    assert(2 * (100 * rb - nb) < 101 * b + b && 2 * (nb - 100 * rb) < 101 * b + b) by (nonlinear_arith)
        requires
            p == 0x20_0000_0000_0000,
            2 * rb <= 2 * a + b,
            2 * a <= 2 * rb + b,
            p * nb - nb <= 100 * (p * a),
            100 * (p * a) <= p * nb + nb,
            nb <= 0xffff_ffff * b,
            b > 0,
    ;
    assert(100 * r - n <= 50) by (nonlinear_arith)
        requires
            2 * (100 * rb - nb) < 102 * b,
            rb == r * b,
            nb == n * b,
            b > 0,
    ;
    assert(n - 100 * r <= 50) by (nonlinear_arith)
        requires
            2 * (nb - 100 * rb) < 102 * b,
            rb == r * b,
            nb == n * b,
            b > 0,
    ;
}

pub fn bandwidth_label(bandwidth: u32, estimated: bool) -> (r: String)
    ensures
        r@ == bandwidth_text(bandwidth, estimated),
{
    let mut s = Double::of_ratio(bandwidth as u64, 100).whole_text();
    s.append(" GB/s");
    s.append(
        if estimated {
            " (estimated)"
        } else {
            ""
        },
    );
    s
}

/// The lines of `paddock scan`.
pub open spec fn profile_lines_of(p: Profile) -> Seq<Seq<char>> {
    seq![
        "chip        "@ + p.chip_name,
        "ram         "@ + gib_text(p.ram_total_bytes),
        "cores       "@ + digits(p.perf_cores as nat) + "P + "@ + digits(
            p.efficiency_cores as nat,
        ) + "E"@,
        "bandwidth   "@ + bandwidth_text(p.bandwidth, p.bandwidth_estimated),
        "gpu limit   "@ + (match p.gpu.metal_limit_bytes {
            Some(b) => gib_text(b) + " (Metal recommendedMaxWorkingSetSize)"@,
            None => gib_text(p.gpu.effective_limit_bytes) + " (fallback: 75% of RAM)"@,
        }),
        "runtimes    "@ + status_text(p.runtimes.ollama, "ollama"@),
        "            "@ + status_text(p.runtimes.llama_cpp, "llama.cpp"@),
        "            "@ + status_text(p.runtimes.mlx, "mlx-lm"@),
    ]
}

fn labelled(label: &str, value: &str) -> (r: String)
    ensures
        r@ == label@ + value@,
{
    let mut s = label.to_owned();
    s.append(value);
    s
}

/// The lines of `paddock scan`.
pub fn profile_lines(p: &HardwareProfile) -> (r: Vec<String>)
    ensures
        r.deep_view() == profile_lines_of(p@),
{
    let mut out: Vec<String> = Vec::new();
    out.push(labelled("chip        ", p.chip_name.as_str()));
    out.push(labelled("ram         ", gib(p.ram_total_bytes).as_str()));
    let mut cores = "cores       ".to_owned();
    push_decimal(&mut cores, p.perf_cores as u128);
    cores.append("P + ");
    push_decimal(&mut cores, p.efficiency_cores as u128);
    cores.append("E");
    out.push(cores);
    out.push(
        labelled(
            "bandwidth   ",
            bandwidth_label(p.bandwidth, p.bandwidth_estimated).as_str(),
        ),
    );
    let limit = match p.gpu.metal_limit_bytes {
        Some(b) => labelled(gib(b).as_str(), " (Metal recommendedMaxWorkingSetSize)"),
        None => labelled(gib(p.gpu.effective_limit_bytes).as_str(), " (fallback: 75% of RAM)"),
    };
    out.push(labelled("gpu limit   ", limit.as_str()));
    out.push(labelled("runtimes    ", status_label(&p.runtimes.ollama, "ollama").as_str()));
    out.push(labelled("            ", status_label(&p.runtimes.llama_cpp, "llama.cpp").as_str()));
    out.push(labelled("            ", status_label(&p.runtimes.mlx, "mlx-lm").as_str()));
    assert(out.deep_view() =~= profile_lines_of(p@));
    out
}

/// Where to point a client, with a command to try.
pub open spec fn endpoint_lines_of(p: Serve) -> Seq<Seq<char>> {
    seq![
        "endpoint    "@ + p.endpoint,
        "openai      "@ + p.openai_url,
        "model       "@ + p.model_ref,
        "try it      curl -s "@ + p.openai_url + " \\"@,
        "              -d '{\"model\":\""@ + p.model_ref
            + "\",\"messages\":[{\"role\":\"user\",\"content\":\"hello\"}]}'"@,
    ]
}

/// What `paddock serve` prints once the server is ready.
pub fn endpoint_lines(plan: &ServePlan) -> (r: Vec<String>)
    ensures
        r.deep_view() == endpoint_lines_of(plan@),
{
    let mut out: Vec<String> = Vec::new();
    out.push(labelled("endpoint    ", plan.endpoint.as_str()));
    out.push(labelled("openai      ", plan.openai_url.as_str()));
    out.push(labelled("model       ", plan.model_ref.as_str()));
    let mut curl = labelled("try it      curl -s ", plan.openai_url.as_str());
    curl.append(" \\");
    out.push(curl);
    let mut body = labelled("              -d '{\"model\":\"", plan.model_ref.as_str());
    body.append("\",\"messages\":[{\"role\":\"user\",\"content\":\"hello\"}]}'");
    out.push(body);
    assert(out.deep_view() =~= endpoint_lines_of(plan@));
    out
}

// ---------------------------------------------------------------------------
// The ranking
// ---------------------------------------------------------------------------

/// A line of the ranking.
pub open spec fn fit_line(
    model: Seq<char>,
    age: Seq<char>,
    quant: Seq<char>,
    memory: Seq<char>,
    tps: Seq<char>,
    fit: Seq<char>,
    score: Seq<char>,
) -> Seq<char> {
    left(model, 32) + " "@ + right(age, 6) + " "@ + left(quant, 9) + " "@ + right(memory, 9) + " "@
        + right(tps, 9) + "  "@ + left(fit, 12) + " "@ + right(score, 5)
}

/// The line of a row of the ranking.
pub open spec fn ranked_line(r: Ranked, now: i64) -> Seq<char> {
    fit_line(
        cut(r.model.name, 32),
        age_text(r.model.released_at, r.model.released_approx, now),
        r.model.variants[r.variant_idx as int].quant,
        gib_text(r.memory.total_bytes),
        digits(round_whole(r.speed.generation_tps@)),
        verdict_text(r.memory.verdict),
        digits(round_whole(r.score.total@)),
    )
}

/// The columns of the table stand where its head has them: a row whose cells are
/// no wider than their columns is as long as every other.
pub proof fn rows_are_as_long_as_each_other(
    model: Seq<char>,
    age: Seq<char>,
    quant: Seq<char>,
    memory: Seq<char>,
    tps: Seq<char>,
    fit: Seq<char>,
    score: Seq<char>,
)
    requires
        model.len() <= 32,
        age.len() <= 6,
        quant.len() <= 9,
        memory.len() <= 9,
        tps.len() <= 9,
        fit.len() <= 12,
        score.len() <= 5,
    ensures
        fit_line(model, age, quant, memory, tps, fit, score).len() == 32 + 6 + 9 + 9 + 9 + 12 + 5
            + 7,
        model.is_prefix_of(fit_line(model, age, quant, memory, tps, fit, score)),
        score.is_suffix_of(fit_line(model, age, quant, memory, tps, fit, score)),
{
    reveal_strlit(" ");
    reveal_strlit("  ");
    let line = fit_line(model, age, quant, memory, tps, fit, score);
    assert(line.subrange(0, model.len() as int) =~= model);
    assert(line.subrange(line.len() - score.len(), line.len() as int) =~= score);
}

fn fit_line_text(
    model: &str,
    age: &str,
    quant: &str,
    memory: &str,
    tps: &str,
    fit: &str,
    score: &str,
) -> (r: String)
    ensures
        r@ == fit_line(model@, age@, quant@, memory@, tps@, fit@, score@),
{
    let mut s = String::new();
    push_left(&mut s, model, 32);
    s.append(" ");
    push_right(&mut s, age, 6);
    s.append(" ");
    push_left(&mut s, quant, 9);
    s.append(" ");
    push_right(&mut s, memory, 9);
    s.append(" ");
    push_right(&mut s, tps, 9);
    s.append("  ");
    push_left(&mut s, fit, 12);
    s.append(" ");
    push_right(&mut s, score, 5);
    assert(s@ =~= fit_line(model@, age@, quant@, memory@, tps@, fit@, score@));
    s
}

/// The table of `paddock fit`: a head and a line per row.
pub fn fit_table(rows: &[ScoredModel], now: i64) -> (r: Vec<String>)
    requires
        rows_wf(rows.deep_view()),
        forall|i: int|
            0 <= i < rows@.len() ==> in_range(now, (#[trigger] rows@[i]).model.released_at),
    ensures
        r@.len() == rows@.len() + 1,
        r@[0]@ == fit_line("MODEL"@, "AGE"@, "QUANT"@, "MEMORY"@, "TOK/S"@, "FIT"@, "SCORE"@),
        forall|i: int|
            0 <= i < rows@.len() ==> (#[trigger] r@[i + 1])@ == ranked_line(rows@[i]@, now),
{
    let mut out: Vec<String> = Vec::new();
    out.push(fit_line_text("MODEL", "AGE", "QUANT", "MEMORY", "TOK/S", "FIT", "SCORE"));
    for i in 0..rows.len()
        invariant
            rows_wf(rows.deep_view()),
            forall|i: int|
                0 <= i < rows@.len() ==> in_range(now, (#[trigger] rows@[i]).model.released_at),
            out@.len() == i + 1,
            out@[0]@ == fit_line(
                "MODEL"@,
                "AGE"@,
                "QUANT"@,
                "MEMORY"@,
                "TOK/S"@,
                "FIT"@,
                "SCORE"@,
            ),
            forall|j: int|
                0 <= j < i ==> (#[trigger] out@[j + 1])@ == ranked_line(rows@[j]@, now),
    {
        let r = &rows[i];
        assert(row_wf(rows.deep_view()[i as int]));
        assert(r@.model.variants[r.variant_idx as int] == r.model.variants@[r.variant_idx as int]@);
        let line = fit_line_text(
            truncate(r.model.name.as_str(), 32).as_str(),
            age_label(r.model.released_at, r.model.released_approx, now).as_str(),
            r.model.variants[r.variant_idx].quant.as_str(),
            gib(r.memory.total_bytes).as_str(),
            r.speed.generation_tps.whole_text().as_str(),
            verdict_label(r.memory.verdict),
            r.score.total.whole_text().as_str(),
        );
        out.push(line);
        assert(out@[i + 1]@ == ranked_line(rows@[i as int]@, now));
    }
    out
}

/// Why a row is recommended: how it fits, how fast it is, how much it reads.
pub open spec fn justification_text(r: Ranked) -> Seq<char> {
    (match r.memory.verdict {
        FitVerdict::FitsGpu => "fits GPU with "@ + gib_text(
            if r.memory.gpu_limit_bytes >= r.memory.total_bytes {
                (r.memory.gpu_limit_bytes - r.memory.total_bytes) as u64
            } else {
                0
            },
        ) + " to spare"@,
        FitVerdict::FitsWithSysctlTuning => "fits after sysctl tuning"@,
        FitVerdict::FitsRamOnly => "fits in RAM only (CPU offload)"@,
        FitVerdict::DoesNotFit => "does not fit this machine"@,
    }) + ", ~"@ + digits(round_whole(r.speed.generation_tps@)) + " tok/s ("@ + tier_label(
        r.speed.tier,
    ) + "), "@ + context_text(r.model.context_max) + " context"@
}

/// Why a row is recommended.
pub fn justification(r: &ScoredModel) -> (s: String)
    requires
        r.speed.generation_tps.wf(),
    ensures
        s@ == justification_text(r@),
{
    let mut s = match r.memory.verdict {
        FitVerdict::FitsGpu => {
            let spare = gib(r.memory.gpu_limit_bytes.saturating_sub(r.memory.total_bytes));
            let mut t = labelled("fits GPU with ", spare.as_str());
            t.append(" to spare");
            t
        },
        FitVerdict::FitsWithSysctlTuning => "fits after sysctl tuning".to_owned(),
        FitVerdict::FitsRamOnly => "fits in RAM only (CPU offload)".to_owned(),
        FitVerdict::DoesNotFit => "does not fit this machine".to_owned(),
    };
    s.append(", ~");
    s.append(r.speed.generation_tps.whole_text().as_str());
    s.append(" tok/s (");
    s.append(r.speed.tier.label());
    s.append("), ");
    s.append(context_label(r.model.context_max).as_str());
    s.append(" context");
    s
}

/// The line of a recommendation.
pub open spec fn recommendation_text(r: Ranked) -> Seq<char> {
    r.model.name + " "@ + r.model.variants[r.variant_idx as int].quant + " - "@ + digits(
        round_whole(r.score.total@),
    ) + "/100: "@ + justification_text(r)
}

/// The line of a recommendation.
pub fn recommendation_line(r: &ScoredModel) -> (s: String)
    requires
        row_wf(r@),
    ensures
        s@ == recommendation_text(r@),
{
    assert(r@.model.variants[r.variant_idx as int] == r.model.variants@[r.variant_idx as int]@);
    let mut s = r.model.name.clone();
    s.append(" ");
    s.append(r.model.variants[r.variant_idx].quant.as_str());
    s.append(" - ");
    s.append(r.score.total.whole_text().as_str());
    s.append("/100: ");
    s.append(justification(r).as_str());
    s
}

} // verus!
