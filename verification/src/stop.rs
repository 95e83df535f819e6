//! Stopping servers: which ones, and how.

use vstd::prelude::*;

use crate::catalog::RuntimeKind;
use crate::numeral::{digits, push_decimal};
use crate::serving::{
    lowered_refs, match_records, matching, records_of, Match, Record, RecordMatch, ServingRecord,
};
use crate::text::{chars_of, join, joined, lowercase, same, same_chars, trim, trimmed};

verus! {

/// Whether an answer agrees to stop every server: `y` or `Y`.
pub fn agrees_to_stop(answer: &str) -> (r: bool)
    ensures
        r == (trim(answer@) == "y"@ || trim(answer@) == "Y"@),
{
    let t = trimmed(&chars_of(answer));
    same_chars(&t, &chars_of("y")) || same_chars(&t, &chars_of("Y"))
}

/// How to stop a server.
#[derive(Debug)]
pub enum StopStep {
    /// Ask the daemon to drop the model.
    Command(Vec<String>),
    /// Signal the process.
    Signal(u32),
}

/// How a record's server is stopped: models of Ollama by its command, others
/// by a signal.
pub fn stop_step(r: &ServingRecord) -> (s: StopStep)
    ensures
        match s {
            StopStep::Command(argv) => r.runtime == RuntimeKind::Ollama && argv.deep_view()
                == seq!["ollama"@, "stop"@, r@.model_ref],
            StopStep::Signal(pid) => r.runtime != RuntimeKind::Ollama && pid == r.pid,
        },
{
    if r.runtime == RuntimeKind::Ollama {
        let mut argv: Vec<String> = Vec::new();
        argv.push("ollama".to_owned());
        argv.push("stop".to_owned());
        argv.push(r.model_ref.clone());
        assert(argv.deep_view() =~= seq!["ollama"@, "stop"@, r@.model_ref]);
        StopStep::Command(argv)
    } else {
        StopStep::Signal(r.pid)
    }
}

/// How one server is listed.
pub open spec fn server_line(r: Record) -> Seq<char> {
    "  "@ + r.model_ref + " (pid "@ + digits(r.pid as nat) + ")"@
}

pub open spec fn server_lines(head: Seq<char>, v: Seq<Record>) -> Seq<Seq<char>> {
    seq![head] + v.map_values(|r: Record| server_line(r))
}

pub(crate) fn lines_of(head: String, v: &Vec<&ServingRecord>) -> (r: Vec<String>)
    ensures
        r.deep_view() == server_lines(head@, records_of(v@)),
{
    let ghost first = head@;
    let mut r: Vec<String> = Vec::new();
    r.push(head);
    let n: usize = v.len();
    for i in 0..n
        invariant
            n == v@.len(),
            r@.len() == i + 1,
            r@[0]@ == first,
            forall|j: int| 0 <= j < i ==> (#[trigger] r@[j + 1])@ == server_line(v@[j]@),
    {
        let mut s = "  ".to_owned();
        s.append(v[i].model_ref.as_str());
        s.append(" (pid ");
        push_decimal(&mut s, v[i].pid as u128);
        s.append(")");
        r.push(s);
    }
    proof {
        let want = server_lines(first, records_of(v@));
        assert forall|k: int| 0 <= k < r@.len() implies (#[trigger] r@[k])@ == want[k] by {
            if k > 0 {
                let j = k - 1;
                assert(r@[j + 1]@ == server_line(v@[j]@));
            }
        }
        assert(r.deep_view() =~= want);
    }
    r
}

/// What a request to stop servers comes to.
pub enum StopPlan<'a> {
    /// Tell these lines, and stop nothing.
    Refuse(Vec<String>),
    /// Show these lines, ask, and stop the servers if the user agrees.
    Confirm(Vec<String>, Vec<&'a ServingRecord>),
    Stop(Vec<&'a ServingRecord>),
}

/// `StopPlan` without its storage.
pub ghost enum Stopping {
    Refuse(Seq<Seq<char>>),
    Confirm(Seq<Seq<char>>, Seq<Record>),
    Stop(Seq<Record>),
}

impl<'a> View for StopPlan<'a> {
    type V = Stopping;

    open spec fn view(&self) -> Stopping {
        match *self {
            StopPlan::Refuse(lines) => Stopping::Refuse(lines.deep_view()),
            StopPlan::Confirm(lines, v) => Stopping::Confirm(lines.deep_view(), records_of(v@)),
            StopPlan::Stop(v) => Stopping::Stop(records_of(v@)),
        }
    }
}

/// What a request comes to, given the servers that match it. Stopping all of
/// them is asked about first, unless the user has already said yes.
pub open spec fn stopping(
    all: Seq<Record>,
    found: Match,
    target: Seq<char>,
    yes: bool,
) -> Stopping {
    match found {
        Match::Ambiguous(v) => Stopping::Refuse(
            server_lines("`"@ + target + "` matches several servers — be specific:"@, v),
        ),
        Match::NotFound => {
            let none = "no running server matches `"@ + target + "`"@;
            if all.len() == 0 {
                Stopping::Refuse(seq![none])
            } else {
                Stopping::Refuse(
                    seq![
                        none,
                        "running: "@ + joined(all.map_values(|r: Record| r.model_ref), ", "@),
                    ],
                )
            }
        },
        Match::Matched(v) => if target == "all"@ && !yes {
            Stopping::Confirm(
                server_lines("about to stop "@ + digits(v.len()) + " server(s):"@, v),
                v,
            )
        } else {
            Stopping::Stop(v)
        },
    }
}

/// Only servers that the target matched are stopped, and all of these; without
/// a question unless the target is all of them and that was not agreed to.
pub proof fn only_matched_servers_stop(
    all: Seq<Record>,
    found: Match,
    target: Seq<char>,
    yes: bool,
)
    ensures
        match stopping(all, found, target, yes) {
            Stopping::Stop(v) => found == Match::Matched(v) && (target == "all"@ ==> yes),
            Stopping::Confirm(_, v) => found == Match::Matched(v) && target == "all"@ && !yes,
            Stopping::Refuse(_) => !(found is Matched),
        },
{
}

/// What a request comes to, given the servers that match it.
pub fn stop_matched<'a>(
    records: &'a [ServingRecord],
    found: RecordMatch<'a>,
    target: &str,
    yes: bool,
) -> (r: StopPlan<'a>)
    ensures
        r@ == stopping(
            Seq::new(records@.len(), |i: int| records@[i]@),
            found@,
            target@,
            yes,
        ),
{
    match found {
        RecordMatch::Ambiguous(v) => {
            let mut s = "`".to_owned();
            s.append(target);
            s.append("` matches several servers — be specific:");
            StopPlan::Refuse(lines_of(s, &v))
        },
        RecordMatch::NotFound => {
            let ghost all = Seq::new(records@.len(), |i: int| records@[i]@);
            let mut lines: Vec<String> = Vec::new();
            let mut s = "no running server matches `".to_owned();
            s.append(target);
            s.append("`");
            lines.push(s);
            let n: usize = records.len();
            if n > 0 {
                let mut refs: Vec<String> = Vec::new();
                for i in 0..n
                    invariant
                        n == records@.len(),
                        refs@.len() == i,
                        forall|j: int|
                            0 <= j < i ==> (#[trigger] refs@[j])@ == records@[j]@.model_ref,
                {
                    refs.push(records[i].model_ref.clone());
                }
                assert(refs.deep_view() =~= all.map_values(|r: Record| r.model_ref));
                let mut s = "running: ".to_owned();
                s.append(join(&refs, ", ").as_str());
                lines.push(s);
                assert(lines.deep_view() =~= seq![
                    "no running server matches `"@ + target@ + "`"@,
                    "running: "@ + joined(all.map_values(|r: Record| r.model_ref), ", "@),
                ]);
            } else {
                assert(lines.deep_view() =~= seq![
                    "no running server matches `"@ + target@ + "`"@,
                ]);
            }
            StopPlan::Refuse(lines)
        },
        RecordMatch::Matched(v) => {
            if same(target, "all") && !yes {
                let mut s = "about to stop ".to_owned();
                push_decimal(&mut s, v.len() as u128);
                s.append(" server(s):");
                StopPlan::Confirm(lines_of(s, &v), v)
            } else {
                StopPlan::Stop(v)
            }
        },
    }
}

/// What a request to stop servers comes to.
pub fn stop_servers<'a>(records: &'a [ServingRecord], target: &str, yes: bool) -> (r: StopPlan<'a>)
    ensures
        ({
            let all = Seq::new(records@.len(), |i: int| records@[i]@);
            r@ == stopping(
                all,
                matching(all, lowered_refs(all), target@, lowercase(target@)),
                target@,
                yes,
            )
        }),
{
    stop_matched(records, match_records(records, target), target, yes)
}

/// Only a request for all servers asks first, and saying yes in advance skips
/// the question without changing which servers are stopped.
pub proof fn yes_only_skips_the_question(all: Seq<Record>, found: Match, target: Seq<char>)
    ensures
        !(stopping(all, found, target, true) is Confirm),
        stopping(all, found, target, false) matches Stopping::Confirm(_, v) ==> target == "all"@
            && stopping(all, found, target, true) == Stopping::Stop(v),
        !(stopping(all, found, target, false) is Confirm) ==> stopping(all, found, target, false)
            == stopping(all, found, target, true),
{
}

/// What is told once a server was stopped.
pub fn stopped_line(r: &ServingRecord) -> (s: String)
    ensures
        s@ == "stopped "@ + r@.model_ref + " (pid "@ + digits(r.pid as nat) + ")"@,
{
    let mut s = "stopped ".to_owned();
    s.append(r.model_ref.as_str());
    s.append(" (pid ");
    push_decimal(&mut s, r.pid as u128);
    s.append(")");
    s
}

} // verus!
