//! The log of a server.

use vstd::prelude::*;

use crate::serving::{
    lowered_refs, match_records, matching, records_of, Match, Record, RecordMatch, ServingRecord,
};
use crate::stop::{lines_of, server_lines};
use crate::text::lowercase;

verus! {

/// What a request for a log comes to.
#[derive(Debug)]
pub enum LogPlan {
    /// Show this file.
    Show(String),
    /// Tell these lines.
    Refuse(Vec<String>),
}

/// `LogPlan` without its storage.
pub ghost enum Shown {
    Show(Seq<char>),
    Refuse(Seq<Seq<char>>),
}

impl View for LogPlan {
    type V = Shown;

    open spec fn view(&self) -> Shown {
        match *self {
            LogPlan::Show(path) => Shown::Show(path@),
            LogPlan::Refuse(lines) => Shown::Refuse(lines.deep_view()),
        }
    }
}

pub open spec fn several(target: Seq<char>, v: Seq<Record>) -> Shown {
    Shown::Refuse(server_lines("`"@ + target + "` matches several servers — be specific:"@, v))
}

/// What a request comes to, given the servers that match it: only one server
/// has its log shown, and only if it is detached.
pub open spec fn log_for(found: Match, target: Seq<char>) -> Shown {
    match found {
        Match::NotFound => Shown::Refuse(seq!["no running server matches `"@ + target + "`"@]),
        Match::Ambiguous(v) => several(target, v),
        Match::Matched(v) => if v.len() != 1 {
            several(target, v)
        } else {
            match v[0].log_path {
                Some(path) => Shown::Show(path),
                None => Shown::Refuse(seq![v[0].model_ref + " has no log: it is not detached"@]),
            }
        },
    }
}

/// A log is shown only where one server matches, and it is that server's.
pub proof fn shown_log_is_of_the_match(found: Match, target: Seq<char>)
    ensures
        log_for(found, target) matches Shown::Show(path) ==> found matches Match::Matched(v)
            && v.len() == 1 && v[0].log_path == Some(path),
        found matches Match::Matched(v) ==> v.len() == 1 && v[0].log_path is Some ==> log_for(
            found,
            target,
        ) == Shown::Show(v[0].log_path->Some_0),
{
}

fn one(s: String) -> (r: LogPlan)
    ensures
        r@ == Shown::Refuse(seq![s@]),
{
    let ghost line = s@;
    let mut lines: Vec<String> = Vec::new();
    lines.push(s);
    assert(lines.deep_view() =~= seq![line]);
    LogPlan::Refuse(lines)
}

fn refuse_several(target: &str, v: &Vec<&ServingRecord>) -> (r: LogPlan)
    ensures
        r@ == several(target@, records_of(v@)),
{
    let mut s = "`".to_owned();
    s.append(target);
    s.append("` matches several servers — be specific:");
    LogPlan::Refuse(lines_of(s, v))
}

/// What a request comes to, given the servers that match it.
pub fn log_of_matched(found: RecordMatch, target: &str) -> (r: LogPlan)
    ensures
        r@ == log_for(found@, target@),
{
    match found {
        RecordMatch::NotFound => {
            let mut s = "no running server matches `".to_owned();
            s.append(target);
            s.append("`");
            one(s)
        },
        RecordMatch::Ambiguous(v) => refuse_several(target, &v),
        RecordMatch::Matched(v) => {
            if v.len() != 1 {
                return refuse_several(target, &v);
            }
            assert(records_of(v@)[0] == v@[0]@);
            match &v[0].log_path {
                Some(path) => LogPlan::Show(path.clone()),
                None => {
                    let mut s = v[0].model_ref.clone();
                    s.append(" has no log: it is not detached");
                    one(s)
                },
            }
        },
    }
}

/// What a request for the log of a server comes to.
pub fn log_of(records: &[ServingRecord], target: &str) -> (r: LogPlan)
    ensures
        ({
            let all = Seq::new(records@.len(), |i: int| records@[i]@);
            r@ == log_for(matching(all, lowered_refs(all), target@, lowercase(target@)), target@)
        }),
{
    log_of_matched(match_records(records, target), target)
}

} // verus!
