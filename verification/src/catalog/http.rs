//! What the sources of the catalog answer.

use vstd::prelude::*;

use crate::error::{Failure, PaddockError};
use crate::hardware::probe::{answer_in, look_up};
use crate::json::{parse, parsed, tree, Tree};
use crate::text::same;

verus! {

/// What came of a request for JSON.
pub open spec fn json_outcome(r: Result<serde_json::Value, PaddockError>) -> Result<
    Tree,
    Failure,
> {
    match r {
        Ok(v) => Ok(tree(v)),
        Err(e) => Err(e@),
    }
}

/// What came of a request for a page.
pub open spec fn text_outcome(r: Result<String, PaddockError>) -> Result<Seq<char>, Failure> {
    match r {
        Ok(s) => Ok(s@),
        Err(e) => Err(e@),
    }
}

/// What came of a request for bytes.
pub open spec fn bytes_outcome(r: Result<Vec<u8>, PaddockError>) -> Result<Seq<u8>, Failure> {
    match r {
        Ok(b) => Ok(b@),
        Err(e) => Err(e@),
    }
}

/// The network. A client may answer the same request differently each time;
/// the spec functions say which answers it may give. A client that does not
/// say so may give any.
pub trait HttpClient {
    /// `answer` may be given for the JSON behind a URL.
    open spec fn gives_json(&self, url: Seq<char>, answer: Result<Tree, Failure>) -> bool {
        true
    }

    /// `answer` may be given for the JSON behind a URL, asked for with this
    /// `Accept` header.
    open spec fn gives_accepted(
        &self,
        url: Seq<char>,
        accept: Seq<char>,
        answer: Result<Tree, Failure>,
    ) -> bool {
        true
    }

    /// `answer` may be given for the text behind a URL.
    open spec fn gives_text(&self, url: Seq<char>, answer: Result<Seq<char>, Failure>) -> bool {
        true
    }

    /// `answer` may be given for a range of the bytes behind a URL.
    open spec fn gives_range(
        &self,
        url: Seq<char>,
        start: u64,
        end: u64,
        answer: Result<Seq<u8>, Failure>,
    ) -> bool {
        true
    }

    /// A JSON body.
    fn get_json(&self, url: &str) -> (r: Result<serde_json::Value, PaddockError>)
        ensures
            self.gives_json(url@, json_outcome(r)),
    ;

    /// A JSON body, asked for with an `Accept` header.
    fn get_json_with_accept(&self, url: &str, accept: &str) -> (r: Result<
        serde_json::Value,
        PaddockError,
    >)
        ensures
            self.gives_accepted(url@, accept@, json_outcome(r)),
    ;

    /// A body as text.
    fn get_text(&self, url: &str) -> (r: Result<String, PaddockError>)
        ensures
            self.gives_text(url@, text_outcome(r)),
    ;

    /// The bytes from `start` to `end`, both of them included.
    fn get_range(&self, url: &str, start: u64, end: u64) -> (r: Result<Vec<u8>, PaddockError>)
        ensures
            self.gives_range(url@, start, end, bytes_outcome(r)),
    ;
}

/// A network made of fixed answers: each list pairs a URL with its answer, and
/// the first pair counts. JSON stands there as text. Other URLs fail.
#[derive(Debug, Default)]
pub struct MockHttp {
    pub jsons: Vec<(String, String)>,
    pub texts: Vec<(String, String)>,
    pub ranges: Vec<(String, Vec<u8>)>,
}

/// The failure of a URL without an answer.
pub open spec fn no_answer(url: Seq<char>) -> Failure {
    Failure::Network("no answer for "@ + url)
}

/// The bytes that answer `url`, from pair `k` on.
pub open spec fn bytes_in(pairs: Seq<(String, Vec<u8>)>, url: Seq<char>, k: int) -> Option<
    Seq<u8>,
>
    decreases pairs.len() - k,
{
    if k < 0 || k >= pairs.len() {
        None
    } else if pairs[k].0@ == url {
        Some(pairs[k].1@)
    } else {
        bytes_in(pairs, url, k + 1)
    }
}

/// The JSON that answers `url`.
pub open spec fn fixed_json(pairs: Seq<(String, String)>, url: Seq<char>) -> Result<
    Tree,
    Failure,
> {
    match answer_in(pairs, url, 0) {
        Some(text) => match parsed(text) {
            Ok(t) => Ok(t),
            Err(m) => Err(Failure::Network(m)),
        },
        None => Err(no_answer(url)),
    }
}

fn unanswered(url: &str) -> (r: PaddockError)
    ensures
        r@ == no_answer(url@),
{
    let mut s = "no answer for ".to_owned();
    s.append(url);
    PaddockError::Network(s)
}

impl HttpClient for MockHttp {
    open spec fn gives_json(&self, url: Seq<char>, answer: Result<Tree, Failure>) -> bool {
        answer == fixed_json(self.jsons@, url)
    }

    open spec fn gives_accepted(
        &self,
        url: Seq<char>,
        accept: Seq<char>,
        answer: Result<Tree, Failure>,
    ) -> bool {
        answer == fixed_json(self.jsons@, url)
    }

    open spec fn gives_text(&self, url: Seq<char>, answer: Result<Seq<char>, Failure>) -> bool {
        answer == match answer_in(self.texts@, url, 0) {
            Some(s) => Ok::<Seq<char>, Failure>(s),
            None => Err(no_answer(url)),
        }
    }

    open spec fn gives_range(
        &self,
        url: Seq<char>,
        start: u64,
        end: u64,
        answer: Result<Seq<u8>, Failure>,
    ) -> bool {
        answer == match bytes_in(self.ranges@, url, 0) {
            Some(b) => Ok::<Seq<u8>, Failure>(b),
            None => Err(no_answer(url)),
        }
    }

    fn get_json(&self, url: &str) -> Result<serde_json::Value, PaddockError> {
        match look_up(&self.jsons, url) {
            Some(text) => match parse(text.as_str()) {
                Ok(v) => Ok(v),
                Err(m) => Err(PaddockError::Network(m)),
            },
            None => Err(unanswered(url)),
        }
    }

    fn get_json_with_accept(&self, url: &str, accept: &str) -> Result<
        serde_json::Value,
        PaddockError,
    > {
        self.get_json(url)
    }

    fn get_text(&self, url: &str) -> Result<String, PaddockError> {
        match look_up(&self.texts, url) {
            Some(s) => Ok(s),
            None => Err(unanswered(url)),
        }
    }

    fn get_range(&self, url: &str, start: u64, end: u64) -> Result<Vec<u8>, PaddockError> {
        let mut k: usize = 0;
        while k < self.ranges.len()
            invariant
                k <= self.ranges@.len(),
                bytes_in(self.ranges@, url@, 0) == bytes_in(self.ranges@, url@, k as int),
            decreases self.ranges@.len() - k,
        {
            if same(self.ranges[k].0.as_str(), url) {
                let mut bytes: Vec<u8> = Vec::new();
                bytes.extend_from_slice(self.ranges[k].1.as_slice());
                assert(bytes@ =~= self.ranges@[k as int].1@);
                return Ok(bytes);
            }
            k = k + 1;
        }
        Err(unanswered(url))
    }
}

} // verus!
