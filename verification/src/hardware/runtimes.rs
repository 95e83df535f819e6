//! Which programs that run models are there, and which are up.

use vstd::prelude::*;

use crate::hardware::probe::SystemProbe;
use crate::json::{as_str, get, member, parse, parsed, text_in, text_of, tree, Tree};
use crate::text::{
    chars_of, contains, contains_chars, is_space, part, skip_space_back, space, string_of, trim,
    trim_end, trimmed,
};

verus! {

#[derive(Debug)]
pub struct RuntimeStatus {
    pub installed: bool,
    pub version: Option<String>,
    pub running: bool,
}

#[derive(Debug)]
pub struct RuntimesStatus {
    pub ollama: RuntimeStatus,
    pub llama_cpp: RuntimeStatus,
    pub mlx: RuntimeStatus,
}

/// `RuntimeStatus` without its storage.
pub ghost struct Status {
    pub installed: bool,
    pub version: Option<Seq<char>>,
    pub running: bool,
}

/// `RuntimesStatus` without its storage.
pub ghost struct Runtimes {
    pub ollama: Status,
    pub llama_cpp: Status,
    pub mlx: Status,
}

impl View for RuntimeStatus {
    type V = Status;

    open spec fn view(&self) -> Status {
        Status {
            installed: self.installed,
            version: self.version.deep_view(),
            running: self.running,
        }
    }
}

impl View for RuntimesStatus {
    type V = Runtimes;

    open spec fn view(&self) -> Runtimes {
        Runtimes { ollama: self.ollama@, llama_cpp: self.llama_cpp@, mlx: self.mlx@ }
    }
}

impl Default for RuntimeStatus {
    fn default() -> (r: RuntimeStatus)
        ensures
            r@ == (Status { installed: false, version: None, running: false }),
    {
        RuntimeStatus { installed: false, version: None, running: false }
    }
}

impl Default for RuntimesStatus {
    fn default() -> (r: RuntimesStatus)
        ensures
            r.ollama@ == (Status { installed: false, version: None, running: false }),
            r.llama_cpp@ == r.ollama@,
            r.mlx@ == r.ollama@,
    {
        RuntimesStatus {
            ollama: RuntimeStatus::default(),
            llama_cpp: RuntimeStatus::default(),
            mlx: RuntimeStatus::default(),
        }
    }
}

impl Clone for RuntimeStatus {
    fn clone(&self) -> (r: RuntimeStatus)
        ensures
            r@ == self@,
    {
        RuntimeStatus {
            installed: self.installed,
            version: crate::catalog::clone_text(&self.version),
            running: self.running,
        }
    }
}

impl Clone for RuntimesStatus {
    fn clone(&self) -> (r: RuntimesStatus)
        ensures
            r@ == self@,
    {
        RuntimesStatus {
            ollama: self.ollama.clone(),
            llama_cpp: self.llama_cpp.clone(),
            mlx: self.mlx.clone(),
        }
    }
}

// ---------------------------------------------------------------------------
// Versions
// ---------------------------------------------------------------------------

/// Where the last word of a text without white space behind begins.
pub open spec fn last_word_start(s: Seq<char>, i: int) -> int
    decreases i,
{
    if 0 < i <= s.len() && !is_space(s[i - 1]) {
        last_word_start(s, i - 1)
    } else {
        i
    }
}

/// The last word of a text.
pub open spec fn last_word(s: Seq<char>) -> Option<Seq<char>> {
    let t = trim_end(s);
    if t.len() == 0 {
        None
    } else {
        Some(t.skip(last_word_start(t, t.len() as int)))
    }
}

fn find_last_word(s: &str) -> (r: Option<String>)
    ensures
        r.deep_view() == last_word(s@),
{
    let cs = chars_of(s);
    let end: usize = skip_space_back(&cs, 0, cs.len());
    assert(cs@.subrange(0, cs@.len() as int) =~= cs@);
    let t = part(&cs, 0, end);
    if t.len() == 0 {
        return None;
    }
    let n: usize = t.len();
    let mut i: usize = n;
    while i > 0 && !space(t[i - 1])
        invariant
            i <= n == t@.len(),
            last_word_start(t@, n as int) == last_word_start(t@, i as int),
        decreases i,
    {
        i = i - 1;
    }
    assert(t@.subrange(i as int, n as int) =~= t@.skip(i as int));
    Some(string_of(&part(&t, i, n)))
}

/// The first line of a text that holds `p`.
pub open spec fn line_with(s: Seq<char>, p: Seq<char>) -> Option<Seq<char>>
    decreases s.len(),
{
    match s.index_of_first('\n') {
        Some(i) => if 0 <= i < s.len() {
            if contains(s.take(i), p) {
                Some(s.take(i))
            } else {
                line_with(s.skip(i + 1), p)
            }
        } else {
            None
        },
        None => if contains(s, p) {
            Some(s)
        } else {
            None
        },
    }
}

fn find_line_with(s: &[char], p: &[char]) -> (r: Option<Vec<char>>)
    ensures
        match r {
            Some(l) => line_with(s@, p@) == Some(l@),
            None => line_with(s@, p@) is None,
        },
    decreases s@.len(),
{
    let n: usize = s.len();
    match crate::text::find_char(s, '\n') {
        Some(i) => {
            assert(i < n);
            assert(s@.subrange(0, i as int) =~= s@.take(i as int));
            let line = part(s, 0, i);
            if contains_chars(&line, p) {
                Some(line)
            } else {
                let rest = part(s, i + 1, n);
                assert(rest@ =~= s@.skip(i as int + 1));
                find_line_with(&rest, p)
            }
        },
        None => {
            if contains_chars(s, p) {
                assert(s@.subrange(0, n as int) =~= s@);
                Some(part(s, 0, n))
            } else {
                None
            }
        },
    }
}

/// The version that the Ollama server tells.
pub open spec fn told_version(answer: Seq<char>) -> Option<Seq<char>> {
    match parsed(answer) {
        Ok(t) => version_in(t),
        Err(_) => None,
    }
}

/// The version in what the Ollama server answers.
pub open spec fn version_in(t: Tree) -> Option<Seq<char>> {
    text_in(member(t, "version"@))
}

/// The version in what the Ollama server answers.
pub fn version_of(v: &serde_json::Value) -> (r: Option<String>)
    ensures
        r.deep_view() == version_in(tree(*v)),
{
    text_of(get(v, "version"))
}

fn read_version(answer: &str) -> (r: Option<String>)
    ensures
        r.deep_view() == told_version(answer@),
{
    match parse(answer) {
        Ok(v) => version_of(&v),
        Err(_) => None,
    }
}

// ---------------------------------------------------------------------------
// Detection
// ---------------------------------------------------------------------------

/// Ollama: a server that answers counts as installed. Else the program in the
/// path counts, and its last word is its version.
pub open spec fn ollama_status(
    in_path: bool,
    answer: Option<Seq<char>>,
    output: Option<Seq<char>>,
) -> Status {
    match answer {
        Some(a) => Status { installed: true, version: told_version(a), running: true },
        None => Status {
            installed: in_path,
            version: match output {
                Some(o) if in_path => last_word(o),
                _ => None,
            },
            running: false,
        },
    }
}

/// llama.cpp: either of its programs counts; it prints a line with its version.
pub open spec fn llama_cpp_status(found: bool, output: Option<Seq<char>>) -> Status {
    Status {
        installed: found,
        version: match output {
            Some(o) if found => match line_with(o, "version"@) {
                Some(l) => Some(trim(l)),
                None => None,
            },
            _ => None,
        },
        running: false,
    }
}

/// mlx-lm: the program or the Python module counts.
pub open spec fn mlx_status(in_path: bool, output: Option<Seq<char>>) -> Status {
    let version = match output {
        Some(o) => if trim(o).len() > 0 {
            Some(trim(o))
        } else {
            None
        },
        None => None,
    };
    Status { installed: in_path || version is Some, version, running: false }
}

/// A runtime has a version only where it is installed, and runs only where it
/// answered. Ollama is installed where its program is found or it answers,
/// llama.cpp where a program of it is, MLX where its program is or Python tells
/// its version.
pub proof fn version_needs_an_installation(
    found: bool,
    answer: Option<Seq<char>>,
    output: Option<Seq<char>>,
)
    ensures
        ({
            let o = ollama_status(found, answer, output);
            let l = llama_cpp_status(found, output);
            let m = mlx_status(found, output);
            &&& o.installed <==> found || answer is Some
            &&& o.running <==> answer is Some
            &&& o.version is Some ==> o.installed
            &&& answer is None && !found ==> o.version is None
            &&& l.installed <==> found
            &&& l.version is Some ==> l.installed
            &&& m.installed <==> found || (output is Some && trim(output->Some_0).len() > 0)
            &&& m.version is Some ==> m.version == Some(trim(output->Some_0))
            &&& !l.running && !m.running
        }),
{
}

proof fn lemma_last_word_start(s: Seq<char>, i: int)
    requires
        0 <= i <= s.len(),
    ensures
        0 <= last_word_start(s, i) <= i,
        forall|k: int| last_word_start(s, i) <= k < i ==> !is_space(#[trigger] s[k]),
        last_word_start(s, i) > 0 ==> is_space(s[last_word_start(s, i) - 1]),
    decreases i,
{
    if 0 < i && !is_space(s[i - 1]) {
        lemma_last_word_start(s, i - 1);
    }
}

/// The last word of a text holds no blank, a blank or nothing goes before it,
/// and nothing but blanks comes after.
pub proof fn last_word_is_a_word(s: Seq<char>)
    ensures
        last_word(s) matches Some(w) ==> {
            let t = trim_end(s);
            &&& forall|k: int| 0 <= k < w.len() ==> !is_space(#[trigger] w[k])
            &&& w.is_suffix_of(t)
            &&& w.len() < t.len() ==> is_space(t[t.len() - w.len() - 1])
        },
{
    let t = trim_end(s);
    if t.len() > 0 {
        lemma_last_word_start(t, t.len() as int);
        let i = last_word_start(t, t.len() as int);
        let w = t.skip(i);
        assert forall|k: int| 0 <= k < w.len() implies !is_space(#[trigger] w[k]) by {
            assert(w[k] == t[i + k]);
        }
    }
}

/// The line found holds what was looked for, and is one line.
pub proof fn found_line_is_one_line(s: Seq<char>, p: Seq<char>)
    ensures
        line_with(s, p) matches Some(l) ==> contains(l, p) && !l.contains('\n'),
    decreases s.len(),
{
    s.index_of_first_ensures('\n');
    if let Some(i) = s.index_of_first('\n') {
        if s.take(i).contains('\n') {
            let k = choose|k: int| 0 <= k < s.take(i).len() && s.take(i)[k] == '\n';
            assert(s[k] == '\n');
        }
        found_line_is_one_line(s.skip(i + 1), p);
    }
}

/// Ollama, by whether it is in the path, what its server answers and what the
/// program prints.
pub fn ollama_from(in_path: bool, answer: Option<String>, output: Option<String>) -> (r:
    RuntimeStatus)
    ensures
        r@ == ollama_status(in_path, answer.deep_view(), output.deep_view()),
{
    match answer {
        Some(a) => RuntimeStatus {
            installed: true,
            version: read_version(a.as_str()),
            running: true,
        },
        None => {
            let version = match output {
                Some(o) => if in_path {
                    find_last_word(o.as_str())
                } else {
                    None
                },
                None => None,
            };
            RuntimeStatus { installed: in_path, version, running: false }
        },
    }
}

/// llama.cpp, by whether a program was found and what it prints.
pub fn llama_cpp_from(found: bool, output: Option<String>) -> (r: RuntimeStatus)
    ensures
        r@ == llama_cpp_status(found, output.deep_view()),
{
    let version = match output {
        Some(o) => if found {
            match find_line_with(&chars_of(o.as_str()), &chars_of("version")) {
                Some(l) => Some(string_of(&trimmed(&l))),
                None => None,
            }
        } else {
            None
        },
        None => None,
    };
    RuntimeStatus { installed: found, version, running: false }
}

/// mlx-lm, by whether it is in the path and what Python prints.
pub fn mlx_from(in_path: bool, output: Option<String>) -> (r: RuntimeStatus)
    ensures
        r@ == mlx_status(in_path, output.deep_view()),
{
    let version = match output {
        Some(o) => {
            let t = trimmed(&chars_of(o.as_str()));
            if t.len() > 0 {
                Some(string_of(&t))
            } else {
                None
            }
        },
        None => None,
    };
    RuntimeStatus { installed: in_path || version.is_some(), version, running: false }
}

/// Ollama, by the place of its program.
pub open spec fn ollama_found(
    place: Option<Seq<char>>,
    answer: Option<Seq<char>>,
    output: Option<Seq<char>>,
) -> Status {
    ollama_status(place is Some, answer, output)
}

/// mlx-lm, by the place of its program.
pub open spec fn mlx_found(place: Option<Seq<char>>, output: Option<Seq<char>>) -> Status {
    mlx_status(place is Some, output)
}

/// `s` is the status of Ollama for some answers that the machine may give.
/// The program is asked for its version only where the server does not answer.
pub open spec fn is_ollama<P: SystemProbe>(probe: P, s: Status) -> bool {
    exists|place: Option<Seq<char>>, answer: Option<Seq<char>>, output: Option<Seq<char>>|
        {
            &&& #[trigger] probe.tells_place("ollama"@, place)
            &&& #[trigger] probe.tells_page("http://127.0.0.1:11434/api/version"@, answer)
            &&& place is Some && answer is None ==> probe.tells_output(
                "ollama"@,
                seq!["--version"@],
                output,
            )
            &&& s == #[trigger] ollama_found(place, answer, output)
        }
}

/// llama.cpp, by the places of its two programs.
pub open spec fn llama_cpp_found(
    cli: Option<Seq<char>>,
    server: Option<Seq<char>>,
    output: Option<Seq<char>>,
) -> Status {
    llama_cpp_status(cli is Some || server is Some, output)
}

/// `s` is the status of llama.cpp for some answers that the machine may give.
pub open spec fn is_llama_cpp<P: SystemProbe>(probe: P, s: Status) -> bool {
    exists|cli: Option<Seq<char>>, server: Option<Seq<char>>, output: Option<Seq<char>>|
        {
            &&& #[trigger] probe.tells_place("llama-cli"@, cli)
            &&& cli is None ==> probe.tells_place("llama-server"@, server)
            &&& cli is Some ==> probe.tells_output("llama-cli"@, seq!["--version"@], output)
            &&& cli is None && server is Some ==> probe.tells_output(
                "llama-server"@,
                seq!["--version"@],
                output,
            )
            &&& s == #[trigger] llama_cpp_found(cli, server, output)
        }
}

/// `s` is the status of mlx-lm for some answers that the machine may give.
pub open spec fn is_mlx<P: SystemProbe>(probe: P, s: Status) -> bool {
    exists|place: Option<Seq<char>>, output: Option<Seq<char>>|
        {
            &&& #[trigger] probe.tells_place("mlx_lm.chat"@, place)
            &&& probe.tells_output(
                "python3"@,
                seq!["-c"@, "import mlx_lm; print(mlx_lm.__version__)"@],
                output,
            )
            &&& s == #[trigger] mlx_found(place, output)
        }
}

/// `r` is the state of all runtimes for some answers that the machine may give.
pub open spec fn is_detected<P: SystemProbe>(probe: P, r: Runtimes) -> bool {
    is_ollama(probe, r.ollama) && is_llama_cpp(probe, r.llama_cpp) && is_mlx(probe, r.mlx)
}

fn detect_ollama<P: SystemProbe>(probe: &P) -> (r: RuntimeStatus)
    ensures
        is_ollama(*probe, r@),
{
    let place = probe.which("ollama");
    let answer = probe.http_get_local("http://127.0.0.1:11434/api/version");
    let args = ["--version"];
    let output = if place.is_some() && answer.is_none() {
        probe.run_command("ollama", &args)
    } else {
        None
    };
    assert(Seq::new(args@.len(), |i: int| args@[i]@) =~= seq!["--version"@]);
    let ghost a = answer.deep_view();
    let ghost o = output.deep_view();
    assert(probe.tells_place("ollama"@, place.deep_view()));
    assert(probe.tells_page("http://127.0.0.1:11434/api/version"@, a));
    let r = ollama_from(place.is_some(), answer, output);
    assert(r@ == ollama_found(place.deep_view(), a, o));
    r
}

fn detect_llama_cpp<P: SystemProbe>(probe: &P) -> (r: RuntimeStatus)
    ensures
        is_llama_cpp(*probe, r@),
{
    let args = ["--version"];
    assert(Seq::new(args@.len(), |i: int| args@[i]@) =~= seq!["--version"@]);
    let cli = probe.which("llama-cli");
    let server = if cli.is_none() {
        probe.which("llama-server")
    } else {
        None
    };
    let output = if cli.is_some() {
        probe.run_command("llama-cli", &args)
    } else if server.is_some() {
        probe.run_command("llama-server", &args)
    } else {
        None
    };
    let ghost o = output.deep_view();
    assert(probe.tells_place("llama-cli"@, cli.deep_view()));
    let r = llama_cpp_from(cli.is_some() || server.is_some(), output);
    assert(r@ == llama_cpp_found(cli.deep_view(), server.deep_view(), o));
    r
}

fn detect_mlx<P: SystemProbe>(probe: &P) -> (r: RuntimeStatus)
    ensures
        is_mlx(*probe, r@),
{
    let place = probe.which("mlx_lm.chat");
    let args = ["-c", "import mlx_lm; print(mlx_lm.__version__)"];
    assert(Seq::new(args@.len(), |i: int| args@[i]@) =~= seq![
        "-c"@,
        "import mlx_lm; print(mlx_lm.__version__)"@,
    ]);
    let output = probe.run_command("python3", &args);
    let ghost o = output.deep_view();
    assert(probe.tells_place("mlx_lm.chat"@, place.deep_view()));
    let r = mlx_from(place.is_some(), output);
    assert(r@ == mlx_found(place.deep_view(), o));
    r
}

/// Looks for every runtime on this machine.
pub fn detect_runtimes<P: SystemProbe>(probe: &P) -> (r: RuntimesStatus)
    ensures
        is_detected(*probe, r@),
{
    RuntimesStatus {
        ollama: detect_ollama(probe),
        llama_cpp: detect_llama_cpp(probe),
        mlx: detect_mlx(probe),
    }
}

/// What runs is installed, and only Ollama is ever found running.
pub proof fn running_is_installed<P: SystemProbe>(probe: P, r: Runtimes)
    requires
        is_detected(probe, r),
    ensures
        r.ollama.running ==> r.ollama.installed,
        !r.llama_cpp.running,
        !r.mlx.running,
{
}

} // verus!
