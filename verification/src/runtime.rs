//! The exact command that runs or serves a model: data only, nothing is
//! started here.

use vstd::prelude::*;

use crate::catalog::sync::{base_name_of, base_of};
use crate::catalog::{
    bpw_of, quant_bpw, CatalogModel, CatalogVariant, Model, RuntimeKind, Source, Variant,
};
use crate::error::{Failure, PaddockError};
use crate::estimate::DEFAULT_CONTEXT;
use crate::hardware::runtimes::{Runtimes, RuntimesStatus};
use crate::numeral::{decimal, digits};
use crate::text::{chars_of, same, starts_with};

verus! {

/// The command that installs a runtime.
#[derive(Debug)]
pub struct InstallPlan {
    pub kind: RuntimeKind,
    pub argv: Vec<String>,
}

/// How to run a model.
#[derive(Debug)]
pub struct RunPlan {
    pub argv: Vec<String>,
    /// Set when the runtime is missing; it is installed only once the user has
    /// agreed.
    pub install: Option<InstallPlan>,
}

/// How to serve a model and where it answers.
#[derive(Debug)]
pub struct ServePlan {
    /// The server to start; `None` when a running daemon serves.
    pub server_argv: Option<Vec<String>>,
    /// Commands to run once the server is ready.
    pub pre_steps: Vec<Vec<String>>,
    pub endpoint: String,
    /// OpenAI-compatible chat completions URL.
    pub openai_url: String,
    /// What requests name as their model.
    pub model_ref: String,
    /// The path that answers once the server is ready.
    pub ready_path: String,
    /// Set when the runtime is missing; it is installed only once the user has
    /// agreed.
    pub install: Option<InstallPlan>,
    /// A port was asked for, but the daemon's is fixed.
    pub port_ignored: bool,
    pub runtime: RuntimeKind,
    /// Context window; zero where it does not apply.
    pub ctx: u32,
    /// The port of a server of our own; `None` for the daemon.
    pub port: Option<u16>,
}

/// `InstallPlan` without its storage.
pub ghost struct Install {
    pub kind: RuntimeKind,
    pub argv: Seq<Seq<char>>,
}

/// `RunPlan` without its storage.
pub ghost struct Run {
    pub argv: Seq<Seq<char>>,
    pub install: Option<Install>,
}

/// `ServePlan` without its storage.
pub ghost struct Serve {
    pub server_argv: Option<Seq<Seq<char>>>,
    pub pre_steps: Seq<Seq<Seq<char>>>,
    pub endpoint: Seq<char>,
    pub openai_url: Seq<char>,
    pub model_ref: Seq<char>,
    pub ready_path: Seq<char>,
    pub install: Option<Install>,
    pub port_ignored: bool,
    pub runtime: RuntimeKind,
    pub ctx: u32,
    pub port: Option<u16>,
}

impl View for InstallPlan {
    type V = Install;

    open spec fn view(&self) -> Install {
        Install { kind: self.kind, argv: self.argv.deep_view() }
    }
}

impl DeepView for InstallPlan {
    type V = Install;

    open spec fn deep_view(&self) -> Install {
        self@
    }
}

impl View for RunPlan {
    type V = Run;

    open spec fn view(&self) -> Run {
        Run { argv: self.argv.deep_view(), install: self.install.deep_view() }
    }
}

impl View for ServePlan {
    type V = Serve;

    open spec fn view(&self) -> Serve {
        Serve {
            server_argv: self.server_argv.deep_view(),
            pre_steps: self.pre_steps.deep_view(),
            endpoint: self.endpoint@,
            openai_url: self.openai_url@,
            model_ref: self.model_ref@,
            ready_path: self.ready_path@,
            install: self.install.deep_view(),
            port_ignored: self.port_ignored,
            runtime: self.runtime,
            ctx: self.ctx,
            port: self.port,
        }
    }
}

/// A copy of a list of texts.
pub fn clone_strings(v: &Vec<String>) -> (r: Vec<String>)
    ensures
        r.deep_view() == v.deep_view(),
{
    let mut out: Vec<String> = Vec::new();
    for i in 0..v.len()
        invariant
            out@.len() == i,
            forall|j: int| 0 <= j < i ==> (#[trigger] out@[j])@ == v@[j]@,
    {
        out.push(v[i].clone());
    }
    assert(out.deep_view() =~= v.deep_view());
    out
}

fn clone_steps(v: &Vec<Vec<String>>) -> (r: Vec<Vec<String>>)
    ensures
        r.deep_view() == v.deep_view(),
{
    let mut out: Vec<Vec<String>> = Vec::new();
    for i in 0..v.len()
        invariant
            out@.len() == i,
            forall|j: int| 0 <= j < i ==> (#[trigger] out@[j]).deep_view() == v@[j].deep_view(),
    {
        out.push(clone_strings(&v[i]));
    }
    assert(out.deep_view() =~= v.deep_view());
    out
}

impl Clone for InstallPlan {
    fn clone(&self) -> (r: InstallPlan)
        ensures
            r@ == self@,
    {
        InstallPlan { kind: self.kind, argv: clone_strings(&self.argv) }
    }
}

fn clone_install(i: &Option<InstallPlan>) -> (r: Option<InstallPlan>)
    ensures
        r.deep_view() == i.deep_view(),
{
    match i {
        Some(p) => Some(p.clone()),
        None => None,
    }
}

impl Clone for RunPlan {
    fn clone(&self) -> (r: RunPlan)
        ensures
            r@ == self@,
    {
        RunPlan { argv: clone_strings(&self.argv), install: clone_install(&self.install) }
    }
}

impl Clone for ServePlan {
    fn clone(&self) -> (r: ServePlan)
        ensures
            r@ == self@,
    {
        ServePlan {
            server_argv: match &self.server_argv {
                Some(a) => Some(clone_strings(a)),
                None => None,
            },
            pre_steps: clone_steps(&self.pre_steps),
            endpoint: self.endpoint.clone(),
            openai_url: self.openai_url.clone(),
            model_ref: self.model_ref.clone(),
            ready_path: self.ready_path.clone(),
            install: clone_install(&self.install),
            port_ignored: self.port_ignored,
            runtime: self.runtime,
            ctx: self.ctx,
            port: self.port,
        }
    }
}

// ---------------------------------------------------------------------------
// Quoting
// ---------------------------------------------------------------------------

/// Characters that stand for themselves in a shell.
pub open spec fn is_shell_safe(c: char) -> bool {
    ('0' <= c && c <= '9') || ('a' <= c && c <= 'z') || ('A' <= c && c <= 'Z') || c == '.' || c
        == '_' || c == ':' || c == '/' || c == '=' || c == '@' || c == ',' || c == '+' || c == '-'
}

pub open spec fn all_shell_safe(s: Seq<char>) -> bool {
    forall|i: int| 0 <= i < s.len() ==> is_shell_safe(#[trigger] s[i])
}

/// Each single quote closes the quotes, stands escaped, and opens them again.
pub open spec fn with_quotes_escaped(s: Seq<char>) -> Seq<char>
    decreases s.len(),
{
    if s.len() == 0 {
        Seq::empty()
    } else if s.last() == '\'' {
        with_quotes_escaped(s.drop_last()) + seq!['\'', '\\', '\'', '\'']
    } else {
        with_quotes_escaped(s.drop_last()).push(s.last())
    }
}

/// A word as a shell takes it: in single quotes unless every character is safe.
pub open spec fn shell_word(s: Seq<char>) -> Seq<char> {
    if s.len() > 0 && all_shell_safe(s) {
        s
    } else {
        seq!['\''] + with_quotes_escaped(s) + seq!['\'']
    }
}

/// What a shell makes of a word, `quoted` if it begins inside single quotes:
/// quotes go, a backslash outside them goes and its character stays. `None`
/// if the word ends inside quotes or with a backslash, or if a character stands
/// bare outside quotes that a shell may take for more than itself.
pub open spec fn unquoted(s: Seq<char>, quoted: bool) -> Option<Seq<char>>
    decreases s.len(),
{
    if s.len() == 0 {
        if quoted {
            None
        } else {
            Some(Seq::empty())
        }
    } else if s[0] == '\'' {
        unquoted(s.skip(1), !quoted)
    } else if !quoted && s[0] == '\\' {
        if s.len() < 2 {
            None
        } else {
            match unquoted(s.skip(2), false) {
                Some(t) => Some(seq![s[1]] + t),
                None => None,
            }
        }
    } else if !quoted && !is_shell_safe(s[0]) {
        None
    } else {
        match unquoted(s.skip(1), quoted) {
            Some(t) => Some(seq![s[0]] + t),
            None => None,
        }
    }
}

fn shell_safe(c: char) -> (r: bool)
    ensures
        r == is_shell_safe(c),
{
    ('0' <= c && c <= '9') || ('a' <= c && c <= 'z') || ('A' <= c && c <= 'Z') || c == '.' || c
        == '_' || c == ':' || c == '/' || c == '=' || c == '@' || c == ',' || c == '+' || c == '-'
}

/// A word as a shell takes it.
pub fn shell_quote(arg: &str) -> (r: String)
    ensures
        r@ == shell_word(arg@),
{
    let cs = chars_of(arg);
    let mut safe: bool = cs.len() > 0;
    let mut i: usize = 0;
    while i < cs.len()
        invariant
            i <= cs@.len(),
            safe == (cs@.len() > 0 && forall|j: int|
                0 <= j < i ==> is_shell_safe(#[trigger] cs@[j])),
        decreases cs@.len() - i,
    {
        if !shell_safe(cs[i]) {
            assert(!is_shell_safe(cs@[i as int]));
            safe = false;
        }
        i = i + 1;
    }
    if safe {
        return arg.to_owned();
    }
    let mut out = String::new();
    out.push('\'');
    assert(out@ =~= seq!['\''] + with_quotes_escaped(cs@.take(0)));
    let mut k: usize = 0;
    while k < cs.len()
        invariant
            k <= cs@.len(),
            out@ == seq!['\''] + with_quotes_escaped(cs@.take(k as int)),
        decreases cs@.len() - k,
    {
        assert(cs@.take(k as int + 1).drop_last() =~= cs@.take(k as int));
        assert(cs@.take(k as int + 1).last() == cs@[k as int]);
        if cs[k] == '\'' {
            out.push('\'');
            out.push('\\');
            out.push('\'');
            out.push('\'');
        } else {
            out.push(cs[k]);
        }
        assert(out@ =~= seq!['\''] + with_quotes_escaped(cs@.take(k as int + 1)));
        k = k + 1;
    }
    out.push('\'');
    assert(cs@.take(cs@.len() as int) =~= cs@);
    assert(out@ =~= seq!['\''] + with_quotes_escaped(arg@) + seq!['\'']);
    out
}

proof fn lemma_unquote_safe(s: Seq<char>)
    requires
        all_shell_safe(s),
    ensures
        unquoted(s, false) == Some(s),
    decreases s.len(),
{
    if s.len() > 0 {
        assert(is_shell_safe(s[0]));
        assert(all_shell_safe(s.skip(1)));
        lemma_unquote_safe(s.skip(1));
        assert(seq![s[0]] + s.skip(1) =~= s);
    } else {
        assert(s =~= Seq::<char>::empty());
    }
}

/// Inside quotes, an escaped text followed by `tail` reads as the text
/// followed by what `tail` reads as.
proof fn lemma_unquote_escaped(s: Seq<char>, tail: Seq<char>)
    ensures
        unquoted(with_quotes_escaped(s) + tail, true) == match unquoted(tail, true) {
            Some(t) => Some(s + t),
            None => None::<Seq<char>>,
        },
    decreases s.len(),
{
    if s.len() == 0 {
        assert(with_quotes_escaped(s) + tail =~= tail);
        if let Some(t) = unquoted(tail, true) {
            assert(s + t =~= t);
        }
    } else {
        let init = s.drop_last();
        let c = s.last();
        if c == '\'' {
            let esc = seq!['\'', '\\', '\'', '\''];
            let t2 = esc + tail;
            assert(with_quotes_escaped(s) + tail =~= with_quotes_escaped(init) + t2);
            lemma_unquote_escaped(init, t2);
            assert(t2.skip(1) =~= seq!['\\', '\'', '\''] + tail);
            assert(t2.skip(1).skip(2) =~= seq!['\''] + tail);
            assert((seq!['\''] + tail).skip(1) =~= tail);
            assert(unquoted(seq!['\''] + tail, false) == unquoted(tail, true));
            assert(t2.skip(1)[0] == '\\' && t2.skip(1)[1] == '\'');
            assert(unquoted(t2.skip(1), false) == match unquoted(tail, true) {
                Some(t) => Some(seq!['\''] + t),
                None => None::<Seq<char>>,
            });
            if let Some(t) = unquoted(tail, true) {
                assert(init + (seq!['\''] + t) =~= s + t);
            }
        } else {
            let t2 = seq![c] + tail;
            assert(with_quotes_escaped(s) + tail =~= with_quotes_escaped(init) + t2);
            lemma_unquote_escaped(init, t2);
            assert(t2.skip(1) =~= tail);
            if let Some(t) = unquoted(tail, true) {
                assert(init + (seq![c] + t) =~= s + t);
            }
        }
    }
}

/// A shell reads a quoted word as the word that was quoted.
pub proof fn quoting_keeps_the_word(s: Seq<char>)
    ensures
        unquoted(shell_word(s), false) == Some(s),
{
    if s.len() > 0 && all_shell_safe(s) {
        lemma_unquote_safe(s);
    } else {
        let w = shell_word(s);
        let tail = seq!['\''];
        assert(w.skip(1) =~= with_quotes_escaped(s) + tail);
        lemma_unquote_escaped(s, tail);
        assert(tail.skip(1) =~= Seq::<char>::empty());
        assert(unquoted(tail.skip(1), false) == Some(Seq::<char>::empty()));
        assert(unquoted(tail, true) == Some(Seq::<char>::empty()));
        assert(s + Seq::<char>::empty() =~= s);
    }
}

/// The words of a command as a shell takes them, a blank between.
pub open spec fn shell_line(argv: Seq<Seq<char>>) -> Seq<char>
    decreases argv.len(),
{
    if argv.len() == 0 {
        Seq::empty()
    } else if argv.len() == 1 {
        shell_word(argv[0])
    } else {
        shell_line(argv.drop_last()) + " "@ + shell_word(argv.last())
    }
}

impl RunPlan {
    /// The command as one line for a shell.
    pub fn display(&self) -> (r: String)
        ensures
            r@ == shell_line(self@.argv),
    {
        let ghost words = self.argv.deep_view();
        let mut out = String::new();
        let mut i: usize = 0;
        assert(out@ =~= shell_line(words.take(0)));
        while i < self.argv.len()
            invariant
                i <= self.argv@.len(),
                words == self.argv.deep_view(),
                out@ == shell_line(words.take(i as int)),
            decreases self.argv@.len() - i,
        {
            assert(words.take(i as int + 1).drop_last() =~= words.take(i as int));
            assert(words.take(i as int + 1).last() == self.argv@[i as int]@);
            let ghost before = out@;
            if i > 0 {
                out.append(" ");
            }
            let w = shell_quote(self.argv[i].as_str());
            out.append(w.as_str());
            if i == 0 {
                assert(before =~= Seq::<char>::empty());
                assert(out@ =~= w@);
            }
            i = i + 1;
        }
        assert(words.take(words.len() as int) =~= words);
        out
    }
}

// ---------------------------------------------------------------------------
// Plans
// ---------------------------------------------------------------------------

/// The port of a server of our own unless another is asked for.
pub const DEFAULT_SERVE_PORT: u16 = 8080;

/// The texts of `v`, in order.
fn s(v: &[&str]) -> (r: Vec<String>)
    ensures
        r.deep_view() == Seq::new(v@.len(), |i: int| v@[i]@),
{
    let mut out: Vec<String> = Vec::new();
    for i in 0..v.len()
        invariant
            out@.len() == i,
            forall|j: int| 0 <= j < i ==> (#[trigger] out@[j])@ == v@[j]@,
    {
        out.push(v[i].to_owned());
    }
    assert(out.deep_view() =~= Seq::new(v@.len(), |i: int| v@[i]@));
    out
}

fn joined(a: &str, b: &str, c: &str) -> (r: String)
    ensures
        r@ == a@ + b@ + c@,
{
    let mut t = a.to_owned();
    t.append(b);
    t.append(c);
    t
}

/// What Ollama's library calls a variant: the base name with the exact tag
/// where the catalog has one, else the name of the model.
pub open spec fn library_ref(m: Model, v: Variant) -> Seq<char> {
    match v.source_tag {
        Some(tag) => base_of(m.name) + ":"@ + tag,
        None => m.name,
    }
}

fn ollama_ref(model: &CatalogModel, variant: &CatalogVariant) -> (r: String)
    ensures
        r@ == library_ref(model@, variant@),
{
    match &variant.source_tag {
        Some(tag) => joined(base_name_of(model.name.as_str()).as_str(), ":", tag.as_str()),
        None => model.name.clone(),
    }
}

pub open spec fn ollama_install_plan() -> Install {
    Install { kind: RuntimeKind::Ollama, argv: seq!["brew"@, "install"@, "ollama"@] }
}

pub open spec fn llama_cpp_install_plan() -> Install {
    Install { kind: RuntimeKind::LlamaCpp, argv: seq!["brew"@, "install"@, "llama.cpp"@] }
}

pub open spec fn mlx_install_plan() -> Install {
    Install { kind: RuntimeKind::MlxLm, argv: seq!["uv"@, "tool"@, "install"@, "mlx-lm"@] }
}

/// The plan, if the runtime is missing.
pub open spec fn if_missing(installed: bool, plan: Install) -> Option<Install> {
    if installed {
        None
    } else {
        Some(plan)
    }
}

fn ollama_install(installed: bool) -> (r: Option<InstallPlan>)
    ensures
        r.deep_view() == if_missing(installed, ollama_install_plan()),
{
    if installed {
        None
    } else {
        let words = ["brew", "install", "ollama"];
        assert(Seq::new(words@.len(), |i: int| words@[i]@) =~= ollama_install_plan().argv);
        Some(InstallPlan { kind: RuntimeKind::Ollama, argv: s(&words) })
    }
}

fn llama_cpp_install(installed: bool) -> (r: Option<InstallPlan>)
    ensures
        r.deep_view() == if_missing(installed, llama_cpp_install_plan()),
{
    if installed {
        None
    } else {
        let words = ["brew", "install", "llama.cpp"];
        assert(Seq::new(words@.len(), |i: int| words@[i]@) =~= llama_cpp_install_plan().argv);
        Some(InstallPlan { kind: RuntimeKind::LlamaCpp, argv: s(&words) })
    }
}

fn mlx_install(installed: bool) -> (r: Option<InstallPlan>)
    ensures
        r.deep_view() == if_missing(installed, mlx_install_plan()),
{
    if installed {
        None
    } else {
        let words = ["uv", "tool", "install", "mlx-lm"];
        assert(Seq::new(words@.len(), |i: int| words@[i]@) =~= mlx_install_plan().argv);
        Some(InstallPlan { kind: RuntimeKind::MlxLm, argv: s(&words) })
    }
}

/// The quantization names a GGUF file: a known one, and none of MLX.
pub open spec fn is_gguf_quant(q: Seq<char>) -> bool {
    bpw_of(q) is Some && !"MLX_"@.is_prefix_of(q)
}

pub open spec fn no_repo_failure(name: Seq<char>) -> Failure {
    Failure::Other(
        "model `"@ + name + "` has no HuggingFace repo reference; re-run `paddock sync`"@,
    )
}

pub open spec fn bad_quant_failure(m: Model, v: Variant) -> Failure {
    Failure::Other(
        "variant `"@ + v.quant + "` of `"@ + m.name
            + "` is not a GGUF quant tag usable by GGUF runtimes"@,
    )
}

fn no_repo(name: &str) -> (r: PaddockError)
    ensures
        r@ == no_repo_failure(name@),
{
    PaddockError::Other(
        joined(
            "model `",
            name,
            "` has no HuggingFace repo reference; re-run `paddock sync`",
        ),
    )
}

/// Checks that a quantization names a GGUF file.
fn validate_gguf_quant(model: &CatalogModel, variant: &CatalogVariant) -> (r: Result<
    (),
    PaddockError,
>)
    ensures
        match r {
            Ok(_) => is_gguf_quant(variant@.quant),
            Err(e) => !is_gguf_quant(variant@.quant) && e@ == bad_quant_failure(model@, variant@),
        },
{
    if quant_bpw(variant.quant.as_str()).is_none() || starts_with(
        &chars_of(variant.quant.as_str()),
        &chars_of("MLX_"),
    ) {
        let mut m = joined("variant `", variant.quant.as_str(), "` of `");
        m.append(model.name.as_str());
        m.append("` is not a GGUF quant tag usable by GGUF runtimes");
        return Err(PaddockError::Other(m));
    }
    Ok(())
}

/// Whether Ollama can run a variant.
pub open spec fn runs_with_ollama(v: Variant) -> bool {
    v.runtime_compat.contains(RuntimeKind::Ollama)
}

fn has_ollama(v: &CatalogVariant) -> (r: bool)
    ensures
        r == runs_with_ollama(v@),
{
    for i in 0..v.runtime_compat.len()
        invariant
            forall|j: int| 0 <= j < i ==> v.runtime_compat@[j] != RuntimeKind::Ollama,
    {
        if v.runtime_compat[i] == RuntimeKind::Ollama {
            return true;
        }
    }
    false
}

/// The context to plan with.
pub open spec fn planned_ctx(ctx: Option<u32>) -> u32 {
    match ctx {
        Some(c) => c,
        None => DEFAULT_CONTEXT,
    }
}

/// How to run a variant: MLX models with mlx-lm, library models with Ollama,
/// GGUF files with Ollama, or with llama.cpp where Ollama cannot run them.
pub open spec fn run_plan(m: Model, v: Variant, rt: Runtimes, ctx: Option<u32>) -> Result<
    Run,
    Failure,
> {
    match m.source {
        Source::Mlx => match m.repo {
            None => Err(no_repo_failure(m.name)),
            Some(repo) => Ok(
                Run {
                    argv: seq!["mlx_lm.chat"@, "--model"@, repo],
                    install: if_missing(rt.mlx.installed, mlx_install_plan()),
                },
            ),
        },
        Source::Ollama => Ok(
            Run {
                argv: seq!["ollama"@, "run"@, library_ref(m, v)],
                install: if_missing(rt.ollama.installed, ollama_install_plan()),
            },
        ),
        Source::HuggingFace => match m.repo {
            None => Err(no_repo_failure(m.name)),
            Some(repo) => if !is_gguf_quant(v.quant) {
                Err(bad_quant_failure(m, v))
            } else if !runs_with_ollama(v) {
                Ok(
                    Run {
                        argv: seq![
                            "llama-cli"@,
                            "-hf"@,
                            repo + ":"@ + v.quant,
                            "-c"@,
                            digits(planned_ctx(ctx) as nat),
                            "--no-mmproj"@,
                        ],
                        install: if_missing(rt.llama_cpp.installed, llama_cpp_install_plan()),
                    },
                )
            } else {
                Ok(
                    Run {
                        argv: seq!["ollama"@, "run"@, "hf.co/"@ + repo + ":"@ + v.quant],
                        install: if_missing(rt.ollama.installed, ollama_install_plan()),
                    },
                )
            },
        },
    }
}

/// How to run a variant.
pub fn plan_run(
    model: &CatalogModel,
    variant: &CatalogVariant,
    rt: &RuntimesStatus,
    ctx: Option<u32>,
) -> (r: Result<RunPlan, PaddockError>)
    ensures
        match run_plan(model@, variant@, rt@, ctx) {
            Ok(p) => r is Ok && r->Ok_0@ == p,
            Err(f) => r is Err && r->Err_0@ == f,
        },
{
    let ghost plan = run_plan(model@, variant@, rt@, ctx);
    let ctx: u32 = match ctx {
        Some(c) => c,
        None => DEFAULT_CONTEXT,
    };
    match model.source {
        Source::Mlx => match &model.repo {
            None => Err(no_repo(model.name.as_str())),
            Some(repo) => {
                let words = ["mlx_lm.chat", "--model", repo.as_str()];
                assert(Seq::new(words@.len(), |i: int| words@[i]@) =~= plan->Ok_0.argv);
                Ok(RunPlan { argv: s(&words), install: mlx_install(rt.mlx.installed) })
            },
        },
        Source::Ollama => {
            let name = ollama_ref(model, variant);
            let words = ["ollama", "run", name.as_str()];
            assert(Seq::new(words@.len(), |i: int| words@[i]@) =~= plan->Ok_0.argv);
            Ok(RunPlan { argv: s(&words), install: ollama_install(rt.ollama.installed) })
        },
        Source::HuggingFace => {
            let repo = match &model.repo {
                None => {
                    return Err(no_repo(model.name.as_str()));
                },
                Some(repo) => repo.as_str(),
            };
            match validate_gguf_quant(model, variant) {
                Ok(_) => {},
                Err(e) => {
                    return Err(e);
                },
            }
            let file = joined(repo, ":", variant.quant.as_str());
            if !has_ollama(variant) {
                // Without a size llama-cli takes the model's whole context, and
                // a vision tower that the estimates do not count.
                let size = decimal(ctx as u128);
                let words = [
                    "llama-cli",
                    "-hf",
                    file.as_str(),
                    "-c",
                    size.as_str(),
                    "--no-mmproj",
                ];
                assert(Seq::new(words@.len(), |i: int| words@[i]@) =~= plan->Ok_0.argv);
                return Ok(
                    RunPlan {
                        argv: s(&words),
                        install: llama_cpp_install(rt.llama_cpp.installed),
                    },
                );
            }
            let mut name = "hf.co/".to_owned();
            name.append(file.as_str());
            assert(name@ =~= "hf.co/"@ + repo@ + ":"@ + variant@.quant);
            let words = ["ollama", "run", name.as_str()];
            assert(Seq::new(words@.len(), |i: int| words@[i]@) =~= plan->Ok_0.argv);
            Ok(RunPlan { argv: s(&words), install: ollama_install(rt.ollama.installed) })
        },
    }
}

/// Where a server of our own answers.
pub open spec fn local_url(port: u16) -> Seq<char> {
    "http://127.0.0.1:"@ + digits(port as nat)
}

pub open spec fn chat_url(endpoint: Seq<char>) -> Seq<char> {
    endpoint + "/v1/chat/completions"@
}

/// How llama.cpp serves a file of a repository.
pub open spec fn llama_server(file: Seq<char>, port: u16, ctx: u32, install: Option<Install>) -> Serve {
    Serve {
        server_argv: Some(
            seq![
                "llama-server"@,
                "-hf"@,
                file,
                "--port"@,
                digits(port as nat),
                "-c"@,
                digits(ctx as nat),
                "--no-mmproj"@,
            ],
        ),
        pre_steps: Seq::empty(),
        endpoint: local_url(port),
        openai_url: chat_url(local_url(port)),
        model_ref: file,
        ready_path: "/health"@,
        install,
        port_ignored: false,
        runtime: RuntimeKind::LlamaCpp,
        ctx,
        port: Some(port),
    }
}

/// How mlx-lm serves a repository.
pub open spec fn mlx_server(repo: Seq<char>, port: u16, install: Option<Install>) -> Serve {
    Serve {
        server_argv: Some(
            seq!["mlx_lm.server"@, "--model"@, repo, "--port"@, digits(port as nat)],
        ),
        pre_steps: Seq::empty(),
        endpoint: local_url(port),
        openai_url: chat_url(local_url(port)),
        model_ref: repo,
        ready_path: "/v1/models"@,
        install,
        port_ignored: false,
        runtime: RuntimeKind::MlxLm,
        ctx: 0,
        port: Some(port),
    }
}

/// How the Ollama daemon serves a model: it is started unless it runs, and
/// pulls the model.
pub open spec fn ollama_server(
    model_ref: Seq<char>,
    rt: Runtimes,
    port_requested: bool,
    ctx: u32,
) -> Serve {
    Serve {
        server_argv: if rt.ollama.running {
            None
        } else {
            Some(seq!["ollama"@, "serve"@])
        },
        pre_steps: seq![seq!["ollama"@, "pull"@, model_ref]],
        endpoint: "http://127.0.0.1:11434"@,
        openai_url: "http://127.0.0.1:11434/v1/chat/completions"@,
        model_ref,
        ready_path: "/api/version"@,
        install: if_missing(rt.ollama.installed, ollama_install_plan()),
        port_ignored: port_requested,
        runtime: RuntimeKind::Ollama,
        ctx,
        port: None,
    }
}

pub open spec fn port_zero_failure() -> Failure {
    Failure::Other(
        "port 0 is not supported; pick a fixed port so the endpoint is known upfront"@,
    )
}

/// How to serve a variant: as it is run, except that llama.cpp also serves
/// GGUF files where it is installed and Ollama is not.
pub open spec fn serve_plan(
    m: Model,
    v: Variant,
    rt: Runtimes,
    port: Option<u16>,
    ctx: Option<u32>,
) -> Result<Serve, Failure> {
    let p = match port {
        Some(p) => p,
        None => DEFAULT_SERVE_PORT,
    };
    let c = planned_ctx(ctx);
    if port == Some(0u16) {
        Err(port_zero_failure())
    } else {
        match m.source {
            Source::Mlx => match m.repo {
                None => Err(no_repo_failure(m.name)),
                Some(repo) => Ok(
                    mlx_server(repo, p, if_missing(rt.mlx.installed, mlx_install_plan())),
                ),
            },
            Source::Ollama => Ok(ollama_server(library_ref(m, v), rt, port is Some, c)),
            Source::HuggingFace => match m.repo {
                None => Err(no_repo_failure(m.name)),
                Some(repo) => if !is_gguf_quant(v.quant) {
                    Err(bad_quant_failure(m, v))
                } else {
                    let file = repo + ":"@ + v.quant;
                    if !runs_with_ollama(v) {
                        Ok(
                            llama_server(
                                file,
                                p,
                                c,
                                if_missing(rt.llama_cpp.installed, llama_cpp_install_plan()),
                            ),
                        )
                    } else if !rt.ollama.installed && rt.llama_cpp.installed {
                        Ok(llama_server(file, p, c, None))
                    } else {
                        Ok(ollama_server("hf.co/"@ + file, rt, port is Some, c))
                    }
                },
            },
        }
    }
}

fn local_endpoint(port: u16) -> (r: String)
    ensures
        r@ == local_url(port),
{
    let mut t = "http://127.0.0.1:".to_owned();
    t.append(decimal(port as u128).as_str());
    t
}

fn llama_server_plan(file: String, port: u16, ctx: u32, install: Option<InstallPlan>) -> (r:
    ServePlan)
    ensures
        r@ == llama_server(file@, port, ctx, install.deep_view()),
{
    let port_text = decimal(port as u128);
    let ctx_text = decimal(ctx as u128);
    let words = [
        "llama-server",
        "-hf",
        file.as_str(),
        "--port",
        port_text.as_str(),
        "-c",
        ctx_text.as_str(),
        "--no-mmproj",
    ];
    assert(Seq::new(words@.len(), |i: int| words@[i]@) =~= llama_server(
        file@,
        port,
        ctx,
        install.deep_view(),
    ).server_argv->Some_0);
    let argv = s(&words);
    let endpoint = local_endpoint(port);
    let mut openai_url = endpoint.clone();
    openai_url.append("/v1/chat/completions");
    let pre_steps: Vec<Vec<String>> = Vec::new();
    assert(pre_steps.deep_view() =~= Seq::<Seq<Seq<char>>>::empty());
    ServePlan {
        server_argv: Some(argv),
        pre_steps,
        endpoint,
        openai_url,
        model_ref: file,
        ready_path: "/health".to_owned(),
        install,
        port_ignored: false,
        runtime: RuntimeKind::LlamaCpp,
        ctx,
        port: Some(port),
    }
}

fn mlx_server_plan(repo: String, port: u16, install: Option<InstallPlan>) -> (r: ServePlan)
    ensures
        r@ == mlx_server(repo@, port, install.deep_view()),
{
    let port_text = decimal(port as u128);
    let words = ["mlx_lm.server", "--model", repo.as_str(), "--port", port_text.as_str()];
    assert(Seq::new(words@.len(), |i: int| words@[i]@) =~= mlx_server(
        repo@,
        port,
        install.deep_view(),
    ).server_argv->Some_0);
    let argv = s(&words);
    let endpoint = local_endpoint(port);
    let mut openai_url = endpoint.clone();
    openai_url.append("/v1/chat/completions");
    let pre_steps: Vec<Vec<String>> = Vec::new();
    assert(pre_steps.deep_view() =~= Seq::<Seq<Seq<char>>>::empty());
    ServePlan {
        server_argv: Some(argv),
        pre_steps,
        endpoint,
        openai_url,
        model_ref: repo,
        ready_path: "/v1/models".to_owned(),
        install,
        port_ignored: false,
        runtime: RuntimeKind::MlxLm,
        ctx: 0,
        port: Some(port),
    }
}

/// How the Ollama daemon serves a model.
pub(crate) fn ollama_server_plan(
    model_ref: String,
    rt: &RuntimesStatus,
    port_requested: bool,
    ctx: u32,
) -> (r: ServePlan)
    ensures
        r@ == ollama_server(model_ref@, rt@, port_requested, ctx),
{
    let ghost plan = ollama_server(model_ref@, rt@, port_requested, ctx);
    let server_argv: Option<Vec<String>> = if rt.ollama.running {
        None
    } else {
        let words = ["ollama", "serve"];
        assert(Seq::new(words@.len(), |i: int| words@[i]@) =~= plan.server_argv->Some_0);
        Some(s(&words))
    };
    let words = ["ollama", "pull", model_ref.as_str()];
    assert(Seq::new(words@.len(), |i: int| words@[i]@) =~= plan.pre_steps[0]);
    let mut pre_steps: Vec<Vec<String>> = Vec::new();
    pre_steps.push(s(&words));
    assert(pre_steps.deep_view() =~= plan.pre_steps);
    ServePlan {
        server_argv,
        pre_steps,
        endpoint: "http://127.0.0.1:11434".to_owned(),
        openai_url: "http://127.0.0.1:11434/v1/chat/completions".to_owned(),
        model_ref,
        ready_path: "/api/version".to_owned(),
        install: ollama_install(rt.ollama.installed),
        port_ignored: port_requested,
        runtime: RuntimeKind::Ollama,
        ctx,
        port: None,
    }
}

/// How to serve a variant.
pub fn plan_serve(
    model: &CatalogModel,
    variant: &CatalogVariant,
    rt: &RuntimesStatus,
    port: Option<u16>,
    ctx: Option<u32>,
) -> (r: Result<ServePlan, PaddockError>)
    ensures
        match serve_plan(model@, variant@, rt@, port, ctx) {
            Ok(p) => r is Ok && r->Ok_0@ == p,
            Err(f) => r is Err && r->Err_0@ == f,
        },
{
    let c: u32 = match ctx {
        Some(c) => c,
        None => DEFAULT_CONTEXT,
    };
    let p: u16 = match port {
        Some(p) => p,
        None => DEFAULT_SERVE_PORT,
    };
    let port_requested = port.is_some();
    if port_requested && p == 0 {
        return Err(
            PaddockError::Other(
                "port 0 is not supported; pick a fixed port so the endpoint is known upfront".to_owned(),
            ),
        );
    }
    match model.source {
        Source::Mlx => match &model.repo {
            None => Err(no_repo(model.name.as_str())),
            Some(repo) => Ok(mlx_server_plan(repo.clone(), p, mlx_install(rt.mlx.installed))),
        },
        Source::Ollama => Ok(
            ollama_server_plan(ollama_ref(model, variant), rt, port_requested, c),
        ),
        Source::HuggingFace => {
            let repo = match &model.repo {
                None => {
                    return Err(no_repo(model.name.as_str()));
                },
                Some(repo) => repo.as_str(),
            };
            match validate_gguf_quant(model, variant) {
                Ok(_) => {},
                Err(e) => {
                    return Err(e);
                },
            }
            let file = joined(repo, ":", variant.quant.as_str());
            if !has_ollama(variant) {
                return Ok(
                    llama_server_plan(file, p, c, llama_cpp_install(rt.llama_cpp.installed)),
                );
            }
            if !rt.ollama.installed && rt.llama_cpp.installed {
                return Ok(llama_server_plan(file, p, c, None));
            }
            let mut name = "hf.co/".to_owned();
            name.append(file.as_str());
            Ok(ollama_server_plan(name, rt, port_requested, c))
        },
    }
}

/// A command with another port behind its first `--port`.
pub open spec fn with_port_word(argv: Seq<Seq<char>>, port: u16) -> Seq<Seq<char>> {
    match argv.index_of_first("--port"@) {
        Some(i) => if i + 1 < argv.len() {
            argv.update(i + 1, digits(port as nat))
        } else {
            argv
        },
        None => argv,
    }
}

/// A plan on another port.
pub open spec fn on_port(p: Serve, port: u16) -> Serve {
    Serve {
        server_argv: match p.server_argv {
            Some(argv) => Some(with_port_word(argv, port)),
            None => None,
        },
        endpoint: local_url(port),
        openai_url: chat_url(local_url(port)),
        port: Some(port),
        ..p
    }
}

fn set_port_word(argv: &mut Vec<String>, port: u16)
    ensures
        final(argv).deep_view() == with_port_word(old(argv).deep_view(), port),
{
    let ghost words = argv.deep_view();
    let n: usize = argv.len();
    proof {
        words.index_of_first_ensures("--port"@);
    }
    let mut i: usize = 0;
    while i < n
        invariant
            n == argv@.len(),
            words == argv.deep_view(),
            words == old(argv).deep_view(),
            i <= n,
            forall|j: int| 0 <= j < i ==> words[j] != "--port"@,
            match words.index_of_first("--port"@) {
                Some(k) => words.contains("--port"@) && 0 <= k < words.len() && words[k]
                    == "--port"@ && forall|j: int| 0 <= j < k < words.len() ==> words[j] != "--port"@,
                None => !words.contains("--port"@),
            },
        decreases n - i,
    {
        assert(words[i as int] == argv@[i as int]@);
        if same(argv[i].as_str(), "--port") {
            assert(words.contains("--port"@));
            assert(words.index_of_first("--port"@) == Some(i as int));
            if i + 1 < n {
                argv.set(i + 1, decimal(port as u128));
                assert(argv.deep_view() =~= words.update(i + 1, digits(port as nat)));
            }
            return;
        }
        i = i + 1;
    }
    assert(!words.contains("--port"@));
}

impl ServePlan {
    /// The plan on another local port: meant for servers of our own.
    pub fn with_port(self, port: u16) -> (r: ServePlan)
        ensures
            r@ == on_port(self@, port),
    {
        let endpoint = local_endpoint(port);
        let mut openai_url = endpoint.clone();
        openai_url.append("/v1/chat/completions");
        let server_argv = match self.server_argv {
            Some(argv) => {
                let mut words = argv;
                set_port_word(&mut words, port);
                Some(words)
            },
            None => None,
        };
        ServePlan {
            server_argv,
            pre_steps: self.pre_steps,
            endpoint,
            openai_url,
            model_ref: self.model_ref,
            ready_path: self.ready_path,
            install: self.install,
            port_ignored: self.port_ignored,
            runtime: self.runtime,
            ctx: self.ctx,
            port: Some(port),
        }
    }
}

// ---------------------------------------------------------------------------
// Laws
// ---------------------------------------------------------------------------

/// Which runtime is there.
pub open spec fn is_installed(rt: Runtimes, kind: RuntimeKind) -> bool {
    match kind {
        RuntimeKind::Ollama => rt.ollama.installed,
        RuntimeKind::LlamaCpp => rt.llama_cpp.installed,
        RuntimeKind::MlxLm => rt.mlx.installed,
    }
}

/// A plan to serve proposes an install exactly if its runtime is missing, and
/// then of that runtime.
pub proof fn serve_installs_what_is_missing(
    m: Model,
    v: Variant,
    rt: Runtimes,
    port: Option<u16>,
    ctx: Option<u32>,
)
    ensures
        serve_plan(m, v, rt, port, ctx) matches Ok(p) ==> {
            &&& p.install is Some <==> !is_installed(rt, p.runtime)
            &&& p.install matches Some(i) ==> i.kind == p.runtime
        },
{
}

/// A GGUF variant that Ollama cannot run is never served by Ollama, whatever
/// is installed or running.
pub proof fn llama_cpp_only_stays_with_llama_cpp(
    m: Model,
    v: Variant,
    rt: Runtimes,
    port: Option<u16>,
    ctx: Option<u32>,
)
    requires
        m.source == Source::HuggingFace,
        !runs_with_ollama(v),
    ensures
        serve_plan(m, v, rt, port, ctx) matches Ok(p) ==> p.runtime == RuntimeKind::LlamaCpp
            && p.pre_steps.len() == 0,
        run_plan(m, v, rt, ctx) matches Ok(p) ==> p.argv[0] == "llama-cli"@,
{
}

/// A port is ignored exactly if one is asked for and Ollama serves; else the
/// plan answers on the port that was asked for, or on the default one.
pub proof fn port_is_kept_or_reported(
    m: Model,
    v: Variant,
    rt: Runtimes,
    port: Option<u16>,
    ctx: Option<u32>,
)
    ensures
        serve_plan(m, v, rt, port, ctx) matches Ok(p) ==> {
            &&& p.port_ignored <==> port is Some && p.runtime == RuntimeKind::Ollama
            &&& p.runtime != RuntimeKind::Ollama ==> p.port == Some(
                match port {
                    Some(n) => n,
                    None => DEFAULT_SERVE_PORT,
                },
            ) && p.endpoint == local_url(p.port->Some_0)
            &&& p.runtime == RuntimeKind::Ollama ==> p.port is None
        },
{
}

/// What can be run can be served on any port but zero, and the other way round.
pub proof fn run_and_serve_accept_the_same(
    m: Model,
    v: Variant,
    rt: Runtimes,
    port: Option<u16>,
    ctx: Option<u32>,
)
    requires
        port != Some(0u16),
    ensures
        run_plan(m, v, rt, ctx) is Ok <==> serve_plan(m, v, rt, port, ctx) is Ok,
        run_plan(m, v, rt, ctx) matches Err(f) ==> serve_plan(m, v, rt, port, ctx) == Err::<
            Serve,
            Failure,
        >(f),
{
}

/// A plan names the model that it is for. Of a repository that is the
/// repository and, for GGUF files, a colon and the quantization; of the library
/// the name before the colon with the variant's tag, where it has one. A command
/// to chat names the same model as the server's answers.
pub proof fn plans_name_the_model(
    m: Model,
    v: Variant,
    rt: Runtimes,
    port: Option<u16>,
    ctx: Option<u32>,
)
    ensures
        serve_plan(m, v, rt, port, ctx) matches Ok(p) ==> {
            &&& m.source == Source::Mlx ==> Some(p.model_ref) == m.repo
            &&& m.source == Source::HuggingFace ==> m.repo is Some && (m.repo->Some_0 + ":"@
                + v.quant).is_suffix_of(p.model_ref)
            &&& m.source == Source::Ollama && v.source_tag is None ==> p.model_ref == m.name
            &&& m.source == Source::Ollama && v.source_tag is Some ==> p.model_ref == base_of(m.name)
                + ":"@ + v.source_tag->Some_0
            &&& run_plan(m, v, rt, ctx) matches Ok(r) && r.argv.len() > 2
                && p.model_ref.is_suffix_of(r.argv[2])
        },
{
    if m.source == Source::HuggingFace && m.repo is Some {
        reveal_strlit("hf.co/");
        let file = m.repo->Some_0 + ":"@ + v.quant;
        let named = "hf.co/"@ + file;
        assert("hf.co/"@ + m.repo->Some_0 + ":"@ + v.quant =~= named);
        assert(named.subrange(named.len() - file.len(), named.len() as int) =~= file);
        assert(file.is_suffix_of(named));
        assert(file.is_suffix_of(file));
        assert(named.is_suffix_of(named));
    }
}

/// A server of its own is started for the model and on the port that the plan
/// says; llama.cpp gets the context that was asked for, or the default one.
/// Ollama pulls the model first, and is started where it is not running.
pub proof fn server_is_started_as_planned(
    m: Model,
    v: Variant,
    rt: Runtimes,
    port: Option<u16>,
    ctx: Option<u32>,
)
    ensures
        serve_plan(m, v, rt, port, ctx) matches Ok(p) ==> {
            &&& p.runtime != RuntimeKind::Ollama ==> p.server_argv is Some && {
                let argv = p.server_argv->Some_0;
                &&& p.pre_steps.len() == 0
                &&& argv[2] == p.model_ref
                &&& argv[3] == "--port"@ && argv[4] == digits(p.port->Some_0 as nat)
            }
            &&& p.runtime == RuntimeKind::LlamaCpp ==> p.server_argv is Some && {
                let argv = p.server_argv->Some_0;
                &&& argv[5] == "-c"@ && argv[6] == digits(p.ctx as nat)
                &&& ctx is Some ==> Some(p.ctx) == ctx
                &&& ctx is None ==> p.ctx == 8192
            }
            &&& p.runtime == RuntimeKind::Ollama ==> {
                &&& p.server_argv is Some <==> !rt.ollama.running
                &&& p.pre_steps.len() == 1 && p.pre_steps[0].last() == p.model_ref
            }
            &&& p.openai_url == p.endpoint + "/v1/chat/completions"@
        },
{
    reveal_strlit("http://127.0.0.1:11434");
    reveal_strlit("/v1/chat/completions");
    reveal_strlit("http://127.0.0.1:11434/v1/chat/completions");
    assert("http://127.0.0.1:11434"@ + "/v1/chat/completions"@
        =~= "http://127.0.0.1:11434/v1/chat/completions"@);
}

/// The program that a runtime chats with.
pub open spec fn chat_program(kind: RuntimeKind) -> Seq<char> {
    match kind {
        RuntimeKind::Ollama => "ollama"@,
        RuntimeKind::LlamaCpp => "llama-cli"@,
        RuntimeKind::MlxLm => "mlx_lm.chat"@,
    }
}

/// To run a model installs its runtime exactly if that is missing, and the
/// runtime installed is the one whose program runs.
pub proof fn run_installs_what_is_missing(m: Model, v: Variant, rt: Runtimes, ctx: Option<u32>)
    ensures
        run_plan(m, v, rt, ctx) matches Ok(p) ==> exists|kind: RuntimeKind|
            {
                &&& p.argv[0] == #[trigger] chat_program(kind)
                &&& p.install is Some <==> !is_installed(rt, kind)
                &&& p.install matches Some(i) ==> i.kind == kind
            },
{
    let kind = match m.source {
        Source::Mlx => RuntimeKind::MlxLm,
        Source::Ollama => RuntimeKind::Ollama,
        Source::HuggingFace => if runs_with_ollama(v) {
            RuntimeKind::Ollama
        } else {
            RuntimeKind::LlamaCpp
        },
    };
    if let Ok(p) = run_plan(m, v, rt, ctx) {
        assert(p.argv[0] == chat_program(kind));
    }
}

/// What is refused: a repository's model without a repository, a file whose
/// quantization GGUF runtimes do not know, and to serve on port zero. Models of
/// the library are never refused another port.
pub proof fn only_unusable_models_are_refused(
    m: Model,
    v: Variant,
    rt: Runtimes,
    port: Option<u16>,
    ctx: Option<u32>,
)
    requires
        port != Some(0u16),
    ensures
        serve_plan(m, v, rt, port, ctx) is Err <==> m.source != Source::Ollama && (m.repo is None || (
        m.source == Source::HuggingFace && (bpw_of(v.quant) is None || "MLX_"@.is_prefix_of(
            v.quant,
        )))),
        serve_plan(m, v, rt, Some(0), ctx) is Err,
{
}

/// Moving a plan to a port twice is moving it to the second port.
pub proof fn last_port_wins(p: Serve, a: u16, b: u16)
    ensures
        on_port(on_port(p, a), b) == on_port(p, b),
{
    if let Some(argv) = p.server_argv {
        let mark = "--port"@;
        let moved = with_port_word(argv, a);
        argv.index_of_first_ensures(mark);
        moved.index_of_first_ensures(mark);
        if let Some(i) = argv.index_of_first(mark) {
            if i + 1 < argv.len() {
                assert(moved[i] == mark);
                assert(moved.contains(mark));
                let k = moved.index_of_first(mark)->Some_0;
                if k < i {
                    assert(argv[k] != mark);
                }
                assert(k == i);
                assert(moved.update(i + 1, digits(b as nat)) =~= argv.update(
                    i + 1,
                    digits(b as nat),
                ));
            }
        }
    }
}

/// Planning for a port is planning for the default one and moving the plan,
/// for servers of our own.
pub proof fn planned_port_is_moved_port(
    m: Model,
    v: Variant,
    rt: Runtimes,
    port: u16,
    ctx: Option<u32>,
)
    requires
        port != 0,
        serve_plan(m, v, rt, None, ctx) is Ok,
        serve_plan(m, v, rt, None, ctx)->Ok_0.runtime != RuntimeKind::Ollama,
        m.repo != Some("--port"@),
    ensures
        serve_plan(m, v, rt, Some(port), ctx) == Ok::<Serve, Failure>(
            on_port(serve_plan(m, v, rt, None, ctx)->Ok_0, port),
        ),
{
    let p = serve_plan(m, v, rt, None, ctx)->Ok_0;
    let argv = p.server_argv->Some_0;
    let mark = "--port"@;
    reveal_strlit("--port");
    reveal_strlit("mlx_lm.server");
    reveal_strlit("--model");
    reveal_strlit("llama-server");
    reveal_strlit("-hf");
    argv.index_of_first_ensures(mark);
    assert(argv[3] == mark);
    assert(argv.contains(mark));
    assert(argv[0] != mark) by {
        assert(argv[0][0] != mark[0]);
    }
    assert(argv[1] != mark) by {
        assert(argv[1][2] != mark[2] || argv[1].len() != mark.len());
    }
    assert(argv[2] != mark) by {
        if m.source == Source::HuggingFace {
            let repo = m.repo->Some_0;
            let file = repo + ":"@ + v.quant;
            reveal_strlit(":");
            assert(file[repo.len() as int] == ':');
            assert(file.contains(':'));
            assert(!mark.contains(':'));
        }
    }
    assert(argv.index_of_first(mark) == Some(3int));
    let q = serve_plan(m, v, rt, Some(port), ctx)->Ok_0;
    assert(q.server_argv->Some_0 =~= argv.update(4, digits(port as nat)));
}

/// The port that a server of our own is to have; `None` for the daemon, whose
/// port is fixed.
pub open spec fn own_port(p: Serve) -> Option<u16> {
    if p.server_argv is Some {
        p.port
    } else {
        None
    }
}

/// What a plan comes to, given the first free port from its own on: it moves
/// there if its own is taken.
pub open spec fn on_free_port_of(p: Serve, free: Option<u16>) -> Serve {
    match (own_port(p), free) {
        (Some(w), Some(f)) => if f != w {
            on_port(p, f)
        } else {
            p
        },
        _ => p,
    }
}

/// A server of its own answers on the port that was found free; one that needs
/// no port, or for which none was found, is left as planned.
pub proof fn server_answers_on_the_free_port(p: Serve, free: Option<u16>)
    ensures
        own_port(p) is None || free is None ==> on_free_port_of(p, free) == p,
        own_port(p) is Some && free is Some ==> on_free_port_of(p, free).port == free,
        own_port(p) is Some && free is Some && free != p.port ==> on_free_port_of(p, free).endpoint
            == local_url(free->Some_0) && on_free_port_of(p, free).openai_url == local_url(
            free->Some_0,
        ) + "/v1/chat/completions"@,
        on_free_port_of(p, free).model_ref == p.model_ref,
        on_free_port_of(p, free).pre_steps == p.pre_steps,
        on_free_port_of(p, free).runtime == p.runtime,
        on_free_port_of(p, free).ctx == p.ctx,
        p.server_argv is None ==> own_port(p) is None,
{
}

impl ServePlan {
    /// The port that a server of our own is to have.
    pub fn wanted_port(&self) -> (r: Option<u16>)
        ensures
            r == own_port(self@),
    {
        match &self.server_argv {
            Some(_) => self.port,
            None => None,
        }
    }

    /// Moves to the first free port if its own is taken, and tells where.
    pub fn on_free_port(self, free: Option<u16>) -> (r: (ServePlan, Option<String>))
        ensures
            r.0@ == on_free_port_of(self@, free),
            r.1.deep_view() == match (own_port(self@), free) {
                (Some(w), Some(f)) => if f != w {
                    Some(
                        "port "@ + digits(w as nat) + " is taken — serving on "@ + digits(
                            f as nat,
                        ),
                    )
                } else {
                    None
                },
                _ => None,
            },
    {
        match (self.wanted_port(), free) {
            (Some(w), Some(f)) => {
                if f != w {
                    let mut s = "port ".to_owned();
                    s.append(decimal(w as u128).as_str());
                    s.append(" is taken — serving on ");
                    s.append(decimal(f as u128).as_str());
                    (self.with_port(f), Some(s))
                } else {
                    (self, None)
                }
            },
            _ => (self, None),
        }
    }
}

} // verus!
