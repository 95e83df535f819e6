//! What the command line asks for.

use vstd::prelude::*;

use crate::catalog::sync::SyncOptions;
use crate::score::{weights_for, UseCase};

verus! {

/// The command line.
#[derive(Debug)]
pub struct Cli {
    /// Write JSON.
    pub json: bool,
    /// Write plain tables in place of the interface.
    pub cli: bool,
    pub command: Option<Command>,
}

#[derive(Debug)]
pub enum Command {
    /// Show the hardware profile.
    Scan,
    /// List models that fit this machine.
    Fit { all: bool, use_case: UseCaseArg, limit: usize },
    /// The best five models, each with its reasons.
    Recommend { use_case: UseCaseArg },
    /// Launch a model.
    Run { model: String, ctx: Option<u32>, quant: Option<String> },
    /// Serve a model over HTTP.
    Serve {
        model: String,
        port: Option<u16>,
        ctx: Option<u32>,
        foreground: bool,
        quant: Option<String>,
    },
    /// List running servers.
    Ps,
    /// Stop running servers.
    Stop { target: String, yes: bool },
    /// Show the log of a server.
    Logs { target: String, follow: bool },
    /// Refresh the catalog.
    Sync {
        hf_limit: usize,
        mlx_limit: usize,
        no_ollama_registry: bool,
        discover_limit: usize,
        no_discover: bool,
    },
    /// Show the menu bar item.
    Tray,
}

#[derive(Debug, Clone, Copy, PartialEq, Eq, Structural)]
pub enum UseCaseArg {
    General,
    Coding,
    Chat,
    Reasoning,
}

pub open spec fn use_case_of(v: UseCaseArg) -> UseCase {
    match v {
        UseCaseArg::General => UseCase::General,
        UseCaseArg::Coding => UseCase::Coding,
        UseCaseArg::Chat => UseCase::Chat,
        UseCaseArg::Reasoning => UseCase::Reasoning,
    }
}

/// A use case that was asked for is the one that is weighed: one for chat weighs
/// speed most, one for reasoning quality most, one for coding both alike and most,
/// and one for nothing in particular weighs all alike.
pub proof fn asked_use_case_is_weighed(v: UseCaseArg)
    ensures
        ({
            let w = weights_for(use_case_of(v));
            match v {
                UseCaseArg::Chat => w.speed > w.quality && w.speed > w.fit && w.speed > w.context,
                UseCaseArg::Reasoning => w.quality > w.speed && w.quality > w.fit && w.quality
                    > w.context,
                UseCaseArg::Coding => w.speed == w.quality && w.speed > w.fit && w.speed
                    > w.context,
                UseCaseArg::General => w.speed == w.quality && w.speed == w.fit && w.speed
                    == w.context,
            }
        }),
{
}

impl vstd::std_specs::convert::FromSpecImpl<UseCaseArg> for UseCase {
    open spec fn obeys_from_spec() -> bool {
        true
    }

    open spec fn from_spec(v: UseCaseArg) -> UseCase {
        use_case_of(v)
    }
}

impl From<UseCaseArg> for UseCase {
    fn from(v: UseCaseArg) -> (r: UseCase) {
        match v {
            UseCaseArg::General => UseCase::General,
            UseCaseArg::Coding => UseCase::Coding,
            UseCaseArg::Chat => UseCase::Chat,
            UseCaseArg::Reasoning => UseCase::Reasoning,
        }
    }
}

/// The options of a sync by its flags.
pub fn sync_options(
    hf_limit: usize,
    mlx_limit: usize,
    no_ollama_registry: bool,
    discover_limit: usize,
    no_discover: bool,
) -> (r: SyncOptions)
    ensures
        r.hf_limit == hf_limit,
        r.mlx_limit == mlx_limit,
        r.ollama_registry == !no_ollama_registry,
        r.discover_limit == if no_discover {
            None
        } else {
            Some(discover_limit)
        },
{
    SyncOptions {
        hf_limit,
        mlx_limit,
        ollama_registry: !no_ollama_registry,
        discover_limit: if no_discover {
            None
        } else {
            Some(discover_limit)
        },
    }
}

impl Cli {
    /// The command to carry out; `None` opens the interface. Without a
    /// command, a request for JSON or tables lists the models that fit.
    pub fn chosen(self) -> (r: Option<Command>)
        ensures
            r == match self.command {
                Some(c) => Some(c),
                None => if self.cli || self.json {
                    Some(Command::Fit { all: false, use_case: UseCaseArg::General, limit: 20 })
                } else {
                    None
                },
            },
    {
        match self.command {
            Some(c) => Some(c),
            None => {
                if self.cli || self.json {
                    Some(Command::Fit { all: false, use_case: UseCaseArg::General, limit: 20 })
                } else {
                    None
                }
            },
        }
    }
}

} // verus!
