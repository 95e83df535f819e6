//! What can go wrong, and how it is told.

use vstd::prelude::*;

verus! {

/// Every failure of the library. The messages say what to do about it.
#[derive(Debug)]
pub enum PaddockError {
    /// A system value could not be read.
    Sysctl { name: String, reason: String },
    /// The catalog database failed.
    Db(String),
    Network(String),
    /// A model file's header is malformed.
    Gguf(String),
    ModelNotFound(String),
    Other(String),
}

/// A failure without its storage.
pub ghost enum Failure {
    Sysctl(Seq<char>, Seq<char>),
    Db(Seq<char>),
    Network(Seq<char>),
    Gguf(Seq<char>),
    ModelNotFound(Seq<char>),
    Other(Seq<char>),
}

impl View for PaddockError {
    type V = Failure;

    open spec fn view(&self) -> Failure {
        match *self {
            PaddockError::Sysctl { name, reason } => Failure::Sysctl(name@, reason@),
            PaddockError::Db(m) => Failure::Db(m@),
            PaddockError::Network(m) => Failure::Network(m@),
            PaddockError::Gguf(m) => Failure::Gguf(m@),
            PaddockError::ModelNotFound(m) => Failure::ModelNotFound(m@),
            PaddockError::Other(m) => Failure::Other(m@),
        }
    }
}

/// The message of a failure.
pub open spec fn failure_text(f: Failure) -> Seq<char> {
    match f {
        Failure::Sysctl(name, reason) => "sysctl `"@ + name + "` unavailable ("@ + reason
            + "); is this a macOS machine?"@,
        Failure::Db(m) => "catalog database error: "@ + m
            + ". Try deleting the catalog and re-running `paddock sync`."@,
        Failure::Network(m) => "network error: "@ + m
            + ". Check your connection and retry `paddock sync`."@,
        Failure::Gguf(m) => "malformed GGUF header: "@ + m,
        Failure::ModelNotFound(m) => "model `"@ + m
            + "` not found in catalog. Run `paddock sync` or check `paddock fit` for names."@,
        Failure::Other(m) => m,
    }
}

impl PaddockError {
    /// The message shown to the user.
    pub fn message(&self) -> (r: String)
        ensures
            r@ == failure_text(self@),
    {
        match self {
            PaddockError::Sysctl { name, reason } => {
                let mut s = "sysctl `".to_owned();
                s.append(name);
                s.append("` unavailable (");
                s.append(reason);
                s.append("); is this a macOS machine?");
                s
            },
            PaddockError::Db(m) => {
                let mut s = "catalog database error: ".to_owned();
                s.append(m);
                s.append(". Try deleting the catalog and re-running `paddock sync`.");
                s
            },
            PaddockError::Network(m) => {
                let mut s = "network error: ".to_owned();
                s.append(m);
                s.append(". Check your connection and retry `paddock sync`.");
                s
            },
            PaddockError::Gguf(m) => {
                let mut s = "malformed GGUF header: ".to_owned();
                s.append(m);
                s
            },
            PaddockError::ModelNotFound(m) => {
                let mut s = "model `".to_owned();
                s.append(m);
                s.append(
                    "` not found in catalog. Run `paddock sync` or check `paddock fit` for names.",
                );
                s
            },
            PaddockError::Other(m) => m.clone(),
        }
    }
}

} // verus!
