//! Typed errors of the microgram load, resolve and chain pipeline.
use vstd::prelude::*;
use crate::debug::{nat_decimal, usize_to_decimal};
use crate::microgram::join5;
use crate::text::{concat, seq_starts_with};

verus! {

#[verifier::external_type_specification]
#[verifier::external_body]
pub struct ExIoError(std::io::Error);

#[verifier::external_type_specification]
#[verifier::external_body]
pub struct ExYamlError(serde_yaml::Error);

/// The `Display` text of an I/O error. It comes from the operating system and
/// is left unsaid.
#[verifier::external_body]
fn io_error_text(e: &std::io::Error) -> String {
    e.to_string()
}

/// The `Display` text of a YAML error: what went wrong and where. Left unsaid.
#[verifier::external_body]
fn yaml_error_text(e: &serde_yaml::Error) -> String {
    e.to_string()
}

/// Errors surfaced by the microgram load/resolve/chain pipeline.
#[derive(Debug)]
pub enum MicrogramError {
    /// A directory could not be scanned.
    ReadDir { path: String, source: std::io::Error },
    /// One or more YAML files failed to parse.
    ParseFailures { count: usize, details: String },
    /// A chain named a microgram that is not in the index.
    UnknownName { name: String, dir: String },
    /// An I/O error at some other step.
    Io(std::io::Error),
    /// A YAML parse or serialisation error.
    Yaml(serde_yaml::Error),
    /// Any other failure, described by its text.
    Other(String),
}

/// The text of an error whose parts are all plain values; `None` for the
/// variants that carry an outside error.
pub open spec fn plain_error_text(e: MicrogramError) -> Option<Seq<char>> {
    match e {
        MicrogramError::ParseFailures { count, details } => Some(
            nat_decimal(count as nat) + " microgram file(s) failed to parse:\n"@ + details@,
        ),
        MicrogramError::UnknownName { name, dir } => Some("microgram '"@ + name@ + "' not found in "@ + dir@),
        MicrogramError::Other(s) => Some(s@),
        _ => None,
    }
}

impl MicrogramError {
    /// The text of this error, as it is displayed. For an error that carries
    /// an I/O or YAML error, that error's own text follows the fixed prefix.
    pub fn message(&self) -> (r: String)
        ensures
            plain_error_text(*self) matches Some(t) ==> r@ == t,
            self is ReadDir ==> seq_starts_with(r@, "cannot read microgram directory "@ + self->path@ + ": "@),
            self is Io ==> seq_starts_with(r@, "io error: "@),
            self is Yaml ==> seq_starts_with(r@, "yaml error: "@),
    {
        match self {
            MicrogramError::ReadDir { path, source } => {
                let src = io_error_text(source);
                let r = join5("cannot read microgram directory ", path.as_str(), ": ", src.as_str(), "");
                proof {
                    reveal_strlit("");
                    assert(r@.subrange(0, ("cannot read microgram directory "@ + path@ + ": "@).len() as int)
                        =~= "cannot read microgram directory "@ + path@ + ": "@);
                }
                r
            },
            MicrogramError::ParseFailures { count, details } => {
                let n = usize_to_decimal(*count);
                let r = join5(n.as_str(), " microgram file(s) failed to parse:\n", details.as_str(), "", "");
                proof {
                    reveal_strlit("");
                }
                r
            },
            MicrogramError::UnknownName { name, dir } => {
                let r = join5("microgram '", name.as_str(), "' not found in ", dir.as_str(), "");
                proof {
                    reveal_strlit("");
                }
                r
            },
            MicrogramError::Io(e) => {
                let t = io_error_text(e);
                let r = concat("io error: ", t.as_str());
                proof {
                    assert(r@.subrange(0, "io error: "@.len() as int) =~= "io error: "@);
                }
                r
            },
            MicrogramError::Yaml(e) => {
                let t = yaml_error_text(e);
                let r = concat("yaml error: ", t.as_str());
                proof {
                    assert(r@.subrange(0, "yaml error: "@.len() as int) =~= "yaml error: "@);
                }
                r
            },
            MicrogramError::Other(s) => s.clone(),
        }
    }
}

impl From<String> for MicrogramError {
    fn from(s: String) -> (r: Self) {
        MicrogramError::Other(s)
    }
}

impl vstd::std_specs::convert::FromSpecImpl<String> for MicrogramError {
    open spec fn obeys_from_spec() -> bool {
        true
    }

    open spec fn from_spec(s: String) -> Self {
        MicrogramError::Other(s)
    }
}

impl From<std::io::Error> for MicrogramError {
    fn from(e: std::io::Error) -> (r: Self) {
        MicrogramError::Io(e)
    }
}

impl vstd::std_specs::convert::FromSpecImpl<std::io::Error> for MicrogramError {
    open spec fn obeys_from_spec() -> bool {
        true
    }

    open spec fn from_spec(e: std::io::Error) -> Self {
        MicrogramError::Io(e)
    }
}

impl From<serde_yaml::Error> for MicrogramError {
    fn from(e: serde_yaml::Error) -> (r: Self) {
        MicrogramError::Yaml(e)
    }
}

impl vstd::std_specs::convert::FromSpecImpl<serde_yaml::Error> for MicrogramError {
    open spec fn obeys_from_spec() -> bool {
        true
    }

    open spec fn from_spec(e: serde_yaml::Error) -> Self {
        MicrogramError::Yaml(e)
    }
}

/// Result of the microgram pipeline.
pub type MicrogramResultT<T> = Result<T, MicrogramError>;

} // verus!
