//! Errors of the namespace materializer.
use vstd::prelude::*;
use vstd::string::StringExecFns;

verus! {

/// Why a build or a relocation step was refused.
#[derive(Debug, Clone, PartialEq, Eq)]
pub enum Error {
    /// The output directory is present and overwriting it was not asked for.
    DestinationExists { path: String },
    /// A merge was asked for with the same path as source and destination.
    SelfMerge { path: String },
    /// A file name does not split into non-empty dot-delimited segments.
    MalformedName { name: String },
}

/// The one-line description of an error.
pub open spec fn message_of(e: Error) -> Seq<char> {
    match e {
        Error::DestinationExists { path } => "the output directory already exists: "@ + path@,
        Error::SelfMerge { path } => "merging files, source and destination files are the same: "@
            + path@,
        Error::MalformedName { name } => "not a dot-delimited namespace file name: "@ + name@,
    }
}

impl Error {
    /// A one-line description of the error.
    pub fn message(&self) -> (r: String)
        ensures
            r@ == message_of(*self),
    {
        match self {
            Error::DestinationExists { path } => {
                let mut m = String::from_str("the output directory already exists: ");
                m.append(path.as_str());
                m
            },
            Error::SelfMerge { path } => {
                let mut m = String::from_str(
                    "merging files, source and destination files are the same: ",
                );
                m.append(path.as_str());
                m
            },
            Error::MalformedName { name } => {
                let mut m = String::from_str("not a dot-delimited namespace file name: ");
                m.append(name.as_str());
                m
            },
        }
    }
}

} // verus!
