use vstd::prelude::*;
use vstd::string::StringExecFns;

verus! {

/// Which operations a path was refused for: reads accept `type` as well.
#[derive(Clone, Copy, Debug, PartialEq, Eq, Structural)]
pub enum Access {
    Read,
    Write,
}

/// The kind of value that a field needs.
#[derive(Clone, Copy, Debug, PartialEq, Eq, Structural)]
pub enum ValueKind {
    Bytes,
    Timestamp,
    Object,
    MetricKind,
}

/// Why a get, insert or remove on a target failed.
#[derive(Clone, Debug, PartialEq)]
pub enum TargetError {
    /// A metric has no root that could be set or removed.
    MetricRoot,
    /// The path is not one the operation accepts; `path` is how it is written.
    InvalidPath { path: String, accepted: Access },
    /// The value does not have the kind that the field needs.
    WrongKind { expected: ValueKind },
    /// Only a map can become the whole of a log record.
    RootNotMap,
}

pub open spec fn accepted_text(a: Access) -> Seq<char> {
    match a {
        Access::Read => ".name, .namespace, .timestamp, .kind, .tags, .type"@,
        Access::Write => ".name, .namespace, .timestamp, .kind, .tags"@,
    }
}

pub open spec fn kind_text(k: ValueKind) -> Seq<char> {
    match k {
        ValueKind::Bytes => "bytes"@,
        ValueKind::Timestamp => "timestamp"@,
        ValueKind::Object => "object"@,
        ValueKind::MetricKind => "\"absolute\" or \"incremental\""@,
    }
}

/// The message of an error, with the path written as `path_prefix` followed
/// by its text.
pub open spec fn error_text(e: TargetError, path_prefix: Seq<char>) -> Seq<char> {
    match e {
        TargetError::MetricRoot => "cannot set root path"@,
        TargetError::InvalidPath { path, accepted } => "invalid path "@ + path_prefix + path@
            + ": expected one of "@ + accepted_text(accepted),
        TargetError::WrongKind { expected } => "expected "@ + kind_text(expected),
        TargetError::RootNotMap => "Cannot insert as root of Event unless it is a map."@,
    }
}

impl Access {
    pub fn accepted(&self) -> (r: &'static str)
        ensures
            r@ == accepted_text(*self),
    {
        match self {
            Access::Read => ".name, .namespace, .timestamp, .kind, .tags, .type",
            Access::Write => ".name, .namespace, .timestamp, .kind, .tags",
        }
    }
}

impl ValueKind {
    pub fn describe(&self) -> (r: &'static str)
        ensures
            r@ == kind_text(*self),
    {
        match self {
            ValueKind::Bytes => "bytes",
            ValueKind::Timestamp => "timestamp",
            ValueKind::Object => "object",
            ValueKind::MetricKind => "\"absolute\" or \"incremental\"",
        }
    }
}

impl TargetError {
    fn text_with(&self, path_prefix: &str) -> (r: String)
        ensures
            r@ == error_text(*self, path_prefix@),
    {
        match self {
            TargetError::MetricRoot => String::from_str("cannot set root path"),
            TargetError::InvalidPath { path, accepted } => {
                let mut out = String::from_str("invalid path ");
                out.append(path_prefix);
                out.append(path.as_str());
                out.append(": expected one of ");
                out.append(accepted.accepted());
                out
            },
            TargetError::WrongKind { expected } => {
                let mut out = String::from_str("expected ");
                out.append(expected.describe());
                out
            },
            TargetError::RootNotMap => String::from_str(
                "Cannot insert as root of Event unless it is a map.",
            ),
        }
    }

    /// The error as a sentence, with a path written as it is stored.
    pub fn message(&self) -> (r: String)
        ensures
            r@ == error_text(*self, Seq::empty()),
    {
        proof {
            reveal_strlit("");
        }
        self.text_with("")
    }

    /// The error as a sentence, with a path written as a program writes it,
    /// after a leading dot.
    pub fn program_message(&self) -> (r: String)
        ensures
            r@ == error_text(*self, seq!['.']),
    {
        proof {
            reveal_strlit(".");
        }
        self.text_with(".")
    }
}

} // verus!
