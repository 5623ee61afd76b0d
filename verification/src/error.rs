//! The error type of every operation.

use crate::portable::ImportReport;
use vstd::prelude::*;
use vstd::string::StringExecFns;

verus! {

/// Why an operation failed. More variants may come, so a `match` from outside
/// needs a wildcard arm.
#[derive(Debug)]
#[non_exhaustive]
pub enum AxilError {
    /// The storage layer failed; holds its message.
    Storage(String),
    /// A record was not found.
    NotFound(String),
    /// The query is not valid.
    InvalidQuery(String),
    /// Writing or reading a value in its serialised form failed; holds the message.
    Serialization(String),
    /// An engine or extension failed; holds its message.
    Plugin(String),
    /// Another process holds the database open for writing.
    Busy,
    /// An import stopped after it had already written something.
    ImportInterrupted {
        /// What was written before the failure.
        report: ImportReport,
        /// The message of the failure.
        source: String,
    },
}

impl AxilError {
    /// A plugin error with the given message.
    pub fn plugin(msg: &str) -> (r: AxilError)
        ensures
            r is Plugin,
            r->Plugin_0@ == msg@,
    {
        AxilError::Plugin(msg.to_owned())
    }

    /// Whether another process holds the database open for writing.
    pub fn is_busy(&self) -> (r: bool)
        ensures
            r == (self is Busy),
    {
        match self {
            AxilError::Busy => true,
            _ => false,
        }
    }

    /// The text that describes the error.
    pub open spec fn describe(self) -> Seq<char> {
        match self {
            AxilError::Storage(m) => "storage error: "@ + m@,
            AxilError::NotFound(m) => "not found: "@ + m@,
            AxilError::InvalidQuery(m) => "invalid query: "@ + m@,
            AxilError::Serialization(m) => "serialization error: "@ + m@,
            AxilError::Plugin(m) => "plugin error: "@ + m@,
            AxilError::Busy => "database busy: already opened for writing by another process"@,
            AxilError::ImportInterrupted { source, .. } =>
                "import interrupted after partial write: "@ + source@,
        }
    }

    /// The text that describes the error.
    pub fn message(&self) -> (r: String)
        ensures
            r@ == self.describe(),
    {
        let mut s = String::new();
        match self {
            AxilError::Storage(m) => {
                s.append("storage error: ");
                s.append(m.as_str());
                assert(s@ =~= "storage error: "@ + m@);
            },
            AxilError::NotFound(m) => {
                s.append("not found: ");
                s.append(m.as_str());
                assert(s@ =~= "not found: "@ + m@);
            },
            AxilError::InvalidQuery(m) => {
                s.append("invalid query: ");
                s.append(m.as_str());
                assert(s@ =~= "invalid query: "@ + m@);
            },
            AxilError::Serialization(m) => {
                s.append("serialization error: ");
                s.append(m.as_str());
                assert(s@ =~= "serialization error: "@ + m@);
            },
            AxilError::Plugin(m) => {
                s.append("plugin error: ");
                s.append(m.as_str());
                assert(s@ =~= "plugin error: "@ + m@);
            },
            AxilError::Busy => {
                s.append("database busy: already opened for writing by another process");
                assert(s@
                    =~= "database busy: already opened for writing by another process"@);
            },
            AxilError::ImportInterrupted { source, .. } => {
                s.append("import interrupted after partial write: ");
                s.append(source.as_str());
                assert(s@ =~= "import interrupted after partial write: "@ + source@);
            },
        }
        s
    }
}

/// The result of an operation.
pub type Result<T> = core::result::Result<T, AxilError>;

/// The text of an error ends with what it holds, behind what it is; only an error that says
/// that the database is busy is such a one.
pub proof fn errors_end_with_their_message(e: &AxilError, m: String, busy: bool)
    requires
        call_ensures(AxilError::message, (e,), m),
        call_ensures(AxilError::is_busy, (e,), busy),
    ensures
        *e matches AxilError::Storage(x) ==> m@ == "storage error: "@ + x@ && !busy,
        *e matches AxilError::NotFound(x) ==> m@ == "not found: "@ + x@ && !busy,
        *e matches AxilError::InvalidQuery(x) ==> m@ == "invalid query: "@ + x@ && !busy,
        *e matches AxilError::Serialization(x) ==> m@ == "serialization error: "@ + x@ && !busy,
        *e matches AxilError::Plugin(x) ==> m@ == "plugin error: "@ + x@ && !busy,
        *e is Busy ==> busy,
{
}

} // verus!
