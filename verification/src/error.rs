//! Errors raised during resolution and endpoint invocation.

use vstd::prelude::*;

use crate::iri::Iri;
use crate::text::concat_str;

verus! {

/// Errors raised during resolution and endpoint invocation.
#[derive(Debug, Clone)]
pub enum Error {
    /// No endpoint resolved for the target.
    Unresolved(Iri),
    /// A required argument was absent.
    MissingArgument(String),
    /// An argument was present but unusable.
    InvalidArgument {
        /// The argument name.
        name: String,
        /// What was wrong with it.
        detail: String,
    },
    /// An endpoint failed while producing its representation.
    Endpoint(String),
    /// The capability did not authorize the operation — a permanent denial.
    Denied(String),
    /// The named resource is absent — a permanent not-found.
    NotFound(String),
    /// The operation exceeded its time budget — transient.
    Timeout(String),
    /// A dependency or transport is unavailable — transient.
    Unavailable(String),
}

/// How an error reads.
pub open spec fn error_text(e: Error) -> Seq<char> {
    match e {
        Error::Unresolved(iri) => "no endpoint resolved for "@ + iri@,
        Error::MissingArgument(name) => "missing required argument `"@ + name@ + "`"@,
        Error::InvalidArgument { name, detail } => "invalid argument `"@ + name@ + "`: "@ + detail@,
        Error::Endpoint(msg) => "endpoint error: "@ + msg@,
        Error::Denied(msg) => "denied: "@ + msg@,
        Error::NotFound(msg) => "not found: "@ + msg@,
        Error::Timeout(msg) => "timeout: "@ + msg@,
        Error::Unavailable(msg) => "unavailable: "@ + msg@,
    }
}

impl Error {
    /// How this error reads.
    pub fn to_string(&self) -> (r: String)
        ensures
            r@ == error_text(*self),
    {
        match self {
            Error::Unresolved(iri) => concat_str("no endpoint resolved for ", iri.as_str()),
            Error::MissingArgument(name) => {
                let a = concat_str("missing required argument `", name.as_str());
                concat_str(a.as_str(), "`")
            },
            Error::InvalidArgument { name, detail } => {
                let a = concat_str("invalid argument `", name.as_str());
                let b = concat_str(a.as_str(), "`: ");
                concat_str(b.as_str(), detail.as_str())
            },
            Error::Endpoint(msg) => concat_str("endpoint error: ", msg.as_str()),
            Error::Denied(msg) => concat_str("denied: ", msg.as_str()),
            Error::NotFound(msg) => concat_str("not found: ", msg.as_str()),
            Error::Timeout(msg) => concat_str("timeout: ", msg.as_str()),
            Error::Unavailable(msg) => concat_str("unavailable: ", msg.as_str()),
        }
    }

    /// Whether re-issuing might succeed: `true` exactly for the transient
    /// failures (timeout, unavailable).
    pub fn is_transient(&self) -> (r: bool)
        ensures
            r == (self is Timeout || self is Unavailable),
    {
        match self {
            Error::Timeout(_) | Error::Unavailable(_) => true,
            _ => false,
        }
    }
}

} // verus!
