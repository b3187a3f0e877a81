//! Results of a lookup.
use vstd::prelude::*;

verus! {

/// How well a source matched the code that was asked for.
#[derive(Debug, Clone, Copy, PartialEq, Eq, Structural)]
pub enum QueryStatus {
    Exact,
    Partial,
    Nomatch,
    Error,
}

/// The answer of one source: a status and a text for the user.
#[derive(Debug, Clone, PartialEq, Eq)]
pub struct MatchResult {
    pub status: QueryStatus,
    pub message: String,
}

impl MatchResult {
    /// A result with the given status and message.
    pub fn with_status(status: QueryStatus, message: &str) -> (r: Self)
        ensures
            r.status == status,
            r.message@ == message@,
    {
        MatchResult { status, message: String::from_str(message) }
    }

    /// An exact match.
    pub fn exact(message: &str) -> (r: Self)
        ensures
            r.status == QueryStatus::Exact,
            r.message@ == message@,
    {
        Self::with_status(QueryStatus::Exact, message)
    }

    /// A partial match.
    pub fn partial(message: &str) -> (r: Self)
        ensures
            r.status == QueryStatus::Partial,
            r.message@ == message@,
    {
        Self::with_status(QueryStatus::Partial, message)
    }

    /// No match.
    pub fn nomatch(message: &str) -> (r: Self)
        ensures
            r.status == QueryStatus::Nomatch,
            r.message@ == message@,
    {
        Self::with_status(QueryStatus::Nomatch, message)
    }

    /// The lookup failed.
    pub fn error(message: &str) -> (r: Self)
        ensures
            r.status == QueryStatus::Error,
            r.message@ == message@,
    {
        Self::with_status(QueryStatus::Error, message)
    }

    /// A copy of this result.
    pub fn duplicate(&self) -> (r: Self)
        ensures
            r == *self,
    {
        MatchResult { status: self.status, message: self.message.clone() }
    }
}

/// The answer of the CMA capability library has the same shape.
pub type QueryResult = MatchResult;

/// One line of the validity answer, with the colour it is shown in.
#[derive(Debug, Clone, PartialEq, Eq)]
pub struct ValidityLine {
    pub text: String,
    pub color: String,
}

/// The validity answer of the national standards platform.
#[derive(Debug, Clone, PartialEq, Eq)]
pub struct ValidityResult {
    pub found: bool,
    pub lines: Vec<ValidityLine>,
}

impl ValidityLine {
    pub fn new(text: &str, color: &str) -> (r: Self)
        ensures
            r.text@ == text@,
            r.color@ == color@,
    {
        ValidityLine { text: String::from_str(text), color: String::from_str(color) }
    }

    pub fn duplicate(&self) -> (r: Self)
        ensures
            r == *self,
    {
        ValidityLine { text: self.text.clone(), color: self.color.clone() }
    }
}

} // verus!
