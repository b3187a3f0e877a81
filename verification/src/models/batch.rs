//! Records of a batch lookup.
use vstd::prelude::*;
use crate::models::query::{MatchResult, QueryResult, ValidityResult};

verus! {

/// One line of a batch file: a code and the name written beside it.
#[derive(Debug, Clone, PartialEq, Eq)]
pub struct BatchInput {
    pub code: String,
    pub name: String,
}

/// One row of the batch result sheet.
#[derive(Debug, Clone, PartialEq, Eq)]
pub struct BatchRow {
    pub code: String,
    pub name: String,
    pub validity: String,
    pub cnas: String,
    pub cma_file: String,
    pub cma_api: String,
}

/// The four answers for one code of a batch.
#[derive(Debug, Clone, PartialEq, Eq)]
pub struct BatchItemResult {
    pub code: String,
    pub validity: ValidityResult,
    pub cnas: MatchResult,
    pub cma_file: MatchResult,
    pub cma_api: QueryResult,
}

/// Whether a running batch is paused.
#[derive(Debug, Clone, Copy, PartialEq, Eq)]
pub struct BatchControl {
    pub paused: bool,
}

impl Default for BatchControl {
    fn default() -> (r: Self)
        ensures
            !r.paused,
    {
        BatchControl { paused: false }
    }
}

impl BatchInput {
    pub fn duplicate(&self) -> (r: Self)
        ensures
            r == *self,
    {
        BatchInput { code: self.code.clone(), name: self.name.clone() }
    }
}

} // verus!
