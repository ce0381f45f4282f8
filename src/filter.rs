use vstd::prelude::*;

use crate::error::Error;
use crate::value::{Json, Value};

verus! {

/// A transformation that consumes a document and produces a result.
pub trait Filter {
    type Output;

    /// Whether `r` is a result this filter gives for a document whose model is `json`.
    spec fn filtered(&self, json: Json, r: Result<Self::Output, Error>) -> bool;

    /// Runs the filter on `json`.
    fn filter(&self, json: Value) -> (r: Result<Self::Output, Error>)
        ensures
            self.filtered(json@, r),
    ;
}

/// Runs the filter `f` on `json`; the same as calling the filter directly.
pub fn filter<F: Filter>(json: Value, f: &F) -> (r: Result<F::Output, Error>)
    ensures
        f.filtered(json@, r),
{
    f.filter(json)
}

} // verus!
