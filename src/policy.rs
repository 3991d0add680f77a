use vstd::prelude::*;
use crate::ledger::{OutputRef, TxOutput};

verus! {

/// What to do when a reference does not resolve.
#[derive(PartialEq, Eq, Structural, Clone, Copy, Debug)]
pub enum ErrorAction {
    /// Fail the reduction.
    Strict,
    /// Pass over the reference.
    Skip,
    /// Pass over the reference; the caller may report it.
    Warn,
}

/// Failure tolerance of a reducer.
#[derive(PartialEq, Eq, Structural, Clone, Copy, Debug)]
pub struct RuntimePolicy {
    pub missing_data: ErrorAction,
}

/// Why a reduction failed.
#[derive(Debug)]
pub enum ReduceError {
    /// A consumed reference that the context does not hold, under a strict policy.
    MissingUtxo(OutputRef),
    /// An address whose bytes do not decode.
    MalformedAddress,
}

impl RuntimePolicy {
    pub open spec fn tolerates_missing(&self) -> bool {
        !(self.missing_data is Strict)
    }

    /// The outcome of looking up `r`: the output found, nothing where a
    /// missing output is tolerated, or the error.
    pub fn apply_to_lookup(&self, r: &OutputRef, found: Option<TxOutput>) -> (res: Result<
        Option<TxOutput>,
        ReduceError,
    >)
        ensures
            res == (match found {
                Some(o) => Ok(Some(o)),
                None => if self.tolerates_missing() {
                    Ok(None)
                } else {
                    Err(ReduceError::MissingUtxo(*r))
                },
            }),
    {
        match found {
            Some(o) => Ok(Some(o)),
            None => match self.missing_data {
                ErrorAction::Strict => Err(ReduceError::MissingUtxo(r.duplicate())),
                _ => Ok(None),
            },
        }
    }
}

} // verus!
