//! What the spend store answers when asked for the spend at an address.

use vstd::prelude::*;
use crate::transaction::{SignedSpend, SpendView};

verus! {

/// Why the store gave no spend.
#[derive(Clone, Copy, Debug, PartialEq, Eq, Structural)]
pub enum StoreError {
    /// No spend is stored at the address: the key is unspent.
    Missing,
    /// The lookup itself failed: nothing is known about the address.
    Transient,
}

/// The view of one answer.
pub open spec fn result_view(result: Result<SignedSpend, StoreError>) -> Result<
    SpendView,
    StoreError,
> {
    match result {
        Ok(spend) => Ok(spend@),
        Err(e) => Err(e),
    }
}

/// The views of a batch of answers, in order.
pub open spec fn results_view(results: Seq<Result<SignedSpend, StoreError>>) -> Seq<
    Result<SpendView, StoreError>,
> {
    Seq::new(results.len(), |i: int| result_view(results[i]))
}

} // verus!
