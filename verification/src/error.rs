//! The errors that a build of the DAG surfaces.

use vstd::prelude::*;

verus! {

/// Why the chain above a spend could not be verified.
#[derive(Clone, Copy, Debug, PartialEq, Eq, Structural)]
pub enum VerifyFailure {
    /// The store holds no spend for an input of the parent transaction.
    MissingSpend,
    /// The lookup of an input's spend failed.
    FetchFailed,
    /// The parent transaction does not verify against the spends of its inputs.
    InvalidTransaction,
    /// The extend was given up before it reached a known spend or Genesis.
    Incomplete,
}

/// A hard error of a build.
#[derive(Clone, Copy, Debug, PartialEq, Eq, Structural)]
pub enum BuildError {
    /// A spend that the build cannot do without could not be fetched.
    FailedToGetSpend,
    /// An ancestor of a new spend could not be verified, `depth` generations
    /// above it.
    CouldNotVerifyTransfer { depth: usize, cause: VerifyFailure },
}

} // verus!
