//! Double-spend auditing over a graph of token spends.
//!
//! The core is the spend DAG (`dag`), the two ways to fill it from a store of
//! spends, forward from a root (`forward`) and backward from a new spend
//! (`backward`), the continuation of a DAG from its unspent outputs
//! (`continuation`) and the audit of a DAG as a whole (`audit`). `reach`
//! states what a forward build gathers from a store that answers every
//! lookup, and holds such a store in memory.
//!
//! The library never fetches, waits or verifies a signature. It is told what
//! a lookup gave and whether a transaction verifies, and says what to do
//! next.
//!
//! Beside the core stand the decisions of the programs around it: of the
//! wallet client (`payments`), of the faucet (`snapshot`, `pubkeys`, `maid`)
//! and of the node manager (`daemon`, `service`).

pub mod keys;
pub mod transaction;
pub mod store;
pub mod error;
pub mod dag;
pub mod forward;
pub mod backward;
pub mod continuation;
pub mod audit;
pub mod reach;
pub mod service;
pub mod payments;
pub mod daemon;
pub mod snapshot;
pub mod pubkeys;
pub mod maid;
