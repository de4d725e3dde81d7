//! Core of a cross-chain bridge that maintains a verified, append-only view of
//! a proof-of-work blockchain's header history and tracks finality of periodic
//! checkpoints anchored into that history.
//!
//! The library is pure and deterministic: all state lives in explicit values,
//! every mutating operation either fully succeeds or fully fails, and the
//! result of an operation is a function of the prior state and the input alone.

use vstd::prelude::*;

pub mod chain;
pub mod codec;
pub mod errors;
pub mod finality;
pub mod msg;
pub mod pow;
pub mod staking_msg;
pub mod store;
pub mod tag;

verus! {

} // verus!
