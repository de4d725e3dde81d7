//! The error taxonomy of the light client core.
//!
//! Every rejected operation surfaces one of these variants verbatim; batch
//! validation failures carry the index of the offending header.

use vstd::prelude::*;

verus! {

/// Why a batch, a lookup, or an initialization was rejected.
#[derive(Debug, Clone, Copy, PartialEq, Eq, Structural)]
pub enum LightClientError {
    /// A raw header in the batch is not exactly 80 bytes long.
    MalformedHeader { index: usize },
    /// A header's previous-hash matches neither the canonical tip nor any
    /// stored canonical header.
    UnknownParent { index: usize },
    /// A header's hash does not meet the target encoded in its difficulty
    /// bits, or those bits do not encode a positive target within the
    /// network's proof-of-work limit.
    InsufficientWork { index: usize },
    /// A header's difficulty bits disagree with the network's retarget policy.
    BadDifficulty { index: usize },
    /// A header's timestamp is not above the median of the preceding eleven
    /// headers, or lies beyond the future-time allowance.
    BadTimestamp { index: usize },
    /// A fork rooted more than `btc_confirmation_depth` below the canonical
    /// tip was submitted; such forks can never win and are refused outright.
    ReorgTooDeep,
    /// A tag string is not exactly eight hexadecimal characters.
    InvalidTagEncoding,
    /// A height, hash, or epoch lookup missed.
    NotFound,
    /// An initialization parameter is out of range.
    ConfigError,
}

} // verus!
