//! Query surface of the companion staking registry that consumes finality
//! events from this core.
//!
//! The registry itself (delegation bookkeeping and finality-provider power
//! ranking) is a separate collaborator; only the shapes of its queries and
//! responses are fixed here so the bridge and its callers agree on them.

use vstd::prelude::*;

verus! {

/// Summary of one finality provider.
#[derive(Debug, Clone, PartialEq, Eq)]
pub struct FinalityProviderInfo {
    /// The provider's secp256k1 public key, hex-encoded.
    pub btc_pk_hex: String,
    /// The aggregated power delegated to this provider.
    pub power: u64,
}

/// The staking transaction hashes of a provider's delegations, hex-encoded.
#[derive(Debug, Clone, PartialEq, Eq)]
pub struct DelegationsByFPResponse {
    pub hashes: Vec<String>,
}

/// Finality providers ranked by aggregated power, descending.
#[derive(Debug, Clone, PartialEq, Eq)]
pub struct FinalityProvidersByPowerResponse {
    pub fps: Vec<FinalityProviderInfo>,
}

/// The read operations the registry answers.
#[derive(Debug)]
pub enum QueryMsg {
    /// The registry's configuration record.
    Config {},
    /// The registry's consumer-specific parameters.
    Params {},
    /// One finality provider by its public key.
    FinalityProvider { btc_pk_hex: String },
    /// The registered providers, paginated by public key.
    FinalityProviders { start_after: Option<String>, limit: Option<u32> },
    /// One delegation by its staking transaction hash.
    Delegation { staking_tx_hash_hex: String },
    /// Delegations, paginated, optionally only active ones.
    Delegations { start_after: Option<String>, limit: Option<u32>, active: Option<bool> },
    /// Staking transaction hashes of one provider's delegations.
    DelegationsByFP { btc_pk_hex: String },
    /// One provider's aggregated power.
    FinalityProviderInfo { btc_pk_hex: String },
    /// Providers ranked by power, paginated.
    FinalityProvidersByPower { start_after: Option<FinalityProviderInfo>, limit: Option<u32> },
}

} // verus!
