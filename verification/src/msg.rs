//! The operation surface: configuration, initialization, and the closed
//! tagged-variant execute and query dispatch over the whole state.
//!
//! All state lives in an explicit `BabylonState` value; every mutating
//! operation either fully succeeds or fully fails with a typed error and no
//! state change, and every query is a read-only snapshot of committed state.

use vstd::prelude::*;
use vstd::slice::slice_to_vec;

use crate::chain::{spec_is_least_match, views_of_bytes, ApplyOutcome, ChainTracker};
use crate::codec::{spec_block_hash, spec_decode_header, BlockHeader};
use crate::errors::LightClientError;
use crate::finality::{spec_after_reorg, spec_next_status, Epoch, EpochStatus, FinalityTracker};
use crate::pow::{spec_pow_ok, Network};
use crate::store::{HeaderStore, StoredHeader, StoredV};
use crate::tag::{decode_hex, decode_tag, spec_hex_bytes, spec_hex_str_ok, spec_tag_ok};

verus! {

/// The configuration fixed at initialization.
#[derive(Debug)]
pub struct Config {
    pub network: Network,
    /// The four-byte tag recognizing bridge-relevant transactions.
    pub babylon_tag: Vec<u8>,
    pub btc_confirmation_depth: u64,
    pub checkpoint_finalization_timeout: u64,
    /// Whether finalization waits for a cross-chain acknowledgment.
    pub notify_cosmos_zone: bool,
}

impl Config {
    /// A valid configuration: a four-byte tag and a positive depth.
    pub open spec fn wf(self) -> bool {
        self.babylon_tag@.len() == 4 && self.btc_confirmation_depth >= 1
    }

    /// An equal, independently owned copy.
    pub fn duplicate(&self) -> (r: Config)
        ensures
            r.network == self.network,
            r.babylon_tag@ == self.babylon_tag@,
            r.btc_confirmation_depth == self.btc_confirmation_depth,
            r.checkpoint_finalization_timeout == self.checkpoint_finalization_timeout,
            r.notify_cosmos_zone == self.notify_cosmos_zone,
    {
        Config {
            network: self.network,
            babylon_tag: slice_to_vec(self.babylon_tag.as_slice()),
            btc_confirmation_depth: self.btc_confirmation_depth,
            checkpoint_finalization_timeout: self.checkpoint_finalization_timeout,
            notify_cosmos_zone: self.notify_cosmos_zone,
        }
    }
}

/// The initialization parameters.
#[derive(Debug)]
pub struct InstantiateMsg {
    pub network: Network,
    /// The tag as a string of eight hexadecimal characters.
    pub babylon_tag: String,
    pub btc_confirmation_depth: u64,
    pub checkpoint_finalization_timeout: u64,
    pub notify_cosmos_zone: bool,
    /// An optional companion staking registry to instantiate alongside.
    pub btc_staking_code_id: Option<u64>,
    /// An optional migration admin for that registry.
    pub admin: Option<String>,
}

/// Common validation for messages carrying initialization parameters.
pub trait ContractMsg: Sized {
    /// The tag string the message carries.
    spec fn spec_tag_str(&self) -> Seq<char>;

    /// The confirmation depth the message carries.
    spec fn spec_depth(&self) -> u64;

    /// Checks the message: the tag must be eight hexadecimal characters and
    /// the depth positive.
    fn validate(&self) -> (r: Result<(), LightClientError>)
        ensures
            r is Ok <==> (spec_tag_ok(self.spec_tag_str()) && self.spec_depth() >= 1),
            r matches Err(e) ==> (if !spec_tag_ok(self.spec_tag_str()) {
                e == LightClientError::InvalidTagEncoding
            } else {
                e == LightClientError::ConfigError
            }),
    ;

    /// Decodes the carried tag into its four bytes.
    fn babylon_tag_to_bytes(&self) -> (r: Result<Vec<u8>, LightClientError>)
        ensures
            r is Ok <==> spec_tag_ok(self.spec_tag_str()),
            r matches Ok(b) ==> b@ == spec_hex_bytes(self.spec_tag_str()) && b@.len() == 4,
            r matches Err(e) ==> e == LightClientError::InvalidTagEncoding,
    ;
}

impl ContractMsg for InstantiateMsg {
    open spec fn spec_tag_str(&self) -> Seq<char> {
        self.babylon_tag@
    }

    open spec fn spec_depth(&self) -> u64 {
        self.btc_confirmation_depth
    }

    fn validate(&self) -> (r: Result<(), LightClientError>) {
        let _ = self.babylon_tag_to_bytes()?;
        if self.btc_confirmation_depth == 0 {
            return Err(LightClientError::ConfigError);
        }
        Ok(())
    }

    fn babylon_tag_to_bytes(&self) -> (r: Result<Vec<u8>, LightClientError>) {
        decode_tag(self.babylon_tag.as_str())
    }
}

/// Validates the initialization parameters and fixes the configuration.
pub fn instantiate(msg: &InstantiateMsg) -> (r: Result<Config, LightClientError>)
    ensures
        r is Ok <==> (spec_tag_ok(msg.babylon_tag@) && msg.btc_confirmation_depth >= 1),
        r matches Ok(c) ==> c.wf() && c.network == msg.network && c.babylon_tag@ == spec_hex_bytes(
            msg.babylon_tag@,
        ) && c.btc_confirmation_depth == msg.btc_confirmation_depth
            && c.checkpoint_finalization_timeout == msg.checkpoint_finalization_timeout
            && c.notify_cosmos_zone == msg.notify_cosmos_zone,
        r matches Err(e) ==> (if !spec_tag_ok(msg.babylon_tag@) {
            e == LightClientError::InvalidTagEncoding
        } else {
            e == LightClientError::ConfigError
        }),
{
    msg.validate()?;
    let tag = msg.babylon_tag_to_bytes()?;
    Ok(
        Config {
            network: msg.network,
            babylon_tag: tag,
            btc_confirmation_depth: msg.btc_confirmation_depth,
            checkpoint_finalization_timeout: msg.checkpoint_finalization_timeout,
            notify_cosmos_zone: msg.notify_cosmos_zone,
        },
    )
}

/// The whole committed state: configuration, header chain, epochs.
#[derive(Debug)]
pub struct BabylonState {
    pub cfg: Config,
    pub chain: ChainTracker,
    pub finality: FinalityTracker,
}

impl BabylonState {
    /// The state invariant: each component well-formed and the chain bound
    /// to the configured network and depth.
    pub open spec fn wf(self) -> bool {
        &&& self.cfg.wf()
        &&& self.chain.wf()
        &&& self.chain.network == self.cfg.network
        &&& self.chain.confirmation_depth == self.cfg.btc_confirmation_depth
        &&& self.finality.wf()
        &&& self.finality.notify == self.cfg.notify_cosmos_zone
    }

    /// Initializes the state from validated parameters and the base header.
    pub fn new_state(msg: &InstantiateMsg, base_raw: &[u8], base_epoch_number: u64) -> (r: Result<
        BabylonState,
        LightClientError,
    >)
        ensures
            r is Ok <==> (spec_tag_ok(msg.babylon_tag@) && msg.btc_confirmation_depth >= 1
                && base_raw@.len() == 80 && spec_pow_ok(
                spec_block_hash(spec_decode_header(base_raw@)),
                spec_decode_header(base_raw@).bits,
                msg.network,
            )),
            r matches Ok(s) ==> s.wf() && s.cfg.network == msg.network && s.cfg.babylon_tag@
                == spec_hex_bytes(msg.babylon_tag@) && s.cfg.btc_confirmation_depth
                == msg.btc_confirmation_depth && s.cfg.checkpoint_finalization_timeout
                == msg.checkpoint_finalization_timeout && s.cfg.notify_cosmos_zone
                == msg.notify_cosmos_zone && s.chain.store@.len() == 1 && s.chain.store@[0].header
                == spec_decode_header(base_raw@) && s.chain.forks@.len() == 0
                && s.finality.base_epoch_number == base_epoch_number && s.finality.epochs@.len()
                == 0,
    {
        let cfg = instantiate(msg)?;
        let chain = ChainTracker::init(cfg.network, cfg.btc_confirmation_depth, base_raw)?;
        let finality = FinalityTracker::new(base_epoch_number, cfg.notify_cosmos_zone);
        Ok(BabylonState { cfg, chain, finality })
    }
}

/// The mutating operations.
#[derive(Debug)]
pub enum ExecuteMsg {
    /// An ordered batch of raw 80-byte headers to append or fork with.
    BtcHeaders { headers: Vec<Vec<u8>> },
    /// A slashing event from the companion staking registry, passed through
    /// for cross-chain forwarding; carries no state change here.
    Slashing { fp_btc_pk: Vec<u8>, block_height: u64, secret_key: Vec<u8> },
    /// A checkpoint for an epoch observed anchored in the canonical chain
    /// (reported by the external block-content decoder).
    Checkpoint { epoch_number: u64, first_height: u64, last_height: u64 },
    /// An external acknowledgment for an epoch's checkpoint.
    CheckpointAck { epoch_number: u64 },
}

/// What a mutating operation reports back.
#[derive(Debug)]
pub enum ExecuteAnswer {
    HeadersApplied(ApplyOutcome),
    SlashingForwarded { fp_btc_pk: Vec<u8>, block_height: u64, secret_key: Vec<u8> },
    CheckpointObserved { epoch_number: u64 },
    AckRecorded { epoch_number: u64 },
}

/// An epoch after one accepted header batch: orphaned first if a reorg
/// rolled its anchor back, then advanced against the new tip.
pub open spec fn spec_epoch_after_batch(
    e: Epoch,
    out: ApplyOutcome,
    tip: u64,
    depth: u64,
    notify: bool,
) -> Epoch {
    let e1 = if out is Reorged {
        spec_after_reorg(
            e,
            if out->Reorged_from_height > 0 {
                (out->Reorged_from_height - 1) as u64
            } else {
                0u64
            },
        )
    } else {
        e
    };
    Epoch { status: spec_next_status(e1, tip, depth, notify), ..e1 }
}

/// The epoch registry right after a checkpoint observation, before the
/// re-evaluation against the tip: the next number is appended as
/// `Submitted`, an orphaned epoch is re-anchored, a live one is unchanged.
pub open spec fn spec_observed_epochs(
    fin: FinalityTracker,
    epoch_number: u64,
    first_height: u64,
    last_height: u64,
) -> Seq<Epoch> {
    let base = fin.base_epoch_number;
    let n = fin.epochs@.len();
    if epoch_number == base + n {
        fin.epochs@.push(
            Epoch {
                epoch_number,
                first_height,
                last_height,
                acked: false,
                status: EpochStatus::Submitted,
            },
        )
    } else {
        let i = epoch_number - base;
        if fin.epochs@[i as int].status is Orphaned {
            fin.epochs@.update(
                i as int,
                Epoch {
                    epoch_number,
                    first_height,
                    last_height,
                    acked: fin.epochs@[i as int].acked,
                    status: EpochStatus::Submitted,
                },
            )
        } else {
            fin.epochs@
        }
    }
}

/// Applies one mutating operation to the state, atomically.
#[verifier::rlimit(100)]
#[verifier::spinoff_prover]
pub fn execute(state: &mut BabylonState, msg: ExecuteMsg) -> (r: Result<
    ExecuteAnswer,
    LightClientError,
>)
    requires
        old(state).wf(),
        msg matches ExecuteMsg::BtcHeaders { headers } ==> old(state).chain.store@.len()
            + headers@.len() <= usize::MAX,
    ensures
        final(state).wf(),
        final(state).cfg == old(state).cfg,
        r is Err ==> *final(state) == *old(state),
        (msg matches ExecuteMsg::BtcHeaders { headers } ==> {
            &&& (r matches Ok(a) ==> a is HeadersApplied && ChainTracker::spec_apply_contract(
                old(state).chain,
                final(state).chain,
                views_of_bytes(headers@),
                Ok(a->HeadersApplied_0),
            ))
            &&& (r matches Err(e) ==> ChainTracker::spec_apply_contract(
                old(state).chain,
                final(state).chain,
                views_of_bytes(headers@),
                Err(e),
            ))
            &&& (r matches Ok(a) ==> final(state).finality.epochs@.len() == old(state).finality.epochs@.len() && (forall|i: int|
                0 <= i < old(state).finality.epochs@.len() ==> (#[trigger] final(state).finality.epochs@[i]) == spec_epoch_after_batch(
                    old(state).finality.epochs@[i],
                    a->HeadersApplied_0,
                    (final(state).chain.store@.len() - 1) as u64,
                    old(state).cfg.btc_confirmation_depth,
                    old(state).cfg.notify_cosmos_zone,
                )))
        }),
        (msg matches ExecuteMsg::Slashing { fp_btc_pk, block_height, secret_key } ==> (*final(state)
            == *old(state) && r is Ok && r->Ok_0 is SlashingForwarded
            && r->Ok_0->SlashingForwarded_fp_btc_pk@ == fp_btc_pk@
            && r->Ok_0->SlashingForwarded_block_height == block_height
            && r->Ok_0->SlashingForwarded_secret_key@ == secret_key@)),
        (msg matches ExecuteMsg::Checkpoint { epoch_number, first_height, last_height } ==> {
            let base = old(state).finality.base_epoch_number;
            let n = old(state).finality.epochs@.len();
            &&& (r is Ok <==> (first_height <= last_height && (base <= epoch_number < base + n || (
            epoch_number == base + n && epoch_number < u64::MAX))))
            &&& (r matches Err(e) ==> (if first_height > last_height {
                e == LightClientError::ConfigError
            } else {
                e == LightClientError::NotFound
            }))
            &&& (r matches Ok(a) ==> a is CheckpointObserved
                && a->CheckpointObserved_epoch_number == epoch_number)
            &&& (r is Ok ==> (final(state).chain == old(state).chain
                && final(state).finality.base_epoch_number == base && {
                let obs = spec_observed_epochs(
                    old(state).finality,
                    epoch_number,
                    first_height,
                    last_height,
                );
                let tip = (old(state).chain.store@.len() - 1) as u64;
                &&& final(state).finality.epochs@.len() == obs.len()
                &&& forall|i: int|
                    0 <= i < obs.len() ==> (#[trigger] final(state).finality.epochs@[i]) == (Epoch {
                        status: spec_next_status(
                            obs[i],
                            tip,
                            old(state).cfg.btc_confirmation_depth,
                            old(state).cfg.notify_cosmos_zone,
                        ),
                        ..obs[i]
                    })
            }))
        }),
        (msg matches ExecuteMsg::CheckpointAck { epoch_number } ==> {
            let base = old(state).finality.base_epoch_number;
            let n = old(state).finality.epochs@.len();
            &&& (r is Ok <==> base <= epoch_number < base + n)
            &&& (r matches Err(e) ==> e == LightClientError::NotFound)
            &&& (r matches Ok(a) ==> a is AckRecorded && a->AckRecorded_epoch_number
                == epoch_number)
            &&& (r is Ok ==> (final(state).chain == old(state).chain && {
                let i = epoch_number - base;
                let e0 = old(state).finality.epochs@[i as int];
                final(state).finality.epochs@ == old(state).finality.epochs@.update(
                    i as int,
                    (Epoch {
                        acked: true,
                        status: if e0.status is Confirmed {
                            EpochStatus::Finalized
                        } else {
                            e0.status
                        },
                        ..e0
                    }),
                )
            }))
        }),
{
    match msg {
        ExecuteMsg::BtcHeaders { headers } => {
            let out = match state.chain.apply_headers(&headers) {
                Ok(o) => o,
                Err(e) => { return Err(e) },
            };
            match &out {
                ApplyOutcome::Reorged { from_height, .. } => {
                    let root: u64 = if *from_height > 0 {
                        *from_height - 1
                    } else {
                        0
                    };
                    state.finality.on_reorg(root);
                },
                _ => {
                    proof {
                        assert(forall|i: int|
                            0 <= i < state.finality.epochs@.len() ==> (#[trigger] state.finality.epochs@[i])
                                == old(state).finality.epochs@[i]);
                    }
                },
            }
            let tip = state.chain.store.headers.len() as u64 - 1;
            state.finality.advance(tip, state.cfg.btc_confirmation_depth);
            Ok(ExecuteAnswer::HeadersApplied(out))
        },
        ExecuteMsg::Slashing { fp_btc_pk, block_height, secret_key } => {
            // forwarded across chains by the host; nothing changes here
            Ok(ExecuteAnswer::SlashingForwarded { fp_btc_pk, block_height, secret_key })
        },
        ExecuteMsg::Checkpoint { epoch_number, first_height, last_height } => {
            if first_height > last_height {
                return Err(LightClientError::ConfigError);
            }
            match state.finality.observe_checkpoint(epoch_number, first_height, last_height) {
                Ok(_) => {},
                Err(e) => { return Err(e) },
            }
            let tip = state.chain.store.headers.len() as u64 - 1;
            state.finality.advance(tip, state.cfg.btc_confirmation_depth);
            Ok(ExecuteAnswer::CheckpointObserved { epoch_number })
        },
        ExecuteMsg::CheckpointAck { epoch_number } => {
            match state.finality.record_ack(epoch_number) {
                Ok(_) => {},
                Err(e) => { return Err(e) },
            }
            Ok(ExecuteAnswer::AckRecorded { epoch_number })
        },
    }
}

/// The read operations.
#[derive(Debug)]
pub enum QueryMsg {
    /// The current configuration.
    Config {},
    /// The base header stored at height zero.
    BtcBaseHeader {},
    /// The canonical tip header.
    BtcTipHeader {},
    /// The canonical header at a height.
    BtcHeader { height: u64 },
    /// The canonical header with the given byte-reversed, hex-encoded hash.
    BtcHeaderByHash { hash: String },
    /// A page of the canonical chain.  `start_after` is exclusive; an
    /// absent `limit` defaults to ten entries and a larger one is clamped
    /// to `MAX_RANGE_LIMIT`; an absent `reverse` means ascending.
    BtcHeaders { start_after: Option<u64>, limit: Option<u32>, reverse: Option<bool> },
    /// The base tracked epoch.
    BabylonBaseEpoch {},
    /// The last finalized epoch.
    BabylonLastEpoch {},
    /// The epoch with the given number.
    BabylonEpoch { epoch_number: u64 },
    /// The checkpoint record of the epoch with the given number.
    BabylonCheckpoint { epoch_number: u64 },
}

/// A header as a query reports it.
#[derive(Debug)]
pub struct BtcHeaderResponse {
    pub header: BlockHeader,
    pub height: u64,
    /// The header's hash, raw bytes in internal order.
    pub hash: Vec<u8>,
    /// Work accumulated from the base up to this header.
    pub cum_work: u128,
}

/// A page of headers.
#[derive(Debug)]
pub struct BtcHeadersResponse {
    pub headers: Vec<BtcHeaderResponse>,
}

/// An epoch as a query reports it.
#[derive(Debug)]
pub struct EpochResponse {
    pub epoch: Epoch,
}

/// What a read operation returns.
#[derive(Debug)]
pub enum QueryAnswer {
    Cfg(Config),
    Header(BtcHeaderResponse),
    Headers(BtcHeadersResponse),
    Epoch(EpochResponse),
}

/// A stored header, packaged for a response.
fn header_response(s: &StoredHeader, height: u64) -> (r: BtcHeaderResponse)
    ensures
        r.header@ == s@.header,
        r.height == height,
        r.hash@ == s@.hash,
        r.cum_work == s@.cum_work,
{
    BtcHeaderResponse {
        header: s.header.duplicate(),
        height,
        hash: slice_to_vec(s.hash.as_slice()),
        cum_work: s.cum_work,
    }
}

/// The byte-reversal of a sequence.
pub open spec fn spec_rev(s: Seq<u8>) -> Seq<u8> {
    Seq::new(s.len(), |i: int| s[s.len() - 1 - i])
}

/// Reverses a byte string.
fn reverse_bytes(v: &Vec<u8>) -> (r: Vec<u8>)
    ensures
        r@ == spec_rev(v@),
{
    let n = v.len();
    let mut out: Vec<u8> = Vec::new();
    let mut i: usize = 0;
    while i < n
        invariant
            i <= n,
            n == v@.len(),
            out@.len() == i,
            forall|j: int| 0 <= j < i ==> out@[j] == v@[n - 1 - j],
        decreases n - i,
    {
        out.push(v[n - 1 - i]);
        i = i + 1;
    }
    proof {
        assert(out@ =~= spec_rev(v@));
    }
    out
}

/// A response mirrors the stored header at the given height.
pub open spec fn spec_header_resp(resp: BtcHeaderResponse, s: StoredV, height: int) -> bool {
    &&& resp.header@ == s.header
    &&& resp.height == height
    &&& resp.hash@ == s.hash
    &&& resp.cum_work == s.cum_work
}

/// The page limit a query resolves to: the requested one, or ten when
/// absent (clamping to `MAX_RANGE_LIMIT` happens in the store).
pub open spec fn spec_limit_or_default(limit: Option<u32>) -> u32 {
    match limit {
        Option::Some(l) => l,
        Option::None => 10u32,
    }
}

/// The direction a query resolves to: ascending when absent.
pub open spec fn spec_reverse_or_default(reverse: Option<bool>) -> bool {
    match reverse {
        Option::Some(b) => b,
        Option::None => false,
    }
}

/// Answers one read operation from committed state.
#[verifier::rlimit(100)]
#[verifier::spinoff_prover]
pub fn query(state: &BabylonState, msg: &QueryMsg) -> (r: Result<QueryAnswer, LightClientError>)
    requires
        state.wf(),
    ensures
        (msg is Config ==> (r is Ok && r->Ok_0 is Cfg && r->Ok_0->Cfg_0.network
            == state.cfg.network && r->Ok_0->Cfg_0.babylon_tag@ == state.cfg.babylon_tag@
            && r->Ok_0->Cfg_0.btc_confirmation_depth == state.cfg.btc_confirmation_depth
            && r->Ok_0->Cfg_0.checkpoint_finalization_timeout
            == state.cfg.checkpoint_finalization_timeout && r->Ok_0->Cfg_0.notify_cosmos_zone
            == state.cfg.notify_cosmos_zone)),
        (msg matches QueryMsg::BtcHeader { height } ==> {
            &&& (r is Ok <==> (*height as int) < state.chain.store@.len())
            &&& (r matches Ok(a) ==> a is Header && spec_header_resp(
                a->Header_0,
                state.chain.store@[*height as int],
                *height as int,
            ))
            &&& (r matches Err(e) ==> e == LightClientError::NotFound)
        }),
        (msg is BtcBaseHeader ==> (r is Ok && r->Ok_0 is Header && spec_header_resp(
            r->Ok_0->Header_0,
            state.chain.store@[0],
            0,
        ))),
        (msg is BtcTipHeader ==> (r is Ok && r->Ok_0 is Header && spec_header_resp(
            r->Ok_0->Header_0,
            state.chain.store@.last(),
            state.chain.store@.len() - 1,
        ))),
        (msg matches QueryMsg::BtcHeaderByHash { hash } ==> {
            let canon = spec_rev(spec_hex_bytes(hash@));
            &&& (r is Ok <==> (spec_hex_str_ok(hash@) && (exists|i: int|
                0 <= i < state.chain.store@.len() && (#[trigger] state.chain.store@[i].hash)
                    == canon)))
            &&& (r matches Ok(a) ==> (a is Header && forall|i: int|
                spec_is_least_match(state.chain.store@, canon, i) ==> spec_header_resp(
                    a->Header_0,
                    state.chain.store@[i],
                    i,
                )))
            &&& (r matches Err(e) ==> (if !spec_hex_str_ok(hash@) {
                e == LightClientError::InvalidTagEncoding
            } else {
                e == LightClientError::NotFound
            }))
        }),
        (msg matches QueryMsg::BtcHeaders { start_after, limit, reverse } ==> {
            let n = state.chain.store@.len() as int;
            let l = spec_limit_or_default(*limit);
            let rev = spec_reverse_or_default(*reverse);
            let cnt = HeaderStore::spec_range_count(n, *start_after, l, rev);
            &&& r is Ok && r->Ok_0 is Headers
            &&& r->Ok_0->Headers_0.headers@.len() == cnt
            &&& (!rev ==> forall|i: int|
                0 <= i < cnt ==> #[trigger] spec_header_resp(
                    r->Ok_0->Headers_0.headers@[i],
                    state.chain.store@[HeaderStore::spec_range_start_asc(*start_after) + i],
                    HeaderStore::spec_range_start_asc(*start_after) + i,
                ))
            &&& (rev ==> forall|i: int|
                0 <= i < cnt ==> #[trigger] spec_header_resp(
                    r->Ok_0->Headers_0.headers@[i],
                    state.chain.store@[HeaderStore::spec_range_start_desc(n, *start_after) - i],
                    HeaderStore::spec_range_start_desc(n, *start_after) - i,
                ))
        }),
        (msg matches QueryMsg::BabylonEpoch { epoch_number } ==> {
            &&& (r is Ok <==> state.finality.base_epoch_number <= *epoch_number
                < state.finality.base_epoch_number + state.finality.epochs@.len())
            &&& (r matches Ok(a) ==> a is Epoch && a->Epoch_0.epoch
                == state.finality.epochs@[*epoch_number - state.finality.base_epoch_number])
            &&& (r matches Err(e) ==> e == LightClientError::NotFound)
        }),
        (msg matches QueryMsg::BabylonCheckpoint { epoch_number } ==> {
            &&& (r is Ok <==> state.finality.base_epoch_number <= *epoch_number
                < state.finality.base_epoch_number + state.finality.epochs@.len())
            &&& (r matches Ok(a) ==> a is Epoch && a->Epoch_0.epoch
                == state.finality.epochs@[*epoch_number - state.finality.base_epoch_number])
            &&& (r matches Err(e) ==> e == LightClientError::NotFound)
        }),
        (msg is BabylonBaseEpoch ==> {
            &&& (r is Ok <==> state.finality.epochs@.len() > 0)
            &&& (r matches Ok(a) ==> a is Epoch && a->Epoch_0.epoch == state.finality.epochs@[0])
            &&& (r matches Err(e) ==> e == LightClientError::NotFound)
        }),
        (msg is BabylonLastEpoch ==> {
            &&& (r is Ok <==> (exists|i: int|
                0 <= i < state.finality.epochs@.len() && (#[trigger] state.finality.epochs@[i].status) is Finalized))
            &&& (r matches Ok(a) ==> (a is Epoch && exists|i: int|
                0 <= i < state.finality.epochs@.len() && a->Epoch_0.epoch
                    == state.finality.epochs@[i] && (#[trigger] state.finality.epochs@[i].status) is Finalized
                    && (forall|j: int|
                    i < j < state.finality.epochs@.len() ==> !((#[trigger] state.finality.epochs@[j].status) is Finalized))))
            &&& (r matches Err(e) ==> e == LightClientError::NotFound)
        }),
{
    match msg {
        QueryMsg::Config {} => Ok(QueryAnswer::Cfg(state.cfg.duplicate())),
        QueryMsg::BtcBaseHeader {} => {
            let s = &state.chain.store.headers[0];
            Ok(QueryAnswer::Header(header_response(s, 0)))
        },
        QueryMsg::BtcTipHeader {} => {
            let n = state.chain.store.headers.len();
            let s = &state.chain.store.headers[n - 1];
            Ok(QueryAnswer::Header(header_response(s, (n - 1) as u64)))
        },
        QueryMsg::BtcHeader { height } => {
            match state.chain.store.get_by_height(*height) {
                Some(s) => Ok(QueryAnswer::Header(header_response(s, *height))),
                None => Err(LightClientError::NotFound),
            }
        },
        QueryMsg::BtcHeaderByHash { hash } => {
            // the boundary supplies the hash byte-reversed and hex-encoded
            let raw = decode_hex(hash.as_str())?;
            let canonical = reverse_bytes(&raw);
            match state.chain.store.get_by_hash(canonical.as_slice()) {
                Some((h, s)) => {
                    proof {
                        assert forall|rt: int|
                            spec_is_least_match(
                                state.chain.store@,
                                canonical@,
                                rt,
                            ) implies rt == h as int by {
                            if rt < h as int {
                                assert(state.chain.store@[rt].hash != canonical@);
                            }
                            if rt > h as int {
                                assert(state.chain.store@[h as int].hash != canonical@);
                            }
                        }
                    }
                    Ok(QueryAnswer::Header(header_response(s, h)))
                },
                None => Err(LightClientError::NotFound),
            }
        },
        QueryMsg::BtcHeaders { start_after, limit, reverse } => {
            let l: u32 = match limit {
                Some(l) => *l,
                None => 10,
            };
            let rev: bool = match reverse {
                Some(b) => *b,
                None => false,
            };
            let page = state.chain.store.range(*start_after, l, rev);
            let n = state.chain.store.headers.len() as u64;
            // heights ascend from the start for a forward page and descend
            // from one below `first_plus` for a reverse one
            let start_height: u64 = match start_after {
                Option::None => 0,
                Option::Some(h) => {
                    if *h < n {
                        *h + 1
                    } else {
                        n
                    }
                },
            };
            let first_plus: u64 = match start_after {
                Option::None => n,
                Option::Some(s) => {
                    if *s <= n {
                        *s
                    } else {
                        n
                    }
                },
            };
            let ghost cnt = HeaderStore::spec_range_count(
                state.chain.store@.len() as int,
                *start_after,
                l,
                rev,
            );
            let mut out: Vec<BtcHeaderResponse> = Vec::new();
            let mut i: usize = 0;
            while i < page.len()
                invariant
                    i <= page@.len(),
                    out@.len() == i,
                    n == state.chain.store@.len(),
                    page@.len() == cnt,
                    cnt == HeaderStore::spec_range_count(
                        state.chain.store@.len() as int,
                        *start_after,
                        l,
                        rev,
                    ),
                    !rev ==> page@.len() <= n - start_height,
                    rev ==> page@.len() <= first_plus,
                    !rev && cnt > 0 ==> start_height as int == HeaderStore::spec_range_start_asc(
                        *start_after,
                    ),
                    rev && cnt > 0 ==> first_plus as int - 1 == HeaderStore::spec_range_start_desc(
                        state.chain.store@.len() as int,
                        *start_after,
                    ),
                    !rev ==> forall|k: int|
                        0 <= k < cnt ==> (#[trigger] page@[k])@
                            == state.chain.store@[HeaderStore::spec_range_start_asc(*start_after)
                            + k],
                    rev ==> forall|k: int|
                        0 <= k < cnt ==> (#[trigger] page@[k])@
                            == state.chain.store@[HeaderStore::spec_range_start_desc(
                            state.chain.store@.len() as int,
                            *start_after,
                        ) - k],
                    !rev ==> forall|k: int|
                        0 <= k < i ==> #[trigger] spec_header_resp(
                            out@[k],
                            state.chain.store@[HeaderStore::spec_range_start_asc(*start_after)
                                + k],
                            HeaderStore::spec_range_start_asc(*start_after) + k,
                        ),
                    rev ==> forall|k: int|
                        0 <= k < i ==> #[trigger] spec_header_resp(
                            out@[k],
                            state.chain.store@[HeaderStore::spec_range_start_desc(
                                state.chain.store@.len() as int,
                                *start_after,
                            ) - k],
                            HeaderStore::spec_range_start_desc(
                                state.chain.store@.len() as int,
                                *start_after,
                            ) - k,
                        ),
                decreases page@.len() - i,
            {
                let h: u64 = if !rev {
                    start_height + i as u64
                } else {
                    first_plus - 1 - i as u64
                };
                out.push(header_response(&page[i], h));
                i = i + 1;
            }
            Ok(QueryAnswer::Headers(BtcHeadersResponse { headers: out }))
        },
        QueryMsg::BabylonBaseEpoch {} => {
            match state.finality.base_epoch() {
                Some(e) => Ok(QueryAnswer::Epoch(EpochResponse { epoch: *e })),
                None => Err(LightClientError::NotFound),
            }
        },
        QueryMsg::BabylonLastEpoch {} => {
            match state.finality.last_finalized_epoch() {
                Some(e) => Ok(QueryAnswer::Epoch(EpochResponse { epoch: *e })),
                None => Err(LightClientError::NotFound),
            }
        },
        QueryMsg::BabylonEpoch { epoch_number } => {
            match state.finality.epoch(*epoch_number) {
                Some(e) => Ok(QueryAnswer::Epoch(EpochResponse { epoch: *e })),
                None => Err(LightClientError::NotFound),
            }
        },
        QueryMsg::BabylonCheckpoint { epoch_number } => {
            match state.finality.epoch(*epoch_number) {
                Some(e) => Ok(QueryAnswer::Epoch(EpochResponse { epoch: *e })),
                None => Err(LightClientError::NotFound),
            }
        },
    }
}

} // verus!
