//! The chain tracker: validates and applies header batches, maintains the
//! canonical chain and its cumulative work, and resolves forks and reorgs.
//!
//! A batch either extends the canonical tip or forks off a stored canonical
//! header.  Every header is checked in order: decode, parent linkage,
//! proof-of-work, difficulty policy, timestamp policy.  The whole batch is
//! applied atomically or rejected with a typed error and no state change.  A
//! winning fork within the confirmation depth replaces the canonical
//! suffix; the replaced headers are demoted to a retained fork branch.  A
//! fork rooted deeper than the confirmation depth is refused outright, and
//! retained branches whose root falls behind that window are evicted when
//! the tip advances.

use vstd::prelude::*;

use crate::codec::{spec_block_hash, spec_decode_header, BlockHeader, HeaderV};
use crate::errors::LightClientError;
use crate::pow::{
    bits_exp, spec_expected_bits, spec_header_work, spec_pow_ok, spec_work_add, expected_bits,
    header_work, meets_target, work_add, Network,
};
use crate::codec::block_hash;
use crate::store::{
    bytes_eq, spec_store_wf, spec_stored_wf, views_of, HeaderStore, StoredHeader, StoredV,
};
use vstd::slice::slice_to_vec;

verus! {

/// A header's timestamp may exceed the median-time-past by at most this
/// many seconds (a deterministic stand-in for a wall-clock future bound).
pub const MAX_FUTURE_GAP: u32 = 1209600;

/// The models of a sequence of raw byte strings.
pub open spec fn views_of_bytes(s: Seq<Vec<u8>>) -> Seq<Seq<u8>> {
    Seq::new(s.len(), |i: int| s[i]@)
}

/// The models of a sequence of decoded headers.
pub open spec fn header_views(s: Seq<BlockHeader>) -> Seq<HeaderV> {
    Seq::new(s.len(), |i: int| s[i]@)
}

/// Whether every raw header in a batch is exactly 80 bytes.
pub open spec fn spec_batch_decodes(rs: Seq<Seq<u8>>) -> bool {
    forall|i: int| 0 <= i < rs.len() ==> (#[trigger] rs[i]).len() == 80
}

/// The headers a batch of raw byte strings stands for.
pub open spec fn spec_decoded(rs: Seq<Seq<u8>>) -> Seq<HeaderV> {
    Seq::new(rs.len(), |i: int| spec_decode_header(rs[i]))
}

/// Inserting into an ascending sequence, from the back.
pub open spec fn spec_insert_sorted(x: u32, s: Seq<u32>) -> Seq<u32>
    decreases s.len(),
{
    if s.len() == 0 {
        seq![x]
    } else if x >= s.last() {
        s.push(x)
    } else {
        spec_insert_sorted(x, s.drop_last()).push(s.last())
    }
}

/// Sorting by repeated insertion.
pub open spec fn spec_sort_u32(s: Seq<u32>) -> Seq<u32>
    decreases s.len(),
{
    if s.len() == 0 {
        s
    } else {
        spec_insert_sorted(s.last(), spec_sort_u32(s.drop_last()))
    }
}

/// Insertion grows a sequence by one.
pub proof fn lemma_insert_sorted_len(x: u32, s: Seq<u32>)
    ensures
        spec_insert_sorted(x, s).len() == s.len() + 1,
    decreases s.len(),
{
    if s.len() > 0 && x < s.last() {
        lemma_insert_sorted_len(x, s.drop_last());
    }
}

/// Sorting keeps the length.
pub proof fn lemma_sort_len(s: Seq<u32>)
    ensures
        spec_sort_u32(s).len() == s.len(),
    decreases s.len(),
{
    if s.len() > 0 {
        lemma_sort_len(s.drop_last());
        lemma_insert_sorted_len(s.last(), spec_sort_u32(s.drop_last()));
    }
}

/// Ascending order.
pub open spec fn spec_ascending(s: Seq<u32>) -> bool {
    forall|i: int, j: int| 0 <= i <= j < s.len() ==> s[i] <= s[j]
}

/// Every element of an insertion stays within an upper bound that covers
/// the sequence and the inserted value.
proof fn lemma_insert_sorted_le(x: u32, s: Seq<u32>, b: u32)
    requires
        x <= b,
        forall|i: int| 0 <= i < s.len() ==> s[i] <= b,
    ensures
        forall|i: int|
            0 <= i < spec_insert_sorted(x, s).len() ==> spec_insert_sorted(x, s)[i] <= b,
    decreases s.len(),
{
    let r = spec_insert_sorted(x, s);
    if s.len() == 0 {
        assert(r[0] == x);
    } else if x >= s.last() {
        assert forall|i: int| 0 <= i < r.len() implies r[i] <= b by {
            if i < s.len() {
                assert(s[i] <= b);
            }
        }
    } else {
        assert forall|i: int| 0 <= i < s.drop_last().len() implies s.drop_last()[i] <= b by {
            assert(s[i] <= b);
        }
        lemma_insert_sorted_le(x, s.drop_last(), b);
        assert forall|i: int| 0 <= i < r.len() implies r[i] <= b by {
            if i < r.len() - 1 {
                assert(spec_insert_sorted(x, s.drop_last())[i] <= b);
            } else {
                assert(s[s.len() - 1] <= b);
            }
        }
    }
}

/// Inserting into an ascending sequence keeps it ascending.
pub proof fn lemma_insert_sorted_ascending(x: u32, s: Seq<u32>)
    requires
        spec_ascending(s),
    ensures
        spec_ascending(spec_insert_sorted(x, s)),
    decreases s.len(),
{
    if s.len() == 0 {
    } else if x >= s.last() {
        assert forall|i: int, j: int|
            0 <= i <= j < s.push(x).len() implies s.push(x)[i] <= s.push(x)[j] by {
            if j == s.len() && i < j {
                assert(s[i] <= s.last());
            }
        }
    } else {
        let d = s.drop_last();
        assert forall|i: int, j: int| 0 <= i <= j < d.len() implies d[i] <= d[j] by {
            assert(s[i] <= s[j]);
        }
        lemma_insert_sorted_ascending(x, d);
        assert forall|i: int| 0 <= i < d.len() implies d[i] <= s.last() by {
            assert(s[i] <= s[s.len() - 1]);
        }
        lemma_insert_sorted_le(x, d, s.last());
        let r = spec_insert_sorted(x, d).push(s.last());
        assert forall|i: int, j: int| 0 <= i <= j < r.len() implies r[i] <= r[j] by {
            if j < r.len() - 1 {
                assert(spec_insert_sorted(x, d)[i] <= spec_insert_sorted(x, d)[j]);
            } else if i < j {
                assert(spec_insert_sorted(x, d)[i] <= s.last());
            }
        }
    }
}

/// The sorted timestamps are ascending, so the median picks their middle.
pub proof fn lemma_sort_ascending(s: Seq<u32>)
    ensures
        spec_ascending(spec_sort_u32(s)),
    decreases s.len(),
{
    if s.len() > 0 {
        lemma_sort_ascending(s.drop_last());
        lemma_insert_sorted_ascending(s.last(), spec_sort_u32(s.drop_last()));
    }
}

/// The timestamps entering the median: the last eleven of the chain, or all
/// of it when shorter.
pub open spec fn spec_last_times(prefix: Seq<StoredV>) -> Seq<u32> {
    let k: int = if prefix.len() >= 11 {
        11
    } else {
        prefix.len() as int
    };
    Seq::new(k as nat, |i: int| prefix[prefix.len() - k + i].header.time)
}

/// The median-time-past of a chain: the middle element of its last eleven
/// timestamps in ascending order.
pub open spec fn spec_ctx_mtp(prefix: Seq<StoredV>) -> u32 {
    let t = spec_last_times(prefix);
    spec_sort_u32(t)[t.len() as int / 2]
}

/// The timestamp of the first header of the running retarget interval.
pub open spec fn spec_interval_first_time(prefix: Seq<StoredV>) -> u32 {
    if prefix.len() >= 2016 {
        prefix[prefix.len() - 2016].header.time
    } else {
        prefix[0].header.time
    }
}

/// What a valid child of a chain looks like: well-formed, linked to the
/// tip, meeting its target, carrying the bits the retarget policy owes, and
/// timestamped above the median-time-past but within the future allowance.
pub open spec fn spec_valid_child(net: Network, prefix: Seq<StoredV>, h: HeaderV) -> bool {
    &&& h.wf()
    &&& h.prev_blockhash == prefix.last().hash
    &&& spec_pow_ok(spec_block_hash(h), h.bits, net)
    &&& h.bits == spec_expected_bits(
        net,
        prefix.len() as u64,
        prefix.last().header.bits,
        prefix.last().header.time,
        spec_interval_first_time(prefix),
        h.time,
    )
    &&& h.time > spec_ctx_mtp(prefix)
    &&& h.time as u64 <= spec_ctx_mtp(prefix) as u64 + MAX_FUTURE_GAP as u64
}

/// The stored form of a new child header at the end of `prefix`.
pub open spec fn spec_extend_entry(net: Network, prefix: Seq<StoredV>, h: HeaderV) -> StoredV {
    StoredV {
        header: h,
        hash: spec_block_hash(h),
        work: spec_header_work(h.bits, net) as u128,
        cum_work: spec_work_add(prefix.last().cum_work as nat, spec_header_work(h.bits, net)) as u128,
    }
}

/// The chain that results from appending the headers `hs` to `prefix`.
pub open spec fn spec_extended(net: Network, prefix: Seq<StoredV>, hs: Seq<HeaderV>) -> Seq<StoredV>
    decreases hs.len(),
{
    if hs.len() == 0 {
        prefix
    } else {
        let p = spec_extended(net, prefix, hs.drop_last());
        p.push(spec_extend_entry(net, p, hs.last()))
    }
}

/// Whether every header of `hs`, in order, is a valid child of the chain
/// built so far.
pub open spec fn spec_all_valid(net: Network, prefix: Seq<StoredV>, hs: Seq<HeaderV>) -> bool
    decreases hs.len(),
{
    if hs.len() == 0 {
        true
    } else {
        spec_all_valid(net, prefix, hs.drop_last()) && spec_valid_child(
            net,
            spec_extended(net, prefix, hs.drop_last()),
            hs.last(),
        )
    }
}

/// An extended chain is exactly one entry longer per appended header: after
/// a valid extension the tip height rises by exactly the batch length.
pub proof fn lemma_extended_len(net: Network, prefix: Seq<StoredV>, hs: Seq<HeaderV>)
    ensures
        spec_extended(net, prefix, hs).len() == prefix.len() + hs.len(),
    decreases hs.len(),
{
    if hs.len() > 0 {
        lemma_extended_len(net, prefix, hs.drop_last());
    }
}

/// A valid batch is valid at every index against the chain built so far.
pub proof fn lemma_all_valid_index(net: Network, prefix: Seq<StoredV>, hs: Seq<HeaderV>, i: int)
    requires
        spec_all_valid(net, prefix, hs),
        0 <= i < hs.len(),
    ensures
        spec_valid_child(net, spec_extended(net, prefix, hs.take(i)), hs[i]),
    decreases hs.len(),
{
    if i == hs.len() - 1 {
        assert(hs.take(i) =~= hs.drop_last());
    } else {
        lemma_all_valid_index(net, prefix, hs.drop_last(), i);
        assert(hs.drop_last().take(i) =~= hs.take(i));
    }
}

/// The total work accumulated by a chain.
pub open spec fn spec_total_work(s: Seq<StoredV>) -> u128 {
    if s.len() == 0 {
        0u128
    } else {
        s.last().cum_work
    }
}

/// The least height whose stored hash equals `ph`.
pub open spec fn spec_is_least_match(s: Seq<StoredV>, ph: Seq<u8>, root: int) -> bool {
    &&& 0 <= root < s.len()
    &&& s[root].hash == ph
    &&& forall|j: int| 0 <= j < root ==> (#[trigger] s[j].hash) != ph
}

/// The first index at which a raw batch fails to decode: everything before
/// it is 80 bytes, it is not.
pub open spec fn spec_first_bad_raw(rv: Seq<Seq<u8>>, i: int) -> bool {
    &&& 0 <= i < rv.len()
    &&& rv[i].len() != 80
    &&& forall|j: int| 0 <= j < i ==> (#[trigger] rv[j]).len() == 80
}

/// The first index at which a batch stops being a valid chain on `prefix`.
pub open spec fn spec_first_invalid(
    net: Network,
    prefix: Seq<StoredV>,
    hs: Seq<HeaderV>,
    i: int,
) -> bool {
    &&& 0 <= i < hs.len()
    &&& spec_all_valid(net, prefix, hs.take(i))
    &&& !spec_valid_child(net, spec_extended(net, prefix, hs.take(i)), hs[i])
}

/// The error owed for a header that is not a valid child of `prefix`, in
/// the order the rules are checked: linkage, proof-of-work, difficulty
/// policy, timestamp policy.
pub open spec fn spec_child_err(
    net: Network,
    prefix: Seq<StoredV>,
    h: HeaderV,
    idx: usize,
) -> LightClientError {
    if h.prev_blockhash != prefix.last().hash {
        LightClientError::UnknownParent { index: idx }
    } else if !spec_pow_ok(spec_block_hash(h), h.bits, net) {
        LightClientError::InsufficientWork { index: idx }
    } else if h.bits != spec_expected_bits(
        net,
        prefix.len() as u64,
        prefix.last().header.bits,
        prefix.last().header.time,
        spec_interval_first_time(prefix),
        h.time,
    ) {
        LightClientError::BadDifficulty { index: idx }
    } else {
        LightClientError::BadTimestamp { index: idx }
    }
}

/// What one accepted batch did.
#[derive(Debug, PartialEq, Eq)]
pub enum ApplyOutcome {
    /// The batch extended the tip; the new headers occupy
    /// `from_height..=to_height` (an empty batch leaves `to_height` below
    /// `from_height`).
    Extended { from_height: u64, to_height: u64 },
    /// A fork won: the canonical headers above the fork root were replaced.
    /// `rolled_back_hashes` are the hashes of the demoted headers, by
    /// ascending height `from_height..`.
    Reorged { from_height: u64, to_height: u64, rolled_back_hashes: Vec<Vec<u8>> },
    /// A fork with insufficient work was retained as a branch, not made
    /// canonical.
    ForkStored { root_height: u64, tip_height: u64 },
}

/// A retained non-canonical branch, rooted at a canonical height.
#[derive(Debug)]
pub struct ForkBranch {
    /// Height of the last canonical header the branch shares.
    pub root_height: u64,
    /// The branch's own headers, starting at `root_height + 1`.
    pub headers: Vec<StoredHeader>,
}

/// The mathematical model of a retained branch.
pub struct ForkBranchV {
    pub root_height: u64,
    pub headers: Seq<StoredV>,
}

impl View for ForkBranch {
    type V = ForkBranchV;

    open spec fn view(&self) -> ForkBranchV {
        ForkBranchV { root_height: self.root_height, headers: views_of(self.headers@) }
    }
}

/// The models of a sequence of retained branches.
pub open spec fn fork_views(s: Seq<ForkBranch>) -> Seq<ForkBranchV> {
    Seq::new(s.len(), |i: int| s[i]@)
}

/// The lowest root height that can still win a reorg against the given tip.
pub open spec fn spec_fork_cutoff(tip: int, depth: u64) -> int {
    if tip - depth > 0 {
        tip - depth
    } else {
        0
    }
}

/// The branches surviving eviction, in their original order: those rooted
/// at or above the cutoff.
pub open spec fn spec_keep_forks(s: Seq<ForkBranchV>, cutoff: int) -> Seq<ForkBranchV>
    decreases s.len(),
{
    if s.len() == 0 {
        s
    } else {
        let p = spec_keep_forks(s.drop_last(), cutoff);
        if s.last().root_height >= cutoff {
            p.push(s.last())
        } else {
            p
        }
    }
}

/// The chain tracker: the canonical chain, the retained fork branches, and
/// the network parameters fixed at initialization.
#[derive(Debug)]
pub struct ChainTracker {
    pub network: Network,
    pub confirmation_depth: u64,
    pub store: HeaderStore,
    pub forks: Vec<ForkBranch>,
}

impl ChainTracker {
    /// The tracker invariant: a non-empty, well-formed canonical chain and a
    /// positive confirmation depth.
    pub open spec fn wf(self) -> bool {
        &&& spec_store_wf(self.network, self.store@)
        &&& self.store@.len() >= 1
        &&& self.confirmation_depth >= 1
    }

    /// The canonical tip height.
    pub open spec fn spec_tip_height(self) -> int {
        self.store@.len() - 1
    }

    /// The contract of `apply_headers`, relating the state before and after
    /// to the submitted batch and the result.
    pub open spec fn spec_apply_contract(
        pre: ChainTracker,
        post: ChainTracker,
        rv: Seq<Seq<u8>>,
        r: Result<ApplyOutcome, LightClientError>,
    ) -> bool {
        let net = pre.network;
        let old_s = pre.store@;
        let hs = spec_decoded(rv);
        let tip = old_s.len() - 1;
        &&& (r is Err ==> post == pre)
        &&& post.network == pre.network
        &&& post.confirmation_depth == pre.confirmation_depth
        &&& (r is Ok ==> spec_total_work(post.store@) >= spec_total_work(old_s))
        &&& (!spec_batch_decodes(rv) ==> (r is Err && exists|i: int|
            #[trigger] spec_first_bad_raw(rv, i) && r->Err_0 == (LightClientError::MalformedHeader {
                index: i as usize,
            })))
        &&& (rv.len() == 0 ==> (r is Ok && post == pre && r->Ok_0 is Extended
            && r->Ok_0->Extended_from_height == old_s.len() && r->Ok_0->Extended_to_height
            == old_s.len() - 1))
        &&& (spec_batch_decodes(rv) && rv.len() > 0 ==> {
            let parent = hs[0].prev_blockhash;
            if parent == old_s.last().hash {
                &&& (spec_all_valid(net, old_s, hs) ==> (r is Ok && r->Ok_0 is Extended
                    && r->Ok_0->Extended_from_height == old_s.len()
                    && r->Ok_0->Extended_to_height == post.store@.len() - 1 && post.store@
                    == spec_extended(net, old_s, hs) && fork_views(post.forks@) == spec_keep_forks(
                    fork_views(pre.forks@),
                    spec_fork_cutoff(post.store@.len() - 1, pre.confirmation_depth),
                )))
                &&& (!spec_all_valid(net, old_s, hs) ==> (r is Err && exists|i: int|
                    #[trigger] spec_first_invalid(net, old_s, hs, i) && r->Err_0 == spec_child_err(
                        net,
                        spec_extended(net, old_s, hs.take(i)),
                        hs[i],
                        i as usize,
                    )))
            } else {
                &&& (forall|root: int|
                    spec_is_least_match(old_s, parent, root) ==> Self::spec_fork_contract(
                        pre,
                        post,
                        hs,
                        root,
                        r,
                    ))
                &&& ((forall|i: int| 0 <= i < old_s.len() ==> (#[trigger] old_s[i].hash) != parent)
                    ==> (r is Err && r->Err_0 is UnknownParent))
            }
        })
    }

    /// The contract of a batch that forks off the canonical header at
    /// `root`: too-deep forks are refused with the state untouched, a
    /// heavier valid fork reorganizes the chain and reports the demoted
    /// hashes, and a lighter valid fork is retained as a branch.
    pub open spec fn spec_fork_contract(
        pre: ChainTracker,
        post: ChainTracker,
        hs: Seq<HeaderV>,
        root: int,
        r: Result<ApplyOutcome, LightClientError>,
    ) -> bool {
        let net = pre.network;
        let old_s = pre.store@;
        let tip = old_s.len() - 1;
        let prefix = old_s.take(root + 1);
        &&& (tip - root > pre.confirmation_depth ==> r == Result::<
            ApplyOutcome,
            LightClientError,
        >::Err(LightClientError::ReorgTooDeep))
        &&& (tip - root <= pre.confirmation_depth ==> {
            &&& (!spec_all_valid(net, prefix, hs) ==> (r is Err && exists|i: int|
                #[trigger] spec_first_invalid(net, prefix, hs, i) && r->Err_0 == spec_child_err(
                    net,
                    spec_extended(net, prefix, hs.take(i)),
                    hs[i],
                    i as usize,
                )))
            &&& (spec_all_valid(net, prefix, hs) ==> {
                let newc = spec_extended(net, prefix, hs);
                if spec_total_work(newc) > spec_total_work(old_s) {
                    &&& r is Ok && r->Ok_0 is Reorged
                    &&& r->Ok_0->Reorged_from_height == root + 1
                    &&& r->Ok_0->Reorged_to_height == post.store@.len() - 1
                    &&& views_of_bytes(r->Ok_0->Reorged_rolled_back_hashes@) == Seq::new(
                        (tip - root) as nat,
                        |i: int| old_s[root + 1 + i].hash,
                    )
                    &&& post.store@ == newc
                    &&& fork_views(post.forks@) == spec_keep_forks(
                        fork_views(pre.forks@).push(
                            ForkBranchV { root_height: root as u64, headers: old_s.skip(root + 1) },
                        ),
                        spec_fork_cutoff(post.store@.len() - 1, pre.confirmation_depth),
                    )
                } else {
                    &&& r is Ok && r->Ok_0 is ForkStored
                    &&& r->Ok_0->ForkStored_root_height == root
                    &&& r->Ok_0->ForkStored_tip_height == root + hs.len()
                    &&& post.store@ == old_s
                    &&& fork_views(post.forks@) == fork_views(pre.forks@).push(
                        ForkBranchV { root_height: root as u64, headers: newc.skip(root + 1) },
                    )
                }
            })
        })
    }
}

impl ChainTracker {
    /// Creates a tracker anchored at the given base header.
    ///
    /// The base must be a well-formed 80-byte header that meets its own
    /// target on the network, and the confirmation depth must be positive;
    /// exactly on such inputs the tracker is created, at height zero.
    pub fn init(net: Network, confirmation_depth: u64, base_raw: &[u8]) -> (r: Result<
        ChainTracker,
        LightClientError,
    >)
        ensures
            r matches Ok(t) ==> t.wf() && t.network == net && t.confirmation_depth
                == confirmation_depth && t.store@.len() == 1 && base_raw@.len() == 80 && t.store@[0].header
                == spec_decode_header(base_raw@) && t.forks@.len() == 0,
            r is Ok <==> (base_raw@.len() == 80 && confirmation_depth >= 1 && spec_pow_ok(
                spec_block_hash(spec_decode_header(base_raw@)),
                spec_decode_header(base_raw@).bits,
                net,
            )),
            r matches Err(e) ==> (e is ConfigError || e is MalformedHeader
                || e is InsufficientWork),
    {
        if confirmation_depth == 0 {
            return Err(LightClientError::ConfigError);
        }
        let h = match BlockHeader::decode(base_raw) {
            Some(h) => h,
            None => { return Err(LightClientError::MalformedHeader { index: 0 }) },
        };
        let hash = block_hash(&h);
        if !meets_target(hash.as_slice(), h.bits, net) {
            return Err(LightClientError::InsufficientWork { index: 0 });
        }
        let work = header_work(h.bits, net);
        let entry = StoredHeader { header: h, hash, work, cum_work: work };
        let mut headers: Vec<StoredHeader> = Vec::new();
        headers.push(entry);
        let t = ChainTracker {
            network: net,
            confirmation_depth,
            store: HeaderStore { headers },
            forks: Vec::new(),
        };
        proof {
            assert(t.store@ =~= seq![t.store@[0]]);
        }
        Ok(t)
    }

    /// Validates and applies one batch of raw headers, atomically.
    ///
    /// See `spec_apply_contract` for the exact behaviour: a valid extension
    /// appends and advances the tip; a valid heavier fork within the
    /// confirmation depth reorganizes the chain; a valid lighter fork is
    /// retained as a branch; everything else is rejected with a typed error
    /// and no state change.
    #[verifier::rlimit(100)]
    #[verifier::spinoff_prover]
    pub fn apply_headers(&mut self, raws: &Vec<Vec<u8>>) -> (r: Result<
        ApplyOutcome,
        LightClientError,
    >)
        requires
            old(self).wf(),
            old(self).store@.len() + raws@.len() <= usize::MAX,
        ensures
            final(self).wf(),
            Self::spec_apply_contract(*old(self), *final(self), views_of_bytes(raws@), r),
    {
        let ghost rv = views_of_bytes(raws@);
        let ghost hs = spec_decoded(rv);
        let ghost old_s = self.store@;
        // decode the whole batch before touching anything
        let decoded = match decode_batch(raws) {
            Ok(d) => d,
            Err(e) => { return Err(e) },
        };
        let n0 = self.store.headers.len();
        if decoded.len() == 0 {
            return Ok(
                ApplyOutcome::Extended { from_height: n0 as u64, to_height: n0 as u64 - 1 },
            );
        }
        // find the attachment point
        let is_ext = bytes_eq(
            decoded[0].prev_blockhash.as_slice(),
            self.store.headers[n0 - 1].hash.as_slice(),
        );
        let ghost parent = hs[0].prev_blockhash;
        if is_ext {
            return self.apply_extension(&decoded);
        }
        let found: Option<u64> = match self.store.get_by_hash(
            decoded[0].prev_blockhash.as_slice(),
        ) {
            Some((h, _)) => Some(h),
            None => None,
        };
        let root: usize = match found {
            Some(h) => h as usize,
            None => {
                return Err(LightClientError::UnknownParent { index: 0 });
            },
        };
        proof {
            assert forall|rt: int| spec_is_least_match(old_s, parent, rt) implies rt
                == root as int by {
                if rt < root as int {
                    assert(old_s[rt].hash != parent);
                }
                if rt > root as int {
                    assert(old_s[root as int].hash != parent);
                }
            }
            assert(spec_is_least_match(old_s, parent, root as int));
        }
        // a fork rooted below the safety window can never win
        if (n0 - 1 - root) as u64 > self.confirmation_depth {
            return Err(LightClientError::ReorgTooDeep);
        }
        self.apply_fork(&decoded, root)
    }

    /// Applies a decoded batch that claims to extend the canonical tip.
    #[verifier::rlimit(100)]
    #[verifier::spinoff_prover]
    fn apply_extension(&mut self, decoded: &Vec<BlockHeader>) -> (r: Result<
        ApplyOutcome,
        LightClientError,
    >)
        requires
            old(self).wf(),
            decoded@.len() >= 1,
            forall|j: int| 0 <= j < decoded@.len() ==> (#[trigger] decoded@[j])@.wf(),
            old(self).store@.len() + decoded@.len() <= usize::MAX,
        ensures
            final(self).wf(),
            final(self).network == old(self).network,
            final(self).confirmation_depth == old(self).confirmation_depth,
            r is Err ==> *final(self) == *old(self),
            ({
                let net = old(self).network;
                let old_s = old(self).store@;
                let hs = header_views(decoded@);
                &&& (spec_all_valid(net, old_s, hs) ==> (r is Ok && r->Ok_0 is Extended
                    && r->Ok_0->Extended_from_height == old_s.len()
                    && r->Ok_0->Extended_to_height == final(self).store@.len() - 1
                    && final(self).store@ == spec_extended(net, old_s, hs) && fork_views(
                    final(self).forks@,
                ) == spec_keep_forks(
                    fork_views(old(self).forks@),
                    spec_fork_cutoff(final(self).store@.len() - 1, old(self).confirmation_depth),
                )))
                &&& (!spec_all_valid(net, old_s, hs) ==> (r is Err && exists|i: int|
                    #[trigger] spec_first_invalid(net, old_s, hs, i) && r->Err_0 == spec_child_err(
                        net,
                        spec_extended(net, old_s, hs.take(i)),
                        hs[i],
                        i as usize,
                    )))
                &&& (r is Ok ==> spec_total_work(final(self).store@) >= spec_total_work(old_s))
            }),
    {
        let net = self.network;
        let ghost old_s = self.store@;
        let n0 = self.store.headers.len();
        let plen: usize = n0;
        proof {
            assert(old_s.take(plen as int) =~= old_s);
        }
        let new_entries = match validate_branch(net, &self.store.headers, plen, &decoded) {
            Ok(es) => es,
            Err(e) => { return Err(e) },
        };
        let from_h = n0 as u64;
        commit_append(&mut self.store, &new_entries);
        proof {
            assert(self.store@ == spec_extended(net, old_s, header_views(decoded@)));
        }
        self.evict_stale_forks();
        Ok(
            ApplyOutcome::Extended {
                from_height: from_h,
                to_height: self.store.headers.len() as u64 - 1,
            },
        )
    }

    /// Applies a decoded batch that forks off the canonical header at
    /// `root`, already known to lie within the confirmation depth.
    #[verifier::rlimit(100)]
    #[verifier::spinoff_prover]
    fn apply_fork(&mut self, decoded: &Vec<BlockHeader>, root: usize) -> (r: Result<
        ApplyOutcome,
        LightClientError,
    >)
        requires
            old(self).wf(),
            decoded@.len() >= 1,
            forall|j: int| 0 <= j < decoded@.len() ==> (#[trigger] decoded@[j])@.wf(),
            old(self).store@.len() + decoded@.len() <= usize::MAX,
            (root as int) < old(self).store@.len() - 1,
        ensures
            final(self).wf(),
            final(self).network == old(self).network,
            final(self).confirmation_depth == old(self).confirmation_depth,
            r is Err ==> *final(self) == *old(self),
            ({
                let net = old(self).network;
                let old_s = old(self).store@;
                let hs = header_views(decoded@);
                let tip = old_s.len() - 1;
                let prefix = old_s.take(root + 1);
                &&& (!spec_all_valid(net, prefix, hs) ==> (r is Err && exists|i: int|
                    #[trigger] spec_first_invalid(net, prefix, hs, i) && r->Err_0 == spec_child_err(
                        net,
                        spec_extended(net, prefix, hs.take(i)),
                        hs[i],
                        i as usize,
                    )))
                &&& (spec_all_valid(net, prefix, hs) ==> {
                    let newc = spec_extended(net, prefix, hs);
                    if spec_total_work(newc) > spec_total_work(old_s) {
                        &&& r is Ok && r->Ok_0 is Reorged
                        &&& r->Ok_0->Reorged_from_height == root + 1
                        &&& r->Ok_0->Reorged_to_height == final(self).store@.len() - 1
                        &&& views_of_bytes(r->Ok_0->Reorged_rolled_back_hashes@) == Seq::new(
                            (tip - root) as nat,
                            |i: int| old_s[root + 1 + i].hash,
                        )
                        &&& final(self).store@ == newc
                        &&& fork_views(final(self).forks@) == spec_keep_forks(
                            fork_views(old(self).forks@).push(
                                (ForkBranchV {
                                    root_height: root as u64,
                                    headers: old_s.skip(root + 1),
                                }),
                            ),
                            spec_fork_cutoff(
                                final(self).store@.len() - 1,
                                old(self).confirmation_depth,
                            ),
                        )
                    } else {
                        &&& r is Ok && r->Ok_0 is ForkStored
                        &&& r->Ok_0->ForkStored_root_height == root
                        &&& r->Ok_0->ForkStored_tip_height == root + hs.len()
                        &&& final(self).store@ == old_s
                        &&& fork_views(final(self).forks@) == fork_views(old(self).forks@).push(
                            (ForkBranchV {
                                root_height: root as u64,
                                headers: newc.skip(root + 1),
                            }),
                        )
                    }
                })
                &&& (r is Ok ==> spec_total_work(final(self).store@) >= spec_total_work(old_s))
            }),
    {
        let net = self.network;
        let ghost old_s = self.store@;
        let ghost hs = header_views(decoded@);
        let n0 = self.store.headers.len();
        let plen: usize = root + 1;
        let ghost prefixv = old_s.take(plen as int);
        let new_entries = match validate_branch(net, &self.store.headers, plen, &decoded) {
            Ok(es) => es,
            Err(e) => { return Err(e) },
        };
        let blen = new_entries.len();
        let branch_cum = new_entries[blen - 1].cum_work;
        let tip_cum = self.store.headers[n0 - 1].cum_work;
        proof {
            assert(branch_cum == spec_total_work(spec_extended(net, prefixv, hs)));
            assert(tip_cum == spec_total_work(old_s));
        }
        if branch_cum > tip_cum {
            // reorg: demote the canonical suffix and adopt the branch
            let (rolled_hashes, demoted) = demote_suffix(&mut self.store, plen);
            commit_append(&mut self.store, &new_entries);
            proof {
                assert(self.store@ == spec_extended(net, prefixv, hs));
                assert(views_of(demoted@) =~= old_s.skip(root as int + 1));
            }
            self.forks.push(ForkBranch { root_height: root as u64, headers: demoted });
            proof {
                assert(fork_views(self.forks@) =~= fork_views(old(self).forks@).push(
                    (ForkBranchV { root_height: root as u64, headers: old_s.skip(root as int + 1) }),
                ));
            }
            self.evict_stale_forks();
            let out = ApplyOutcome::Reorged {
                from_height: plen as u64,
                to_height: self.store.headers.len() as u64 - 1,
                rolled_back_hashes: rolled_hashes,
            };
            proof {
                assert(views_of_bytes(out->Reorged_rolled_back_hashes@) =~= Seq::new(
                    (old_s.len() - 1 - root) as nat,
                    |k: int| old_s[root + 1 + k].hash,
                ));
            }
            return Ok(out);
        }
        // a fork without enough work: retain it as a branch
        proof {
            assert(views_of(new_entries@) =~= spec_extended(net, prefixv, hs).skip(root as int + 1));
        }
        self.forks.push(ForkBranch { root_height: root as u64, headers: new_entries });
        proof {
            assert(fork_views(self.forks@) =~= fork_views(old(self).forks@).push(
                (ForkBranchV {
                    root_height: root as u64,
                    headers: spec_extended(net, prefixv, hs).skip(root as int + 1),
                }),
            ));
        }
        Ok(ApplyOutcome::ForkStored { root_height: root as u64, tip_height: (root + blen) as u64 })
    }

    /// Drops retained branches whose root fell more than the confirmation
    /// depth behind the tip: they can no longer win a reorg.  A branch
    /// rooted exactly at the cutoff is kept, matching what `apply_headers`
    /// still accepts.
    fn evict_stale_forks(&mut self)
        requires
            old(self).store@.len() >= 1,
        ensures
            final(self).store == old(self).store,
            final(self).network == old(self).network,
            final(self).confirmation_depth == old(self).confirmation_depth,
            fork_views(final(self).forks@) == spec_keep_forks(
                fork_views(old(self).forks@),
                spec_fork_cutoff(old(self).store@.len() - 1, old(self).confirmation_depth),
            ),
    {
        let tip_h = self.store.headers.len() as u64 - 1;
        let cutoff: u64 = if tip_h > self.confirmation_depth {
            tip_h - self.confirmation_depth
        } else {
            0
        };
        let ghost orig = self.forks@;
        let n = self.forks.len();
        // reverse into a scratch vector, then filter back in original order
        let mut rev: Vec<ForkBranch> = Vec::new();
        while self.forks.len() > 0
            invariant
                self.store == old(self).store,
                self.network == old(self).network,
                self.confirmation_depth == old(self).confirmation_depth,
                n == orig.len(),
                self.forks@.len() + rev@.len() == n,
                self.forks@ == orig.take(self.forks@.len() as int),
                forall|j: int| 0 <= j < rev@.len() ==> rev@[j] == orig[n - 1 - j],
            decreases self.forks@.len(),
        {
            match self.forks.pop() {
                Some(fb) => {
                    rev.push(fb);
                },
                None => {},
            }
        }
        let mut kept: Vec<ForkBranch> = Vec::new();
        while rev.len() > 0
            invariant
                self.store == old(self).store,
                self.network == old(self).network,
                self.confirmation_depth == old(self).confirmation_depth,
                n == orig.len(),
                rev@.len() <= n,
                cutoff as int == spec_fork_cutoff(
                    old(self).store@.len() - 1,
                    old(self).confirmation_depth,
                ),
                forall|j: int| 0 <= j < rev@.len() ==> rev@[j] == orig[n - 1 - j],
                fork_views(kept@) == spec_keep_forks(
                    fork_views(orig).take(n - rev@.len()),
                    cutoff as int,
                ),
            decreases rev@.len(),
        {
            let ghost i = n - rev@.len();
            proof {
                assert(fork_views(orig).take(i + 1).drop_last() =~= fork_views(orig).take(i));
                assert(rev@.last() == orig[i]);
            }
            match rev.pop() {
                Some(fb) => {
                    if fb.root_height >= cutoff {
                        kept.push(fb);
                        proof {
                            assert(fork_views(kept@) =~= spec_keep_forks(
                                fork_views(orig).take(i + 1),
                                cutoff as int,
                            ));
                        }
                    } else {
                        proof {
                            assert(fork_views(kept@) =~= spec_keep_forks(
                                fork_views(orig).take(i + 1),
                                cutoff as int,
                            ));
                        }
                    }
                },
                None => {},
            }
        }
        self.forks = kept;
        proof {
            assert(fork_views(orig).take(n as int) =~= fork_views(orig));
        }
    }
}

/// The time, difficulty bits and accumulated work of the header at `idx` in
/// the working context: the first `plen` canonical headers followed by the
/// pending branch.
fn ctx_info(
    canon: &Vec<StoredHeader>,
    plen: usize,
    branch: &Vec<StoredHeader>,
    idx: usize,
) -> (r: (u32, u32, u128))
    requires
        plen <= canon@.len(),
        idx < plen + branch@.len(),
    ensures
        ({
            let ctx = views_of(canon@).take(plen as int) + views_of(branch@);
            r.0 == ctx[idx as int].header.time && r.1 == ctx[idx as int].header.bits && r.2
                == ctx[idx as int].cum_work
        }),
{
    if idx < plen {
        let s = &canon[idx];
        (s.header.time, s.header.bits, s.cum_work)
    } else {
        let s = &branch[idx - plen];
        (s.header.time, s.header.bits, s.cum_work)
    }
}

/// Inserts a timestamp into an ascending vector.
fn insert_sorted(v: Vec<u32>, x: u32) -> (r: Vec<u32>)
    ensures
        r@ == spec_insert_sorted(x, v@),
    decreases v@.len(),
{
    let mut v = v;
    let n = v.len();
    if n == 0 {
        v.push(x);
        return v;
    }
    let last = v[n - 1];
    if x >= last {
        v.push(x);
        return v;
    }
    v.pop();
    let mut r = insert_sorted(v, x);
    r.push(last);
    r
}

/// Sorts timestamps ascending by insertion.
fn sort_u32(v: &Vec<u32>) -> (r: Vec<u32>)
    ensures
        r@ == spec_sort_u32(v@),
{
    let mut out: Vec<u32> = Vec::new();
    let mut i: usize = 0;
    while i < v.len()
        invariant
            i <= v@.len(),
            out@ == spec_sort_u32(v@.take(i as int)),
        decreases v@.len() - i,
    {
        proof {
            assert(v@.take(i as int + 1).drop_last() =~= v@.take(i as int));
        }
        out = insert_sorted(out, v[i]);
        i = i + 1;
    }
    proof {
        assert(v@.take(v@.len() as int) =~= v@);
    }
    out
}

/// The median-time-past of the working context.
fn median_time(canon: &Vec<StoredHeader>, plen: usize, branch: &Vec<StoredHeader>) -> (m: u32)
    requires
        1 <= plen <= canon@.len(),
        plen + branch@.len() <= usize::MAX,
    ensures
        m == spec_ctx_mtp(views_of(canon@).take(plen as int) + views_of(branch@)),
{
    let ghost ctx = views_of(canon@).take(plen as int) + views_of(branch@);
    let n: usize = plen + branch.len();
    let k: usize = if n >= 11 {
        11
    } else {
        n
    };
    let mut times: Vec<u32> = Vec::new();
    let mut i: usize = 0;
    while i < k
        invariant
            i <= k <= n,
            k <= 11,
            n == ctx.len(),
            n == plen + branch@.len(),
            1 <= plen <= canon@.len(),
            (n >= 11 ==> k == 11) && (n < 11 ==> k == n),
            ctx == views_of(canon@).take(plen as int) + views_of(branch@),
            times@.len() == i,
            forall|j: int| 0 <= j < i ==> times@[j] == ctx[n - k + j].header.time,
        decreases k - i,
    {
        let info = ctx_info(canon, plen, branch, n - k + i);
        times.push(info.0);
        i = i + 1;
    }
    proof {
        assert(times@ =~= spec_last_times(ctx));
        lemma_sort_len(times@);
    }
    let sorted = sort_u32(&times);
    sorted[k / 2]
}

/// One accepted header extends the validated chain: the recursive spec
/// functions unfold to a push, and the store invariant is preserved.
proof fn lemma_step_extend(
    net: Network,
    prefixv: Seq<StoredV>,
    hs: Seq<HeaderV>,
    i: int,
    cur: Seq<StoredV>,
    entry: StoredV,
)
    requires
        0 <= i < hs.len(),
        cur == spec_extended(net, prefixv, hs.take(i)),
        spec_all_valid(net, prefixv, hs.take(i)),
        spec_store_wf(net, cur),
        cur.len() >= 1,
        entry == spec_extend_entry(net, cur, hs[i]),
        spec_valid_child(net, cur, hs[i]),
        spec_stored_wf(net, entry),
    ensures
        spec_extended(net, prefixv, hs.take(i + 1)) == cur.push(entry),
        spec_all_valid(net, prefixv, hs.take(i + 1)),
        spec_store_wf(net, cur.push(entry)),
{
    assert(hs.take(i + 1).drop_last() =~= hs.take(i));
    assert(hs.take(i + 1).last() == hs[i]);
    let p = cur.push(entry);
    assert forall|q: int| 0 <= q < p.len() implies spec_stored_wf(net, #[trigger] p[q]) by {
        if q < cur.len() {
            assert(p[q] == cur[q]);
        }
    }
    assert forall|q: int| 1 <= q < p.len() implies (#[trigger] p[q].header.prev_blockhash)
        == p[q - 1].hash by {
        if q < cur.len() {
            assert(p[q] == cur[q] && p[q - 1] == cur[q - 1]);
        } else {
            assert(p[q] == entry && p[q - 1] == cur.last());
        }
    }
    assert forall|q: int| 1 <= q < p.len() implies (#[trigger] p[q].cum_work) as nat
        == spec_work_add(p[q - 1].cum_work as nat, p[q].work as nat) by {
        if q < cur.len() {
            assert(p[q] == cur[q] && p[q - 1] == cur[q - 1]);
        } else {
            assert(p[q] == entry && p[q - 1] == cur.last());
        }
    }
}

/// Decodes every raw header of a batch, or reports the first malformed one.
fn decode_batch(raws: &Vec<Vec<u8>>) -> (r: Result<Vec<BlockHeader>, LightClientError>)
    ensures
        r matches Ok(ds) ==> (spec_batch_decodes(views_of_bytes(raws@)) && ds@.len()
            == raws@.len() && header_views(ds@) == spec_decoded(views_of_bytes(raws@)) && (
        forall|j: int| 0 <= j < ds@.len() ==> (#[trigger] ds@[j])@.wf())),
        r is Err ==> !spec_batch_decodes(views_of_bytes(raws@)),
        r matches Err(e) ==> exists|i: int|
            #[trigger] spec_first_bad_raw(views_of_bytes(raws@), i) && e == (
            LightClientError::MalformedHeader { index: i as usize }),
{
    let ghost rv = views_of_bytes(raws@);
    let mut decoded: Vec<BlockHeader> = Vec::new();
    let mut i: usize = 0;
    while i < raws.len()
        invariant
            i <= raws@.len(),
            rv == views_of_bytes(raws@),
            decoded@.len() == i,
            forall|j: int|
                0 <= j < i ==> (#[trigger] decoded@[j])@ == spec_decode_header(rv[j])
                    && decoded@[j]@.wf(),
            forall|j: int| 0 <= j < i ==> (#[trigger] rv[j]).len() == 80,
        decreases raws@.len() - i,
    {
        let h = match BlockHeader::decode(raws[i].as_slice()) {
            Some(h) => h,
            None => {
                proof {
                    assert(spec_first_bad_raw(rv, i as int));
                }
                return Err(LightClientError::MalformedHeader { index: i });
            },
        };
        decoded.push(h);
        i = i + 1;
    }
    proof {
        assert(header_views(decoded@) =~= spec_decoded(rv));
    }
    Ok(decoded)
}

/// Checks one header as the next child of the working context and returns
/// its stored form; `idx` is only reported in errors.
#[verifier::rlimit(100)]
#[verifier::spinoff_prover]
fn validate_one(
    net: Network,
    canon: &Vec<StoredHeader>,
    plen: usize,
    branch: &Vec<StoredHeader>,
    h: &BlockHeader,
    idx: usize,
) -> (r: Result<StoredHeader, LightClientError>)
    requires
        1 <= plen <= canon@.len(),
        plen + branch@.len() < usize::MAX,
        spec_store_wf(net, views_of(canon@).take(plen as int) + views_of(branch@)),
        h@.wf(),
    ensures
        ({
            let cur = views_of(canon@).take(plen as int) + views_of(branch@);
            &&& (r matches Ok(e) ==> e@ == spec_extend_entry(net, cur, h@) && spec_valid_child(
                net,
                cur,
                h@,
            ) && spec_stored_wf(net, e@))
            &&& (r is Err ==> !spec_valid_child(net, cur, h@))
            &&& (r matches Err(e) ==> e == spec_child_err(net, cur, h@, idx))
        }),
{
    let ghost cur = views_of(canon@).take(plen as int) + views_of(branch@);
    proof {
        assert(cur.len() >= 1);
        assert(spec_stored_wf(net, cur.last()));
    }
    let blen = branch.len();
    let clen: usize = plen + blen;
    proof {
        assert(cur.len() == clen);
    }
    // 1. linkage: the header must chain onto the context tip
    let link_ok = if blen == 0 {
        bytes_eq(h.prev_blockhash.as_slice(), canon[plen - 1].hash.as_slice())
    } else {
        bytes_eq(h.prev_blockhash.as_slice(), branch[blen - 1].hash.as_slice())
    };
    proof {
        if blen == 0 {
            assert(cur.last() == views_of(canon@)[plen - 1]);
        } else {
            assert(cur.last() == views_of(branch@).last());
        }
    }
    if !link_ok {
        return Err(LightClientError::UnknownParent { index: idx });
    }
    // 2. proof of work
    let hash = block_hash(h);
    if !meets_target(hash.as_slice(), h.bits, net) {
        return Err(LightClientError::InsufficientWork { index: idx });
    }
    // 3. difficulty policy
    let pinfo = ctx_info(canon, plen, branch, clen - 1);
    let fidx: usize = if clen >= 2016 {
        clen - 2016
    } else {
        0
    };
    let finfo = ctx_info(canon, plen, branch, fidx);
    proof {
        assert(pinfo.1 == cur.last().header.bits);
        assert(finfo.0 == spec_interval_first_time(cur));
        assert(bits_exp(pinfo.1) <= 32);
    }
    let exp = expected_bits(net, clen as u64, pinfo.1, pinfo.0, finfo.0, h.time);
    if h.bits != exp {
        return Err(LightClientError::BadDifficulty { index: idx });
    }
    // 4. timestamp policy
    let m = median_time(canon, plen, branch);
    if h.time <= m || h.time as u64 > m as u64 + MAX_FUTURE_GAP as u64 {
        return Err(LightClientError::BadTimestamp { index: idx });
    }
    // accepted: store it with its work
    let work = header_work(h.bits, net);
    let cum = work_add(pinfo.2, work);
    let entry = StoredHeader { header: h.duplicate(), hash, work, cum_work: cum };
    proof {
        assert(pinfo.2 == cur.last().cum_work);
        assert(entry@ == spec_extend_entry(net, cur, h@));
    }
    Ok(entry)
}

/// Validates a batch of decoded headers as a chain on top of the first
/// `plen` canonical headers, producing the stored entries it would append.
#[verifier::rlimit(100)]
#[verifier::spinoff_prover]
fn validate_branch(
    net: Network,
    canon: &Vec<StoredHeader>,
    plen: usize,
    decoded: &Vec<BlockHeader>,
) -> (r: Result<Vec<StoredHeader>, LightClientError>)
    requires
        1 <= plen <= canon@.len(),
        spec_store_wf(net, views_of(canon@).take(plen as int)),
        forall|j: int| 0 <= j < decoded@.len() ==> (#[trigger] decoded@[j])@.wf(),
        plen + decoded@.len() <= usize::MAX,
    ensures
        ({
            let prefix = views_of(canon@).take(plen as int);
            let hs = header_views(decoded@);
            &&& (r matches Ok(es) ==> (es@.len() == decoded@.len() && prefix + views_of(es@)
                == spec_extended(net, prefix, hs) && spec_all_valid(net, prefix, hs)
                && spec_store_wf(net, prefix + views_of(es@)) && (prefix + views_of(
                es@,
            )).last().cum_work >= prefix.last().cum_work))
            &&& (r is Err ==> !spec_all_valid(net, prefix, hs))
            &&& (r matches Err(e) ==> exists|i: int|
                #[trigger] spec_first_invalid(net, prefix, hs, i) && e == spec_child_err(
                    net,
                    spec_extended(net, prefix, hs.take(i)),
                    hs[i],
                    i as usize,
                ))
        }),
{
    let ghost prefixv = views_of(canon@).take(plen as int);
    let ghost hs = header_views(decoded@);
    let mut new_entries: Vec<StoredHeader> = Vec::new();
    let mut i: usize = 0;
    while i < decoded.len()
        invariant
            1 <= plen <= canon@.len(),
            plen + decoded@.len() <= usize::MAX,
            prefixv == views_of(canon@).take(plen as int),
            hs == header_views(decoded@),
            forall|j: int| 0 <= j < decoded@.len() ==> (#[trigger] decoded@[j])@.wf(),
            i <= decoded@.len(),
            new_entries@.len() == i,
            prefixv + views_of(new_entries@) == spec_extended(net, prefixv, hs.take(i as int)),
            spec_all_valid(net, prefixv, hs.take(i as int)),
            spec_store_wf(net, prefixv + views_of(new_entries@)),
            (prefixv + views_of(new_entries@)).last().cum_work >= prefixv.last().cum_work,
        decreases decoded@.len() - i,
    {
        let ghost cur = prefixv + views_of(new_entries@);
        let entry = match validate_one(net, canon, plen, &new_entries, &decoded[i], i) {
            Ok(e) => e,
            Err(e) => {
                proof {
                    if spec_all_valid(net, prefixv, hs) {
                        lemma_all_valid_index(net, prefixv, hs, i as int);
                    }
                    assert(spec_first_invalid(net, prefixv, hs, i as int));
                }
                return Err(e);
            },
        };
        proof {
            lemma_step_extend(net, prefixv, hs, i as int, cur, entry@);
            assert(prefixv + views_of(new_entries@.push(entry)) =~= cur.push(entry@));
        }
        new_entries.push(entry);
        i = i + 1;
    }
    proof {
        assert(hs.take(hs.len() as int) =~= hs);
    }
    Ok(new_entries)
}

/// Appends validated entries to the canonical chain.
fn commit_append(store: &mut HeaderStore, entries: &Vec<StoredHeader>)
    ensures
        final(store)@ == old(store)@ + views_of(entries@),
{
    let ghost base = store@;
    let mut j: usize = 0;
    while j < entries.len()
        invariant
            j <= entries@.len(),
            base == old(store)@,
            store@ =~= base + views_of(entries@).take(j as int),
        decreases entries@.len() - j,
    {
        let ghost pre = store@;
        let e = entries[j].duplicate();
        let ghost ev = e@;
        store.headers.push(e);
        j = j + 1;
        proof {
            assert(store@ =~= pre.push(ev));
            assert(views_of(entries@).take(j as int) =~= views_of(entries@).take(
                j as int - 1,
            ).push(entries@[j - 1]@));
            assert(store@ =~= base + views_of(entries@).take(j as int));
        }
    }
    proof {
        assert(base + views_of(entries@).take(entries@.len() as int) =~= base + views_of(
            entries@,
        ));
    }
}

/// Removes the canonical suffix above `plen - 1`, returning the demoted
/// headers' hashes and the demoted headers themselves.
fn demote_suffix(store: &mut HeaderStore, plen: usize) -> (r: (Vec<Vec<u8>>, Vec<StoredHeader>))
    requires
        1 <= plen <= old(store)@.len(),
    ensures
        final(store)@ == old(store)@.take(plen as int),
        r.0@.len() == old(store)@.len() - plen,
        r.1@.len() == old(store)@.len() - plen,
        forall|k: int|
            0 <= k < r.0@.len() ==> (#[trigger] r.0@[k])@ == old(store)@[plen + k].hash,
        forall|k: int| 0 <= k < r.1@.len() ==> (#[trigger] r.1@[k])@ == old(store)@[plen + k],
{
    let ghost old_s = store@;
    let n0 = store.headers.len();
    let mut rolled_hashes: Vec<Vec<u8>> = Vec::new();
    let mut demoted: Vec<StoredHeader> = Vec::new();
    let mut j: usize = plen;
    while j < n0
        invariant
            old_s == store@,
            n0 == old_s.len(),
            plen <= j <= n0,
            rolled_hashes@.len() == j - plen,
            demoted@.len() == j - plen,
            forall|k: int|
                0 <= k < rolled_hashes@.len() ==> (#[trigger] rolled_hashes@[k])@ == old_s[plen
                    + k].hash,
            forall|k: int| 0 <= k < demoted@.len() ==> (#[trigger] demoted@[k])@ == old_s[plen + k],
        decreases n0 - j,
    {
        rolled_hashes.push(slice_to_vec(store.headers[j].hash.as_slice()));
        demoted.push(store.headers[j].duplicate());
        j = j + 1;
    }
    store.headers.truncate(plen);
    proof {
        assert(store@ =~= old_s.take(plen as int));
    }
    (rolled_hashes, demoted)
}

} // verus!
