//! The header store: the canonical chain as a height-indexed sequence of
//! headers, each with its hash and its accumulated work, with lookups by
//! height and by hash and an ordered, paginated range query.
//!
//! The store holds exactly the canonical chain: the header at index `h` is
//! the canonical header at height `h`.  All writes go through the chain
//! tracker, atomically with validation.

use vstd::prelude::*;
use vstd::slice::{slice_index_get, slice_to_vec};

use crate::codec::{spec_block_hash, BlockHeader, HeaderV};
use crate::pow::{spec_compact_valid, spec_header_work, spec_work_add, Network};

verus! {

/// The largest number of headers one range query returns.
pub const MAX_RANGE_LIMIT: u32 = 30;

/// A header as stored: the header itself, its hash, its own work and the
/// work accumulated from the base up to and including it.
#[derive(Debug)]
pub struct StoredHeader {
    pub header: BlockHeader,
    pub hash: Vec<u8>,
    pub work: u128,
    pub cum_work: u128,
}

/// The mathematical model of a stored header.
pub struct StoredV {
    pub header: HeaderV,
    pub hash: Seq<u8>,
    pub work: u128,
    pub cum_work: u128,
}

impl View for StoredHeader {
    type V = StoredV;

    open spec fn view(&self) -> StoredV {
        StoredV {
            header: self.header@,
            hash: self.hash@,
            work: self.work,
            cum_work: self.cum_work,
        }
    }
}

impl StoredHeader {
    /// An equal, independently owned copy.
    pub fn duplicate(&self) -> (r: StoredHeader)
        ensures
            r@ == self@,
    {
        StoredHeader {
            header: self.header.duplicate(),
            hash: slice_to_vec(self.hash.as_slice()),
            work: self.work,
            cum_work: self.cum_work,
        }
    }
}

/// A stored entry is internally consistent: well-formed header, the hash of
/// that header, and the work its difficulty bits stand for.
pub open spec fn spec_stored_wf(net: Network, s: StoredV) -> bool {
    &&& s.header.wf()
    &&& s.hash == spec_block_hash(s.header)
    &&& s.hash.len() == 32
    &&& s.work as nat == spec_header_work(s.header.bits, net)
    &&& spec_compact_valid(s.header.bits, net)
}

/// The store invariant: every entry consistent, consecutive entries linked
/// by previous-hash, and accumulated work summed with saturation from the
/// base.
pub open spec fn spec_store_wf(net: Network, s: Seq<StoredV>) -> bool {
    &&& forall|i: int| 0 <= i < s.len() ==> spec_stored_wf(net, #[trigger] s[i])
    &&& forall|i: int| 1 <= i < s.len() ==> (#[trigger] s[i].header.prev_blockhash) == s[i - 1].hash
    &&& forall|i: int|
        1 <= i < s.len() ==> (#[trigger] s[i].cum_work) as nat == spec_work_add(
            s[i - 1].cum_work as nat,
            s[i].work as nat,
        )
    &&& s.len() > 0 ==> s[0].cum_work == s[0].work
}

/// When stored hashes are pairwise distinct, looking a header up by the
/// hash stored at a height finds exactly that height: the by-height and
/// by-hash indexes agree on every header.  (Two stored headers share a hash
/// only on a hash collision.)
pub proof fn lemma_lookup_agree(s: Seq<StoredV>, h: int)
    requires
        0 <= h < s.len(),
        forall|i: int, j: int|
            0 <= i < j < s.len() ==> (#[trigger] s[i].hash) != (#[trigger] s[j].hash),
    ensures
        forall|i: int| 0 <= i < s.len() && (#[trigger] s[i].hash) == s[h].hash ==> i == h,
{
}

/// Whether two byte strings are equal.
pub fn bytes_eq(a: &[u8], b: &[u8]) -> (r: bool)
    ensures
        r == (a@ == b@),
{
    if a.len() != b.len() {
        return false;
    }
    let n = a.len();
    let mut i: usize = 0;
    while i < n
        invariant
            n == a@.len() == b@.len(),
            i <= n,
            forall|j: int| 0 <= j < i ==> a@[j] == b@[j],
        decreases n - i,
    {
        if *slice_index_get(a, i) != *slice_index_get(b, i) {
            return false;
        }
        i = i + 1;
    }
    proof {
        assert(a@ =~= b@);
    }
    true
}

/// The models of a sequence of stored headers.
pub open spec fn views_of(s: Seq<StoredHeader>) -> Seq<StoredV> {
    Seq::new(s.len(), |i: int| s[i]@)
}

/// The canonical chain, owned exclusively by the store.
#[derive(Debug)]
pub struct HeaderStore {
    pub headers: Vec<StoredHeader>,
}

impl View for HeaderStore {
    type V = Seq<StoredV>;

    open spec fn view(&self) -> Seq<StoredV> {
        views_of(self.headers@)
    }
}

impl HeaderStore {
    /// The height of the canonical tip; the store is never empty once
    /// initialized.
    pub open spec fn spec_tip_height(self) -> int {
        self@.len() - 1
    }

    /// How many headers the store holds.
    pub fn len(&self) -> (r: usize)
        ensures
            r == self@.len(),
    {
        self.headers.len()
    }

    /// The canonical header at a height, or `None` past the tip.
    pub fn get_by_height(&self, height: u64) -> (r: Option<&StoredHeader>)
        ensures
            r is Some <==> (height as int) < self@.len(),
            r matches Some(h) ==> h@ == self@[height as int],
    {
        if height < self.headers.len() as u64 {
            Some(&self.headers[height as usize])
        } else {
            None
        }
    }

    /// The lowest-height canonical header carrying the given hash, with its
    /// height, or `None` when no stored header matches.
    pub fn get_by_hash(&self, hash: &[u8]) -> (r: Option<(u64, &StoredHeader)>)
        ensures
            r is Some <==> (exists|i: int| 0 <= i < self@.len() && (#[trigger] self@[i].hash)
                == hash@),
            r matches Some((h, sh)) ==> (h as int) < self@.len() && self@[h as int].hash == hash@
                && sh@ == self@[h as int] && (forall|j: int|
                0 <= j < h as int ==> (#[trigger] self@[j].hash) != hash@),
    {
        let n = self.headers.len();
        let mut i: usize = 0;
        while i < n
            invariant
                n == self@.len(),
                i <= n,
                forall|j: int| 0 <= j < i ==> (#[trigger] self@[j].hash) != hash@,
            decreases n - i,
        {
            if bytes_eq(self.headers[i].hash.as_slice(), hash) {
                proof {
                    assert(self@[i as int].hash == hash@);
                }
                return Some((i as u64, &self.headers[i]));
            }
            i = i + 1;
        }
        None
    }

    /// Where an ascending range starts: just above `start_after`, or at the
    /// base when it is absent.
    pub open spec fn spec_range_start_asc(start_after: Option<u64>) -> int {
        match start_after {
            Option::None => 0,
            Option::Some(h) => h + 1,
        }
    }

    /// Where a descending range starts: just below `start_after` (clamped to
    /// the tip), or at the tip when it is absent.
    pub open spec fn spec_range_start_desc(len: int, start_after: Option<u64>) -> int {
        match start_after {
            Option::None => len - 1,
            Option::Some(h) => if (h as int) <= len {
                h - 1
            } else {
                len - 1
            },
        }
    }

    /// The effective limit: the requested one, clamped to `MAX_RANGE_LIMIT`.
    pub open spec fn spec_range_limit(limit: u32) -> int {
        if limit > MAX_RANGE_LIMIT {
            MAX_RANGE_LIMIT as int
        } else {
            limit as int
        }
    }

    /// How many headers the range returns.
    pub open spec fn spec_range_count(len: int, start_after: Option<u64>, limit: u32, reverse: bool) -> int {
        let l = Self::spec_range_limit(limit);
        if !reverse {
            let s = Self::spec_range_start_asc(start_after);
            if s >= len {
                0
            } else if len - s < l {
                len - s
            } else {
                l
            }
        } else {
            let f = Self::spec_range_start_desc(len, start_after);
            if f < 0 {
                0
            } else if f + 1 < l {
                f + 1
            } else {
                l
            }
        }
    }

    /// An ordered page of canonical headers.
    ///
    /// `start_after` is exclusive; the page runs ascending by height unless
    /// `reverse` is set, and holds at most `MAX_RANGE_LIMIT` headers (a
    /// larger request is clamped, never rejected).
    pub fn range(&self, start_after: Option<u64>, limit: u32, reverse: bool) -> (r: Vec<
        StoredHeader,
    >)
        ensures
            r@.len() == Self::spec_range_count(self@.len() as int, start_after, limit, reverse),
            !reverse ==> forall|i: int|
                0 <= i < r@.len() ==> (#[trigger] r@[i])@ == self@[Self::spec_range_start_asc(
                    start_after,
                ) + i],
            reverse ==> forall|i: int|
                0 <= i < r@.len() ==> (#[trigger] r@[i])@ == self@[Self::spec_range_start_desc(
                    self@.len() as int,
                    start_after,
                ) - i],
    {
        let l: usize = if limit > MAX_RANGE_LIMIT {
            MAX_RANGE_LIMIT as usize
        } else {
            limit as usize
        };
        let n = self.headers.len();
        let mut out: Vec<StoredHeader> = Vec::new();
        if !reverse {
            let start: usize = match start_after {
                Option::None => 0,
                Option::Some(h) => {
                    if h >= n as u64 {
                        return out;
                    }
                    (h + 1) as usize
                },
            };
            let mut i: usize = start;
            while i < n && i - start < l
                invariant
                    n == self@.len(),
                    start <= i <= n,
                    i - start <= l,
                    l as int == Self::spec_range_limit(limit),
                    start as int == Self::spec_range_start_asc(start_after),
                    out@.len() == i - start,
                    forall|k: int|
                        0 <= k < out@.len() ==> (#[trigger] out@[k])@ == self@[start + k],
                decreases n - i,
            {
                out.push(self.headers[i].duplicate());
                i = i + 1;
            }
            out
        } else {
            // `first_plus` is one above the height the page starts at
            let first_plus: u64 = match start_after {
                Option::None => n as u64,
                Option::Some(h) => {
                    if h <= n as u64 {
                        h
                    } else {
                        n as u64
                    }
                },
            };
            if first_plus == 0 {
                return out;
            }
            let f: usize = (first_plus - 1) as usize;
            let cnt: usize = if f + 1 < l {
                f + 1
            } else {
                l
            };
            let mut c: usize = 0;
            while c < cnt
                invariant
                    n == self@.len(),
                    f < n,
                    f as int == Self::spec_range_start_desc(self@.len() as int, start_after),
                    cnt as int == Self::spec_range_count(
                        self@.len() as int,
                        start_after,
                        limit,
                        true,
                    ),
                    c <= cnt,
                    cnt <= f + 1,
                    out@.len() == c,
                    forall|k: int| 0 <= k < out@.len() ==> (#[trigger] out@[k])@ == self@[f - k],
                decreases cnt - c,
            {
                out.push(self.headers[f - c].duplicate());
                c = c + 1;
            }
            out
        }
    }
}

} // verus!
