//! The finality tracker: checkpoint epochs anchored in the header chain,
//! advanced as the canonical tip grows and reorgs occur.
//!
//! An epoch is `Submitted` once its anchoring headers are observed in the
//! canonical chain, `Confirmed` once its anchoring height is buried by the
//! confirmation depth, and `Finalized` once it is confirmed and — when
//! cross-chain notification is enabled — an external acknowledgment has been
//! recorded.  A reorg that rolls back a not-yet-confirmed epoch's anchor
//! orphans it; finalized epochs are never orphaned.

use vstd::prelude::*;

use crate::errors::LightClientError;

verus! {

/// The lifecycle of a checkpoint epoch.
#[derive(Debug, Clone, Copy, PartialEq, Eq, Structural)]
pub enum EpochStatus {
    /// Anchoring headers observed in the canonical chain.
    Submitted,
    /// The anchoring height is at least the confirmation depth below the tip.
    Confirmed,
    /// Confirmed, and acknowledged externally where notification is enabled.
    Finalized,
    /// A reorg rolled the anchor back before the epoch was confirmed.
    Orphaned,
}

/// One checkpoint epoch: its number, the height range of its anchoring
/// headers, whether an external acknowledgment arrived, and its status.
#[derive(Debug, Clone, Copy, PartialEq, Eq, Structural)]
pub struct Epoch {
    pub epoch_number: u64,
    pub first_height: u64,
    pub last_height: u64,
    pub acked: bool,
    pub status: EpochStatus,
}

/// Whether the epoch's anchor is buried by the confirmation depth.
pub open spec fn spec_buried(e: Epoch, tip: u64, depth: u64) -> bool {
    e.last_height + depth <= tip
}

/// The status an epoch holds after the chain reaches `tip`: submitted and
/// confirmed epochs confirm once buried, and a confirmed epoch finalizes
/// once acknowledged (or at once when notification is disabled).  Orphaned
/// and finalized epochs never change.
pub open spec fn spec_next_status(e: Epoch, tip: u64, depth: u64, notify: bool) -> EpochStatus {
    match e.status {
        EpochStatus::Orphaned => EpochStatus::Orphaned,
        EpochStatus::Finalized => EpochStatus::Finalized,
        EpochStatus::Submitted => if spec_buried(e, tip, depth) {
            if e.acked || !notify {
                EpochStatus::Finalized
            } else {
                EpochStatus::Confirmed
            }
        } else {
            EpochStatus::Submitted
        },
        EpochStatus::Confirmed => if e.acked || !notify {
            EpochStatus::Finalized
        } else {
            EpochStatus::Confirmed
        },
    }
}

/// An epoch reaches `Confirmed` (or beyond) exactly when its anchoring
/// height is buried by the confirmation depth, and reaches `Finalized` only
/// once an acknowledgment is additionally recorded while notification is
/// enabled.
pub proof fn lemma_confirmation_exact(e: Epoch, tip: u64, depth: u64, notify: bool)
    requires
        e.status is Submitted,
    ensures
        (spec_next_status(e, tip, depth, notify) is Confirmed || spec_next_status(
            e,
            tip,
            depth,
            notify,
        ) is Finalized) <==> spec_buried(e, tip, depth),
        notify ==> (spec_next_status(e, tip, depth, notify) is Finalized <==> spec_buried(
            e,
            tip,
            depth,
        ) && e.acked),
{
}

/// An epoch after a reorg that rolled the canonical chain back to
/// `rollback_root`: an epoch not yet confirmed whose anchor lies above the
/// root is orphaned; confirmed and finalized epochs are untouched.
pub open spec fn spec_after_reorg(e: Epoch, rollback_root: u64) -> Epoch {
    if e.status is Submitted && e.last_height > rollback_root {
        Epoch { status: EpochStatus::Orphaned, ..e }
    } else {
        e
    }
}

/// The epoch registry, keyed by contiguous epoch numbers starting at the
/// base.
#[derive(Debug)]
pub struct FinalityTracker {
    pub base_epoch_number: u64,
    pub epochs: Vec<Epoch>,
    /// Whether finalization waits for a cross-chain acknowledgment.
    pub notify: bool,
}

impl FinalityTracker {
    /// Epoch numbers are contiguous from the base.
    pub open spec fn wf(self) -> bool {
        &&& forall|i: int|
            0 <= i < self.epochs@.len() ==> (#[trigger] self.epochs@[i]).epoch_number
                == self.base_epoch_number + i
        &&& self.base_epoch_number + self.epochs@.len() <= u64::MAX
    }

    /// An empty registry starting at the given epoch number.
    pub fn new(base_epoch_number: u64, notify: bool) -> (r: FinalityTracker)
        ensures
            r.wf(),
            r.epochs@.len() == 0,
            r.base_epoch_number == base_epoch_number,
            r.notify == notify,
    {
        FinalityTracker { base_epoch_number, epochs: Vec::new(), notify }
    }

    /// Records that an epoch's anchoring headers were observed in the
    /// canonical chain.
    ///
    /// The next epoch number is appended as `Submitted`; observing an
    /// already-tracked live epoch changes nothing; any other number is
    /// refused with `NotFound`.  An orphaned epoch is re-anchored to
    /// `Submitted`: its checkpoint was rolled back before confirmation, so a
    /// fresh observation on the new canonical chain restarts its lifecycle.
    /// This is the one deliberate exit from `Orphaned`.
    pub fn observe_checkpoint(&mut self, epoch_number: u64, first_height: u64, last_height: u64)
        -> (r: Result<(), LightClientError>)
        requires
            old(self).wf(),
            first_height <= last_height,
        ensures
            final(self).wf(),
            final(self).base_epoch_number == old(self).base_epoch_number,
            final(self).notify == old(self).notify,
            r is Err ==> *final(self) == *old(self) && r->Err_0 == LightClientError::NotFound,
            r is Ok <==> (old(self).base_epoch_number <= epoch_number < old(
                self,
            ).base_epoch_number + old(self).epochs@.len() || (epoch_number == old(
                self,
            ).base_epoch_number + old(self).epochs@.len() && epoch_number < u64::MAX)),
            (epoch_number == old(self).base_epoch_number + old(self).epochs@.len() && epoch_number
                < u64::MAX) ==> final(self).epochs@ == old(self).epochs@.push(
                Epoch {
                    epoch_number,
                    first_height,
                    last_height,
                    acked: false,
                    status: EpochStatus::Submitted,
                },
            ),
            (old(self).base_epoch_number <= epoch_number < old(self).base_epoch_number + old(
                self,
            ).epochs@.len()) ==> {
                let i = epoch_number - old(self).base_epoch_number;
                if old(self).epochs@[i as int].status is Orphaned {
                    final(self).epochs@ == old(self).epochs@.update(
                        i as int,
                        Epoch {
                            epoch_number,
                            first_height,
                            last_height,
                            acked: old(self).epochs@[i as int].acked,
                            status: EpochStatus::Submitted,
                        },
                    )
                } else {
                    final(self).epochs@ == old(self).epochs@
                }
            },
    {
        let n = self.epochs.len();
        if epoch_number < self.base_epoch_number {
            return Err(LightClientError::NotFound);
        }
        let off = epoch_number - self.base_epoch_number;
        if off > n as u64 {
            return Err(LightClientError::NotFound);
        }
        if off == n as u64 {
            // u64::MAX as an epoch number would break contiguity
            proof {
                assert(self.base_epoch_number + n < u64::MAX || epoch_number == u64::MAX);
            }
            if epoch_number == u64::MAX {
                return Err(LightClientError::NotFound);
            }
            self.epochs.push(
                Epoch {
                    epoch_number,
                    first_height,
                    last_height,
                    acked: false,
                    status: EpochStatus::Submitted,
                },
            );
            return Ok(());
        }
        let i = off as usize;
        let e = self.epochs[i];
        if matches!(e.status, EpochStatus::Orphaned) {
            let updated = Epoch {
                epoch_number,
                first_height,
                last_height,
                acked: e.acked,
                status: EpochStatus::Submitted,
            };
            self.epochs.set(i, updated);
        }
        Ok(())
    }

    /// Re-evaluates every epoch against the new canonical tip.
    pub fn advance(&mut self, tip: u64, depth: u64)
        requires
            old(self).wf(),
        ensures
            final(self).wf(),
            final(self).base_epoch_number == old(self).base_epoch_number,
            final(self).notify == old(self).notify,
            final(self).epochs@.len() == old(self).epochs@.len(),
            forall|i: int|
                0 <= i < old(self).epochs@.len() ==> (#[trigger] final(self).epochs@[i]) == (Epoch {
                    status: spec_next_status(old(self).epochs@[i], tip, depth, old(self).notify),
                    ..old(self).epochs@[i]
                }),
    {
        let n = self.epochs.len();
        let notify = self.notify;
        let mut i: usize = 0;
        while i < n
            invariant
                i <= n,
                n == self.epochs@.len(),
                self.base_epoch_number == old(self).base_epoch_number,
                self.notify == old(self).notify,
                notify == old(self).notify,
                forall|j: int|
                    i <= j < n ==> (#[trigger] self.epochs@[j]) == old(self).epochs@[j],
                forall|j: int|
                    0 <= j < i ==> (#[trigger] self.epochs@[j]) == (Epoch {
                        status: spec_next_status(old(self).epochs@[j], tip, depth, notify),
                        ..old(self).epochs@[j]
                    }),
            decreases n - i,
        {
            let e = self.epochs[i];
            let buried = depth <= u64::MAX - e.last_height && e.last_height + depth <= tip;
            let ns = match e.status {
                EpochStatus::Orphaned => EpochStatus::Orphaned,
                EpochStatus::Finalized => EpochStatus::Finalized,
                EpochStatus::Submitted => if buried {
                    if e.acked || !notify {
                        EpochStatus::Finalized
                    } else {
                        EpochStatus::Confirmed
                    }
                } else {
                    EpochStatus::Submitted
                },
                EpochStatus::Confirmed => if e.acked || !notify {
                    EpochStatus::Finalized
                } else {
                    EpochStatus::Confirmed
                },
            };
            self.epochs.set(i, Epoch { status: ns, ..e });
            i = i + 1;
        }
    }

    /// Marks not-yet-confirmed epochs whose anchors were rolled back by a
    /// reorg as orphaned.
    pub fn on_reorg(&mut self, rollback_root: u64)
        requires
            old(self).wf(),
        ensures
            final(self).wf(),
            final(self).base_epoch_number == old(self).base_epoch_number,
            final(self).notify == old(self).notify,
            final(self).epochs@.len() == old(self).epochs@.len(),
            forall|i: int|
                0 <= i < old(self).epochs@.len() ==> (#[trigger] final(self).epochs@[i])
                    == spec_after_reorg(old(self).epochs@[i], rollback_root),
    {
        let n = self.epochs.len();
        let mut i: usize = 0;
        while i < n
            invariant
                i <= n,
                n == self.epochs@.len(),
                self.base_epoch_number == old(self).base_epoch_number,
                self.notify == old(self).notify,
                forall|j: int|
                    i <= j < n ==> (#[trigger] self.epochs@[j]) == old(self).epochs@[j],
                forall|j: int|
                    0 <= j < i ==> (#[trigger] self.epochs@[j]) == spec_after_reorg(
                        old(self).epochs@[j],
                        rollback_root,
                    ),
            decreases n - i,
        {
            let e = self.epochs[i];
            if matches!(e.status, EpochStatus::Submitted) && e.last_height > rollback_root {
                self.epochs.set(i, Epoch { status: EpochStatus::Orphaned, ..e });
            }
            i = i + 1;
        }
    }

    /// Records an external acknowledgment for an epoch; a confirmed epoch
    /// finalizes at once when notification is enabled.
    pub fn record_ack(&mut self, epoch_number: u64) -> (r: Result<(), LightClientError>)
        requires
            old(self).wf(),
        ensures
            final(self).wf(),
            final(self).base_epoch_number == old(self).base_epoch_number,
            final(self).notify == old(self).notify,
            r is Err ==> *final(self) == *old(self) && r->Err_0 == LightClientError::NotFound,
            r is Ok <==> old(self).base_epoch_number <= epoch_number < old(
                self,
            ).base_epoch_number + old(self).epochs@.len(),
            r is Ok ==> {
                let i = epoch_number - old(self).base_epoch_number;
                let e = old(self).epochs@[i as int];
                final(self).epochs@ == old(self).epochs@.update(
                    i as int,
                    Epoch {
                        acked: true,
                        status: if e.status is Confirmed {
                            EpochStatus::Finalized
                        } else {
                            e.status
                        },
                        ..e
                    },
                )
            },
    {
        let n = self.epochs.len();
        if epoch_number < self.base_epoch_number {
            return Err(LightClientError::NotFound);
        }
        let off = epoch_number - self.base_epoch_number;
        if off >= n as u64 {
            return Err(LightClientError::NotFound);
        }
        let i = off as usize;
        let e = self.epochs[i];
        let ns = match e.status {
            EpochStatus::Confirmed => EpochStatus::Finalized,
            s => s,
        };
        self.epochs.set(i, Epoch { acked: true, status: ns, ..e });
        Ok(())
    }

    /// The base (earliest tracked) epoch.
    pub fn base_epoch(&self) -> (r: Option<&Epoch>)
        ensures
            r is Some <==> self.epochs@.len() > 0,
            r matches Some(e) ==> *e == self.epochs@[0],
    {
        if self.epochs.len() > 0 {
            Some(&self.epochs[0])
        } else {
            None
        }
    }

    /// The highest-numbered finalized epoch.
    pub fn last_finalized_epoch(&self) -> (r: Option<&Epoch>)
        ensures
            r is Some <==> (exists|i: int|
                0 <= i < self.epochs@.len() && (#[trigger] self.epochs@[i].status) is Finalized),
            r matches Some(e) ==> (exists|i: int|
                0 <= i < self.epochs@.len() && *e == self.epochs@[i] && (#[trigger] self.epochs@[i].status) is Finalized
                    && (forall|j: int|
                    i < j < self.epochs@.len() ==> !((#[trigger] self.epochs@[j].status)
                        is Finalized))),
    {
        let n = self.epochs.len();
        let mut i: usize = n;
        while i > 0
            invariant
                i <= n,
                n == self.epochs@.len(),
                forall|j: int|
                    i <= j < n ==> !((#[trigger] self.epochs@[j].status) is Finalized),
            decreases i,
        {
            i = i - 1;
            if matches!(self.epochs[i].status, EpochStatus::Finalized) {
                return Some(&self.epochs[i]);
            }
        }
        None
    }

    /// The epoch with the given number, or `None` when it is not tracked.
    pub fn epoch(&self, epoch_number: u64) -> (r: Option<&Epoch>)
        requires
            self.wf(),
        ensures
            r is Some <==> self.base_epoch_number <= epoch_number < self.base_epoch_number
                + self.epochs@.len(),
            r matches Some(e) ==> *e == self.epochs@[epoch_number - self.base_epoch_number]
                && e.epoch_number == epoch_number,
    {
        if epoch_number < self.base_epoch_number {
            return None;
        }
        let off = epoch_number - self.base_epoch_number;
        if off >= self.epochs.len() as u64 {
            return None;
        }
        Some(&self.epochs[off as usize])
    }
}

} // verus!
