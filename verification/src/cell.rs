//! Transactional memory cells and their version/lock words.
//!
//! A cell is an addressable shared memory location: a version/lock word plus
//! a word-granular byte store for its current value. The write log never owns
//! cells; commit-protocol operations receive the cell table and address cells
//! by index.

use vstd::prelude::*;

verus! {

/// Mathematical state of a version/lock word: whether some transaction holds
/// the cell's lock, and the epoch of the last published version.
pub ghost struct LockModel {
    pub locked: bool,
    pub epoch: u64,
}

/// A cell's version/lock word.
///
/// Locking is strictly non-blocking: acquisition either succeeds immediately
/// or reports contention, and contention handling belongs to the caller.
/// The word is the only state that concurrent transactions contend on; in
/// the running system it is accessed atomically — acquire on a successful
/// acquisition, release on every unlock and publish — so that a reader who
/// observes a published version also observes the published value. The model
/// here captures the word's state and the protocol over it.
pub struct EpochLock {
    locked: bool,
    epoch: u64,
}

impl View for EpochLock {
    type V = LockModel;

    closed spec fn view(&self) -> LockModel {
        LockModel { locked: self.locked, epoch: self.epoch }
    }
}

impl EpochLock {
    /// A fresh, unlocked word stamped with the given version epoch.
    pub fn new(epoch: u64) -> (r: Self)
        ensures
            r@ == (LockModel { locked: false, epoch }),
    {
        EpochLock { locked: false, epoch }
    }

    /// Attempts to acquire the lock on behalf of a transaction whose snapshot
    /// is `pin_epoch`: a try-lock compare-exchange, acquire on success.
    /// Succeeds exactly when the word is unlocked and its version does not
    /// postdate the snapshot; on failure the word is left untouched and the
    /// caller holds nothing.
    pub fn try_lock(&mut self, pin_epoch: u64) -> (r: bool)
        ensures
            r == (!old(self)@.locked && old(self)@.epoch <= pin_epoch),
            r ==> final(self)@ == (LockModel { locked: true, epoch: old(self)@.epoch }),
            !r ==> final(self)@ == old(self)@,
    {
        if !self.locked && self.epoch <= pin_epoch {
            self.locked = true;
            true
        } else {
            false
        }
    }

    /// Releases the lock without changing the version: a release-ordered
    /// store of the unlocked word.
    pub fn unlock(&mut self)
        requires
            old(self)@.locked,
        ensures
            final(self)@ == (LockModel { locked: false, epoch: old(self)@.epoch }),
    {
        self.locked = false;
    }

    /// Atomically stamps the given commit epoch and releases the lock in one
    /// release-ordered store, making the new version simultaneously visible
    /// and unlocked.
    pub fn unlock_as_epoch(&mut self, epoch: u64)
        requires
            old(self)@.locked,
        ensures
            final(self)@ == (LockModel { locked: false, epoch }),
    {
        self.epoch = epoch;
        self.locked = false;
    }

    /// Whether the version is still compatible with the given snapshot: no
    /// other transaction has published a newer version since the snapshot was
    /// taken.
    pub fn read_write_valid(&self, pin_epoch: u64) -> (r: bool)
        ensures
            r == (self@.epoch <= pin_epoch),
    {
        self.epoch <= pin_epoch
    }

    /// Whether some transaction currently holds the lock.
    pub fn is_locked(&self) -> (r: bool)
        ensures
            r == self@.locked,
    {
        self.locked
    }

    /// The epoch of the last published version.
    pub fn epoch(&self) -> (r: u64)
        ensures
            r == self@.epoch,
    {
        self.epoch
    }
}

/// Mathematical state of a transactional cell: its lock word and the words of
/// its currently published value.
pub ghost struct CellModel {
    pub locked: bool,
    pub epoch: u64,
    pub value: Seq<usize>,
}

/// A transactional memory cell: a version/lock word plus a word-granular
/// store for the current value.
pub struct TCellErased {
    /// The cell's version/lock word.
    pub current_epoch: EpochLock,
    /// The words of the currently published value.
    pub store: Vec<usize>,
}

impl View for TCellErased {
    type V = CellModel;

    open spec fn view(&self) -> CellModel {
        CellModel {
            locked: self.current_epoch@.locked,
            epoch: self.current_epoch@.epoch,
            value: self.store@,
        }
    }
}

impl TCellErased {
    /// A fresh, unlocked cell holding the given value under the given epoch.
    pub fn new(epoch: u64, value: Vec<usize>) -> (r: Self)
        ensures
            r@ == (CellModel { locked: false, epoch, value: value@ }),
    {
        TCellErased { current_epoch: EpochLock::new(epoch), store: value }
    }
}

/// The mathematical view of a cell table: each cell by its model.
pub open spec fn mems(m: Seq<TCellErased>) -> Seq<CellModel> {
    m.map_values(|c: TCellErased| c@)
}

} // verus!
