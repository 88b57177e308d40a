//! The per-transaction write log: a log of pending writes plus its
//! membership filter, and the commit protocol that applies them.
//!
//! A record stores the identity of its target cell and the pending value as a
//! word sequence; a record is logically removed by deactivation, never by
//! shrinking the log, so offsets held by the filter stay valid. The log
//! guarantees at most one active record per cell, and the filter never
//! reports a recorded cell as absent.

use vstd::prelude::*;

use crate::bloom::{filter_hash, lemma_filter_bit_absorbed, lemma_filter_or_covers,
    lemma_filter_or_preserves, Bloom, Contained};
use crate::cell::{mems, CellModel, TCellErased};

verus! {

/// Mathematical state of one pending write: the target cell's identity,
/// whether the record is still active, and the pending value's words.
/// A deactivated record keeps its identity and value but is inert: every
/// lock, write and publish operation on it is a no-op.
#[verifier::ext_equal]
pub ghost struct EntryModel {
    pub dest: usize,
    pub active: bool,
    pub pending: Seq<usize>,
}

/// One pending write: the target cell's identity plus the pending value,
/// stored as native words. Zero-sized pending values are disallowed; they
/// would make "already written" bookkeeping ambiguous.
pub struct WriteEntryImpl {
    dest: usize,
    active: bool,
    pending: Vec<usize>,
}

impl View for WriteEntryImpl {
    type V = EntryModel;

    closed spec fn view(&self) -> EntryModel {
        EntryModel { dest: self.dest, active: self.active, pending: self.pending@ }
    }
}

impl WriteEntryImpl {
    /// A fresh, active record of a pending write of `pending` to the cell
    /// with identity `dest`.
    pub fn new(dest: usize, pending: Vec<usize>) -> (r: Self)
        requires
            pending@.len() >= 1,
        ensures
            r@ == (EntryModel { dest, active: true, pending: pending@ }),
    {
        WriteEntryImpl { dest, active: true, pending }
    }

    /// The identity of the record's target cell, or none if deactivated.
    pub fn tcell(&self) -> (r: Option<usize>)
        ensures
            r == (if self@.active {
                Some(self@.dest)
            } else {
                None::<usize>
            }),
    {
        if self.active {
            Some(self.dest)
        } else {
            None
        }
    }

    /// Identity comparison against a supplied cell; false if deactivated.
    pub fn is_target(&self, id: usize) -> (r: bool)
        ensures
            r == (self@.active && self@.dest == id),
    {
        self.active && self.dest == id
    }

    /// The words of the pending value.
    pub fn pending(&self) -> (r: &Vec<usize>)
        ensures
            r@ == self@.pending,
    {
        &self.pending
    }

    /// Copies the pending value back out. The record keeps its value: the
    /// copy's source stays owned by the log until the log is cleared.
    pub fn read(&self) -> (r: Vec<usize>)
        ensures
            r@ == self@.pending,
    {
        let mut out: Vec<usize> = Vec::new();
        let mut i: usize = 0;
        while i < self.pending.len()
            invariant
                i <= self@.pending.len(),
                out@ == self@.pending.take(i as int),
            decreases self@.pending.len() - i,
        {
            out.push(self.pending[i]);
            proof {
                assert(self@.pending.take(i + 1) =~= self@.pending.take(i as int).push(
                    self@.pending[i as int],
                ));
            }
            i = i + 1;
        }
        proof {
            assert(self@.pending.take(i as int) =~= self@.pending);
        }
        out
    }

    /// Logically removes the record without shrinking the log. Deactivating
    /// an already-inert record is a programmer error, so it is ruled out here.
    pub fn deactivate(&mut self)
        requires
            old(self)@.active,
        ensures
            final(self)@ == (EntryModel { active: false, ..old(self)@ }),
    {
        self.active = false;
    }

    /// Attempts to acquire the target cell's version lock against the
    /// transaction's snapshot epoch. A deactivated record always succeeds:
    /// there is nothing to lock. On contention nothing is changed.
    pub fn try_lock(&self, cells: &mut Vec<TCellErased>, pin_epoch: u64) -> (r: bool)
        requires
            self@.active ==> self@.dest < old(cells)@.len(),
        ensures
            final(cells)@.len() == old(cells)@.len(),
            !self@.active ==> r && mems(final(cells)@) == mems(old(cells)@),
            self@.active ==> r == (!mems(old(cells)@)[self@.dest as int].locked && mems(
                old(cells)@,
            )[self@.dest as int].epoch <= pin_epoch),
            self@.active && r ==> mems(final(cells)@) =~= mems(old(cells)@).update(
                self@.dest as int,
                CellModel { locked: true, ..mems(old(cells)@)[self@.dest as int] },
            ),
            self@.active && !r ==> mems(final(cells)@) == mems(old(cells)@),
    {
        if !self.active {
            return true;
        }
        let id = self.dest;
        let r = cells[id].current_epoch.try_lock(pin_epoch);
        proof {
            if r {
                assert(mems(cells@) =~= mems(old(cells)@).update(
                    id as int,
                    CellModel { locked: true, ..mems(old(cells)@)[id as int] },
                ));
            } else {
                assert(mems(cells@) =~= mems(old(cells)@));
            }
        }
        r
    }

    /// Releases the target cell's version lock; a no-op if deactivated.
    pub fn unlock(&self, cells: &mut Vec<TCellErased>)
        requires
            self@.active ==> self@.dest < old(cells)@.len() && mems(old(cells)@)[
                self@.dest as int
            ].locked,
        ensures
            final(cells)@.len() == old(cells)@.len(),
            !self@.active ==> mems(final(cells)@) == mems(old(cells)@),
            self@.active ==> mems(final(cells)@) =~= mems(old(cells)@).update(
                self@.dest as int,
                CellModel { locked: false, ..mems(old(cells)@)[self@.dest as int] },
            ),
    {
        if !self.active {
            return;
        }
        let id = self.dest;
        cells[id].current_epoch.unlock();
        proof {
            assert(mems(cells@) =~= mems(old(cells)@).update(
                id as int,
                CellModel { locked: false, ..mems(old(cells)@)[id as int] },
            ));
        }
    }

    /// Copies the pending words into the target cell's store, exactly as many
    /// words as the pending value has; a no-op if deactivated. Ordering
    /// between transactions is provided by the publish step, so this demands
    /// that the target's lock is already held.
    pub fn perform_write(&self, cells: &mut Vec<TCellErased>)
        requires
            self@.active ==> self@.dest < old(cells)@.len() && mems(old(cells)@)[
                self@.dest as int
            ].locked && mems(old(cells)@)[self@.dest as int].value.len() == self@.pending.len(),
        ensures
            final(cells)@.len() == old(cells)@.len(),
            !self@.active ==> mems(final(cells)@) == mems(old(cells)@),
            self@.active ==> mems(final(cells)@) =~= mems(old(cells)@).update(
                self@.dest as int,
                CellModel { value: self@.pending, ..mems(old(cells)@)[self@.dest as int] },
            ),
    {
        if !self.active {
            return;
        }
        let id = self.dest;
        let n = self.pending.len();
        let mut j: usize = 0;
        while j < n
            invariant
                j <= n,
                n == self@.pending.len(),
                self@.active,
                id == self@.dest,
                id < cells@.len(),
                cells@.len() == old(cells)@.len(),
                forall|k: int|
                    0 <= k < cells@.len() && k != id as int ==> mems(cells@)[k] == mems(
                        old(cells)@,
                    )[k],
                mems(cells@)[id as int].locked == mems(old(cells)@)[id as int].locked,
                mems(cells@)[id as int].epoch == mems(old(cells)@)[id as int].epoch,
                mems(cells@)[id as int].value.len() == self@.pending.len(),
                forall|t: int| 0 <= t < j ==> mems(cells@)[id as int].value[t] == self@.pending[t],
                forall|t: int|
                    j <= t < self@.pending.len() ==> mems(cells@)[id as int].value[t] == mems(
                        old(cells)@,
                    )[id as int].value[t],
            decreases n - j,
        {
            cells[id].store[j] = self.pending[j];
            j = j + 1;
        }
        proof {
            assert(mems(cells@)[id as int].value =~= self@.pending);
            assert(mems(cells@) =~= mems(old(cells)@).update(
                id as int,
                CellModel { value: self@.pending, ..mems(old(cells)@)[id as int] },
            ));
        }
    }

    /// Atomically stamps the target cell with the commit epoch and releases
    /// its lock, making the new version simultaneously visible and unlocked;
    /// a no-op if deactivated.
    pub fn publish(&self, cells: &mut Vec<TCellErased>, epoch: u64)
        requires
            self@.active ==> self@.dest < old(cells)@.len() && mems(old(cells)@)[
                self@.dest as int
            ].locked,
        ensures
            final(cells)@.len() == old(cells)@.len(),
            !self@.active ==> mems(final(cells)@) == mems(old(cells)@),
            self@.active ==> mems(final(cells)@) =~= mems(old(cells)@).update(
                self@.dest as int,
                CellModel {
                    locked: false,
                    epoch,
                    value: mems(old(cells)@)[self@.dest as int].value,
                },
            ),
    {
        if !self.active {
            return;
        }
        let id = self.dest;
        cells[id].current_epoch.unlock_as_epoch(epoch);
        proof {
            assert(mems(cells@) =~= mems(old(cells)@).update(
                id as int,
                CellModel {
                    locked: false,
                    epoch,
                    value: mems(old(cells)@)[id as int].value,
                },
            ));
        }
    }
}

/// Total footprint of the records in words: one header word per record (the
/// target slot) plus one word per pending value word.
pub open spec fn footprint(entries: Seq<EntryModel>) -> int
    decreases entries.len(),
{
    if entries.len() == 0 {
        0
    } else {
        footprint(entries.drop_last()) + 1 + entries.last().pending.len()
    }
}

/// Mathematical state of a write log: the filter's summary bitmask, its
/// exact overflow index from cell identity to record offset, the record
/// sequence in insertion order, and the total footprint in words.
#[verifier::ext_equal]
pub ghost struct LogModel {
    pub bits: u64,
    pub index: Map<usize, usize>,
    pub entries: Seq<EntryModel>,
    pub words: usize,
}

/// The model of a freshly created or cleared log.
pub open spec fn empty_log() -> LogModel {
    LogModel { bits: 0, index: Map::empty(), entries: Seq::empty(), words: 0 }
}

/// Well-formedness of a write log.
///
/// - every pending value has at least one word;
/// - at most one active record per cell;
/// - the index binds every active record's cell to the record's offset;
/// - every index binding points at a record for that very cell (possibly a
///   deactivated one: offsets held by the filter are never invalidated);
/// - the filter's bitmask covers every record's cell, so it never reports a
///   recorded cell as absent;
/// - the word count is the records' total footprint.
pub open spec fn wf(m: LogModel) -> bool {
    &&& forall|i: int| 0 <= i < m.entries.len() ==> (#[trigger] m.entries[i]).pending.len() >= 1
    &&& forall|i: int, j: int|
        0 <= i < m.entries.len() && 0 <= j < m.entries.len() && i != j && (
        #[trigger] m.entries[i]).active && (#[trigger] m.entries[j]).active ==> m.entries[i].dest
            != m.entries[j].dest
    &&& forall|i: int|
        0 <= i < m.entries.len() && (#[trigger] m.entries[i]).active ==> m.index.dom().contains(
            m.entries[i].dest,
        ) && m.index[m.entries[i].dest] as int == i
    &&& forall|id: usize| #![trigger m.index.dom().contains(id)]
        m.index.dom().contains(id) ==> m.index[id] < m.entries.len() && m.entries[
            m.index[id] as int
        ].dest == id
    &&& forall|i: int|
        0 <= i < m.entries.len() ==> m.bits & filter_hash((#[trigger] m.entries[i]).dest) != 0
    &&& m.words == footprint(m.entries)
}

/// Whether the log holds an active record for the given cell.
pub open spec fn has_active(m: LogModel, id: usize) -> bool {
    exists|i: int| 0 <= i < m.entries.len() && (#[trigger] m.entries[i]).active && m.entries[i].dest
        == id
}

/// The pending value of the cell's active record (meaningful under `wf` and
/// `has_active`).
pub open spec fn pending_of(m: LogModel, id: usize) -> Seq<usize> {
    m.entries[m.index[id] as int].pending
}

/// Whether some record in the offset range `[lo, hi)` is active with the
/// given target cell.
pub open spec fn target_in_range(m: LogModel, lo: int, hi: int, id: usize) -> bool {
    exists|t: int| lo <= t < hi && (#[trigger] m.entries[t]).active && m.entries[t].dest == id
}

/// Every active record's target lies below the given cell-table size.
pub open spec fn targets_in_bounds(m: LogModel, n: int) -> bool {
    forall|i: int|
        0 <= i < m.entries.len() && (#[trigger] m.entries[i]).active ==> m.entries[i].dest < n
}

/// Every active record's target cell is unlocked and its version does not
/// postdate the snapshot: the whole write set can be locked.
pub open spec fn lock_all_ok(m: LogModel, cells: Seq<CellModel>, pin_epoch: u64) -> bool {
    forall|i: int|
        0 <= i < m.entries.len() && (#[trigger] m.entries[i]).active ==> !cells[
            m.entries[i].dest as int
        ].locked && cells[m.entries[i].dest as int].epoch <= pin_epoch
}

/// Every active record's target cell is currently locked.
pub open spec fn all_targets_locked(m: LogModel, cells: Seq<CellModel>) -> bool {
    forall|i: int|
        0 <= i < m.entries.len() && (#[trigger] m.entries[i]).active ==> cells[
            m.entries[i].dest as int
        ].locked
}

/// Every active record's target cell still carries a version compatible with
/// the snapshot: no other transaction has published a newer one.
pub open spec fn writes_valid(m: LogModel, cells: Seq<CellModel>, pin_epoch: u64) -> bool {
    forall|i: int|
        0 <= i < m.entries.len() && (#[trigger] m.entries[i]).active ==> cells[
            m.entries[i].dest as int
        ].epoch <= pin_epoch
}

/// Every active record's pending value has exactly its target cell's word
/// count.
pub open spec fn sizes_match(m: LogModel, cells: Seq<CellModel>) -> bool {
    forall|i: int|
        0 <= i < m.entries.len() && (#[trigger] m.entries[i]).active ==> cells[
            m.entries[i].dest as int
        ].value.len() == m.entries[i].pending.len()
}

/// The cell table after the lock phase: every written cell locked, every
/// other cell untouched.
pub open spec fn mem_after_lock(m: LogModel, cells: Seq<CellModel>) -> Seq<CellModel> {
    Seq::new(
        cells.len(),
        |j: int|
            if has_active(m, j as usize) {
                CellModel { locked: true, ..cells[j] }
            } else {
                cells[j]
            },
    )
}

/// The cell table after unlock-on-abort: every written cell released, every
/// other cell untouched.
pub open spec fn mem_after_unlock(m: LogModel, cells: Seq<CellModel>) -> Seq<CellModel> {
    Seq::new(
        cells.len(),
        |j: int|
            if has_active(m, j as usize) {
                CellModel { locked: false, ..cells[j] }
            } else {
                cells[j]
            },
    )
}

/// The cell table after the apply phase: every written cell holds its pending
/// value, lock state and version untouched; every other cell untouched.
pub open spec fn mem_after_perform(m: LogModel, cells: Seq<CellModel>) -> Seq<CellModel> {
    Seq::new(
        cells.len(),
        |j: int|
            if has_active(m, j as usize) {
                CellModel { value: pending_of(m, j as usize), ..cells[j] }
            } else {
                cells[j]
            },
    )
}

/// The cell table after the publish phase: every written cell stamped with
/// the commit epoch and released, value untouched; every other cell
/// untouched.
pub open spec fn mem_after_publish(m: LogModel, cells: Seq<CellModel>, epoch: u64) -> Seq<
    CellModel,
> {
    Seq::new(
        cells.len(),
        |j: int|
            if has_active(m, j as usize) {
                CellModel { locked: false, epoch, value: cells[j].value }
            } else {
                cells[j]
            },
    )
}

/// An active record for a cell somewhere in the log is exactly an active
/// record for it in the full offset range.
pub proof fn lemma_has_active_is_full_range(m: LogModel, id: usize)
    ensures
        has_active(m, id) == target_in_range(m, 0, m.entries.len() as int, id),
{
    if has_active(m, id) {
        let j = choose|j: int|
            0 <= j < m.entries.len() && (#[trigger] m.entries[j]).active && m.entries[j].dest
                == id;
        assert(target_in_range(m, 0, m.entries.len() as int, id));
    }
    if target_in_range(m, 0, m.entries.len() as int, id) {
        let t = choose|t: int|
            0 <= t < m.entries.len() && (#[trigger] m.entries[t]).active && m.entries[t].dest
                == id;
        assert(has_active(m, id));
    }
}

/// Extending an offset range by one record on the right adds exactly that
/// record's target, if it is active.
pub proof fn lemma_range_extend(m: LogModel, lo: int, hi: int, id: usize)
    requires
        0 <= lo <= hi < m.entries.len(),
    ensures
        target_in_range(m, lo, hi + 1, id) == (target_in_range(m, lo, hi, id) || (m.entries[
            hi
        ].active && m.entries[hi].dest == id)),
{
    if target_in_range(m, lo, hi + 1, id) {
        let t = choose|t: int|
            lo <= t < hi + 1 && (#[trigger] m.entries[t]).active && m.entries[t].dest == id;
        if t < hi {
            assert(target_in_range(m, lo, hi, id));
        }
    }
    if target_in_range(m, lo, hi, id) {
        let t = choose|t: int|
            lo <= t < hi && (#[trigger] m.entries[t]).active && m.entries[t].dest == id;
        assert(lo <= t < hi + 1 && m.entries[t].active && m.entries[t].dest == id);
        assert(target_in_range(m, lo, hi + 1, id));
    }
    if m.entries[hi].active && m.entries[hi].dest == id {
        assert(lo <= hi < hi + 1 && m.entries[hi].active && m.entries[hi].dest == id);
        assert(target_in_range(m, lo, hi + 1, id));
    }
}

/// Dropping an offset range's leftmost record removes exactly that record's
/// target, if it is active.
pub proof fn lemma_range_shrink(m: LogModel, lo: int, hi: int, id: usize)
    requires
        0 <= lo < hi <= m.entries.len(),
    ensures
        target_in_range(m, lo, hi, id) == (target_in_range(m, lo + 1, hi, id) || (m.entries[
            lo
        ].active && m.entries[lo].dest == id)),
{
    if target_in_range(m, lo, hi, id) {
        let t = choose|t: int|
            lo <= t < hi && (#[trigger] m.entries[t]).active && m.entries[t].dest == id;
        if t > lo {
            assert(target_in_range(m, lo + 1, hi, id));
        }
    }
    if target_in_range(m, lo + 1, hi, id) {
        let t = choose|t: int|
            lo + 1 <= t < hi && (#[trigger] m.entries[t]).active && m.entries[t].dest == id;
        assert(lo <= t < hi && m.entries[t].active && m.entries[t].dest == id);
        assert(target_in_range(m, lo, hi, id));
    }
    if m.entries[lo].active && m.entries[lo].dest == id {
        assert(lo <= lo < hi && m.entries[lo].active && m.entries[lo].dest == id);
        assert(target_in_range(m, lo, hi, id));
    }
}

/// In a well-formed log, an active record's target occurs nowhere else among
/// the active records.
pub proof fn lemma_unique_target(m: LogModel, i: int)
    requires
        wf(m),
        0 <= i < m.entries.len(),
        m.entries[i].active,
    ensures
        !target_in_range(m, 0, i, m.entries[i].dest),
        !target_in_range(m, i + 1, m.entries.len() as int, m.entries[i].dest),
{
    if target_in_range(m, 0, i, m.entries[i].dest) {
        let t = choose|t: int|
            0 <= t < i && (#[trigger] m.entries[t]).active && m.entries[t].dest == m.entries[
                i
            ].dest;
        assert(m.entries[t].dest != m.entries[i].dest);
    }
    if target_in_range(m, i + 1, m.entries.len() as int, m.entries[i].dest) {
        let t = choose|t: int|
            i + 1 <= t < m.entries.len() && (#[trigger] m.entries[t]).active && m.entries[t].dest
                == m.entries[i].dest;
        assert(m.entries[t].dest != m.entries[i].dest);
    }
}

/// The identities of the active records' target cells, in insertion order.
pub open spec fn active_dests(entries: Seq<EntryModel>) -> Seq<usize>
    decreases entries.len(),
{
    if entries.len() == 0 {
        Seq::empty()
    } else if entries.last().active {
        active_dests(entries.drop_last()).push(entries.last().dest)
    } else {
        active_dests(entries.drop_last())
    }
}

/// The write log: the membership filter plus the append-only record
/// container. One write log serves one in-flight transaction attempt and is
/// reset, not reallocated, between attempts.
pub struct WriteLog {
    bloom: Bloom,
    data: Vec<WriteEntryImpl>,
    words: usize,
}

impl View for WriteLog {
    type V = LogModel;

    closed spec fn view(&self) -> LogModel {
        LogModel {
            bits: self.bloom@.bits,
            index: self.bloom@.index,
            entries: self.data@.map_values(|e: WriteEntryImpl| e@),
            words: self.words,
        }
    }
}

/// A transient view produced by the entry lookup: either no active record
/// yet (the caller must insert), or the offset of the cell's active record
/// (the caller may overwrite the pending value in place).
#[derive(Clone, Copy, PartialEq, Eq, Structural, Debug)]
pub enum Entry {
    Vacant,
    Occupied { index: usize },
}

impl Entry {
    /// An occupied handle at the given record offset.
    fn new_occupied(index: usize) -> (r: Self)
        ensures
            r == (Entry::Occupied { index }),
    {
        Entry::Occupied { index }
    }
}

impl WriteLog {
    /// A fresh, empty write log.
    pub fn new() -> (r: Self)
        ensures
            r@ == empty_log(),
            wf(r@),
    {
        let r = WriteLog { bloom: Bloom::new(), data: Vec::new(), words: 0 };
        proof {
            assert(r@.entries =~= Seq::<EntryModel>::empty());
            assert(r@ =~= empty_log());
        }
        r
    }

    /// O(1) membership test; `No` is a strict guarantee of absence.
    pub fn contained(&self, id: usize) -> (r: Contained)
        ensures
            (r == Contained::No) == (self@.bits & filter_hash(id) == 0),
            r == Contained::No || r == Contained::Maybe,
            wf(self@) && has_active(self@, id) ==> r == Contained::Maybe,
    {
        let r = self.bloom.contained(id);
        proof {
            if wf(self@) && has_active(self@, id) {
                let i = choose|i: int|
                    0 <= i < self@.entries.len() && (#[trigger] self@.entries[i]).active
                        && self@.entries[i].dest == id;
                assert(self@.bits & filter_hash(self@.entries[i].dest) != 0);
            }
        }
        r
    }

    /// Tests membership and marks the cell present in one step, returning
    /// what `contained` would have answered beforehand. The caller is
    /// expected to follow a `No` answer with `record_unchecked`.
    pub fn contained_set(&mut self, id: usize) -> (r: Contained)
        requires
            wf(old(self)@),
        ensures
            wf(final(self)@),
            final(self)@.bits == old(self)@.bits | filter_hash(id),
            final(self)@.index == old(self)@.index,
            final(self)@.entries == old(self)@.entries,
            final(self)@.words == old(self)@.words,
            (r == Contained::No) == (old(self)@.bits & filter_hash(id) == 0),
            r == Contained::No || r == Contained::Maybe,
    {
        let r = self.bloom.insert_inline(id);
        proof {
            assert(self@.index == old(self)@.index);
            assert(self@.entries == old(self)@.entries);
            assert forall|i: int| 0 <= i < self@.entries.len() implies self@.bits & filter_hash(
                (#[trigger] self@.entries[i]).dest,
            ) != 0 by {
                lemma_filter_or_preserves(
                    old(self)@.bits,
                    filter_hash(id),
                    filter_hash(self@.entries[i].dest),
                );
            }
            assert forall|id2: usize| #![trigger self@.index.dom().contains(id2)]
                self@.index.dom().contains(id2) implies self@.index[id2] < self@.entries.len()
                && self@.entries[self@.index[id2] as int].dest == id2 by {
                assert(old(self)@.index.dom().contains(id2));
            }
        }
        r
    }

    /// The log's total footprint in words.
    pub fn word_len(&self) -> (r: usize)
        ensures
            r == self@.words,
    {
        self.words
    }

    /// Whether the log holds no records at all.
    pub fn is_empty(&self) -> (r: bool)
        ensures
            r == (self@.entries.len() == 0),
    {
        self.data.len() == 0
    }

    /// Resets the log — filter and records — for reuse by the next
    /// transaction attempt, running per-record teardown. Records here hold
    /// plain words, so teardown is dropping the word storage.
    pub fn clear(&mut self)
        ensures
            final(self)@ == empty_log(),
            wf(final(self)@),
    {
        self.bloom.clear();
        self.data.clear();
        self.words = 0;
        proof {
            assert(self@.entries =~= Seq::<EntryModel>::empty());
            assert(self@ =~= empty_log());
        }
    }

    /// Resets the log without running per-record teardown: for callers who
    /// have byte-copied the pending values elsewhere and must not tear them
    /// down twice. Observably the same reset as `clear`.
    pub fn clear_no_drop(&mut self)
        ensures
            final(self)@ == empty_log(),
            wf(final(self)@),
    {
        self.bloom.clear();
        self.data.clear();
        self.words = 0;
        proof {
            assert(self@.entries =~= Seq::<EntryModel>::empty());
            assert(self@ =~= empty_log());
        }
    }

    /// The records, in insertion order.
    pub fn write_entries(&self) -> (r: &Vec<WriteEntryImpl>)
        ensures
            r@.len() == self@.entries.len(),
            forall|i: int| 0 <= i < r@.len() ==> (#[trigger] r@[i])@ == self@.entries[i],
    {
        &self.data
    }

    /// The identities of the cells whose version locks the commit protocol
    /// will visit, in insertion order: the targets of the active records.
    pub fn epoch_locks(&self) -> (r: Vec<usize>)
        ensures
            r@ == active_dests(self@.entries),
    {
        let mut out: Vec<usize> = Vec::new();
        let mut i: usize = 0;
        let n = self.data.len();
        while i < n
            invariant
                i <= n,
                n == self@.entries.len(),
                out@ == active_dests(self@.entries.take(i as int)),
            decreases n - i,
        {
            let e = &self.data[i];
            proof {
                assert(self@.entries.take(i + 1).drop_last() =~= self@.entries.take(i as int));
                assert(self@.entries.take(i + 1).last() == self@.entries[i as int]);
            }
            if e.active {
                out.push(e.dest);
            }
            i = i + 1;
        }
        proof {
            assert(self@.entries.take(i as int) =~= self@.entries);
        }
        out
    }

    /// Exact lookup that skips the bitmask: goes straight to the overflow
    /// index. Returns the record bound to the cell's identity; an index miss
    /// is a filter collision, not an error.
    pub fn find_skip_filter(&self, id: usize) -> (r: Option<&WriteEntryImpl>)
        requires
            wf(self@),
        ensures
            match r {
                Some(e) => {
                    &&& self@.index.dom().contains(id)
                    &&& self@.index[id] < self@.entries.len()
                    &&& e@ == self@.entries[self@.index[id] as int]
                    &&& e@.dest == id
                    &&& e@.active == has_active(self@, id)
                    &&& (has_active(self@, id) ==> e@.pending == pending_of(self@, id))
                },
                None => !has_active(self@, id),
            },
    {
        match self.bloom.overflow_get(id) {
            Some(off) => {
                proof {
                    assert(self@.index.dom().contains(id));
                    assert(self@.entries.len() == self.data@.len());
                }
                let e = &self.data[off];
                proof {
                    assert(e@ == self@.entries[off as int]);
                    if e@.active {
                        assert(self@.entries[off as int].active && self@.entries[
                            off as int
                        ].dest == id);
                        assert(has_active(self@, id));
                    } else if has_active(self@, id) {
                        let j = choose|j: int|
                            0 <= j < self@.entries.len() && (#[trigger] self@.entries[j]).active
                                && self@.entries[j].dest == id;
                        assert(self@.index[id] as int == j);
                    }
                }
                Some(e)
            },
            None => {
                proof {
                    if has_active(self@, id) {
                        let j = choose|j: int|
                            0 <= j < self@.entries.len() && (#[trigger] self@.entries[j]).active
                                && self@.entries[j].dest == id;
                        assert(self@.index.dom().contains(id));
                    }
                }
                None
            },
        }
    }

    /// The slow half of `find`, reached only when the filter cannot rule the
    /// cell out.
    fn find_slow(&self, id: usize) -> (r: Option<&WriteEntryImpl>)
        requires
            wf(self@),
        ensures
            match r {
                Some(e) => {
                    &&& self@.index.dom().contains(id)
                    &&& self@.index[id] < self@.entries.len()
                    &&& e@ == self@.entries[self@.index[id] as int]
                    &&& e@.dest == id
                    &&& e@.active == has_active(self@, id)
                    &&& (has_active(self@, id) ==> e@.pending == pending_of(self@, id))
                },
                None => !has_active(self@, id),
            },
    {
        self.find_skip_filter(id)
    }

    /// Looks the cell up, biased against finding it: a definite-negative
    /// filter answer returns at once, which is the dominant case; otherwise
    /// the exact overflow index disambiguates.
    pub fn find(&self, id: usize) -> (r: Option<&WriteEntryImpl>)
        requires
            wf(self@),
        ensures
            match r {
                Some(e) => {
                    &&& self@.index.dom().contains(id)
                    &&& self@.index[id] < self@.entries.len()
                    &&& e@ == self@.entries[self@.index[id] as int]
                    &&& e@.dest == id
                    &&& e@.active == has_active(self@, id)
                    &&& (has_active(self@, id) ==> e@.pending == pending_of(self@, id))
                },
                None => !has_active(self@, id),
            },
    {
        match self.bloom.contained(id) {
            Contained::No => {
                proof {
                    if has_active(self@, id) {
                        let j = choose|j: int|
                            0 <= j < self@.entries.len() && (#[trigger] self@.entries[j]).active
                                && self@.entries[j].dest == id;
                        assert(self@.bits & filter_hash(self@.entries[j].dest) != 0);
                    }
                }
                None
            },
            Contained::Maybe => self.find_slow(id),
        }
    }

    /// The same fast/slow split as `find`, but yields the offset of the
    /// cell's active record, so write-after-write coalescing can overwrite
    /// the pending value in place instead of appending a duplicate record.
    pub fn entry(&self, id: usize) -> (r: Entry)
        requires
            wf(self@),
        ensures
            match r {
                Entry::Occupied { index } => {
                    &&& has_active(self@, id)
                    &&& self@.index.dom().contains(id)
                    &&& index == self@.index[id]
                    &&& index < self@.entries.len()
                    &&& self@.entries[index as int].active
                    &&& self@.entries[index as int].dest == id
                    &&& self@.entries[index as int].pending == pending_of(self@, id)
                },
                Entry::Vacant => !has_active(self@, id),
            },
    {
        match self.find(id) {
            Some(e) => {
                if e.is_target(id) {
                    Entry::new_occupied(self.bloom.overflow_get(id).unwrap())
                } else {
                    Entry::Vacant
                }
            },
            None => Entry::Vacant,
        }
    }

    /// Inserts a new active record for a cell without one, binding the cell
    /// to the new record's offset in the filter's exact index. Returns
    /// whether an earlier binding for this cell — necessarily left behind by
    /// a deactivated record — was replaced, which signals write-after-write
    /// to instrumentation.
    pub fn record_update(&mut self, id: usize, val: Vec<usize>) -> (r: bool)
        requires
            wf(old(self)@),
            !has_active(old(self)@, id),
            val@.len() >= 1,
            old(self)@.words + 1 + val@.len() <= usize::MAX,
        ensures
            wf(final(self)@),
            final(self)@.entries == old(self)@.entries.push(
                EntryModel { dest: id, active: true, pending: val@ },
            ),
            final(self)@.bits == old(self)@.bits | filter_hash(id),
            final(self)@.index == old(self)@.index.insert(
                id,
                old(self)@.entries.len() as usize,
            ),
            final(self)@.words == old(self)@.words + 1 + val@.len(),
            r == old(self)@.index.dom().contains(id),
            has_active(final(self)@, id),
            pending_of(final(self)@, id) == val@,
    {
        let off = self.data.len();
        let replaced = self.bloom.insert_overflow(id, off);
        let n = val.len();
        self.data.push(WriteEntryImpl::new(id, val));
        self.words = self.words + 1 + n;
        proof {
            self.lemma_after_record(old(self)@, id, off);
        }
        replaced
    }

    /// Fast-path insert for callers who have already established, via
    /// `entry` or `contained_set`, that no active record exists and that the
    /// filter already marks the cell present; the bitmask is left as it is.
    pub fn record_unchecked(&mut self, id: usize, val: Vec<usize>)
        requires
            wf(old(self)@),
            !has_active(old(self)@, id),
            old(self)@.bits & filter_hash(id) != 0,
            val@.len() >= 1,
            old(self)@.words + 1 + val@.len() <= usize::MAX,
        ensures
            wf(final(self)@),
            final(self)@.entries == old(self)@.entries.push(
                EntryModel { dest: id, active: true, pending: val@ },
            ),
            final(self)@.bits == old(self)@.bits,
            final(self)@.index == old(self)@.index.insert(
                id,
                old(self)@.entries.len() as usize,
            ),
            final(self)@.words == old(self)@.words + 1 + val@.len(),
            has_active(final(self)@, id),
            pending_of(final(self)@, id) == val@,
    {
        let off = self.data.len();
        let _ = self.bloom.insert_overflow(id, off);
        let n = val.len();
        self.data.push(WriteEntryImpl::new(id, val));
        self.words = self.words + 1 + n;
        proof {
            lemma_filter_bit_absorbed(old(self)@.bits, id);
            self.lemma_after_record(old(self)@, id, off);
        }
    }

    /// After pushing a fresh active record for `id` at offset `off` and
    /// binding `id` to `off` in the index, the log is well formed again and
    /// the new record is the cell's one active record.
    proof fn lemma_after_record(&self, prior: LogModel, id: usize, off: usize)
        requires
            wf(prior),
            !has_active(prior, id),
            off as int == prior.entries.len(),
            self@.entries.len() == prior.entries.len() + 1,
            forall|i: int| 0 <= i < prior.entries.len() ==> self@.entries[i] == prior.entries[i],
            self@.entries.last() == (EntryModel {
                dest: id,
                active: true,
                pending: self@.entries.last().pending,
            }),
            self@.entries.last().pending.len() >= 1,
            self@.bits == prior.bits | filter_hash(id),
            self@.index == prior.index.insert(id, off),
            self@.words == prior.words + 1 + self@.entries.last().pending.len(),
        ensures
            wf(self@),
            has_active(self@, id),
            pending_of(self@, id) == self@.entries.last().pending,
    {
        let m = self@;
        let n = prior.entries.len();
        assert(m.entries[n as int].active && m.entries[n as int].dest == id);
        assert(has_active(m, id));
        assert forall|i: int| 0 <= i < m.entries.len() implies (
        #[trigger] m.entries[i]).pending.len() >= 1 by {
            if i < n {
                assert(m.entries[i] == prior.entries[i]);
                assert(prior.entries[i].pending.len() >= 1);
            }
        }
        assert forall|i: int, j: int|
            0 <= i < m.entries.len() && 0 <= j < m.entries.len() && i != j && (
            #[trigger] m.entries[i]).active && (#[trigger] m.entries[j]).active implies m.entries[
            i
        ].dest != m.entries[j].dest by {
            if i < n && j < n {
                assert(m.entries[i] == prior.entries[i]);
                assert(m.entries[j] == prior.entries[j]);
            } else if i == n as int && j < n {
                assert(m.entries[j] == prior.entries[j]);
                assert(!(prior.entries[j].active && prior.entries[j].dest == id));
            } else if j == n as int && i < n {
                assert(m.entries[i] == prior.entries[i]);
                assert(!(prior.entries[i].active && prior.entries[i].dest == id));
            }
        }
        assert forall|i: int|
            0 <= i < m.entries.len() && (#[trigger] m.entries[i]).active implies m.index.dom()
            .contains(m.entries[i].dest) && m.index[m.entries[i].dest] as int == i by {
            if i < n {
                assert(m.entries[i] == prior.entries[i]);
                assert(prior.entries[i].active);
                assert(!(prior.entries[i].active && prior.entries[i].dest == id));
                assert(prior.index.dom().contains(prior.entries[i].dest));
                assert(prior.entries[i].dest != id);
            }
        }
        assert forall|id2: usize| #![trigger m.index.dom().contains(id2)]
            m.index.dom().contains(id2) implies m.index[id2] < m.entries.len() && m.entries[
            m.index[id2] as int
        ].dest == id2 by {
            if id2 != id {
                assert(prior.index.dom().contains(id2));
                assert(m.entries[prior.index[id2] as int] == prior.entries[
                    prior.index[id2] as int
                ]);
            }
        }
        assert forall|i: int| 0 <= i < m.entries.len() implies m.bits & filter_hash(
            (#[trigger] m.entries[i]).dest,
        ) != 0 by {
            if i < n {
                assert(m.entries[i] == prior.entries[i]);
                assert(prior.bits & filter_hash(prior.entries[i].dest) != 0);
                lemma_filter_or_preserves(
                    prior.bits,
                    filter_hash(id),
                    filter_hash(m.entries[i].dest),
                );
            } else {
                lemma_filter_or_covers(prior.bits, id);
            }
        }
        assert(m.entries.drop_last() =~= prior.entries);
        assert(footprint(m.entries) == footprint(prior.entries) + 1
            + m.entries.last().pending.len());
    }

    /// Overwrites the pending value of the record at the given offset in
    /// place — the write-after-write coalescing step behind an occupied
    /// `entry` handle. The new value must have the record's word count, as an
    /// in-place overwrite cannot change the record's footprint.
    pub fn set_pending(&mut self, index: usize, val: Vec<usize>)
        requires
            wf(old(self)@),
            index < old(self)@.entries.len(),
            val@.len() == old(self)@.entries[index as int].pending.len(),
        ensures
            wf(final(self)@),
            final(self)@.entries == old(self)@.entries.update(
                index as int,
                EntryModel { pending: val@, ..old(self)@.entries[index as int] },
            ),
            final(self)@.bits == old(self)@.bits,
            final(self)@.index == old(self)@.index,
            final(self)@.words == old(self)@.words,
            forall|id: usize|
                has_active(final(self)@, id) == has_active(old(self)@, id),
            old(self)@.entries[index as int].active ==> pending_of(
                final(self)@,
                old(self)@.entries[index as int].dest,
            ) == val@,
    {
        let e = &mut self.data[index];
        e.pending = val;
        proof {
            self.lemma_after_entry_update(old(self)@, index as int);
            assert forall|id: usize|
                has_active(self@, id) == has_active(old(self)@, id) by {
                if has_active(self@, id) {
                    let j = choose|j: int|
                        0 <= j < self@.entries.len() && (#[trigger] self@.entries[j]).active
                            && self@.entries[j].dest == id;
                    assert(old(self)@.entries[j].active && old(self)@.entries[j].dest == id);
                }
                if has_active(old(self)@, id) {
                    let j = choose|j: int|
                        0 <= j < old(self)@.entries.len() && (#[trigger] old(
                            self,
                        )@.entries[j]).active && old(self)@.entries[j].dest == id;
                    assert(self@.entries[j].active && self@.entries[j].dest == id);
                }
            }
        }
    }

    /// Deactivates the record at the given offset: the record turns inert
    /// but keeps its place, so offsets held by the filter stay valid.
    pub fn deactivate_at(&mut self, index: usize)
        requires
            wf(old(self)@),
            index < old(self)@.entries.len(),
            old(self)@.entries[index as int].active,
        ensures
            wf(final(self)@),
            final(self)@.entries == old(self)@.entries.update(
                index as int,
                EntryModel { active: false, ..old(self)@.entries[index as int] },
            ),
            final(self)@.bits == old(self)@.bits,
            final(self)@.index == old(self)@.index,
            final(self)@.words == old(self)@.words,
            !has_active(final(self)@, old(self)@.entries[index as int].dest),
            forall|id: usize|
                id != old(self)@.entries[index as int].dest ==> has_active(final(self)@, id)
                    == has_active(old(self)@, id),
    {
        let e = &mut self.data[index];
        e.deactivate();
        proof {
            self.lemma_after_entry_update(old(self)@, index as int);
            let m = self@;
            let id = old(self)@.entries[index as int].dest;
            if has_active(m, id) {
                let j = choose|j: int|
                    0 <= j < m.entries.len() && (#[trigger] m.entries[j]).active && m.entries[
                        j
                    ].dest == id;
                assert(old(self)@.entries[j].active && old(self)@.entries[j].dest == id);
            }
            assert forall|id2: usize|
                id2 != id implies has_active(self@, id2) == has_active(old(self)@, id2) by {
                if has_active(self@, id2) {
                    let j = choose|j: int|
                        0 <= j < self@.entries.len() && (#[trigger] self@.entries[j]).active
                            && self@.entries[j].dest == id2;
                    assert(old(self)@.entries[j].active && old(self)@.entries[j].dest == id2);
                }
                if has_active(old(self)@, id2) {
                    let j = choose|j: int|
                        0 <= j < old(self)@.entries.len() && (#[trigger] old(
                            self,
                        )@.entries[j]).active && old(self)@.entries[j].dest == id2;
                    assert(self@.entries[j].active && self@.entries[j].dest == id2);
                }
            }
        }
    }

    /// A record replaced in place with the same target, activity aside, and
    /// an equally long pending value leaves the log well formed.
    proof fn lemma_after_entry_update(&self, prior: LogModel, at: int)
        requires
            wf(prior),
            0 <= at < prior.entries.len(),
            self@.entries.len() == prior.entries.len(),
            forall|i: int|
                0 <= i < prior.entries.len() && i != at ==> self@.entries[i] == prior.entries[i],
            self@.entries[at].dest == prior.entries[at].dest,
            self@.entries[at].active ==> prior.entries[at].active,
            self@.entries[at].pending.len() == prior.entries[at].pending.len(),
            self@.bits == prior.bits,
            self@.index == prior.index,
            self@.words == prior.words,
        ensures
            wf(self@),
    {
        let m = self@;
        assert forall|i: int| 0 <= i < m.entries.len() implies (
        #[trigger] m.entries[i]).pending.len() >= 1 by {
            assert(prior.entries[i].pending.len() >= 1);
        }
        assert forall|i: int, j: int|
            0 <= i < m.entries.len() && 0 <= j < m.entries.len() && i != j && (
            #[trigger] m.entries[i]).active && (#[trigger] m.entries[j]).active implies m.entries[
            i
        ].dest != m.entries[j].dest by {
            assert(prior.entries[i].active && prior.entries[j].active);
            assert(m.entries[i].dest == prior.entries[i].dest);
            assert(m.entries[j].dest == prior.entries[j].dest);
        }
        assert forall|i: int|
            0 <= i < m.entries.len() && (#[trigger] m.entries[i]).active implies m.index.dom()
            .contains(m.entries[i].dest) && m.index[m.entries[i].dest] as int == i by {
            assert(prior.entries[i].active);
            assert(m.entries[i].dest == prior.entries[i].dest);
        }
        assert forall|id2: usize| #![trigger m.index.dom().contains(id2)]
            m.index.dom().contains(id2) implies m.index[id2] < m.entries.len() && m.entries[
            m.index[id2] as int
        ].dest == id2 by {
            assert(prior.index.dom().contains(id2));
            assert(m.entries[prior.index[id2] as int].dest == prior.entries[
                prior.index[id2] as int
            ].dest);
        }
        assert forall|i: int| 0 <= i < m.entries.len() implies m.bits & filter_hash(
            (#[trigger] m.entries[i]).dest,
        ) != 0 by {
            assert(m.entries[i].dest == prior.entries[i].dest);
            assert(prior.bits & filter_hash(prior.entries[i].dest) != 0);
        }
        lemma_footprint_same_lens(m.entries, prior.entries);
    }

    /// Whether the next record push must grow the log's storage: a pre-flight
    /// query for capacity-sensitive code paths.
    pub fn next_push_allocates(&self) -> bool {
        self.data.len() == vec_capacity(&self.data)
    }

    /// The lock phase of commit. Visits the records in insertion order and
    /// acquires each active record's target lock against the snapshot epoch.
    /// On the first contended or invalidated cell it releases every lock
    /// taken so far — the failed cell was never changed — and reports
    /// failure with the cell table exactly as it was: ordered acquisition
    /// with immediate ordered rollback, so racing transactions cannot
    /// deadlock. Succeeds exactly when every written cell was unlocked and
    /// snapshot-compatible.
    pub fn try_lock_entries(&self, cells: &mut Vec<TCellErased>, pin_epoch: u64) -> (r: bool)
        requires
            wf(self@),
            targets_in_bounds(self@, old(cells)@.len() as int),
        ensures
            final(cells)@.len() == old(cells)@.len(),
            r == lock_all_ok(self@, mems(old(cells)@), pin_epoch),
            r ==> mems(final(cells)@) == mem_after_lock(self@, mems(old(cells)@)),
            !r ==> mems(final(cells)@) == mems(old(cells)@),
    {
        let ghost m = self@;
        let ghost orig = mems(old(cells)@);
        let n_cells = cells.len();
        let n = self.data.len();
        proof {
            assert(m.entries.len() == self.data@.len());
            assert(orig.len() == n_cells as int);
        }
        let mut i: usize = 0;
        while i < n
            invariant
                wf(m),
                m == self@,
                targets_in_bounds(m, orig.len() as int),
                i <= n,
                n as int == m.entries.len(),
                cells@.len() == orig.len(),
                orig.len() == n_cells as int,
                orig == mems(old(cells)@),
                forall|j: int|
                    0 <= j < orig.len() ==> mems(cells@)[j] == (if target_in_range(
                        m,
                        0,
                        i as int,
                        j as usize,
                    ) {
                        CellModel { locked: true, ..orig[j] }
                    } else {
                        orig[j]
                    }),
                forall|t: int|
                    0 <= t < i && (#[trigger] m.entries[t]).active ==> !orig[
                        m.entries[t].dest as int
                    ].locked && orig[m.entries[t].dest as int].epoch <= pin_epoch,
            decreases n - i,
        {
            let ghost before = mems(cells@);
            let e = &self.data[i];
            proof {
                assert(e@ == m.entries[i as int]);
                if e@.active {
                    lemma_unique_target(m, i as int);
                    assert(mems(cells@)[e@.dest as int] == orig[e@.dest as int]);
                }
            }
            let ok = e.try_lock(cells, pin_epoch);
            if !ok {
                proof {
                    assert(m.entries[i as int].active);
                    assert(!lock_all_ok(m, orig, pin_epoch));
                }
                let mut k: usize = 0;
                while k < i
                    invariant
                        wf(m),
                        m == self@,
                        targets_in_bounds(m, orig.len() as int),
                        k <= i <= n,
                        n as int == m.entries.len(),
                        cells@.len() == orig.len(),
                        orig.len() == n_cells as int,
                        orig == mems(old(cells)@),
                        forall|j: int|
                            0 <= j < orig.len() ==> mems(cells@)[j] == (if target_in_range(
                                m,
                                k as int,
                                i as int,
                                j as usize,
                            ) {
                                CellModel { locked: true, ..orig[j] }
                            } else {
                                orig[j]
                            }),
                        forall|t: int|
                            0 <= t < i && (#[trigger] m.entries[t]).active ==> !orig[
                                m.entries[t].dest as int
                            ].locked && orig[m.entries[t].dest as int].epoch <= pin_epoch,
                    decreases i - k,
                {
                    let ghost held = mems(cells@);
                    let u = &self.data[k];
                    proof {
                        assert(u@ == m.entries[k as int]);
                        if u@.active {
                            assert(target_in_range(m, k as int, i as int, u@.dest));
                            assert(mems(cells@)[u@.dest as int].locked);
                        }
                    }
                    u.unlock(cells);
                    proof {
                        assert forall|j: int| 0 <= j < orig.len() implies mems(cells@)[j] == (
                        if target_in_range(m, k + 1, i as int, j as usize) {
                            CellModel { locked: true, ..orig[j] }
                        } else {
                            orig[j]
                        }) by {
                            assert(held[j] == (if target_in_range(m, k as int, i as int, j as usize) {
                                CellModel { locked: true, ..orig[j] }
                            } else {
                                orig[j]
                            }));
                            lemma_range_shrink(m, k as int, i as int, j as usize);
                            if u@.active {
                                lemma_unique_target(m, k as int);
                                if j == u@.dest as int {
                                    assert(target_in_range(m, k as int, i as int, j as usize));
                                    assert(!target_in_range(m, k + 1, i as int, j as usize));
                                    assert(held[j] == (CellModel { locked: true, ..orig[j] }));
                                    assert(!orig[j].locked);
                                    assert(mems(cells@)[j] == (CellModel {
                                        locked: false,
                                        ..held[j]
                                    }));
                                    assert(mems(cells@)[j] == orig[j]);
                                } else {
                                    assert(mems(cells@)[j] == held[j]);
                                }
                            } else {
                                assert(mems(cells@)[j] == held[j]);
                            }
                        }
                    }
                    k = k + 1;
                }
                proof {
                    assert forall|j: int| 0 <= j < orig.len() implies mems(cells@)[j] == orig[
                        j
                    ] by {
                        assert(!target_in_range(m, i as int, i as int, j as usize));
                    }
                    assert(mems(cells@) =~= orig);
                }
                return false;
            }
            proof {
                assert forall|j: int| 0 <= j < orig.len() implies mems(cells@)[j] == (
                if target_in_range(m, 0, i + 1, j as usize) {
                    CellModel { locked: true, ..orig[j] }
                } else {
                    orig[j]
                }) by {
                    assert(before[j] == (if target_in_range(m, 0, i as int, j as usize) {
                        CellModel { locked: true, ..orig[j] }
                    } else {
                        orig[j]
                    }));
                    lemma_range_extend(m, 0, i as int, j as usize);
                    if m.entries[i as int].active && j == m.entries[i as int].dest as int {
                        assert(mems(cells@)[j] == (CellModel { locked: true, ..before[j] }));
                        assert(before[j] == orig[j]);
                    } else {
                        assert(mems(cells@)[j] == before[j]);
                    }
                }
            }
            i = i + 1;
        }
        proof {
            assert(lock_all_ok(m, orig, pin_epoch));
            assert forall|j: int| 0 <= j < orig.len() implies mems(cells@)[j] == mem_after_lock(
                m,
                orig,
            )[j] by {
                lemma_has_active_is_full_range(m, j as usize);
            }
            assert(mems(cells@) =~= mem_after_lock(m, orig));
        }
        true
    }

    /// Unlock-on-abort: releases every active record's target lock without
    /// touching versions or values. The only path back from the lock phase
    /// without progressing to publish.
    pub fn unlock_entries(&self, cells: &mut Vec<TCellErased>)
        requires
            wf(self@),
            targets_in_bounds(self@, old(cells)@.len() as int),
            all_targets_locked(self@, mems(old(cells)@)),
        ensures
            final(cells)@.len() == old(cells)@.len(),
            mems(final(cells)@) == mem_after_unlock(self@, mems(old(cells)@)),
    {
        let ghost m = self@;
        let ghost orig = mems(old(cells)@);
        let n_cells = cells.len();
        let n = self.data.len();
        proof {
            assert(m.entries.len() == self.data@.len());
            assert(orig.len() == n_cells as int);
        }
        let mut i: usize = 0;
        while i < n
            invariant
                wf(m),
                m == self@,
                targets_in_bounds(m, orig.len() as int),
                all_targets_locked(m, orig),
                i <= n,
                n as int == m.entries.len(),
                cells@.len() == orig.len(),
                orig.len() == n_cells as int,
                orig == mems(old(cells)@),
                forall|j: int|
                    0 <= j < orig.len() ==> mems(cells@)[j] == (if target_in_range(
                        m,
                        0,
                        i as int,
                        j as usize,
                    ) {
                        CellModel { locked: false, ..orig[j] }
                    } else {
                        orig[j]
                    }),
            decreases n - i,
        {
            let ghost before = mems(cells@);
            let e = &self.data[i];
            proof {
                assert(e@ == m.entries[i as int]);
                if e@.active {
                    lemma_unique_target(m, i as int);
                    assert(mems(cells@)[e@.dest as int] == orig[e@.dest as int]);
                }
            }
            e.unlock(cells);
            proof {
                assert forall|j: int| 0 <= j < orig.len() implies mems(cells@)[j] == (
                if target_in_range(m, 0, i + 1, j as usize) {
                    CellModel { locked: false, ..orig[j] }
                } else {
                    orig[j]
                }) by {
                    assert(before[j] == (if target_in_range(m, 0, i as int, j as usize) {
                        CellModel { locked: false, ..orig[j] }
                    } else {
                        orig[j]
                    }));
                    lemma_range_extend(m, 0, i as int, j as usize);
                    if m.entries[i as int].active && j == m.entries[i as int].dest as int {
                        assert(mems(cells@)[j] == (CellModel { locked: false, ..before[j] }));
                        assert(before[j] == orig[j]);
                    } else {
                        assert(mems(cells@)[j] == before[j]);
                    }
                }
            }
            i = i + 1;
        }
        proof {
            assert forall|j: int| 0 <= j < orig.len() implies mems(cells@)[j] == mem_after_unlock(
                m,
                orig,
            )[j] by {
                lemma_has_active_is_full_range(m, j as usize);
            }
            assert(mems(cells@) =~= mem_after_unlock(m, orig));
        }
    }

    /// The validation phase of commit: confirms that every written cell's
    /// version is still compatible with the snapshot. On failure the caller
    /// is responsible for unlocking and retrying; nothing is unlocked here.
    pub fn validate_writes(&self, cells: &Vec<TCellErased>, pin_epoch: u64) -> (r: bool)
        requires
            wf(self@),
            targets_in_bounds(self@, cells@.len() as int),
        ensures
            r == writes_valid(self@, mems(cells@), pin_epoch),
    {
        let ghost m = self@;
        let n = self.data.len();
        proof {
            assert(m.entries.len() == self.data@.len());
        }
        let mut i: usize = 0;
        while i < n
            invariant
                wf(m),
                m == self@,
                targets_in_bounds(m, cells@.len() as int),
                i <= n,
                n as int == m.entries.len(),
                forall|t: int|
                    0 <= t < i && (#[trigger] m.entries[t]).active ==> mems(cells@)[
                        m.entries[t].dest as int
                    ].epoch <= pin_epoch,
            decreases n - i,
        {
            let e = &self.data[i];
            proof {
                assert(e@ == m.entries[i as int]);
            }
            if e.active {
                if !cells[e.dest].current_epoch.read_write_valid(pin_epoch) {
                    proof {
                        assert(mems(cells@)[e@.dest as int].epoch > pin_epoch);
                        assert(!writes_valid(m, mems(cells@), pin_epoch));
                    }
                    return false;
                }
            }
            i = i + 1;
        }
        true
    }

    /// The apply phase of commit: copies every active record's pending value
    /// into its target cell, exactly as many words as the value has. Demands
    /// that every target lock is already held; ordering between transactions
    /// is provided by the publish step.
    pub fn perform_writes(&self, cells: &mut Vec<TCellErased>)
        requires
            wf(self@),
            targets_in_bounds(self@, old(cells)@.len() as int),
            all_targets_locked(self@, mems(old(cells)@)),
            sizes_match(self@, mems(old(cells)@)),
        ensures
            final(cells)@.len() == old(cells)@.len(),
            mems(final(cells)@) == mem_after_perform(self@, mems(old(cells)@)),
    {
        let ghost m = self@;
        let ghost orig = mems(old(cells)@);
        let n_cells = cells.len();
        let n = self.data.len();
        proof {
            assert(m.entries.len() == self.data@.len());
            assert(orig.len() == n_cells as int);
        }
        let mut i: usize = 0;
        while i < n
            invariant
                wf(m),
                m == self@,
                targets_in_bounds(m, orig.len() as int),
                all_targets_locked(m, orig),
                sizes_match(m, orig),
                i <= n,
                n as int == m.entries.len(),
                cells@.len() == orig.len(),
                orig.len() == n_cells as int,
                orig == mems(old(cells)@),
                forall|j: int|
                    0 <= j < orig.len() ==> mems(cells@)[j] == (if target_in_range(
                        m,
                        0,
                        i as int,
                        j as usize,
                    ) {
                        CellModel { value: pending_of(m, j as usize), ..orig[j] }
                    } else {
                        orig[j]
                    }),
            decreases n - i,
        {
            let ghost before = mems(cells@);
            let e = &self.data[i];
            proof {
                assert(e@ == m.entries[i as int]);
                if e@.active {
                    lemma_unique_target(m, i as int);
                    assert(mems(cells@)[e@.dest as int] == orig[e@.dest as int]);
                }
            }
            e.perform_write(cells);
            proof {
                assert forall|j: int| 0 <= j < orig.len() implies mems(cells@)[j] == (
                if target_in_range(m, 0, i + 1, j as usize) {
                    CellModel { value: pending_of(m, j as usize), ..orig[j] }
                } else {
                    orig[j]
                }) by {
                    assert(before[j] == (if target_in_range(m, 0, i as int, j as usize) {
                        CellModel { value: pending_of(m, j as usize), ..orig[j] }
                    } else {
                        orig[j]
                    }));
                    lemma_range_extend(m, 0, i as int, j as usize);
                    if m.entries[i as int].active && j == m.entries[i as int].dest as int {
                        assert(m.index[j as usize] as int == i as int);
                        assert(pending_of(m, j as usize) == m.entries[i as int].pending);
                        assert(mems(cells@)[j] == (CellModel {
                            value: m.entries[i as int].pending,
                            ..before[j]
                        }));
                        assert(before[j] == orig[j]);
                    } else {
                        assert(mems(cells@)[j] == before[j]);
                    }
                }
            }
            i = i + 1;
        }
        proof {
            assert forall|j: int| 0 <= j < orig.len() implies mems(cells@)[j] == mem_after_perform(
                m,
                orig,
            )[j] by {
                lemma_has_active_is_full_range(m, j as usize);
            }
            assert(mems(cells@) =~= mem_after_perform(m, orig));
        }
    }

    /// The publish phase of commit: stamps every written cell with the commit
    /// epoch and releases its lock, atomically per cell, making the new
    /// versions visible.
    pub fn publish(&self, cells: &mut Vec<TCellErased>, epoch: u64)
        requires
            wf(self@),
            targets_in_bounds(self@, old(cells)@.len() as int),
            all_targets_locked(self@, mems(old(cells)@)),
        ensures
            final(cells)@.len() == old(cells)@.len(),
            mems(final(cells)@) == mem_after_publish(self@, mems(old(cells)@), epoch),
    {
        let ghost m = self@;
        let ghost orig = mems(old(cells)@);
        let n_cells = cells.len();
        let n = self.data.len();
        proof {
            assert(m.entries.len() == self.data@.len());
            assert(orig.len() == n_cells as int);
        }
        let mut i: usize = 0;
        while i < n
            invariant
                wf(m),
                m == self@,
                targets_in_bounds(m, orig.len() as int),
                all_targets_locked(m, orig),
                i <= n,
                n as int == m.entries.len(),
                cells@.len() == orig.len(),
                orig.len() == n_cells as int,
                orig == mems(old(cells)@),
                forall|j: int|
                    0 <= j < orig.len() ==> mems(cells@)[j] == (if target_in_range(
                        m,
                        0,
                        i as int,
                        j as usize,
                    ) {
                        CellModel { locked: false, epoch, value: orig[j].value }
                    } else {
                        orig[j]
                    }),
            decreases n - i,
        {
            let ghost before = mems(cells@);
            let e = &self.data[i];
            proof {
                assert(e@ == m.entries[i as int]);
                if e@.active {
                    lemma_unique_target(m, i as int);
                    assert(mems(cells@)[e@.dest as int] == orig[e@.dest as int]);
                }
            }
            e.publish(cells, epoch);
            proof {
                assert forall|j: int| 0 <= j < orig.len() implies mems(cells@)[j] == (
                if target_in_range(m, 0, i + 1, j as usize) {
                    CellModel { locked: false, epoch, value: orig[j].value }
                } else {
                    orig[j]
                }) by {
                    assert(before[j] == (if target_in_range(m, 0, i as int, j as usize) {
                        CellModel { locked: false, epoch, value: orig[j].value }
                    } else {
                        orig[j]
                    }));
                    lemma_range_extend(m, 0, i as int, j as usize);
                    if m.entries[i as int].active && j == m.entries[i as int].dest as int {
                        assert(mems(cells@)[j] == (CellModel {
                            locked: false,
                            epoch,
                            value: before[j].value,
                        }));
                        assert(before[j] == orig[j]);
                    } else {
                        assert(mems(cells@)[j] == before[j]);
                    }
                }
            }
            i = i + 1;
        }
        proof {
            assert forall|j: int| 0 <= j < orig.len() implies mems(cells@)[j] == mem_after_publish(
                m,
                orig,
                epoch,
            )[j] by {
                lemma_has_active_is_full_range(m, j as usize);
            }
            assert(mems(cells@) =~= mem_after_publish(m, orig, epoch));
        }
    }
}

/// Relies on Vec::capacity: the number of elements the vector can hold
/// without reallocating, which is never less than its length.
#[verifier::external_body]
fn vec_capacity(v: &Vec<WriteEntryImpl>) -> (r: usize)
    ensures
        r >= v@.len(),
{
    v.capacity()
}

/// Two record sequences with pairwise equally long pending values have the
/// same footprint.
proof fn lemma_footprint_same_lens(a: Seq<EntryModel>, b: Seq<EntryModel>)
    requires
        a.len() == b.len(),
        forall|i: int| 0 <= i < a.len() ==> (#[trigger] a[i]).pending.len() == b[i].pending.len(),
    ensures
        footprint(a) == footprint(b),
    decreases a.len(),
{
    if a.len() > 0 {
        lemma_footprint_same_lens(a.drop_last(), b.drop_last());
    }
}

} // verus!
