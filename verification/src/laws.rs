//! The log's guarantees, stated and proved over the mathematical models:
//! uniqueness of active records, soundness and precision of the membership
//! filter, the write/publish round trip, the cleared log's emptiness, and
//! mutual exclusion between racing commits.

use vstd::prelude::*;

use crate::bloom::{filter_hash, lemma_filter_hash_overlap, lemma_filter_or_preserves};
use crate::cell::CellModel;
use crate::write_log::{empty_log, has_active, lock_all_ok, mem_after_lock, mem_after_perform,
    mem_after_publish, pending_of, wf, LogModel};

verus! {

/// At most one active record per cell: within one log lifetime, two distinct
/// records that are both active never share a target cell.
pub proof fn lemma_at_most_one_active(m: LogModel, i: int, j: int)
    requires
        wf(m),
        0 <= i < m.entries.len(),
        0 <= j < m.entries.len(),
        i != j,
        m.entries[i].active,
        m.entries[j].active,
    ensures
        m.entries[i].dest != m.entries[j].dest,
{
}

/// Filter soundness: a cell with an active record is covered by the filter's
/// bitmask, so the filter never answers a strict "absent" for it.
pub proof fn lemma_filter_soundness(m: LogModel, id: usize)
    requires
        wf(m),
        has_active(m, id),
    ensures
        m.bits & filter_hash(id) != 0,
{
    let i = choose|i: int|
        0 <= i < m.entries.len() && (#[trigger] m.entries[i]).active && m.entries[i].dest == id;
    assert(m.bits & filter_hash(m.entries[i].dest) != 0);
}

/// The filter's bitmask is exact: every covered identity hashes like some
/// recorded cell. This holds of a log built by records alone; testing and
/// setting a bit by hand (`contained_set`) may cover more.
pub open spec fn bits_exact(m: LogModel) -> bool {
    forall|id: usize| #![trigger filter_hash(id)]
        m.bits & filter_hash(id) != 0 ==> exists|i: int|
            0 <= i < m.entries.len() && filter_hash((#[trigger] m.entries[i]).dest)
                == filter_hash(id)
}

/// A log whose bitmask is empty is exactly covered.
pub proof fn lemma_bits_exact_empty(m: LogModel)
    requires
        m.bits == 0,
    ensures
        bits_exact(m),
{
    assert forall|id: usize| #![trigger filter_hash(id)]
        m.bits & filter_hash(id) != 0 implies exists|i: int|
        0 <= i < m.entries.len() && filter_hash((#[trigger] m.entries[i]).dest) == filter_hash(
            id,
        ) by {
        let h = filter_hash(id);
        assert(0u64 & h == 0) by (bit_vector);
    }
}

/// Recording a write keeps the bitmask exact: the one new bit is the new
/// record's own.
pub proof fn lemma_bits_exact_after_record(prior: LogModel, m: LogModel, id: usize)
    requires
        bits_exact(prior),
        m.bits == prior.bits | filter_hash(id),
        m.entries.len() == prior.entries.len() + 1,
        forall|i: int| 0 <= i < prior.entries.len() ==> m.entries[i] == prior.entries[i],
        m.entries.last().dest == id,
    ensures
        bits_exact(m),
{
    let n = prior.entries.len();
    assert forall|probe: usize| #![trigger filter_hash(probe)]
        m.bits & filter_hash(probe) != 0 implies exists|i: int|
        0 <= i < m.entries.len() && filter_hash((#[trigger] m.entries[i]).dest) == filter_hash(
            probe,
        ) by {
        lemma_filter_or_preserves(prior.bits, filter_hash(id), filter_hash(probe));
        if prior.bits & filter_hash(probe) != 0 {
            let i = choose|i: int|
                0 <= i < prior.entries.len() && filter_hash((#[trigger] prior.entries[i]).dest)
                    == filter_hash(probe);
            assert(m.entries[i] == prior.entries[i]);
            assert(filter_hash(m.entries[i].dest) == filter_hash(probe));
        } else {
            lemma_filter_hash_overlap(id, probe);
            assert(m.entries[n as int].dest == id);
            assert(filter_hash(m.entries[n as int].dest) == filter_hash(probe));
        }
    }
}

/// Deactivating a record or overwriting a pending value in place keeps the
/// bitmask exact: targets and bits both stay as they are.
pub proof fn lemma_bits_exact_entry_update(prior: LogModel, m: LogModel)
    requires
        bits_exact(prior),
        m.bits == prior.bits,
        m.entries.len() == prior.entries.len(),
        forall|i: int|
            0 <= i < prior.entries.len() ==> (#[trigger] m.entries[i]).dest
                == prior.entries[i].dest,
    ensures
        bits_exact(m),
{
    assert forall|probe: usize| #![trigger filter_hash(probe)]
        m.bits & filter_hash(probe) != 0 implies exists|i: int|
        0 <= i < m.entries.len() && filter_hash((#[trigger] m.entries[i]).dest) == filter_hash(
            probe,
        ) by {
        let i = choose|i: int|
            0 <= i < prior.entries.len() && filter_hash((#[trigger] prior.entries[i]).dest)
                == filter_hash(probe);
        assert(m.entries[i].dest == prior.entries[i].dest);
        assert(filter_hash(m.entries[i].dest) == filter_hash(probe));
    }
}

/// No false negatives, false positives only under collision: with an exact
/// bitmask, a covered identity that was never recorded hashes to the very bit
/// of some differently named recorded cell — a genuine hash collision.
/// (That a recorded cell is never reported absent is `lemma_filter_soundness`.)
pub proof fn lemma_false_positive_needs_collision(m: LogModel, id: usize)
    requires
        bits_exact(m),
        m.bits & filter_hash(id) != 0,
        forall|i: int| 0 <= i < m.entries.len() ==> (#[trigger] m.entries[i]).dest != id,
    ensures
        exists|i: int|
            0 <= i < m.entries.len() && (#[trigger] m.entries[i]).dest != id && filter_hash(
                m.entries[i].dest,
            ) == filter_hash(id),
{
    let i = choose|i: int|
        0 <= i < m.entries.len() && filter_hash((#[trigger] m.entries[i]).dest) == filter_hash(
            id,
        );
    assert(m.entries[i].dest != id && filter_hash(m.entries[i].dest) == filter_hash(id));
}

/// Write/publish round trip: applying the pending values and then publishing
/// under a commit epoch leaves every written cell holding its pending value,
/// stamped with that epoch and unlocked — and every other cell untouched.
pub proof fn lemma_write_publish_round_trip(m: LogModel, cells: Seq<CellModel>, epoch: u64, id: usize)
    requires
        wf(m),
        has_active(m, id),
        id < cells.len(),
    ensures
        mem_after_publish(m, mem_after_perform(m, cells), epoch)[id as int].value == pending_of(
            m,
            id,
        ),
        mem_after_publish(m, mem_after_perform(m, cells), epoch)[id as int].epoch == epoch,
        !mem_after_publish(m, mem_after_perform(m, cells), epoch)[id as int].locked,
        forall|j: int|
            0 <= j < cells.len() && !has_active(m, j as usize) ==> mem_after_publish(
                m,
                mem_after_perform(m, cells),
                epoch,
            )[j] == cells[j],
{
}

/// A cleared log is well formed, observably empty, and exactly covered; a
/// further clear leaves it at the same model, so clearing an empty log is a
/// no-op: `is_empty` answers true before and after.
pub proof fn lemma_clear_idempotent()
    ensures
        wf(empty_log()),
        empty_log().entries.len() == 0,
        bits_exact(empty_log()),
{
    lemma_bits_exact_empty(empty_log());
}

/// Mutual exclusion between racing commits: once one log's lock phase has
/// succeeded, a second log whose write set overlaps it cannot lock — its
/// lock phase reports failure and, by the lock phase's contract, leaves
/// memory exactly as it found it, holding zero locks.
pub proof fn lemma_lock_exclusion(
    l1: LogModel,
    l2: LogModel,
    cells: Seq<CellModel>,
    pin1: u64,
    pin2: u64,
    x: usize,
)
    requires
        wf(l1),
        wf(l2),
        has_active(l1, x),
        has_active(l2, x),
        x < cells.len(),
        lock_all_ok(l1, cells, pin1),
    ensures
        !lock_all_ok(l2, mem_after_lock(l1, cells), pin2),
{
    let after = mem_after_lock(l1, cells);
    assert(after[x as int].locked);
    let i = choose|i: int|
        0 <= i < l2.entries.len() && (#[trigger] l2.entries[i]).active && l2.entries[i].dest == x;
    assert(l2.entries[i].active && l2.entries[i].dest == x);
}

} // verus!
