use write_log::bloom::Contained;
use write_log::cell::{EpochLock, TCellErased};
use write_log::write_log::{Entry, WriteEntryImpl, WriteLog};

fn fresh_cells(n: usize, words: usize) -> Vec<TCellErased> {
    let mut v = Vec::new();
    for _ in 0..n {
        v.push(TCellErased::new(0, vec![0; words]));
    }
    v
}

#[test]
fn epoch_lock_protocol() {
    let mut lock = EpochLock::new(4);
    assert!(!lock.is_locked());
    assert_eq!(lock.epoch(), 4);
    // a snapshot older than the version cannot acquire
    assert!(!lock.try_lock(3));
    assert!(lock.try_lock(4));
    assert!(lock.is_locked());
    // a held lock contends
    assert!(!lock.try_lock(10));
    lock.unlock();
    assert!(!lock.is_locked());
    assert_eq!(lock.epoch(), 4);
    assert!(lock.try_lock(9));
    lock.unlock_as_epoch(9);
    assert!(!lock.is_locked());
    assert_eq!(lock.epoch(), 9);
    assert!(lock.read_write_valid(9));
    assert!(!lock.read_write_valid(8));
}

#[test]
fn write_after_write_coalesces() {
    // record cell A=1, cell B=2, then A=3 again: exactly one active record
    // per cell, A holding 3, B holding 2; an unrecorded cell is not found.
    let a: usize = 0;
    let b: usize = 1;
    let c: usize = 2;
    let mut log = WriteLog::new();
    assert!(log.is_empty());
    assert!(!log.record_update(a, vec![1]));
    assert!(!log.record_update(b, vec![2]));
    match log.entry(a) {
        Entry::Occupied { index } => log.set_pending(index, vec![3]),
        Entry::Vacant => panic!("a recorded cell must have an occupied entry"),
    }
    let ra = log.find(a).expect("a recorded cell must be found");
    assert_eq!(ra.read(), vec![3]);
    assert_eq!(ra.tcell(), Some(a));
    assert!(ra.is_target(a));
    let rb = log.find(b).expect("a recorded cell must be found");
    assert_eq!(rb.read(), vec![2]);
    assert!(log.find(c).is_none());
    assert!(matches!(log.entry(c), Entry::Vacant));
    assert_eq!(log.epoch_locks(), vec![a, b]);
    assert_eq!(log.write_entries().len(), 2);
}

#[test]
fn filter_no_false_negatives_and_collision_positives() {
    let mut log = WriteLog::new();
    for id in 0..10usize {
        assert!(!log.record_update(id, vec![id]));
    }
    // never a strict "absent" for a recorded cell
    for id in 0..10usize {
        assert_eq!(log.contained(id), Contained::Maybe);
        assert!(log.find(id).is_some());
    }
    // distinct hash bits: never-recorded cells are definitely absent
    for id in 10..64usize {
        assert_eq!(log.contained(id), Contained::No);
        assert!(log.find(id).is_none());
    }
    // 64 hashes to the bit of 0: a false positive the exact index clears up
    assert_eq!(log.contained(64), Contained::Maybe);
    assert!(log.find(64).is_none());
    assert!(matches!(log.entry(64), Entry::Vacant));
}

#[test]
fn lock_failure_rolls_back_all_locks() {
    let mut mem = fresh_cells(3, 1);
    // a competing transaction holds cell 1
    assert!(mem[1].current_epoch.try_lock(10));
    let mut log = WriteLog::new();
    log.record_update(0, vec![7]);
    log.record_update(1, vec![8]);
    log.record_update(2, vec![9]);
    assert!(!log.try_lock_entries(&mut mem, 10));
    // the locks taken before the contended cell were released again;
    // the cell that failed and the never-attempted one are untouched
    assert!(!mem[0].current_epoch.is_locked());
    assert!(mem[1].current_epoch.is_locked());
    assert!(!mem[2].current_epoch.is_locked());
}

#[test]
fn lock_fails_on_postdated_version() {
    let mut mem = fresh_cells(2, 1);
    mem[1] = TCellErased::new(8, vec![0]);
    let mut log = WriteLog::new();
    log.record_update(0, vec![1]);
    log.record_update(1, vec![2]);
    // cell 1 was published after the snapshot at epoch 5
    assert!(!log.try_lock_entries(&mut mem, 5));
    assert!(!mem[0].current_epoch.is_locked());
    assert!(!mem[1].current_epoch.is_locked());
    assert!(log.try_lock_entries(&mut mem, 8));
    assert!(mem[0].current_epoch.is_locked());
    assert!(mem[1].current_epoch.is_locked());
    log.unlock_entries(&mut mem);
    assert!(!mem[0].current_epoch.is_locked());
    assert!(!mem[1].current_epoch.is_locked());
    assert_eq!(mem[1].current_epoch.epoch(), 8);
}

#[test]
fn write_publish_round_trip() {
    let mut mem = fresh_cells(2, 2);
    let mut log = WriteLog::new();
    log.record_update(0, vec![41, 42]);
    assert!(log.try_lock_entries(&mut mem, 0));
    assert!(log.validate_writes(&mem, 0));
    log.perform_writes(&mut mem);
    log.publish(&mut mem, 5);
    // the written cell holds the value under the commit epoch, unlocked
    assert_eq!(mem[0].store, vec![41, 42]);
    assert_eq!(mem[0].current_epoch.epoch(), 5);
    assert!(!mem[0].current_epoch.is_locked());
    // the untargeted cell is untouched
    assert_eq!(mem[1].store, vec![0, 0]);
    assert_eq!(mem[1].current_epoch.epoch(), 0);
    log.clear();
    assert!(log.is_empty());
}

#[test]
fn validation_detects_newer_version() {
    let mut mem = fresh_cells(1, 1);
    mem[0] = TCellErased::new(7, vec![0]);
    let mut log = WriteLog::new();
    log.record_update(0, vec![1]);
    // version 7 postdates snapshot 3
    assert!(!log.validate_writes(&mem, 3));
    assert!(log.validate_writes(&mem, 7));
}

#[test]
fn clear_on_empty_log_is_noop() {
    let mut log = WriteLog::new();
    assert!(log.is_empty());
    log.clear();
    assert!(log.is_empty());
    log.clear();
    assert!(log.is_empty());
    assert_eq!(log.word_len(), 0);
}

#[test]
fn clear_no_drop_resets_filter_and_records() {
    let mut log = WriteLog::new();
    log.record_update(3, vec![1]);
    assert!(!log.is_empty());
    assert_eq!(log.contained(3), Contained::Maybe);
    log.clear_no_drop();
    assert!(log.is_empty());
    assert_eq!(log.word_len(), 0);
    assert_eq!(log.contained(3), Contained::No);
}

#[test]
fn racing_commits_exclude_each_other() {
    let mut mem = fresh_cells(1, 1);
    let mut l1 = WriteLog::new();
    l1.record_update(0, vec![1]);
    let mut l2 = WriteLog::new();
    l2.record_update(0, vec![2]);
    // exactly one of the two overlapping lock phases wins
    assert!(l1.try_lock_entries(&mut mem, 0));
    assert!(!l2.try_lock_entries(&mut mem, 0));
    // the loser holds zero locks; the winner still holds its lock
    assert!(mem[0].current_epoch.is_locked());
    l1.perform_writes(&mut mem);
    l1.publish(&mut mem, 1);
    assert_eq!(mem[0].store, vec![1]);
    // once the winner has published, the loser can retry under a fresh pin
    assert!(l2.try_lock_entries(&mut mem, 1));
    assert!(l2.validate_writes(&mem, 1));
    l2.perform_writes(&mut mem);
    l2.publish(&mut mem, 2);
    assert_eq!(mem[0].store, vec![2]);
    assert_eq!(mem[0].current_epoch.epoch(), 2);
    assert!(!mem[0].current_epoch.is_locked());
}

#[test]
fn deactivated_record_is_inert_and_replaceable() {
    let mut log = WriteLog::new();
    assert!(!log.record_update(5, vec![1]));
    let idx = match log.entry(5) {
        Entry::Occupied { index } => index,
        Entry::Vacant => panic!("a recorded cell must have an occupied entry"),
    };
    log.deactivate_at(idx);
    assert!(matches!(log.entry(5), Entry::Vacant));
    if let Some(e) = log.find(5) {
        assert_eq!(e.tcell(), None);
        assert!(!e.is_target(5));
    }
    // re-recording replaces the stale index binding: write-after-write
    assert!(log.record_update(5, vec![2]));
    assert_eq!(log.find(5).unwrap().read(), vec![2]);
    assert_eq!(log.epoch_locks(), vec![5]);
}

#[test]
fn contained_set_then_record_unchecked() {
    let mut log = WriteLog::new();
    match log.contained_set(9) {
        Contained::No => log.record_unchecked(9, vec![4]),
        Contained::Maybe => panic!("a fresh filter cannot cover the cell yet"),
    }
    assert_eq!(log.find(9).unwrap().read(), vec![4]);
    // one header word plus one value word
    assert_eq!(log.word_len(), 2);
    // the bit is already set now
    assert_eq!(log.contained_set(9), Contained::Maybe);
}

#[test]
fn word_len_counts_header_and_value_words() {
    let mut log = WriteLog::new();
    log.record_update(0, vec![1]);
    assert_eq!(log.word_len(), 2);
    log.record_update(1, vec![2, 3, 4]);
    assert_eq!(log.word_len(), 6);
}

#[test]
fn fresh_log_reports_allocation_ahead() {
    // a fresh log has allocated nothing, so the first push must allocate
    assert!(WriteLog::new().next_push_allocates());
}

#[test]
fn find_skip_filter_agrees_with_find() {
    let mut log = WriteLog::new();
    log.record_update(2, vec![5]);
    assert_eq!(log.find_skip_filter(2).unwrap().read(), vec![5]);
    assert!(log.find_skip_filter(3).is_none());
    // 66 collides with 2 in the bitmask but has no exact binding
    assert!(log.find_skip_filter(66).is_none());
}

#[test]
fn write_entries_expose_records_in_order() {
    let mut log = WriteLog::new();
    log.record_update(4, vec![1]);
    log.record_update(6, vec![2, 3]);
    let es = log.write_entries();
    assert_eq!(es.len(), 2);
    assert_eq!(es[0].tcell(), Some(4));
    assert_eq!(es[0].read(), vec![1]);
    assert_eq!(es[1].pending(), &vec![2, 3]);
}

#[test]
fn record_capabilities_work_standalone() {
    let mut mem = fresh_cells(1, 1);
    let e = WriteEntryImpl::new(0, vec![9]);
    assert_eq!(e.tcell(), Some(0));
    assert!(e.is_target(0));
    assert!(!e.is_target(1));
    assert_eq!(e.pending(), &vec![9]);
    assert_eq!(e.read(), vec![9]);
    assert!(e.try_lock(&mut mem, 0));
    // a second acquisition contends
    assert!(!e.try_lock(&mut mem, 0));
    e.perform_write(&mut mem);
    assert_eq!(mem[0].store, vec![9]);
    e.publish(&mut mem, 3);
    assert!(!mem[0].current_epoch.is_locked());
    assert_eq!(mem[0].current_epoch.epoch(), 3);

    // a deactivated record is inert: every operation is a no-op
    let mut d = WriteEntryImpl::new(0, vec![77]);
    d.deactivate();
    assert_eq!(d.tcell(), None);
    assert!(d.try_lock(&mut mem, 0));
    d.perform_write(&mut mem);
    d.publish(&mut mem, 8);
    assert_eq!(mem[0].store, vec![9]);
    assert_eq!(mem[0].current_epoch.epoch(), 3);
}

#[test]
fn unlock_after_failed_validation() {
    let mut mem = fresh_cells(2, 1);
    let mut log = WriteLog::new();
    log.record_update(0, vec![6]);
    log.record_update(1, vec![7]);
    assert!(log.try_lock_entries(&mut mem, 0));
    // the driver aborts: unlock everything, nothing was written
    log.unlock_entries(&mut mem);
    assert!(!mem[0].current_epoch.is_locked());
    assert!(!mem[1].current_epoch.is_locked());
    assert_eq!(mem[0].store, vec![0]);
    assert_eq!(mem[1].store, vec![0]);
}
