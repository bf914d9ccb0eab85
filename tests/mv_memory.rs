use pevm::mv_memory::{MvMemory, ReadMemoryResult};
use pevm::primitives::{AccountInfo, U256};
use pevm::{MemoryEntry, MemoryValue, ReadOrigin, TxVersion};

fn word(x: u64) -> U256 {
    U256::from_u64(x)
}

fn version(tx_idx: usize, tx_incarnation: usize) -> TxVersion {
    TxVersion { tx_idx, tx_incarnation }
}

#[test]
fn read_returns_highest_lower_writer() {
    let mut mv = MvMemory::new(4, 99);
    assert_eq!(mv.read(7, 3), ReadMemoryResult::NotFound);
    assert!(mv.record(&version(0, 0), vec![], vec![(7, MemoryValue::Storage(word(1)))]));
    assert!(mv.record(&version(2, 0), vec![], vec![(7, MemoryValue::Storage(word(3)))]));
    assert_eq!(
        mv.read(7, 3),
        ReadMemoryResult::Found { version: version(2, 0), value: MemoryValue::Storage(word(3)) }
    );
    assert_eq!(
        mv.read(7, 2),
        ReadMemoryResult::Found { version: version(0, 0), value: MemoryValue::Storage(word(1)) }
    );
    assert_eq!(mv.read(7, 0), ReadMemoryResult::NotFound);
}

#[test]
fn record_reports_new_locations_and_drops_old_ones() {
    let mut mv = MvMemory::new(3, 99);
    assert!(mv.record(&version(1, 0), vec![], vec![(5, MemoryValue::Storage(word(1)))]));
    // Same location again: nothing new.
    assert!(!mv.record(&version(1, 1), vec![], vec![(5, MemoryValue::Storage(word(2)))]));
    assert_eq!(
        mv.read(5, 2),
        ReadMemoryResult::Found { version: version(1, 1), value: MemoryValue::Storage(word(2)) }
    );
    // Moving to another location drops the old entry.
    assert!(mv.record(&version(1, 2), vec![], vec![(6, MemoryValue::Storage(word(3)))]));
    assert_eq!(mv.read(5, 2), ReadMemoryResult::NotFound);
}

#[test]
fn estimates_block_readers() {
    let mut mv = MvMemory::new(3, 99);
    mv.record(&version(0, 0), vec![], vec![(5, MemoryValue::Storage(word(1)))]);
    mv.convert_writes_to_estimates(0);
    assert_eq!(mv.read(5, 2), ReadMemoryResult::Blocked { blocking_tx_idx: 0 });
    mv.record(&version(0, 1), vec![], vec![(5, MemoryValue::Storage(word(4)))]);
    assert_eq!(
        mv.read(5, 2),
        ReadMemoryResult::Found { version: version(0, 1), value: MemoryValue::Storage(word(4)) }
    );
}

#[test]
fn validation_replays_origins() {
    let mut mv = MvMemory::new(3, 99);
    mv.record(&version(0, 0), vec![], vec![(5, MemoryValue::Storage(word(1)))]);
    mv.record(&version(2, 0), vec![(5, vec![ReadOrigin::MvMemory(version(0, 0))]), (6, vec![ReadOrigin::Storage])], vec![]);
    assert!(mv.validate_read_set(2));
    // A new incarnation of the writer invalidates the read.
    mv.record(&version(0, 1), vec![], vec![(5, MemoryValue::Storage(word(2)))]);
    assert!(!mv.validate_read_set(2));
    // Restore the version read, then a write below to a location read from storage.
    mv.record(&version(2, 1), vec![(5, vec![ReadOrigin::MvMemory(version(0, 1))]), (6, vec![ReadOrigin::Storage])], vec![]);
    assert!(mv.validate_read_set(2));
    mv.record(&version(1, 0), vec![], vec![(6, MemoryValue::Storage(word(9)))]);
    assert!(!mv.validate_read_set(2));
}

#[test]
fn validation_fails_on_estimate() {
    let mut mv = MvMemory::new(2, 99);
    mv.record(&version(0, 0), vec![], vec![(5, MemoryValue::Storage(word(1)))]);
    mv.record(&version(1, 0), vec![(5, vec![ReadOrigin::MvMemory(version(0, 0))])], vec![]);
    mv.convert_writes_to_estimates(0);
    assert!(!mv.validate_read_set(1));
}

#[test]
fn beneficiary_values_come_in_order() {
    let mut mv = MvMemory::new(3, 99);
    mv.record(&version(1, 0), vec![], vec![(99, MemoryValue::LazyBalanceAddition(word(2)))]);
    mv.record(&version(0, 0), vec![], vec![(99, MemoryValue::LazyBalanceAddition(word(1)))]);
    let info = AccountInfo::from_balance(word(5));
    mv.record(&version(2, 0), vec![], vec![(99, MemoryValue::Basic(info))]);
    assert_eq!(
        mv.consume_beneficiary(),
        vec![
            MemoryValue::LazyBalanceAddition(word(1)),
            MemoryValue::LazyBalanceAddition(word(2)),
            MemoryValue::Basic(info),
        ]
    );
}

#[test]
fn snapshot_holds_final_values() {
    let mut mv = MvMemory::new(3, 99);
    mv.record(&version(0, 0), vec![], vec![(5, MemoryValue::Storage(word(1))), (6, MemoryValue::Storage(word(2)))]);
    mv.record(&version(1, 0), vec![], vec![(5, MemoryValue::Storage(word(3)))]);
    mv.record(&version(2, 0), vec![], vec![(7, MemoryValue::Storage(word(4)))]);
    mv.convert_writes_to_estimates(2);
    let mut snap = mv.snapshot();
    snap.sort_by_key(|p| p.0);
    assert_eq!(snap, vec![(5, MemoryValue::Storage(word(3))), (6, MemoryValue::Storage(word(2)))]);
}

#[test]
fn estimate_entries_are_not_data() {
    let e = MemoryEntry::Estimate;
    assert_ne!(e, MemoryEntry::Data(0, MemoryValue::Storage(word(0))));
}
