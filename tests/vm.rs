use pevm::mv_memory::MvMemory;
use pevm::pevm::{TransactTo, Transaction};
use pevm::primitives::{AccountInfo, Address, B256, U256};
use pevm::vm::{
    apply_rewards, build_write_set, finish_account_read, is_maybe_lazy, is_removed, next_validation_idx,
    read_account, read_storage_slot, reward_amount, AccountChange, AccountRead, StorageRead,
};
use pevm::{MemoryValue, ReadOrigin, TxVersion};

fn word(x: u64) -> U256 {
    U256::from_u64(x)
}

fn address(n: u64) -> Address {
    Address { hi: 0, mid: 0, lo: n }
}

fn version(tx_idx: usize, tx_incarnation: usize) -> TxVersion {
    TxVersion { tx_idx, tx_incarnation }
}

fn found(r: AccountRead) -> (Vec<ReadOrigin>, Option<AccountInfo>, U256) {
    match r {
        AccountRead::Found { origins, account, addition } => (origins, account, addition),
        other => panic!("unexpected read {other:?}"),
    }
}

#[test]
fn lazy_chain_adds_up_to_full_account() {
    let mut mv = MvMemory::new(4, 9);
    let base = AccountInfo { balance: word(100), nonce: 2, code_hash: AccountInfo::empty().code_hash };
    mv.record(&version(0, 0), vec![], vec![(9, MemoryValue::Basic(base))]);
    mv.record(&version(1, 0), vec![], vec![(9, MemoryValue::LazyBalanceAddition(word(5)))]);
    mv.record(&version(2, 0), vec![], vec![(9, MemoryValue::LazyBalanceAddition(word(7)))]);
    let (origins, account, addition) = found(read_account(&mv, 9, 3, true));
    assert_eq!(
        origins,
        vec![
            ReadOrigin::MvMemory(version(2, 0)),
            ReadOrigin::MvMemory(version(1, 0)),
            ReadOrigin::MvMemory(version(0, 0)),
        ]
    );
    assert_eq!(addition, word(12));
    let account = account.unwrap();
    assert_eq!(account.balance, word(112));
    assert_eq!(account.nonce, 2);
}

#[test]
fn beneficiary_read_needs_every_lower_transaction() {
    let mut mv = MvMemory::new(4, 9);
    mv.record(&version(0, 0), vec![], vec![(9, MemoryValue::LazyBalanceAddition(word(1)))]);
    mv.record(&version(2, 0), vec![], vec![(9, MemoryValue::LazyBalanceAddition(word(1)))]);
    assert!(matches!(read_account(&mv, 9, 3, true), AccountRead::Blocked(2)));
    // Without the rule the gap is read through, down to storage.
    let (origins, account, addition) = found(read_account(&mv, 9, 3, false));
    assert_eq!(origins.len(), 3);
    assert_eq!(origins[2], ReadOrigin::Storage);
    assert!(account.is_none());
    assert_eq!(addition, word(2));
    // A location nobody wrote blocks on the previous transaction.
    assert!(matches!(read_account(&mv, 10, 3, true), AccountRead::Blocked(2)));
}

#[test]
fn account_read_edges() {
    let mut mv = MvMemory::new(3, 9);
    let (origins, account, _) = found(read_account(&mv, 4, 0, false));
    assert_eq!(origins, vec![ReadOrigin::Storage]);
    assert!(account.is_none());
    mv.record(&version(0, 0), vec![], vec![(4, MemoryValue::Storage(word(1)))]);
    assert!(matches!(read_account(&mv, 4, 1, false), AccountRead::InvalidType));
    mv.convert_writes_to_estimates(0);
    assert!(matches!(read_account(&mv, 4, 2, false), AccountRead::Blocked(0)));
}

#[test]
fn storage_fallback_adds_the_additions() {
    let stored = AccountInfo { balance: word(50), nonce: 1, code_hash: B256 { w0: 1, w1: 2, w2: 3, w3: 4 } };
    let r = finish_account_read(word(5), Some(stored)).unwrap();
    assert_eq!(r.balance, word(55));
    assert_eq!(r.code_hash, stored.code_hash);
    assert_eq!(finish_account_read(word(5), None), Some(AccountInfo::from_balance(word(5))));
    assert_eq!(finish_account_read(word(0), None), None);
}

#[test]
fn storage_slot_reads() {
    let mut mv = MvMemory::new(3, 9);
    assert_eq!(read_storage_slot(&mv, 4, 2), StorageRead::FromStorage);
    mv.record(&version(0, 0), vec![], vec![(4, MemoryValue::Storage(word(8)))]);
    assert_eq!(read_storage_slot(&mv, 4, 2), StorageRead::Found(version(0, 0), word(8)));
    assert_eq!(read_storage_slot(&mv, 4, 0), StorageRead::FromStorage);
    mv.record(&version(1, 0), vec![], vec![(4, MemoryValue::LazyBalanceAddition(word(1)))]);
    assert_eq!(read_storage_slot(&mv, 4, 2), StorageRead::InvalidType);
    mv.convert_writes_to_estimates(1);
    assert_eq!(read_storage_slot(&mv, 4, 2), StorageRead::Blocked(1));
}

fn change(n: u64, info: AccountInfo) -> AccountChange {
    AccountChange {
        address: address(n),
        location: n,
        is_selfdestructed: false,
        is_touched: true,
        info,
        changed_slots: vec![],
    }
}

#[test]
fn write_set_classifies_changes() {
    let sender = AccountInfo { balance: word(890), nonce: 1, code_hash: AccountInfo::empty().code_hash };
    let recipient = AccountInfo::from_balance(word(100));
    let unchanged = AccountInfo::from_balance(word(3));
    let mut destroyed = change(4, unchanged);
    destroyed.is_selfdestructed = true;
    let mut contract = change(5, AccountInfo { balance: word(1), nonce: 1, code_hash: B256 { w0: 9, w1: 9, w2: 9, w3: 9 } });
    contract.changed_slots = vec![(50, word(6))];
    let changes = vec![change(1, sender), change(2, recipient), change(3, unchanged), destroyed, contract];
    let cache = vec![(1, AccountInfo::from_balance(word(1000))), (3, unchanged)];
    let ws = build_write_set(&changes, &cache, true, Some(address(2)), word(100));
    assert_eq!(
        ws,
        vec![
            (1, MemoryValue::Basic(sender)),
            (2, MemoryValue::LazyBalanceAddition(word(100))),
            (4, MemoryValue::Basic(AccountInfo::empty())),
            (5, MemoryValue::Basic(changes[4].info)),
            (50, MemoryValue::Storage(word(6))),
        ]
    );
}

#[test]
fn rewards_fold_into_existing_write() {
    let mut ws = vec![(1, MemoryValue::Storage(word(1))), (9, MemoryValue::LazyBalanceAddition(word(2)))];
    apply_rewards(&mut ws, 9, word(40));
    assert_eq!(ws[1], (9, MemoryValue::LazyBalanceAddition(word(42))));
    let mut ws = vec![(9, MemoryValue::Basic(AccountInfo::from_balance(word(1))))];
    apply_rewards(&mut ws, 9, word(4));
    assert_eq!(ws, vec![(9, MemoryValue::Basic(AccountInfo::from_balance(word(5))))]);
    let mut ws = vec![(1, MemoryValue::Storage(word(1)))];
    apply_rewards(&mut ws, 9, word(4));
    assert_eq!(ws, vec![(1, MemoryValue::Storage(word(1))), (9, MemoryValue::LazyBalanceAddition(word(4)))]);
}

#[test]
fn single_transfer_pays_fee_to_beneficiary() {
    let tx = Transaction {
        caller: address(1),
        transact_to: TransactTo::Call(address(2)),
        value: word(100),
        data_is_empty: true,
        gas_price: word(3),
        gas_priority_fee: None,
    };
    // After London the base fee is burnt.
    let fee = reward_amount(&tx, word(1), true, 21000);
    assert_eq!(fee, word(42000));
    assert_eq!(reward_amount(&tx, word(1), false, 21000), word(63000));
    let capped = Transaction { gas_priority_fee: Some(word(1)), gas_price: word(10), ..tx };
    assert_eq!(reward_amount(&capped, word(2), true, 10), word(10));
    // The recipient's write is lazy; the beneficiary earns the fee.
    let mut ws = build_write_set(&vec![change(2, AccountInfo::from_balance(word(100)))], &vec![], is_maybe_lazy(&tx), Some(address(2)), tx.value);
    apply_rewards(&mut ws, 9, fee);
    assert_eq!(ws, vec![(2, MemoryValue::LazyBalanceAddition(word(100))), (9, MemoryValue::LazyBalanceAddition(word(42000)))]);
}

#[test]
fn validation_resumes_where_needed() {
    let ws = vec![(1, MemoryValue::Storage(word(0))), (9, MemoryValue::Storage(word(0)))];
    assert_eq!(next_validation_idx(0, false, false, &ws, 1, Some(2), 9), None);
    assert_eq!(next_validation_idx(3, false, false, &ws, 1, Some(2), 9), Some(3));
    assert_eq!(next_validation_idx(3, true, true, &ws, 1, Some(2), 9), Some(4));
    assert_eq!(next_validation_idx(3, true, false, &ws, 1, Some(2), 9), None);
    let outside = vec![(7, MemoryValue::Storage(word(0)))];
    assert_eq!(next_validation_idx(3, true, false, &outside, 1, Some(2), 9), Some(4));
}

#[test]
fn lazy_and_removal_decisions() {
    let tx = Transaction {
        caller: address(1),
        transact_to: TransactTo::Call(address(2)),
        value: word(1),
        data_is_empty: true,
        gas_price: word(1),
        gas_priority_fee: None,
    };
    assert!(is_maybe_lazy(&tx));
    assert!(!is_maybe_lazy(&Transaction { transact_to: TransactTo::Call(address(1)), ..tx }));
    assert!(!is_maybe_lazy(&Transaction { data_is_empty: false, ..tx }));
    assert!(is_removed(true, false, false));
    assert!(is_removed(false, true, true));
    assert!(!is_removed(false, true, false));
}
