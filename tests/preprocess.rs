use pevm::pevm::{
    beneficiary_states, post_process_beneficiary, preprocess_dependencies, should_execute_sequentially, TransactTo,
    Transaction,
};
use pevm::primitives::{AccountInfo, Address, U256};
use pevm::scheduler::{IncarnationStatus, TxStatus};
use pevm::MemoryValue;

fn address(n: u64) -> Address {
    Address { hi: 0, mid: 0, lo: n }
}

fn transfer(from: u64, to: u64, value: u64) -> Transaction {
    Transaction {
        caller: address(from),
        transact_to: TransactTo::Call(address(to)),
        value: U256::from_u64(value),
        data_is_empty: true,
        gas_price: U256::from_u64(2),
        gas_priority_fee: None,
    }
}

fn waiting() -> TxStatus {
    TxStatus { incarnation: 0, status: IncarnationStatus::Aborting }
}

#[test]
fn single_transfer_needs_no_dependency() {
    let (s, concurrency) = preprocess_dependencies(&address(0), &vec![transfer(1, 2, 100)]).unwrap();
    assert_eq!(s.get_status(0), TxStatus { incarnation: 0, status: IncarnationStatus::ReadyToExecute });
    assert_eq!(concurrency, 2);
    assert!(!s.done());
}

#[test]
fn same_sender_is_chained() {
    let txs = vec![transfer(1, 2, 10), transfer(1, 3, 5), transfer(1, 4, 1), transfer(5, 6, 1)];
    let (s, _) = preprocess_dependencies(&address(0), &txs).unwrap();
    assert_eq!(s.get_status(1), waiting());
    assert_eq!(s.get_status(2), waiting());
    assert_eq!(s.get_status(3).status, IncarnationStatus::ReadyToExecute);
}

#[test]
fn beneficiary_sender_waits_on_previous() {
    let mut txs: Vec<Transaction> = (0..20u64).map(|i| transfer(100 + i, 200 + i, 1)).collect();
    txs[5] = transfer(0, 300, 1);
    let (s, _) = preprocess_dependencies(&address(0), &txs).unwrap();
    assert_eq!(s.get_status(5), waiting());
    assert_eq!(s.get_status(4).status, IncarnationStatus::ReadyToExecute);
    assert_eq!(s.get_status(6).status, IncarnationStatus::ReadyToExecute);
}

#[test]
fn zero_value_recipient_is_not_a_dependency() {
    let txs = vec![transfer(1, 2, 10), transfer(3, 2, 0), transfer(4, 2, 7)];
    let (s, _) = preprocess_dependencies(&address(0), &txs).unwrap();
    assert_eq!(s.get_status(1).status, IncarnationStatus::ReadyToExecute);
    assert_eq!(s.get_status(2), waiting());
}

#[test]
fn mostly_dependent_block_falls_back() {
    // Ten of eleven transactions wait.
    let txs: Vec<Transaction> = (0..11u64).map(|i| transfer(1, 10 + i, 1)).collect();
    assert!(preprocess_dependencies(&address(0), &txs).is_none());
    // Exactly nine tenths is still parallel.
    let txs: Vec<Transaction> = (0..10u64).map(|i| transfer(1, 10 + i, 1)).collect();
    assert!(preprocess_dependencies(&address(0), &txs).is_some());
}

#[test]
fn empty_block_preprocesses() {
    let (s, concurrency) = preprocess_dependencies(&address(0), &vec![]).unwrap();
    assert!(s.done());
    assert_eq!(concurrency, 2);
}

#[test]
fn beneficiary_balance_resolves_lazily() {
    let initial = AccountInfo::from_balance(U256::from_u64(1000));
    let full = AccountInfo { balance: U256::from_u64(7), nonce: 3, code_hash: initial.code_hash };
    let values = vec![
        MemoryValue::LazyBalanceAddition(U256::from_u64(10)),
        MemoryValue::LazyBalanceAddition(U256::from_u64(20)),
        MemoryValue::Basic(full),
        MemoryValue::LazyBalanceAddition(U256::from_u64(5)),
    ];
    let states = beneficiary_states(initial, &values);
    let balances: Vec<U256> = states.iter().map(|a| a.balance).collect();
    assert_eq!(balances, vec![U256::from_u64(1010), U256::from_u64(1030), U256::from_u64(7), U256::from_u64(12)]);
    assert_eq!(states[3].nonce, 3);
}

#[test]
fn post_process_replaces_or_adds() {
    let mut account = AccountInfo::from_balance(U256::from_u64(1));
    let r = post_process_beneficiary(&mut account, MemoryValue::LazyBalanceAddition(U256::from_u64(41)));
    assert_eq!(r.balance, U256::from_u64(42));
    assert_eq!(account, r);
    let other = AccountInfo { balance: U256::from_u64(3), nonce: 9, code_hash: r.code_hash };
    assert_eq!(post_process_beneficiary(&mut account, MemoryValue::Basic(other)), other);
}

#[test]
fn small_blocks_run_sequentially() {
    assert!(should_execute_sequentially(true, 100, 10_000_000));
    assert!(should_execute_sequentially(false, 3, 10_000_000));
    assert!(should_execute_sequentially(false, 100, 650_000));
    assert!(!should_execute_sequentially(false, 4, 650_001));
}

#[test]
fn sender_waits_only_on_same_sender() {
    // B->A 1, then A->C 1: A was only a recipient before, so no dependency.
    let txs = vec![transfer(2, 1, 1), transfer(1, 3, 1)];
    let (s, _) = preprocess_dependencies(&address(0), &txs).unwrap();
    assert_eq!(s.get_status(1).status, IncarnationStatus::ReadyToExecute);
    // A->C 1 after A->B 1 waits on it.
    let txs = vec![transfer(1, 2, 1), transfer(1, 3, 1)];
    let (s, _) = preprocess_dependencies(&address(0), &txs).unwrap();
    assert_eq!(s.get_status(1), waiting());
}

#[test]
fn zero_value_call_to_beneficiary_waits() {
    let txs = vec![transfer(1, 2, 1), transfer(3, 0, 0)];
    let (s, _) = preprocess_dependencies(&address(0), &txs).unwrap();
    assert_eq!(s.get_status(1), waiting());
}

#[test]
fn validation_starts_at_first_call_data() {
    let mut txs = vec![transfer(1, 2, 1), transfer(3, 4, 1)];
    txs[0].data_is_empty = false;
    let (s, _) = preprocess_dependencies(&address(0), &txs).unwrap();
    assert_eq!(s.get_validation_idx(), 0);
    txs[0].data_is_empty = true;
    let (s, _) = preprocess_dependencies(&address(0), &txs).unwrap();
    assert_eq!(s.get_validation_idx(), 2);
    txs[1].data_is_empty = false;
    let (s, _) = preprocess_dependencies(&address(0), &txs).unwrap();
    assert_eq!(s.get_validation_idx(), 1);
    assert_eq!(s.get_execution_idx(), 0);
}
