use pevm::hashing::{AddressHasher, IdentityHasher};
use pevm::pevm::{post_process_beneficiary, TransactTo, Transaction};
use pevm::primitives::{min, AccountInfo, Address, U256};
use pevm::vm::reward_amount;
use pevm::MemoryValue;
use pevm::pevm::PevmError;
use pevm::ReadError;

fn word(x: u64) -> U256 {
    U256::from_u64(x)
}

fn credited(balance: U256, addition: U256) -> U256 {
    let mut account = AccountInfo::from_balance(balance);
    post_process_beneficiary(&mut account, MemoryValue::LazyBalanceAddition(addition)).balance
}

fn priced(gas_price: U256, gas_priority_fee: Option<U256>) -> Transaction {
    Transaction {
        caller: Address { hi: 0, mid: 0, lo: 1 },
        transact_to: TransactTo::Create,
        value: word(0),
        data_is_empty: false,
        gas_price,
        gas_priority_fee,
    }
}

#[test]
fn addition_carries_across_limbs() {
    let a = U256 { l0: u64::MAX, l1: 0, l2: 0, l3: 0 };
    assert_eq!(credited(a, word(1)), U256 { l0: 0, l1: 1, l2: 0, l3: 0 });
}

#[test]
fn addition_wraps_at_the_top() {
    let max = U256 { l0: u64::MAX, l1: u64::MAX, l2: u64::MAX, l3: u64::MAX };
    assert_eq!(credited(max, word(1)), word(0));
    assert_eq!(credited(word(40), word(2)), word(42));
}

#[test]
fn reward_multiplies_across_limbs() {
    let price = U256 { l0: 0, l1: 1, l2: 0, l3: 0 };
    assert_eq!(reward_amount(&priced(price, None), word(0), false, 3), U256 { l0: 0, l1: 3, l2: 0, l3: 0 });
    assert_eq!(reward_amount(&priced(word(3), None), word(0), false, 21000), word(63000));
}

#[test]
fn burnt_base_fee_stops_at_zero() {
    assert_eq!(reward_amount(&priced(word(10), None), word(3), true, 2), word(14));
    assert_eq!(reward_amount(&priced(word(3), None), word(10), true, 2), word(0));
}

#[test]
fn comparisons_follow_the_numbers() {
    let high = U256 { l0: 0, l1: 0, l2: 0, l3: 1 };
    assert_eq!(min(word(u64::MAX), high), word(u64::MAX));
    assert_eq!(min(high, word(5)), word(5));
    assert_eq!(min(word(4), word(5)), word(4));
    assert!(word(0).is_zero());
    assert!(!high.is_zero());
    // The priority fee caps the price.
    assert_eq!(reward_amount(&priced(word(10), Some(word(1))), word(2), false, 1), word(3));
}

#[test]
fn empty_account_has_the_empty_code_hash() {
    let e = AccountInfo::empty();
    assert!(e.is_empty_code_hash());
    assert!(e.balance.is_zero());
    let f = AccountInfo::from_balance(word(9));
    assert_eq!(f.balance, word(9));
    assert_eq!(f.nonce, 0);
}

#[test]
fn address_hasher_takes_the_last_eight_bytes() {
    let bytes: Vec<u8> = (1..=20).collect();
    let mut h = AddressHasher::default();
    h.write(&bytes);
    assert_eq!(h.finish(), 0x0d0e0f1011121314);
}

#[test]
fn identity_hasher_keeps_the_key() {
    let mut h = IdentityHasher::default();
    h.write_u64(0xdead_beef);
    assert_eq!(h.finish(), 0xdead_beef);
}

#[test]
fn error_values_compare() {
    assert_eq!(PevmError::ExecutionError("x".to_string()), PevmError::ExecutionError("x".to_string()));
    assert_ne!(PevmError::UnknownBlockSpec, PevmError::MissingHeaderData);
    assert_ne!(PevmError::MissingTransactionData, PevmError::UnreachableError);
    assert_eq!(ReadError::BlockingIndex(3), ReadError::BlockingIndex(3));
    assert_ne!(ReadError::NotFound, ReadError::InvalidMemoryLocationType);
    assert_ne!(ReadError::StorageError("a".to_string()), ReadError::NotFound);
}
