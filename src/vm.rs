//! The decisions of the per-transaction adapter: how a read is served from
//! the multi-version memory, which writes an execution produces, the
//! beneficiary's reward, and from where validation must resume.
use vstd::prelude::*;

use crate::mv_memory::{below_count, lemma_below_count, read_entries, LocationEntries, MvMemory, ReadMemoryResult};
use crate::pevm::{TransactTo, Transaction};
use crate::primitives::{
    keccak_empty, min, saturating_sub, wrapping_add, wrapping_mul, AccountInfo, Address, U256,
    word_modulus,
};
use crate::{MemoryEntry, MemoryLocationHash, MemoryValue, ReadOrigin, TxIdx, TxVersion};

verus! {

/// How reading an account's location ends, before storage is consulted.
pub ghost enum ChainEnd {
    /// The read must wait for this transaction.
    Blocked(TxIdx),
    /// A storage value was found at an account location.
    Invalid,
    /// The origins read, the full account found below the lazy additions
    /// (none: read storage), and the sum of the additions modulo `2^256`.
    Done(Seq<ReadOrigin>, Option<AccountInfo>, nat),
}

/// Walks down the entries of an account's location from `s[pos - 1]`,
/// adding lazy balance additions until a full account is found. `cur` is
/// the transaction above the entry looked at. Where `consecutive`, every
/// transaction below `tx` must have an entry, or the read waits for
/// `tx - 1`.
pub open spec fn lazy_chain(
    s: LocationEntries,
    tx: TxIdx,
    consecutive: bool,
    pos: int,
    cur: int,
    origins: Seq<ReadOrigin>,
    addition: nat,
) -> ChainEnd
    decreases pos,
{
    if pos <= 0 {
        if consecutive && cur > 0 {
            ChainEnd::Blocked((tx - 1) as TxIdx)
        } else {
            ChainEnd::Done(origins.push(ReadOrigin::Storage), None, addition)
        }
    } else {
        let idx = s[pos - 1].0;
        match s[pos - 1].1 {
            MemoryEntry::Estimate => ChainEnd::Blocked(if consecutive { (tx - 1) as TxIdx } else { idx }),
            MemoryEntry::Data(inc, value) => if consecutive && idx != cur - 1 {
                ChainEnd::Blocked((tx - 1) as TxIdx)
            } else {
                let o = origins.push(ReadOrigin::MvMemory(TxVersion { tx_idx: idx, tx_incarnation: inc }));
                match value {
                    MemoryValue::Basic(info) => ChainEnd::Done(o, Some(info), addition),
                    MemoryValue::LazyBalanceAddition(a) => lazy_chain(
                        s,
                        tx,
                        consecutive,
                        pos - 1,
                        idx as int,
                        o,
                        (addition + a.value()) % word_modulus(),
                    ),
                    MemoryValue::Storage(_) => ChainEnd::Invalid,
                }
            },
        }
    }
}

/// How reading an account's location at transaction `tx` ends. The first
/// transaction reads storage; a location that no transaction wrote is read
/// from storage, unless every transaction writes it (`consecutive`), when
/// the read waits for `tx - 1`.
pub open spec fn account_read(s: LocationEntries, written: bool, tx: TxIdx, consecutive: bool) -> ChainEnd {
    if tx == 0 {
        ChainEnd::Done(seq![ReadOrigin::Storage], None, 0)
    } else if !written {
        if consecutive {
            ChainEnd::Blocked((tx - 1) as TxIdx)
        } else {
            ChainEnd::Done(seq![ReadOrigin::Storage], None, 0)
        }
    } else {
        lazy_chain(s, tx, consecutive, below_count(s, tx) as int, tx as int, Seq::empty(), 0)
    }
}

/// The result of reading an account's location from the multi-version memory.
#[derive(Clone, Debug)]
pub enum AccountRead {
    /// The read must wait for this transaction.
    Blocked(TxIdx),
    /// A storage value was found at an account location.
    InvalidType,
    /// The origins read; the account found, with the additions above it
    /// added to its balance, or none where storage must be read; and the
    /// sum of the additions.
    Found { origins: Vec<ReadOrigin>, account: Option<AccountInfo>, addition: U256 },
}

/// Whether `r` is what `end` describes.
pub open spec fn account_read_matches(r: AccountRead, end: ChainEnd) -> bool {
    match (r, end) {
        (AccountRead::Blocked(a), ChainEnd::Blocked(b)) => a == b,
        (AccountRead::InvalidType, ChainEnd::Invalid) => true,
        (AccountRead::Found { origins, account, addition }, ChainEnd::Done(o, base, add)) => {
            &&& origins@ == o
            &&& addition.value() == add
            &&& match base {
                None => account is None,
                Some(b) => account is Some && account->Some_0.nonce == b.nonce
                    && account->Some_0.code_hash == b.code_hash
                    && account->Some_0.balance.value() == (b.balance.value() + add) % word_modulus(),
            }
        },
        _ => false,
    }
}

/// Reads the account at `location` for transaction `tx_idx`, resolving the
/// lazy balance additions below it. Where `consecutive` (the beneficiary,
/// which every transaction writes), the read waits for `tx_idx - 1` unless
/// each transaction below has an entry.
pub fn read_account(mv: &MvMemory, location: MemoryLocationHash, tx_idx: TxIdx, consecutive: bool) -> (r: AccountRead)
    requires
        mv.wf(),
    ensures
        account_read_matches(r, account_read(mv.entries(location), mv.has_location(location), tx_idx, consecutive)),
        match r {
            AccountRead::Blocked(b) => b < tx_idx,
            _ => true,
        },
{
    let mut origins: Vec<ReadOrigin> = Vec::new();
    if tx_idx == 0 {
        origins.push(ReadOrigin::Storage);
        return AccountRead::Found { origins, account: None, addition: U256::zero() };
    }
    let entries = match mv.location_entries(location) {
        Some(entries) => entries,
        None => {
            if consecutive {
                return AccountRead::Blocked(tx_idx - 1);
            }
            origins.push(ReadOrigin::Storage);
            return AccountRead::Found { origins, account: None, addition: U256::zero() };
        },
    };
    let ghost s = entries@;
    let ghost target = account_read(mv.entries(location), mv.has_location(location), tx_idx, consecutive);
    let mut pos = crate::mv_memory::find_below_count(entries, tx_idx);
    proof {
        lemma_below_count(s, tx_idx);
    }
    let mut cur: usize = tx_idx;
    let mut addition = U256::zero();
    while pos > 0
        invariant
            s == entries@,
            pos <= below_count(s, tx_idx) <= s.len(),
            forall|j: int| 0 <= j < below_count(s, tx_idx) ==> s[j].0 < tx_idx,
            forall|j: int, k: int| 0 <= j < k < s.len() ==> s[j].0 < s[k].0,
            pos < below_count(s, tx_idx) ==> cur == s[pos as int].0,
            pos == below_count(s, tx_idx) ==> cur == tx_idx,
            0 < tx_idx,
            addition.value() < word_modulus(),
            target == lazy_chain(s, tx_idx, consecutive, pos as int, cur as int, origins@, addition.value()),
            target == account_read(mv.entries(location), mv.has_location(location), tx_idx, consecutive),
        decreases pos,
    {
        let (idx, entry) = entries[pos - 1];
        match entry {
            MemoryEntry::Estimate => {
                return AccountRead::Blocked(if consecutive { tx_idx - 1 } else { idx });
            },
            MemoryEntry::Data(inc, value) => {
                if consecutive && idx + 1 != cur {
                    return AccountRead::Blocked(tx_idx - 1);
                }
                origins.push(ReadOrigin::MvMemory(TxVersion { tx_idx: idx, tx_incarnation: inc }));
                match value {
                    MemoryValue::Basic(info) => {
                        let mut account = info;
                        account.balance = wrapping_add(info.balance, addition);
                        return AccountRead::Found { origins, account: Some(account), addition };
                    },
                    MemoryValue::LazyBalanceAddition(a) => {
                        addition = wrapping_add(addition, a);
                        cur = idx;
                        pos = pos - 1;
                    },
                    MemoryValue::Storage(_) => {
                        return AccountRead::InvalidType;
                    },
                }
            },
        }
    }
    if consecutive && cur > 0 {
        return AccountRead::Blocked(tx_idx - 1);
    }
    origins.push(ReadOrigin::Storage);
    AccountRead::Found { origins, account: None, addition }
}

/// Completes an account read that fell through to storage: the additions
/// go onto the stored account, or make an account of their own where
/// storage has none and they are not zero.
pub fn finish_account_read(addition: U256, stored: Option<AccountInfo>) -> (r: Option<AccountInfo>)
    ensures
        match stored {
            Some(info) => r is Some && r->Some_0.nonce == info.nonce && r->Some_0.code_hash == info.code_hash
                && r->Some_0.balance.value() == (info.balance.value() + addition.value()) % word_modulus(),
            None => if addition.value() > 0 {
                r == Some(AccountInfo { balance: addition, nonce: 0, code_hash: keccak_empty() })
            } else {
                r is None
            },
        },
{
    match stored {
        Some(info) => {
            let mut account = info;
            account.balance = wrapping_add(info.balance, addition);
            Some(account)
        },
        None => if !addition.is_zero() {
            Some(AccountInfo::from_balance(addition))
        } else {
            None
        },
    }
}

/// The result of reading a storage slot from the multi-version memory.
#[derive(Clone, Copy, Debug, PartialEq, Eq, Structural)]
pub enum StorageRead {
    /// The read must wait for this transaction.
    Blocked(TxIdx),
    /// An account value was found at a storage location.
    InvalidType,
    /// The value a lower transaction wrote, and its version.
    Found(TxVersion, U256),
    /// No lower transaction wrote the slot: read storage.
    FromStorage,
}

/// Reads the storage slot at `location` for transaction `tx_idx`.
pub fn read_storage_slot(mv: &MvMemory, location: MemoryLocationHash, tx_idx: TxIdx) -> (r: StorageRead)
    requires
        mv.wf(),
    ensures
        r == if tx_idx == 0 {
            StorageRead::FromStorage
        } else {
            match read_entries(mv.entries(location), tx_idx) {
                ReadMemoryResult::NotFound => StorageRead::FromStorage,
                ReadMemoryResult::Blocked { blocking_tx_idx } => StorageRead::Blocked(blocking_tx_idx),
                ReadMemoryResult::Found { version, value } => match value {
                    MemoryValue::Storage(v) => StorageRead::Found(version, v),
                    _ => StorageRead::InvalidType,
                },
            }
        },
        match r {
            StorageRead::Blocked(b) => b < tx_idx,
            StorageRead::Found(v, _) => v.tx_idx < tx_idx,
            _ => true,
        },
{
    if tx_idx == 0 {
        return StorageRead::FromStorage;
    }
    proof {
        mv.lemma_entries_sorted(location);
        crate::mv_memory::lemma_read_is_highest_below(mv.entries(location), tx_idx);
    }
    match mv.read(location, tx_idx) {
        ReadMemoryResult::NotFound => StorageRead::FromStorage,
        ReadMemoryResult::Blocked { blocking_tx_idx } => StorageRead::Blocked(blocking_tx_idx),
        ReadMemoryResult::Found { version, value } => match value {
            MemoryValue::Storage(v) => StorageRead::Found(version, v),
            _ => StorageRead::InvalidType,
        },
    }
}

/// What an execution did to one account.
#[derive(Clone, Debug)]
pub struct AccountChange {
    pub address: Address,
    /// The memory location of the account.
    pub location: MemoryLocationHash,
    pub is_selfdestructed: bool,
    pub is_touched: bool,
    /// The account after the execution.
    pub info: AccountInfo,
    /// The storage slots whose value changed: their locations and new values.
    pub changed_slots: Vec<(MemoryLocationHash, U256)>,
}

/// The account that `cache` last recorded at `loc`.
pub open spec fn cached(cache: Seq<(MemoryLocationHash, AccountInfo)>, loc: MemoryLocationHash) -> Option<AccountInfo>
    decreases cache.len(),
{
    if cache.len() == 0 {
        None
    } else if cache.last().0 == loc {
        Some(cache.last().1)
    } else {
        cached(cache.drop_last(), loc)
    }
}

/// The writes for the changed storage slots.
pub open spec fn slot_writes(slots: Seq<(MemoryLocationHash, U256)>) -> Seq<(MemoryLocationHash, MemoryValue)> {
    slots.map_values(|p: (MemoryLocationHash, U256)| (p.0, MemoryValue::Storage(p.1)))
}

/// The writes for one account change. A self-destructed account becomes
/// empty. A touched account whose information differs from what was read
/// is written in full, except the code-less recipient of a plain transfer,
/// which gets a lazy addition of the value sent. Changed slots follow.
pub open spec fn change_writes(
    c: AccountChange,
    cache: Seq<(MemoryLocationHash, AccountInfo)>,
    is_maybe_lazy: bool,
    to: Option<Address>,
    value: U256,
) -> Seq<(MemoryLocationHash, MemoryValue)> {
    if c.is_selfdestructed {
        seq![(c.location, MemoryValue::Basic(AccountInfo::empty_spec()))]
    } else {
        let account = if c.is_touched && cached(cache, c.location) != Some(c.info) {
            if is_maybe_lazy && to == Some(c.address) && c.info.code_hash == keccak_empty() {
                seq![(c.location, MemoryValue::LazyBalanceAddition(value))]
            } else {
                seq![(c.location, MemoryValue::Basic(c.info))]
            }
        } else {
            Seq::empty()
        };
        account + slot_writes(c.changed_slots@)
    }
}

/// The writes of all account changes, in order.
pub open spec fn changes_writes(
    cs: Seq<AccountChange>,
    cache: Seq<(MemoryLocationHash, AccountInfo)>,
    is_maybe_lazy: bool,
    to: Option<Address>,
    value: U256,
) -> Seq<(MemoryLocationHash, MemoryValue)>
    decreases cs.len(),
{
    if cs.len() == 0 {
        Seq::empty()
    } else {
        changes_writes(cs.drop_last(), cache, is_maybe_lazy, to, value) + change_writes(cs.last(), cache, is_maybe_lazy, to, value)
    }
}

/// The account that `cache` last recorded at `loc`.
fn lookup_cached(cache: &Vec<(MemoryLocationHash, AccountInfo)>, loc: MemoryLocationHash) -> (r: Option<AccountInfo>)
    ensures
        r == cached(cache@, loc),
{
    let mut i: usize = cache.len();
    proof {
        assert(cache@.take(i as int) =~= cache@);
    }
    while i > 0
        invariant
            i <= cache@.len(),
            cached(cache@, loc) == cached(cache@.take(i as int), loc),
        decreases i,
    {
        proof {
            assert(cache@.take(i as int).drop_last() =~= cache@.take(i - 1));
        }
        if cache[i - 1].0 == loc {
            return Some(cache[i - 1].1);
        }
        i = i - 1;
    }
    None
}

/// The write set of an execution: the writes of each account change, in
/// order. `cache` holds the accounts as the execution read them.
pub fn build_write_set(
    changes: &Vec<AccountChange>,
    cache: &Vec<(MemoryLocationHash, AccountInfo)>,
    is_maybe_lazy: bool,
    to: Option<Address>,
    value: U256,
) -> (r: Vec<(MemoryLocationHash, MemoryValue)>)
    ensures
        r@ == changes_writes(changes@, cache@, is_maybe_lazy, to, value),
{
    let mut r: Vec<(MemoryLocationHash, MemoryValue)> = Vec::new();
    let mut i: usize = 0;
    proof {
        assert(cache@.take(cache@.len() as int) =~= cache@);
    }
    while i < changes.len()
        invariant
            i <= changes@.len(),
            r@ == changes_writes(changes@.take(i as int), cache@, is_maybe_lazy, to, value),
        decreases changes@.len() - i,
    {
        let c = &changes[i];
        let ghost r0 = r@;
        if c.is_selfdestructed {
            r.push((c.location, MemoryValue::Basic(AccountInfo::empty())));
        } else {
            if c.is_touched && lookup_cached(cache, c.location) != Some(c.info) {
                if is_maybe_lazy && to == Some(c.address) && c.info.is_empty_code_hash() {
                    r.push((c.location, MemoryValue::LazyBalanceAddition(value)));
                } else {
                    r.push((c.location, MemoryValue::Basic(c.info)));
                }
            }
            let ghost r1 = r@;
            let mut k: usize = 0;
            while k < c.changed_slots.len()
                invariant
                    k <= c.changed_slots@.len(),
                    r@ == r1 + slot_writes(c.changed_slots@.take(k as int)),
                decreases c.changed_slots@.len() - k,
            {
                let (loc, v) = c.changed_slots[k];
                r.push((loc, MemoryValue::Storage(v)));
                proof {
                    assert(slot_writes(c.changed_slots@.take(k + 1)) =~= slot_writes(c.changed_slots@.take(k as int)).push((loc, MemoryValue::Storage(v))));
                }
                k = k + 1;
            }
            proof {
                assert(c.changed_slots@.take(c.changed_slots@.len() as int) =~= c.changed_slots@);
            }
        }
        proof {
            assert(changes@.take(i + 1).drop_last() =~= changes@.take(i as int));
            assert(changes@.take(i + 1).last() == changes@[i as int]);
            assert(r@ =~= r0 + change_writes(changes@[i as int], cache@, is_maybe_lazy, to, value));
        }
        i = i + 1;
    }
    proof {
        assert(changes@.take(changes@.len() as int) =~= changes@);
    }
    r
}

/// The first position at or after `k` where `ws` writes `loc`, or its length.
pub open spec fn first_write(ws: Seq<(MemoryLocationHash, MemoryValue)>, loc: MemoryLocationHash, k: int) -> int
    decreases ws.len() - k,
{
    if k >= ws.len() {
        ws.len() as int
    } else if ws[k].0 == loc {
        k
    } else {
        first_write(ws, loc, k + 1)
    }
}

proof fn lemma_first_write(ws: Seq<(MemoryLocationHash, MemoryValue)>, loc: MemoryLocationHash, k: int)
    requires
        0 <= k <= ws.len(),
    ensures
        k <= first_write(ws, loc, k) <= ws.len(),
        first_write(ws, loc, k) < ws.len() ==> ws[first_write(ws, loc, k)].0 == loc,
        forall|j: int| k <= j < first_write(ws, loc, k) ==> ws[j].0 != loc,
    decreases ws.len() - k,
{
    if k < ws.len() && ws[k].0 != loc {
        lemma_first_write(ws, loc, k + 1);
    }
}

/// The price per gas that the beneficiary earns: the gas price, capped at
/// the priority fee plus the base fee where there is a priority fee, less
/// the base fee from London on.
pub open spec fn reward_gas_price(tx: Transaction, basefee: U256, london: bool) -> nat {
    let price = match tx.gas_priority_fee {
        Some(p) => {
            let cap = (p.value() + basefee.value()) % word_modulus();
            if tx.gas_price.value() <= cap {
                tx.gas_price.value()
            } else {
                cap
            }
        },
        None => tx.gas_price.value(),
    };
    if london {
        if price >= basefee.value() {
            (price - basefee.value()) as nat
        } else {
            0
        }
    } else {
        price
    }
}

/// What the beneficiary earns from a transaction that used `gas_used`.
pub fn reward_amount(tx: &Transaction, basefee: U256, london: bool, gas_used: u64) -> (r: U256)
    ensures
        r.value() == (reward_gas_price(*tx, basefee, london) * (gas_used as nat)) % word_modulus(),
{
    let mut gas_price = match tx.gas_priority_fee {
        Some(priority_fee) => min(tx.gas_price, wrapping_add(priority_fee, basefee)),
        None => tx.gas_price,
    };
    if london {
        gas_price = saturating_sub(gas_price, basefee);
    }
    wrapping_mul(gas_price, U256::from_u64(gas_used))
}

/// Adds `amount` to what the write set gives the beneficiary: to the first
/// write of its location, or as a new lazy addition.
pub fn apply_rewards(write_set: &mut Vec<(MemoryLocationHash, MemoryValue)>, beneficiary_location: MemoryLocationHash, amount: U256)
    requires
        first_write(old(write_set)@, beneficiary_location, 0) < old(write_set)@.len() ==> !(old(
            write_set,
        )@[first_write(old(write_set)@, beneficiary_location, 0)].1 is Storage),
    ensures
        ({
            let ws = old(write_set)@;
            let i = first_write(ws, beneficiary_location, 0);
            if i < ws.len() {
                &&& final(write_set)@.len() == ws.len()
                &&& forall|j: int| 0 <= j < ws.len() && j != i ==> final(write_set)@[j] == ws[j]
                &&& final(write_set)@[i].0 == beneficiary_location
                &&& match (ws[i].1, final(write_set)@[i].1) {
                    (MemoryValue::Basic(a), MemoryValue::Basic(b)) => b.nonce == a.nonce && b.code_hash == a.code_hash
                        && b.balance.value() == (a.balance.value() + amount.value()) % word_modulus(),
                    (MemoryValue::LazyBalanceAddition(a), MemoryValue::LazyBalanceAddition(b)) => b.value() == (
                    a.value() + amount.value()) % word_modulus(),
                    _ => false,
                }
            } else {
                final(write_set)@ == ws.push((beneficiary_location, MemoryValue::LazyBalanceAddition(amount)))
            }
        }),
{
    proof {
        lemma_first_write(write_set@, beneficiary_location, 0);
    }
    let mut i: usize = 0;
    while i < write_set.len()
        invariant
            i <= write_set@.len(),
            write_set@ == old(write_set)@,
            first_write(write_set@, beneficiary_location, 0) == first_write(write_set@, beneficiary_location, i as int),
            first_write(write_set@, beneficiary_location, 0) < write_set@.len() ==> !(
            write_set@[first_write(write_set@, beneficiary_location, 0)].1 is Storage),
        decreases write_set@.len() - i,
    {
        if write_set[i].0 == beneficiary_location {
            let (location, value) = write_set[i];
            proof {
                assert(first_write(write_set@, beneficiary_location, i as int) == i);
            }
            let updated = match value {
                MemoryValue::Basic(info) => {
                    let mut info = info;
                    info.balance = wrapping_add(info.balance, amount);
                    MemoryValue::Basic(info)
                },
                MemoryValue::LazyBalanceAddition(addition) => MemoryValue::LazyBalanceAddition(wrapping_add(addition, amount)),
                MemoryValue::Storage(v) => MemoryValue::Storage(v),
            };
            write_set.set(i, (location, updated));
            return;
        }
        i = i + 1;
    }
    write_set.push((beneficiary_location, MemoryValue::LazyBalanceAddition(amount)));
}

/// From where validation must resume after transaction `tx_idx` executed:
/// nowhere for the first transaction; from itself where it read more than
/// its sender and recipient; from the next where it created a contract or
/// wrote outside its sender, recipient and the beneficiary; else nowhere.
pub open spec fn next_validation_idx_spec(
    tx_idx: TxIdx,
    only_read_from_and_to: bool,
    is_create: bool,
    ws: Seq<(MemoryLocationHash, MemoryValue)>,
    from_location: MemoryLocationHash,
    to_location: Option<MemoryLocationHash>,
    beneficiary_location: MemoryLocationHash,
) -> Option<TxIdx> {
    if tx_idx == 0 {
        None
    } else if !only_read_from_and_to {
        Some(tx_idx)
    } else if is_create || exists|j: int| 0 <= j < ws.len() && #[trigger] ws[j].0 != from_location
        && Some(ws[j].0) != to_location && ws[j].0 != beneficiary_location {
        Some((tx_idx + 1) as TxIdx)
    } else {
        None
    }
}

pub fn next_validation_idx(
    tx_idx: TxIdx,
    only_read_from_and_to: bool,
    is_create: bool,
    write_set: &Vec<(MemoryLocationHash, MemoryValue)>,
    from_location: MemoryLocationHash,
    to_location: Option<MemoryLocationHash>,
    beneficiary_location: MemoryLocationHash,
) -> (r: Option<TxIdx>)
    requires
        tx_idx < usize::MAX,
    ensures
        r == next_validation_idx_spec(tx_idx, only_read_from_and_to, is_create, write_set@, from_location, to_location, beneficiary_location),
{
    if tx_idx == 0 {
        return None;
    }
    if !only_read_from_and_to {
        return Some(tx_idx);
    }
    if is_create {
        return Some(tx_idx + 1);
    }
    let mut j: usize = 0;
    while j < write_set.len()
        invariant
            0 < tx_idx < usize::MAX,
            only_read_from_and_to,
            !is_create,
            j <= write_set@.len(),
            forall|q: int| 0 <= q < j ==> !(#[trigger] write_set@[q].0 != from_location
                && Some(write_set@[q].0) != to_location && write_set@[q].0 != beneficiary_location),
        decreases write_set@.len() - j,
    {
        let location = write_set[j].0;
        if location != from_location && Some(location) != to_location && location != beneficiary_location {
            proof {
                assert(write_set@[j as int].0 == location);
            }
            return Some(tx_idx + 1);
        }
        j = j + 1;
    }
    None
}

/// Whether an execution may treat the recipient lazily: a plain transfer
/// to another account.
pub fn is_maybe_lazy(tx: &Transaction) -> (r: bool)
    ensures
        r == (tx.data_is_empty && match tx.transact_to {
            TransactTo::Call(to) => to != tx.caller,
            TransactTo::Create => true,
        }),
{
    tx.data_is_empty && match tx.transact_to {
        TransactTo::Call(to) => to != tx.caller,
        TransactTo::Create => true,
    }
}

/// Whether an account leaves the state after a transaction: it
/// self-destructed, or it is empty from Spurious Dragon on.
pub fn is_removed(is_selfdestructed: bool, is_empty: bool, spurious_dragon: bool) -> (r: bool)
    ensures
        r == (is_selfdestructed || is_empty && spurious_dragon),
{
    is_selfdestructed || is_empty && spurious_dragon
}

/// The number of times each transaction after the first was retried after
/// failing in a way that a pending lower transaction may explain.
pub struct RetryCounters {
    counts: Vec<u8>,
}

impl RetryCounters {
    pub closed spec fn count(&self, tx_idx: TxIdx) -> u8 {
        self.counts@[tx_idx - 1]
    }

    pub closed spec fn block_size(&self) -> nat {
        self.counts@.len() + 1
    }

    /// No retries yet, for a block of `block_size` transactions.
    pub fn new(block_size: usize) -> (r: RetryCounters)
        requires
            block_size > 0,
        ensures
            r.block_size() == block_size,
            forall|t: TxIdx| 0 < t < block_size ==> r.count(t) == 0,
    {
        let mut counts: Vec<u8> = Vec::new();
        let mut i: usize = 1;
        while i < block_size
            invariant
                1 <= i <= block_size,
                counts@.len() == i - 1,
                forall|j: int| 0 <= j < counts@.len() ==> counts@[j] == 0,
            decreases block_size - i,
        {
            counts.push(0);
            i = i + 1;
        }
        RetryCounters { counts }
    }

    /// Whether transaction `tx_idx`, which reverted or lacked funds, should
    /// wait for the one before it and run again rather than fail: only the
    /// first time, and never the first transaction. The count goes up by
    /// one and stays at 255 once there, so retries stay bounded.
    pub fn try_retry(&mut self, tx_idx: TxIdx) -> (retry: bool)
        requires
            tx_idx < old(self).block_size(),
        ensures
            final(self).block_size() == old(self).block_size(),
            retry == (tx_idx > 0 && old(self).count(tx_idx) < 1),
            forall|t: TxIdx| 0 < t < old(self).block_size() && t != tx_idx ==> final(self).count(t) == old(self).count(t),
            tx_idx > 0 ==> final(self).count(tx_idx) == if old(self).count(tx_idx) == 255 {
                255
            } else {
                (old(self).count(tx_idx) + 1) as u8
            },
    {
        if tx_idx == 0 {
            return false;
        }
        let c = self.counts[tx_idx - 1];
        if c < 255 {
            self.counts.set(tx_idx - 1, c + 1);
        }
        c < 1
    }

    /// What becomes of transaction `tx_idx` after a revert or a lack of
    /// funds: on its first such failure it waits for the transaction before
    /// it, whose effects may be missing (the index returned), else the
    /// failure stands (`None`).
    pub fn retry_blocking_index(&mut self, tx_idx: TxIdx) -> (r: Option<TxIdx>)
        requires
            tx_idx < old(self).block_size(),
        ensures
            final(self).block_size() == old(self).block_size(),
            r == if tx_idx > 0 && old(self).count(tx_idx) < 1 {
                Some((tx_idx - 1) as TxIdx)
            } else {
                None
            },
            forall|t: TxIdx| 0 < t < old(self).block_size() && t != tx_idx ==> final(self).count(t) == old(self).count(t),
            tx_idx > 0 ==> final(self).count(tx_idx) == if old(self).count(tx_idx) == 255 {
                255
            } else {
                (old(self).count(tx_idx) + 1) as u8
            },
    {
        if self.try_retry(tx_idx) {
            Some(tx_idx - 1)
        } else {
            None
        }
    }
}

} // verus!