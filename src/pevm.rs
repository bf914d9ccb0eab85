//! Block-level logic: the dependency pre-pass that seeds the scheduler, and
//! the resolution of the beneficiary's lazily credited balance.
use vstd::prelude::*;

use crate::primitives::{limb_base, wrapping_add, AccountInfo, Address, B256, U256, word_modulus};
use crate::mv_memory::{recorded_map, MvMemory};
use crate::scheduler::{next_incarnation, IncarnationStatus, Scheduler, Task, TxStatus};
use crate::{MemoryEntry, MemoryLocationHash, MemoryValue, ReadLocations, TxIdx, TxVersion, WriteSet};

verus! {

/// Errors when executing a block.
#[derive(Debug, PartialEq)]
pub enum PevmError {
    /// Cannot derive the chain spec from the block header.
    UnknownBlockSpec,
    /// Block header lacks information for execution.
    MissingHeaderData,
    /// Transactions lack information for execution.
    MissingTransactionData,
    /// EVM execution error.
    ExecutionError(String),
    /// Impractical errors that should be unreachable.
    UnreachableError,
}

/// Whether a block is executed sequentially: on request, or where it is too
/// small (fewer than four transactions, or at most 650,000 gas) to gain from
/// parallel execution.
pub fn should_execute_sequentially(force_sequential: bool, num_txs: usize, gas_used: u128) -> (r: bool)
    ensures
        r == (force_sequential || num_txs < 4 || gas_used <= 650_000),
{
    force_sequential || num_txs < 4 || gas_used <= 650_000
}

/// Where a transaction goes.
#[derive(Clone, Copy, Debug, PartialEq, Eq, Structural)]
pub enum TransactTo {
    Call(Address),
    Create,
}

/// What the logic reads of a transaction.
#[derive(Clone, Copy, Debug, PartialEq, Eq, Structural)]
pub struct Transaction {
    pub caller: Address,
    pub transact_to: TransactTo,
    pub value: U256,
    /// Whether the call data is empty.
    pub data_is_empty: bool,
    pub gas_price: U256,
    pub gas_priority_fee: Option<U256>,
}

/// The recipient of a call with a non-zero value: its balance surely changes.
pub open spec fn recipient_with_changed_balance(tx: Transaction) -> Option<Address> {
    match tx.transact_to {
        TransactTo::Call(to) => if tx.value.value() != 0 {
            Some(to)
        } else {
            None
        },
        TransactTo::Create => None,
    }
}

/// Whether transaction `tx` has `a` as its sender (`by_sender`), or else as
/// a recipient whose balance changes.
pub open spec fn registers(tx: Transaction, a: Address, by_sender: bool) -> bool {
    if by_sender {
        tx.caller == a
    } else {
        recipient_with_changed_balance(tx) == Some(a)
    }
}

/// The highest transaction below `i` that has `a` as its sender
/// (`by_sender`), or else as a recipient whose balance changes.
pub open spec fn last_registering(txs: Seq<Transaction>, i: int, a: Address, by_sender: bool) -> Option<TxIdx>
    decreases i,
{
    if i <= 0 {
        None
    } else if registers(txs[i - 1], a, by_sender) {
        Some((i - 1) as TxIdx)
    } else {
        last_registering(txs, i - 1, a, by_sender)
    }
}

/// Whether `tx` is sent by `a` or sent to `a`, whatever its value.
pub open spec fn involves(tx: Transaction, a: Address) -> bool {
    tx.caller == a || tx.transact_to == TransactTo::Call(a)
}

/// The transactions that the pre-pass makes transaction `i` wait on: the
/// one before it where the sender or the recipient is the beneficiary;
/// else the last one with the same sender, and, where this one sends a
/// value, the last one that sent a value to the same recipient.
pub open spec fn seeded_dependencies(txs: Seq<Transaction>, beneficiary: Address, i: int) -> Seq<TxIdx> {
    let tx = txs[i];
    let to = recipient_with_changed_balance(tx);
    if i == 0 {
        Seq::empty()
    } else if involves(tx, beneficiary) {
        seq![(i - 1) as TxIdx]
    } else {
        let by_sender = match last_registering(txs, i, tx.caller, true) {
            Some(j) => seq![j],
            None => Seq::empty(),
        };
        let by_recipient = match to {
            Some(a) => match last_registering(txs, i, a, false) {
                Some(j) => if by_sender == seq![j] {
                    Seq::empty()
                } else {
                    seq![j]
                },
                None => Seq::empty(),
            },
            None => Seq::empty(),
        };
        by_sender + by_recipient
    }
}

/// The status that the pre-pass gives transaction `i`: waiting where it
/// has seeded dependencies, else ready.
pub open spec fn seeded_status(txs: Seq<Transaction>, beneficiary: Address, i: int) -> TxStatus {
    TxStatus {
        incarnation: 0,
        status: if seeded_dependencies(txs, beneficiary, i).len() > 0 {
            IncarnationStatus::Aborting
        } else {
            IncarnationStatus::ReadyToExecute
        },
    }
}

/// The transactions below `n` that wait on `b`, ascending.
pub open spec fn seeded_dependents(txs: Seq<Transaction>, beneficiary: Address, b: int, n: int) -> Seq<TxIdx>
    decreases n,
{
    if n <= 0 {
        Seq::empty()
    } else if seeded_dependencies(txs, beneficiary, n - 1).contains(b as TxIdx) {
        seeded_dependents(txs, beneficiary, b, n - 1).push((n - 1) as TxIdx)
    } else {
        seeded_dependents(txs, beneficiary, b, n - 1)
    }
}

/// How many transactions below `n` wait on some other.
pub open spec fn count_dependent(txs: Seq<Transaction>, beneficiary: Address, n: int) -> nat
    decreases n,
{
    if n <= 0 {
        0
    } else {
        count_dependent(txs, beneficiary, n - 1) + if seeded_dependencies(txs, beneficiary, n - 1).len() > 0 {
            1nat
        } else {
            0nat
        }
    }
}

/// The first transaction at or after `i` with call data, or the block size:
/// plain transfers before it are ordered right by their seeded dependencies.
pub open spec fn first_with_data(txs: Seq<Transaction>, i: int) -> nat
    decreases txs.len() - i,
{
    if i >= txs.len() {
        txs.len()
    } else if !txs[i].data_is_empty {
        i as nat
    } else {
        first_with_data(txs, i + 1)
    }
}

/// Whether more than nine tenths of the block would wait: the block is then
/// better executed sequentially.
pub open spec fn too_dependent(txs: Seq<Transaction>, beneficiary: Address) -> bool {
    count_dependent(txs, beneficiary, txs.len() as int) * 10 > txs.len() * 9
}

/// The number of workers worth running for a block of `n` transactions.
pub open spec fn max_concurrency(n: nat) -> nat {
    if n / 2 > 2 {
        n / 2
    } else {
        2
    }
}

/// The highest transaction below `i` that has `a` as its sender
/// (`by_sender`), or else as a recipient whose balance changes.
fn find_last_registering(txs: &Vec<Transaction>, i: usize, a: Address, by_sender: bool) -> (r: Option<TxIdx>)
    requires
        i <= txs@.len(),
    ensures
        r == last_registering(txs@, i as int, a, by_sender),
{
    let mut j: usize = i;
    while j > 0
        invariant
            j <= i <= txs@.len(),
            last_registering(txs@, i as int, a, by_sender) == last_registering(txs@, j as int, a, by_sender),
        decreases j,
    {
        let tx = txs[j - 1];
        let registered = if by_sender {
            tx.caller == a
        } else {
            match tx.transact_to {
                TransactTo::Call(to) => !tx.value.is_zero() && to == a,
                TransactTo::Create => false,
            }
        };
        if registered {
            return Some(j - 1);
        }
        j = j - 1;
    }
    None
}

/// The dependencies that the pre-pass seeds for transaction `i`.
fn dependencies_of(txs: &Vec<Transaction>, beneficiary: Address, i: usize) -> (r: Vec<TxIdx>)
    requires
        i < txs@.len(),
    ensures
        r@ == seeded_dependencies(txs@, beneficiary, i as int),
        forall|j: int| 0 <= j < r@.len() ==> #[trigger] r@[j] < i,
        r@.no_duplicates(),
{
    let tx = txs[i];
    let to = match tx.transact_to {
        TransactTo::Call(to) => if !tx.value.is_zero() {
            Some(to)
        } else {
            None
        },
        TransactTo::Create => None,
    };
    let calls_beneficiary = match tx.transact_to {
        TransactTo::Call(t) => t == beneficiary,
        TransactTo::Create => false,
    };
    let mut r: Vec<TxIdx> = Vec::new();
    if i == 0 {
    } else if tx.caller == beneficiary || calls_beneficiary {
        r.push(i - 1);
    } else {
        let by_sender = find_last_registering(txs, i, tx.caller, true);
        match by_sender {
            Some(j) => r.push(j),
            None => {},
        }
        match to {
            Some(a) => match find_last_registering(txs, i, a, false) {
                Some(j) => if by_sender != Some(j) {
                    r.push(j);
                },
                None => {},
            },
            None => {},
        }
    }
    proof {
        lemma_last_registering_below(txs@, i as int, tx.caller, true);
        if let Some(a) = to {
            lemma_last_registering_below(txs@, i as int, a, false);
        }
        assert(to == recipient_with_changed_balance(tx));
        assert(calls_beneficiary == (tx.transact_to == TransactTo::Call(beneficiary)));
        if i > 0 && !involves(tx, beneficiary) {
            let sd = seeded_dependencies(txs@, beneficiary, i as int);
            let by_sender = match last_registering(txs@, i as int, tx.caller, true) {
                Some(j) => seq![j],
                None => Seq::<TxIdx>::empty(),
            };
            let by_recipient = match to {
                Some(a) => match last_registering(txs@, i as int, a, false) {
                    Some(j) => if by_sender == seq![j] {
                        Seq::<TxIdx>::empty()
                    } else {
                        seq![j]
                    },
                    None => Seq::<TxIdx>::empty(),
                },
                None => Seq::<TxIdx>::empty(),
            };
            assert(sd == by_sender + by_recipient);
            match last_registering(txs@, i as int, tx.caller, true) {
                Some(j) => {
                    match to {
                        Some(a) => match last_registering(txs@, i as int, a, false) {
                            Some(k) => {
                                if j == k {
                                    assert(by_sender == seq![k]);
                                } else {
                                    assert(by_sender != seq![k]) by {
                                        assert(by_sender[0] != seq![k][0]);
                                    }
                                }
                            },
                            None => {},
                        },
                        None => {},
                    }
                },
                None => {},
            }
            assert(r@ =~= by_sender + by_recipient);
        }
        assert(r@ =~= seeded_dependencies(txs@, beneficiary, i as int));
    }
    r
}

proof fn lemma_last_registering_below(txs: Seq<Transaction>, i: int, a: Address, by_sender: bool)
    ensures
        match last_registering(txs, i, a, by_sender) {
            Some(j) => 0 <= j < i,
            None => true,
        },
    decreases i,
{
    if i > 0 {
        lemma_last_registering_below(txs, i - 1, a, by_sender);
    }
}

/// Adds `i` to the dependents of every transaction in `deps`.
fn register_dependents(dependents: &mut Vec<Vec<TxIdx>>, deps: &Vec<TxIdx>, i: TxIdx)
    requires
        deps@.no_duplicates(),
        forall|j: int| 0 <= j < deps@.len() ==> #[trigger] deps@[j] < old(dependents)@.len(),
    ensures
        final(dependents)@.len() == old(dependents)@.len(),
        forall|b: TxIdx| #![trigger final(dependents)@[b as int]]
            b < old(dependents)@.len() ==> final(dependents)@[b as int]@ == if deps@.contains(b) {
                old(dependents)@[b as int]@.push(i)
            } else {
                old(dependents)@[b as int]@
            },
{
    let mut k: usize = 0;
    while k < deps.len()
        invariant
            deps@.no_duplicates(),
            k <= deps@.len(),
            forall|j: int| 0 <= j < deps@.len() ==> #[trigger] deps@[j] < old(dependents)@.len(),
            dependents@.len() == old(dependents)@.len(),
            forall|b: TxIdx| #![trigger dependents@[b as int]]
                b < old(dependents)@.len() ==> dependents@[b as int]@ == if deps@.take(k as int).contains(b) {
                    old(dependents)@[b as int]@.push(i)
                } else {
                    old(dependents)@[b as int]@
                },
        decreases deps@.len() - k,
    {
        let b = deps[k];
        let mut list: Vec<TxIdx> = Vec::new();
        let mut q: usize = 0;
        while q < dependents[b].len()
            invariant
                b < dependents@.len(),
                q <= dependents@[b as int]@.len(),
                list@ == dependents@[b as int]@.take(q as int),
            decreases dependents@[b as int]@.len() - q,
        {
            list.push(dependents[b][q]);
            proof {
                assert(dependents@[b as int]@.take(q + 1) =~= dependents@[b as int]@.take(q as int).push(
                    dependents@[b as int]@[q as int],
                ));
            }
            q = q + 1;
        }
        proof {
            assert(list@ =~= dependents@[b as int]@);
        }
        list.push(i);
        let ghost before = dependents@;
        dependents.set(b, list);
        proof {
            let k1 = k as int + 1;
            assert(deps@.take(k1) =~= deps@.take(k as int).push(b));
            assert(!deps@.take(k as int).contains(b)) by {
                if deps@.take(k as int).contains(b) {
                    let j = choose|j: int| 0 <= j < k && deps@.take(k as int)[j] == b;
                    assert(deps@[j] == deps@[k as int]);
                }
            }
            assert forall|c: TxIdx| #![trigger dependents@[c as int]]
                c < old(dependents)@.len() implies dependents@[c as int]@ == if deps@.take(k1).contains(c) {
                    old(dependents)@[c as int]@.push(i)
                } else {
                    old(dependents)@[c as int]@
                } by {
                if deps@.take(k as int).contains(c) {
                    let j = choose|j: int| 0 <= j < k && deps@.take(k as int)[j] == c;
                    assert(deps@.take(k1)[j] == c);
                }
                if deps@.take(k1).contains(c) && c != b {
                    let j = choose|j: int| 0 <= j < k1 && deps@.take(k1)[j] == c;
                    assert(deps@.take(k as int)[j] == c);
                }
                if c == b {
                    assert(deps@.take(k1)[k as int] == b);
                } else {
                    assert(dependents@[c as int] == before[c as int]);
                }
            }
        }
        k = k + 1;
    }
    proof {
        assert(deps@.take(deps@.len() as int) =~= deps@);
    }
}

proof fn lemma_count_dependent_monotone(txs: Seq<Transaction>, beneficiary: Address, m: int, n: int)
    requires
        m <= n,
    ensures
        count_dependent(txs, beneficiary, m) <= count_dependent(txs, beneficiary, n),
    decreases n - m,
{
    if m < n {
        lemma_count_dependent_monotone(txs, beneficiary, m, n - 1);
    }
}

/// The dependency pre-pass. Seeds the scheduler with the dependencies of
/// each transaction on the last one with the same sender and, for a
/// transfer of value, the last transfer of value to the same recipient; a
/// transaction sent by or to the beneficiary waits on the one before it. A
/// transaction with seeded dependencies starts out waiting. Validation
/// starts at the first transaction with call data. Returns `None` where more than nine tenths of the block would
/// wait, for the caller to execute sequentially; else the scheduler and the
/// number of workers worth running.
pub fn preprocess_dependencies(beneficiary_address: &Address, txs: &Vec<Transaction>) -> (r: Option<(Scheduler, usize)>)
    ensures
        r is None <==> too_dependent(txs@, *beneficiary_address),
        match r {
            Some((s, c)) => {
                &&& s.wf()
                &&& s.block_size() == txs@.len()
                &&& s.execution_idx() == 0
                &&& s.validation_idx() == first_with_data(txs@, 0)
                &&& s.num_active_tasks() == 0
                &&& c == max_concurrency(txs@.len())
                &&& forall|i: TxIdx| #![trigger s.status(i)] i < txs@.len() ==> s.status(i) == seeded_status(txs@, *beneficiary_address, i as int)
                &&& forall|i: TxIdx| #![trigger s.dependencies(i)] i < txs@.len() ==> s.dependencies(i) == seeded_dependencies(txs@, *beneficiary_address, i as int)
                &&& forall|b: TxIdx| #![trigger s.dependents(b)] b < txs@.len() ==> s.dependents(b) == seeded_dependents(txs@, *beneficiary_address, b as int, txs@.len() as int)
            },
            None => true,
        },
{
    let beneficiary = *beneficiary_address;
    let block_size = txs.len();
    let ghost t = txs@;
    let mut status: Vec<TxStatus> = Vec::new();
    let mut dependencies: Vec<Vec<TxIdx>> = Vec::new();
    let mut dependents: Vec<Vec<TxIdx>> = Vec::new();
    let mut b: usize = 0;
    while b < block_size
        invariant
            b <= block_size == t.len(),
            dependents@.len() == b,
            forall|c: int| 0 <= c < b ==> #[trigger] dependents@[c]@ == Seq::<TxIdx>::empty(),
        decreases block_size - b,
    {
        dependents.push(Vec::new());
        b = b + 1;
    }
    proof {
        assert forall|c: TxIdx| c < block_size implies #[trigger] dependents@[c as int]@ == seeded_dependents(t, beneficiary, c as int, 0) by {}
    }
    let mut count: usize = 0;
    let mut starting_validation_idx: usize = block_size;
    let mut i: usize = 0;
    while i < block_size
        invariant
            i <= block_size == t.len(),
            t == txs@,
            beneficiary == *beneficiary_address,
            status@.len() == i,
            dependencies@.len() == i,
            dependents@.len() == block_size,
            count == count_dependent(t, beneficiary, i as int),
            count <= i,
            count * 10 <= block_size * 9,
            starting_validation_idx <= block_size,
            starting_validation_idx == block_size ==> first_with_data(t, 0) == first_with_data(t, i as int),
            starting_validation_idx < block_size ==> starting_validation_idx == first_with_data(t, 0),
            forall|j: int| #![trigger status@[j]] 0 <= j < i ==> status@[j] == seeded_status(t, beneficiary, j),
            forall|j: int| #![trigger dependencies@[j]] 0 <= j < i ==> dependencies@[j]@ == seeded_dependencies(t, beneficiary, j),
            forall|j: int, q: int| 0 <= j < i && 0 <= q < dependencies@[j]@.len() ==> #[trigger] dependencies@[j]@[q] < j,
            forall|c: TxIdx| #![trigger dependents@[c as int]] c < block_size ==> dependents@[c as int]@ == seeded_dependents(t, beneficiary, c as int, i as int),
            forall|c: int, q: int| 0 <= c < block_size && 0 <= q < dependents@[c]@.len() ==> c < #[trigger] dependents@[c]@[q] < i,
        decreases block_size - i,
    {
        proof {
            assert(first_with_data(t, i as int) == if !t[i as int].data_is_empty {
                i as nat
            } else {
                first_with_data(t, i + 1)
            });
        }
        if starting_validation_idx == block_size && !txs[i].data_is_empty {
            starting_validation_idx = i;
        }
        let deps = dependencies_of(txs, beneficiary, i);
        let ghost before = dependents@;
        register_dependents(&mut dependents, &deps, i);
        if deps.len() > 0 {
            status.push(TxStatus { incarnation: 0, status: IncarnationStatus::Aborting });
            count = count + 1;
        } else {
            status.push(TxStatus { incarnation: 0, status: IncarnationStatus::ReadyToExecute });
        }
        dependencies.push(deps);
        proof {
            assert(count == count_dependent(t, beneficiary, i + 1));
            assert forall|c: TxIdx| #![trigger dependents@[c as int]] c < block_size implies dependents@[c as int]@ == seeded_dependents(t, beneficiary, c as int, i + 1) by {
                assert(seeded_dependencies(t, beneficiary, i as int).contains(c) == deps@.contains(c));
            }
            assert forall|c: int, q: int| 0 <= c < block_size && 0 <= q < dependents@[c]@.len() implies c < #[trigger] dependents@[c]@[q] < i + 1 by {
                if deps@.contains(c as TxIdx) && q == before[c]@.len() {
                    let j = choose|j: int| 0 <= j < deps@.len() && deps@[j] == c as TxIdx;
                } else if q < before[c]@.len() {
                    assert(dependents@[c]@[q] == before[c]@[q]);
                }
            }
            assert forall|j: int, q: int| 0 <= j < i + 1 && 0 <= q < dependencies@[j]@.len() implies #[trigger] dependencies@[j]@[q] < j by {
                if j == i {
                    assert(dependencies@[j]@ == deps@);
                }
            }
        }
        if count as u128 * 10 > block_size as u128 * 9 {
            proof {
                lemma_count_dependent_monotone(t, beneficiary, i + 1, t.len() as int);
                assert(count * 10 > block_size * 9);
                assert(count_dependent(t, beneficiary, t.len() as int) >= count);
                assert(too_dependent(t, beneficiary));
                assert(beneficiary == *beneficiary_address);
                assert(too_dependent(txs@, *beneficiary_address));
            }
            return None;
        }
        i = i + 1;
    }
    proof {
        assert(first_with_data(t, t.len() as int) == t.len());
    }
    let concurrency = if block_size / 2 > 2 {
        block_size / 2
    } else {
        2
    };
    let scheduler = Scheduler::new(block_size, status, dependents, dependencies, starting_validation_idx);
    Some((scheduler, concurrency))
}

/// The balance, nonce and code hash of an account that started as
/// `initial` after the beneficiary values `vs`, in order: a full account
/// replaces it, a lazy addition adds to its balance modulo `2^256`.
pub open spec fn resolve(initial: AccountInfo, vs: Seq<MemoryValue>) -> (nat, u64, B256)
    decreases vs.len(),
{
    if vs.len() == 0 {
        (initial.balance.value(), initial.nonce, initial.code_hash)
    } else {
        let p = resolve(initial, vs.drop_last());
        match vs.last() {
            MemoryValue::Basic(info) => (info.balance.value(), info.nonce, info.code_hash),
            MemoryValue::LazyBalanceAddition(a) => ((p.0 + a.value()) % word_modulus(), p.1, p.2),
            MemoryValue::Storage(_) => p,
        }
    }
}

/// The sum of the lazy additions among `vs`.
pub open spec fn sum_additions(vs: Seq<MemoryValue>) -> nat
    decreases vs.len(),
{
    if vs.len() == 0 {
        0
    } else {
        sum_additions(vs.drop_last()) + match vs.last() {
            MemoryValue::LazyBalanceAddition(a) => a.value(),
            _ => 0,
        }
    }
}

/// A word is below `2^256`.
pub proof fn lemma_word_bound(w: U256)
    ensures
        w.value() < word_modulus(),
{
    let b = limb_base();
    let (a0, a1, a2, a3) = (w.l0 as nat, w.l1 as nat, w.l2 as nat, w.l3 as nat);
    assert(a0 + b * (a1 + b * (a2 + b * a3)) < b * b * b * b) by (nonlinear_arith)
        requires
            a0 < b,
            a1 < b,
            a2 < b,
            a3 < b,
            b > 0,
    ;
}

/// The balance resolved after a run of lazy additions is the balance of the
/// last full account before the run (or of the initial account), plus the
/// sum of the additions, modulo `2^256`.
pub proof fn lemma_lazy_resolution(initial: AccountInfo, vs: Seq<MemoryValue>, j: int)
    requires
        0 <= j <= vs.len(),
        j == 0 || vs[j - 1] is Basic,
        forall|k: int| j <= k < vs.len() ==> #[trigger] vs[k] is LazyBalanceAddition,
    ensures
        resolve(initial, vs).0 == (if j == 0 {
            initial.balance.value()
        } else {
            vs[j - 1]->Basic_0.balance.value()
        } + sum_additions(vs.subrange(j, vs.len() as int))) % word_modulus(),
    decreases vs.len(),
{
    let base = if j == 0 {
        initial.balance.value()
    } else {
        vs[j - 1]->Basic_0.balance.value()
    };
    if j == 0 {
        lemma_word_bound(initial.balance);
    } else {
        lemma_word_bound(vs[j - 1]->Basic_0.balance);
    }
    if vs.len() == j {
        assert(vs.subrange(j, vs.len() as int) =~= Seq::<MemoryValue>::empty());
        if j > 0 {
            assert(vs.last() == vs[j - 1]);
        }
        vstd::arithmetic::div_mod::lemma_small_mod(base, word_modulus());
    } else {
        let t = vs.drop_last();
        assert forall|k: int| j <= k < t.len() implies #[trigger] t[k] is LazyBalanceAddition by {
            assert(t[k] == vs[k]);
        }
        if j > 0 {
            assert(t[j - 1] == vs[j - 1]);
        }
        lemma_lazy_resolution(initial, t, j);
        let a = vs.last()->LazyBalanceAddition_0;
        assert(vs[vs.len() - 1] is LazyBalanceAddition);
        assert(vs.subrange(j, vs.len() as int).drop_last() =~= t.subrange(j, t.len() as int));
        let s0 = sum_additions(t.subrange(j, t.len() as int));
        assert(sum_additions(vs.subrange(j, vs.len() as int)) == s0 + a.value());
        vstd::arithmetic::div_mod::lemma_add_mod_noop((base + s0) as int, a.value() as int, word_modulus() as int);
        vstd::arithmetic::div_mod::lemma_small_mod(a.value(), word_modulus());
        lemma_word_bound(a);
        vstd::arithmetic::div_mod::lemma_mod_twice((base + s0 + a.value()) as int, word_modulus() as int);
    }
}

/// Applies one beneficiary value to the running beneficiary account: a full
/// account replaces it, a lazy addition adds to its balance.
pub fn post_process_beneficiary(beneficiary_account_info: &mut AccountInfo, value: MemoryValue) -> (r: AccountInfo)
    requires
        !(value is Storage),
    ensures
        r == *final(beneficiary_account_info),
        (r.balance.value(), r.nonce, r.code_hash) == resolve(*old(beneficiary_account_info), seq![value]),
{
    match value {
        MemoryValue::Basic(info) => {
            *beneficiary_account_info = info;
        },
        MemoryValue::LazyBalanceAddition(addition) => {
            beneficiary_account_info.balance = wrapping_add(beneficiary_account_info.balance, addition);
        },
        MemoryValue::Storage(_) => {},
    }
    proof {
        assert(seq![value].drop_last() =~= Seq::<MemoryValue>::empty());
        let o = *old(beneficiary_account_info);
        assert(resolve(o, Seq::<MemoryValue>::empty()) == (o.balance.value(), o.nonce, o.code_hash));
        assert(seq![value].last() == value);
    }
    *beneficiary_account_info
}

/// The beneficiary account at the end of each transaction: the initial
/// account resolved through the values that the transactions wrote to it.
pub fn beneficiary_states(initial: AccountInfo, values: &Vec<MemoryValue>) -> (r: Vec<AccountInfo>)
    requires
        forall|i: int| 0 <= i < values@.len() ==> !(#[trigger] values@[i] is Storage),
    ensures
        r@.len() == values@.len(),
        forall|i: int| #![trigger r@[i]]
            0 <= i < values@.len() ==> (r@[i].balance.value(), r@[i].nonce, r@[i].code_hash) == resolve(
                initial,
                values@.take(i + 1),
            ),
{
    let mut account = initial;
    let mut r: Vec<AccountInfo> = Vec::new();
    let mut i: usize = 0;
    proof {
        lemma_word_bound(initial.balance);
        vstd::arithmetic::div_mod::lemma_small_mod(initial.balance.value(), word_modulus());
    }
    while i < values.len()
        invariant
            i <= values@.len(),
            r@.len() == i,
            forall|k: int| 0 <= k < values@.len() ==> !(#[trigger] values@[k] is Storage),
            (account.balance.value(), account.nonce, account.code_hash) == resolve(initial, values@.take(i as int)),
            forall|k: int| #![trigger r@[k]]
                0 <= k < i ==> (r@[k].balance.value(), r@[k].nonce, r@[k].code_hash) == resolve(
                    initial,
                    values@.take(k + 1),
                ),
        decreases values@.len() - i,
    {
        let ghost before = account;
        let state = post_process_beneficiary(&mut account, values[i]);
        proof {
            let vs = values@.take(i + 1);
            assert(vs.drop_last() =~= values@.take(i as int));
            assert(vs.last() == values@[i as int]);
            assert(seq![values@[i as int]].drop_last() =~= Seq::<MemoryValue>::empty());
            assert(resolve(before, Seq::<MemoryValue>::empty()) == (before.balance.value(), before.nonce, before.code_hash));
            assert((account.balance.value(), account.nonce, account.code_hash) == resolve(initial, vs));
        }
        let ghost r0 = r@;
        r.push(state);
        proof {
            assert forall|k: int| #![trigger r@[k]]
                0 <= k < i + 1 implies (r@[k].balance.value(), r@[k].nonce, r@[k].code_hash) == resolve(
                    initial,
                    values@.take(k + 1),
                ) by {
                if k < i {
                    assert(r@[k] == r0[k]);
                }
            }
        }
        i = i + 1;
    }
    r
}

/// Validates `tx_version`. Where its read set no longer holds and this is
/// the first abort of the version, its writes become estimates and the
/// transaction is scheduled again; the re-execution is returned where the
/// scheduler hands it out at once.
pub fn try_validate(mv_memory: &mut MvMemory, scheduler: &mut Scheduler, tx_version: &TxVersion) -> (r: Option<Task>)
    requires
        old(mv_memory).wf(),
        old(scheduler).wf(),
        old(mv_memory).block_size() == old(scheduler).block_size(),
        tx_version.tx_idx < old(scheduler).block_size(),
    ensures
        final(mv_memory).wf(),
        final(scheduler).wf(),
        final(mv_memory).block_size() == final(scheduler).block_size() == old(scheduler).block_size(),
        old(scheduler).incarnations_grow(final(scheduler)),
        ({
            let tx = tx_version.tx_idx;
            let st = old(scheduler).status(tx);
            let aborted = !old(mv_memory).read_set_valid(tx) && st.incarnation == tx_version.tx_incarnation
                && (st.status == IncarnationStatus::Executed || st.status == IncarnationStatus::Validated);
            if aborted {
                &&& forall|loc: MemoryLocationHash| #[trigger]
                    final(mv_memory).location_map(loc) == if old(mv_memory).written(tx).contains(loc) {
                        old(mv_memory).location_map(loc).insert(tx, MemoryEntry::Estimate)
                    } else {
                        old(mv_memory).location_map(loc)
                    }
                &&& final(scheduler).status(tx) == (TxStatus {
                    incarnation: next_incarnation(tx_version.tx_incarnation),
                    status: if old(scheduler).execution_idx() > tx {
                        IncarnationStatus::Executing
                    } else {
                        IncarnationStatus::ReadyToExecute
                    },
                })
                &&& r == if old(scheduler).execution_idx() > tx {
                    Some(Task::Execution(TxVersion { tx_idx: tx, tx_incarnation: next_incarnation(tx_version.tx_incarnation) }))
                } else {
                    None
                }
            } else {
                &&& *final(mv_memory) == *old(mv_memory)
                &&& r is None
                &&& final(scheduler).status(tx) == if st == (TxStatus { incarnation: tx_version.tx_incarnation, status: IncarnationStatus::Executed }) {
                    TxStatus { incarnation: tx_version.tx_incarnation, status: IncarnationStatus::Validated }
                } else {
                    st
                }
            }
        }),
{
    let read_set_valid = mv_memory.validate_read_set(tx_version.tx_idx);
    let aborted = !read_set_valid && scheduler.try_validation_abort(tx_version);
    if aborted {
        mv_memory.convert_writes_to_estimates(tx_version.tx_idx);
    }
    scheduler.finish_validation(tx_version, aborted)
}

/// Records what the incarnation `tx_version` read and wrote, and finishes
/// its execution in the scheduler. Returns the validation task that the
/// scheduler hands out at once, if any.
pub fn record_execution(
    mv_memory: &mut MvMemory,
    scheduler: &mut Scheduler,
    tx_version: TxVersion,
    read_locations: ReadLocations,
    write_set: WriteSet,
) -> (r: Option<Task>)
    requires
        old(mv_memory).wf(),
        old(scheduler).wf(),
        old(mv_memory).block_size() == old(scheduler).block_size(),
        tx_version.tx_idx < old(scheduler).block_size(),
        old(scheduler).status(tx_version.tx_idx) == (TxStatus {
            incarnation: tx_version.tx_incarnation,
            status: IncarnationStatus::Executing,
        }),
    ensures
        final(mv_memory).wf(),
        final(scheduler).wf(),
        final(mv_memory).block_size() == final(scheduler).block_size() == old(scheduler).block_size(),
        old(scheduler).incarnations_grow(final(scheduler)),
        forall|loc: MemoryLocationHash| #[trigger]
            final(mv_memory).location_map(loc) == recorded_map(
                old(mv_memory).location_map(loc),
                tx_version,
                write_set@,
                old(mv_memory).written(tx_version.tx_idx),
                loc,
            ),
        final(scheduler).status(tx_version.tx_idx) == (TxStatus {
            incarnation: tx_version.tx_incarnation,
            status: IncarnationStatus::Executed,
        }),
        r == if old(scheduler).validation_idx() > tx_version.tx_idx {
            Some(Task::Validation(tx_version))
        } else {
            None
        },
{
    let wrote_new_location = mv_memory.record(&tx_version, read_locations, write_set);
    scheduler.finish_execution(tx_version, wrote_new_location)
}

} // verus!