//! The scheduler: which transaction to execute or validate next, and the
//! status of each transaction's incarnations.
use vstd::prelude::*;

use crate::{TxIdx, TxIncarnation, TxVersion};

verus! {

/// Where an incarnation of a transaction stands.
#[derive(Clone, Copy, Debug, PartialEq, Eq, Structural)]
pub enum IncarnationStatus {
    ReadyToExecute,
    Executing,
    Executed,
    Validated,
    Aborting,
}

/// The latest incarnation of a transaction and where it stands.
#[derive(Clone, Copy, Debug, PartialEq, Eq, Structural)]
pub struct TxStatus {
    pub incarnation: TxIncarnation,
    pub status: IncarnationStatus,
}

/// Work handed to a worker.
#[derive(Clone, Copy, Debug, PartialEq, Eq, Structural)]
pub enum Task {
    Execution(TxVersion),
    Validation(TxVersion),
}

/// `s` without any occurrence of `x`.
pub open spec fn without(s: Seq<TxIdx>, x: TxIdx) -> Seq<TxIdx>
    decreases s.len(),
{
    if s.len() == 0 {
        s
    } else if s.last() == x {
        without(s.drop_last(), x)
    } else {
        without(s.drop_last(), x).push(s.last())
    }
}

/// `v` without any occurrence of `x`.
fn remove_all(v: &Vec<TxIdx>, x: TxIdx) -> (r: Vec<TxIdx>)
    ensures
        r@ == without(v@, x),
{
    let mut r: Vec<TxIdx> = Vec::new();
    let mut i: usize = 0;
    while i < v.len()
        invariant
            i <= v@.len(),
            r@ == without(v@.take(i as int), x),
        decreases v@.len() - i,
    {
        proof {
            assert(v@.take(i + 1).drop_last() =~= v@.take(i as int));
        }
        if v[i] != x {
            r.push(v[i]);
        }
        i = i + 1;
    }
    proof {
        assert(v@.take(v@.len() as int) =~= v@);
    }
    r
}

proof fn lemma_without_contains(s: Seq<TxIdx>, x: TxIdx, y: TxIdx)
    ensures
        without(s, x).contains(y) <==> s.contains(y) && y != x,
    decreases s.len(),
{
    if s.len() > 0 {
        let t = s.drop_last();
        let l = s.last();
        lemma_without_contains(t, x, y);
        assert(s =~= t.push(l));
        lemma_push_contains(t, l, y);
        if l != x {
            lemma_push_contains(without(t, x), l, y);
        }
    }
}

proof fn lemma_push_contains(t: Seq<TxIdx>, l: TxIdx, y: TxIdx)
    ensures
        t.push(l).contains(y) <==> t.contains(y) || l == y,
{
    if t.push(l).contains(y) && l != y {
        let j = choose|j: int| 0 <= j < t.push(l).len() && t.push(l)[j] == y;
        assert(t[j] == y);
    }
    if t.contains(y) {
        let j = choose|j: int| 0 <= j < t.len() && t[j] == y;
        assert(t.push(l)[j] == y);
    }
    if l == y {
        assert(t.push(l)[t.len() as int] == y);
    }
}

/// The incarnation after `i`; the counter stops at the largest `usize`,
/// which no block reaches.
pub open spec fn next_incarnation(i: TxIncarnation) -> TxIncarnation {
    if i < usize::MAX {
        (i + 1) as TxIncarnation
    } else {
        i
    }
}

fn next_incarnation_exec(i: TxIncarnation) -> (r: TxIncarnation)
    ensures
        r == next_incarnation(i),
{
    if i < usize::MAX {
        i + 1
    } else {
        i
    }
}

/// A counter that saturates at the largest `usize` instead of overflowing.
pub open spec fn count_up(n: usize) -> usize {
    if n < usize::MAX {
        (n + 1) as usize
    } else {
        n
    }
}

/// A counter that stops at zero.
pub open spec fn count_down(n: usize) -> usize {
    if n > 0 {
        (n - 1) as usize
    } else {
        0
    }
}

/// A copy of a list of transaction indices.
fn copy_indices(v: &Vec<TxIdx>) -> (r: Vec<TxIdx>)
    ensures
        r@ == v@,
{
    let mut r: Vec<TxIdx> = Vec::new();
    let mut i: usize = 0;
    while i < v.len()
        invariant
            i <= v@.len(),
            r@ == v@.take(i as int),
        decreases v@.len() - i,
    {
        r.push(v[i]);
        proof {
            assert(v@.take(i + 1) =~= v@.take(i as int).push(v@[i as int]));
        }
        i = i + 1;
    }
    proof {
        assert(v@.take(v@.len() as int) =~= v@);
    }
    r
}

proof fn lemma_without_idempotent(s: Seq<TxIdx>, x: TxIdx)
    ensures
        without(without(s, x), x) == without(s, x),
    decreases s.len(),
{
    if s.len() > 0 {
        lemma_without_idempotent(s.drop_last(), x);
        if s.last() != x {
            assert(without(s, x).drop_last() =~= without(s.drop_last(), x));
        }
    }
}

/// Whether a transaction released from its dependencies becomes ready.
pub open spec fn resumed_status(st: TxStatus, remaining: Seq<TxIdx>) -> TxStatus {
    if remaining.len() == 0 && st.status == IncarnationStatus::Aborting {
        TxStatus { incarnation: next_incarnation(st.incarnation), status: IncarnationStatus::ReadyToExecute }
    } else {
        st
    }
}

/// The scheduler of one block.
pub struct Scheduler {
    block_size: usize,
    /// The next transaction to try executing.
    execution_idx: usize,
    /// The next transaction to try validating.
    validation_idx: usize,
    /// Execution and validation tasks handed out and not finished.
    num_active_tasks: usize,
    transactions_status: Vec<TxStatus>,
    /// For each transaction, the higher transactions waiting on it.
    transactions_dependents: Vec<Vec<TxIdx>>,
    /// For each transaction, the lower transactions it waits on.
    transactions_dependencies: Vec<Vec<TxIdx>>,
}

impl Scheduler {
    pub closed spec fn block_size(&self) -> nat {
        self.block_size as nat
    }

    pub closed spec fn execution_idx(&self) -> usize {
        self.execution_idx
    }

    pub closed spec fn validation_idx(&self) -> usize {
        self.validation_idx
    }

    pub closed spec fn num_active_tasks(&self) -> usize {
        self.num_active_tasks
    }

    pub closed spec fn status(&self, tx: TxIdx) -> TxStatus {
        self.transactions_status@[tx as int]
    }

    pub closed spec fn dependents(&self, tx: TxIdx) -> Seq<TxIdx> {
        self.transactions_dependents@[tx as int]@
    }

    pub closed spec fn dependencies(&self, tx: TxIdx) -> Seq<TxIdx> {
        self.transactions_dependencies@[tx as int]@
    }

    /// The vectors cover the block, and every dependency points to a lower
    /// transaction: waiting can never form a cycle.
    pub open spec fn wf(&self) -> bool {
        &&& self.sizes_wf()
        &&& forall|b: TxIdx, j: int|
            b < self.block_size() && 0 <= j < self.dependents(b).len() ==> b < #[trigger] self.dependents(b)[j] < self.block_size()
        &&& forall|t: TxIdx, j: int|
            t < self.block_size() && 0 <= j < self.dependencies(t).len() ==> #[trigger] self.dependencies(t)[j] < t
    }

    pub closed spec fn sizes_wf(&self) -> bool {
        &&& self.execution_idx <= self.block_size
        &&& self.validation_idx <= self.block_size
        &&& self.transactions_status@.len() == self.block_size
        &&& self.transactions_dependents@.len() == self.block_size
        &&& self.transactions_dependencies@.len() == self.block_size
    }

    /// Whether every transaction has been executed and validated and no task
    /// is still out.
    pub open spec fn is_done(&self) -> bool {
        self.execution_idx() >= self.block_size() && self.validation_idx() >= self.block_size()
            && self.num_active_tasks() == 0
    }

    /// Incarnations never go back, and nothing else than `changed` moves.
    pub open spec fn incarnations_grow(&self, next: &Scheduler) -> bool {
        &&& next.block_size() == self.block_size()
        &&& forall|t: TxIdx| t < self.block_size() ==> #[trigger] next.status(t).incarnation >= self.status(t).incarnation
    }

    /// A scheduler for a block of `block_size` transactions, with the
    /// statuses and dependencies that the pre-pass seeded, that starts
    /// validating at `starting_validation_idx`.
    pub fn new(
        block_size: usize,
        transactions_status: Vec<TxStatus>,
        transactions_dependents: Vec<Vec<TxIdx>>,
        transactions_dependencies: Vec<Vec<TxIdx>>,
        starting_validation_idx: usize,
    ) -> (r: Scheduler)
        requires
            starting_validation_idx <= block_size,
            transactions_status@.len() == block_size,
            transactions_dependents@.len() == block_size,
            transactions_dependencies@.len() == block_size,
            forall|b: int, j: int|
                0 <= b < block_size && 0 <= j < transactions_dependents@[b]@.len() ==> b < #[trigger] transactions_dependents@[b]@[j] < block_size,
            forall|t: int, j: int|
                0 <= t < block_size && 0 <= j < transactions_dependencies@[t]@.len() ==> #[trigger] transactions_dependencies@[t]@[j] < t,
        ensures
            r.wf(),
            r.block_size() == block_size,
            r.execution_idx() == 0,
            r.validation_idx() == starting_validation_idx,
            r.num_active_tasks() == 0,
            forall|t: TxIdx| t < block_size ==> r.status(t) == transactions_status@[t as int],
            forall|t: TxIdx| t < block_size ==> r.dependents(t) == transactions_dependents@[t as int]@,
            forall|t: TxIdx| t < block_size ==> r.dependencies(t) == transactions_dependencies@[t as int]@,
    {
        Scheduler {
            block_size,
            execution_idx: 0,
            validation_idx: starting_validation_idx,
            num_active_tasks: 0,
            transactions_status,
            transactions_dependents,
            transactions_dependencies,
        }
    }

    /// Whether every transaction has been executed and validated and no task
    /// is still out.
    pub fn done(&self) -> (r: bool)
        ensures
            r == self.is_done(),
    {
        self.execution_idx >= self.block_size && self.validation_idx >= self.block_size
            && self.num_active_tasks == 0
    }

    /// The next transaction to try validating.
    pub fn get_validation_idx(&self) -> (r: usize)
        ensures
            r == self.validation_idx(),
    {
        self.validation_idx
    }

    /// The next transaction to try executing.
    pub fn get_execution_idx(&self) -> (r: usize)
        ensures
            r == self.execution_idx(),
    {
        self.execution_idx
    }

    pub fn get_status(&self, tx_idx: TxIdx) -> (r: TxStatus)
        requires
            self.wf(),
            tx_idx < self.block_size(),
        ensures
            r == self.status(tx_idx),
    {
        self.transactions_status[tx_idx]
    }

    fn set_status(&mut self, tx_idx: TxIdx, st: TxStatus)
        requires
            old(self).wf(),
            tx_idx < old(self).block_size(),
        ensures
            final(self).wf(),
            final(self).block_size == old(self).block_size,
            final(self).execution_idx == old(self).execution_idx,
            final(self).validation_idx == old(self).validation_idx,
            final(self).num_active_tasks == old(self).num_active_tasks,
            final(self).transactions_dependents == old(self).transactions_dependents,
            final(self).transactions_dependencies == old(self).transactions_dependencies,
            final(self).transactions_status@ == old(self).transactions_status@.update(tx_idx as int, st),
    {
        self.transactions_status.set(tx_idx, st);
        proof {
            assert forall|b: TxIdx| true implies self.dependents(b) == old(self).dependents(b)
                && self.dependencies(b) == old(self).dependencies(b) by {}
        }
    }

    fn set_cursors(&mut self, execution_idx: usize, validation_idx: usize)
        requires
            old(self).wf(),
            execution_idx <= old(self).block_size(),
            validation_idx <= old(self).block_size(),
        ensures
            final(self).wf(),
            final(self).block_size == old(self).block_size,
            final(self).execution_idx == execution_idx,
            final(self).validation_idx == validation_idx,
            final(self).num_active_tasks == old(self).num_active_tasks,
            final(self).transactions_status == old(self).transactions_status,
            final(self).transactions_dependents == old(self).transactions_dependents,
            final(self).transactions_dependencies == old(self).transactions_dependencies,
    {
        self.execution_idx = execution_idx;
        self.validation_idx = validation_idx;
        proof {
            assert forall|b: TxIdx| true implies self.dependents(b) == old(self).dependents(b)
                && self.dependencies(b) == old(self).dependencies(b) by {}
        }
    }

    fn count_up_active(&mut self)
        requires
            old(self).wf(),
        ensures
            final(self).wf(),
            final(self).num_active_tasks == count_up(old(self).num_active_tasks),
            final(self).block_size == old(self).block_size,
            final(self).execution_idx == old(self).execution_idx,
            final(self).validation_idx == old(self).validation_idx,
            final(self).transactions_status == old(self).transactions_status,
            final(self).transactions_dependents == old(self).transactions_dependents,
            final(self).transactions_dependencies == old(self).transactions_dependencies,
    {
        if self.num_active_tasks < usize::MAX {
            self.num_active_tasks = self.num_active_tasks + 1;
        }
        proof {
            assert forall|b: TxIdx| true implies self.dependents(b) == old(self).dependents(b)
                && self.dependencies(b) == old(self).dependencies(b) by {}
        }
    }

    fn count_down_active(&mut self)
        requires
            old(self).wf(),
        ensures
            final(self).wf(),
            final(self).num_active_tasks == count_down(old(self).num_active_tasks),
            final(self).block_size == old(self).block_size,
            final(self).execution_idx == old(self).execution_idx,
            final(self).validation_idx == old(self).validation_idx,
            final(self).transactions_status == old(self).transactions_status,
            final(self).transactions_dependents == old(self).transactions_dependents,
            final(self).transactions_dependencies == old(self).transactions_dependencies,
    {
        if self.num_active_tasks > 0 {
            self.num_active_tasks = self.num_active_tasks - 1;
        }
        proof {
            assert forall|b: TxIdx| true implies self.dependents(b) == old(self).dependents(b)
                && self.dependencies(b) == old(self).dependencies(b) by {}
        }
    }

    /// Hands out the next task: a validation at the validation cursor while
    /// it is behind the execution cursor, else an execution at the
    /// execution cursor. The cursor moves on either way; nothing is handed
    /// out where the transaction is not in the state the task needs.
    pub fn next_task(&mut self) -> (r: Option<Task>)
        requires
            old(self).wf(),
        ensures
            final(self).wf(),
            old(self).incarnations_grow(final(self)),
            forall|t: TxIdx| t < old(self).block_size() ==> final(self).dependents(t) == old(self).dependents(t)
                && final(self).dependencies(t) == old(self).dependencies(t),
            if old(self).validation_idx() < old(self).execution_idx() {
                let idx = old(self).validation_idx() as TxIdx;
                let st = old(self).status(idx);
                &&& final(self).validation_idx() == idx + 1
                &&& final(self).execution_idx() == old(self).execution_idx()
                &&& forall|t: TxIdx| t < old(self).block_size() ==> final(self).status(t) == old(self).status(t)
                &&& if st.status == IncarnationStatus::Executed {
                    &&& r == Some(Task::Validation(TxVersion { tx_idx: idx, tx_incarnation: st.incarnation }))
                    &&& final(self).num_active_tasks() == count_up(old(self).num_active_tasks())
                } else {
                    &&& r is None
                    &&& final(self).num_active_tasks() == old(self).num_active_tasks()
                }
            } else if old(self).execution_idx() < old(self).block_size() {
                let idx = old(self).execution_idx() as TxIdx;
                let st = old(self).status(idx);
                &&& final(self).execution_idx() == idx + 1
                &&& final(self).validation_idx() == old(self).validation_idx()
                &&& if st.status == IncarnationStatus::ReadyToExecute {
                    &&& r == Some(Task::Execution(TxVersion { tx_idx: idx, tx_incarnation: st.incarnation }))
                    &&& final(self).status(idx) == TxStatus { incarnation: st.incarnation, status: IncarnationStatus::Executing }
                    &&& forall|t: TxIdx| t < old(self).block_size() && t != idx ==> final(self).status(t) == old(self).status(t)
                    &&& final(self).num_active_tasks() == count_up(old(self).num_active_tasks())
                } else {
                    &&& r is None
                    &&& forall|t: TxIdx| t < old(self).block_size() ==> final(self).status(t) == old(self).status(t)
                    &&& final(self).num_active_tasks() == old(self).num_active_tasks()
                }
            } else {
                &&& r is None
                &&& *final(self) == *old(self)
            },
    {
        if self.validation_idx < self.execution_idx {
            let idx = self.validation_idx;
            self.set_cursors(self.execution_idx, idx + 1);
            let st = self.transactions_status[idx];
            if st.status == IncarnationStatus::Executed {
                self.count_up_active();
                Some(Task::Validation(TxVersion { tx_idx: idx, tx_incarnation: st.incarnation }))
            } else {
                None
            }
        } else if self.execution_idx < self.block_size {
            let idx = self.execution_idx;
            self.set_cursors(idx + 1, self.validation_idx);
            let st = self.transactions_status[idx];
            if st.status == IncarnationStatus::ReadyToExecute {
                self.set_status(
                    idx,
                    TxStatus { incarnation: st.incarnation, status: IncarnationStatus::Executing },
                );
                self.count_up_active();
                Some(Task::Execution(TxVersion { tx_idx: idx, tx_incarnation: st.incarnation }))
            } else {
                None
            }
        } else {
            None
        }
    }

    /// Aborts `tx_version` if it is the latest incarnation of its
    /// transaction and has executed; only the first call for a version can
    /// succeed.
    pub fn try_validation_abort(&mut self, tx_version: &TxVersion) -> (aborted: bool)
        requires
            old(self).wf(),
            tx_version.tx_idx < old(self).block_size(),
        ensures
            final(self).wf(),
            old(self).incarnations_grow(final(self)),
            final(self).execution_idx() == old(self).execution_idx(),
            final(self).validation_idx() == old(self).validation_idx(),
            final(self).num_active_tasks() == old(self).num_active_tasks(),
            forall|t: TxIdx| t < old(self).block_size() ==> final(self).dependents(t) == old(self).dependents(t)
                && final(self).dependencies(t) == old(self).dependencies(t),
            aborted == (old(self).status(tx_version.tx_idx) == TxStatus {
                incarnation: tx_version.tx_incarnation,
                status: IncarnationStatus::Executed,
            } || old(self).status(tx_version.tx_idx) == TxStatus {
                incarnation: tx_version.tx_incarnation,
                status: IncarnationStatus::Validated,
            }),
            final(self).status(tx_version.tx_idx) == if aborted {
                TxStatus { incarnation: tx_version.tx_incarnation, status: IncarnationStatus::Aborting }
            } else {
                old(self).status(tx_version.tx_idx)
            },
            forall|t: TxIdx| t < old(self).block_size() && t != tx_version.tx_idx ==> final(self).status(t) == old(self).status(t),
    {
        let st = self.transactions_status[tx_version.tx_idx];
        if st.incarnation == tx_version.tx_incarnation && (st.status == IncarnationStatus::Executed
            || st.status == IncarnationStatus::Validated) {
            self.set_status(
                tx_version.tx_idx,
                TxStatus { incarnation: st.incarnation, status: IncarnationStatus::Aborting },
            );
            true
        } else {
            false
        }
    }

    /// Makes transaction `tx_idx`, whose running incarnation read an
    /// estimate of the lower transaction `blocking_tx_idx`, wait for it.
    /// Returns false, changing nothing, where the blocking transaction has
    /// already executed again: the caller then retries at once.
    pub fn add_dependency(&mut self, tx_idx: TxIdx, blocking_tx_idx: TxIdx) -> (added: bool)
        requires
            old(self).wf(),
            blocking_tx_idx < tx_idx < old(self).block_size(),
        ensures
            final(self).wf(),
            old(self).incarnations_grow(final(self)),
            final(self).execution_idx() == old(self).execution_idx(),
            final(self).validation_idx() == old(self).validation_idx(),
            added == !(old(self).status(blocking_tx_idx).status == IncarnationStatus::Executed
                || old(self).status(blocking_tx_idx).status == IncarnationStatus::Validated),
            added ==> {
                &&& final(self).status(tx_idx) == TxStatus {
                    incarnation: old(self).status(tx_idx).incarnation,
                    status: IncarnationStatus::Aborting,
                }
                &&& forall|t: TxIdx| t < old(self).block_size() && t != tx_idx ==> final(self).status(t) == old(self).status(t)
                &&& final(self).dependents(blocking_tx_idx) == old(self).dependents(blocking_tx_idx).push(tx_idx)
                &&& final(self).dependencies(tx_idx) == old(self).dependencies(tx_idx).push(blocking_tx_idx)
                &&& forall|t: TxIdx| t < old(self).block_size() && t != blocking_tx_idx ==> final(self).dependents(t) == old(self).dependents(t)
                &&& forall|t: TxIdx| t < old(self).block_size() && t != tx_idx ==> final(self).dependencies(t) == old(self).dependencies(t)
                &&& final(self).num_active_tasks() == count_down(old(self).num_active_tasks())
            },
            !added ==> *final(self) == *old(self),
    {
        let blocking = self.transactions_status[blocking_tx_idx];
        if blocking.status == IncarnationStatus::Executed || blocking.status == IncarnationStatus::Validated {
            return false;
        }
        let st = self.transactions_status[tx_idx];
        self.set_status(tx_idx, TxStatus { incarnation: st.incarnation, status: IncarnationStatus::Aborting });
        let mut dependents = copy_indices(&self.transactions_dependents[blocking_tx_idx]);
        dependents.push(tx_idx);
        self.transactions_dependents.set(blocking_tx_idx, dependents);
        let mut dependencies = copy_indices(&self.transactions_dependencies[tx_idx]);
        dependencies.push(blocking_tx_idx);
        self.transactions_dependencies.set(tx_idx, dependencies);
        proof {
            assert forall|b: TxIdx, j: int|
                b < self.block_size() && 0 <= j < self.dependents(b).len() implies b < #[trigger] self.dependents(b)[j] < self.block_size() by {
                if b != blocking_tx_idx {
                    assert(self.dependents(b) == old(self).dependents(b));
                } else if j < old(self).dependents(b).len() {
                    assert(self.dependents(b)[j] == old(self).dependents(b)[j]);
                }
            }
            assert forall|t: TxIdx, j: int|
                t < self.block_size() && 0 <= j < self.dependencies(t).len() implies #[trigger] self.dependencies(t)[j] < t by {
                if t != tx_idx {
                    assert(self.dependencies(t) == old(self).dependencies(t));
                } else if j < old(self).dependencies(t).len() {
                    assert(self.dependencies(t)[j] == old(self).dependencies(t)[j]);
                }
            }
        }
        self.count_down_active();
        true
    }

    /// Releases every transaction in `released` from its wait on `tx_idx`.
    fn resume_dependents(&mut self, tx_idx: TxIdx, released: &Vec<TxIdx>)
        requires
            old(self).wf(),
            tx_idx < old(self).block_size(),
            forall|j: int| 0 <= j < released@.len() ==> tx_idx < #[trigger] released@[j] < old(self).block_size(),
        ensures
            final(self).wf(),
            final(self).block_size() == old(self).block_size(),
            final(self).validation_idx() == old(self).validation_idx(),
            final(self).num_active_tasks() == old(self).num_active_tasks(),
            forall|t: TxIdx| t < old(self).block_size() ==> final(self).dependents(t) == old(self).dependents(t),
            forall|t: TxIdx| #![trigger final(self).dependencies(t)]
                t < old(self).block_size() ==> final(self).dependencies(t) == if released@.contains(t) {
                    without(old(self).dependencies(t), tx_idx)
                } else {
                    old(self).dependencies(t)
                },
            forall|t: TxIdx| #![trigger final(self).status(t)]
                t < old(self).block_size() ==> final(self).status(t) == if released@.contains(t) {
                    resumed_status(old(self).status(t), without(old(self).dependencies(t), tx_idx))
                } else {
                    old(self).status(t)
                },
            final(self).execution_idx() <= old(self).execution_idx(),
            forall|t: TxIdx|
                t < old(self).block_size() && old(self).status(t) != #[trigger] final(self).status(t) ==> final(self).execution_idx() <= t,
            final(self).execution_idx() == old(self).execution_idx() || exists|t: TxIdx|
                t < old(self).block_size() && old(self).status(t) != #[trigger] final(self).status(t) && final(self).execution_idx() == t,
    {
        let mut k: usize = 0;
        while k < released.len()
            invariant
                self.wf(),
                k <= released@.len(),
                tx_idx < self.block_size(),
                self.block_size() == old(self).block_size(),
                self.validation_idx() == old(self).validation_idx(),
                self.num_active_tasks() == old(self).num_active_tasks(),
                forall|j: int| 0 <= j < released@.len() ==> tx_idx < #[trigger] released@[j] < old(self).block_size(),
                forall|t: TxIdx| t < old(self).block_size() ==> self.dependents(t) == old(self).dependents(t),
                forall|t: TxIdx| #![trigger self.dependencies(t)]
                    t < old(self).block_size() ==> self.dependencies(t) == if released@.take(k as int).contains(t) {
                        without(old(self).dependencies(t), tx_idx)
                    } else {
                        old(self).dependencies(t)
                    },
                forall|t: TxIdx| #![trigger self.status(t)]
                    t < old(self).block_size() ==> self.status(t) == if released@.take(k as int).contains(t) {
                        resumed_status(old(self).status(t), without(old(self).dependencies(t), tx_idx))
                    } else {
                        old(self).status(t)
                    },
                self.execution_idx() <= old(self).execution_idx(),
                forall|t: TxIdx|
                    t < old(self).block_size() && old(self).status(t) != #[trigger] self.status(t) ==> self.execution_idx() <= t,
                self.execution_idx() == old(self).execution_idx() || exists|t: TxIdx|
                    t < old(self).block_size() && old(self).status(t) != #[trigger] self.status(t) && self.execution_idx() == t,
            decreases released@.len() - k,
        {
            let d = released[k];
            let ghost before = *self;
            let remaining = remove_all(&self.transactions_dependencies[d], tx_idx);
            proof {
                lemma_without_contains(before.dependencies(d), tx_idx, tx_idx);
                assert forall|j: int| 0 <= j < remaining@.len() implies #[trigger] remaining@[j] < d by {
                    lemma_without_contains(before.dependencies(d), tx_idx, remaining@[j]);
                    assert(remaining@.contains(remaining@[j]));
                    let q = choose|q: int| 0 <= q < before.dependencies(d).len() && before.dependencies(d)[q] == remaining@[j];
                }
            }
            let remaining_len = remaining.len();
            self.transactions_dependencies.set(d, remaining);
            proof {
                assert forall|b: TxIdx| b < self.block_size() && b != d implies self.dependencies(b) == before.dependencies(b) && self.dependents(b) == before.dependents(b) by {}
                assert(self.dependents(d) == before.dependents(d));
                assert forall|b: TxIdx, j: int|
                    b < self.block_size() && 0 <= j < self.dependents(b).len() implies b < #[trigger] self.dependents(b)[j] < self.block_size() by {
                    assert(self.dependents(b) == before.dependents(b));
                }
                assert forall|t: TxIdx, j: int|
                    t < self.block_size() && 0 <= j < self.dependencies(t).len() implies #[trigger] self.dependencies(t)[j] < t by {
                    if t != d {
                        assert(self.dependencies(t) == before.dependencies(t));
                    }
                }
            }
            let st = self.transactions_status[d];
            proof {
                assert(self.dependencies(d) == without(before.dependencies(d), tx_idx));
                assert(remaining_len == self.dependencies(d).len());
                assert(st == before.status(d));
                if released@.take(k as int).contains(d) {
                    lemma_without_idempotent(old(self).dependencies(d), tx_idx);
                    assert(self.dependencies(d) == without(old(self).dependencies(d), tx_idx));
                    if st.status == IncarnationStatus::Aborting {
                        assert(st == old(self).status(d));
                    }
                } else {
                    assert(before.dependencies(d) == old(self).dependencies(d));
                    assert(st == old(self).status(d));
                }
            }
            if remaining_len == 0 && st.status == IncarnationStatus::Aborting {
                let inc = next_incarnation_exec(st.incarnation);
                self.set_status(d, TxStatus { incarnation: inc, status: IncarnationStatus::ReadyToExecute });
                if d < self.execution_idx {
                    self.set_cursors(d, self.validation_idx);
                }
            }
            proof {
                let k1 = k as int + 1;
                assert(released@.take(k1) =~= released@.take(k as int).push(d));
                assert forall|t: TxIdx| #![trigger self.dependencies(t)] #![trigger self.status(t)] t < old(self).block_size() implies
                    (self.dependencies(t) == if released@.take(k1).contains(t) {
                        without(old(self).dependencies(t), tx_idx)
                    } else {
                        old(self).dependencies(t)
                    }) && self.status(t) == if released@.take(k1).contains(t) {
                        resumed_status(old(self).status(t), without(old(self).dependencies(t), tx_idx))
                    } else {
                        old(self).status(t)
                    } by {
                    lemma_push_contains(released@.take(k as int), d, t);
                    if t == d {
                        let w = without(old(self).dependencies(d), tx_idx);
                        if released@.take(k as int).contains(t) {
                            lemma_without_idempotent(old(self).dependencies(t), tx_idx);
                        }
                        assert(self.dependencies(d) == w);
                        assert(self.status(d) == resumed_status(old(self).status(d), w));
                    } else {
                        assert(self.dependencies(t) == before.dependencies(t));
                        assert(self.status(t) == before.status(t));
                    }
                }
                assert forall|t: TxIdx|
                    t < old(self).block_size() && old(self).status(t) != #[trigger] self.status(t) implies self.execution_idx() <= t by {
                    if t != d {
                        assert(self.status(t) == before.status(t));
                    }
                }
                if self.execution_idx() != old(self).execution_idx() {
                    if self.execution_idx() == before.execution_idx() {
                        let t = choose|t: TxIdx|
                            t < old(self).block_size() && old(self).status(t) != #[trigger] before.status(t) && before.execution_idx() == t;
                        if t != d {
                            assert(self.status(t) == before.status(t));
                        }
                    } else {
                        assert(self.status(d).status == IncarnationStatus::ReadyToExecute);
                        assert(old(self).status(d).status == IncarnationStatus::Aborting);
                        assert(old(self).status(d) != self.status(d));
                    }
                }
            }
            k = k + 1;
        }
        proof {
            assert(released@.take(released@.len() as int) =~= released@);
        }
    }

    /// Records that `tx_version` finished executing, and wakes the
    /// transactions that waited on it. Where the validation cursor has
    /// passed the transaction, it is validated at once, through the returned
    /// task; if it wrote a new location, the cursor also comes back to the
    /// transaction after it, so that higher transactions are validated again.
    pub fn finish_execution(&mut self, tx_version: TxVersion, wrote_new_location: bool) -> (r: Option<Task>)
        requires
            old(self).wf(),
            tx_version.tx_idx < old(self).block_size(),
            old(self).status(tx_version.tx_idx) == (TxStatus {
                incarnation: tx_version.tx_incarnation,
                status: IncarnationStatus::Executing,
            }),
        ensures
            final(self).wf(),
            old(self).incarnations_grow(final(self)),
            final(self).status(tx_version.tx_idx) == (TxStatus {
                incarnation: tx_version.tx_incarnation,
                status: IncarnationStatus::Executed,
            }),
            final(self).dependents(tx_version.tx_idx) == Seq::<TxIdx>::empty(),
            forall|t: TxIdx| t < old(self).block_size() && t != tx_version.tx_idx ==> final(self).dependents(t) == old(self).dependents(t),
            forall|t: TxIdx| #![trigger final(self).dependencies(t)]
                t < old(self).block_size() ==> final(self).dependencies(t) == if old(self).dependents(tx_version.tx_idx).contains(t) {
                    without(old(self).dependencies(t), tx_version.tx_idx)
                } else {
                    old(self).dependencies(t)
                },
            forall|t: TxIdx| #![trigger final(self).status(t)]
                t < old(self).block_size() && t != tx_version.tx_idx ==> final(self).status(t) == if old(self).dependents(tx_version.tx_idx).contains(t) {
                    resumed_status(old(self).status(t), without(old(self).dependencies(t), tx_version.tx_idx))
                } else {
                    old(self).status(t)
                },
            final(self).execution_idx() <= old(self).execution_idx(),
            forall|t: TxIdx|
                t < old(self).block_size() && t != tx_version.tx_idx && old(self).status(t) != #[trigger] final(self).status(t) ==> final(self).execution_idx() <= t,
            final(self).execution_idx() == old(self).execution_idx() || exists|t: TxIdx|
                t < old(self).block_size() && t != tx_version.tx_idx && old(self).status(t) != #[trigger] final(self).status(t) && final(self).execution_idx() == t,
            if old(self).validation_idx() > tx_version.tx_idx {
                &&& r == Some(Task::Validation(tx_version))
                &&& final(self).num_active_tasks() == old(self).num_active_tasks()
                &&& final(self).validation_idx() == if wrote_new_location {
                    (tx_version.tx_idx + 1) as usize
                } else {
                    old(self).validation_idx()
                }
            } else {
                &&& r is None
                &&& final(self).num_active_tasks() == count_down(old(self).num_active_tasks())
                &&& final(self).validation_idx() == old(self).validation_idx()
            },
    {
        let tx = tx_version.tx_idx;
        self.set_status(tx, TxStatus { incarnation: tx_version.tx_incarnation, status: IncarnationStatus::Executed });
        let released = copy_indices(&self.transactions_dependents[tx]);
        let ghost before = *self;
        self.transactions_dependents.set(tx, Vec::new());
        proof {
            assert forall|b: TxIdx| b < self.block_size() && b != tx implies self.dependents(b) == before.dependents(b) by {}
            assert forall|b: TxIdx| true implies self.dependencies(b) == before.dependencies(b) by {}
            assert(self.sizes_wf());
            assert forall|t: TxIdx, j: int|
                t < self.block_size() && 0 <= j < self.dependencies(t).len() implies #[trigger] self.dependencies(t)[j] < t by {
                assert(self.dependencies(t) == before.dependencies(t));
            }
            assert forall|b: TxIdx, j: int|
                b < self.block_size() && 0 <= j < self.dependents(b).len() implies b < #[trigger] self.dependents(b)[j] < self.block_size() by {
                if b != tx {
                    assert(self.dependents(b) == before.dependents(b));
                }
            }
            assert(self.dependents(tx) =~= Seq::<TxIdx>::empty());
            assert forall|j: int| 0 <= j < released@.len() implies tx < #[trigger] released@[j] < self.block_size() by {
                assert(released@[j] == before.dependents(tx)[j]);
            }
        }
        let ghost mid = *self;
        self.resume_dependents(tx, &released);
        proof {
            assert(!released@.contains(tx)) by {
                if released@.contains(tx) {
                    let j = choose|j: int| 0 <= j < released@.len() && released@[j] == tx;
                }
            }
            assert(self.status(tx) == mid.status(tx));
            assert(released@ == old(self).dependents(tx));
            assert forall|t: TxIdx| t < old(self).block_size() && t != tx implies self.dependents(t) == old(self).dependents(t) by {
                assert(mid.dependents(t) == before.dependents(t));
            }
            assert forall|t: TxIdx| t < old(self).block_size() implies mid.dependencies(t) == old(self).dependencies(t) by {
                assert(mid.dependencies(t) == before.dependencies(t));
            }
            assert forall|t: TxIdx|
                t < old(self).block_size() implies #[trigger] self.status(t).incarnation >= old(self).status(t).incarnation by {
                if t != tx {
                    assert(mid.status(t) == old(self).status(t));
                }
            }
            assert forall|t: TxIdx|
                t < old(self).block_size() && t != tx && old(self).status(t) != #[trigger] self.status(t) implies self.execution_idx() <= t by {
                assert(mid.status(t) == old(self).status(t));
            }
            if self.execution_idx() != old(self).execution_idx() {
                let t = choose|t: TxIdx|
                    t < mid.block_size() && mid.status(t) != #[trigger] self.status(t) && self.execution_idx() == t;
                assert(t != tx);
                assert(mid.status(t) == old(self).status(t));
            }
        }
        let ghost resumed = *self;
        let r = if self.validation_idx > tx {
            if wrote_new_location {
                self.set_cursors(self.execution_idx, tx + 1);
            }
            Some(Task::Validation(tx_version))
        } else {
            self.count_down_active();
            None
        };
        proof {
            assert forall|t: TxIdx| #![trigger self.status(t)] #![trigger self.dependencies(t)] #![trigger self.dependents(t)]
                true implies self.status(t) == resumed.status(t)
                && self.dependencies(t) == resumed.dependencies(t) && self.dependents(t) == resumed.dependents(t) by {}
            assert forall|t: TxIdx| #![trigger self.dependencies(t)] t < old(self).block_size() implies self.dependencies(t) == if old(self).dependents(tx).contains(t) {
                    without(old(self).dependencies(t), tx)
                } else {
                    old(self).dependencies(t)
                } by {
                assert(resumed.dependencies(t) == if released@.contains(t) {
                    without(mid.dependencies(t), tx)
                } else {
                    mid.dependencies(t)
                });
                assert(mid.dependencies(t) == old(self).dependencies(t));
            }
            if self.execution_idx() != old(self).execution_idx() {
                let t = choose|t: TxIdx|
                    t < mid.block_size() && mid.status(t) != #[trigger] resumed.status(t) && resumed.execution_idx() == t;
                assert(t != tx);
                assert(mid.status(t) == old(self).status(t));
                assert(old(self).status(t) != self.status(t));
            }
        }
        r
    }

    /// Records that the validation of `tx_version` finished. Where it was
    /// aborted, the transaction becomes ready for its next incarnation, the
    /// validation cursor comes back to the transaction after it, and where
    /// the execution cursor has passed it the re-execution is handed out at
    /// once; else an executed incarnation becomes validated.
    pub fn finish_validation(&mut self, tx_version: &TxVersion, aborted: bool) -> (r: Option<Task>)
        requires
            old(self).wf(),
            tx_version.tx_idx < old(self).block_size(),
            aborted ==> old(self).status(tx_version.tx_idx) == (TxStatus {
                incarnation: tx_version.tx_incarnation,
                status: IncarnationStatus::Aborting,
            }),
        ensures
            final(self).wf(),
            old(self).incarnations_grow(final(self)),
            final(self).execution_idx() == old(self).execution_idx(),
            forall|t: TxIdx| t < old(self).block_size() ==> final(self).dependents(t) == old(self).dependents(t)
                && final(self).dependencies(t) == old(self).dependencies(t),
            forall|t: TxIdx| t < old(self).block_size() && t != tx_version.tx_idx ==> final(self).status(t) == old(self).status(t),
            if aborted {
                let next = next_incarnation(tx_version.tx_incarnation);
                &&& final(self).validation_idx() == if old(self).validation_idx() > tx_version.tx_idx + 1 {
                    (tx_version.tx_idx + 1) as usize
                } else {
                    old(self).validation_idx()
                }
                &&& if old(self).execution_idx() > tx_version.tx_idx {
                    &&& r == Some(Task::Execution(TxVersion { tx_idx: tx_version.tx_idx, tx_incarnation: next }))
                    &&& final(self).status(tx_version.tx_idx) == (TxStatus { incarnation: next, status: IncarnationStatus::Executing })
                    &&& final(self).num_active_tasks() == old(self).num_active_tasks()
                } else {
                    &&& r is None
                    &&& final(self).status(tx_version.tx_idx) == (TxStatus { incarnation: next, status: IncarnationStatus::ReadyToExecute })
                    &&& final(self).num_active_tasks() == count_down(old(self).num_active_tasks())
                }
            } else {
                &&& r is None
                &&& final(self).validation_idx() == old(self).validation_idx()
                &&& final(self).num_active_tasks() == count_down(old(self).num_active_tasks())
                &&& final(self).status(tx_version.tx_idx) == if old(self).status(tx_version.tx_idx) == (TxStatus {
                    incarnation: tx_version.tx_incarnation,
                    status: IncarnationStatus::Executed,
                }) {
                    TxStatus { incarnation: tx_version.tx_incarnation, status: IncarnationStatus::Validated }
                } else {
                    old(self).status(tx_version.tx_idx)
                }
            },
    {
        let tx = tx_version.tx_idx;
        if aborted {
            let next = next_incarnation_exec(tx_version.tx_incarnation);
            if self.validation_idx > tx + 1 {
                self.set_cursors(self.execution_idx, tx + 1);
            }
            if self.execution_idx > tx {
                self.set_status(tx, TxStatus { incarnation: next, status: IncarnationStatus::Executing });
                Some(Task::Execution(TxVersion { tx_idx: tx, tx_incarnation: next }))
            } else {
                self.set_status(tx, TxStatus { incarnation: next, status: IncarnationStatus::ReadyToExecute });
                self.count_down_active();
                None
            }
        } else {
            let st = self.transactions_status[tx];
            if st.incarnation == tx_version.tx_incarnation && st.status == IncarnationStatus::Executed {
                self.set_status(tx, TxStatus { incarnation: st.incarnation, status: IncarnationStatus::Validated });
            }
            self.count_down_active();
            None
        }
    }

    /// Brings the validation cursor back to `idx` where it has passed it:
    /// an execution that read or wrote beyond its sender and recipient asks
    /// for validation from there.
    pub fn decrease_validation_idx(&mut self, idx: TxIdx)
        requires
            old(self).wf(),
            idx <= old(self).block_size(),
        ensures
            final(self).wf(),
            old(self).incarnations_grow(final(self)),
            final(self).execution_idx() == old(self).execution_idx(),
            final(self).num_active_tasks() == old(self).num_active_tasks(),
            final(self).validation_idx() == if idx < old(self).validation_idx() {
                idx
            } else {
                old(self).validation_idx()
            },
            forall|t: TxIdx| t < old(self).block_size() ==> final(self).status(t) == old(self).status(t)
                && final(self).dependents(t) == old(self).dependents(t)
                && final(self).dependencies(t) == old(self).dependencies(t),
    {
        if idx < self.validation_idx {
            self.set_cursors(self.execution_idx, idx);
        }
    }
}

} // verus!