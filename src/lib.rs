//! Parallel execution of a block of EVM transactions in the Block-STM style:
//! a multi-version memory, a scheduler of execution and validation tasks,
//! a dependency pre-pass and the decisions of the per-transaction adapter.
use vstd::prelude::*;

pub mod hashing;
pub mod mv_memory;
pub mod pevm;
pub mod primitives;
pub mod scheduler;
pub mod vm;

use crate::primitives::{AccountInfo, U256};

verus! {

/// The index of a transaction in the block.
pub type TxIdx = usize;

/// The i-th time a transaction is executed, counting from 0.
pub type TxIncarnation = usize;

/// Memory locations are identified by a 64-bit hash of the location.
pub type MemoryLocationHash = u64;

/// One attempt to execute a transaction.
#[derive(Clone, Copy, Debug, PartialEq, Eq, Structural)]
pub struct TxVersion {
    pub tx_idx: TxIdx,
    pub tx_incarnation: TxIncarnation,
}

/// Where a read value came from: a lower transaction's version in the
/// multi-version memory, or the storage before the block.
#[derive(Clone, Copy, Debug, PartialEq, Eq, Structural)]
pub enum ReadOrigin {
    MvMemory(TxVersion),
    Storage,
}

/// A value written to a memory location.
#[derive(Clone, Copy, Debug, PartialEq, Eq, Structural)]
pub enum MemoryValue {
    /// The full basic information of an account.
    Basic(AccountInfo),
    /// An amount to add to the balance at the end of the previous
    /// transaction; used for accounts that every transaction credits.
    LazyBalanceAddition(U256),
    /// The value of a storage slot.
    Storage(U256),
}

/// What a transaction left at a memory location.
#[derive(Clone, Copy, Debug, PartialEq, Eq, Structural)]
pub enum MemoryEntry {
    /// A value written by an incarnation.
    Data(TxIncarnation, MemoryValue),
    /// The incarnation that wrote here was aborted; its next incarnation is
    /// expected to write here again, so readers wait for it.
    Estimate,
}

/// Errors when reading a memory location while executing a transaction.
#[derive(Clone, Debug, PartialEq)]
pub enum ReadError {
    /// Cannot read memory location from storage.
    StorageError(String),
    /// Memory location not found.
    NotFound,
    /// This memory location has been written by a lower transaction.
    BlockingIndex(usize),
    /// The stored memory value type doesn't match its location type.
    InvalidMemoryLocationType,
}

/// For each location read, the origins observed, in the order they were read.
pub type ReadLocations = Vec<(MemoryLocationHash, Vec<ReadOrigin>)>;

/// The writes of one incarnation.
pub type WriteSet = Vec<(MemoryLocationHash, MemoryValue)>;

} // verus!
