//! The multi-version memory: for each location, the value that each
//! transaction of the block last wrote there, ordered by transaction index.
use std::collections::HashMap;
use vstd::prelude::*;

use crate::{
    MemoryEntry, MemoryLocationHash, MemoryValue, ReadLocations, ReadOrigin, TxIdx, TxVersion,
    WriteSet,
};

verus! {

broadcast use vstd::std_specs::hash::group_hash_axioms;

/// The entries of one location: pairs of a transaction index and an entry.
pub type LocationEntries = Seq<(TxIdx, MemoryEntry)>;

/// Transaction indices strictly increase along the entries.
pub open spec fn sorted(s: LocationEntries) -> bool {
    forall|i: int, j: int| 0 <= i < j < s.len() ==> s[i].0 < s[j].0
}

/// The entries as a map from transaction index to entry.
pub open spec fn to_map(s: LocationEntries) -> Map<TxIdx, MemoryEntry>
    decreases s.len(),
{
    if s.len() == 0 {
        Map::empty()
    } else {
        to_map(s.drop_last()).insert(s.last().0, s.last().1)
    }
}

/// How many entries belong to transactions below `tx`.
pub open spec fn below_count(s: LocationEntries, tx: TxIdx) -> nat
    decreases s.len(),
{
    if s.len() == 0 {
        0
    } else if s.last().0 < tx {
        s.len()
    } else {
        below_count(s.drop_last(), tx)
    }
}

/// The outcome of reading a location for a transaction.
#[derive(Clone, Copy, Debug, PartialEq, Eq, Structural)]
pub enum ReadMemoryResult {
    /// No lower transaction wrote here: read from storage.
    NotFound,
    /// The highest lower writer was aborted: wait for it.
    Blocked { blocking_tx_idx: TxIdx },
    /// The value of the highest lower writer.
    Found { version: TxVersion, value: MemoryValue },
}

/// What the entry `s[i]` gives a reader.
pub open spec fn entry_result(s: LocationEntries, i: int) -> ReadMemoryResult {
    match s[i].1 {
        MemoryEntry::Estimate => ReadMemoryResult::Blocked { blocking_tx_idx: s[i].0 },
        MemoryEntry::Data(inc, value) => ReadMemoryResult::Found {
            version: TxVersion { tx_idx: s[i].0, tx_incarnation: inc },
            value,
        },
    }
}

/// Reading at `tx` gives the entry of the highest transaction below `tx`.
pub open spec fn read_entries(s: LocationEntries, tx: TxIdx) -> ReadMemoryResult {
    let n = below_count(s, tx);
    if n == 0 {
        ReadMemoryResult::NotFound
    } else {
        entry_result(s, n - 1)
    }
}

/// In sorted entries, `below_count` splits the entries below `tx` from the others.
pub proof fn lemma_below_count(s: LocationEntries, tx: TxIdx)
    requires
        sorted(s),
    ensures
        below_count(s, tx) <= s.len(),
        forall|j: int| 0 <= j < below_count(s, tx) ==> s[j].0 < tx,
        forall|j: int| below_count(s, tx) <= j < s.len() ==> s[j].0 >= tx,
    decreases s.len(),
{
    if s.len() > 0 && s.last().0 >= tx {
        let t = s.drop_last();
        assert(sorted(t));
        lemma_below_count(t, tx);
        assert forall|j: int| below_count(s, tx) <= j < s.len() implies s[j].0 >= tx by {
            if j < t.len() {
                assert(t[j] == s[j]);
            }
        }
        assert forall|j: int| 0 <= j < below_count(s, tx) implies s[j].0 < tx by {
            assert(t[j] == s[j]);
        }
    } else if s.len() > 0 {
        assert forall|j: int| 0 <= j < below_count(s, tx) implies s[j].0 < tx by {
            if j < s.len() - 1 {
                assert(s[j].0 < s[s.len() - 1].0);
            }
        }
    }
}

/// A split point of sorted entries at `tx` is `below_count`.
pub proof fn lemma_below_count_unique(s: LocationEntries, tx: TxIdx, p: int)
    requires
        sorted(s),
        0 <= p <= s.len(),
        forall|j: int| 0 <= j < p ==> s[j].0 < tx,
        forall|j: int| p <= j < s.len() ==> s[j].0 >= tx,
    ensures
        below_count(s, tx) == p,
{
    lemma_below_count(s, tx);
    let n = below_count(s, tx) as int;
    if n < p {
        assert(s[n].0 >= tx);
    } else if p < n {
        assert(s[p].0 < tx);
    }
}

/// The map of sorted entries holds exactly the pairs of the entries.
pub proof fn lemma_to_map(s: LocationEntries)
    requires
        sorted(s),
    ensures
        forall|i: TxIdx| #[trigger]
            to_map(s).contains_key(i) <==> exists|j: int| 0 <= j < s.len() && s[j].0 == i,
        forall|j: int| 0 <= j < s.len() ==> to_map(s)[#[trigger] s[j].0] == s[j].1,
    decreases s.len(),
{
    if s.len() > 0 {
        let t = s.drop_last();
        assert(sorted(t));
        lemma_to_map(t);
        assert forall|i: TxIdx| #[trigger]
            to_map(s).contains_key(i) <==> exists|j: int| 0 <= j < s.len() && s[j].0 == i by {
            if to_map(s).contains_key(i) {
                if i == s.last().0 {
                    assert(s[s.len() - 1].0 == i);
                } else {
                    assert(to_map(t).contains_key(i));
                    let j = choose|j: int| 0 <= j < t.len() && t[j].0 == i;
                    assert(t[j] == s[j]);
                    assert(s[j].0 == i);
                }
            }
            if exists|j: int| 0 <= j < s.len() && s[j].0 == i {
                let j = choose|j: int| 0 <= j < s.len() && s[j].0 == i;
                if j < t.len() {
                    assert(t[j] == s[j]);
                    assert(t[j].0 == i);
                }
            }
        }
        assert forall|j: int| 0 <= j < s.len() implies to_map(s)[#[trigger] s[j].0] == s[j].1 by {
            if j < t.len() {
                assert(t[j] == s[j]);
                assert(s[j].0 < s.last().0);
            }
        }
    }
}

/// Sorted entries with the same pairs have the same map.
pub proof fn lemma_to_map_eq(s: LocationEntries, m: Map<TxIdx, MemoryEntry>)
    requires
        sorted(s),
        forall|i: TxIdx| #[trigger]
            m.contains_key(i) <==> exists|j: int| 0 <= j < s.len() && s[j].0 == i,
        forall|j: int| 0 <= j < s.len() ==> m[#[trigger] s[j].0] == s[j].1,
    ensures
        to_map(s) == m,
{
    lemma_to_map(s);
    assert forall|i: TxIdx| #[trigger] to_map(s).contains_key(i) implies to_map(s)[i] == m[i] by {
        let j = choose|j: int| 0 <= j < s.len() && s[j].0 == i;
    }
    assert(to_map(s) =~= m);
}

/// A read at `tx` gives the entry of the highest transaction below `tx`:
/// nothing where no transaction below wrote, an estimate's blocker, or the
/// version and value of the data.
pub proof fn lemma_read_is_highest_below(s: LocationEntries, tx: TxIdx)
    requires
        sorted(s),
    ensures
        ({
            let m = to_map(s);
            match read_entries(s, tx) {
                ReadMemoryResult::NotFound => forall|k: TxIdx| #[trigger] m.contains_key(k) ==> k >= tx,
                ReadMemoryResult::Blocked { blocking_tx_idx: b } => {
                    &&& b < tx
                    &&& m.contains_key(b)
                    &&& m[b] == MemoryEntry::Estimate
                    &&& forall|k: TxIdx| #[trigger] m.contains_key(k) && k < tx ==> k <= b
                },
                ReadMemoryResult::Found { version, value } => {
                    &&& version.tx_idx < tx
                    &&& m.contains_key(version.tx_idx)
                    &&& m[version.tx_idx] == MemoryEntry::Data(version.tx_incarnation, value)
                    &&& forall|k: TxIdx| #[trigger] m.contains_key(k) && k < tx ==> k <= version.tx_idx
                },
            }
        }),
{
    lemma_below_count(s, tx);
    lemma_to_map(s);
    let n = below_count(s, tx) as int;
    let m = to_map(s);
    assert forall|k: TxIdx| #[trigger] m.contains_key(k) && k < tx implies n > 0 && k <= s[n - 1].0 by {
        let j = choose|j: int| 0 <= j < s.len() && s[j].0 == k;
        if j >= n {
            assert(s[j].0 >= tx);
        } else if j < n - 1 {
            assert(s[j].0 < s[n - 1].0);
        }
    }
    if n > 0 {
        assert(m.contains_key(s[n - 1].0));
        assert(m[s[n - 1].0] == s[n - 1].1);
    }
}

/// The number of entries of `s` below `tx`, found by binary search.
pub(crate) fn find_below_count(s: &Vec<(TxIdx, MemoryEntry)>, tx: TxIdx) -> (n: usize)
    requires
        sorted(s@),
    ensures
        n == below_count(s@, tx),
{
    let mut lo: usize = 0;
    let mut hi: usize = s.len();
    while lo < hi
        invariant
            sorted(s@),
            0 <= lo <= hi <= s@.len(),
            forall|j: int| 0 <= j < lo ==> s@[j].0 < tx,
            forall|j: int| hi <= j < s@.len() ==> s@[j].0 >= tx,
        decreases hi - lo,
    {
        let mid = lo + (hi - lo) / 2;
        if s[mid].0 < tx {
            lo = mid + 1;
        } else {
            hi = mid;
        }
    }
    proof {
        lemma_below_count_unique(s@, tx, lo as int);
    }
    lo
}

/// Reads entries of one location at `tx`.
fn read_location_entries(s: &Vec<(TxIdx, MemoryEntry)>, tx: TxIdx) -> (r: ReadMemoryResult)
    requires
        sorted(s@),
    ensures
        r == read_entries(s@, tx),
{
    let n = find_below_count(s, tx);
    if n == 0 {
        ReadMemoryResult::NotFound
    } else {
        proof {
            lemma_below_count(s@, tx);
        }
        let (idx, entry) = s[n - 1];
        match entry {
            MemoryEntry::Estimate => ReadMemoryResult::Blocked { blocking_tx_idx: idx },
            MemoryEntry::Data(inc, value) => ReadMemoryResult::Found {
                version: TxVersion { tx_idx: idx, tx_incarnation: inc },
                value,
            },
        }
    }
}

/// Writes `entry` for transaction `tx`, replacing what it wrote before.
fn upsert_entry(s: &mut Vec<(TxIdx, MemoryEntry)>, tx: TxIdx, entry: MemoryEntry)
    requires
        sorted(old(s)@),
    ensures
        sorted(final(s)@),
        to_map(final(s)@) == to_map(old(s)@).insert(tx, entry),
{
    let n = find_below_count(s, tx);
    proof {
        lemma_below_count(s@, tx);
        lemma_to_map(s@);
    }
    let ghost s0 = s@;
    if n < s.len() && s[n].0 == tx {
        s.set(n, (tx, entry));
        proof {
            let s1 = s@;
            assert forall|i: int, j: int| 0 <= i < j < s1.len() implies s1[i].0 < s1[j].0 by {
                assert(s0[i].0 < s0[j].0);
            }
            let m = to_map(s0).insert(tx, entry);
            assert forall|i: TxIdx| #[trigger]
                m.contains_key(i) <==> exists|j: int| 0 <= j < s1.len() && s1[j].0 == i by {
                if m.contains_key(i) && i != tx {
                    let j = choose|j: int| 0 <= j < s0.len() && s0[j].0 == i;
                    assert(s1[j].0 == i);
                }
                if i == tx {
                    assert(s1[n as int].0 == i);
                }
                if exists|j: int| 0 <= j < s1.len() && s1[j].0 == i {
                    let j = choose|j: int| 0 <= j < s1.len() && s1[j].0 == i;
                    assert(s0[j].0 == i);
                }
            }
            assert forall|j: int| 0 <= j < s1.len() implies m[#[trigger] s1[j].0] == s1[j].1 by {
                if j != n {
                    assert(s0[j] == s1[j]);
                }
            }
            lemma_to_map_eq(s1, m);
        }
    } else {
        s.insert(n, (tx, entry));
        proof {
            let s1 = s@;
            assert forall|i: int, j: int| 0 <= i < j < s1.len() implies s1[i].0 < s1[j].0 by {
                if j < n {
                    assert(s0[i].0 < s0[j].0);
                } else if i > n {
                    assert(s0[i - 1].0 < s0[j - 1].0);
                } else if i == n {
                    assert(s0[j - 1].0 >= tx);
                    assert(s0[j - 1].0 != tx || j - 1 != n);
                    if j - 1 > n {
                        assert(s0[n as int].0 < s0[j - 1].0);
                    }
                } else {
                    assert(s0[i].0 < tx);
                }
            }
            let m = to_map(s0).insert(tx, entry);
            assert forall|i: TxIdx| #[trigger]
                m.contains_key(i) <==> exists|j: int| 0 <= j < s1.len() && s1[j].0 == i by {
                if m.contains_key(i) && i != tx {
                    let j = choose|j: int| 0 <= j < s0.len() && s0[j].0 == i;
                    if j < n {
                        assert(s1[j].0 == i);
                    } else {
                        assert(s1[j + 1].0 == i);
                    }
                }
                if m.contains_key(i) && i == tx {
                    assert(s1[n as int].0 == i);
                }
                if exists|j: int| 0 <= j < s1.len() && s1[j].0 == i {
                    let j = choose|j: int| 0 <= j < s1.len() && s1[j].0 == i;
                    if j < n {
                        assert(s0[j].0 == i);
                    } else if j > n {
                        assert(s0[j - 1].0 == i);
                    }
                }
            }
            assert forall|j: int| 0 <= j < s1.len() implies m[#[trigger] s1[j].0] == s1[j].1 by {
                if j < n {
                    assert(s0[j] == s1[j]);
                } else if j > n {
                    assert(s0[j - 1] == s1[j]);
                    assert(s0[j - 1].0 >= tx);
                    if j - 1 > n {
                        assert(s0[n as int].0 < s0[j - 1].0);
                    }
                }
            }
            lemma_to_map_eq(s1, m);
        }
    }
}

/// Drops what transaction `tx` wrote, if anything.
fn remove_entry(s: &mut Vec<(TxIdx, MemoryEntry)>, tx: TxIdx)
    requires
        sorted(old(s)@),
    ensures
        sorted(final(s)@),
        to_map(final(s)@) == to_map(old(s)@).remove(tx),
{
    let n = find_below_count(s, tx);
    proof {
        lemma_below_count(s@, tx);
        lemma_to_map(s@);
    }
    let ghost s0 = s@;
    if n < s.len() && s[n].0 == tx {
        s.remove(n);
        proof {
            let s1 = s@;
            assert forall|i: int, j: int| 0 <= i < j < s1.len() implies s1[i].0 < s1[j].0 by {
                if j < n {
                    assert(s0[i].0 < s0[j].0);
                } else if i >= n {
                    assert(s0[i + 1].0 < s0[j + 1].0);
                } else {
                    assert(s0[i].0 < s0[j + 1].0);
                }
            }
            let m = to_map(s0).remove(tx);
            assert forall|i: TxIdx| #[trigger]
                m.contains_key(i) <==> exists|j: int| 0 <= j < s1.len() && s1[j].0 == i by {
                if m.contains_key(i) {
                    let j = choose|j: int| 0 <= j < s0.len() && s0[j].0 == i;
                    if j < n {
                        assert(s1[j].0 == i);
                    } else {
                        assert(j != n);
                        assert(s1[j - 1].0 == i);
                    }
                }
                if exists|j: int| 0 <= j < s1.len() && s1[j].0 == i {
                    let j = choose|j: int| 0 <= j < s1.len() && s1[j].0 == i;
                    if j < n {
                        assert(s0[j].0 == i);
                        assert(s0[j].0 < tx);
                    } else {
                        assert(s0[j + 1].0 == i);
                        assert(s0[n as int].0 < s0[j + 1].0);
                    }
                }
            }
            assert forall|j: int| 0 <= j < s1.len() implies m[#[trigger] s1[j].0] == s1[j].1 by {
                if j < n {
                    assert(s0[j] == s1[j]);
                } else {
                    assert(s0[j + 1] == s1[j]);
                    assert(s0[n as int].0 < s0[j + 1].0);
                }
            }
            lemma_to_map_eq(s1, m);
        }
    } else {
        proof {
            assert forall|j: int| 0 <= j < s0.len() implies s0[j].0 != tx by {
                if j > n {
                    assert(s0[n as int].0 < s0[j].0);
                }
            }
            assert(to_map(s0).remove(tx) =~= to_map(s0));
        }
    }
}

/// The value that the last write to `loc` in `ws` wrote, if any.
pub open spec fn written_value(ws: Seq<(MemoryLocationHash, MemoryValue)>, loc: MemoryLocationHash) -> Option<MemoryValue>
    decreases ws.len(),
{
    if ws.len() == 0 {
        None
    } else if ws.last().0 == loc {
        Some(ws.last().1)
    } else {
        written_value(ws.drop_last(), loc)
    }
}

/// The entries of location `loc` after version `v` recorded the writes `ws`,
/// where the transaction's previous incarnation wrote the locations `prev`.
pub open spec fn recorded_map(
    m: Map<TxIdx, MemoryEntry>,
    v: TxVersion,
    ws: Seq<(MemoryLocationHash, MemoryValue)>,
    prev: Seq<MemoryLocationHash>,
    loc: MemoryLocationHash,
) -> Map<TxIdx, MemoryEntry> {
    match written_value(ws, loc) {
        Some(value) => m.insert(v.tx_idx, MemoryEntry::Data(v.tx_incarnation, value)),
        None => if prev.contains(loc) {
            m.remove(v.tx_idx)
        } else {
            m
        },
    }
}

/// The read locations with their origins as sequences.
pub open spec fn read_locations_view(r: ReadLocations) -> Seq<(MemoryLocationHash, Seq<ReadOrigin>)> {
    r@.map_values(|p: (MemoryLocationHash, Vec<ReadOrigin>)| (p.0, p.1@))
}

/// The locations that a write set writes, in order.
pub open spec fn write_locations(ws: Seq<(MemoryLocationHash, MemoryValue)>) -> Seq<MemoryLocationHash> {
    ws.map_values(|p: (MemoryLocationHash, MemoryValue)| p.0)
}

proof fn lemma_written_value_step(ws: Seq<(MemoryLocationHash, MemoryValue)>, i: int, loc: MemoryLocationHash)
    requires
        0 <= i < ws.len(),
    ensures
        written_value(ws.take(i + 1), loc) == if ws[i].0 == loc {
            Some(ws[i].1)
        } else {
            written_value(ws.take(i), loc)
        },
{
    assert(ws.take(i + 1).drop_last() =~= ws.take(i));
}

proof fn lemma_written_value_some(ws: Seq<(MemoryLocationHash, MemoryValue)>, loc: MemoryLocationHash)
    ensures
        written_value(ws, loc) is Some <==> write_locations(ws).contains(loc),
    decreases ws.len(),
{
    if ws.len() > 0 {
        let t = ws.drop_last();
        lemma_written_value_some(t, loc);
        if write_locations(ws).contains(loc) && ws.last().0 != loc {
            let j = choose|j: int| 0 <= j < ws.len() && write_locations(ws)[j] == loc;
            assert(write_locations(t)[j] == loc);
        }
        if write_locations(t).contains(loc) {
            let j = choose|j: int| 0 <= j < t.len() && write_locations(t)[j] == loc;
            assert(write_locations(ws)[j] == loc);
        }
        if ws.last().0 == loc {
            assert(write_locations(ws)[ws.len() - 1] == loc);
        }
    }
}

/// Whether the `k`-th origin read at a location still matches: counting down
/// from the highest entry below the reader (`n` entries are below it), an
/// origin in the memory names the version of that entry, and an origin in
/// storage means that the entries had run out.
pub open spec fn origin_matches(s: LocationEntries, n: nat, k: int, o: ReadOrigin) -> bool {
    match o {
        ReadOrigin::Storage => k >= n,
        ReadOrigin::MvMemory(v) => k < n && s[n - 1 - k].0 == v.tx_idx && match s[n - 1 - k].1 {
            MemoryEntry::Data(inc, _) => inc == v.tx_incarnation,
            MemoryEntry::Estimate => false,
        },
    }
}

/// Whether reading `s` at `tx` now would observe the origins `os` again.
pub open spec fn origins_valid(s: LocationEntries, tx: TxIdx, os: Seq<ReadOrigin>) -> bool {
    forall|k: int| 0 <= k < os.len() ==> origin_matches(s, below_count(s, tx), k, #[trigger] os[k])
}

/// The values of the data entries, in order.
pub open spec fn data_values(s: LocationEntries) -> Seq<MemoryValue>
    decreases s.len(),
{
    if s.len() == 0 {
        Seq::empty()
    } else {
        match s.last().1 {
            MemoryEntry::Data(_, v) => data_values(s.drop_last()).push(v),
            MemoryEntry::Estimate => data_values(s.drop_last()),
        }
    }
}

/// The value of the highest writer of a location, where its entry is data.
pub open spec fn final_value(s: LocationEntries) -> Option<MemoryValue> {
    match read_entries(s, usize::MAX) {
        ReadMemoryResult::Found { value, .. } => Some(value),
        _ => None,
    }
}

/// A copy of a list of locations.
fn copy_locations(v: &Vec<MemoryLocationHash>) -> (r: Vec<MemoryLocationHash>)
    ensures
        r@ == v@,
{
    let mut r: Vec<MemoryLocationHash> = Vec::new();
    let mut i: usize = 0;
    while i < v.len()
        invariant
            i <= v@.len(),
            r@ == v@.take(i as int),
        decreases v@.len() - i,
    {
        r.push(v[i]);
        proof {
            assert(v@.take(i + 1) =~= v@.take(i as int).push(v@[i as int]));
        }
        i = i + 1;
    }
    proof {
        assert(v@.take(v@.len() as int) =~= v@);
    }
    r
}

/// Whether `v` holds `loc`.
fn contains_location(v: &Vec<MemoryLocationHash>, loc: MemoryLocationHash) -> (r: bool)
    ensures
        r == v@.contains(loc),
{
    let mut i: usize = 0;
    while i < v.len()
        invariant
            i <= v@.len(),
            forall|j: int| 0 <= j < i ==> v@[j] != loc,
        decreases v@.len() - i,
    {
        if v[i] == loc {
            return true;
        }
        i = i + 1;
    }
    false
}

/// Whether some location of `new` is missing from `prev`.
fn any_missing(new: &Vec<MemoryLocationHash>, prev: &Vec<MemoryLocationHash>) -> (r: bool)
    ensures
        r == exists|i: int| 0 <= i < new@.len() && !prev@.contains(#[trigger] new@[i]),
{
    let mut j: usize = 0;
    while j < new.len()
        invariant
            j <= new@.len(),
            forall|q: int| 0 <= q < j ==> prev@.contains(#[trigger] new@[q]),
        decreases new@.len() - j,
    {
        if !contains_location(prev, new[j]) {
            return true;
        }
        j = j + 1;
    }
    false
}

/// The multi-version memory of a block.
pub struct MvMemory {
    /// For each location written, its entries by ascending transaction index.
    data: HashMap<MemoryLocationHash, Vec<(TxIdx, MemoryEntry)>>,
    /// The keys of `data`, in the order they were first written.
    locations: Vec<MemoryLocationHash>,
    /// The location of the block's beneficiary account.
    beneficiary_location: MemoryLocationHash,
    /// For each transaction, the locations its last incarnation wrote.
    last_written_locations: Vec<Vec<MemoryLocationHash>>,
    /// For each transaction, what its last incarnation read.
    last_read_set: Vec<ReadLocations>,
}

impl MvMemory {
    /// The number of transactions of the block.
    pub closed spec fn block_size(&self) -> nat {
        self.last_read_set@.len()
    }

    pub closed spec fn beneficiary(&self) -> MemoryLocationHash {
        self.beneficiary_location
    }

    /// Whether some transaction has written `loc`.
    pub closed spec fn has_location(&self, loc: MemoryLocationHash) -> bool {
        self.data@.contains_key(loc)
    }

    /// The entries of `loc`, by ascending transaction index.
    pub closed spec fn entries(&self, loc: MemoryLocationHash) -> LocationEntries {
        if self.data@.contains_key(loc) {
            self.data@[loc]@
        } else {
            Seq::empty()
        }
    }

    /// The entries of `loc` by transaction index.
    pub open spec fn location_map(&self, loc: MemoryLocationHash) -> Map<TxIdx, MemoryEntry> {
        to_map(self.entries(loc))
    }

    /// The locations that the last incarnation of `tx` wrote.
    pub closed spec fn written(&self, tx: TxIdx) -> Seq<MemoryLocationHash> {
        self.last_written_locations@[tx as int]@
    }

    /// What the last incarnation of `tx` read.
    pub closed spec fn read_locations(&self, tx: TxIdx) -> Seq<(MemoryLocationHash, Seq<ReadOrigin>)> {
        read_locations_view(self.last_read_set@[tx as int])
    }

    pub closed spec fn wf(&self) -> bool {
        &&& self.last_written_locations@.len() == self.last_read_set@.len()
        &&& forall|loc: MemoryLocationHash| #[trigger]
            self.data@.contains_key(loc) ==> sorted(self.data@[loc]@)
        &&& self.locations@.no_duplicates()
        &&& forall|loc: MemoryLocationHash| #[trigger]
            self.data@.contains_key(loc) <==> self.locations@.contains(loc)
        &&& forall|t: int, loc: MemoryLocationHash|
            0 <= t < self.last_written_locations@.len() && #[trigger]
            self.last_written_locations@[t]@.contains(loc) ==> self.data@.contains_key(loc)
    }

    /// The entries of every location ascend by transaction index, and a
    /// location that no transaction wrote has none.
    pub proof fn lemma_entries_sorted(&self, loc: MemoryLocationHash)
        requires
            self.wf(),
        ensures
            sorted(self.entries(loc)),
            !self.has_location(loc) ==> self.entries(loc).len() == 0,
    {
    }

    /// An empty memory for a block of `block_size` transactions whose
    /// beneficiary account is at `beneficiary_location`.
    pub fn new(block_size: usize, beneficiary_location: MemoryLocationHash) -> (r: MvMemory)
        ensures
            r.wf(),
            r.block_size() == block_size,
            r.beneficiary() == beneficiary_location,
            forall|loc: MemoryLocationHash| !r.has_location(loc),
            forall|loc: MemoryLocationHash| r.entries(loc) == Seq::<(TxIdx, MemoryEntry)>::empty(),
            forall|t: TxIdx| t < block_size ==> r.written(t) == Seq::<MemoryLocationHash>::empty(),
            forall|t: TxIdx| t < block_size ==> r.read_locations(t) == Seq::<(MemoryLocationHash, Seq<ReadOrigin>)>::empty(),
    {
        let mut last_written_locations: Vec<Vec<MemoryLocationHash>> = Vec::new();
        let mut last_read_set: Vec<ReadLocations> = Vec::new();
        let mut i: usize = 0;
        while i < block_size
            invariant
                i <= block_size,
                last_written_locations@.len() == i,
                last_read_set@.len() == i,
                forall|t: int| 0 <= t < i ==> last_written_locations@[t]@ == Seq::<MemoryLocationHash>::empty(),
                forall|t: int| 0 <= t < i ==> last_read_set@[t]@ == Seq::<(MemoryLocationHash, Vec<ReadOrigin>)>::empty(),
            decreases block_size - i,
        {
            last_written_locations.push(Vec::new());
            last_read_set.push(Vec::new());
            i = i + 1;
        }
        let r = MvMemory {
            data: HashMap::new(),
            locations: Vec::new(),
            beneficiary_location,
            last_written_locations,
            last_read_set,
        };
        proof {
            assert forall|t: TxIdx| t < block_size implies r.read_locations(t) == Seq::<(MemoryLocationHash, Seq<ReadOrigin>)>::empty() by {
                assert(r.read_locations(t) =~= Seq::<(MemoryLocationHash, Seq<ReadOrigin>)>::empty());
            }
        }
        r
    }

    /// The entries of `location`, if some transaction wrote it.
    pub(crate) fn location_entries(&self, location: MemoryLocationHash) -> (r: Option<&Vec<(TxIdx, MemoryEntry)>>)
        requires
            self.wf(),
        ensures
            match r {
                Some(s) => self.has_location(location) && s@ == self.entries(location) && sorted(s@),
                None => !self.has_location(location),
            },
    {
        self.data.get(&location)
    }

    /// Reads `location` for transaction `tx_idx`: the entry of the highest
    /// transaction below `tx_idx` that wrote there.
    pub fn read(&self, location: MemoryLocationHash, tx_idx: TxIdx) -> (r: ReadMemoryResult)
        requires
            self.wf(),
        ensures
            r == read_entries(self.entries(location), tx_idx),
    {
        match self.data.get(&location) {
            Some(s) => read_location_entries(s, tx_idx),
            None => ReadMemoryResult::NotFound,
        }
    }

    /// Adds the writes of one location to the memory.
    fn write_location(&mut self, loc: MemoryLocationHash, tx: TxIdx, entry: MemoryEntry)
        requires
            old(self).wf(),
        ensures
            final(self).wf(),
            final(self).last_written_locations == old(self).last_written_locations,
            final(self).last_read_set == old(self).last_read_set,
            final(self).beneficiary_location == old(self).beneficiary_location,
            final(self).has_location(loc),
            forall|l: MemoryLocationHash| old(self).has_location(l) ==> final(self).has_location(l),
            final(self).location_map(loc) == old(self).location_map(loc).insert(tx, entry),
            forall|l: MemoryLocationHash| l != loc ==> final(self).entries(l) == old(self).entries(l),
    {
        let mut s = match self.data.remove(&loc) {
            Some(s) => s,
            None => {
                self.locations.push(loc);
                Vec::new()
            },
        };
        proof {
            if !old(self).data@.contains_key(loc) {
                assert(s@ =~= old(self).entries(loc));
            }
        }
        upsert_entry(&mut s, tx, entry);
        self.data.insert(loc, s);
        proof {
            assert forall|l: MemoryLocationHash| #[trigger]
                self.data@.contains_key(l) <==> self.locations@.contains(l) by {
                if l != loc && self.locations@.contains(l) {
                    let j = choose|j: int| 0 <= j < self.locations@.len() && self.locations@[j] == l;
                    if j < old(self).locations@.len() {
                        assert(old(self).locations@[j] == l);
                    }
                }
                if l != loc && old(self).locations@.contains(l) {
                    let j = choose|j: int| 0 <= j < old(self).locations@.len() && old(self).locations@[j] == l;
                    assert(self.locations@[j] == l);
                }
                if l == loc {
                    assert(self.locations@.contains(loc)) by {
                        if !old(self).data@.contains_key(loc) {
                            assert(self.locations@[self.locations@.len() - 1] == loc);
                        } else {
                            assert(self.locations@ == old(self).locations@);
                        }
                    }
                }
            }
        }
    }

    /// Drops the entry of transaction `tx` at `loc`, if any.
    fn erase_location(&mut self, loc: MemoryLocationHash, tx: TxIdx)
        requires
            old(self).wf(),
        ensures
            final(self).wf(),
            final(self).last_written_locations == old(self).last_written_locations,
            final(self).last_read_set == old(self).last_read_set,
            final(self).beneficiary_location == old(self).beneficiary_location,
            forall|l: MemoryLocationHash| old(self).has_location(l) <==> final(self).has_location(l),
            final(self).location_map(loc) == old(self).location_map(loc).remove(tx),
            forall|l: MemoryLocationHash| l != loc ==> final(self).entries(l) == old(self).entries(l),
    {
        match self.data.remove(&loc) {
            Some(s) => {
                let mut s = s;
                remove_entry(&mut s, tx);
                self.data.insert(loc, s);
                proof {
                    assert(self.data@ =~= old(self).data@.insert(loc, s));
                }
            },
            None => {
                proof {
                    assert(to_map(Seq::<(TxIdx, MemoryEntry)>::empty()).remove(tx) =~= to_map(
                        Seq::<(TxIdx, MemoryEntry)>::empty(),
                    ));
                }
            },
        }
    }

    /// Records what version `tx_version` read and wrote. Returns whether it
    /// wrote a location that the previous incarnation of the transaction did
    /// not: higher transactions then need validating again.
    pub fn record(
        &mut self,
        tx_version: &TxVersion,
        read_locations: ReadLocations,
        write_set: WriteSet,
    ) -> (wrote_new_location: bool)
        requires
            old(self).wf(),
            tx_version.tx_idx < old(self).block_size(),
        ensures
            final(self).wf(),
            final(self).block_size() == old(self).block_size(),
            final(self).beneficiary() == old(self).beneficiary(),
            final(self).read_locations(tx_version.tx_idx) == read_locations_view(read_locations),
            final(self).written(tx_version.tx_idx) == write_locations(write_set@),
            forall|t: TxIdx|
                t < old(self).block_size() && t != tx_version.tx_idx ==> final(self).written(t)
                    == old(self).written(t) && final(self).read_locations(t) == old(
                    self,
                ).read_locations(t),
            forall|loc: MemoryLocationHash| #[trigger]
                final(self).location_map(loc) == recorded_map(
                    old(self).location_map(loc),
                    *tx_version,
                    write_set@,
                    old(self).written(tx_version.tx_idx),
                    loc,
                ),
            wrote_new_location == exists|i: int|
                0 <= i < write_set@.len() && !old(self).written(tx_version.tx_idx).contains(
                    #[trigger] write_set@[i].0,
                ),
    {
        let tx = tx_version.tx_idx;
        let ghost prev_written = old(self).written(tx);
        let ghost ws = write_set@;
        self.last_read_set.set(tx, read_locations);
        let mut i: usize = 0;
        while i < write_set.len()
            invariant
                self.wf(),
                tx < self.block_size(),
                ws == write_set@,
                i <= ws.len(),
                self.last_written_locations == old(self).last_written_locations,
                self.last_read_set@ == old(self).last_read_set@.update(tx as int, read_locations),
                self.beneficiary_location == old(self).beneficiary_location,
                forall|l: MemoryLocationHash| old(self).has_location(l) ==> self.has_location(l),
                forall|j: int| 0 <= j < i ==> self.has_location(#[trigger] ws[j].0),
                forall|loc: MemoryLocationHash| #[trigger]
                    self.location_map(loc) == match written_value(ws.take(i as int), loc) {
                        Some(v) => old(self).location_map(loc).insert(
                            tx,
                            MemoryEntry::Data(tx_version.tx_incarnation, v),
                        ),
                        None => old(self).location_map(loc),
                    },
            decreases ws.len() - i,
        {
            let (loc, value) = write_set[i];
            let entry = MemoryEntry::Data(tx_version.tx_incarnation, value);
            let ghost before = *self;
            self.write_location(loc, tx, entry);
            proof {
                assert forall|l: MemoryLocationHash| #[trigger]
                    self.location_map(l) == match written_value(ws.take(i + 1), l) {
                        Some(v) => old(self).location_map(l).insert(
                            tx,
                            MemoryEntry::Data(tx_version.tx_incarnation, v),
                        ),
                        None => old(self).location_map(l),
                    } by {
                    lemma_written_value_step(ws, i as int, l);
                    let prior = before.location_map(l);
                    if l == loc {
                        match written_value(ws.take(i as int), l) {
                            Some(v) => {
                                assert(old(self).location_map(l).insert(
                                    tx,
                                    MemoryEntry::Data(tx_version.tx_incarnation, v),
                                ).insert(tx, entry) =~= old(self).location_map(l).insert(tx, entry));
                            },
                            None => {},
                        }
                    } else {
                        assert(self.entries(l) == before.entries(l));
                        assert(self.location_map(l) == prior);
                    }
                }
                assert forall|j: int| 0 <= j < i + 1 implies self.has_location(#[trigger] ws[j].0) by {
                    if j < i {
                        assert(before.has_location(ws[j].0));
                    }
                }
            }
            i = i + 1;
        }
        proof {
            assert(ws.take(ws.len() as int) =~= ws);
        }
        // The locations written now, and those written before.
        let mut new_locations: Vec<MemoryLocationHash> = Vec::new();
        let mut written_now: Vec<MemoryLocationHash> = Vec::new();
        let mut j: usize = 0;
        while j < write_set.len()
            invariant
                ws == write_set@,
                j <= ws.len(),
                new_locations@ == write_locations(ws.take(j as int)),
                written_now@ == new_locations@,
            decreases ws.len() - j,
        {
            new_locations.push(write_set[j].0);
            written_now.push(write_set[j].0);
            proof {
                assert(write_locations(ws.take(j + 1)) =~= write_locations(ws.take(j as int)).push(
                    ws[j as int].0,
                ));
            }
            j = j + 1;
        }
        proof {
            assert(new_locations@ =~= write_locations(ws));
        }
        let mut prev_locations: Vec<MemoryLocationHash> = Vec::new();
        let mut k: usize = 0;
        while k < self.last_written_locations[tx].len()
            invariant
                tx < self.last_written_locations@.len(),
                self.last_written_locations == old(self).last_written_locations,
                prev_written == self.last_written_locations@[tx as int]@,
                k <= prev_written.len(),
                prev_locations@ == prev_written.take(k as int),
            decreases prev_written.len() - k,
        {
            prev_locations.push(self.last_written_locations[tx][k]);
            proof {
                assert(prev_written.take(k + 1) =~= prev_written.take(k as int).push(prev_written[k as int]));
            }
            k = k + 1;
        }
        proof {
            assert(prev_locations@ =~= prev_written);
        }
        let wrote_new_location = any_missing(&new_locations, &prev_locations);
        let ghost mid = *self;
        self.last_written_locations.set(tx, written_now);
        proof {
            assert(prev_written.take(0) =~= Seq::<MemoryLocationHash>::empty());
            assert forall|l: MemoryLocationHash| #[trigger] self.location_map(l) == mid.location_map(l) by {
                assert(self.entries(l) == mid.entries(l));
            }
            assert forall|t: int, loc: MemoryLocationHash|
                0 <= t < self.last_written_locations@.len() && #[trigger]
                self.last_written_locations@[t]@.contains(loc) implies self.data@.contains_key(loc) by {
                if t == tx {
                    let j = choose|j: int| 0 <= j < new_locations@.len() && new_locations@[j] == loc;
                    assert(mid.has_location(ws[j].0));
                } else {
                    assert(mid.last_written_locations@[t] == self.last_written_locations@[t]);
                }
            }
        }
        // Drop what the previous incarnation wrote and this one did not.
        let mut k: usize = 0;
        while k < prev_locations.len()
            invariant
                self.wf(),
                tx < self.block_size(),
                k <= prev_locations@.len(),
                prev_locations@ == prev_written,
                new_locations@ == write_locations(ws),
                self.last_written_locations@ == old(self).last_written_locations@.update(tx as int, written_now),
                self.last_read_set@ == old(self).last_read_set@.update(tx as int, read_locations),
                self.beneficiary_location == old(self).beneficiary_location,
                forall|loc: MemoryLocationHash| #[trigger]
                    self.location_map(loc) == match written_value(ws, loc) {
                        Some(v) => old(self).location_map(loc).insert(
                            tx,
                            MemoryEntry::Data(tx_version.tx_incarnation, v),
                        ),
                        None => if prev_written.take(k as int).contains(loc) {
                            old(self).location_map(loc).remove(tx)
                        } else {
                            old(self).location_map(loc)
                        },
                    },
            decreases prev_locations@.len() - k,
        {
            let loc = prev_locations[k];
            let ghost before = *self;
            if !contains_location(&new_locations, loc) {
                self.erase_location(loc, tx);
            }
            proof {
                assert forall|l: MemoryLocationHash| #[trigger]
                    self.location_map(l) == match written_value(ws, l) {
                        Some(v) => old(self).location_map(l).insert(
                            tx,
                            MemoryEntry::Data(tx_version.tx_incarnation, v),
                        ),
                        None => if prev_written.take(k + 1).contains(l) {
                            old(self).location_map(l).remove(tx)
                        } else {
                            old(self).location_map(l)
                        },
                    } by {
                    lemma_written_value_some(ws, l);
                    let prior = before.location_map(l);
                    let k1 = k as int + 1;
                    assert(prev_written.take(k + 1) =~= prev_written.take(k as int).push(loc));
                    if prev_written.take(k as int).contains(l) {
                        let q = choose|q: int| 0 <= q < k && prev_written.take(k as int)[q] == l;
                        assert(prev_written.take(k + 1)[q] == l);
                    }
                    if prev_written.take(k + 1).contains(l) && l != loc {
                        let q = choose|q: int| 0 <= q < k1 && prev_written.take(k1)[q] == l;
                        assert(prev_written.take(k as int)[q] == l);
                    }
                    if l == loc {
                        assert(prev_written.take(k + 1)[k as int] == l);
                        if written_value(ws, l) is None {
                            assert(old(self).location_map(l).remove(tx).remove(tx) =~= old(self).location_map(l).remove(tx));
                        }
                    } else {
                        assert(self.entries(l) == before.entries(l));
                        assert(self.location_map(l) == prior);
                    }
                }
            }
            k = k + 1;
        }
        proof {
            assert(prev_written.take(prev_written.len() as int) =~= prev_written);
            assert forall|t: TxIdx|
                t < old(self).block_size() && t != tx implies self.written(t) == old(self).written(t)
                    && self.read_locations(t) == old(self).read_locations(t) by {
                assert(self.last_read_set@[t as int] == old(self).last_read_set@[t as int]);
            }
        }
        proof {
            assert(written_now@ == write_locations(ws));
            if wrote_new_location {
                let q = choose|q: int| 0 <= q < new_locations@.len() && !prev_written.contains(new_locations@[q]);
                assert(!prev_written.contains(write_set@[q].0));
            }
            assert forall|q: int| 0 <= q < write_set@.len() && !prev_written.contains(#[trigger] write_set@[q].0) implies wrote_new_location by {
                assert(new_locations@[q] == write_set@[q].0);
            }
        }
        wrote_new_location
    }

    /// Marks every location that the last incarnation of `tx_idx` wrote with
    /// an estimate: the transaction was aborted and is expected to write
    /// there again.
    pub fn convert_writes_to_estimates(&mut self, tx_idx: TxIdx)
        requires
            old(self).wf(),
            tx_idx < old(self).block_size(),
        ensures
            final(self).wf(),
            final(self).block_size() == old(self).block_size(),
            final(self).beneficiary() == old(self).beneficiary(),
            forall|t: TxIdx|
                t < old(self).block_size() ==> final(self).written(t) == old(self).written(t)
                    && final(self).read_locations(t) == old(self).read_locations(t),
            forall|loc: MemoryLocationHash| #[trigger]
                final(self).location_map(loc) == if old(self).written(tx_idx).contains(loc) {
                    old(self).location_map(loc).insert(tx_idx, MemoryEntry::Estimate)
                } else {
                    old(self).location_map(loc)
                },
    {
        let written = copy_locations(&self.last_written_locations[tx_idx]);
        let ghost w = written@;
        let mut k: usize = 0;
        while k < written.len()
            invariant
                self.wf(),
                written@ == w,
                w == old(self).written(tx_idx),
                k <= w.len(),
                self.last_written_locations == old(self).last_written_locations,
                self.last_read_set == old(self).last_read_set,
                self.beneficiary_location == old(self).beneficiary_location,
                forall|loc: MemoryLocationHash| #[trigger]
                    self.location_map(loc) == if w.take(k as int).contains(loc) {
                        old(self).location_map(loc).insert(tx_idx, MemoryEntry::Estimate)
                    } else {
                        old(self).location_map(loc)
                    },
            decreases w.len() - k,
        {
            let loc = written[k];
            let ghost before = *self;
            self.write_location(loc, tx_idx, MemoryEntry::Estimate);
            proof {
                let k1 = k as int + 1;
                assert(w.take(k1) =~= w.take(k as int).push(loc));
                assert forall|l: MemoryLocationHash| #[trigger]
                    self.location_map(l) == if w.take(k1).contains(l) {
                        old(self).location_map(l).insert(tx_idx, MemoryEntry::Estimate)
                    } else {
                        old(self).location_map(l)
                    } by {
                    let prior = before.location_map(l);
                    if w.take(k as int).contains(l) {
                        let q = choose|q: int| 0 <= q < k && w.take(k as int)[q] == l;
                        assert(w.take(k1)[q] == l);
                    }
                    if w.take(k1).contains(l) && l != loc {
                        let q = choose|q: int| 0 <= q < k1 && w.take(k1)[q] == l;
                        assert(w.take(k as int)[q] == l);
                    }
                    if l == loc {
                        assert(w.take(k1)[k as int] == l);
                        assert(old(self).location_map(l).insert(tx_idx, MemoryEntry::Estimate).insert(
                            tx_idx,
                            MemoryEntry::Estimate,
                        ) =~= old(self).location_map(l).insert(tx_idx, MemoryEntry::Estimate));
                    } else {
                        assert(self.entries(l) == before.entries(l));
                        assert(self.location_map(l) == prior);
                    }
                }
            }
            k = k + 1;
        }
        proof {
            assert(w.take(w.len() as int) =~= w);
        }
    }

    /// Whether re-reading every location that the last incarnation of
    /// `tx` read would observe the same origins, in the same order.
    pub open spec fn read_set_valid(&self, tx: TxIdx) -> bool {
        forall|i: int|
            0 <= i < self.read_locations(tx).len() ==> origins_valid(
                self.entries(#[trigger] self.read_locations(tx)[i].0),
                tx,
                self.read_locations(tx)[i].1,
            )
    }

    /// Whether re-reading every location that the last incarnation of
    /// `tx_idx` read would observe the same origins, in the same order.
    pub fn validate_read_set(&self, tx_idx: TxIdx) -> (valid: bool)
        requires
            self.wf(),
            tx_idx < self.block_size(),
        ensures
            valid == self.read_set_valid(tx_idx),
    {
        let read_set = &self.last_read_set[tx_idx];
        let ghost rs = self.read_locations(tx_idx);
        let empty: Vec<(TxIdx, MemoryEntry)> = Vec::new();
        let mut i: usize = 0;
        while i < read_set.len()
            invariant
                self.wf(),
                tx_idx < self.block_size(),
                read_set == &self.last_read_set@[tx_idx as int],
                rs == self.read_locations(tx_idx),
                rs.len() == read_set@.len(),
                empty@.len() == 0,
                i <= rs.len(),
                forall|q: int| 0 <= q < i ==> origins_valid(self.entries(#[trigger] rs[q].0), tx_idx, rs[q].1),
            decreases rs.len() - i,
        {
            let loc = read_set[i].0;
            let origins = &read_set[i].1;
            assert(rs[i as int].0 == loc && rs[i as int].1 == origins@);
            let s = match self.data.get(&loc) {
                Some(s) => s,
                None => &empty,
            };
            assert(s@ == self.entries(loc)) by {
                if !self.data@.contains_key(loc) {
                    assert(s@ =~= self.entries(loc));
                }
            }
            let n = find_below_count(s, tx_idx);
            proof {
                lemma_below_count(s@, tx_idx);
            }
            let mut k: usize = 0;
            while k < origins.len()
                invariant
                    sorted(s@),
                    rs == self.read_locations(tx_idx),
                    i < rs.len(),
                    rs[i as int].0 == loc,
                    rs[i as int].1 == origins@,
                    s@ == self.entries(loc),
                    n == below_count(s@, tx_idx),
                    n <= s@.len(),
                    k <= origins@.len(),
                    forall|q: int| 0 <= q < k ==> origin_matches(s@, n as nat, q, #[trigger] origins@[q]),
                decreases origins@.len() - k,
            {
                let ok = match origins[k] {
                    ReadOrigin::Storage => k >= n,
                    ReadOrigin::MvMemory(v) => {
                        if k < n {
                            let (idx, entry) = s[n - 1 - k];
                            idx == v.tx_idx && match entry {
                                MemoryEntry::Data(inc, _) => inc == v.tx_incarnation,
                                MemoryEntry::Estimate => false,
                            }
                        } else {
                            false
                        }
                    },
                };
                if !ok {
                    proof {
                        assert(!origin_matches(s@, n as nat, k as int, origins@[k as int]));
                        assert(!origins_valid(self.entries(rs[i as int].0), tx_idx, rs[i as int].1));
                        assert(!origins_valid(
                            self.entries(self.read_locations(tx_idx)[i as int].0),
                            tx_idx,
                            self.read_locations(tx_idx)[i as int].1,
                        ));
                    }
                    return false;
                }
                k = k + 1;
            }
            proof {
                assert(origins_valid(self.entries(rs[i as int].0), tx_idx, rs[i as int].1));
            }
            i = i + 1;
        }
        true
    }

    /// The values that the transactions wrote to the beneficiary account,
    /// by ascending transaction index.
    pub fn consume_beneficiary(&self) -> (r: Vec<MemoryValue>)
        requires
            self.wf(),
        ensures
            r@ == data_values(self.entries(self.beneficiary())),
    {
        let mut r: Vec<MemoryValue> = Vec::new();
        match self.data.get(&self.beneficiary_location) {
            Some(s) => {
                let mut i: usize = 0;
                while i < s.len()
                    invariant
                        i <= s@.len(),
                        r@ == data_values(s@.take(i as int)),
                    decreases s@.len() - i,
                {
                    proof {
                        assert(s@.take(i + 1).drop_last() =~= s@.take(i as int));
                    }
                    match s[i].1 {
                        MemoryEntry::Data(_, v) => r.push(v),
                        MemoryEntry::Estimate => {},
                    }
                    i = i + 1;
                }
                proof {
                    assert(s@.take(s@.len() as int) =~= s@);
                }
            },
            None => {},
        }
        r
    }

    /// For every location written, the value of its highest writer, where
    /// that writer's entry is data.
    pub fn snapshot(&self) -> (r: Vec<(MemoryLocationHash, MemoryValue)>)
        requires
            self.wf(),
        ensures
            forall|i: int|
                0 <= i < r@.len() ==> self.has_location(#[trigger] r@[i].0) && final_value(self.entries(r@[i].0)) == Some(r@[i].1),
            forall|loc: MemoryLocationHash|
                #![trigger self.entries(loc)]
                self.has_location(loc) && final_value(self.entries(loc)) is Some
                    ==> exists|i: int| 0 <= i < r@.len() && r@[i].0 == loc,
            forall|i: int, j: int| 0 <= i < j < r@.len() ==> r@[i].0 != r@[j].0,
    {
        let mut r: Vec<(MemoryLocationHash, MemoryValue)> = Vec::new();
        let mut i: usize = 0;
        while i < self.locations.len()
            invariant
                self.wf(),
                i <= self.locations@.len(),
                forall|q: int|
                    0 <= q < r@.len() ==> self.has_location(#[trigger] r@[q].0) && final_value(self.entries(r@[q].0)) == Some(r@[q].1),
                forall|q: int|
                    0 <= q < r@.len() ==> exists|p: int| 0 <= p < i && self.locations@[p] == #[trigger] r@[q].0,
                forall|p: int|
                    #![trigger self.locations@[p]]
                    0 <= p < i && final_value(self.entries(self.locations@[p])) is Some
                        ==> exists|q: int| 0 <= q < r@.len() && r@[q].0 == self.locations@[p],
                forall|q1: int, q2: int| 0 <= q1 < q2 < r@.len() ==> r@[q1].0 != r@[q2].0,
            decreases self.locations@.len() - i,
        {
            let loc = self.locations[i];
            assert(self.locations@.contains(loc));
            let res = self.read(loc, usize::MAX);
            match res {
                ReadMemoryResult::Found { version, value } => {
                    let ghost r0 = r@;
                    r.push((loc, value));
                    proof {
                        assert forall|q: int| 0 <= q < r@.len() implies exists|p: int|
                            0 <= p < i + 1 && self.locations@[p] == #[trigger] r@[q].0 by {
                            if q < r0.len() {
                                assert(r@[q] == r0[q]);
                                let p = choose|p: int| 0 <= p < i && self.locations@[p] == r0[q].0;
                            } else {
                                assert(self.locations@[i as int] == r@[q].0);
                            }
                        }
                        assert forall|q1: int, q2: int| 0 <= q1 < q2 < r@.len() implies r@[q1].0 != r@[q2].0 by {
                            if q2 == r0.len() {
                                let p = choose|p: int| 0 <= p < i && self.locations@[p] == r0[q1].0;
                                assert(self.locations@[p] != self.locations@[i as int]);
                            } else {
                                assert(r@[q1] == r0[q1] && r@[q2] == r0[q2]);
                            }
                        }
                        assert forall|p: int|
                            #![trigger self.locations@[p]]
                            0 <= p < i + 1 && final_value(self.entries(self.locations@[p])) is Some
                                implies exists|q: int| 0 <= q < r@.len() && r@[q].0 == self.locations@[p] by {
                            if p < i {
                                let q = choose|q: int| 0 <= q < r0.len() && r0[q].0 == self.locations@[p];
                                assert(r@[q] == r0[q]);
                            } else {
                                assert(r@[r0.len() as int].0 == self.locations@[p]);
                            }
                        }
                        assert forall|q: int|
                            0 <= q < r@.len() implies self.has_location(#[trigger] r@[q].0) && final_value(self.entries(r@[q].0)) == Some(r@[q].1) by {
                            if q < r0.len() {
                                assert(r@[q] == r0[q]);
                            } else {
                                assert(final_value(self.entries(r@[q].0)) == Some(r@[q].1));
                            }
                        }
                    }
                },
                _ => {},
            }
            i = i + 1;
        }
        proof {
            assert forall|loc: MemoryLocationHash|
                #![trigger self.entries(loc)]
                self.has_location(loc) && final_value(self.entries(loc)) is Some
                    implies exists|i: int| 0 <= i < r@.len() && r@[i].0 == loc by {
                assert(self.locations@.contains(loc));
                let p = choose|p: int| 0 <= p < self.locations@.len() && self.locations@[p] == loc;
                assert(final_value(self.entries(self.locations@[p])) is Some);
            }
        }
        r
    }
}

} // verus!