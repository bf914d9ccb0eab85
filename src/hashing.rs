//! Hashers for keys that are already as good as hashes.
use vstd::prelude::*;

verus! {

/// The big-endian number that the bytes `s` stand for.
pub open spec fn be_value(s: Seq<u8>) -> nat
    decreases s.len(),
{
    if s.len() == 0 {
        0
    } else {
        be_value(s.drop_last()) * 256 + s.last() as nat
    }
}

proof fn lemma_be_value_bound(s: Seq<u8>)
    ensures
        be_value(s) < pow256(s.len()),
    decreases s.len(),
{
    if s.len() > 0 {
        lemma_be_value_bound(s.drop_last());
        let v = be_value(s.drop_last());
        let p = pow256(s.drop_last().len());
        let b = s.last() as nat;
        assert(v * 256 + b < p * 256) by (nonlinear_arith)
            requires
                v < p,
                b < 256,
        ;
    }
}

pub open spec fn pow256(n: nat) -> nat
    decreases n,
{
    if n == 0 {
        1
    } else {
        pow256((n - 1) as nat) * 256
    }
}

/// Hashes an address to its last eight bytes, read big-endian. Addresses
/// are suffixes of hashes themselves, so these bytes are spread well.
#[derive(Default)]
pub struct AddressHasher(pub u64);

impl AddressHasher {
    /// Takes the last eight bytes of `bytes` as the hash.
    pub fn write(&mut self, bytes: &[u8])
        requires
            bytes@.len() >= 8,
        ensures
            final(self).0 == be_value(bytes@.subrange(bytes@.len() - 8, bytes@.len() as int)),
    {
        let n = bytes.len();
        let start = n - 8;
        let ghost suffix = bytes@.subrange(start as int, bytes@.len() as int);
        let mut v: u64 = 0;
        let mut k: usize = 0;
        while k < 8
            invariant
                start + 8 == n == bytes@.len(),
                suffix == bytes@.subrange(start as int, bytes@.len() as int),
                k <= 8,
                v == be_value(suffix.take(k as int)),
            decreases 8 - k,
        {
            proof {
                lemma_be_value_bound(suffix.take(k as int));
                lemma_pow256_7();
                assert(pow256(k as nat) <= pow256(7)) by {
                    lemma_pow256_monotone(k as nat, 7);
                }
                assert(suffix.take(k + 1).drop_last() =~= suffix.take(k as int));
            }
            v = v * 256 + bytes[start + k] as u64;
            k = k + 1;
        }
        proof {
            assert(suffix.take(8) =~= suffix);
        }
        self.0 = v;
    }

    pub fn finish(&self) -> (r: u64)
        ensures
            r == self.0,
    {
        self.0
    }
}

proof fn lemma_pow256_7()
    ensures
        pow256(7) == 0x100000000000000,
{
    reveal_with_fuel(pow256, 8);
}

proof fn lemma_pow256_monotone(a: nat, b: nat)
    requires
        a <= b,
    ensures
        pow256(a) <= pow256(b),
    decreases b,
{
    if a < b {
        lemma_pow256_monotone(a, (b - 1) as nat);
    }
}

/// Hashes a 64-bit key to itself: the memory locations are keyed by
/// hashes already.
#[derive(Default)]
pub struct IdentityHasher(pub u64);

impl IdentityHasher {
    pub fn write_u64(&mut self, hash: u64)
        ensures
            final(self).0 == hash,
    {
        self.0 = hash;
    }

    pub fn finish(&self) -> (r: u64)
        ensures
            r == self.0,
    {
        self.0
    }
}

} // verus!
