//! Plain-value forms of the EVM words that the logic reads.
use vstd::prelude::*;

verus! {

/// `2^64`, the base of one limb.
pub open spec fn limb_base() -> nat {
    0x1_0000_0000_0000_0000
}

/// `2^256`, the modulus of 256-bit arithmetic.
pub open spec fn word_modulus() -> nat {
    limb_base() * limb_base() * limb_base() * limb_base()
}

/// An unsigned 256-bit integer as four little-endian 64-bit limbs.
#[derive(Clone, Copy, Debug, PartialEq, Eq, Structural)]
pub struct U256 {
    pub l0: u64,
    pub l1: u64,
    pub l2: u64,
    pub l3: u64,
}

impl U256 {
    /// The number that the limbs stand for.
    pub open spec fn value(self) -> nat {
        self.l0 as nat + limb_base() * (self.l1 as nat + limb_base() * (self.l2 as nat
            + limb_base() * self.l3 as nat))
    }

    /// The word of little-endian limbs `l`.
    pub fn from_limbs(l: [u64; 4]) -> (r: U256)
        ensures
            r.l0 == l[0] && r.l1 == l[1] && r.l2 == l[2] && r.l3 == l[3],
    {
        U256 { l0: l[0], l1: l[1], l2: l[2], l3: l[3] }
    }

    /// The little-endian limbs.
    pub fn to_limbs(&self) -> (r: [u64; 4])
        ensures
            r@ == seq![self.l0, self.l1, self.l2, self.l3],
    {
        [self.l0, self.l1, self.l2, self.l3]
    }

    pub fn zero() -> (r: U256)
        ensures
            r.value() == 0,
    {
        U256 { l0: 0, l1: 0, l2: 0, l3: 0 }
    }

    pub fn from_u64(x: u64) -> (r: U256)
        ensures
            r.value() == x,
    {
        U256 { l0: x, l1: 0, l2: 0, l3: 0 }
    }

    pub fn is_zero(&self) -> (r: bool)
        ensures
            r == (self.value() == 0),
    {
        let r = self.l0 == 0 && self.l1 == 0 && self.l2 == 0 && self.l3 == 0;
        proof {
            let b = limb_base();
            let (a0, a1, a2, a3) = (
                self.l0 as nat,
                self.l1 as nat,
                self.l2 as nat,
                self.l3 as nat,
            );
            if !r {
                assert(a0 + b * (a1 + b * (a2 + b * a3)) > 0) by (nonlinear_arith)
                    requires
                        b > 0,
                        a0 > 0 || a1 > 0 || a2 > 0 || a3 > 0,
                ;
            }
        }
        r
    }
}

/// Relies on `alloy_primitives::U256::wrapping_add` (ruint's `Uint`): the
/// sum modulo `2^256`.
#[verifier::external_body]
pub(crate) fn wrapping_add(a: U256, b: U256) -> (r: U256)
    ensures
        r.value() == (a.value() + b.value()) % word_modulus(),
{
    let x = alloy_primitives::U256::from_limbs(a.to_limbs());
    let y = alloy_primitives::U256::from_limbs(b.to_limbs());
    U256::from_limbs(x.wrapping_add(y).into_limbs())
}

/// Relies on `alloy_primitives::U256::wrapping_mul` (ruint's `Uint`): the
/// product modulo `2^256`.
#[verifier::external_body]
pub(crate) fn wrapping_mul(a: U256, b: U256) -> (r: U256)
    ensures
        r.value() == (a.value() * b.value()) % word_modulus(),
{
    let x = alloy_primitives::U256::from_limbs(a.to_limbs());
    let y = alloy_primitives::U256::from_limbs(b.to_limbs());
    U256::from_limbs(x.wrapping_mul(y).into_limbs())
}

/// Relies on `alloy_primitives::U256::saturating_sub` (ruint's `Uint`): the
/// difference, or zero where it would be negative.
#[verifier::external_body]
pub(crate) fn saturating_sub(a: U256, b: U256) -> (r: U256)
    ensures
        r.value() == if a.value() >= b.value() {
            (a.value() - b.value()) as nat
        } else {
            0
        },
{
    let x = alloy_primitives::U256::from_limbs(a.to_limbs());
    let y = alloy_primitives::U256::from_limbs(b.to_limbs());
    U256::from_limbs(x.saturating_sub(y).into_limbs())
}

/// Relies on the `<` of `alloy_primitives::U256` (ruint's `Ord` on `Uint`),
/// which compares the numbers.
#[verifier::external_body]
pub(crate) fn less_than(a: U256, b: U256) -> (r: bool)
    ensures
        r == (a.value() < b.value()),
{
    alloy_primitives::U256::from_limbs(a.to_limbs()) < alloy_primitives::U256::from_limbs(b.to_limbs())
}

/// A 32-byte hash as four big-endian 64-bit words.
#[derive(Clone, Copy, Debug, PartialEq, Eq, Structural)]
pub struct B256 {
    pub w0: u64,
    pub w1: u64,
    pub w2: u64,
    pub w3: u64,
}

/// The Keccak-256 hash of empty input: the code hash of an account without code.
pub open spec fn keccak_empty() -> B256 {
    B256 {
        w0: 0xc5d2460186f7233c,
        w1: 0x927e7db2dcc703c0,
        w2: 0xe500b653ca82273b,
        w3: 0x7bfad8045d85a470,
    }
}

pub fn empty_code_hash() -> (r: B256)
    ensures
        r == keccak_empty(),
{
    B256 {
        w0: 0xc5d2460186f7233c,
        w1: 0x927e7db2dcc703c0,
        w2: 0xe500b653ca82273b,
        w3: 0x7bfad8045d85a470,
    }
}

/// A 20-byte account address in three big-endian parts:
/// bytes 0..4, bytes 4..12 and bytes 12..20.
#[derive(Clone, Copy, Debug, PartialEq, Eq, Structural)]
pub struct Address {
    pub hi: u32,
    pub mid: u64,
    pub lo: u64,
}

/// The basic information of an account: what the logic reads of it.
#[derive(Clone, Copy, Debug, PartialEq, Eq, Structural)]
pub struct AccountInfo {
    pub balance: U256,
    pub nonce: u64,
    pub code_hash: B256,
}

impl AccountInfo {
    /// An account without balance, nonce or code.
    pub open spec fn empty_spec() -> AccountInfo {
        AccountInfo { balance: U256 { l0: 0, l1: 0, l2: 0, l3: 0 }, nonce: 0, code_hash: keccak_empty() }
    }

    /// An account without balance, nonce or code.
    pub fn empty() -> (r: AccountInfo)
        ensures
            r == AccountInfo::empty_spec(),
            r.balance.value() == 0,
    {
        AccountInfo { balance: U256::zero(), nonce: 0, code_hash: empty_code_hash() }
    }

    /// An account that holds `balance` and nothing else.
    pub fn from_balance(balance: U256) -> (r: AccountInfo)
        ensures
            r.balance == balance,
            r.nonce == 0,
            r.code_hash == keccak_empty(),
    {
        AccountInfo { balance, nonce: 0, code_hash: empty_code_hash() }
    }

    pub fn is_empty_code_hash(&self) -> (r: bool)
        ensures
            r == (self.code_hash == keccak_empty()),
    {
        self.code_hash == empty_code_hash()
    }
}

/// The smaller of two words.
pub fn min(a: U256, b: U256) -> (r: U256)
    ensures
        r.value() == if a.value() <= b.value() {
            a.value()
        } else {
            b.value()
        },
{
    if less_than(b, a) {
        b
    } else {
        a
    }
}

} // verus!
