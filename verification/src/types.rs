//! Protocol value types: hashes, keys, amounts, heights and the like.
use vstd::prelude::*;
use crate::bytes::bytes_eq;
use vstd::std_specs::cmp::PartialEqSpecImpl;

verus! {

/// A 32-byte SHA-256 digest.
#[derive(Debug, Clone, Copy, Hash)]
pub struct Hash256(pub [u8; 32]);

impl View for Hash256 {
    type V = Seq<u8>;

    open spec fn view(&self) -> Seq<u8> {
        self.0@
    }
}

impl Hash256 {
    pub const LENGTH: usize = 32;

    pub fn from_bytes(bytes: [u8; 32]) -> (r: Self)
        ensures
            r@ == bytes@,
    {
        Hash256(bytes)
    }

    pub fn as_bytes(&self) -> (b: &[u8; 32])
        ensures
            b@ == self@,
    {
        &self.0
    }

    /// The all-zero digest.
    pub fn zero() -> (r: Self)
        ensures
            forall|i: int| 0 <= i < 32 ==> #[trigger] r@[i] == 0u8,
    {
        Self([0u8; 32])
    }
}

impl PartialEq for Hash256 {
    fn eq(&self, other: &Self) -> (r: bool) {
        bytes_eq(&self.0, &other.0)
    }
}

impl Eq for Hash256 {}

impl PartialEqSpecImpl for Hash256 {
    open spec fn obeys_eq_spec() -> bool {
        true
    }

    open spec fn eq_spec(&self, other: &Self) -> bool {
        self@ == other@
    }
}

/// The identity of a block: the digest of its header encoding.
#[derive(Debug, Clone, Copy, Hash)]
pub struct BlockHash(pub Hash256);

impl View for BlockHash {
    type V = Seq<u8>;

    open spec fn view(&self) -> Seq<u8> {
        self.0@
    }
}

impl BlockHash {
    /// The all-zero value.
    pub fn zero() -> (r: Self)
        ensures
            forall|i: int| 0 <= i < 32 ==> #[trigger] r@[i] == 0u8,
    {
        BlockHash(Hash256::zero())
    }

    pub fn from_hash(hash: Hash256) -> (r: Self)
        ensures
            r@ == hash@,
    {
        BlockHash(hash)
    }

    pub fn as_hash(&self) -> (h: &Hash256)
        ensures
            h@ == self@,
    {
        &self.0
    }

    pub fn as_bytes(&self) -> (b: &[u8; 32])
        ensures
            b@ == self@,
    {
        self.0.as_bytes()
    }
}

impl PartialEq for BlockHash {
    fn eq(&self, other: &Self) -> (r: bool) {
        self.0 == other.0
    }
}

impl Eq for BlockHash {}

impl PartialEqSpecImpl for BlockHash {
    open spec fn obeys_eq_spec() -> bool {
        true
    }

    open spec fn eq_spec(&self, other: &Self) -> bool {
        self@ == other@
    }
}

/// The commitment to an account state.
#[derive(Debug, Clone, Copy, Hash)]
pub struct StateRoot(pub Hash256);

impl View for StateRoot {
    type V = Seq<u8>;

    open spec fn view(&self) -> Seq<u8> {
        self.0@
    }
}

impl StateRoot {
    /// The all-zero value.
    pub fn zero() -> (r: Self)
        ensures
            forall|i: int| 0 <= i < 32 ==> #[trigger] r@[i] == 0u8,
    {
        StateRoot(Hash256::zero())
    }

    pub fn from_hash(hash: Hash256) -> (r: Self)
        ensures
            r@ == hash@,
    {
        StateRoot(hash)
    }

    pub fn as_hash(&self) -> (h: &Hash256)
        ensures
            h@ == self@,
    {
        &self.0
    }

    pub fn as_bytes(&self) -> (b: &[u8; 32])
        ensures
            b@ == self@,
    {
        self.0.as_bytes()
    }
}

impl PartialEq for StateRoot {
    fn eq(&self, other: &Self) -> (r: bool) {
        self.0 == other.0
    }
}

impl Eq for StateRoot {}

impl PartialEqSpecImpl for StateRoot {
    open spec fn obeys_eq_spec() -> bool {
        true
    }

    open spec fn eq_spec(&self, other: &Self) -> bool {
        self@ == other@
    }
}

/// The commitment to a block's transaction list.
#[derive(Debug, Clone, Copy, Hash)]
pub struct MerkleRoot(pub Hash256);

impl View for MerkleRoot {
    type V = Seq<u8>;

    open spec fn view(&self) -> Seq<u8> {
        self.0@
    }
}

impl MerkleRoot {
    /// The all-zero value.
    pub fn zero() -> (r: Self)
        ensures
            forall|i: int| 0 <= i < 32 ==> #[trigger] r@[i] == 0u8,
    {
        MerkleRoot(Hash256::zero())
    }

    pub fn from_hash(hash: Hash256) -> (r: Self)
        ensures
            r@ == hash@,
    {
        MerkleRoot(hash)
    }

    pub fn as_hash(&self) -> (h: &Hash256)
        ensures
            h@ == self@,
    {
        &self.0
    }

    pub fn as_bytes(&self) -> (b: &[u8; 32])
        ensures
            b@ == self@,
    {
        self.0.as_bytes()
    }
}

impl PartialEq for MerkleRoot {
    fn eq(&self, other: &Self) -> (r: bool) {
        self.0 == other.0
    }
}

impl Eq for MerkleRoot {}

impl PartialEqSpecImpl for MerkleRoot {
    open spec fn obeys_eq_spec() -> bool {
        true
    }

    open spec fn eq_spec(&self, other: &Self) -> bool {
        self@ == other@
    }
}

/// The identity of a signed transaction.
#[derive(Debug, Clone, Copy, Hash)]
pub struct TransactionId(pub Hash256);

impl View for TransactionId {
    type V = Seq<u8>;

    open spec fn view(&self) -> Seq<u8> {
        self.0@
    }
}

impl TransactionId {
    /// The all-zero value.
    pub fn zero() -> (r: Self)
        ensures
            forall|i: int| 0 <= i < 32 ==> #[trigger] r@[i] == 0u8,
    {
        TransactionId(Hash256::zero())
    }

    pub fn from_hash(hash: Hash256) -> (r: Self)
        ensures
            r@ == hash@,
    {
        TransactionId(hash)
    }

    pub fn as_hash(&self) -> (h: &Hash256)
        ensures
            h@ == self@,
    {
        &self.0
    }

    pub fn as_bytes(&self) -> (b: &[u8; 32])
        ensures
            b@ == self@,
    {
        self.0.as_bytes()
    }
}

impl PartialEq for TransactionId {
    fn eq(&self, other: &Self) -> (r: bool) {
        self.0 == other.0
    }
}

impl Eq for TransactionId {}

impl PartialEqSpecImpl for TransactionId {
    open spec fn obeys_eq_spec() -> bool {
        true
    }

    open spec fn eq_spec(&self, other: &Self) -> bool {
        self@ == other@
    }
}

/// A proof-of-work target: a block hash must not exceed it, read as a big-endian number.
#[derive(Debug, Clone, Copy, Hash)]
pub struct PowTarget(pub [u8; 32]);

impl View for PowTarget {
    type V = Seq<u8>;

    open spec fn view(&self) -> Seq<u8> {
        self.0@
    }
}

impl PowTarget {
    pub const LENGTH: usize = 32;

    pub fn from_bytes(bytes: [u8; 32]) -> (r: Self)
        ensures
            r@ == bytes@,
    {
        PowTarget(bytes)
    }

    pub fn as_bytes(&self) -> (b: &[u8; 32])
        ensures
            b@ == self@,
    {
        &self.0
    }

    /// The easiest target, `2^256 - 1`.
    pub fn max() -> (r: Self)
        ensures
            forall|i: int| 0 <= i < 32 ==> #[trigger] r@[i] == 255u8,
    {
        Self([255u8; 32])
    }

    /// The hardest target, zero.
    pub fn zero() -> (r: Self)
        ensures
            forall|i: int| 0 <= i < 32 ==> #[trigger] r@[i] == 0u8,
    {
        Self([0u8; 32])
    }
}

impl PartialEq for PowTarget {
    fn eq(&self, other: &Self) -> (r: bool) {
        bytes_eq(&self.0, &other.0)
    }
}

impl Eq for PowTarget {}

impl PartialEqSpecImpl for PowTarget {
    open spec fn obeys_eq_spec() -> bool {
        true
    }

    open spec fn eq_spec(&self, other: &Self) -> bool {
        self@ == other@
    }
}

/// A compressed SEC1 secp256k1 public key.
#[derive(Debug, Clone, Copy, Hash)]
pub struct PublicKeyBytes(pub [u8; 33]);

impl View for PublicKeyBytes {
    type V = Seq<u8>;

    open spec fn view(&self) -> Seq<u8> {
        self.0@
    }
}

impl PublicKeyBytes {
    pub const LENGTH: usize = 33;

    pub fn from_bytes(bytes: [u8; 33]) -> (r: Self)
        ensures
            r@ == bytes@,
    {
        PublicKeyBytes(bytes)
    }

    pub fn as_bytes(&self) -> (b: &[u8; 33])
        ensures
            b@ == self@,
    {
        &self.0
    }
}

impl PartialEq for PublicKeyBytes {
    fn eq(&self, other: &Self) -> (r: bool) {
        bytes_eq(&self.0, &other.0)
    }
}

impl Eq for PublicKeyBytes {}

impl PartialEqSpecImpl for PublicKeyBytes {
    open spec fn obeys_eq_spec() -> bool {
        true
    }

    open spec fn eq_spec(&self, other: &Self) -> bool {
        self@ == other@
    }
}

/// An ECDSA signature as `r || s`, each 32 bytes big-endian.
#[derive(Debug, Clone, Copy, Hash)]
pub struct SignatureBytes(pub [u8; 64]);

impl View for SignatureBytes {
    type V = Seq<u8>;

    open spec fn view(&self) -> Seq<u8> {
        self.0@
    }
}

impl SignatureBytes {
    pub const LENGTH: usize = 64;

    pub fn from_bytes(bytes: [u8; 64]) -> (r: Self)
        ensures
            r@ == bytes@,
    {
        SignatureBytes(bytes)
    }

    pub fn as_bytes(&self) -> (b: &[u8; 64])
        ensures
            b@ == self@,
    {
        &self.0
    }
}

impl PartialEq for SignatureBytes {
    fn eq(&self, other: &Self) -> (r: bool) {
        bytes_eq(&self.0, &other.0)
    }
}

impl Eq for SignatureBytes {}

impl PartialEqSpecImpl for SignatureBytes {
    open spec fn obeys_eq_spec() -> bool {
        true
    }

    open spec fn eq_spec(&self, other: &Self) -> bool {
        self@ == other@
    }
}

/// An account address: the last 20 bytes of the SHA-256 digest of a public key.
#[derive(Debug, Clone, Copy, Hash)]
pub struct Address(pub [u8; 20]);

impl View for Address {
    type V = Seq<u8>;

    open spec fn view(&self) -> Seq<u8> {
        self.0@
    }
}

impl Address {
    pub const LENGTH: usize = 20;

    pub fn from_bytes(bytes: [u8; 20]) -> (r: Self)
        ensures
            r@ == bytes@,
    {
        Address(bytes)
    }

    pub fn as_bytes(&self) -> (b: &[u8; 20])
        ensures
            b@ == self@,
    {
        &self.0
    }
}

impl PartialEq for Address {
    fn eq(&self, other: &Self) -> (r: bool) {
        bytes_eq(&self.0, &other.0)
    }
}

impl Eq for Address {}

impl PartialEqSpecImpl for Address {
    open spec fn obeys_eq_spec() -> bool {
        true
    }

    open spec fn eq_spec(&self, other: &Self) -> bool {
        self@ == other@
    }
}

/// A balance or transfer amount.
#[derive(Debug, Clone, Copy, PartialEq, Eq, PartialOrd, Ord, Hash, Structural)]
pub struct Amount(pub u64);

impl Amount {
    pub fn new(value: u64) -> (r: Self)
        ensures
            r.0 == value,
    {
        Amount(value)
    }

    pub fn value(self) -> (v: u64)
        ensures
            v == self.0,
    {
        self.0
    }

    /// Zero.
    pub fn zero() -> (r: Self)
        ensures
            r.0 == 0,
    {
        Amount(0)
    }

    pub fn checked_add(self, rhs: Self) -> (r: Option<Self>)
        ensures
            r == (if self.0 + rhs.0 <= u64::MAX { Some(Amount((self.0 + rhs.0) as u64)) } else { None }),
    {
        match self.0.checked_add(rhs.0) {
            Some(v) => Some(Amount(v)),
            None => None,
        }
    }

    pub fn checked_sub(self, rhs: Self) -> (r: Option<Self>)
        ensures
            r == (if rhs.0 <= self.0 { Some(Amount((self.0 - rhs.0) as u64)) } else { None }),
    {
        if rhs.0 <= self.0 {
            Some(Amount(self.0 - rhs.0))
        } else {
            None
        }
    }
}

/// An account's transaction counter.
#[derive(Debug, Clone, Copy, PartialEq, Eq, PartialOrd, Ord, Hash, Structural)]
pub struct Nonce(pub u64);

impl Nonce {
    pub fn new(value: u64) -> (r: Self)
        ensures
            r.0 == value,
    {
        Nonce(value)
    }

    pub fn as_u64(self) -> (v: u64)
        ensures
            v == self.0,
    {
        self.0
    }

    /// Zero.
    pub fn zero() -> (r: Self)
        ensures
            r.0 == 0,
    {
        Nonce(0)
    }

    /// The next value, or `None` at `u64::MAX`.
    pub fn checked_increment(self) -> (r: Option<Self>)
        ensures
            r == (if self.0 < u64::MAX { Some(Nonce((self.0 + 1) as u64)) } else { None }),
    {
        if self.0 < u64::MAX {
            Some(Nonce(self.0 + 1))
        } else {
            None
        }
    }
}

/// The identifier of a chain.
#[derive(Debug, Clone, Copy, PartialEq, Eq, PartialOrd, Ord, Hash, Structural)]
pub struct ChainId(pub u32);

impl ChainId {
    pub fn new(value: u32) -> (r: Self)
        ensures
            r.0 == value,
    {
        ChainId(value)
    }

    pub fn value(self) -> (v: u32)
        ensures
            v == self.0,
    {
        self.0
    }
}

/// The height of a block; genesis has height zero.
#[derive(Debug, Clone, Copy, PartialEq, Eq, PartialOrd, Ord, Hash, Structural)]
pub struct BlockHeight(pub u64);

impl BlockHeight {
    pub fn new(value: u64) -> (r: Self)
        ensures
            r.0 == value,
    {
        BlockHeight(value)
    }

    pub fn value(self) -> (v: u64)
        ensures
            v == self.0,
    {
        self.0
    }

    /// Zero.
    pub fn zero() -> (r: Self)
        ensures
            r.0 == 0,
    {
        BlockHeight(0)
    }

    /// The next value, or `None` at `u64::MAX`.
    pub fn checked_increment(self) -> (r: Option<Self>)
        ensures
            r == (if self.0 < u64::MAX { Some(BlockHeight((self.0 + 1) as u64)) } else { None }),
    {
        if self.0 < u64::MAX {
            Some(BlockHeight(self.0 + 1))
        } else {
            None
        }
    }
}

/// A block timestamp in seconds.
#[derive(Debug, Clone, Copy, PartialEq, Eq, PartialOrd, Ord, Hash, Structural)]
pub struct BlockTimestamp(pub u64);

impl BlockTimestamp {
    pub fn new(value: u64) -> (r: Self)
        ensures
            r.0 == value,
    {
        BlockTimestamp(value)
    }

    pub fn value(self) -> (v: u64)
        ensures
            v == self.0,
    {
        self.0
    }
}

/// The nonce a miner varies in a block header.
#[derive(Debug, Clone, Copy, PartialEq, Eq, PartialOrd, Ord, Hash, Structural)]
pub struct PowNonce(pub u64);

impl PowNonce {
    pub fn new(value: u64) -> (r: Self)
        ensures
            r.0 == value,
    {
        PowNonce(value)
    }

    pub fn value(self) -> (v: u64)
        ensures
            v == self.0,
    {
        self.0
    }

    /// Zero.
    pub fn zero() -> (r: Self)
        ensures
            r.0 == 0,
    {
        PowNonce(0)
    }

    /// The next value, or `None` at `u64::MAX`.
    pub fn checked_increment(self) -> (r: Option<Self>)
        ensures
            r == (if self.0 < u64::MAX { Some(PowNonce((self.0 + 1) as u64)) } else { None }),
    {
        if self.0 < u64::MAX {
            Some(PowNonce(self.0 + 1))
        } else {
            None
        }
    }
}

/// A block format version.
#[derive(Debug, Clone, Copy, PartialEq, Eq, PartialOrd, Ord, Hash, Structural)]
pub struct BlockVersion(pub u16);

impl BlockVersion {
    pub fn new(value: u16) -> (r: Self)
        ensures
            r.0 == value,
    {
        BlockVersion(value)
    }

    pub fn value(self) -> (v: u16)
        ensures
            v == self.0,
    {
        self.0
    }

    /// Version 1, the only version this protocol accepts.
    pub fn v1() -> (r: Self)
        ensures
            r.0 == 1,
    {
        BlockVersion(1)
    }
}

/// A transaction format version.
#[derive(Debug, Clone, Copy, PartialEq, Eq, PartialOrd, Ord, Hash, Structural)]
pub struct TransactionVersion(pub u16);

impl TransactionVersion {
    pub fn new(value: u16) -> (r: Self)
        ensures
            r.0 == value,
    {
        TransactionVersion(value)
    }

    pub fn value(self) -> (v: u16)
        ensures
            v == self.0,
    {
        self.0
    }

    /// Version 1, the only version this protocol accepts.
    pub fn v1() -> (r: Self)
        ensures
            r.0 == 1,
    {
        TransactionVersion(1)
    }
}

} // verus!
