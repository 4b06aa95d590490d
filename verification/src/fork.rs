//! Cumulative chain work, block metadata and the fork-choice rule.
use vstd::prelude::*;
use crate::bytes::{be_value, bytes_eq, compare_be, lemma_be_value_concat, lemma_be_value_u64,
    lemma_be_value_zeros_prefix, lemma_be_value_bound, pow256, u64_be, zeros, read_u64, Comparison};
use crate::pow::PowWork;
use crate::state::StateError;
use crate::types::{BlockHash, BlockHeight};
use crate::wide::u256_checked_add;

verus! {

/// Why the chain rejects a block or a genesis.
#[derive(Debug, Clone, Copy, PartialEq, Eq, Structural)]
pub enum ChainError {
    InvalidGenesisHeight,
    InvalidGenesisParent,
    GenesisTransactionsNotAllowed,
    WrongChainId,
    UnsupportedBlockVersion,
    UnsupportedTransactionVersion,
    InvalidHeight,
    InvalidPreviousBlockHash,
    InvalidMerkleRoot,
    InvalidStateRoot,
    InvalidProofOfWork,
    UnexpectedPowTarget,
    InvalidBlockTimestamp,
    HeightOverflow,
    ChainWorkOverflow,
    State(StateError),
}

impl From<StateError> for ChainError {
    fn from(error: StateError) -> (r: Self)
        ensures
            r == ChainError::State(error),
    {
        ChainError::State(error)
    }
}

impl vstd::std_specs::convert::FromSpecImpl<StateError> for ChainError {
    open spec fn obeys_from_spec() -> bool {
        true
    }

    open spec fn from_spec(error: StateError) -> Self {
        ChainError::State(error)
    }
}

/// The sum of the work of a block and its ancestors, a 256-bit big-endian number.
#[derive(Debug, Clone, Copy, Hash)]
pub struct ChainWork(pub [u8; 32]);

impl View for ChainWork {
    type V = Seq<u8>;

    open spec fn view(&self) -> Seq<u8> {
        self.0@
    }
}

impl PartialEq for ChainWork {
    fn eq(&self, other: &Self) -> (r: bool) {
        bytes_eq(&self.0, &other.0)
    }
}

impl Eq for ChainWork {}

impl vstd::std_specs::cmp::PartialEqSpecImpl for ChainWork {
    open spec fn obeys_eq_spec() -> bool {
        true
    }

    open spec fn eq_spec(&self, other: &Self) -> bool {
        self@ == other@
    }
}

impl ChainWork {
    /// The numeric value.
    pub open spec fn amount(&self) -> nat {
        be_value(self@)
    }

    /// No work.
    pub fn zero() -> (w: Self)
        ensures
            w.amount() == 0,
            w@ == zeros(32),
    {
        let w = ChainWork([0u8; 32]);
        proof {
            assert(w@ =~= zeros(32) + Seq::<u8>::empty());
            lemma_be_value_zeros_prefix(32, Seq::<u8>::empty());
        }
        assert(w@ =~= zeros(32));
        w
    }

    pub fn from_bytes(bytes: [u8; 32]) -> (w: Self)
        ensures
            w@ == bytes@,
    {
        ChainWork(bytes)
    }

    pub fn as_bytes(&self) -> (b: &[u8; 32])
        ensures
            b@ == self@,
    {
        &self.0
    }

    /// The work `value`.
    pub fn from_u64(value: u64) -> (w: Self)
        ensures
            w.amount() == value,
    {
        let mut bytes = [0u8; 32];
        let mut i: usize = 0;
        let ghost enc = u64_be(value);
        while i < 8
            invariant
                i <= 8,
                enc == u64_be(value),
                forall|j: int| 0 <= j < 24 ==> bytes@[j] == 0u8,
                forall|j: int| 0 <= j < i ==> bytes@[24 + j] == enc[j],
            decreases 8 - i,
        {
            let shift: u64 = 56 - 8 * (i as u64);
            bytes[24 + i] = (value >> shift) as u8;
            proof {
                assert(enc[i as int] == (value >> shift) as u8) by {
                    if i == 0 { assert(shift == 56); }
                    else if i == 1 { assert(shift == 48); }
                    else if i == 2 { assert(shift == 40); }
                    else if i == 3 { assert(shift == 32); }
                    else if i == 4 { assert(shift == 24); }
                    else if i == 5 { assert(shift == 16); }
                    else if i == 6 { assert(shift == 8); }
                    else { assert(shift == 0); assert(value >> 0u64 == value) by (bit_vector); }
                }
            }
            i += 1;
        }
        proof {
            assert(bytes@ =~= zeros(24) + enc);
            lemma_be_value_zeros_prefix(24, enc);
            lemma_be_value_u64(value);
        }
        ChainWork(bytes)
    }

    /// The work `value` (the same as `from_u64`).
    pub fn new(value: u64) -> (w: Self)
        ensures
            w.amount() == value,
    {
        Self::from_u64(value)
    }

    /// The low 64 bits of the work.
    pub fn value(self) -> (v: u64)
        ensures
            v == self.amount() % pow256(8),
    {
        let v = read_u64(&self.0, 24);
        proof {
            let hi = self@.subrange(0, 24);
            let lo = self@.subrange(24, 32);
            assert(self@ =~= hi + lo);
            lemma_be_value_concat(hi, lo);
            lemma_be_value_u64(v);
            lemma_be_value_bound(lo);
            let h = be_value(hi);
            let l = be_value(lo);
            let p = pow256(8);
            vstd::arithmetic::div_mod::lemma_fundamental_div_mod_converse(
                (h * p + l) as int,
                p as int,
                h as int,
                l as int,
            );
        }
        v
    }

    /// The sum, or `None` when it exceeds 256 bits.
    pub fn checked_add(self, rhs: Self) -> (r: Option<Self>)
        ensures
            r is Some <==> self.amount() + rhs.amount() < pow256(32),
            r matches Some(w) ==> w.amount() == self.amount() + rhs.amount(),
    {
        match u256_checked_add(&self.0, &rhs.0) {
            Some(v) => Some(ChainWork(v)),
            None => None,
        }
    }
}

/// The cumulative work of a child: its parent's plus the work of its target.
pub fn next_chain_work(parent_work: ChainWork, block_work: PowWork) -> (r: Result<ChainWork, ChainError>)
    ensures
        parent_work.amount() + be_value(block_work@) < pow256(32) ==> (r matches Ok(w) && w.amount()
            == parent_work.amount() + be_value(block_work@)),
        parent_work.amount() + be_value(block_work@) >= pow256(32) ==> r == Err::<ChainWork, ChainError>(
            ChainError::ChainWorkOverflow,
        ),
{
    match u256_checked_add(&parent_work.0, &block_work.0) {
        Some(v) => Ok(ChainWork(v)),
        None => Err(ChainError::ChainWorkOverflow),
    }
}

/// Where a block sits in the block tree.
#[derive(Debug, Clone, Copy, PartialEq, Eq)]
pub struct BlockMetadata {
    pub parent: BlockHash,
    pub height: BlockHeight,
    pub cumulative_work: ChainWork,
}

impl BlockMetadata {
    pub fn new(parent: BlockHash, height: BlockHeight, cumulative_work: ChainWork) -> (m: Self)
        ensures
            m == (BlockMetadata { parent, height, cumulative_work }),
    {
        BlockMetadata { parent, height, cumulative_work }
    }

    pub fn parent(&self) -> (r: BlockHash)
        ensures
            r == self.parent,
    {
        self.parent
    }

    pub fn height(&self) -> (r: BlockHeight)
        ensures
            r == self.height,
    {
        self.height
    }

    pub fn cumulative_work(&self) -> (r: ChainWork)
        ensures
            r == self.cumulative_work,
    {
        self.cumulative_work
    }
}

/// A candidate replaces the current tip only with strictly more cumulative work.
pub fn candidate_is_better(current: &BlockMetadata, candidate: &BlockMetadata) -> (r: bool)
    ensures
        r == (candidate.cumulative_work.amount() > current.cumulative_work.amount()),
{
    compare_be(&candidate.cumulative_work.0, &current.cumulative_work.0) == Comparison::Greater
}

} // verus!
