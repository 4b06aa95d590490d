//! The block tree: validation of new blocks, difficulty retargeting along each
//! branch, and the choice of the canonical chain by cumulative work.
use vstd::prelude::*;
use crate::block::{Block, BlockHeader};
use crate::bytes::{be_bytes, be_value, lemma_be_bytes_of_value, lemma_be_value_bound, pow256, zeros};
use crate::fork::{candidate_is_better, next_chain_work, BlockMetadata, ChainError, ChainWork};
use crate::genesis::GenesisConfig;
use crate::hash::{block_hash, merkle_root, spec_block_hash, spec_merkle_root};
use crate::pow::{
    adjusted_target, spec_adjusted_target, spec_target_work, spec_validate_pow, target_work,
    validate_pow, DIFFICULTY_ADJUSTMENT_INTERVAL,
};
use crate::state::{canonical_state, spec_apply_transaction, spec_state_root, Account, State, StateError};
use crate::transaction::SignedTransaction;
use crate::types::{BlockHash, BlockHeight, ChainId, PowTarget};

verus! {

/// What the chain knows of one indexed block.
pub ghost struct ChainEntry {
    pub hash: Seq<u8>,
    pub header: BlockHeader,
    pub transactions: Seq<SignedTransaction>,
    pub metadata: BlockMetadata,
    pub state: Map<Seq<u8>, Account>,
}

/// The abstract block tree: every indexed block in the order it was indexed
/// (genesis first, each block after its parent) and the position of the
/// canonical tip.
pub ghost struct ChainView {
    pub chain_id: ChainId,
    pub pow_target: PowTarget,
    pub entries: Seq<ChainEntry>,
    pub tip: int,
}

pub open spec fn height_of(e: Seq<ChainEntry>, i: int) -> nat {
    e[i].metadata.height.0 as nat
}

pub open spec fn work_of(e: Seq<ChainEntry>, i: int) -> nat {
    e[i].metadata.cumulative_work.amount()
}

/// The position of the block with hash `h`, if it is indexed.
pub open spec fn find_entry(e: Seq<ChainEntry>, h: Seq<u8>) -> Option<int> {
    if exists|i: int| 0 <= i < e.len() && #[trigger] e[i].hash == h {
        Some(choose|i: int| 0 <= i < e.len() && #[trigger] e[i].hash == h)
    } else {
        None
    }
}

/// The position of the parent of the block at `i`.
pub open spec fn parent_of(e: Seq<ChainEntry>, i: int) -> int {
    choose|j: int| 0 <= j < i && #[trigger] e[j].hash == e[i].metadata.parent@
}

/// The positions from genesis to the block at `i`, following parents.
pub open spec fn path_to(e: Seq<ChainEntry>, i: int) -> Seq<int>
    decreases height_of(e, i),
{
    if height_of(e, i) == 0 {
        seq![i]
    } else {
        let p = parent_of(e, i);
        if height_of(e, p) < height_of(e, i) {
            path_to(e, p).push(i)
        } else {
            seq![i]
        }
    }
}

/// The ancestor of the block at `i` (or the block itself) at height `h`.
pub open spec fn ancestor_at(e: Seq<ChainEntry>, i: int, h: nat) -> int
    decreases height_of(e, i),
{
    if height_of(e, i) <= h {
        i
    } else {
        let p = parent_of(e, i);
        if height_of(e, p) < height_of(e, i) {
            ancestor_at(e, p, h)
        } else {
            i
        }
    }
}

/// The block at `i` is above genesis and its parent is indexed before it,
/// one height lower.
pub open spec fn has_parent(e: Seq<ChainEntry>, i: int) -> bool {
    let p = parent_of(e, i);
    &&& height_of(e, i) >= 1
    &&& 0 <= p < i
    &&& e[p].hash == e[i].metadata.parent@
    &&& height_of(e, p) + 1 == height_of(e, i)
}

/// The well-formedness of a block tree.
pub open spec fn tree_wf(e: Seq<ChainEntry>, tip: int) -> bool {
    &&& e.len() >= 1
    &&& 0 <= tip < e.len()
    &&& forall|i: int| 0 <= i < e.len() ==> #[trigger] e[i].hash == spec_block_hash(e[i].header)
    &&& forall|i: int, j: int| 0 <= i < j < e.len() ==> #[trigger] e[i].hash != #[trigger] e[j].hash
    &&& height_of(e, 0) == 0
    &&& work_of(e, 0) == 0
    &&& forall|i: int| 0 <= i < e.len() ==> #[trigger] e[i].metadata.height == e[i].header.height
    &&& forall|i: int| 0 < i < e.len() ==> #[trigger] has_parent(e, i)
    &&& forall|i: int| 0 <= i < e.len() ==> #[trigger] work_of(e, i) <= work_of(e, tip)
}

/// Each indexed block's state root commits to the state it leaves, which is
/// a canonical account map, and its recorded parent is its header's; genesis has no transactions and a zero
/// parent and no work.
pub open spec fn entries_consistent(e: Seq<ChainEntry>) -> bool {
    &&& e.len() >= 1
    &&& e[0].transactions.len() == 0
    &&& e[0].metadata.parent@ == Seq::new(32, |i: int| 0u8)
    &&& e[0].metadata.cumulative_work@ == zeros(32)
    &&& forall|i: int|
        0 <= i < e.len() ==> (#[trigger] e[i]).header.state_root@ == spec_state_root(e[i].state)
            && e[i].metadata.parent@ == e[i].header.previous_block_hash@ && canonical_state(e[i].state)
            && e[i].hash.len() == 32
}

/// The block at `j` is one the tree accepts on top of its parent, indexed
/// exactly as an accepted block is.
pub open spec fn entry_valid(v: ChainView, j: int) -> bool {
    &&& spec_append_error(v, v.entries[j].header, v.entries[j].transactions) is None
    &&& v.entries[j] == appended_entry(v, v.entries[j].header, v.entries[j].transactions)
}

/// Every block but genesis is valid in the tree.
pub open spec fn all_valid(v: ChainView) -> bool {
    forall|j: int| 0 < j < v.entries.len() ==> #[trigger] entry_valid(v, j)
}

/// Why the next target after a block cannot be computed, or the target.
pub open spec fn spec_next_target(v: ChainView, parent: Seq<u8>) -> Result<Seq<u8>, ChainError> {
    match find_entry(v.entries, parent) {
        None => Err(ChainError::InvalidPreviousBlockHash),
        Some(p) => {
            let e = v.entries;
            if height_of(e, p) == u64::MAX {
                Err(ChainError::HeightOverflow)
            } else {
                let next = height_of(e, p) + 1;
                if next % (DIFFICULTY_ADJUSTMENT_INTERVAL as nat) != 0 {
                    Ok(e[p].header.pow_target@)
                } else {
                    let a = ancestor_at(e, p, (next - DIFFICULTY_ADJUSTMENT_INTERVAL) as nat);
                    let later = e[p].header.timestamp.0;
                    let earlier = e[a].header.timestamp.0;
                    let actual: u64 = if later >= earlier {
                        (later - earlier) as u64
                    } else {
                        0
                    };
                    Ok(
                        be_bytes(
                            32,
                            spec_adjusted_target(
                                be_value(e[p].header.pow_target@),
                                actual,
                                be_value(v.pow_target@),
                            ),
                        ),
                    )
                }
            }
        },
    }
}

#[derive(Debug)]
struct IndexedBlock {
    hash: BlockHash,
    block: Block,
    metadata: BlockMetadata,
    state: State,
}

impl IndexedBlock {
    spec fn entry(&self) -> ChainEntry {
        ChainEntry {
            hash: self.hash@,
            header: self.block.header,
            transactions: self.block.transactions@,
            metadata: self.metadata,
            state: self.state@,
        }
    }
}

spec fn entries_of(index: Seq<IndexedBlock>) -> Seq<ChainEntry> {
    index.map_values(|b: IndexedBlock| b.entry())
}

/// A validated block tree with its canonical chain and the state at its tip.
#[derive(Debug)]
pub struct Blockchain {
    chain_id: ChainId,
    pow_target: PowTarget,
    blocks: Vec<Block>,
    index: Vec<IndexedBlock>,
    tip: usize,
    canonical_tip: BlockHash,
    state: State,
}

impl View for Blockchain {
    type V = ChainView;

    closed spec fn view(&self) -> ChainView {
        ChainView {
            chain_id: self.chain_id,
            pow_target: self.pow_target,
            entries: entries_of(self.index@),
            tip: self.tip as int,
        }
    }
}

/// Whether two blocks have the same header and transactions.
pub open spec fn same_block(a: Block, h: BlockHeader, txs: Seq<SignedTransaction>) -> bool {
    a.header == h && a.transactions@ == txs
}

impl Blockchain {
    /// The tree is well formed, the tip is its position of most work, and the
    /// canonical blocks and state are those of the tip.
    #[verifier::opaque]
    pub closed spec fn wf(&self) -> bool {
        let e = self@.entries;
        &&& tree_wf(e, self.tip as int)
        &&& entries_consistent(e)
        &&& all_valid(self@)
        &&& self.canonical_tip@ == e[self.tip as int].hash
        &&& self.state@ == e[self.tip as int].state
        &&& self.blocks@.len() == path_to(e, self.tip as int).len()
        &&& forall|k: int|
            0 <= k < self.blocks@.len() ==> same_block(
                #[trigger] self.blocks@[k],
                e[path_to(e, self.tip as int)[k]].header,
                e[path_to(e, self.tip as int)[k]].transactions,
            )
    }

    proof fn lemma_wf(&self)
        requires
            self.wf(),
        ensures
            tree_wf(self@.entries, self@.tip),
            entries_consistent(self@.entries),
            all_valid(self@),
            self.index@.len() == self@.entries.len(),
            self.canonical_tip@ == self@.entries[self@.tip].hash,
            self.state@ == self@.entries[self@.tip].state,
            self.tip as int == self@.tip,
            self.blocks@.len() == path_to(self@.entries, self@.tip).len(),
            forall|k: int|
                0 <= k < self.blocks@.len() ==> same_block(
                    #[trigger] self.blocks@[k],
                    self@.entries[path_to(self@.entries, self@.tip)[k]].header,
                    self@.entries[path_to(self@.entries, self@.tip)[k]].transactions,
                ),
    {
        reveal(Blockchain::wf);
    }

    /// The blocks of the canonical chain as positions in the tree.
    pub open spec fn canonical(&self) -> Seq<int> {
        path_to(self@.entries, self@.tip)
    }

    pub fn chain_id(&self) -> (r: ChainId)
        ensures
            r == self@.chain_id,
    {
        self.chain_id
    }

    pub fn pow_target(&self) -> (r: PowTarget)
        ensures
            r == self@.pow_target,
    {
        self.pow_target
    }

    pub fn state(&self) -> (r: &State)
        requires
            self.wf(),
        ensures
            r@ == self@.entries[self@.tip].state,
    {
        proof {
            self.lemma_wf();
        }
        &self.state
    }

    pub fn tip(&self) -> (r: &Block)
        requires
            self.wf(),
        ensures
            r.header == self@.entries[self@.tip].header,
            r.transactions@ == self@.entries[self@.tip].transactions,
    {
        proof {
            self.lemma_wf();
        }
        &self.index[self.tip].block
    }

    pub fn canonical_tip_hash(&self) -> (r: BlockHash)
        requires
            self.wf(),
        ensures
            r@ == self@.entries[self@.tip].hash,
    {
        proof {
            self.lemma_wf();
        }
        self.canonical_tip
    }

    /// The number of blocks in the canonical chain, genesis included.
    pub fn block_count(&self) -> (n: usize)
        requires
            self.wf(),
        ensures
            n == self.canonical().len(),
    {
        proof {
            self.lemma_wf();
        }
        self.blocks.len()
    }

    /// The canonical chain from genesis to the tip.
    pub fn blocks(&self) -> (r: &[Block])
        requires
            self.wf(),
        ensures
            r@.len() == self.canonical().len(),
            forall|k: int|
                0 <= k < r@.len() ==> same_block(
                    #[trigger] r@[k],
                    self@.entries[self.canonical()[k]].header,
                    self@.entries[self.canonical()[k]].transactions,
                ),
    {
        proof {
            self.lemma_wf();
        }
        self.blocks.as_slice()
    }

    /// The number of indexed blocks, on every branch.
    pub fn indexed_block_count(&self) -> (n: usize)
        requires
            self.wf(),
        ensures
            n == self@.entries.len(),
    {
        proof {
            self.lemma_wf();
        }
        self.index.len()
    }

    /// The position of a hash in the index.
    fn position(&self, hash: &BlockHash) -> (r: Option<usize>)
        requires
            self.wf(),
        ensures
            r is Some <==> find_entry(self@.entries, hash@) is Some,
            r matches Some(i) ==> find_entry(self@.entries, hash@) == Some(i as int),
            r matches Some(i) ==> i < self@.entries.len() && self@.entries[i as int].hash == hash@,
    {
        proof {
            self.lemma_wf();
        }
        let ghost e = self@.entries;
        let mut i: usize = 0;
        while i < self.index.len()
            invariant
                e == self@.entries,
                self.wf(),
                tree_wf(e, self.tip as int),
                e.len() == self.index@.len(),
                i <= e.len(),
                forall|j: int| 0 <= j < i ==> #[trigger] e[j].hash != hash@,
            decreases e.len() - i,
        {
            if self.index[i].hash == *hash {
                assert(e[i as int].hash == hash@);
                proof {
                    let c = choose|j: int| 0 <= j < e.len() && #[trigger] e[j].hash == hash@;
                    if c != i as int {
                        if c < i as int {
                            assert(e[c].hash != e[i as int].hash);
                        } else {
                            assert(e[i as int].hash != e[c].hash);
                        }
                    }
                }
                return Some(i);
            }
            i += 1;
        }
        None
    }

    pub fn block(&self, hash: &BlockHash) -> (r: Option<&Block>)
        requires
            self.wf(),
        ensures
            r is Some <==> find_entry(self@.entries, hash@) is Some,
            r matches Some(b) ==> same_block(
                *b,
                self@.entries[find_entry(self@.entries, hash@)->Some_0].header,
                self@.entries[find_entry(self@.entries, hash@)->Some_0].transactions,
            ),
    {
        proof {
            self.lemma_wf();
        }
        match self.position(hash) {
            Some(i) => {
                assert(self@.entries[i as int] == self.index@[i as int].entry());
                Some(&self.index[i].block)
            },
            None => None,
        }
    }

    pub fn metadata(&self, hash: &BlockHash) -> (r: Option<&BlockMetadata>)
        requires
            self.wf(),
        ensures
            r is Some <==> find_entry(self@.entries, hash@) is Some,
            r matches Some(m) ==> *m == self@.entries[find_entry(self@.entries, hash@)->Some_0].metadata,
    {
        proof {
            self.lemma_wf();
        }
        match self.position(hash) {
            Some(i) => {
                assert(self@.entries[i as int] == self.index@[i as int].entry());
                Some(&self.index[i].metadata)
            },
            None => None,
        }
    }

    pub fn state_at(&self, hash: &BlockHash) -> (r: Option<&State>)
        requires
            self.wf(),
        ensures
            r is Some <==> find_entry(self@.entries, hash@) is Some,
            r matches Some(s) ==> s@ == self@.entries[find_entry(self@.entries, hash@)->Some_0].state,
    {
        proof {
            self.lemma_wf();
        }
        match self.position(hash) {
            Some(i) => {
                assert(self@.entries[i as int] == self.index@[i as int].entry());
                Some(&self.index[i].state)
            },
            None => None,
        }
    }
}

/// Why a genesis block is unacceptable for a chain, if it is.
pub open spec fn spec_genesis_error(
    chain_id: ChainId,
    pow_target: PowTarget,
    genesis: BlockHeader,
    transactions: Seq<SignedTransaction>,
    initial_state: Map<Seq<u8>, Account>,
) -> Option<ChainError> {
    if genesis.version.0 != 1 {
        Some(ChainError::UnsupportedBlockVersion)
    } else if genesis.chain_id != chain_id {
        Some(ChainError::WrongChainId)
    } else if genesis.height.0 != 0 {
        Some(ChainError::InvalidGenesisHeight)
    } else if genesis.previous_block_hash@ != Seq::new(32, |i: int| 0u8) {
        Some(ChainError::InvalidGenesisParent)
    } else if transactions.len() != 0 {
        Some(ChainError::GenesisTransactionsNotAllowed)
    } else if genesis.transaction_root@ != spec_merkle_root(transactions) {
        Some(ChainError::InvalidMerkleRoot)
    } else if genesis.state_root@ != spec_state_root(initial_state) {
        Some(ChainError::InvalidStateRoot)
    } else if genesis.pow_target@ != pow_target@ {
        Some(ChainError::UnexpectedPowTarget)
    } else {
        None
    }
}

impl Blockchain {
    /// A chain holding only `genesis`, after checking it is a proper genesis
    /// for `chain_id`, `pow_target` and `initial_state`.
    pub fn new(chain_id: ChainId, pow_target: PowTarget, genesis: Block, initial_state: State) -> (r: Result<Self, ChainError>)
        ensures
            match spec_genesis_error(chain_id, pow_target, genesis.header, genesis.transactions@, initial_state@) {
                Some(e) => r == Err::<Self, ChainError>(e),
                None => r matches Ok(c) && {
                    &&& c.wf()
                    &&& c@.chain_id == chain_id
                    &&& c@.pow_target == pow_target
                    &&& c@.tip == 0
                    &&& c@.entries.len() == 1
                    &&& c@.entries[0].hash == spec_block_hash(genesis.header)
                    &&& c@.entries[0].header == genesis.header
                    &&& c@.entries[0].transactions == genesis.transactions@
                    &&& c@.entries[0].metadata.parent@ == Seq::new(32, |i: int| 0u8)
                    &&& c@.entries[0].metadata.height.0 == 0
                    &&& c@.entries[0].metadata.cumulative_work.amount() == 0
                    &&& c@.entries[0].state == initial_state@
                },
            },
    {
        let header = genesis.header;
        if header.version.0 != 1 {
            return Err(ChainError::UnsupportedBlockVersion);
        }
        if header.chain_id.0 != chain_id.0 {
            return Err(ChainError::WrongChainId);
        }
        if header.height.0 != 0 {
            return Err(ChainError::InvalidGenesisHeight);
        }
        let zero = BlockHash::zero();
        assert(zero@ =~= Seq::new(32, |i: int| 0u8));
        if !(header.previous_block_hash == zero) {
            return Err(ChainError::InvalidGenesisParent);
        }
        if genesis.transactions.len() != 0 {
            return Err(ChainError::GenesisTransactionsNotAllowed);
        }
        let expected_root = merkle_root(genesis.transactions.as_slice());
        if !(header.transaction_root == expected_root) {
            return Err(ChainError::InvalidMerkleRoot);
        }
        if !(header.state_root == initial_state.state_root()) {
            return Err(ChainError::InvalidStateRoot);
        }
        if !(header.pow_target == pow_target) {
            return Err(ChainError::UnexpectedPowTarget);
        }
        let genesis_hash = block_hash(&header);
        initial_state.entries_are_canonical();
        let metadata = BlockMetadata::new(zero, BlockHeight::zero(), ChainWork::zero());
        let entry = IndexedBlock {
            hash: genesis_hash,
            block: genesis.duplicate(),
            metadata,
            state: initial_state.duplicate(),
        };
        let mut index: Vec<IndexedBlock> = Vec::new();
        index.push(entry);
        let mut blocks: Vec<Block> = Vec::new();
        blocks.push(genesis);
        let chain = Blockchain {
            chain_id,
            pow_target,
            blocks,
            index,
            tip: 0,
            canonical_tip: genesis_hash,
            state: initial_state,
        };
        proof {
            let e = chain@.entries;
            assert(e.len() == 1);
            assert(e[0] == chain.index@[0].entry());
            assert(path_to(e, 0) == seq![0int]);
            reveal(Blockchain::wf);
            assert(chain.blocks@[0] == genesis);
        }
        Ok(chain)
    }

    /// The chain of a genesis configuration.
    pub fn from_genesis_config(config: &GenesisConfig) -> (r: Result<Self, ChainError>)
        ensures
            r matches Ok(c) ==> c.wf() && c@.chain_id == config.spec_chain_id() && c@.pow_target
                == config.spec_pow_target() && c@.tip == 0 && c@.entries.len() == 1
                && c@.entries[0].header == config.spec_genesis_header()
                && c@.entries[0].hash == spec_block_hash(config.spec_genesis_header())
                && c@.entries[0].state == config.spec_initial_state()
                && c@.entries[0].transactions.len() == 0
                && c@.entries[0].metadata.parent@ == Seq::new(32, |i: int| 0u8)
                && c@.entries[0].metadata.height.0 == 0
                && c@.entries[0].metadata.cumulative_work@ == zeros(32),
            r is Ok,
    {
        let genesis = config.genesis_block();
        let state = config.initial_state();
        proof {
            assert(genesis.header.pow_target@ == config.spec_pow_target()@);
            assert(spec_merkle_root(genesis.transactions@) == spec_merkle_root(Seq::<SignedTransaction>::empty())) by {
                assert(genesis.transactions@ =~= Seq::<SignedTransaction>::empty());
            }
        }
        let r = Self::new(config.chain_id(), config.pow_target(), genesis, state);
        proof {
            if let Ok(c) = &r {
                lemma_tree_valid(c);
                assert(c@.entries[0].metadata.height == c@.entries[0].header.height);
            }
        }
        r
    }
}

/// In a well-formed tree a hash identifies one position.
pub proof fn lemma_unique_hash(e: Seq<ChainEntry>, tip: int, i: int, j: int)
    requires
        tree_wf(e, tip),
        0 <= i < e.len(),
        0 <= j < e.len(),
        e[i].hash == e[j].hash,
    ensures
        i == j,
{
    if i < j {
        assert(e[i].hash != e[j].hash);
    } else if j < i {
        assert(e[j].hash != e[i].hash);
    }
}

/// The parent of a non-genesis block is indexed, one lower.
pub proof fn lemma_parent(e: Seq<ChainEntry>, tip: int, i: int)
    requires
        tree_wf(e, tip),
        0 < i < e.len(),
    ensures
        0 <= parent_of(e, i) < i,
        e[parent_of(e, i)].hash == e[i].metadata.parent@,
        height_of(e, parent_of(e, i)) + 1 == height_of(e, i),
{
    assert(has_parent(e, i));
}

/// Only genesis has height zero.
pub proof fn lemma_height_zero(e: Seq<ChainEntry>, tip: int, i: int)
    requires
        tree_wf(e, tip),
        0 <= i < e.len(),
        height_of(e, i) == 0,
    ensures
        i == 0,
{
    if i > 0 {
        assert(has_parent(e, i));
    }
}

impl Blockchain {
    fn parent_position(&self, a: usize) -> (j: usize)
        requires
            self.wf(),
            0 < a < self@.entries.len(),
        ensures
            j as int == parent_of(self@.entries, a as int),
            j < a,
            height_of(self@.entries, j as int) + 1 == height_of(self@.entries, a as int),
    {
        proof {
            self.lemma_wf();
        }
        proof {
            lemma_parent(self@.entries, self.tip as int, a as int);
            assert(self@.entries[a as int] == self.index@[a as int].entry());
        }
        let parent_hash = self.index[a].metadata.parent;
        match self.position(&parent_hash) {
            Some(j) => {
                proof {
                    lemma_unique_hash(self@.entries, self.tip as int, j as int, parent_of(self@.entries, a as int));
                }
                j
            },
            None => {
                proof {
                    let p = parent_of(self@.entries, a as int);
                    assert(self@.entries[p].hash == parent_hash@);
                }
                0
            },
        }
    }

    /// The position of the ancestor at height `h` of the block at `p`.
    fn ancestor_position(&self, p: usize, h: u64) -> (a: usize)
        requires
            self.wf(),
            p < self@.entries.len(),
        ensures
            a as int == ancestor_at(self@.entries, p as int, h as nat),
            a < self@.entries.len(),
    {
        proof {
            self.lemma_wf();
        }
        let ghost e = self@.entries;
        let mut a = p;
        while self.index[a].metadata.height.0 > h
            invariant
                e == self@.entries,
                self.wf(),
                tree_wf(e, self.tip as int),
                e.len() == self.index@.len(),
                a < e.len(),
                ancestor_at(e, a as int, h as nat) == ancestor_at(e, p as int, h as nat),
            decreases height_of(e, a as int),
        {
            assert(e[a as int] == self.index@[a as int].entry());
            proof {
                if a == 0 {
                    assert(height_of(e, 0) == 0);
                }
            }
            let j = self.parent_position(a);
            a = j;
        }
        assert(e[a as int] == self.index@[a as int].entry());
        a
    }

    /// The target a child of `parent_hash` must carry: the parent's, except
    /// at every tenth height, where the parent's target is retargeted by the
    /// time the last interval of the parent's own branch took.
    pub fn next_pow_target_after(&self, parent_hash: BlockHash) -> (r: Result<PowTarget, ChainError>)
        requires
            self.wf(),
        ensures
            match spec_next_target(self@, parent_hash@) {
                Ok(t) => r matches Ok(x) && x@ == t,
                Err(e) => r == Err::<PowTarget, ChainError>(e),
            },
    {
        let ghost e = self@.entries;
        let p = match self.position(&parent_hash) {
            Some(p) => p,
            None => {
                return Err(ChainError::InvalidPreviousBlockHash);
            },
        };
        assert(e[p as int] == self.index@[p as int].entry());
        let next = match self.index[p].metadata.height.checked_increment() {
            Some(h) => h,
            None => {
                return Err(ChainError::HeightOverflow);
            },
        };
        if next.0 % DIFFICULTY_ADJUSTMENT_INTERVAL != 0 {
            return Ok(self.index[p].block.header.pow_target);
        }
        let ancestor_height = next.0 - DIFFICULTY_ADJUSTMENT_INTERVAL;
        let a = self.ancestor_position(p, ancestor_height);
        assert(e[a as int] == self.index@[a as int].entry());
        let later = self.index[p].block.header.timestamp.0;
        let earlier = self.index[a].block.header.timestamp.0;
        let actual: u64 = if later >= earlier {
            later - earlier
        } else {
            0
        };
        Ok(adjusted_target(self.index[p].block.header.pow_target, actual, self.pow_target))
    }

    /// The target the next block on the canonical tip must carry.
    pub fn next_pow_target(&self) -> (r: Result<PowTarget, ChainError>)
        requires
            self.wf(),
        ensures
            match spec_next_target(self@, self@.entries[self@.tip].hash) {
                Ok(t) => r matches Ok(x) && x@ == t,
                Err(e) => r == Err::<PowTarget, ChainError>(e),
            },
    {
        let tip = self.canonical_tip_hash();
        self.next_pow_target_after(tip)
    }
}

/// The first transaction that names another chain or an unsupported version.
pub open spec fn txs_error(txs: Seq<SignedTransaction>, chain_id: ChainId) -> Option<ChainError>
    decreases txs.len(),
{
    if txs.len() == 0 {
        None
    } else if txs[0].payload.chain_id != chain_id {
        Some(ChainError::WrongChainId)
    } else if txs[0].payload.version.0 != 1 {
        Some(ChainError::UnsupportedTransactionVersion)
    } else {
        txs_error(txs.drop_first(), chain_id)
    }
}

/// Applies transfers in order; the first rejection rejects them all.
pub open spec fn apply_all(m: Map<Seq<u8>, Account>, txs: Seq<SignedTransaction>) -> Result<
    Map<Seq<u8>, Account>,
    StateError,
>
    decreases txs.len(),
{
    if txs.len() == 0 {
        Ok(m)
    } else {
        match spec_apply_transaction(m, txs[0]) {
            Ok(m1) => apply_all(m1, txs.drop_first()),
            Err(e) => Err(e),
        }
    }
}

/// Why a block is not a valid child of the block at position `p`, if it is not.
pub open spec fn spec_candidate_error(
    v: ChainView,
    h: BlockHeader,
    txs: Seq<SignedTransaction>,
    p: int,
) -> Option<ChainError> {
    let e = v.entries;
    if h.version.0 != 1 {
        Some(ChainError::UnsupportedBlockVersion)
    } else if h.chain_id != v.chain_id {
        Some(ChainError::WrongChainId)
    } else if height_of(e, p) == u64::MAX {
        Some(ChainError::HeightOverflow)
    } else if h.height.0 != height_of(e, p) + 1 {
        Some(ChainError::InvalidHeight)
    } else if h.timestamp.0 <= e[p].header.timestamp.0 {
        Some(ChainError::InvalidBlockTimestamp)
    } else {
        match spec_next_target(v, e[p].hash) {
            Err(x) => Some(x),
            Ok(t) => {
                if h.pow_target@ != t {
                    Some(ChainError::UnexpectedPowTarget)
                } else if h.transaction_root@ != spec_merkle_root(txs) {
                    Some(ChainError::InvalidMerkleRoot)
                } else if txs_error(txs, v.chain_id) is Some {
                    txs_error(txs, v.chain_id)
                } else if !spec_validate_pow(h) {
                    Some(ChainError::InvalidProofOfWork)
                } else {
                    None
                }
            },
        }
    }
}

/// Why a block cannot be appended, if it cannot.
pub open spec fn spec_append_error(v: ChainView, h: BlockHeader, txs: Seq<SignedTransaction>) -> Option<ChainError> {
    let e = v.entries;
    match find_entry(e, h.previous_block_hash@) {
        None => Some(ChainError::InvalidPreviousBlockHash),
        Some(p) => match spec_candidate_error(v, h, txs, p) {
            Some(x) => Some(x),
            None => {
                if work_of(e, p) + spec_target_work(be_value(h.pow_target@)) >= pow256(32) {
                    Some(ChainError::ChainWorkOverflow)
                } else {
                    match apply_all(e[p].state, txs) {
                        Err(x) => Some(ChainError::State(x)),
                        Ok(m) => if h.state_root@ != spec_state_root(m) {
                            Some(ChainError::InvalidStateRoot)
                        } else {
                            None
                        },
                    }
                }
            },
        },
    }
}

/// The entry a valid block gets.
pub open spec fn appended_entry(v: ChainView, h: BlockHeader, txs: Seq<SignedTransaction>) -> ChainEntry {
    let e = v.entries;
    let p = find_entry(e, h.previous_block_hash@)->Some_0;
    ChainEntry {
        hash: spec_block_hash(h),
        header: h,
        transactions: txs,
        metadata: BlockMetadata {
            parent: h.previous_block_hash,
            height: h.height,
            cumulative_work: ChainWork(
                be_bytes_array(work_of(e, p) + spec_target_work(be_value(h.pow_target@))),
            ),
        },
        state: apply_all(e[p].state, txs)->Ok_0,
    }
}

/// The 32-byte array that denotes `v`.
pub open spec fn be_bytes_array(v: nat) -> [u8; 32] {
    choose|a: [u8; 32]| a@ == be_bytes(32, v)
}

/// The tree after a valid block: unchanged if the block was indexed already;
/// otherwise the block is added, and becomes the tip if its cumulative work
/// exceeds the tip's.
pub open spec fn spec_appended(v: ChainView, h: BlockHeader, txs: Seq<SignedTransaction>) -> ChainView {
    if find_entry(v.entries, spec_block_hash(h)) is Some {
        v
    } else {
        let x = appended_entry(v, h, txs);
        ChainView {
            entries: v.entries.push(x),
            tip: if x.metadata.cumulative_work.amount() > work_of(v.entries, v.tip) {
                v.entries.len() as int
            } else {
                v.tip
            },
            ..v
        }
    }
}

/// Extending the tree leaves the path to an existing block unchanged.
pub proof fn lemma_path_extend(e: Seq<ChainEntry>, tip: int, x: ChainEntry, i: int)
    requires
        tree_wf(e, tip),
        0 <= i < e.len(),
    ensures
        path_to(e.push(x), i) == path_to(e, i),
    decreases height_of(e, i),
{
    let e2 = e.push(x);
    if height_of(e, i) == 0 {
    } else {
        lemma_height_zero_inv(e, tip, i);
        lemma_parent(e, tip, i);
        let p = parent_of(e, i);
        assert(0 <= p < i && e2[p].hash == e2[i].metadata.parent@);
        let p2 = parent_of(e2, i);
        assert(e2[p2] == e[p2]);
        lemma_unique_hash(e, tip, p, p2);
        lemma_path_extend(e, tip, x, p);
    }
}

proof fn lemma_height_zero_inv(e: Seq<ChainEntry>, tip: int, i: int)
    requires
        tree_wf(e, tip),
        0 < i < e.len(),
    ensures
        height_of(e, i) >= 1,
{
    assert(has_parent(e, i));
}

/// The first position holding `hash`.
fn index_position(index: &Vec<IndexedBlock>, hash: &BlockHash) -> (r: Option<usize>)
    ensures
        r matches Some(j) ==> j < index@.len() && entries_of(index@)[j as int].hash == hash@,
        r is None ==> forall|k: int| 0 <= k < index@.len() ==> #[trigger] entries_of(index@)[k].hash != hash@,
{
    let ghost e = entries_of(index@);
    let mut j: usize = 0;
    while j < index.len()
        invariant
            e == entries_of(index@),
            j <= index@.len(),
            forall|k: int| 0 <= k < j ==> #[trigger] e[k].hash != hash@,
        decreases index@.len() - j,
    {
        assert(e[j as int] == index@[j as int].entry());
        if index[j].hash == *hash {
            return Some(j);
        }
        j += 1;
    }
    None
}

proof fn lemma_path_step(e: Seq<ChainEntry>, tip: int, cur: int, j: int, suffix: Seq<int>)
    requires
        tree_wf(e, tip),
        0 <= cur < e.len(),
        0 <= j < e.len(),
        height_of(e, cur) != 0,
        e[j].hash == e[cur].metadata.parent@,
        path_to(e, tip) == path_to(e, cur) + suffix,
    ensures
        path_to(e, tip) == path_to(e, j) + (seq![cur] + suffix),
        height_of(e, j) < height_of(e, cur),
{
    if cur == 0 {
        assert(height_of(e, 0) == 0);
    }
    lemma_parent(e, tip, cur);
    let p = parent_of(e, cur);
    lemma_unique_hash(e, tip, j, p);
    assert(path_to(e, cur) == path_to(e, p).push(cur));
    assert(path_to(e, tip) =~= path_to(e, j) + (seq![cur] + suffix));
}

/// The positions from genesis to `tip`.
fn canonical_positions(index: &Vec<IndexedBlock>, tip: usize) -> (path: Vec<usize>)
    requires
        tree_wf(entries_of(index@), tip as int),
    ensures
        path@.len() == path_to(entries_of(index@), tip as int).len(),
        forall|k: int| 0 <= k < path@.len() ==> #[trigger] path@[k] as int == path_to(entries_of(index@), tip as int)[k],
        forall|k: int| 0 <= k < path@.len() ==> #[trigger] path@[k] < index@.len(),
{
    let ghost e = entries_of(index@);
    let mut suffix: Vec<usize> = Vec::new();
    let ghost mut gsuf: Seq<int> = Seq::empty();
    let mut cur = tip;
    while index[cur].metadata.height.0 != 0
        invariant
            e == entries_of(index@),
            tree_wf(e, tip as int),
            cur < e.len(),
            suffix@.len() == gsuf.len(),
            forall|k: int| 0 <= k < suffix@.len() ==> #[trigger] suffix@[k] as int == gsuf[k],
            forall|k: int| 0 <= k < suffix@.len() ==> #[trigger] suffix@[k] < e.len(),
            path_to(e, tip as int) == path_to(e, cur as int) + gsuf,
        decreases height_of(e, cur as int),
    {
        assert(e[cur as int] == index@[cur as int].entry());
        let parent_hash = index[cur].metadata.parent;
        let j = match index_position(index, &parent_hash) {
            Some(j) => j,
            None => {
                proof {
                    lemma_parent(e, tip as int, cur as int);
                    let p = parent_of(e, cur as int);
                    assert(e[p].hash == parent_hash@);
                }
                0
            },
        };
        proof {
            lemma_path_step(e, tip as int, cur as int, j as int, gsuf);
            gsuf = seq![cur as int] + gsuf;
        }
        suffix.insert(0, cur);
        cur = j;
    }
    assert(e[cur as int] == index@[cur as int].entry());
    assert(path_to(e, cur as int) == seq![cur as int]);
    suffix.insert(0, cur);
    proof {
        gsuf = seq![cur as int] + gsuf;
    }
    suffix
}

/// The canonical blocks of a tree: genesis to `tip`.
fn canonical_blocks(index: &Vec<IndexedBlock>, tip: usize) -> (blocks: Vec<Block>)
    requires
        tree_wf(entries_of(index@), tip as int),
    ensures
        blocks@.len() == path_to(entries_of(index@), tip as int).len(),
        forall|k: int|
            0 <= k < blocks@.len() ==> same_block(
                #[trigger] blocks@[k],
                entries_of(index@)[path_to(entries_of(index@), tip as int)[k]].header,
                entries_of(index@)[path_to(entries_of(index@), tip as int)[k]].transactions,
            ),
{
    let ghost e = entries_of(index@);
    let path = canonical_positions(index, tip);
    let ghost full = path_to(e, tip as int);
    let mut blocks: Vec<Block> = Vec::new();
    let mut k: usize = 0;
    while k < path.len()
        invariant
            e == entries_of(index@),
            full == path_to(e, tip as int),
            full.len() == path@.len(),
            forall|q: int| 0 <= q < path@.len() ==> #[trigger] path@[q] as int == full[q],
            forall|q: int| 0 <= q < path@.len() ==> #[trigger] path@[q] < index@.len(),
            k <= path@.len(),
            blocks@.len() == k,
            forall|q: int|
                0 <= q < blocks@.len() ==> same_block(#[trigger] blocks@[q], e[full[q]].header, e[full[q]].transactions),
        decreases path@.len() - k,
    {
        let idx = path[k];
        assert(e[idx as int] == index@[idx as int].entry());
        assert(full[k as int] == idx as int);
        blocks.push(index[idx].block.duplicate());
        k += 1;
    }
    blocks
}


/// A hash that is indexed names the one position that holds it.
pub proof fn lemma_find_entry(e: Seq<ChainEntry>, tip: int, i: int)
    requires
        tree_wf(e, tip),
        0 <= i < e.len(),
    ensures
        find_entry(e, e[i].hash) == Some(i),
{
    let h = e[i].hash;
    assert(0 <= i < e.len() && e[i].hash == h);
    let c = choose|j: int| 0 <= j < e.len() && #[trigger] e[j].hash == h;
    lemma_unique_hash(e, tip, c, i);
}

/// Adding a block with a fresh hash keeps every parent link.
proof fn lemma_parent_extend(e: Seq<ChainEntry>, tip: int, x: ChainEntry, i: int)
    requires
        tree_wf(e, tip),
        0 < i < e.len(),
    ensures
        parent_of(e.push(x), i) == parent_of(e, i),
{
    let e2 = e.push(x);
    lemma_parent(e, tip, i);
    let p = parent_of(e, i);
    assert(0 <= p < i && e2[p].hash == e2[i].metadata.parent@);
    let p2 = parent_of(e2, i);
    assert(e2[p2] == e[p2]);
    lemma_unique_hash(e, tip, p, p2);
}

/// A block with a fresh hash whose parent is indexed one height lower keeps
/// the tree well formed; the tip moves to it exactly when it has more work.
proof fn lemma_tree_push(e: Seq<ChainEntry>, tip: int, x: ChainEntry, p: int, tip2: int)
    requires
        tree_wf(e, tip),
        0 <= p < e.len(),
        x.hash == spec_block_hash(x.header),
        forall|i: int| 0 <= i < e.len() ==> #[trigger] e[i].hash != x.hash,
        x.metadata.height == x.header.height,
        x.metadata.parent@ == e[p].hash,
        height_of(e, p) + 1 == x.metadata.height.0,
        tip2 == if x.metadata.cumulative_work.amount() > work_of(e, tip) {
            e.len() as int
        } else {
            tip
        },
    ensures
        tree_wf(e.push(x), tip2),
        forall|i: int| 0 <= i < e.len() ==> path_to(e.push(x), i) == #[trigger] path_to(e, i),
{
    let e2 = e.push(x);
    let n = e.len() as int;
    assert(e2[n] == x);
    assert forall|i: int| 0 <= i < e2.len() implies #[trigger] e2[i].hash == spec_block_hash(e2[i].header) by {
        if i < n {
            assert(e2[i] == e[i]);
        }
    }
    assert forall|i: int, j: int| 0 <= i < j < e2.len() implies #[trigger] e2[i].hash != #[trigger] e2[j].hash by {
        if j < n {
            assert(e2[i] == e[i] && e2[j] == e[j]);
        } else {
            assert(e2[i] == e[i]);
        }
    }
    assert forall|i: int| 0 <= i < e2.len() implies #[trigger] e2[i].metadata.height == e2[i].header.height by {
        if i < n {
            assert(e2[i] == e[i]);
        }
    }
    assert forall|i: int| 0 < i < e2.len() implies #[trigger] has_parent(e2, i) by {
        if i < n {
            lemma_parent_extend(e, tip, x, i);
            lemma_parent(e, tip, i);
            assert(e2[i] == e[i]);
            assert(e2[parent_of(e, i)] == e[parent_of(e, i)]);
        } else {
            assert(0 <= p < n && e2[p].hash == e2[n].metadata.parent@);
            let c = parent_of(e2, n);
            assert(0 <= c < n && e2[c].hash == e2[n].metadata.parent@);
            assert(e2[c] == e[c] && e2[p] == e[p]);
            lemma_unique_hash(e, tip, c, p);
        }
    }
    assert forall|i: int| 0 <= i < e2.len() implies #[trigger] work_of(e2, i) <= work_of(e2, tip2) by {
        if i < n {
            assert(e2[i] == e[i]);
            assert(work_of(e, i) <= work_of(e, tip));
        }
        assert(e2[tip] == e[tip]);
    }
    assert(e2[0] == e[0]);
    assert forall|i: int| 0 <= i < e.len() implies path_to(e.push(x), i) == #[trigger] path_to(e, i) by {
        lemma_path_extend(e, tip, x, i);
    }
}

/// Checks every transaction of a block for the chain and the version.
fn check_transactions(txs: &[SignedTransaction], chain_id: ChainId) -> (r: Result<(), ChainError>)
    ensures
        r == match txs_error(txs@, chain_id) {
            Some(e) => Err::<(), ChainError>(e),
            None => Ok(()),
        },
{
    let mut i: usize = 0;
    assert(txs@.subrange(0, txs@.len() as int) =~= txs@);
    while i < txs.len()
        invariant
            i <= txs@.len(),
            txs_error(txs@, chain_id) == txs_error(txs@.subrange(i as int, txs@.len() as int), chain_id),
        decreases txs@.len() - i,
    {
        let ghost rest = txs@.subrange(i as int, txs@.len() as int);
        assert(rest[0] == txs@[i as int]);
        assert(rest.drop_first() =~= txs@.subrange(i + 1, txs@.len() as int));
        let tx = &txs[i];
        if tx.payload.chain_id.0 != chain_id.0 {
            return Err(ChainError::WrongChainId);
        }
        if tx.payload.version.0 != 1 {
            return Err(ChainError::UnsupportedTransactionVersion);
        }
        i += 1;
    }
    assert(txs@.subrange(i as int, txs@.len() as int).len() == 0);
    Ok(())
}

/// Applies the transfers of a block in order, stopping at the first rejection.
pub fn apply_transactions(state: &mut State, txs: &[SignedTransaction]) -> (r: Result<(), StateError>)
    ensures
        match apply_all(old(state)@, txs@) {
            Ok(m) => r is Ok && final(state)@ == m,
            Err(e) => r == Err::<(), StateError>(e),
        },
{
    let ghost start = state@;
    let mut i: usize = 0;
    assert(txs@.subrange(0, txs@.len() as int) =~= txs@);
    while i < txs.len()
        invariant
            i <= txs@.len(),
            start == old(state)@,
            apply_all(start, txs@) == apply_all(state@, txs@.subrange(i as int, txs@.len() as int)),
        decreases txs@.len() - i,
    {
        let ghost rest = txs@.subrange(i as int, txs@.len() as int);
        assert(rest[0] == txs@[i as int]);
        assert(rest.drop_first() =~= txs@.subrange(i + 1, txs@.len() as int));
        let ghost before = state@;
        match state.apply_transaction(&txs[i]) {
            Ok(()) => {},
            Err(e) => {
                assert(spec_apply_transaction(before, rest[0]) == Err::<Map<Seq<u8>, Account>, StateError>(e));
                assert(apply_all(before, rest) == Err::<Map<Seq<u8>, Account>, StateError>(e));
                return Err(e);
            },
        }
        i += 1;
    }
    assert(txs@.subrange(i as int, txs@.len() as int).len() == 0);
    Ok(())
}

impl Blockchain {
    /// Checks a block against its parent at position `p`: version, chain,
    /// height, timestamp, target, transaction root, transactions and proof of
    /// work, in that order.
    fn validate_candidate(&self, block: &Block, p: usize) -> (r: Result<(), ChainError>)
        requires
            self.wf(),
            p < self@.entries.len(),
        ensures
            r == match spec_candidate_error(self@, block.header, block.transactions@, p as int) {
                Some(e) => Err::<(), ChainError>(e),
                None => Ok(()),
            },
    {
        proof {
            self.lemma_wf();
            lemma_find_entry(self@.entries, self@.tip, p as int);
        }
        let ghost e = self@.entries;
        assert(e[p as int] == self.index@[p as int].entry());
        let header = block.header;
        if header.version.0 != 1 {
            return Err(ChainError::UnsupportedBlockVersion);
        }
        if header.chain_id.0 != self.chain_id.0 {
            return Err(ChainError::WrongChainId);
        }
        let expected = match self.index[p].metadata.height.checked_increment() {
            Some(h) => h,
            None => {
                return Err(ChainError::HeightOverflow);
            },
        };
        if header.height.0 != expected.0 {
            return Err(ChainError::InvalidHeight);
        }
        if header.timestamp.0 <= self.index[p].block.header.timestamp.0 {
            return Err(ChainError::InvalidBlockTimestamp);
        }
        let target = match self.next_pow_target_after(self.index[p].hash) {
            Ok(t) => t,
            Err(x) => {
                return Err(x);
            },
        };
        if !(header.pow_target == target) {
            return Err(ChainError::UnexpectedPowTarget);
        }
        let root = merkle_root(block.transactions.as_slice());
        if !(header.transaction_root == root) {
            return Err(ChainError::InvalidMerkleRoot);
        }
        match check_transactions(block.transactions.as_slice(), self.chain_id) {
            Ok(()) => {},
            Err(x) => {
                return Err(x);
            },
        }
        if !validate_pow(&header) {
            return Err(ChainError::InvalidProofOfWork);
        }
        Ok(())
    }
}


/// Every position on the path to `i` is at most `i`.
pub proof fn lemma_path_in_range(e: Seq<ChainEntry>, tip: int, i: int)
    requires
        tree_wf(e, tip),
        0 <= i < e.len(),
    ensures
        forall|k: int| 0 <= k < path_to(e, i).len() ==> 0 <= #[trigger] path_to(e, i)[k] <= i,
    decreases height_of(e, i),
{
    if height_of(e, i) != 0 {
        lemma_height_zero_inv_pos(e, tip, i);
        lemma_parent(e, tip, i);
        let p = parent_of(e, i);
        lemma_path_in_range(e, tip, p);
        assert(path_to(e, i) == path_to(e, p).push(i));
    }
}

proof fn lemma_height_zero_inv_pos(e: Seq<ChainEntry>, tip: int, i: int)
    requires
        tree_wf(e, tip),
        0 <= i < e.len(),
        height_of(e, i) != 0,
    ensures
        0 < i,
{
}

impl Blockchain {
    /// Validates `block` against its parent, applies its transfers to the
    /// parent's state and indexes it; it becomes the canonical tip when its
    /// cumulative work exceeds the tip's. A block that is indexed already is
    /// accepted again and changes nothing; a rejected block changes nothing.
    pub fn append_block(&mut self, block: Block) -> (r: Result<BlockHash, ChainError>)
        requires
            old(self).wf(),
        ensures
            final(self).wf(),
            match spec_append_error(old(self)@, block.header, block.transactions@) {
                Some(e) => r == Err::<BlockHash, ChainError>(e) && final(self)@ == old(self)@,
                None => r matches Ok(h) && h@ == spec_block_hash(block.header) && final(self)@
                    == spec_appended(old(self)@, block.header, block.transactions@),
            },
    {
        proof {
            self.lemma_wf();
        }
        let ghost v = self@;
        let ghost e = self@.entries;
        let ghost txs = block.transactions@;
        let header = block.header;
        let parent_hash = header.previous_block_hash;
        let p = match self.position(&parent_hash) {
            Some(p) => p,
            None => {
                return Err(ChainError::InvalidPreviousBlockHash);
            },
        };
        assert(e[p as int] == self.index@[p as int].entry());
        match self.validate_candidate(&block, p) {
            Ok(()) => {},
            Err(x) => {
                return Err(x);
            },
        }
        let parent_work = self.index[p].metadata.cumulative_work;
        let block_work = target_work(header.pow_target);
        let cumulative_work = match next_chain_work(parent_work, block_work) {
            Ok(w) => w,
            Err(x) => {
                return Err(x);
            },
        };
        let mut next_state = self.index[p].state.duplicate();
        match apply_transactions(&mut next_state, block.transactions.as_slice()) {
            Ok(()) => {},
            Err(x) => {
                return Err(ChainError::State(x));
            },
        }
        if !(header.state_root == next_state.state_root()) {
            return Err(ChainError::InvalidStateRoot);
        }
        let hash = block_hash(&header);
        match index_position(&self.index, &hash) {
            Some(j) => {
                assert(0 <= j < e.len() && e[j as int].hash == spec_block_hash(header));
                return Ok(hash);
            },
            None => {},
        }
        let metadata = BlockMetadata::new(parent_hash, header.height, cumulative_work);
        assert(e[self.tip as int] == self.index@[self.tip as int].entry());
        let tip_metadata = self.index[self.tip].metadata;
        let becomes_canonical = candidate_is_better(&tip_metadata, &metadata);
        let ghost x = appended_entry(v, header, txs);
        proof {
            let w = work_of(e, p as int) + spec_target_work(be_value(header.pow_target@));
            lemma_be_bytes_of_value(cumulative_work.0@);
            assert(cumulative_work.0@ == be_bytes(32, w));
            let a = be_bytes_array(w);
            assert(a@ == be_bytes(32, w));
            assert(a =~= cumulative_work.0);
            assert(x.metadata == metadata);
        }
        let n = self.index.len();
        let stored_state = next_state.duplicate();
        stored_state.entries_are_canonical();
        let ghost old_index = self.index@;
        self.index.push(IndexedBlock { hash, block, metadata, state: stored_state });
        proof {
            assert(self.index@[n as int].entry() == x);
            assert(entries_of(self.index@) =~= e.push(x));
        }
        let ghost tip2: int = if becomes_canonical { n as int } else { self.tip as int };
        proof {
            lemma_tree_push(e, self.tip as int, x, p as int, tip2);
            assert(spec_append_error(v, header, txs) is None);
            lemma_all_valid_push(v, x, p as int, tip2);
        }
        if becomes_canonical {
            self.tip = n;
            self.canonical_tip = hash;
            self.state = next_state;
            self.blocks = canonical_blocks(&self.index, n);
        }
        proof {
            let e2 = e.push(x);
            assert(self@.entries == e2);
            assert(self.tip as int == tip2);
            if !becomes_canonical {
                lemma_path_in_range(e, tip2, tip2);
                assert forall|k: int| 0 <= k < self.blocks@.len() implies same_block(
                    #[trigger] self.blocks@[k],
                    e2[path_to(e2, tip2)[k]].header,
                    e2[path_to(e2, tip2)[k]].transactions,
                ) by {
                    assert(path_to(e2, tip2) == path_to(e, tip2));
                    let q = path_to(e, tip2)[k];
                    assert(e2[q] == e[q]);
                }
            }
            assert forall|i: int| 0 <= i < e2.len() implies (#[trigger] e2[i]).header.state_root@ == spec_state_root(
                e2[i].state,
            ) && e2[i].metadata.parent@ == e2[i].header.previous_block_hash@ && canonical_state(e2[i].state)
                && e2[i].hash.len() == 32 by {
                if i < e.len() {
                    assert(e2[i] == e[i]);
                }
            }
            assert(e2[0] == e[0]);
            reveal(Blockchain::wf);
        }
        Ok(hash)
    }
}


/// The path to a block runs from genesis to that block, one height per
/// step, each block the child of the one before it.
pub proof fn lemma_path_shape(e: Seq<ChainEntry>, tip: int, i: int)
    requires
        tree_wf(e, tip),
        0 <= i < e.len(),
    ensures
        path_to(e, i).len() == height_of(e, i) + 1,
        path_to(e, i)[0] == 0,
        path_to(e, i).last() == i,
        forall|k: int| 0 <= k < path_to(e, i).len() ==> 0 <= #[trigger] path_to(e, i)[k] < e.len(),
        forall|k: int| 0 <= k < path_to(e, i).len() ==> height_of(e, #[trigger] path_to(e, i)[k]) == k,
        forall|k: int|
            0 < k < path_to(e, i).len() ==> e[#[trigger] path_to(e, i)[k]].metadata.parent@ == e[path_to(
                e,
                i,
            )[k - 1]].hash,
    decreases height_of(e, i),
{
    if height_of(e, i) == 0 {
        lemma_height_zero(e, tip, i);
    } else {
        lemma_height_zero_inv_pos(e, tip, i);
        lemma_parent(e, tip, i);
        let p = parent_of(e, i);
        lemma_path_shape(e, tip, p);
        let pp = path_to(e, p);
        assert(path_to(e, i) == pp.push(i));
        assert forall|k: int| 0 < k < path_to(e, i).len() implies e[#[trigger] path_to(e, i)[k]].metadata.parent@
            == e[path_to(e, i)[k - 1]].hash by {
            if k < pp.len() {
                assert(path_to(e, i)[k] == pp[k]);
                assert(path_to(e, i)[k - 1] == pp[k - 1]);
            }
        }
    }
}

/// Fork choice: no indexed block, on any branch, has more cumulative work
/// than the canonical tip.
pub proof fn lemma_tip_has_most_work(chain: &Blockchain, i: int)
    requires
        chain.wf(),
        0 <= i < chain@.entries.len(),
    ensures
        work_of(chain@.entries, i) <= work_of(chain@.entries, chain@.tip),
{
    chain.lemma_wf();
}

/// The canonical chain starts at genesis, ends at the tip, and each of its
/// blocks is the child of the one before it, one height higher.
pub proof fn lemma_canonical_chain(chain: &Blockchain)
    requires
        chain.wf(),
    ensures
        chain.canonical().len() == height_of(chain@.entries, chain@.tip) + 1,
        chain.canonical()[0] == 0,
        chain.canonical().last() == chain@.tip,
        forall|k: int|
            0 <= k < chain.canonical().len() ==> height_of(chain@.entries, #[trigger] chain.canonical()[k]) == k,
        forall|k: int|
            0 < k < chain.canonical().len() ==> chain@.entries[#[trigger] chain.canonical()[k]].metadata.parent@
                == chain@.entries[chain.canonical()[k - 1]].hash,
{
    chain.lemma_wf();
    lemma_path_shape(chain@.entries, chain@.tip, chain@.tip);
}

/// Appending again a block that the tree indexes (other than genesis)
/// passes every check, and would index it with exactly the entry it already
/// has, whose work does not exceed the tip's: rewriting that entry under
/// its hash, as an index keyed by hash does, leaves the tree as it is, which
/// is what `append_block` gives.
pub proof fn lemma_reappend_same_entry(chain: &Blockchain, i: int)
    requires
        chain.wf(),
        0 < i < chain@.entries.len(),
    ensures
        spec_append_error(chain@, chain@.entries[i].header, chain@.entries[i].transactions) is None,
        appended_entry(chain@, chain@.entries[i].header, chain@.entries[i].transactions) == chain@.entries[i],
        work_of(chain@.entries, i) <= work_of(chain@.entries, chain@.tip),
        spec_appended(chain@, chain@.entries[i].header, chain@.entries[i].transactions) == chain@,
{
    chain.lemma_wf();
    let e = chain@.entries;
    assert(entry_valid(chain@, i));
    assert(e[i].hash == spec_block_hash(e[i].header));
}

/// The canonical chain (what `blocks` returns, position by position) runs
/// from the genesis block to the tip: it starts with the first indexed
/// block, which has height zero and a zero parent; the block at position `k`
/// has height `k`; each block names the hash of the one before it as its
/// previous block; the last is the tip, whose hash is the canonical tip
/// hash; and every block on it is indexed. `block_count` is its length.
pub proof fn lemma_blocks_are_canonical_path(chain: &Blockchain)
    requires
        chain.wf(),
    ensures
        ({
            let c = chain.canonical();
            let e = chain@.entries;
            &&& c.len() >= 1
            &&& c[0] == 0
            &&& e[0].header.height.0 == 0
            &&& e[0].header.previous_block_hash@ == Seq::new(32, |i: int| 0u8)
            &&& forall|k: int| 0 <= k < c.len() ==> 0 <= #[trigger] c[k] < e.len()
            &&& forall|k: int| 0 <= k < c.len() ==> e[#[trigger] c[k]].header.height.0 == k
            &&& forall|k: int| 0 <= k < c.len() ==> e[#[trigger] c[k]].hash == spec_block_hash(e[c[k]].header)
            &&& forall|k: int|
                0 < k < c.len() ==> e[#[trigger] c[k]].header.previous_block_hash@ == spec_block_hash(e[c[k - 1]].header)
            &&& c.last() == chain@.tip
            &&& e[chain@.tip].hash == spec_block_hash(e[chain@.tip].header)
        }),
{
    chain.lemma_wf();
    let e = chain@.entries;
    let tip = chain@.tip;
    lemma_path_shape(e, tip, tip);
    let c = chain.canonical();
    assert forall|k: int| 0 <= k < c.len() implies e[#[trigger] c[k]].header.height.0 == k by {
        assert(height_of(e, c[k]) == k);
        assert(e[c[k]].metadata.height == e[c[k]].header.height);
    }
    assert forall|k: int| 0 < k < c.len() implies e[#[trigger] c[k]].header.previous_block_hash@ == spec_block_hash(
        e[c[k - 1]].header,
    ) by {
        assert(e[c[k]].metadata.parent@ == e[c[k - 1]].hash);
        assert(e[c[k - 1]].hash == spec_block_hash(e[c[k - 1]].header));
    }
    assert(e[0].metadata.height == e[0].header.height);
}


impl Blockchain {
    /// Every indexed block with its hash, metadata and state, in the order
    /// they were indexed (genesis first, every block after its parent).
    pub fn indexed_blocks(&self) -> (r: Vec<(BlockHash, &Block, &BlockMetadata, &State)>)
        requires
            self.wf(),
        ensures
            r@.len() == self@.entries.len(),
            forall|k: int|
                0 <= k < r@.len() ==> {
                    let (h, b, m, st) = #[trigger] r@[k];
                    &&& h@ == self@.entries[k].hash
                    &&& same_block(*b, self@.entries[k].header, self@.entries[k].transactions)
                    &&& *m == self@.entries[k].metadata
                    &&& st@ == self@.entries[k].state
                },
    {
        proof {
            self.lemma_wf();
        }
        let ghost e = self@.entries;
        let mut r: Vec<(BlockHash, &Block, &BlockMetadata, &State)> = Vec::new();
        let mut k: usize = 0;
        while k < self.index.len()
            invariant
                e == self@.entries,
                e.len() == self.index@.len(),
                k <= e.len(),
                r@.len() == k,
                forall|q: int|
                    0 <= q < k ==> {
                        let (h, b, m, st) = #[trigger] r@[q];
                        &&& h@ == e[q].hash
                        &&& same_block(*b, e[q].header, e[q].transactions)
                        &&& *m == e[q].metadata
                        &&& st@ == e[q].state
                    },
            decreases e.len() - k,
        {
            assert(e[k as int] == self.index@[k as int].entry());
            let entry = &self.index[k];
            r.push((entry.hash, &entry.block, &entry.metadata, &entry.state));
            k += 1;
        }
        r
    }
}


/// Every indexed block's state root is the root of the state it leaves, and
/// its recorded parent is the one its header names.
pub proof fn lemma_indexed_blocks_consistent(chain: &Blockchain)
    requires
        chain.wf(),
    ensures
        entries_consistent(chain@.entries),
{
    chain.lemma_wf();
}


/// The blocks from genesis to the block at `i`, as entries.
pub open spec fn branch(e: Seq<ChainEntry>, i: int) -> Seq<ChainEntry> {
    path_to(e, i).map_values(|k: int| e[k])
}

/// The target after the last block of a branch, computed from the branch
/// alone (the retargeting rule of `spec_next_target`).
pub open spec fn branch_target(b: Seq<ChainEntry>, limit: Seq<u8>) -> Result<Seq<u8>, ChainError> {
    let p = b.last();
    let height = p.metadata.height.0 as nat;
    if height == u64::MAX {
        Err(ChainError::HeightOverflow)
    } else {
        let next = height + 1;
        if next % (DIFFICULTY_ADJUSTMENT_INTERVAL as nat) != 0 {
            Ok(p.header.pow_target@)
        } else {
            let a = b[next - DIFFICULTY_ADJUSTMENT_INTERVAL];
            let later = p.header.timestamp.0;
            let earlier = a.header.timestamp.0;
            let actual: u64 = if later >= earlier {
                (later - earlier) as u64
            } else {
                0
            };
            Ok(be_bytes(32, spec_adjusted_target(be_value(p.header.pow_target@), actual, be_value(limit))))
        }
    }
}

/// The ancestor at height `h` is the `h`-th block of the path.
pub proof fn lemma_ancestor_on_path(e: Seq<ChainEntry>, tip: int, p: int, h: nat)
    requires
        tree_wf(e, tip),
        0 <= p < e.len(),
        h <= height_of(e, p),
    ensures
        ancestor_at(e, p, h) == path_to(e, p)[h as int],
    decreases height_of(e, p),
{
    lemma_path_shape(e, tip, p);
    if height_of(e, p) > h {
        lemma_height_zero_inv_pos(e, tip, p);
        lemma_parent(e, tip, p);
        let q = parent_of(e, p);
        lemma_ancestor_on_path(e, tip, q, h);
        lemma_path_shape(e, tip, q);
        assert(path_to(e, p) == path_to(e, q).push(p));
    }
}

/// The target a block after the block at `p` must carry: the parent's own
/// target, except at heights that are multiples of 10, where it is the
/// parent's own target retargeted by the time between the parent and its
/// ancestor 10 heights below the new block (zero if the clock went back),
/// capped at the chain's limit.
pub proof fn lemma_next_target_from_parent(chain: &Blockchain, p: int)
    requires
        chain.wf(),
        0 <= p < chain@.entries.len(),
        height_of(chain@.entries, p) < u64::MAX,
    ensures
        ({
            let e = chain@.entries;
            let next = height_of(e, p) + 1;
            let parent = e[p].header;
            &&& spec_next_target(chain@, e[p].hash) is Ok
            &&& spec_next_target(chain@, e[p].hash)->Ok_0.len() == 32
            &&& next % 10 != 0 ==> spec_next_target(chain@, e[p].hash)->Ok_0 == parent.pow_target@
            &&& next % 10 == 0 ==> {
                let earlier = e[path_to(e, p)[next - 10]].header.timestamp.0;
                let actual: u64 = if parent.timestamp.0 >= earlier {
                    (parent.timestamp.0 - earlier) as u64
                } else {
                    0
                };
                be_value(spec_next_target(chain@, e[p].hash)->Ok_0) == spec_adjusted_target(
                    be_value(parent.pow_target@),
                    actual,
                    be_value(chain@.pow_target@),
                )
            }
        }),
{
    lemma_tree_valid(chain);
    let e = chain@.entries;
    let v = chain@;
    lemma_find_entry(e, v.tip, p);
    let next = height_of(e, p) + 1;
    assert(e[p].header.pow_target@.len() == 32);
    if next % 10 == 0 {
        lemma_ancestor_on_path(e, v.tip, p, (next - 10) as nat);
        let a = ancestor_at(e, p, (next - 10) as nat);
        let later = e[p].header.timestamp.0;
        let earlier = e[a].header.timestamp.0;
        let actual: u64 = if later >= earlier {
            (later - earlier) as u64
        } else {
            0
        };
        let x = spec_adjusted_target(be_value(e[p].header.pow_target@), actual, be_value(v.pow_target@));
        crate::pow::lemma_adjusted_target_bounds(be_value(e[p].header.pow_target@), actual, actual, be_value(v.pow_target@));
        crate::bytes::lemma_be_value_bound(v.pow_target@);
        assert(v.pow_target@.len() == 32);
        crate::bytes::lemma_be_bytes_exist(32, x);
    }
}

/// The target after a block depends only on its branch.
pub proof fn lemma_next_target_by_branch(v: ChainView, p: int)
    requires
        tree_wf(v.entries, v.tip),
        0 <= p < v.entries.len(),
    ensures
        spec_next_target(v, v.entries[p].hash) == branch_target(branch(v.entries, p), v.pow_target@),
{
    let e = v.entries;
    lemma_find_entry(e, v.tip, p);
    lemma_path_shape(e, v.tip, p);
    let b = branch(e, p);
    assert(b.last() == e[p]);
    let height = height_of(e, p);
    if height < u64::MAX {
        let next = height + 1;
        if next % (DIFFICULTY_ADJUSTMENT_INTERVAL as nat) == 0 {
            let h = (next - DIFFICULTY_ADJUSTMENT_INTERVAL) as nat;
            lemma_ancestor_on_path(e, v.tip, p, h);
            assert(b[h as int] == e[ancestor_at(e, p, h)]);
        }
    }
}

/// Indexing a new block leaves every existing branch as it was.
pub proof fn lemma_branch_push(e: Seq<ChainEntry>, tip: int, x: ChainEntry, p: int)
    requires
        tree_wf(e, tip),
        0 <= p < e.len(),
    ensures
        branch(e.push(x), p) == branch(e, p),
{
    lemma_path_extend(e, tip, x, p);
    lemma_path_in_range(e, tip, p);
    let e2 = e.push(x);
    assert forall|k: int| 0 <= k < branch(e, p).len() implies branch(e2, p)[k] == branch(e, p)[k] by {
        assert(e2[path_to(e, p)[k]] == e[path_to(e, p)[k]]);
    }
    assert(branch(e2, p) =~= branch(e, p));
}

/// Two parents with the same entry and the same next target give a block
/// the same verdict.
proof fn lemma_candidate_error_eq(
    v1: ChainView,
    v2: ChainView,
    h: BlockHeader,
    txs: Seq<SignedTransaction>,
    p1: int,
    p2: int,
)
    requires
        v1.chain_id == v2.chain_id,
        0 <= p1 < v1.entries.len(),
        0 <= p2 < v2.entries.len(),
        v1.entries[p1] == v2.entries[p2],
        spec_next_target(v1, v1.entries[p1].hash) == spec_next_target(v2, v2.entries[p2].hash),
    ensures
        spec_candidate_error(v1, h, txs, p1) == spec_candidate_error(v2, h, txs, p2),
{
}

proof fn lemma_append_error_eq(v1: ChainView, v2: ChainView, h: BlockHeader, txs: Seq<SignedTransaction>, p1: int, p2: int)
    requires
        find_entry(v1.entries, h.previous_block_hash@) == Some(p1),
        find_entry(v2.entries, h.previous_block_hash@) == Some(p2),
        0 <= p1 < v1.entries.len(),
        0 <= p2 < v2.entries.len(),
        v1.entries[p1] == v2.entries[p2],
        spec_candidate_error(v1, h, txs, p1) == spec_candidate_error(v2, h, txs, p2),
    ensures
        spec_append_error(v1, h, txs) == spec_append_error(v2, h, txs),
        appended_entry(v1, h, txs) == appended_entry(v2, h, txs),
{
}

/// Whether a block may extend a tree, and what it becomes there, depend only
/// on the chain's parameters and on the branch of its parent.
pub proof fn lemma_append_by_branch(v1: ChainView, v2: ChainView, h: BlockHeader, txs: Seq<SignedTransaction>)
    requires
        tree_wf(v1.entries, v1.tip),
        tree_wf(v2.entries, v2.tip),
        v1.chain_id == v2.chain_id,
        v1.pow_target == v2.pow_target,
        find_entry(v1.entries, h.previous_block_hash@) is Some,
        find_entry(v2.entries, h.previous_block_hash@) is Some,
        branch(v1.entries, find_entry(v1.entries, h.previous_block_hash@)->Some_0) == branch(
            v2.entries,
            find_entry(v2.entries, h.previous_block_hash@)->Some_0,
        ),
    ensures
        spec_append_error(v1, h, txs) == spec_append_error(v2, h, txs),
        appended_entry(v1, h, txs) == appended_entry(v2, h, txs),
{
    let e1 = v1.entries;
    let e2 = v2.entries;
    let p1 = find_entry(e1, h.previous_block_hash@)->Some_0;
    let p2 = find_entry(e2, h.previous_block_hash@)->Some_0;
    assert(0 <= p1 < e1.len());
    assert(0 <= p2 < e2.len());
    lemma_branch_last(e1, v1.tip, p1);
    lemma_branch_last(e2, v2.tip, p2);
    lemma_next_target_by_branch(v1, p1);
    lemma_next_target_by_branch(v2, p2);
    lemma_candidate_error_eq(v1, v2, h, txs, p1, p2);
    lemma_append_error_eq(v1, v2, h, txs, p1, p2);
}

/// The last block of a branch is the block itself.
proof fn lemma_branch_last(e: Seq<ChainEntry>, tip: int, p: int)
    requires
        tree_wf(e, tip),
        0 <= p < e.len(),
    ensures
        branch(e, p).len() >= 1,
        branch(e, p).last() == e[p],
{
    lemma_path_shape(e, tip, p);
}


/// Indexing a fresh block keeps the position of every indexed hash.
proof fn lemma_find_entry_push(e: Seq<ChainEntry>, tip: int, x: ChainEntry, tip2: int, p: int)
    requires
        tree_wf(e, tip),
        tree_wf(e.push(x), tip2),
        0 <= p < e.len(),
    ensures
        find_entry(e.push(x), e[p].hash) == Some(p),
{
    let e2 = e.push(x);
    assert(e2[p] == e[p]);
    lemma_find_entry(e2, tip2, p);
}

/// Indexing a valid fresh block keeps every block valid.
proof fn lemma_all_valid_push(v: ChainView, x: ChainEntry, p: int, tip2: int)
    requires
        tree_wf(v.entries, v.tip),
        tree_wf(v.entries.push(x), tip2),
        all_valid(v),
        0 <= p < v.entries.len(),
        find_entry(v.entries, x.header.previous_block_hash@) == Some(p),
        spec_append_error(v, x.header, x.transactions) is None,
        x == appended_entry(v, x.header, x.transactions),
    ensures
        all_valid(ChainView { entries: v.entries.push(x), tip: tip2, ..v }),
{
    let e = v.entries;
    let e2 = e.push(x);
    let v2 = ChainView { entries: e2, tip: tip2, ..v };
    assert forall|j: int| 0 < j < e2.len() implies #[trigger] entry_valid(v2, j) by {
        let h = e2[j].header;
        let txs = e2[j].transactions;
        if j < e.len() {
            assert(e2[j] == e[j]);
            assert(entry_valid(v, j));
            let q = find_entry(e, h.previous_block_hash@)->Some_0;
            assert(0 <= q < e.len() && e[q].hash == h.previous_block_hash@);
            lemma_find_entry(e, v.tip, q);
            lemma_find_entry_push(e, v.tip, x, tip2, q);
            lemma_branch_push(e, v.tip, x, q);
            lemma_append_by_branch(v, v2, h, txs);
        } else {
            assert(e2[j] == x);
            assert(0 <= p < e.len() && e[p].hash == h.previous_block_hash@);
            lemma_find_entry_push(e, v.tip, x, tip2, p);
            lemma_branch_push(e, v.tip, x, p);
            lemma_append_by_branch(v, v2, h, txs);
        }
    }
}


/// The properties every block tree of a `Blockchain` has.
#[verifier::opaque]
pub open spec fn tree_valid(v: ChainView) -> bool {
    &&& tree_wf(v.entries, v.tip)
    &&& entries_consistent(v.entries)
    &&& all_valid(v)
}

/// A chain's block tree is well formed, consistent and valid.
pub proof fn lemma_tree_valid(chain: &Blockchain)
    requires
        chain.wf(),
    ensures
        tree_valid(chain@),
        tree_wf(chain@.entries, chain@.tip),
        entries_consistent(chain@.entries),
{
    chain.lemma_wf();
    reveal(tree_valid);
}

/// A valid tree is well formed and consistent.
pub proof fn lemma_tree_valid_wf(v: ChainView)
    requires
        tree_valid(v),
    ensures
        tree_wf(v.entries, v.tip),
        entries_consistent(v.entries),
{
    reveal(tree_valid);
}

/// Every block of `r` is, record for record, a block of `v`.
pub open spec fn embedded(r: Seq<ChainEntry>, v: Seq<ChainEntry>) -> bool {
    forall|i: int| 0 <= i < r.len() ==> exists|j: int| 0 <= j < v.len() && #[trigger] v[j] == #[trigger] r[i]
}

/// A block has at most as many ancestors as blocks indexed before it.
pub proof fn lemma_height_bound(e: Seq<ChainEntry>, tip: int, i: int)
    requires
        tree_wf(e, tip),
        0 <= i < e.len(),
    ensures
        height_of(e, i) <= i,
    decreases i,
{
    if i > 0 {
        assert(has_parent(e, i));
        lemma_height_bound(e, tip, parent_of(e, i));
    }
}

/// A block that two trees share, record for record, has the same branch in
/// both when every block of the first is a block of the second.
pub proof fn lemma_branch_embedded(r: Seq<ChainEntry>, rt: int, v: Seq<ChainEntry>, vt: int, i: int, j: int)
    requires
        tree_wf(r, rt),
        tree_wf(v, vt),
        embedded(r, v),
        0 <= i < r.len(),
        0 <= j < v.len(),
        v[j] == r[i],
    ensures
        branch(r, i) == branch(v, j),
    decreases height_of(r, i),
{
    if height_of(r, i) == 0 {
        assert(branch(r, i) =~= branch(v, j));
    } else {
        if i == 0 {
            assert(height_of(r, 0) == 0);
        }
        if j == 0 {
            assert(height_of(v, 0) == 0);
        }
        assert(has_parent(r, i));
        assert(has_parent(v, j));
        let p = parent_of(r, i);
        let q = parent_of(v, j);
        assert(exists|k: int| 0 <= k < v.len() && #[trigger] v[k] == r[p]);
        let k = choose|k: int| 0 <= k < v.len() && #[trigger] v[k] == r[p];
        lemma_unique_hash(v, vt, k, q);
        lemma_branch_embedded(r, rt, v, vt, p, q);
        assert(path_to(r, i) == path_to(r, p).push(i));
        assert(path_to(v, j) == path_to(v, q).push(j));
        assert(branch(r, i) =~= branch(r, p).push(r[i]));
        assert(branch(v, j) =~= branch(v, q).push(v[j]));
    }
}

spec fn array_prefix(s: Seq<u8>, k: nat) -> [u8; 32]
    decreases k,
{
    if k == 0 {
        vstd::array::spec_array_fill_for_copy_type::<u8, 32>(0u8)
    } else {
        vstd::array::spec_array_update(array_prefix(s, (k - 1) as nat), k - 1, s[k - 1])
    }
}

proof fn lemma_array_prefix(s: Seq<u8>, k: nat)
    requires
        s.len() == 32,
        k <= 32,
    ensures
        forall|i: int| 0 <= i < k ==> array_prefix(s, k)@[i] == s[i],
    decreases k,
{
    if k > 0 {
        lemma_array_prefix(s, (k - 1) as nat);
    }
}

/// The 32-byte array of a number below `256^32` denotes that number.
proof fn lemma_be_bytes_array(v: nat)
    requires
        v < pow256(32),
    ensures
        be_value(be_bytes_array(v)@) == v,
{
    crate::bytes::lemma_be_bytes_exist(32, v);
    let s = be_bytes(32, v);
    lemma_array_prefix(s, 32);
    let a = array_prefix(s, 32);
    assert(a@ =~= s);
}

/// A block accepted on top of a parent carries more work than the parent.
pub proof fn lemma_appended_work(v: ChainView, h: BlockHeader, txs: Seq<SignedTransaction>)
    requires
        tree_wf(v.entries, v.tip),
        spec_append_error(v, h, txs) is None,
    ensures
        find_entry(v.entries, h.previous_block_hash@) is Some,
        appended_entry(v, h, txs).metadata.cumulative_work.amount() > work_of(
            v.entries,
            find_entry(v.entries, h.previous_block_hash@)->Some_0,
        ),
{
    let p = find_entry(v.entries, h.previous_block_hash@)->Some_0;
    let t = be_value(h.pow_target@);
    lemma_be_value_bound(h.pow_target@);
    crate::pow::lemma_target_work_positive(t);
    lemma_be_bytes_array(work_of(v.entries, p) + spec_target_work(t));
}

/// A block of `v` whose parent is already in `r`, where every block of `r`
/// is one of `v`, is accepted by `r` and indexed there exactly as in `v`.
pub proof fn lemma_replay_step(r: ChainView, v: ChainView, j: int)
    requires
        tree_wf(r.entries, r.tip),
        tree_valid(v),
        r.chain_id == v.chain_id,
        r.pow_target == v.pow_target,
        embedded(r.entries, v.entries),
        0 < j < v.entries.len(),
        find_entry(r.entries, v.entries[j].metadata.parent@) is Some,
    ensures
        spec_append_error(r, v.entries[j].header, v.entries[j].transactions) is None,
        appended_entry(r, v.entries[j].header, v.entries[j].transactions) == v.entries[j],
        spec_block_hash(v.entries[j].header) == v.entries[j].hash,
{
    reveal(tree_valid);
    let e = v.entries;
    let x = e[j];
    let h = x.header;
    assert(entry_valid(v, j));
    assert(x.metadata.parent@ == h.previous_block_hash@);
    let pr = find_entry(r.entries, h.previous_block_hash@)->Some_0;
    assert(0 <= pr < r.entries.len() && r.entries[pr].hash == h.previous_block_hash@);
    assert(exists|k: int| 0 <= k < e.len() && #[trigger] e[k] == r.entries[pr]);
    let k = choose|k: int| 0 <= k < e.len() && #[trigger] e[k] == r.entries[pr];
    assert(e[k].hash == h.previous_block_hash@);
    let pv = find_entry(e, h.previous_block_hash@)->Some_0;
    assert(0 <= pv < e.len() && e[pv].hash == h.previous_block_hash@);
    lemma_unique_hash(e, v.tip, k, pv);
    lemma_branch_embedded(r.entries, r.tip, e, v.tip, pr, pv);
    lemma_append_by_branch(v, r, h, x.transactions);
}

/// A hash is indexed after a push exactly when it was indexed before or is
/// the pushed block's.
pub proof fn lemma_find_entry_push_any(e: Seq<ChainEntry>, x: ChainEntry, h: Seq<u8>)
    ensures
        find_entry(e.push(x), h) is Some <==> (find_entry(e, h) is Some || x.hash == h),
{
    let e2 = e.push(x);
    if find_entry(e, h) is Some {
        let i = choose|i: int| 0 <= i < e.len() && #[trigger] e[i].hash == h;
        assert(e2[i].hash == h);
    }
    if x.hash == h {
        assert(e2[e.len() as int].hash == h);
    }
    if find_entry(e2, h) is Some {
        let i = choose|i: int| 0 <= i < e2.len() && #[trigger] e2[i].hash == h;
        if i < e.len() {
            assert(e[i].hash == h);
        }
    }
}

} // verus!
