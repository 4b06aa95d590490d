//! Blocks and block headers.
use vstd::prelude::*;
use crate::types::{BlockHash, BlockHeight, BlockTimestamp, BlockVersion, ChainId, MerkleRoot, PowNonce, PowTarget, StateRoot};
use crate::transaction::SignedTransaction;

verus! {

/// The fields of a block that its hash commits to.
#[derive(Debug, Clone, Copy, PartialEq, Eq)]
pub struct BlockHeader {
    pub version: BlockVersion,
    pub chain_id: ChainId,
    pub height: BlockHeight,
    pub previous_block_hash: BlockHash,
    pub transaction_root: MerkleRoot,
    pub state_root: StateRoot,
    pub pow_target: PowTarget,
    pub timestamp: BlockTimestamp,
    pub pow_nonce: PowNonce,
}

impl BlockHeader {
    pub fn new(
        version: BlockVersion,
        chain_id: ChainId,
        height: BlockHeight,
        previous_block_hash: BlockHash,
        transaction_root: MerkleRoot,
        state_root: StateRoot,
        pow_target: PowTarget,
        timestamp: BlockTimestamp,
        pow_nonce: PowNonce,
    ) -> (h: Self)
        ensures
            h == (BlockHeader {
                version,
                chain_id,
                height,
                previous_block_hash,
                transaction_root,
                state_root,
                pow_target,
                timestamp,
                pow_nonce,
            }),
    {
        BlockHeader {
            version,
            chain_id,
            height,
            previous_block_hash,
            transaction_root,
            state_root,
            pow_target,
            timestamp,
            pow_nonce,
        }
    }

    pub fn version(&self) -> (r: BlockVersion)
        ensures
            r == self.version,
    {
        self.version
    }

    pub fn chain_id(&self) -> (r: ChainId)
        ensures
            r == self.chain_id,
    {
        self.chain_id
    }

    pub fn height(&self) -> (r: BlockHeight)
        ensures
            r == self.height,
    {
        self.height
    }

    pub fn previous_block_hash(&self) -> (r: BlockHash)
        ensures
            r == self.previous_block_hash,
    {
        self.previous_block_hash
    }

    pub fn transaction_root(&self) -> (r: MerkleRoot)
        ensures
            r == self.transaction_root,
    {
        self.transaction_root
    }

    pub fn state_root(&self) -> (r: StateRoot)
        ensures
            r == self.state_root,
    {
        self.state_root
    }

    pub fn pow_target(&self) -> (r: PowTarget)
        ensures
            r == self.pow_target,
    {
        self.pow_target
    }

    pub fn timestamp(&self) -> (r: BlockTimestamp)
        ensures
            r == self.timestamp,
    {
        self.timestamp
    }

    pub fn pow_nonce(&self) -> (r: PowNonce)
        ensures
            r == self.pow_nonce,
    {
        self.pow_nonce
    }

    pub fn set_pow_nonce(&mut self, pow_nonce: PowNonce)
        ensures
            *final(self) == (BlockHeader { pow_nonce, ..*old(self) }),
    {
        self.pow_nonce = pow_nonce;
    }
}

/// A header and the transactions it commits to.
#[derive(Debug, Clone, PartialEq, Eq)]
pub struct Block {
    pub header: BlockHeader,
    pub transactions: Vec<SignedTransaction>,
}

impl Block {
    pub fn new(header: BlockHeader, transactions: Vec<SignedTransaction>) -> (b: Self)
        ensures
            b.header == header,
            b.transactions@ == transactions@,
    {
        Block { header, transactions }
    }

    pub fn header(&self) -> (r: &BlockHeader)
        ensures
            *r == self.header,
    {
        &self.header
    }

    pub fn transactions(&self) -> (r: &[SignedTransaction])
        ensures
            r@ == self.transactions@,
    {
        self.transactions.as_slice()
    }

    pub fn transaction_count(&self) -> (n: usize)
        ensures
            n == self.transactions@.len(),
    {
        self.transactions.len()
    }

    /// A copy of this block with the same header and transactions.
    pub fn duplicate(&self) -> (b: Self)
        ensures
            b.header == self.header,
            b.transactions@ == self.transactions@,
    {
        Block { header: self.header, transactions: copy_transactions(&self.transactions) }
    }
}

/// A copy of a list of transactions.
pub fn copy_transactions(txs: &[SignedTransaction]) -> (r: Vec<SignedTransaction>)
    ensures
        r@ == txs@,
{
    let mut r: Vec<SignedTransaction> = Vec::new();
    let mut i: usize = 0;
    while i < txs.len()
        invariant
            i <= txs@.len(),
            r@ == txs@.subrange(0, i as int),
        decreases txs@.len() - i,
    {
        r.push(txs[i]);
        i += 1;
        assert(r@ =~= txs@.subrange(0, i as int));
    }
    assert(txs@.subrange(0, txs@.len() as int) =~= txs@);
    r
}

} // verus!
