#![allow(unused_imports)]
use blockguard::block::{Block, BlockHeader};
use blockguard::chain::Blockchain;
use blockguard::fork::{BlockMetadata, ChainError, ChainWork, candidate_is_better, next_chain_work};
use blockguard::genesis::{GenesisAllocation, GenesisConfig};
use blockguard::hash::{block_hash, derive_address, merkle_root, transaction_id};
use blockguard::keys::{KeyPair, sign_transaction, verify_transaction_signature};
use blockguard::mempool::{Mempool, MempoolError};
use blockguard::pow::{
    DIFFICULTY_ADJUSTMENT_INTERVAL, EXPECTED_TIMESPAN, adjusted_target, mine_header, target_work, validate_pow,
};
use blockguard::state::{Account, State, StateError};
use blockguard::transaction::{SignedTransaction, UnsignedTransaction};
use blockguard::types::{
    Address, Amount, BlockHash, BlockHeight, BlockTimestamp, BlockVersion, ChainId, Hash256, MerkleRoot, Nonce,
    PowNonce, PowTarget, PublicKeyBytes, SignatureBytes, StateRoot, TransactionId, TransactionVersion,
};


#[test]
fn chain_work_accumulates_per_block() {
    let genesis_work = ChainWork::zero();

    let unit = target_work(PowTarget::max());
    let block_a_work = next_chain_work(genesis_work, unit).unwrap();

    let block_b_work = next_chain_work(block_a_work, unit).unwrap();

    assert_eq!(block_a_work, ChainWork::from_u64(1),);

    assert_eq!(block_b_work, ChainWork::from_u64(2),);
}

#[test]
fn branch_with_more_work_is_preferred() {
    let current = BlockMetadata::new(BlockHash::zero(), BlockHeight::new(2), ChainWork::from_u64(2));

    let candidate =
        BlockMetadata::new(BlockHash::zero(), BlockHeight::new(3), ChainWork::from_u64(3));

    assert!(candidate_is_better(&current, &candidate,));
}

#[test]
fn equal_work_does_not_replace_current_tip() {
    let current = BlockMetadata::new(BlockHash::zero(), BlockHeight::new(2), ChainWork::from_u64(2));

    let candidate =
        BlockMetadata::new(BlockHash::zero(), BlockHeight::new(2), ChainWork::from_u64(2));

    assert!(!candidate_is_better(&current, &candidate,));
}
