#![allow(unused_imports)]
use blockguard::block::{Block, BlockHeader};
use blockguard::chain::Blockchain;
use blockguard::fork::{BlockMetadata, ChainError, ChainWork, candidate_is_better, next_chain_work};
use blockguard::genesis::{GenesisAllocation, GenesisConfig};
use blockguard::hash::{block_hash, derive_address, merkle_root, transaction_id};
use blockguard::keys::{KeyPair, sign_transaction, verify_transaction_signature};
use blockguard::mempool::{Mempool, MempoolError};
use blockguard::pow::{
    DIFFICULTY_ADJUSTMENT_INTERVAL, EXPECTED_TIMESPAN, adjusted_target, mine_header, target_work, validate_pow,
};
use blockguard::state::{Account, State, StateError};
use blockguard::transaction::{SignedTransaction, UnsignedTransaction};
use blockguard::types::{
    Address, Amount, BlockHash, BlockHeight, BlockTimestamp, BlockVersion, ChainId, Hash256, MerkleRoot, Nonce,
    PowNonce, PowTarget, PublicKeyBytes, SignatureBytes, StateRoot, TransactionId, TransactionVersion,
};


fn test_target() -> PowTarget {
    let mut bytes = [0xff; 32];

    bytes[0] = 0x00;

    PowTarget::from_bytes(bytes)
}

#[test]
fn mining_produces_valid_proof_of_work() {
    let header = BlockHeader::new(
        BlockVersion::v1(),
        ChainId::new(1),
        BlockHeight::new(1),
        BlockHash::zero(),
        MerkleRoot::zero(),
        StateRoot::zero(),
        test_target(),
        BlockTimestamp::new(1_700_000_000),
        PowNonce::zero(),
    );

    let target = test_target();

    let (mined_header, _hash) = mine_header(header, &target).unwrap();

    assert!(validate_pow(&mined_header));
}

#[test]
fn target_adjustment_clamps_fast_and_slow_intervals() {
    let old = PowTarget::from_bytes([0x40; 32]);
    assert_eq!(
        adjusted_target(old, 0, PowTarget::max()),
        adjusted_target(old, EXPECTED_TIMESPAN / 4, PowTarget::max())
    );
    assert_eq!(
        adjusted_target(old, u64::MAX, PowTarget::max()),
        adjusted_target(old, EXPECTED_TIMESPAN * 4, PowTarget::max())
    );
}

#[test]
fn fast_intervals_harden_and_slow_intervals_ease_target() {
    let old = PowTarget::from_bytes([0x40; 32]);
    let fast = adjusted_target(old, EXPECTED_TIMESPAN / 2, PowTarget::max());
    let slow = adjusted_target(old, EXPECTED_TIMESPAN * 2, PowTarget::max());
    assert!(fast.as_bytes() < old.as_bytes());
    assert!(slow.as_bytes() > old.as_bytes());
}

#[test]
fn target_adjustment_obeys_pow_limit() {
    let limit = PowTarget::from_bytes([0x7f; 32]);
    assert_eq!(adjusted_target(limit, EXPECTED_TIMESPAN * 4, limit), limit);
}

#[test]
fn harder_targets_have_more_deterministic_work() {
    let easy = target_work(PowTarget::max());
    let hard_target = PowTarget::from_bytes([0x3f; 32]);
    let hard = target_work(hard_target);
    assert!(hard.as_bytes() > easy.as_bytes());
    assert_eq!(hard, target_work(hard_target));
    assert_eq!(easy.as_bytes()[31], 1);
}
