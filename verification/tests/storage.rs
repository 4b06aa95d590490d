use blockguard::block::{Block, BlockHeader};
use blockguard::chain::Blockchain;
use blockguard::genesis::{GenesisAllocation, GenesisConfig, GenesisConfigError};
use blockguard::hash::{block_hash, derive_address, merkle_root};
use blockguard::keys::{KeyPair, sign_transaction};
use blockguard::pow::mine_header;
use blockguard::state::State;
use blockguard::storage::{STORAGE_MAGIC, STORAGE_VERSION, StorageError, decode_and_validate, encode};
use blockguard::transaction::{SignedTransaction, UnsignedTransaction};
use blockguard::types::{
    Address, Amount, BlockHash, BlockTimestamp, BlockVersion, ChainId, Nonce, PowNonce, PowTarget,
    TransactionVersion,
};


fn key(byte: u8) -> KeyPair {
    KeyPair::from_private_key_bytes([byte; 32]).unwrap()
}

fn transfer(sender: &KeyPair, recipient: Address, amount: u64, nonce: u64) -> SignedTransaction {
    sign_transaction(
        sender,
        UnsignedTransaction::new(
            TransactionVersion::v1(),
            ChainId::new(1),
            sender.public_key(),
            recipient,
            Amount::new(amount),
            Nonce::new(nonce),
        ),
    )
    .unwrap()
}

fn config() -> GenesisConfig {
    let alice = key(1);
    let bob = key(2);
    let charlie = key(3);
    GenesisConfig::new(
        ChainId::new(1),
        BlockTimestamp::new(1_700_000_000),
        PowTarget::max(),
        vec![
            GenesisAllocation::new(
                derive_address(&alice.public_key()),
                Amount::new(1000),
                Nonce::zero(),
            ),
            GenesisAllocation::new(derive_address(&bob.public_key()), Amount::zero(), Nonce::zero()),
            GenesisAllocation::new(
                derive_address(&charlie.public_key()),
                Amount::zero(),
                Nonce::zero(),
            ),
        ],
    )
    .unwrap()
}

fn block_after(
    parent: &Block,
    parent_state: &State,
    transactions: Vec<SignedTransaction>,
    timestamp: u64,
) -> (Block, State) {
    let mut state = parent_state.clone();
    for transaction in &transactions {
        state.apply_transaction(transaction).unwrap();
    }
    let header = BlockHeader::new(
        BlockVersion::v1(),
        ChainId::new(1),
        parent.header().height().checked_increment().unwrap(),
        block_hash(parent.header()),
        merkle_root(&transactions),
        state.state_root(),
        parent.header().pow_target(),
        BlockTimestamp::new(timestamp),
        PowNonce::zero(),
    );
    let (header, _) = mine_header(header, &PowTarget::max()).unwrap();
    (Block::new(header, transactions), state)
}

fn forked_chain() -> (GenesisConfig, Blockchain, BlockHash) {
    let config = config();
    let genesis = config.genesis_block();
    let genesis_state = config.initial_state();
    let alice = key(1);
    let bob = key(2);
    let charlie = key(3);
    let bob_address = derive_address(&bob.public_key());
    let charlie_address = derive_address(&charlie.public_key());
    let mut chain = Blockchain::from_genesis_config(&config).unwrap();

    let (block_a, _) = block_after(
        &genesis,
        &genesis_state,
        vec![transfer(&alice, bob_address, 100, 0)],
        1_700_000_010,
    );
    let block_a_hash = chain.append_block(block_a).unwrap();
    let (block_b, state_b) = block_after(
        &genesis,
        &genesis_state,
        vec![transfer(&alice, charlie_address, 200, 0)],
        1_700_000_011,
    );
    let block_b_parent = block_b.clone();
    chain.append_block(block_b).unwrap();
    let (block_c, _) = block_after(
        &block_b_parent,
        &state_b,
        vec![transfer(&charlie, bob_address, 50, 0)],
        1_700_000_020,
    );
    chain.append_block(block_c).unwrap();
    (config, chain, block_a_hash)
}

#[test]
fn round_trip_preserves_forks_tip_state_and_can_continue() {
    let (config, chain, side_branch_hash) = forked_chain();
    let expected_tip = chain.canonical_tip_hash();

    let stored = encode(&config, &chain);
    let loaded = decode_and_validate(&stored).unwrap();
    let (_, mut restored) = loaded.into_parts();

    assert_eq!(restored.canonical_tip_hash(), expected_tip);
    assert_eq!(restored.indexed_block_count(), 4);
    assert!(restored.block(&side_branch_hash).is_some());

    let alice = key(1);
    let bob = key(2);
    let charlie = key(3);
    let alice_address = derive_address(&alice.public_key());
    let bob_address = derive_address(&bob.public_key());
    let charlie_address = derive_address(&charlie.public_key());
    assert_eq!(
        restored.state().balance(&alice_address).unwrap(),
        Amount::new(800)
    );
    assert_eq!(
        restored.state().balance(&bob_address).unwrap(),
        Amount::new(50)
    );
    assert_eq!(
        restored.state().balance(&charlie_address).unwrap(),
        Amount::new(150)
    );
    assert_eq!(
        restored.state().nonce(&alice_address).unwrap(),
        Nonce::new(1)
    );
    assert_eq!(
        restored.state().nonce(&charlie_address).unwrap(),
        Nonce::new(1)
    );

    let (next, _) = block_after(
        restored.tip(),
        restored.state(),
        vec![transfer(&bob, alice_address, 10, 0)],
        1_700_000_030,
    );
    let next_hash = restored.append_block(next).unwrap();
    assert_eq!(restored.canonical_tip_hash(), next_hash);
}

#[test]
fn corrupted_data_is_rejected() {
    let config = config();
    let chain = Blockchain::from_genesis_config(&config).unwrap();
    let mut bytes = encode(&config, &chain);
    bytes[0] ^= 0xff;

    assert!(decode_and_validate(&bytes).is_err());
}

#[test]
fn obsolete_storage_version_is_rejected() {
    let config = config();
    let chain = Blockchain::from_genesis_config(&config).unwrap();
    let mut bytes = encode(&config, &chain);
    bytes[..8].copy_from_slice(b"BGSTORE1");
    bytes[8..10].copy_from_slice(&1u16.to_be_bytes());
    assert!(decode_and_validate(&bytes).is_err());
}

#[test]
fn round_trip_preserves_adjusted_targets_and_work() {
    let config = config();
    let mut chain = Blockchain::from_genesis_config(&config).unwrap();
    for timestamp in 1_700_000_001..=1_700_000_010 {
        let parent = chain.tip().clone();
        let target = chain.next_pow_target().unwrap();
        let transactions = vec![];
        let header = BlockHeader::new(
            BlockVersion::v1(),
            ChainId::new(1),
            parent.header().height().checked_increment().unwrap(),
            block_hash(parent.header()),
            merkle_root(&transactions),
            chain.state().state_root(),
            target,
            BlockTimestamp::new(timestamp),
            PowNonce::zero(),
        );
        let (header, _) = mine_header(header, &target).unwrap();
        chain
            .append_block(Block::new(header, transactions))
            .unwrap();
    }
    let expected_target = chain.tip().header().pow_target();
    let expected_work = chain
        .metadata(&chain.canonical_tip_hash())
        .unwrap()
        .cumulative_work();
    let stored = encode(&config, &chain);
    let (_, restored) = decode_and_validate(&stored).unwrap().into_parts();
    assert_eq!(restored.tip().header().pow_target(), expected_target);
    assert_eq!(
        restored
            .metadata(&restored.canonical_tip_hash())
            .unwrap()
            .cumulative_work(),
        expected_work
    );
    assert_eq!(
        restored.next_pow_target().unwrap(),
        chain.next_pow_target().unwrap()
    );
}

/// The stored form of the genesis-only chain of `config()`: three
/// allocations, then one record of 386 bytes starting at offset 210.
fn genesis_only_bytes() -> Vec<u8> {
    let config = config();
    let chain = Blockchain::from_genesis_config(&config).unwrap();
    let bytes = encode(&config, &chain);
    assert_eq!(bytes.len(), 596);
    bytes
}

fn refusal(bytes: &[u8]) -> StorageError {
    match decode_and_validate(bytes) {
        Ok(_) => panic!("stored data was accepted"),
        Err(e) => e,
    }
}

#[test]
fn huge_allocation_count_without_data_is_truncated() {
    let mut bytes = STORAGE_MAGIC.to_vec();
    bytes.extend_from_slice(&STORAGE_VERSION.to_be_bytes());
    bytes.extend_from_slice(&[0, 0, 0, 1]);
    bytes.extend_from_slice(&[0u8; 8]);
    bytes.extend_from_slice(&[0xff; 32]);
    bytes.extend_from_slice(&[0xff; 8]);
    assert_eq!(bytes.len(), 62);
    assert_eq!(refusal(&bytes), StorageError::InvalidData("truncated data"));
}

#[test]
fn short_header_is_truncated() {
    let bytes = genesis_only_bytes();
    assert_eq!(refusal(&bytes[..5]), StorageError::InvalidData("truncated data"));
    assert_eq!(refusal(&bytes[..40]), StorageError::InvalidData("truncated data"));
    assert_eq!(refusal(&bytes[..500]), StorageError::InvalidData("truncated data"));
}

#[test]
fn wrong_magic_and_version_are_named() {
    let mut bytes = genesis_only_bytes();
    bytes[9] ^= 1;
    assert_eq!(refusal(&bytes), StorageError::InvalidData("unsupported version"));
    bytes[0] ^= 1;
    assert_eq!(refusal(&bytes), StorageError::InvalidData("wrong magic"));
}

#[test]
fn stored_node_without_blocks_is_rejected() {
    let bytes = genesis_only_bytes();
    let mut empty = bytes[..202].to_vec();
    empty.extend_from_slice(&0u64.to_be_bytes());
    assert_eq!(refusal(&empty), StorageError::InvalidData("no blocks"));
}

#[test]
fn trailing_byte_is_rejected() {
    let mut bytes = genesis_only_bytes();
    bytes.push(0);
    assert_eq!(refusal(&bytes), StorageError::InvalidData("trailing bytes"));
}

#[test]
fn stored_hash_that_is_not_the_headers_is_rejected() {
    let mut bytes = genesis_only_bytes();
    bytes[210] ^= 1;
    assert_eq!(refusal(&bytes), StorageError::InvalidData("block hash mismatch"));
}

#[test]
fn stored_state_that_is_not_the_headers_is_rejected() {
    let mut bytes = genesis_only_bytes();
    // the last byte of the first stored account's balance
    bytes[488 + 27] ^= 1;
    assert_eq!(refusal(&bytes), StorageError::InvalidData("stored state root mismatch"));
}

#[test]
fn record_stored_twice_is_rejected() {
    let bytes = genesis_only_bytes();
    let mut twice = bytes[..202].to_vec();
    twice.extend_from_slice(&2u64.to_be_bytes());
    twice.extend_from_slice(&bytes[210..]);
    twice.extend_from_slice(&bytes[210..]);
    assert_eq!(refusal(&twice), StorageError::InvalidData("duplicate block"));
}

#[test]
fn stored_state_with_an_address_twice_is_rejected() {
    let mut bytes = genesis_only_bytes();
    let first: Vec<u8> = bytes[488..508].to_vec();
    bytes[524..544].copy_from_slice(&first);
    assert_eq!(refusal(&bytes), StorageError::InvalidData("duplicate state account"));
}

#[test]
fn stored_allocations_sharing_an_address_are_rejected() {
    let mut bytes = genesis_only_bytes();
    let mut first = [0u8; 20];
    first.copy_from_slice(&bytes[62..82]);
    bytes[98..118].copy_from_slice(&first);
    assert_eq!(
        refusal(&bytes),
        StorageError::Genesis(GenesisConfigError::DuplicateAllocation(Address::from_bytes(first)))
    );
}
