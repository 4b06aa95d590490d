use blockguard::block::{Block, BlockHeader};
use blockguard::chain::Blockchain;
use blockguard::fork::{ChainError, ChainWork};
use blockguard::genesis::{GenesisAllocation, GenesisConfig, GenesisConfigError};
use blockguard::hash::{block_hash, derive_address, merkle_root, sha256, transaction_id};
use blockguard::keys::{CryptoError, KeyPair, sign_transaction, verify_transaction_signature};
use blockguard::mempool::{Mempool, MempoolError};
use blockguard::network::{Message, NetworkError};
use blockguard::node::{KnownTransactions, Node, NodeError, PeerAction};
use blockguard::pow::{PowError, adjusted_target, mine_header, target_work};
use blockguard::state::{Account, State, StateError};
use blockguard::storage::{StorageError, checked_encode, decode_and_validate, encode};
use blockguard::transaction::{SignedTransaction, UnsignedTransaction};
use blockguard::types::{
    Address, Amount, BlockHash, BlockHeight, BlockTimestamp, BlockVersion, ChainId, Nonce, PowNonce, PowTarget,
    PublicKeyBytes, TransactionVersion,
};

fn key(byte: u8) -> KeyPair {
    KeyPair::from_private_key_bytes([byte; 32]).unwrap()
}
fn address(key: &KeyPair) -> Address {
    derive_address(&key.public_key())
}
fn transfer(sender: &KeyPair, recipient: Address, amount: u64, nonce: u64) -> SignedTransaction {
    sign_transaction(
        sender,
        UnsignedTransaction::new(
            TransactionVersion::v1(),
            ChainId::new(1),
            sender.public_key(),
            recipient,
            Amount::new(amount),
            Nonce::new(nonce),
        ),
    )
    .unwrap()
}
fn config() -> GenesisConfig {
    GenesisConfig::new(
        ChainId::new(1),
        BlockTimestamp::new(100),
        PowTarget::max(),
        vec![
            GenesisAllocation::new(address(&key(1)), Amount::new(100), Nonce::zero()),
            GenesisAllocation::new(address(&key(2)), Amount::new(100), Nonce::zero()),
        ],
    )
    .unwrap()
}
fn child(parent: &Block, state: &State, transactions: Vec<SignedTransaction>, timestamp: u64) -> Block {
    let mut next = state.clone();
    for tx in &transactions {
        next.apply_transaction(tx).unwrap();
    }
    let header = BlockHeader::new(
        BlockVersion::v1(),
        ChainId::new(1),
        parent.header().height().checked_increment().unwrap(),
        block_hash(parent.header()),
        merkle_root(&transactions),
        next.state_root(),
        parent.header().pow_target(),
        BlockTimestamp::new(timestamp),
        PowNonce::zero(),
    );
    let (header, _) = mine_header(header, &PowTarget::max()).unwrap();
    Block::new(header, transactions)
}

#[test]
fn sha256_of_abc_is_the_standard_digest() {
    let digest = sha256(b"abc");
    assert_eq!(
        digest.as_bytes(),
        &[
            0xba, 0x78, 0x16, 0xbf, 0x8f, 0x01, 0xcf, 0xea, 0x41, 0x41, 0x40, 0xde, 0x5d, 0xae, 0x22, 0x23, 0xb0,
            0x03, 0x61, 0xa3, 0x96, 0x17, 0x7a, 0x9c, 0xb4, 0x10, 0xff, 0x61, 0xf2, 0x00, 0x15, 0xad
        ]
    );
}

#[test]
fn public_key_of_secret_one_is_the_generator() {
    let mut secret = [0u8; 32];
    secret[31] = 1;
    let public_key = KeyPair::from_private_key_bytes(secret).unwrap().public_key();
    assert_eq!(
        public_key.as_bytes(),
        &[
            0x02, 0x79, 0xbe, 0x66, 0x7e, 0xf9, 0xdc, 0xbb, 0xac, 0x55, 0xa0, 0x62, 0x95, 0xce, 0x87, 0x0b, 0x07,
            0x02, 0x9b, 0xfc, 0xdb, 0x2d, 0xce, 0x28, 0xd9, 0x59, 0xf2, 0x81, 0x5b, 0x16, 0xf8, 0x17, 0x98
        ]
    );
}

#[test]
fn zero_secret_is_rejected() {
    assert!(matches!(KeyPair::from_private_key_bytes([0; 32]), Err(CryptoError::InvalidPrivatKey)));
}

#[test]
fn signed_transfer_verifies_and_signature_is_low_s() {
    let tx = transfer(&key(1), address(&key(2)), 5, 0);
    assert!(verify_transaction_signature(&tx).is_ok());
    assert!(tx.signature().as_bytes()[32] < 0x80);
}

#[test]
fn target_work_of_the_easiest_target_is_one() {
    let work = target_work(PowTarget::max());
    let mut expected = [0u8; 32];
    expected[31] = 1;
    assert_eq!(work.as_bytes(), &expected);
    let mut half = [0xff; 32];
    half[0] = 0x7f;
    assert_eq!(target_work(PowTarget::from_bytes(half)).as_bytes()[31], 2);
}

#[test]
fn adjusted_target_scales_by_the_clamped_timespan() {
    let mut old = [0u8; 32];
    old[31] = 100;
    let halved = adjusted_target(PowTarget::from_bytes(old), 50, PowTarget::max());
    assert_eq!(halved.as_bytes()[31], 50);
    let quartered = adjusted_target(PowTarget::from_bytes(old), 1, PowTarget::max());
    assert_eq!(quartered.as_bytes()[31], 25);
}

#[test]
fn chain_work_from_u64_keeps_the_value() {
    assert_eq!(ChainWork::from_u64(77).value(), 77);
    assert_eq!(ChainWork::zero().value(), 0);
    assert!(ChainWork::from_bytes([0xff; 32]).checked_add(ChainWork::from_u64(1)).is_none());
}

#[test]
fn duplicate_genesis_allocation_names_the_address() {
    let a = Address::from_bytes([5; 20]);
    let result = GenesisConfig::new(
        ChainId::new(1),
        BlockTimestamp::new(0),
        PowTarget::max(),
        vec![
            GenesisAllocation::new(a, Amount::new(1), Nonce::zero()),
            GenesisAllocation::new(a, Amount::new(2), Nonce::zero()),
        ],
    );
    assert!(matches!(result, Err(GenesisConfigError::DuplicateAllocation(x)) if x == a));
}

#[test]
fn genesis_allocations_are_kept_ascending() {
    let cfg = GenesisConfig::new(
        ChainId::new(1),
        BlockTimestamp::new(0),
        PowTarget::max(),
        vec![
            GenesisAllocation::new(Address::from_bytes([9; 20]), Amount::new(1), Nonce::zero()),
            GenesisAllocation::new(Address::from_bytes([3; 20]), Amount::new(2), Nonce::zero()),
        ],
    )
    .unwrap();
    assert_eq!(cfg.allocations()[0].address(), Address::from_bytes([3; 20]));
    assert_eq!(cfg.allocations()[1].address(), Address::from_bytes([9; 20]));
}

#[test]
fn reappending_an_indexed_block_changes_nothing() {
    let cfg = config();
    let mut chain = Blockchain::from_genesis_config(&cfg).unwrap();
    let block = child(chain.tip(), chain.state(), vec![], 101);
    let first = chain.append_block(block.clone()).unwrap();
    let second = chain.append_block(block).unwrap();
    assert_eq!(first, second);
    assert_eq!(chain.indexed_block_count(), 2);
    assert_eq!(chain.block_count(), 2);
}

#[test]
fn wrong_chain_block_is_rejected() {
    let cfg = config();
    let mut chain = Blockchain::from_genesis_config(&cfg).unwrap();
    let mut block = child(chain.tip(), chain.state(), vec![], 101);
    block.header.chain_id = ChainId::new(2);
    assert_eq!(chain.append_block(block), Err(ChainError::WrongChainId));
}

#[test]
fn block_with_wrong_height_is_rejected() {
    let cfg = config();
    let mut chain = Blockchain::from_genesis_config(&cfg).unwrap();
    let mut block = child(chain.tip(), chain.state(), vec![], 101);
    block.header.height = BlockHeight::new(5);
    assert_eq!(chain.append_block(block), Err(ChainError::InvalidHeight));
}

#[test]
fn block_without_proof_of_work_is_rejected() {
    let mut hard = [0u8; 32];
    hard[31] = 1;
    let target = PowTarget::from_bytes(hard);
    let cfg = GenesisConfig::new(ChainId::new(1), BlockTimestamp::new(100), target, vec![]).unwrap();
    let mut chain = Blockchain::from_genesis_config(&cfg).unwrap();
    let parent = chain.tip().clone();
    let header = BlockHeader::new(
        BlockVersion::v1(),
        ChainId::new(1),
        BlockHeight::new(1),
        block_hash(parent.header()),
        merkle_root(&[]),
        chain.state().state_root(),
        target,
        BlockTimestamp::new(101),
        PowNonce::zero(),
    );
    assert_eq!(chain.append_block(Block::new(header, vec![])), Err(ChainError::InvalidProofOfWork));
    assert_eq!(chain.indexed_block_count(), 1);
}

#[test]
fn transaction_root_must_match_the_transactions() {
    let cfg = config();
    let mut chain = Blockchain::from_genesis_config(&cfg).unwrap();
    let mut forged = child(chain.tip(), chain.state(), vec![], 101);
    forged.header.transaction_root = merkle_root(&[transfer(&key(1), address(&key(2)), 1, 0)]);
    assert_eq!(chain.append_block(forged), Err(ChainError::InvalidMerkleRoot));
}

#[test]
fn insufficient_balance_in_block_is_a_state_error() {
    let cfg = config();
    let mut chain = Blockchain::from_genesis_config(&cfg).unwrap();
    let tx = transfer(&key(1), address(&key(2)), 1000, 0);
    let parent = chain.tip().clone();
    let header = BlockHeader::new(
        BlockVersion::v1(),
        ChainId::new(1),
        BlockHeight::new(1),
        block_hash(parent.header()),
        merkle_root(&[tx]),
        chain.state().state_root(),
        PowTarget::max(),
        BlockTimestamp::new(101),
        PowNonce::zero(),
    );
    let (header, _) = mine_header(header, &PowTarget::max()).unwrap();
    assert_eq!(
        chain.append_block(Block::new(header, vec![tx])),
        Err(ChainError::State(StateError::InsufficientBalance))
    );
}

#[test]
fn nonce_gap_is_rejected_by_the_pool() {
    let mut state = State::new();
    state.set_account(address(&key(1)), Account::new(Amount::new(100), Nonce::zero()));
    let mut pool = Mempool::new(ChainId::new(1));
    assert_eq!(
        pool.admit_transaction(transfer(&key(1), address(&key(2)), 1, 1), &state),
        Err(MempoolError::NonceGap)
    );
    assert!(pool.is_empty());
}

#[test]
fn transfer_from_unknown_sender_is_rejected_by_the_pool() {
    let state = State::new();
    let mut pool = Mempool::new(ChainId::new(1));
    assert_eq!(
        pool.admit_transaction(transfer(&key(1), address(&key(2)), 1, 0), &state),
        Err(MempoolError::SenderAccountNotFound)
    );
}

#[test]
fn unaffordable_queue_is_an_impossible_spend() {
    let mut state = State::new();
    state.set_account(address(&key(1)), Account::new(Amount::new(10), Nonce::zero()));
    let mut pool = Mempool::new(ChainId::new(1));
    pool.admit_transaction(transfer(&key(1), address(&key(2)), 8, 0), &state).unwrap();
    assert_eq!(
        pool.admit_transaction(transfer(&key(1), address(&key(2)), 8, 1), &state),
        Err(MempoolError::ImpossibleSpend(StateError::InsufficientBalance))
    );
}

#[test]
fn pool_of_another_chain_refuses_the_transfer() {
    let mut pool = Mempool::new(ChainId::new(9));
    assert_eq!(
        pool.admit_transaction(transfer(&key(1), address(&key(2)), 1, 0), &State::new()),
        Err(MempoolError::WrongChainId)
    );
}

#[test]
fn candidates_stop_at_the_requested_count_and_apply_in_order() {
    let mut state = State::new();
    state.set_account(address(&key(1)), Account::new(Amount::new(100), Nonce::zero()));
    let mut pool = Mempool::new(ChainId::new(1));
    for nonce in 0..3 {
        pool.admit_transaction(transfer(&key(1), address(&key(2)), 10, nonce), &state).unwrap();
    }
    let chosen = pool.candidates(&state, 2);
    assert_eq!(chosen.len(), 2);
    let mut trial = state.clone();
    for tx in &chosen {
        trial.apply_transaction(tx).unwrap();
    }
    assert_eq!(pool.candidates(&state, 0).len(), 0);
}

#[test]
fn node_answers_ping_and_tip_requests() {
    let mut node = Node::new(config()).unwrap();
    let mut known = KnownTransactions::new();
    match node.handle_message(&mut known, Message::Ping(42)) {
        PeerAction::Reply(messages) => assert_eq!(messages, vec![Message::Pong(42)]),
        _ => panic!("a ping is answered"),
    }
    let tip_hash = node.blockchain().canonical_tip_hash();
    match node.handle_message(&mut known, Message::GetTip) {
        PeerAction::Reply(messages) => {
            assert_eq!(messages, vec![Message::Tip { height: BlockHeight::new(0), block_hash: tip_hash }])
        }
        _ => panic!("the tip is reported"),
    }
    match node.handle_message(
        &mut known,
        Message::Tip { height: BlockHeight::new(3), block_hash: BlockHash::zero() },
    ) {
        PeerAction::Reply(messages) => {
            assert_eq!(messages, vec![Message::GetBlocks { start_height: BlockHeight::new(1) }])
        }
        _ => panic!("a peer ahead is asked for blocks"),
    }
    assert!(matches!(node.handle_message(&mut known, Message::Pong(1)), PeerAction::Nothing));
}

#[test]
fn node_relays_a_new_transaction_once() {
    let mut node = Node::new(config()).unwrap();
    let mut known = KnownTransactions::new();
    let tx = transfer(&key(1), address(&key(2)), 5, 0);
    assert!(matches!(
        node.handle_message(&mut known, Message::Transaction(tx)),
        PeerAction::Relay(Message::Transaction(_))
    ));
    assert!(known.contains(&transaction_id(&tx)));
    assert!(matches!(node.handle_message(&mut known, Message::Transaction(tx)), PeerAction::Nothing));
    assert_eq!(node.mempool().len(), 1);
}

#[test]
fn node_relays_a_new_block_and_serves_it() {
    let mut node = Node::new(config()).unwrap();
    let mut known = KnownTransactions::new();
    let block = child(node.blockchain().tip(), node.blockchain().state(), vec![], 101);
    assert!(matches!(
        node.handle_message(&mut known, Message::Block(block.clone())),
        PeerAction::Relay(Message::Block(_))
    ));
    assert!(matches!(node.handle_message(&mut known, Message::Block(block.clone())), PeerAction::Nothing));
    match node.handle_message(&mut known, Message::GetBlocks { start_height: BlockHeight::new(1) }) {
        PeerAction::Reply(messages) => assert_eq!(messages, vec![Message::Block(block)]),
        _ => panic!("requested blocks are sent"),
    }
}

#[test]
fn producing_before_the_tip_time_is_a_chain_error() {
    let mut node = Node::new(config()).unwrap();
    assert!(matches!(
        node.produce_block(BlockTimestamp::new(100), 10),
        Err(NodeError::Chain(ChainError::InvalidBlockTimestamp))
    ));
    assert_eq!(node.blockchain().block_count(), 1);
}

#[test]
fn storage_refuses_a_configuration_of_another_chain() {
    let chain = Blockchain::from_genesis_config(&config()).unwrap();
    let other = GenesisConfig::new(ChainId::new(2), BlockTimestamp::new(100), PowTarget::max(), vec![]).unwrap();
    assert!(matches!(
        checked_encode(&other, &chain),
        Err(StorageError::InvalidData("genesis config does not match chain"))
    ));
    assert!(checked_encode(&config(), &chain).is_ok());
}

#[test]
fn stored_data_with_trailing_bytes_is_rejected() {
    let cfg = config();
    let chain = Blockchain::from_genesis_config(&cfg).unwrap();
    let mut bytes = encode(&cfg, &chain);
    bytes.push(0);
    assert!(matches!(decode_and_validate(&bytes), Err(StorageError::InvalidData("trailing bytes"))));
    let short = vec![1u8, 2, 3];
    assert!(matches!(decode_and_validate(&short), Err(StorageError::InvalidData("truncated data"))));
}

#[test]
fn error_descriptions_read_as_sentences() {
    assert_eq!(
        ChainError::State(StateError::InvalidNonce).description(),
        "transaction state transition failed: invalid transaction nonce"
    );
    assert_eq!(NetworkError::UnsupportedVersion(3).description(), "unsupported protocol version 3");
    assert_eq!(NetworkError::OversizedFrame(1048577).description(), "frame payload 1048577 exceeds limit");
    assert_eq!(
        MempoolError::ImpossibleSpend(StateError::NonceOverflow).description(),
        "transaction cannot execute: nonce overflow"
    );
    assert_eq!(
        NodeError::Mining(PowError::NonceExhausted).description(),
        "mining failed: proof-of-work nonce space exhausted"
    );
    assert_eq!(
        StorageError::InvalidData("no blocks").description(),
        "invalid storage data: no blocks"
    );
}

#[test]
fn compact_public_key_is_read_as_a_key() {
    let kp = KeyPair::from_private_key_bytes([1u8; 32]).unwrap();
    let mut tx = sign_transaction(
        &kp,
        UnsignedTransaction::new(
            TransactionVersion::v1(),
            ChainId::new(1),
            kp.public_key(),
            Address::from_bytes([9u8; 20]),
            Amount::new(1),
            Nonce::zero(),
        ),
    )
    .unwrap();
    assert!(verify_transaction_signature(&tx).is_ok());
    let mut compact = *tx.payload.sender_public_key.as_bytes();
    compact[0] = 5;
    tx.payload.sender_public_key = PublicKeyBytes::from_bytes(compact);
    // the compact key is a key; the signature covers the other encoding
    assert_eq!(
        verify_transaction_signature(&tx),
        Err(CryptoError::SignatureVerificationFailed)
    );
    let mut bad = compact;
    bad[0] = 6;
    tx.payload.sender_public_key = PublicKeyBytes::from_bytes(bad);
    assert_eq!(verify_transaction_signature(&tx), Err(CryptoError::InvalidPublicKey));
}
