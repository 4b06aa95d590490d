use blockguard::block::{Block, BlockHeader};
use blockguard::network::{
    Handshake, MAGIC, MAX_FRAME_SIZE, Message, NetworkError, PROTOCOL_VERSION, accept_handshake, decode_payload,
    encode_frame, read_message, validate_handshake,
};
use blockguard::transaction::{SignedTransaction, UnsignedTransaction};
use blockguard::types::{
    Address, Amount, BlockHash, BlockHeight, BlockTimestamp, BlockVersion, ChainId, Hash256, MerkleRoot, Nonce,
    PowNonce, PowTarget, PublicKeyBytes, SignatureBytes, StateRoot, TransactionVersion,
};

fn transaction() -> SignedTransaction {
    SignedTransaction::new(
        UnsignedTransaction::new(
            TransactionVersion::v1(),
            ChainId::new(3),
            PublicKeyBytes::from_bytes([2; 33]),
            Address::from_bytes([4; 20]),
            Amount::new(5),
            Nonce::new(6),
        ),
        SignatureBytes::from_bytes([7; 64]),
    )
}
fn block() -> Block {
    Block::new(
        BlockHeader::new(
            BlockVersion::v1(),
            ChainId::new(3),
            BlockHeight::new(1),
            BlockHash::from_hash(Hash256::from_bytes([1; 32])),
            MerkleRoot::from_hash(Hash256::from_bytes([2; 32])),
            StateRoot::from_hash(Hash256::from_bytes([3; 32])),
            PowTarget::max(),
            BlockTimestamp::new(9),
            PowNonce::new(10),
        ),
        vec![transaction()],
    )
}
fn round(message: Message) {
    let encoded = encode_frame(&message).unwrap();
    assert_eq!(read_message(&encoded).unwrap(), message)
}
fn hash(b: u8) -> BlockHash {
    BlockHash::from_hash(Hash256::from_bytes([b; 32]))
}

#[test]
fn handshake_round_trip() {
    round(Message::Handshake(Handshake::new(
        ChainId::new(3),
        BlockHash::from_hash(Hash256::from_bytes([8; 32])),
        [9; 16],
    )))
}
#[test]
fn transaction_round_trip() {
    round(Message::Transaction(transaction()))
}
#[test]
fn block_round_trip() {
    round(Message::Block(block()))
}
#[test]
fn unknown_message_is_rejected() {
    let mut f = encode_frame(&Message::GetTip).unwrap();
    f[6] = 99;
    assert!(matches!(read_message(&f), Err(NetworkError::UnknownMessageType(99))))
}
#[test]
fn unsupported_frame_version_is_rejected() {
    let mut f = encode_frame(&Message::GetTip).unwrap();
    f[4..6].copy_from_slice(&(PROTOCOL_VERSION + 1).to_be_bytes());
    assert!(matches!(read_message(&f), Err(NetworkError::UnsupportedVersion(_))))
}
#[test]
fn truncated_frame_is_rejected() {
    let mut f = encode_frame(&Message::Ping(1)).unwrap();
    f.pop();
    assert!(matches!(read_message(&f), Err(NetworkError::TruncatedFrame)))
}
#[test]
fn oversized_frame_is_rejected_before_payload_read() {
    let mut f = Vec::new();
    f.extend_from_slice(&MAGIC);
    f.extend_from_slice(&PROTOCOL_VERSION.to_be_bytes());
    f.push(2);
    f.extend_from_slice(&((MAX_FRAME_SIZE as u32) + 1).to_be_bytes());
    assert!(matches!(read_message(&f), Err(NetworkError::OversizedFrame(_))))
}
#[test]
fn unsupported_handshake_version_is_rejected() {
    let good = Handshake::new(ChainId::new(1), hash(1), [1; 16]);
    let mut bad = good.clone();
    bad.protocol_version = 1;
    assert!(matches!(validate_handshake(&good, &bad), Err(NetworkError::UnsupportedVersion(1))))
}
#[test]
fn matching_handshakes_are_accepted() {
    let local = Handshake::new(ChainId::new(1), hash(1), [1; 16]);
    let remote = Handshake::new(ChainId::new(1), hash(1), [2; 16]);
    assert_eq!(accept_handshake(&local, &Message::Handshake(remote)).unwrap(), remote);
}
#[test]
fn handshake_of_another_chain_is_rejected() {
    let local = Handshake::new(ChainId::new(1), hash(1), [1; 16]);
    let remote = Handshake::new(ChainId::new(2), hash(1), [2; 16]);
    assert!(matches!(validate_handshake(&local, &remote), Err(NetworkError::WrongChainId)));
}
#[test]
fn handshake_with_another_genesis_is_rejected() {
    let local = Handshake::new(ChainId::new(1), hash(1), [1; 16]);
    let remote = Handshake::new(ChainId::new(1), hash(2), [2; 16]);
    assert!(matches!(validate_handshake(&local, &remote), Err(NetworkError::DifferentGenesis)));
}
#[test]
fn first_message_must_be_a_handshake() {
    let local = Handshake::new(ChainId::new(1), hash(1), [1; 16]);
    assert!(matches!(accept_handshake(&local, &Message::Ping(3)), Err(NetworkError::HandshakeRequired)));
}
#[test]
fn ping_frame_has_the_protocol_layout() {
    let f = encode_frame(&Message::Ping(0x0102030405060708)).unwrap();
    assert_eq!(
        f,
        vec![66, 71, 78, 87, 0, 2, 4, 0, 0, 0, 8, 1, 2, 3, 4, 5, 6, 7, 8]
    );
}
#[test]
fn trailing_payload_bytes_are_rejected() {
    let payload = vec![0u8; 9];
    assert!(matches!(decode_payload(4, &payload), Err(NetworkError::Malformed(_))));
}
#[test]
fn block_with_too_many_transactions_is_rejected() {
    let f = encode_frame(&Message::Block(block())).unwrap();
    let mut payload = f[11..].to_vec();
    payload[158..162].copy_from_slice(&5000u32.to_be_bytes());
    assert!(matches!(
        decode_payload(3, &payload),
        Err(NetworkError::Malformed("too many block transactions"))
    ));
}
#[test]
fn wrong_magic_is_rejected() {
    let mut f = encode_frame(&Message::GetTip).unwrap();
    f[0] = b'X';
    assert!(matches!(read_message(&f), Err(NetworkError::WrongMagic)));
}
#[test]
fn all_message_types_round_trip() {
    round(Message::Ping(7));
    round(Message::Pong(8));
    round(Message::GetTip);
    round(Message::Tip { height: BlockHeight::new(4), block_hash: hash(5) });
    round(Message::GetBlocks { start_height: BlockHeight::new(6) });
}
