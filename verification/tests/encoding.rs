use blockguard::encoding::{SIGNING_PREIMAGE_LENGTH, encode_unsigned_transaction_for_signing};
use blockguard::transaction::UnsignedTransaction;
use blockguard::types::{Address, Amount, ChainId, Nonce, PublicKeyBytes, TransactionVersion};

fn sample_transaction() -> UnsignedTransaction {
    let mut public_key = [0u8; 33];

    // A compressed secp256k1 key normally starts
    // with 0x02 or 0x03.
    public_key[0] = 0x02;

    for (index, byte) in public_key[1..].iter_mut().enumerate() {
        *byte = (index + 1) as u8;
    }

    let mut recipient = [0u8; 20];

    for (index, byte) in recipient.iter_mut().enumerate() {
        *byte = (0xA0 + index) as u8;
    }

    UnsignedTransaction::new(
        TransactionVersion::v1(),
        ChainId::new(1),
        PublicKeyBytes::from_bytes(public_key),
        Address::from_bytes(recipient),
        Amount::new(500),
        Nonce::new(7),
    )
}

#[test]
fn signing_encoding_has_expected_length() {
    let tx = sample_transaction();

    let encoded = encode_unsigned_transaction_for_signing(&tx);

    assert_eq!(encoded.len(), SIGNING_PREIMAGE_LENGTH);

    assert_eq!(encoded.len(), 91);
}

#[test]
fn encoding_is_deterministic() {
    let tx = sample_transaction();

    let first = encode_unsigned_transaction_for_signing(&tx);

    let second = encode_unsigned_transaction_for_signing(&tx);

    assert_eq!(first, second);
}

#[test]
fn changing_amount_changes_encoding() {
    let tx1 = sample_transaction();

    let tx2 = UnsignedTransaction::new(
        tx1.version(),
        tx1.chain_id(),
        *tx1.sender_public_key(),
        *tx1.recipient(),
        Amount::new(501),
        tx1.nonce(),
    );

    let encoded1 = encode_unsigned_transaction_for_signing(&tx1);

    let encoded2 = encode_unsigned_transaction_for_signing(&tx2);

    assert_ne!(encoded1, encoded2);
}

#[test]
fn test_vector_matches_protocol_encoding() {
    let tx = sample_transaction();

    let encoded = encode_unsigned_transaction_for_signing(&tx);

    let mut expected = Vec::new();

    // Domain
    expected.extend_from_slice(b"BLOCKGUARD_TX_V1");

    // version = 1 as u16 big-endian
    expected.extend_from_slice(&1u16.to_be_bytes());

    // chain_id = 1 as u32 big-endian
    expected.extend_from_slice(&1u32.to_be_bytes());

    // public key
    let mut public_key = [0u8; 33];
    public_key[0] = 0x02;

    for (index, byte) in public_key[1..].iter_mut().enumerate() {
        *byte = (index + 1) as u8;
    }

    expected.extend_from_slice(&public_key);

    // recipient
    let mut recipient = [0u8; 20];

    for (index, byte) in recipient.iter_mut().enumerate() {
        *byte = (0xA0 + index) as u8;
    }

    expected.extend_from_slice(&recipient);

    // amount = 500
    expected.extend_from_slice(&500u64.to_be_bytes());

    // nonce = 7
    expected.extend_from_slice(&7u64.to_be_bytes());

    assert_eq!(encoded.as_slice(), expected.as_slice());
}
