#![allow(unused_imports)]
use blockguard::block::{Block, BlockHeader};
use blockguard::chain::Blockchain;
use blockguard::fork::{BlockMetadata, ChainError, ChainWork, candidate_is_better, next_chain_work};
use blockguard::genesis::{GenesisAllocation, GenesisConfig};
use blockguard::hash::{block_hash, derive_address, merkle_root, transaction_id};
use blockguard::keys::{KeyPair, sign_transaction, verify_transaction_signature};
use blockguard::mempool::{Mempool, MempoolError};
use blockguard::pow::{
    DIFFICULTY_ADJUSTMENT_INTERVAL, EXPECTED_TIMESPAN, adjusted_target, mine_header, target_work, validate_pow,
};
use blockguard::state::{Account, State, StateError};
use blockguard::transaction::{SignedTransaction, UnsignedTransaction};
use blockguard::types::{
    Address, Amount, BlockHash, BlockHeight, BlockTimestamp, BlockVersion, ChainId, Hash256, MerkleRoot, Nonce,
    PowNonce, PowTarget, PublicKeyBytes, SignatureBytes, StateRoot, TransactionId, TransactionVersion,
};

fn key(byte: u8) -> KeyPair {
    KeyPair::from_private_key_bytes([byte; 32]).unwrap()
}
fn address(key: &KeyPair) -> Address {
    derive_address(&key.public_key())
}
fn tx(sender: &KeyPair, recipient: Address, amount: u64, nonce: u64) -> SignedTransaction {
    sign_transaction(
        sender,
        UnsignedTransaction::new(
            TransactionVersion::v1(),
            ChainId::new(7),
            sender.public_key(),
            recipient,
            Amount::new(amount),
            Nonce::new(nonce),
        ),
    )
    .unwrap()
}
fn state() -> State {
    let mut state = State::new();
    state.set_account(
        address(&key(1)),
        Account::new(Amount::new(100), Nonce::zero()),
    );
    state.set_account(
        address(&key(2)),
        Account::new(Amount::new(100), Nonce::zero()),
    );
    state
}

#[test]
fn valid_transaction_is_admitted_and_queryable() {
    let transaction = tx(&key(1), address(&key(2)), 10, 0);
    let id = transaction_id(&transaction);
    let mut pool = Mempool::new(ChainId::new(7));
    assert_eq!(pool.admit_transaction(transaction.clone(), &state()).unwrap(), id);
    assert_eq!(pool.len(), 1);
    assert!(pool.contains(&id));
    assert_eq!(pool.get(&id), Some(&transaction));
}

#[test]
fn duplicate_transaction_id_is_rejected() {
    let transaction = tx(&key(1), address(&key(2)), 10, 0);
    let mut pool = Mempool::new(ChainId::new(7));
    pool.admit_transaction(transaction.clone(), &state()).unwrap();
    assert_eq!(
        pool.admit_transaction(transaction, &state()),
        Err(MempoolError::DuplicateTransaction)
    );
}

#[test]
fn invalid_signature_is_rejected() {
    let valid = tx(&key(1), address(&key(2)), 10, 0);
    let invalid =
        SignedTransaction::new(valid.payload().clone(), SignatureBytes::from_bytes([0; 64]));
    assert_eq!(
        Mempool::new(ChainId::new(7)).admit_transaction(invalid, &state()),
        Err(MempoolError::InvalidSignature)
    );
}

#[test]
fn stale_nonce_is_rejected() {
    let alice = key(1);
    let mut confirmed = state();
    confirmed.set_account(
        address(&alice),
        Account::new(Amount::new(100), Nonce::new(1)),
    );
    assert_eq!(
        Mempool::new(ChainId::new(7)).admit_transaction(tx(&alice, address(&key(2)), 1, 0), &confirmed),
        Err(MempoolError::StaleNonce)
    );
}

#[test]
fn conflicting_sender_nonce_is_rejected() {
    let alice = key(1);
    let mut pool = Mempool::new(ChainId::new(7));
    pool.admit_transaction(tx(&alice, address(&key(2)), 1, 0), &state())
        .unwrap();
    assert_eq!(
        pool.admit_transaction(tx(&alice, Address::from_bytes([9; 20]), 2, 0), &state()),
        Err(MempoolError::ConflictingNonce)
    );
}

#[test]
fn sequential_future_nonces_can_coexist() {
    let alice = key(1);
    let mut pool = Mempool::new(ChainId::new(7));
    for nonce in 0..3 {
        pool.admit_transaction(tx(&alice, address(&key(2)), 10, nonce), &state())
            .unwrap();
    }
    assert_eq!(pool.len(), 3);
    assert_eq!(
        pool.candidates(&state(), 10)
            .iter()
            .map(|t| t.payload().nonce())
            .collect::<Vec<_>>(),
        vec![Nonce::new(0), Nonce::new(1), Nonce::new(2)]
    );
}

#[test]
fn candidate_order_is_deterministic() {
    let first = tx(&key(1), Address::from_bytes([8; 20]), 1, 0);
    let second = tx(&key(2), Address::from_bytes([9; 20]), 1, 0);
    let expected_first = if transaction_id(&first).as_bytes() < transaction_id(&second).as_bytes() {
        transaction_id(&first)
    } else {
        transaction_id(&second)
    };
    let mut a = Mempool::new(ChainId::new(7));
    let mut b = Mempool::new(ChainId::new(7));
    a.admit_transaction(first.clone(), &state()).unwrap();
    a.admit_transaction(second.clone(), &state()).unwrap();
    b.admit_transaction(second, &state()).unwrap();
    b.admit_transaction(first, &state()).unwrap();
    let ids = |pool: &Mempool| {
        pool.candidates(&state(), 10)
            .iter()
            .map(transaction_id)
            .collect::<Vec<_>>()
    };
    assert_eq!(ids(&a), ids(&b));
    assert_eq!(ids(&a)[0], expected_first);
}

#[test]
fn revalidation_removes_confirmed_transaction() {
    let transaction = tx(&key(1), address(&key(2)), 10, 0);
    let id = transaction_id(&transaction);
    let mut pool = Mempool::new(ChainId::new(7));
    let mut confirmed = state();
    pool.admit_transaction(transaction.clone(), &confirmed).unwrap();
    confirmed.apply_transaction(&transaction).unwrap();
    pool.revalidate(&confirmed);
    assert!(!pool.contains(&id));
}

#[test]
fn revalidation_keeps_a_run_from_the_pool_and_what_went_stays_refused() {
    let first = tx(&key(1), address(&key(2)), 10, 0);
    let second = tx(&key(1), address(&key(2)), 10, 1);
    let spend_all = tx(&key(2), address(&key(1)), 100, 0);
    let mut pool = Mempool::new(ChainId::new(7));
    pool.admit_transaction(first.clone(), &state()).unwrap();
    pool.admit_transaction(second.clone(), &state()).unwrap();
    pool.admit_transaction(spend_all.clone(), &state()).unwrap();
    let old: Vec<SignedTransaction> = pool.transactions();

    // `first` is confirmed, and key 2 now holds less than it tries to send
    let mut canonical = State::new();
    canonical.set_account(address(&key(1)), Account::new(Amount::new(90), Nonce::new(1)));
    canonical.set_account(address(&key(2)), Account::new(Amount::new(50), Nonce::zero()));
    pool.revalidate(&canonical);

    let kept = pool.transactions();
    assert_eq!(kept, vec![second.clone()]);
    assert!(kept.iter().all(|t| old.contains(t)));
    assert_eq!(pool.admit_transaction(first, &canonical), Err(MempoolError::StaleNonce));
    assert!(matches!(
        pool.admit_transaction(spend_all, &canonical),
        Err(MempoolError::ImpossibleSpend(_))
    ));
}

#[test]
fn candidates_are_distinct_and_lowest_executable_first() {
    let a0 = tx(&key(1), address(&key(2)), 10, 0);
    let a1 = tx(&key(1), address(&key(2)), 10, 1);
    let b0 = tx(&key(2), address(&key(1)), 10, 0);
    let mut pool = Mempool::new(ChainId::new(7));
    for t in [a0.clone(), a1.clone(), b0.clone()] {
        pool.admit_transaction(t, &state()).unwrap();
    }
    let picked = pool.candidates(&state(), 10);
    assert_eq!(picked.len(), 3);
    for i in 0..picked.len() {
        for j in (i + 1)..picked.len() {
            assert_ne!(transaction_id(&picked[i]), transaction_id(&picked[j]));
        }
    }
    // the first pick is the lower id of the two executable ones
    let (lower, _) = if transaction_id(&a0).as_bytes() < transaction_id(&b0).as_bytes() {
        (a0.clone(), b0.clone())
    } else {
        (b0.clone(), a0.clone())
    };
    assert_eq!(picked[0], lower);
    // a1 comes only after a0
    let pos_a0 = picked.iter().position(|t| *t == a0).unwrap();
    let pos_a1 = picked.iter().position(|t| *t == a1).unwrap();
    assert!(pos_a0 < pos_a1);
}

#[test]
fn candidates_for_a_smaller_count_are_the_first_ones() {
    let mut pool = Mempool::new(ChainId::new(7));
    for t in [
        tx(&key(1), address(&key(2)), 10, 0),
        tx(&key(1), address(&key(2)), 10, 1),
        tx(&key(2), address(&key(1)), 10, 0),
        tx(&key(2), address(&key(1)), 10, 1),
    ] {
        pool.admit_transaction(t, &state()).unwrap();
    }
    let all = pool.candidates(&state(), 10);
    assert_eq!(all.len(), 4);
    for count in 0..=5usize {
        let some = pool.candidates(&state(), count);
        assert_eq!(some.len(), count.min(all.len()));
        assert_eq!(&all[..some.len()], &some[..]);
    }
}

#[test]
fn a_transaction_set_aside_early_is_not_picked_later() {
    // key 1 cannot afford its transfer until key 2 pays it; if key 1's
    // transfer comes first by id it is set aside and not picked again
    let poor = tx(&key(1), address(&key(2)), 150, 0);
    let pays = tx(&key(2), address(&key(1)), 100, 0);
    let mut pool = Mempool::new(ChainId::new(7));
    let mut rich = State::new();
    rich.set_account(address(&key(1)), Account::new(Amount::new(200), Nonce::zero()));
    rich.set_account(address(&key(2)), Account::new(Amount::new(100), Nonce::zero()));
    pool.admit_transaction(poor.clone(), &rich).unwrap();
    pool.admit_transaction(pays.clone(), &rich).unwrap();
    let picked = pool.candidates(&state(), 10);
    if transaction_id(&poor).as_bytes() < transaction_id(&pays).as_bytes() {
        assert_eq!(picked, vec![pays]);
    } else {
        assert_eq!(picked, vec![pays, poor]);
    }
}
