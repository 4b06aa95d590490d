//! Transactions: the signed transfer of an amount from a sender key to an address.
use vstd::prelude::*;
use crate::types::{Address, Amount, ChainId, Nonce, PublicKeyBytes, SignatureBytes, TransactionVersion};

verus! {

/// A transfer as its sender signs it.
#[derive(Debug, Clone, Copy, PartialEq, Eq)]
pub struct UnsignedTransaction {
    pub version: TransactionVersion,
    pub chain_id: ChainId,
    pub sender_public_key: PublicKeyBytes,
    pub recipient: Address,
    pub amount: Amount,
    pub nonce: Nonce,
}

impl UnsignedTransaction {
    pub fn new(
        version: TransactionVersion,
        chain_id: ChainId,
        sender_public_key: PublicKeyBytes,
        recipient: Address,
        amount: Amount,
        nonce: Nonce,
    ) -> (tx: Self)
        ensures
            tx == (UnsignedTransaction { version, chain_id, sender_public_key, recipient, amount, nonce }),
    {
        UnsignedTransaction { version, chain_id, sender_public_key, recipient, amount, nonce }
    }

    pub fn version(&self) -> (r: TransactionVersion)
        ensures
            r == self.version,
    {
        self.version
    }

    pub fn chain_id(&self) -> (r: ChainId)
        ensures
            r == self.chain_id,
    {
        self.chain_id
    }

    pub fn sender_public_key(&self) -> (r: &PublicKeyBytes)
        ensures
            *r == self.sender_public_key,
    {
        &self.sender_public_key
    }

    pub fn recipient(&self) -> (r: &Address)
        ensures
            *r == self.recipient,
    {
        &self.recipient
    }

    pub fn amount(&self) -> (r: Amount)
        ensures
            r == self.amount,
    {
        self.amount
    }

    pub fn nonce(&self) -> (r: Nonce)
        ensures
            r == self.nonce,
    {
        self.nonce
    }
}

/// A transfer together with its sender's signature.
#[derive(Debug, Clone, Copy, PartialEq, Eq)]
pub struct SignedTransaction {
    pub payload: UnsignedTransaction,
    pub signature: SignatureBytes,
}

impl SignedTransaction {
    pub fn new(payload: UnsignedTransaction, signature: SignatureBytes) -> (tx: Self)
        ensures
            tx == (SignedTransaction { payload, signature }),
    {
        SignedTransaction { payload, signature }
    }

    pub fn payload(&self) -> (r: &UnsignedTransaction)
        ensures
            *r == self.payload,
    {
        &self.payload
    }

    pub fn signature(&self) -> (r: &SignatureBytes)
        ensures
            *r == self.signature,
    {
        &self.signature
    }
}

} // verus!
