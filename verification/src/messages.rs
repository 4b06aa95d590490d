//! Human-readable descriptions of every error of the library.
use vstd::prelude::*;
use vstd::string::StringExecFns;
use crate::fork::ChainError;
use crate::genesis::GenesisConfigError;
use crate::keys::CryptoError;
use crate::mempool::MempoolError;
use crate::network::NetworkError;
use crate::node::NodeError;
use crate::pow::PowError;
use crate::state::StateError;
use crate::storage::StorageError;

verus! {

/// The decimal digits of a number.
pub open spec fn decimal(n: nat) -> Seq<char>
    decreases n,
{
    if n < 10 {
        seq![digit_char(n)]
    } else {
        decimal(n / 10).push(digit_char(n % 10))
    }
}

pub open spec fn digit_char(d: nat) -> char {
    if d == 0 { '0' } else if d == 1 { '1' } else if d == 2 { '2' } else if d == 3 { '3' } else if d == 4 {
        '4'
    } else if d == 5 { '5' } else if d == 6 { '6' } else if d == 7 { '7' } else if d == 8 { '8' } else { '9' }
}

fn append_digit(out: &mut String, d: u64)
    requires
        d < 10,
    ensures
        final(out)@ == old(out)@.push(digit_char(d as nat)),
{
    proof {
        reveal_strlit("0");
        reveal_strlit("1");
        reveal_strlit("2");
        reveal_strlit("3");
        reveal_strlit("4");
        reveal_strlit("5");
        reveal_strlit("6");
        reveal_strlit("7");
        reveal_strlit("8");
        reveal_strlit("9");
    }
    let s = if d == 0 { "0" } else if d == 1 { "1" } else if d == 2 { "2" } else if d == 3 { "3" } else if d
        == 4 { "4" } else if d == 5 { "5" } else if d == 6 { "6" } else if d == 7 { "7" } else if d == 8 {
        "8"
    } else { "9" };
    out.append(s);
    assert(out@ =~= old(out)@.push(digit_char(d as nat)));
}

/// Appends the decimal form of `n`.
fn append_decimal(out: &mut String, n: u64)
    ensures
        final(out)@ == old(out)@ + decimal(n as nat),
    decreases n,
{
    if n < 10 {
        append_digit(out, n);
        assert(decimal(n as nat) =~= seq![digit_char(n as nat)]);
    } else {
        append_decimal(out, n / 10);
        append_digit(out, n % 10);
        assert(old(out)@ + decimal(n as nat) =~= (old(out)@ + decimal((n / 10) as nat)).push(digit_char((n % 10) as nat)));
    }
}

pub open spec fn state_error_text(e: StateError) -> Seq<char> {
    match e {
        StateError::AccountNotFound => "account not found"@,
        StateError::InsufficientBalance => "insufficient balance"@,
        StateError::InvalidNonce => "invalid transaction nonce"@,
        StateError::BalanceOverflow => "balance overflow"@,
        StateError::NonceOverflow => "nonce overflow"@,
        StateError::InvalidSignature => "transaction signature is invalid"@,
    }
}

impl StateError {
    pub fn description(&self) -> (r: String)
        ensures
            r@ == state_error_text(*self),
    {
        match self {
            StateError::AccountNotFound => String::from_str("account not found"),
            StateError::InsufficientBalance => String::from_str("insufficient balance"),
            StateError::InvalidNonce => String::from_str("invalid transaction nonce"),
            StateError::BalanceOverflow => String::from_str("balance overflow"),
            StateError::NonceOverflow => String::from_str("nonce overflow"),
            StateError::InvalidSignature => String::from_str("transaction signature is invalid"),
        }
    }
}

pub open spec fn crypto_error_text(e: CryptoError) -> Seq<char> {
    match e {
        CryptoError::InvalidPrivatKey => "invalid secp256k1 private key"@,
        CryptoError::InvalidPublicKey => "invalid secp256k1 public key"@,
        CryptoError::InvalidSignatureEncoding => "invalid ECDSA signature encoding"@,
        CryptoError::NonCanonicalSignature => "ECDSA signature is not canonical low-S"@,
        CryptoError::SignatureVerificationFailed => "ECDSA signature verification failed"@,
        CryptoError::SigningFailed => "ECDSA signing failed"@,
        CryptoError::SenderPublicKeyMismatch => "transaction sender public key does not match signing key"@,
    }
}

impl CryptoError {
    pub fn description(&self) -> (r: String)
        ensures
            r@ == crypto_error_text(*self),
    {
        match self {
            CryptoError::InvalidPrivatKey => String::from_str("invalid secp256k1 private key"),
            CryptoError::InvalidPublicKey => String::from_str("invalid secp256k1 public key"),
            CryptoError::InvalidSignatureEncoding => String::from_str("invalid ECDSA signature encoding"),
            CryptoError::NonCanonicalSignature => String::from_str("ECDSA signature is not canonical low-S"),
            CryptoError::SignatureVerificationFailed => String::from_str("ECDSA signature verification failed"),
            CryptoError::SigningFailed => String::from_str("ECDSA signing failed"),
            CryptoError::SenderPublicKeyMismatch => String::from_str(
                "transaction sender public key does not match signing key",
            ),
        }
    }
}

pub open spec fn pow_error_text(e: PowError) -> Seq<char> {
    match e {
        PowError::NonceExhausted => "proof-of-work nonce space exhausted"@,
    }
}

impl PowError {
    pub fn description(&self) -> (r: String)
        ensures
            r@ == pow_error_text(*self),
    {
        match self {
            PowError::NonceExhausted => String::from_str("proof-of-work nonce space exhausted"),
        }
    }
}

pub open spec fn chain_error_text(e: ChainError) -> Seq<char> {
    match e {
        ChainError::InvalidGenesisHeight => "genesis block must have height zero"@,
        ChainError::InvalidGenesisParent => "genesis block must have zero previous block hash"@,
        ChainError::GenesisTransactionsNotAllowed => "genesis block cannot contain normal transactions"@,
        ChainError::WrongChainId => "wrong chain id"@,
        ChainError::UnsupportedBlockVersion => "unsupported block version"@,
        ChainError::UnsupportedTransactionVersion => "unsupported transaction version"@,
        ChainError::InvalidHeight => "invalid block height"@,
        ChainError::InvalidPreviousBlockHash => "invalid previous block hash"@,
        ChainError::InvalidMerkleRoot => "invalid transaction Merkle root"@,
        ChainError::InvalidStateRoot => "invalid state root"@,
        ChainError::HeightOverflow => "block height overflow"@,
        ChainError::InvalidProofOfWork => "invalid proof of work"@,
        ChainError::UnexpectedPowTarget => "block uses an unexpected proof-of-work target"@,
        ChainError::InvalidBlockTimestamp => "block timestamp must be greater than its parent"@,
        ChainError::ChainWorkOverflow => "cumulative chain work overflow"@,
        ChainError::State(inner) => "transaction state transition failed: "@ + state_error_text(inner),
    }
}

impl ChainError {
    pub fn description(&self) -> (r: String)
        ensures
            r@ == chain_error_text(*self),
    {
        match self {
            ChainError::InvalidGenesisHeight => String::from_str("genesis block must have height zero"),
            ChainError::InvalidGenesisParent => String::from_str("genesis block must have zero previous block hash"),
            ChainError::GenesisTransactionsNotAllowed => String::from_str(
                "genesis block cannot contain normal transactions",
            ),
            ChainError::WrongChainId => String::from_str("wrong chain id"),
            ChainError::UnsupportedBlockVersion => String::from_str("unsupported block version"),
            ChainError::UnsupportedTransactionVersion => String::from_str("unsupported transaction version"),
            ChainError::InvalidHeight => String::from_str("invalid block height"),
            ChainError::InvalidPreviousBlockHash => String::from_str("invalid previous block hash"),
            ChainError::InvalidMerkleRoot => String::from_str("invalid transaction Merkle root"),
            ChainError::InvalidStateRoot => String::from_str("invalid state root"),
            ChainError::HeightOverflow => String::from_str("block height overflow"),
            ChainError::InvalidProofOfWork => String::from_str("invalid proof of work"),
            ChainError::UnexpectedPowTarget => String::from_str("block uses an unexpected proof-of-work target"),
            ChainError::InvalidBlockTimestamp => String::from_str("block timestamp must be greater than its parent"),
            ChainError::ChainWorkOverflow => String::from_str("cumulative chain work overflow"),
            ChainError::State(inner) => {
                let mut s = String::from_str("transaction state transition failed: ");
                s.append(inner.description().as_str());
                s
            },
        }
    }
}

pub open spec fn genesis_error_text(e: GenesisConfigError) -> Seq<char> {
    match e {
        GenesisConfigError::DuplicateAllocation(_) => "duplicate genesis allocation"@,
    }
}

impl GenesisConfigError {
    pub fn description(&self) -> (r: String)
        ensures
            r@ == genesis_error_text(*self),
    {
        match self {
            GenesisConfigError::DuplicateAllocation(_) => String::from_str("duplicate genesis allocation"),
        }
    }
}

pub open spec fn mempool_error_text(e: MempoolError) -> Seq<char> {
    match e {
        MempoolError::InvalidSignature => "invalid transaction signature"@,
        MempoolError::WrongChainId => "wrong chain id"@,
        MempoolError::UnsupportedTransactionVersion => "unsupported transaction version"@,
        MempoolError::DuplicateTransaction => "duplicate transaction ID"@,
        MempoolError::SenderAccountNotFound => "sender account does not exist"@,
        MempoolError::StaleNonce => "transaction nonce is stale"@,
        MempoolError::ConflictingNonce => "sender nonce already has a transaction"@,
        MempoolError::NonceGap => "future transaction has a nonce gap"@,
        MempoolError::ImpossibleSpend(inner) => "transaction cannot execute: "@ + state_error_text(inner),
    }
}

impl MempoolError {
    pub fn description(&self) -> (r: String)
        ensures
            r@ == mempool_error_text(*self),
    {
        match self {
            MempoolError::InvalidSignature => String::from_str("invalid transaction signature"),
            MempoolError::WrongChainId => String::from_str("wrong chain id"),
            MempoolError::UnsupportedTransactionVersion => String::from_str("unsupported transaction version"),
            MempoolError::DuplicateTransaction => String::from_str("duplicate transaction ID"),
            MempoolError::SenderAccountNotFound => String::from_str("sender account does not exist"),
            MempoolError::StaleNonce => String::from_str("transaction nonce is stale"),
            MempoolError::ConflictingNonce => String::from_str("sender nonce already has a transaction"),
            MempoolError::NonceGap => String::from_str("future transaction has a nonce gap"),
            MempoolError::ImpossibleSpend(inner) => {
                let mut s = String::from_str("transaction cannot execute: ");
                s.append(inner.description().as_str());
                s
            },
        }
    }
}

pub open spec fn network_error_text(e: NetworkError) -> Seq<char> {
    match e {
        NetworkError::WrongMagic => "wrong network magic"@,
        NetworkError::UnsupportedVersion(v) => "unsupported protocol version "@ + decimal(v as nat),
        NetworkError::UnknownMessageType(t) => "unknown message type "@ + decimal(t as nat),
        NetworkError::OversizedFrame(n) => "frame payload "@ + decimal(n as nat) + " exceeds limit"@,
        NetworkError::TruncatedFrame => "truncated frame"@,
        NetworkError::Malformed(m) => "malformed message: "@ + m@,
        NetworkError::HandshakeRequired => "expected handshake"@,
        NetworkError::WrongChainId => "peer uses a different chain ID"@,
        NetworkError::DifferentGenesis => "peer uses a different genesis block"@,
    }
}

impl NetworkError {
    pub fn description(&self) -> (r: String)
        ensures
            r@ == network_error_text(*self),
    {
        match self {
            NetworkError::WrongMagic => String::from_str("wrong network magic"),
            NetworkError::UnsupportedVersion(v) => {
                let mut s = String::from_str("unsupported protocol version ");
                append_decimal(&mut s, *v as u64);
                s
            },
            NetworkError::UnknownMessageType(t) => {
                let mut s = String::from_str("unknown message type ");
                append_decimal(&mut s, *t as u64);
                s
            },
            NetworkError::OversizedFrame(n) => {
                let mut s = String::from_str("frame payload ");
                append_decimal(&mut s, *n as u64);
                s.append(" exceeds limit");
                s
            },
            NetworkError::TruncatedFrame => String::from_str("truncated frame"),
            NetworkError::Malformed(m) => {
                let mut s = String::from_str("malformed message: ");
                s.append(m);
                s
            },
            NetworkError::HandshakeRequired => String::from_str("expected handshake"),
            NetworkError::WrongChainId => String::from_str("peer uses a different chain ID"),
            NetworkError::DifferentGenesis => String::from_str("peer uses a different genesis block"),
        }
    }
}

pub open spec fn storage_error_text(e: StorageError) -> Seq<char> {
    match e {
        StorageError::InvalidData(m) => "invalid storage data: "@ + m@,
        StorageError::Chain(inner) => "stored chain validation failed: "@ + chain_error_text(inner),
        StorageError::Genesis(inner) => "stored genesis config is invalid: "@ + genesis_error_text(inner),
    }
}

impl StorageError {
    pub fn description(&self) -> (r: String)
        ensures
            r@ == storage_error_text(*self),
    {
        match self {
            StorageError::InvalidData(m) => {
                let mut s = String::from_str("invalid storage data: ");
                s.append(m);
                s
            },
            StorageError::Chain(inner) => {
                let mut s = String::from_str("stored chain validation failed: ");
                s.append(inner.description().as_str());
                s
            },
            StorageError::Genesis(inner) => {
                let mut s = String::from_str("stored genesis config is invalid: ");
                s.append(inner.description().as_str());
                s
            },
        }
    }
}

pub open spec fn node_error_text(e: NodeError) -> Seq<char> {
    match e {
        NodeError::Chain(inner) => "chain rejected block: "@ + chain_error_text(inner),
        NodeError::Mempool(inner) => "mempool rejected transaction: "@ + mempool_error_text(inner),
        NodeError::Mining(inner) => "mining failed: "@ + pow_error_text(inner),
        NodeError::Storage(inner) => "persistence failed: "@ + storage_error_text(inner),
        NodeError::StorageNotConfigured => "storage is not configured"@,
        NodeError::HeightOverflow => "block height overflow"@,
    }
}

impl NodeError {
    pub fn description(&self) -> (r: String)
        ensures
            r@ == node_error_text(*self),
    {
        match self {
            NodeError::Chain(inner) => {
                let mut s = String::from_str("chain rejected block: ");
                s.append(inner.description().as_str());
                s
            },
            NodeError::Mempool(inner) => {
                let mut s = String::from_str("mempool rejected transaction: ");
                s.append(inner.description().as_str());
                s
            },
            NodeError::Mining(inner) => {
                let mut s = String::from_str("mining failed: ");
                s.append(inner.description().as_str());
                s
            },
            NodeError::Storage(inner) => {
                let mut s = String::from_str("persistence failed: ");
                s.append(inner.description().as_str());
                s
            },
            NodeError::StorageNotConfigured => String::from_str("storage is not configured"),
            NodeError::HeightOverflow => String::from_str("block height overflow"),
        }
    }
}

} // verus!
