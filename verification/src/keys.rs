//! secp256k1 key pairs and ECDSA transaction signatures.
use vstd::prelude::*;
use k256::ecdsa::signature::hazmat::{PrehashSigner, PrehashVerifier};
use k256::ecdsa::{Signature, SigningKey, VerifyingKey};
use k256::elliptic_curve::Generate;
use crate::bytes::{be_value, compare_be, lemma_be_value_injective, Comparison};
use crate::hash::{spec_signing_digest, transaction_signing_digest};
use crate::transaction::{SignedTransaction, UnsignedTransaction};
use crate::types::{PublicKeyBytes, SignatureBytes};

verus! {

/// The order `n` of the secp256k1 group, big-endian.
pub const SECP256K1_ORDER: [u8; 32] = [
    0xff, 0xff, 0xff, 0xff, 0xff, 0xff, 0xff, 0xff, 0xff, 0xff, 0xff, 0xff, 0xff, 0xff, 0xff, 0xfe,
    0xba, 0xae, 0xdc, 0xe6, 0xaf, 0x48, 0xa0, 0x3b, 0xbf, 0xd2, 0x5e, 0x8c, 0xd0, 0x36, 0x41, 0x41,
];

/// `n >> 1`: the largest `s` a low-S signature may carry, big-endian.
pub const SECP256K1_HALF_ORDER: [u8; 32] = [
    0x7f, 0xff, 0xff, 0xff, 0xff, 0xff, 0xff, 0xff, 0xff, 0xff, 0xff, 0xff, 0xff, 0xff, 0xff, 0xff,
    0x5d, 0x57, 0x6e, 0x73, 0x57, 0xa4, 0x50, 0x1d, 0xdf, 0xe9, 0x2f, 0x46, 0x68, 0x1b, 0x20, 0xa0,
];

/// The prime `p` of the secp256k1 base field, big-endian.
pub const SECP256K1_FIELD_PRIME: [u8; 32] = [
    0xff, 0xff, 0xff, 0xff, 0xff, 0xff, 0xff, 0xff, 0xff, 0xff, 0xff, 0xff, 0xff, 0xff, 0xff, 0xff,
    0xff, 0xff, 0xff, 0xff, 0xff, 0xff, 0xff, 0xff, 0xff, 0xff, 0xff, 0xfe, 0xff, 0xff, 0xfc, 0x2f,
];

pub open spec fn order() -> nat {
    be_value(SECP256K1_ORDER@)
}

pub open spec fn half_order() -> nat {
    be_value(SECP256K1_HALF_ORDER@)
}

pub open spec fn field_prime() -> nat {
    be_value(SECP256K1_FIELD_PRIME@)
}

/// A 32-byte big-endian secret scalar in `[1, n - 1]`.
pub open spec fn is_valid_secret(secret: Seq<u8>) -> bool {
    &&& secret.len() == 32
    &&& 0 < be_value(secret) < order()
}

/// The `r` half of a signature.
pub open spec fn sig_r(sig: Seq<u8>) -> nat {
    be_value(sig.subrange(0, 32))
}

/// The `s` half of a signature.
pub open spec fn sig_s(sig: Seq<u8>) -> nat {
    be_value(sig.subrange(32, 64))
}

/// Both scalars of a signature lie in `[1, n - 1]`.
pub open spec fn is_well_formed_signature(sig: Seq<u8>) -> bool {
    &&& sig.len() == 64
    &&& 0 < sig_r(sig) < order()
    &&& 0 < sig_s(sig) < order()
}

/// The signature is in low-S form (`s <= n >> 1`).
pub open spec fn is_low_s(sig: Seq<u8>) -> bool {
    sig_s(sig) <= half_order()
}

/// A 33-byte SEC1 point encoding that names a point of the curve: the tag is
/// 2 or 3 (compressed, y even or odd) or 5 (compact: x alone, y taken even),
/// the x coordinate lies below `p`, and `x^3 + 7` is a square modulo `p`.
pub open spec fn is_valid_public_key_encoding(pk: Seq<u8>) -> bool {
    &&& pk.len() == 33
    &&& (pk[0] == 2u8 || pk[0] == 3u8 || pk[0] == 5u8)
    &&& be_value(pk.subrange(1, 33)) < field_prime()
    &&& exists|y: nat|
        y < field_prime() && #[trigger] ((y * y) % field_prime()) == (be_value(pk.subrange(1, 33))
            * be_value(pk.subrange(1, 33)) * be_value(pk.subrange(1, 33)) + 7) % field_prime()
}

/// The compressed SEC1 public key of a secret scalar.
pub uninterp spec fn secp256k1_public_key(secret: Seq<u8>) -> Seq<u8>;

/// The deterministic (RFC 6979) ECDSA signature of a 32-byte digest.
pub uninterp spec fn ecdsa_prehash_signature(secret: Seq<u8>, digest: Seq<u8>) -> Seq<u8>;

/// Whether an ECDSA signature over a 32-byte digest verifies under a public key.
pub uninterp spec fn ecdsa_prehash_verifies(public_key: Seq<u8>, digest: Seq<u8>, signature: Seq<u8>) -> bool;

/// Whether `k256::ecdsa::SigningKey::from_slice` accepts 32 bytes: it accepts
/// exactly the big-endian scalars in `[1, n - 1]`.
#[verifier::external_body]
fn secret_key_is_valid(bytes: &[u8; 32]) -> (r: bool)
    ensures
        r == is_valid_secret(bytes@),
{
    SigningKey::from_slice(bytes).is_ok()
}

/// A fresh random secret from `SigningKey::generate` (operating-system
/// randomness); only its validity is stated.
#[verifier::external_body]
fn generate_secret_key() -> (r: [u8; 32])
    ensures
        is_valid_secret(r@),
{
    let key = SigningKey::generate();
    let mut bytes = [0u8; 32];
    bytes.copy_from_slice(&key.to_bytes());
    bytes
}

/// `SigningKey::verifying_key().to_sec1_point(true)`: the compressed public key,
/// whose tag byte is 2 or 3 and which encodes a point of the curve.
#[verifier::external_body]
fn compressed_public_key(secret: &[u8; 32]) -> (r: [u8; 33])
    requires
        is_valid_secret(secret@),
    ensures
        r@ == secp256k1_public_key(secret@),
        r@[0] == 2u8 || r@[0] == 3u8,
        is_valid_public_key_encoding(r@),
{
    let key = SigningKey::from_slice(secret).unwrap();
    let encoded = key.verifying_key().to_sec1_point(true);
    let mut bytes = [0u8; 33];
    bytes.copy_from_slice(encoded.as_bytes());
    bytes
}

/// `SigningKey::sign_prehash`: RFC 6979 deterministic ECDSA over the digest.
/// For secp256k1 it always succeeds and returns `r || s` with both scalars in
/// `[1, n - 1]` and `s` already in low-S form; as any ECDSA signature made with
/// the secret, it verifies over the same digest under the secret's public key.
#[verifier::external_body]
fn sign_prehash(secret: &[u8; 32], digest: &[u8; 32]) -> (r: Option<[u8; 64]>)
    requires
        is_valid_secret(secret@),
    ensures
        r is Some,
        r matches Some(sig) ==> {
            &&& sig@ == ecdsa_prehash_signature(secret@, digest@)
            &&& is_well_formed_signature(sig@)
            &&& is_low_s(sig@)
            &&& ecdsa_prehash_verifies(secp256k1_public_key(secret@), digest@, sig@)
        },
{
    let key = SigningKey::from_slice(secret).unwrap();
    let signed: Result<Signature, _> = key.sign_prehash(digest);
    match signed {
        Ok(signature) => {
            let mut bytes = [0u8; 64];
            bytes.copy_from_slice(&signature.to_bytes());
            Some(bytes)
        },
        Err(_) => None,
    }
}

/// `Signature::normalize_s`: replaces `s` by `n - s` when `s > n >> 1` and keeps `r`.
#[verifier::external_body]
fn normalize_s(sig: &[u8; 64]) -> (r: [u8; 64])
    requires
        is_well_formed_signature(sig@),
    ensures
        r@.subrange(0, 32) == sig@.subrange(0, 32),
        sig_s(r@) == (if sig_s(sig@) > half_order() {
            (order() - sig_s(sig@)) as nat
        } else {
            sig_s(sig@)
        }),
{
    let signature = Signature::from_slice(sig).unwrap();
    let mut bytes = [0u8; 64];
    bytes.copy_from_slice(&signature.normalize_s().to_bytes());
    bytes
}

/// Whether `VerifyingKey::from_sec1_bytes` accepts 33 bytes. At that length the
/// SEC1 tags 2 and 3 (compressed) and 5 (compact) are read; the key is accepted
/// when the x coordinate is a field element whose `x^3 + 7` has a square root.
#[verifier::external_body]
fn public_key_is_valid(pk: &[u8; 33]) -> (r: bool)
    ensures
        r == is_valid_public_key_encoding(pk@),
{
    VerifyingKey::from_sec1_bytes(pk).is_ok()
}

/// Whether `Signature::from_slice` accepts 64 bytes, which it does exactly when
/// both scalars lie in `[1, n - 1]`.
#[verifier::external_body]
fn signature_is_well_formed(sig: &[u8; 64]) -> (r: bool)
    ensures
        r == is_well_formed_signature(sig@),
{
    Signature::from_slice(sig).is_ok()
}

/// `VerifyingKey::verify_prehash` on a valid key and a well-formed low-S signature.
#[verifier::external_body]
fn verify_prehash(pk: &[u8; 33], digest: &[u8; 32], sig: &[u8; 64]) -> (r: bool)
    requires
        is_valid_public_key_encoding(pk@),
        is_well_formed_signature(sig@),
        is_low_s(sig@),
    ensures
        r == ecdsa_prehash_verifies(pk@, digest@, sig@),
{
    let key = VerifyingKey::from_sec1_bytes(pk).unwrap();
    let signature = Signature::from_slice(sig).unwrap();
    key.verify_prehash(digest, &signature).is_ok()
}

/// Failures of key handling, signing and signature verification.
#[derive(Debug, Clone, Copy, PartialEq, Eq, Structural)]
pub enum CryptoError {
    InvalidPrivatKey,
    InvalidPublicKey,
    InvalidSignatureEncoding,
    NonCanonicalSignature,
    SignatureVerificationFailed,
    SigningFailed,
    SenderPublicKeyMismatch,
}

/// A secp256k1 key pair, held as its secret scalar.
pub struct KeyPair {
    secret: [u8; 32],
}

impl KeyPair {
    #[verifier::type_invariant]
    spec fn wf(self) -> bool {
        is_valid_secret(self.secret@)
    }

    /// The secret scalar, big-endian.
    pub closed spec fn secret(&self) -> Seq<u8> {
        self.secret@
    }

    /// A key pair with a fresh random secret.
    pub fn generate() -> (kp: Self)
        ensures
            is_valid_secret(kp.secret()),
    {
        KeyPair { secret: generate_secret_key() }
    }

    /// The key pair with the given secret, which must be a scalar in `[1, n - 1]`.
    pub fn from_private_key_bytes(bytes: [u8; 32]) -> (r: Result<Self, CryptoError>)
        ensures
            is_valid_secret(bytes@) ==> (r matches Ok(kp) && kp.secret() == bytes@),
            !is_valid_secret(bytes@) ==> r == Err::<Self, CryptoError>(CryptoError::InvalidPrivatKey),
    {
        if secret_key_is_valid(&bytes) {
            Ok(KeyPair { secret: bytes })
        } else {
            Err(CryptoError::InvalidPrivatKey)
        }
    }

    /// The compressed public key.
    pub fn public_key(&self) -> (pk: PublicKeyBytes)
        ensures
            pk@ == secp256k1_public_key(self.secret()),
            is_valid_public_key_encoding(pk@),
    {
        proof {
            use_type_invariant(self);
        }
        PublicKeyBytes::from_bytes(compressed_public_key(&self.secret))
    }
}

/// Signs a transaction whose sender key is this key pair's public key.
pub fn sign_transaction(key_pair: &KeyPair, tx: UnsignedTransaction) -> (r: Result<SignedTransaction, CryptoError>)
    ensures
        tx.sender_public_key@ != secp256k1_public_key(key_pair.secret()) ==> r == Err::<
            SignedTransaction,
            CryptoError,
        >(CryptoError::SenderPublicKeyMismatch),
        tx.sender_public_key@ == secp256k1_public_key(key_pair.secret()) ==> (r matches Ok(stx) && {
            &&& stx.payload == tx
            &&& stx.signature@ == ecdsa_prehash_signature(key_pair.secret(), spec_signing_digest(tx))
            &&& is_well_formed_signature(stx.signature@)
            &&& is_low_s(stx.signature@)
            &&& spec_verify_transaction_signature(stx) == Ok::<(), CryptoError>(())
        }),
{
    proof {
        use_type_invariant(key_pair);
    }
    let expected_public_key = key_pair.public_key();
    if !(tx.sender_public_key == expected_public_key) {
        return Err(CryptoError::SenderPublicKeyMismatch);
    }
    let digest = transaction_signing_digest(&tx);
    let signature = match sign_prehash(&key_pair.secret, &digest.0) {
        Some(sig) => sig,
        None => {
            return Err(CryptoError::SigningFailed);
        },
    };
    let normalized = normalize_s(&signature);
    assert(normalized@ =~= signature@) by {
        assert(normalized@ =~= normalized@.subrange(0, 32) + normalized@.subrange(32, 64));
        assert(signature@ =~= signature@.subrange(0, 32) + signature@.subrange(32, 64));
        lemma_be_value_injective(normalized@.subrange(32, 64), signature@.subrange(32, 64));
    }
    Ok(SignedTransaction::new(tx, SignatureBytes::from_bytes(normalized)))
}

/// Why a signed transaction's signature is rejected, if it is.
pub open spec fn spec_verify_transaction_signature(tx: SignedTransaction) -> Result<(), CryptoError> {
    let pk = tx.payload.sender_public_key@;
    let sig = tx.signature@;
    if !is_valid_public_key_encoding(pk) {
        Err(CryptoError::InvalidPublicKey)
    } else if !is_well_formed_signature(sig) {
        Err(CryptoError::InvalidSignatureEncoding)
    } else if !is_low_s(sig) {
        Err(CryptoError::NonCanonicalSignature)
    } else if !ecdsa_prehash_verifies(pk, spec_signing_digest(tx.payload), sig) {
        Err(CryptoError::SignatureVerificationFailed)
    } else {
        Ok(())
    }
}

/// The `s` half of a signature.
fn s_bytes(sig: &[u8; 64]) -> (s: [u8; 32])
    ensures
        s@ == sig@.subrange(32, 64),
{
    let mut s = [0u8; 32];
    let mut i: usize = 0;
    while i < 32
        invariant
            i <= 32,
            forall|j: int| 0 <= j < i ==> s@[j] == sig@[32 + j],
        decreases 32 - i,
    {
        s[i] = sig[32 + i];
        i += 1;
    }
    assert(s@ =~= sig@.subrange(32, 64));
    s
}

/// Checks that a transaction carries a valid low-S signature of its payload by
/// its sender key.
pub fn verify_transaction_signature(tx: &SignedTransaction) -> (r: Result<(), CryptoError>)
    ensures
        r == spec_verify_transaction_signature(*tx),
{
    let public_key_bytes = tx.payload.sender_public_key.as_bytes();
    if !public_key_is_valid(public_key_bytes) {
        return Err(CryptoError::InvalidPublicKey);
    }
    let signature = tx.signature.as_bytes();
    if !signature_is_well_formed(signature) {
        return Err(CryptoError::InvalidSignatureEncoding);
    }
    let s = s_bytes(signature);
    if compare_be(&s, &SECP256K1_HALF_ORDER) == Comparison::Greater {
        return Err(CryptoError::NonCanonicalSignature);
    }
    let digest = transaction_signing_digest(&tx.payload);
    if verify_prehash(public_key_bytes, &digest.0, signature) {
        Ok(())
    } else {
        Err(CryptoError::SignatureVerificationFailed)
    }
}

} // verus!
