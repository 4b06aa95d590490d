//! The canonical byte encodings that signatures, transaction identities and
//! block hashes commit to.
use vstd::prelude::*;
use crate::block::BlockHeader;
use crate::bytes::{append_bytes, append_u16, append_u32, append_u64, lemma_be_injective, u16_be, u32_be, u64_be};
use crate::transaction::{SignedTransaction, UnsignedTransaction};

verus! {

/// `b"BLOCKGUARD_TX_V1"`: the domain separator of a signing preimage.
pub const SIGNING_DOMAIN: [u8; 16] = [
    66, 76, 79, 67, 75, 71, 85, 65, 82, 68, 95, 84, 88, 95, 86, 49,
];

/// `b"BLOCKGUARD_SIGNED_TX_V1"`: the domain separator of a transaction-id preimage.
pub const SIGNED_TRANSACTION_DOMAIN: [u8; 23] = [
    66, 76, 79, 67, 75, 71, 85, 65, 82, 68, 95, 83, 73, 71, 78, 69, 68, 95, 84, 88, 95, 86, 49,
];

/// `b"BLOCKGUARD_BLOCK_V1"`: the domain separator of a block-hash preimage.
pub const BLOCK_HEADER_DOMAIN: [u8; 19] = [
    66, 76, 79, 67, 75, 71, 85, 65, 82, 68, 95, 66, 76, 79, 67, 75, 95, 86, 49,
];

/// Length of the encoded fields of an unsigned transaction:
/// version 2, chain id 4, sender key 33, recipient 20, amount 8, nonce 8.
pub const UNSIGNED_TRANSACTION_FIELDS_LENGTH: usize = 75;

/// Length of a signing preimage (domain 16 and the fields).
pub const SIGNING_PREIMAGE_LENGTH: usize = 91;

/// Length of a transaction-id preimage (domain 23, the fields and a 64-byte signature).
pub const SIGNED_TRANSACTION_ENCODING_LENGTH: usize = 162;

/// Length of a block-hash preimage: domain 19, version 2, chain id 4, height 8,
/// previous hash 32, transaction root 32, state root 32, target 32, timestamp 8,
/// proof-of-work nonce 8.
pub const BLOCK_HEADER_ENCODING_LENGTH: usize = 177;

/// The fields of a transaction in protocol order, integers big-endian.
pub open spec fn unsigned_fields(tx: UnsignedTransaction) -> Seq<u8> {
    u16_be(tx.version.0) + u32_be(tx.chain_id.0) + tx.sender_public_key@ + tx.recipient@ + u64_be(
        tx.amount.0,
    ) + u64_be(tx.nonce.0)
}

/// The bytes a sender signs (after hashing).
pub open spec fn signing_preimage(tx: UnsignedTransaction) -> Seq<u8> {
    SIGNING_DOMAIN@ + unsigned_fields(tx)
}

/// The bytes a transaction id is the digest of.
pub open spec fn signed_transaction_preimage(tx: SignedTransaction) -> Seq<u8> {
    SIGNED_TRANSACTION_DOMAIN@ + unsigned_fields(tx.payload) + tx.signature@
}

/// The bytes a block hash is the digest of.
pub open spec fn header_preimage(h: BlockHeader) -> Seq<u8> {
    BLOCK_HEADER_DOMAIN@ + u16_be(h.version.0) + u32_be(h.chain_id.0) + u64_be(h.height.0)
        + h.previous_block_hash@ + h.transaction_root@ + h.state_root@ + h.pow_target@ + u64_be(
        h.timestamp.0,
    ) + u64_be(h.pow_nonce.0)
}

/// Copies a vector of known length into an array.
pub fn vec_to_array<const N: usize>(v: &Vec<u8>) -> (r: [u8; N])
    requires
        v@.len() == N,
    ensures
        r@ == v@,
{
    let mut r = [0u8; N];
    let mut i: usize = 0;
    while i < N
        invariant
            v@.len() == N,
            r@.len() == N,
            i <= N,
            forall|j: int| 0 <= j < i ==> r@[j] == v@[j],
        decreases N - i,
    {
        r[i] = v[i];
        i += 1;
    }
    assert(r@ =~= v@);
    r
}

fn append_unsigned_fields(out: &mut Vec<u8>, tx: &UnsignedTransaction)
    ensures
        final(out)@ == old(out)@ + unsigned_fields(*tx),
{
    append_u16(out, tx.version.0);
    append_u32(out, tx.chain_id.0);
    append_bytes(out, &tx.sender_public_key.0);
    append_bytes(out, &tx.recipient.0);
    append_u64(out, tx.amount.0);
    append_u64(out, tx.nonce.0);
    assert(out@ =~= old(out)@ + unsigned_fields(*tx));
}

/// The signing preimage of a transaction.
pub fn encode_unsigned_transaction_for_signing(tx: &UnsignedTransaction) -> (r: [u8; 91])
    ensures
        r@ == signing_preimage(*tx),
{
    let mut out: Vec<u8> = Vec::new();
    append_bytes(&mut out, &SIGNING_DOMAIN);
    append_unsigned_fields(&mut out, tx);
    assert(out@ =~= signing_preimage(*tx));
    vec_to_array(&out)
}

/// The transaction-id preimage of a signed transaction.
pub fn encode_signed_transaction_for_id(tx: &SignedTransaction) -> (r: [u8; 162])
    ensures
        r@ == signed_transaction_preimage(*tx),
{
    let mut out: Vec<u8> = Vec::new();
    append_bytes(&mut out, &SIGNED_TRANSACTION_DOMAIN);
    append_unsigned_fields(&mut out, &tx.payload);
    append_bytes(&mut out, &tx.signature.0);
    assert(out@ =~= signed_transaction_preimage(*tx));
    vec_to_array(&out)
}

/// The block-hash preimage of a header.
pub fn encode_block_header_for_hash(header: &BlockHeader) -> (r: [u8; 177])
    ensures
        r@ == header_preimage(*header),
{
    let mut out: Vec<u8> = Vec::new();
    append_bytes(&mut out, &BLOCK_HEADER_DOMAIN);
    append_u16(&mut out, header.version.0);
    append_u32(&mut out, header.chain_id.0);
    append_u64(&mut out, header.height.0);
    append_bytes(&mut out, header.previous_block_hash.as_bytes());
    append_bytes(&mut out, header.transaction_root.as_bytes());
    append_bytes(&mut out, header.state_root.as_bytes());
    append_bytes(&mut out, &header.pow_target.0);
    append_u64(&mut out, header.timestamp.0);
    append_u64(&mut out, header.pow_nonce.0);
    assert(out@ =~= header_preimage(*header));
    vec_to_array(&out)
}

/// Splitting a concatenation at the length of its first part gives back the parts.
pub proof fn lemma_split_concat(x: Seq<u8>, y: Seq<u8>, x2: Seq<u8>, y2: Seq<u8>)
    requires
        x + y == x2 + y2,
        x.len() == x2.len(),
    ensures
        x == x2,
        y == y2,
{
    assert(x =~= (x + y).subrange(0, x.len() as int));
    assert(x2 =~= (x2 + y2).subrange(0, x2.len() as int));
    assert(y =~= (x + y).subrange(x.len() as int, (x + y).len() as int));
    assert(y2 =~= (x2 + y2).subrange(x2.len() as int, (x2 + y2).len() as int));
}

/// The encoded fields determine the transaction.
pub proof fn lemma_unsigned_fields_injective(a: UnsignedTransaction, b: UnsignedTransaction)
    requires
        unsigned_fields(a) == unsigned_fields(b),
    ensures
        a == b,
{
    lemma_be_injective();
    let a5 = u16_be(a.version.0) + u32_be(a.chain_id.0) + a.sender_public_key@ + a.recipient@
        + u64_be(a.amount.0);
    let b5 = u16_be(b.version.0) + u32_be(b.chain_id.0) + b.sender_public_key@ + b.recipient@
        + u64_be(b.amount.0);
    lemma_split_concat(a5, u64_be(a.nonce.0), b5, u64_be(b.nonce.0));
    let a4 = u16_be(a.version.0) + u32_be(a.chain_id.0) + a.sender_public_key@ + a.recipient@;
    let b4 = u16_be(b.version.0) + u32_be(b.chain_id.0) + b.sender_public_key@ + b.recipient@;
    lemma_split_concat(a4, u64_be(a.amount.0), b4, u64_be(b.amount.0));
    let a3 = u16_be(a.version.0) + u32_be(a.chain_id.0) + a.sender_public_key@;
    let b3 = u16_be(b.version.0) + u32_be(b.chain_id.0) + b.sender_public_key@;
    lemma_split_concat(a3, a.recipient@, b3, b.recipient@);
    let a2 = u16_be(a.version.0) + u32_be(a.chain_id.0);
    let b2 = u16_be(b.version.0) + u32_be(b.chain_id.0);
    lemma_split_concat(a2, a.sender_public_key@, b2, b.sender_public_key@);
    lemma_split_concat(u16_be(a.version.0), u32_be(a.chain_id.0), u16_be(b.version.0), u32_be(b.chain_id.0));
    assert(a.sender_public_key.0 =~= b.sender_public_key.0);
    assert(a.recipient.0 =~= b.recipient.0);
}

/// Different transactions have different signing preimages.
pub proof fn lemma_signing_preimage_injective(a: UnsignedTransaction, b: UnsignedTransaction)
    requires
        signing_preimage(a) == signing_preimage(b),
    ensures
        a == b,
{
    lemma_split_concat(SIGNING_DOMAIN@, unsigned_fields(a), SIGNING_DOMAIN@, unsigned_fields(b));
    lemma_unsigned_fields_injective(a, b);
}

/// Different signed transactions have different transaction-id preimages.
pub proof fn lemma_signed_transaction_preimage_injective(a: SignedTransaction, b: SignedTransaction)
    requires
        signed_transaction_preimage(a) == signed_transaction_preimage(b),
    ensures
        a == b,
{
    lemma_split_concat(
        SIGNED_TRANSACTION_DOMAIN@ + unsigned_fields(a.payload),
        a.signature@,
        SIGNED_TRANSACTION_DOMAIN@ + unsigned_fields(b.payload),
        b.signature@,
    );
    lemma_split_concat(
        SIGNED_TRANSACTION_DOMAIN@,
        unsigned_fields(a.payload),
        SIGNED_TRANSACTION_DOMAIN@,
        unsigned_fields(b.payload),
    );
    lemma_unsigned_fields_injective(a.payload, b.payload);
    assert(a.signature.0 =~= b.signature.0);
}

/// Different headers have different block-hash preimages: the hash preimage
/// commits to every header field, including the state root and the target.
pub proof fn lemma_header_preimage_injective(a: BlockHeader, b: BlockHeader)
    requires
        header_preimage(a) == header_preimage(b),
    ensures
        a == b,
{
    lemma_be_injective();
    let d = BLOCK_HEADER_DOMAIN@;
    let a9 = d + u16_be(a.version.0) + u32_be(a.chain_id.0) + u64_be(a.height.0)
        + a.previous_block_hash@ + a.transaction_root@ + a.state_root@ + a.pow_target@ + u64_be(a.timestamp.0);
    let b9 = d + u16_be(b.version.0) + u32_be(b.chain_id.0) + u64_be(b.height.0)
        + b.previous_block_hash@ + b.transaction_root@ + b.state_root@ + b.pow_target@ + u64_be(b.timestamp.0);
    lemma_split_concat(a9, u64_be(a.pow_nonce.0), b9, u64_be(b.pow_nonce.0));
    let a8 = d + u16_be(a.version.0) + u32_be(a.chain_id.0) + u64_be(a.height.0)
        + a.previous_block_hash@ + a.transaction_root@ + a.state_root@ + a.pow_target@;
    let b8 = d + u16_be(b.version.0) + u32_be(b.chain_id.0) + u64_be(b.height.0)
        + b.previous_block_hash@ + b.transaction_root@ + b.state_root@ + b.pow_target@;
    lemma_split_concat(a8, u64_be(a.timestamp.0), b8, u64_be(b.timestamp.0));
    let a7 = d + u16_be(a.version.0) + u32_be(a.chain_id.0) + u64_be(a.height.0)
        + a.previous_block_hash@ + a.transaction_root@ + a.state_root@;
    let b7 = d + u16_be(b.version.0) + u32_be(b.chain_id.0) + u64_be(b.height.0)
        + b.previous_block_hash@ + b.transaction_root@ + b.state_root@;
    lemma_split_concat(a7, a.pow_target@, b7, b.pow_target@);
    let a6 = d + u16_be(a.version.0) + u32_be(a.chain_id.0) + u64_be(a.height.0)
        + a.previous_block_hash@ + a.transaction_root@;
    let b6 = d + u16_be(b.version.0) + u32_be(b.chain_id.0) + u64_be(b.height.0)
        + b.previous_block_hash@ + b.transaction_root@;
    lemma_split_concat(a6, a.state_root@, b6, b.state_root@);
    let a5 = d + u16_be(a.version.0) + u32_be(a.chain_id.0) + u64_be(a.height.0)
        + a.previous_block_hash@;
    let b5 = d + u16_be(b.version.0) + u32_be(b.chain_id.0) + u64_be(b.height.0)
        + b.previous_block_hash@;
    lemma_split_concat(a5, a.transaction_root@, b5, b.transaction_root@);
    let a4 = d + u16_be(a.version.0) + u32_be(a.chain_id.0) + u64_be(a.height.0);
    let b4 = d + u16_be(b.version.0) + u32_be(b.chain_id.0) + u64_be(b.height.0);
    lemma_split_concat(a4, a.previous_block_hash@, b4, b.previous_block_hash@);
    let a3 = d + u16_be(a.version.0) + u32_be(a.chain_id.0);
    let b3 = d + u16_be(b.version.0) + u32_be(b.chain_id.0);
    lemma_split_concat(a3, u64_be(a.height.0), b3, u64_be(b.height.0));
    let a2 = d + u16_be(a.version.0);
    let b2 = d + u16_be(b.version.0);
    lemma_split_concat(a2, u32_be(a.chain_id.0), b2, u32_be(b.chain_id.0));
    lemma_split_concat(d, u16_be(a.version.0), d, u16_be(b.version.0));
    assert(a.previous_block_hash.0.0 =~= b.previous_block_hash.0.0);
    assert(a.transaction_root.0.0 =~= b.transaction_root.0.0);
    assert(a.state_root.0.0 =~= b.state_root.0.0);
    assert(a.pow_target.0 =~= b.pow_target.0);
}

} // verus!
