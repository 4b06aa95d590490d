//! SHA-256 and the digests built on it: transaction ids, signing digests,
//! addresses, block hashes and the transaction Merkle root.
use vstd::prelude::*;
use sha2::{Digest, Sha256};
use crate::block::BlockHeader;
use crate::bytes::append_bytes;
use crate::encoding::{
    encode_block_header_for_hash, encode_signed_transaction_for_id,
    encode_unsigned_transaction_for_signing, header_preimage, signed_transaction_preimage,
    signing_preimage,
};
use crate::transaction::{SignedTransaction, UnsignedTransaction};
use crate::types::{Address, BlockHash, Hash256, MerkleRoot, PublicKeyBytes, TransactionId};

verus! {

/// The SHA-256 digest of a byte string.
pub uninterp spec fn sha256_digest(data: Seq<u8>) -> Seq<u8>;

/// SHA-256 of `data`, computed by `sha2::Sha256::digest`; trusted to return
/// the digest of exactly the bytes handed to it (the value is named, not derived).
#[verifier::external_body]
pub fn sha256(data: &[u8]) -> (h: Hash256)
    ensures
        h@ == sha256_digest(data@),
{
    let digest = Sha256::digest(data);
    let mut bytes = [0u8; 32];
    bytes.copy_from_slice(&digest);
    Hash256(bytes)
}

/// The digest a transaction's sender signs.
pub open spec fn spec_signing_digest(tx: UnsignedTransaction) -> Seq<u8> {
    sha256_digest(signing_preimage(tx))
}

/// The identity of a signed transaction.
pub open spec fn spec_transaction_id(tx: SignedTransaction) -> Seq<u8> {
    sha256_digest(signed_transaction_preimage(tx))
}

/// The identity of a block.
pub open spec fn spec_block_hash(h: BlockHeader) -> Seq<u8> {
    sha256_digest(header_preimage(h))
}

/// The address of a public key: the last 20 bytes of its SHA-256 digest.
pub open spec fn spec_address(public_key: Seq<u8>) -> Seq<u8> {
    sha256_digest(public_key).subrange(12, 32)
}

pub fn transaction_signing_digest(tx: &UnsignedTransaction) -> (d: Hash256)
    ensures
        d@ == spec_signing_digest(*tx),
{
    let encoded = encode_unsigned_transaction_for_signing(tx);
    sha256(&encoded)
}

pub fn transaction_id(tx: &SignedTransaction) -> (id: TransactionId)
    ensures
        id@ == spec_transaction_id(*tx),
{
    let encoded = encode_signed_transaction_for_id(tx);
    TransactionId::from_hash(sha256(&encoded))
}

pub fn block_hash(header: &BlockHeader) -> (h: BlockHash)
    ensures
        h@ == spec_block_hash(*header),
{
    let encoded = encode_block_header_for_hash(header);
    BlockHash::from_hash(sha256(&encoded))
}

pub fn derive_address(public_key: &PublicKeyBytes) -> (a: Address)
    ensures
        a@ == spec_address(public_key@),
{
    let hash = sha256(public_key.as_bytes());
    let hash_bytes = hash.as_bytes();
    let mut address = [0u8; 20];
    let mut i: usize = 0;
    while i < 20
        invariant
            hash_bytes@.len() == 32,
            i <= 20,
            forall|j: int| 0 <= j < i ==> address@[j] == hash_bytes@[12 + j],
        decreases 20 - i,
    {
        address[i] = hash_bytes[12 + i];
        i += 1;
    }
    assert(address@ =~= hash@.subrange(12, 32));
    Address::from_bytes(address)
}

/// `b"BLOCKGUARD_MERKLE_EMPTY_V1"`
pub const MERKLE_EMPTY_DOMAIN: [u8; 26] = [
    66, 76, 79, 67, 75, 71, 85, 65, 82, 68, 95, 77, 69, 82, 75, 76, 69, 95, 69, 77, 80, 84, 89, 95,
    86, 49,
];

/// `b"BLOCKGUARD_MERKLE_LEAF_V1"`
pub const MERKLE_LEAF_DOMAIN: [u8; 25] = [
    66, 76, 79, 67, 75, 71, 85, 65, 82, 68, 95, 77, 69, 82, 75, 76, 69, 95, 76, 69, 65, 70, 95, 86,
    49,
];

/// `b"BLOCKGUARD_MERKLE_NODE_V1"`
pub const MERKLE_NODE_DOMAIN: [u8; 25] = [
    66, 76, 79, 67, 75, 71, 85, 65, 82, 68, 95, 77, 69, 82, 75, 76, 69, 95, 78, 79, 68, 69, 95, 86,
    49,
];

/// `b"BLOCKGUARD_MERKLE_ODD_V1"`
pub const MERKLE_ODD_DOMAIN: [u8; 24] = [
    66, 76, 79, 67, 75, 71, 85, 65, 82, 68, 95, 77, 69, 82, 75, 76, 69, 95, 79, 68, 68, 95, 86, 49,
];

/// The Merkle leaf of a transaction.
pub open spec fn merkle_leaf(tx: SignedTransaction) -> Seq<u8> {
    sha256_digest(MERKLE_LEAF_DOMAIN@ + spec_transaction_id(tx))
}

/// The parent of two Merkle nodes.
pub open spec fn merkle_node(left: Seq<u8>, right: Seq<u8>) -> Seq<u8> {
    sha256_digest(MERKLE_NODE_DOMAIN@ + left + right)
}

/// The parent of a node without a sibling.
pub open spec fn merkle_odd(node: Seq<u8>) -> Seq<u8> {
    sha256_digest(MERKLE_ODD_DOMAIN@ + node)
}

/// One level up: neighbours are paired left to right; a last unpaired node is
/// hashed alone.
pub open spec fn merkle_next_level(level: Seq<Seq<u8>>) -> Seq<Seq<u8>> {
    Seq::new(
        ((level.len() + 1) / 2) as nat,
        |i: int|
            if 2 * i + 1 < level.len() {
                merkle_node(level[2 * i], level[2 * i + 1])
            } else {
                merkle_odd(level[2 * i])
            },
    )
}

/// The root above a non-empty level.
pub open spec fn merkle_reduce(level: Seq<Seq<u8>>) -> Seq<u8>
    decreases level.len(),
{
    if level.len() <= 1 {
        level[0]
    } else {
        merkle_reduce(merkle_next_level(level))
    }
}

/// The Merkle root of a transaction list.
pub open spec fn spec_merkle_root(txs: Seq<SignedTransaction>) -> Seq<u8> {
    if txs.len() == 0 {
        sha256_digest(MERKLE_EMPTY_DOMAIN@)
    } else {
        merkle_reduce(txs.map_values(|tx: SignedTransaction| merkle_leaf(tx)))
    }
}

/// Byte strings that start alike and agree in the length of the next part
/// agree part by part.
proof fn lemma_split_three(p: Seq<u8>, a: Seq<u8>, b: Seq<u8>, c: Seq<u8>, d: Seq<u8>)
    requires
        p + a + b == p + c + d,
        a.len() == c.len(),
    ensures
        a == c,
        b == d,
{
    let x = p + a + b;
    assert(a =~= x.subrange(p.len() as int, (p.len() + a.len()) as int));
    assert(c =~= (p + c + d).subrange(p.len() as int, (p.len() + c.len()) as int));
    assert(b =~= x.subrange((p.len() + a.len()) as int, x.len() as int));
    assert(d =~= (p + c + d).subrange((p.len() + c.len()) as int, x.len() as int));
}

/// With a collision-free hash of 32-byte digests, two levels of the same
/// length that reduce to the same root are the same level: every node,
/// the last one included, is committed to.
proof fn lemma_reduce_commits(l1: Seq<Seq<u8>>, l2: Seq<Seq<u8>>)
    requires
        forall|x: Seq<u8>, y: Seq<u8>| #[trigger] sha256_digest(x) == #[trigger] sha256_digest(y) ==> x == y,
        forall|x: Seq<u8>| #[trigger] sha256_digest(x).len() == 32,
        l1.len() == l2.len(),
        l1.len() >= 1,
        forall|k: int| 0 <= k < l1.len() ==> (#[trigger] l1[k]).len() == 32,
        forall|k: int| 0 <= k < l2.len() ==> (#[trigger] l2[k]).len() == 32,
        merkle_reduce(l1) == merkle_reduce(l2),
    ensures
        l1 == l2,
    decreases l1.len(),
{
    if l1.len() > 1 {
        let n1 = merkle_next_level(l1);
        let n2 = merkle_next_level(l2);
        lemma_reduce_commits(n1, n2);
        assert forall|k: int| 0 <= k < l1.len() implies l1[k] == l2[k] by {
            let i = k / 2;
            assert(n1[i] == n2[i]);
            if 2 * i + 1 < l1.len() {
                lemma_split_three(MERKLE_NODE_DOMAIN@, l1[2 * i], l1[2 * i + 1], l2[2 * i], l2[2 * i + 1]);
            } else {
                assert(MERKLE_ODD_DOMAIN@ + l1[2 * i] == MERKLE_ODD_DOMAIN@ + l2[2 * i]);
                assert(l1[2 * i] =~= (MERKLE_ODD_DOMAIN@ + l1[2 * i]).subrange(24, 56));
                assert(l2[2 * i] =~= (MERKLE_ODD_DOMAIN@ + l2[2 * i]).subrange(24, 56));
            }
        }
        assert(l1 =~= l2);
    }
}

/// The Merkle root commits to every transaction: with a collision-free hash
/// of 32-byte digests, two transaction lists of the same length with the
/// same root carry the same transaction id at every position, the last one
/// included. Equivalently, lists that differ in one transaction (for any
/// position) have different roots unless two different inputs hash alike.
pub proof fn lemma_merkle_root_commits(a: Seq<SignedTransaction>, b: Seq<SignedTransaction>)
    requires
        forall|x: Seq<u8>| #[trigger] sha256_digest(x).len() == 32,
        a.len() == b.len(),
        spec_merkle_root(a) == spec_merkle_root(b),
    ensures
        (forall|x: Seq<u8>, y: Seq<u8>| #[trigger] sha256_digest(x) == #[trigger] sha256_digest(y) ==> x == y)
            ==> forall|i: int| 0 <= i < a.len() ==> spec_transaction_id(#[trigger] a[i]) == spec_transaction_id(b[i]),
{
    if a.len() > 0 && forall|x: Seq<u8>, y: Seq<u8>| #[trigger] sha256_digest(x) == #[trigger] sha256_digest(y) ==> x == y {
        let la = a.map_values(|tx: SignedTransaction| merkle_leaf(tx));
        let lb = b.map_values(|tx: SignedTransaction| merkle_leaf(tx));
        lemma_reduce_commits(la, lb);
        assert forall|i: int| 0 <= i < a.len() implies spec_transaction_id(#[trigger] a[i]) == spec_transaction_id(b[i]) by {
            assert(la[i] == lb[i]);
            let x = MERKLE_LEAF_DOMAIN@ + spec_transaction_id(a[i]);
            let y = MERKLE_LEAF_DOMAIN@ + spec_transaction_id(b[i]);
            assert(x == y);
            assert(spec_transaction_id(a[i]) =~= x.subrange(25, x.len() as int));
            assert(spec_transaction_id(b[i]) =~= y.subrange(25, y.len() as int));
        }
    }
}

/// `2^k`.
pub open spec fn two_to(k: nat) -> nat
    decreases k,
{
    if k == 0 {
        1
    } else {
        2 * two_to((k - 1) as nat)
    }
}

/// A node hashed alone `k` times, as a last node without siblings is on its
/// way up `k` levels.
pub open spec fn odd_times(node: Seq<u8>, k: nat) -> Seq<u8>
    decreases k,
{
    if k == 0 {
        node
    } else {
        odd_times(merkle_odd(node), (k - 1) as nat)
    }
}

/// One level up over two parts, the first of even length, is the levels up
/// over each part, one after the other.
proof fn lemma_next_level_concat(a: Seq<Seq<u8>>, b: Seq<Seq<u8>>)
    requires
        a.len() % 2 == 0,
    ensures
        merkle_next_level(a + b) == merkle_next_level(a) + merkle_next_level(b),
{
    let c = a + b;
    let l = merkle_next_level(c);
    let r = merkle_next_level(a) + merkle_next_level(b);
    assert(l.len() == r.len());
    assert forall|i: int| 0 <= i < l.len() implies l[i] == r[i] by {
        let h = a.len() / 2;
        if i < h {
            assert(c[2 * i] == a[2 * i] && c[2 * i + 1] == a[2 * i + 1]);
        } else {
            let j = i - h;
            assert(c[2 * i] == b[2 * j]);
            if 2 * j + 1 < b.len() {
                assert(c[2 * i + 1] == b[2 * j + 1]);
            }
        }
    }
    assert(l =~= r);
}

/// Two levels of `2^k` nodes each reduce, side by side, to the node over
/// their two roots.
proof fn lemma_reduce_halves(a: Seq<Seq<u8>>, b: Seq<Seq<u8>>, k: nat)
    requires
        a.len() == two_to(k),
        b.len() == two_to(k),
    ensures
        merkle_reduce(a + b) == merkle_node(merkle_reduce(a), merkle_reduce(b)),
    decreases k,
{
    if k == 0 {
        let c = a + b;
        assert(c.len() == 2 && c[0] == a[0] && c[1] == b[0]);
        assert(merkle_next_level(c).len() == 1);
        assert(merkle_next_level(c)[0] == merkle_node(c[0], c[1]));
        assert(merkle_reduce(merkle_next_level(c)) == merkle_next_level(c)[0]);
        assert(merkle_reduce(a) == a[0] && merkle_reduce(b) == b[0]);
    } else {
        lemma_two_to_positive((k - 1) as nat);
        assert(two_to(k) == 2 * two_to((k - 1) as nat));
        lemma_next_level_concat(a, b);
        assert(merkle_next_level(a).len() == two_to((k - 1) as nat));
        assert(merkle_next_level(b).len() == two_to((k - 1) as nat));
        lemma_reduce_halves(merkle_next_level(a), merkle_next_level(b), (k - 1) as nat);
        assert(merkle_reduce(a + b) == merkle_reduce(merkle_next_level(a + b)));
        assert(merkle_reduce(a) == merkle_reduce(merkle_next_level(a)));
        assert(merkle_reduce(b) == merkle_reduce(merkle_next_level(b)));
    }
}

/// A level of `2^k` nodes with one node after them reduces to the node over
/// their root and that last node hashed alone `k` times.
proof fn lemma_reduce_append_one(a: Seq<Seq<u8>>, x: Seq<u8>, k: nat)
    requires
        a.len() == two_to(k),
    ensures
        merkle_reduce(a.push(x)) == merkle_node(merkle_reduce(a), odd_times(x, k)),
    decreases k,
{
    if k == 0 {
        let c = a.push(x);
        assert(c.len() == 2 && c[0] == a[0] && c[1] == x);
        assert(merkle_next_level(c).len() == 1);
        assert(merkle_next_level(c)[0] == merkle_node(c[0], c[1]));
        assert(merkle_reduce(merkle_next_level(c)) == merkle_next_level(c)[0]);
        assert(merkle_reduce(a) == a[0]);
    } else {
        lemma_two_to_positive((k - 1) as nat);
        assert(two_to(k) == 2 * two_to((k - 1) as nat));
        assert(merkle_next_level(a).len() == two_to((k - 1) as nat));
        assert(merkle_reduce(a.push(x)) == merkle_reduce(merkle_next_level(a.push(x))));
        assert(merkle_reduce(a) == merkle_reduce(merkle_next_level(a)));
        assert(a.push(x) =~= a + seq![x]);
        lemma_next_level_concat(a, seq![x]);
        let one = merkle_next_level(seq![x]);
        assert(one =~= seq![merkle_odd(x)]);
        assert(merkle_next_level(a) + one =~= merkle_next_level(a).push(merkle_odd(x)));
        lemma_reduce_append_one(merkle_next_level(a), merkle_odd(x), (k - 1) as nat);
    }
}

/// The Merkle root of `2^k` transactions followed by `2^k` more is the node
/// over the roots of the two halves, first half first.
pub proof fn lemma_merkle_root_halves(s: Seq<SignedTransaction>, t: Seq<SignedTransaction>, k: nat)
    requires
        s.len() == two_to(k),
        t.len() == two_to(k),
    ensures
        spec_merkle_root(s + t) == merkle_node(spec_merkle_root(s), spec_merkle_root(t)),
{
    assert(two_to(k) >= 1) by {
        lemma_two_to_positive(k);
    }
    let f = |tx: SignedTransaction| merkle_leaf(tx);
    assert((s + t).map_values(f) =~= s.map_values(f) + t.map_values(f));
    lemma_reduce_halves(s.map_values(f), t.map_values(f), k);
}

/// The Merkle root of `2^k` transactions followed by one more is the node
/// over their root and the last transaction's leaf hashed alone `k` times:
/// the unpaired last transaction is carried up by itself.
pub proof fn lemma_merkle_root_append_one(s: Seq<SignedTransaction>, x: SignedTransaction, k: nat)
    requires
        s.len() == two_to(k),
    ensures
        spec_merkle_root(s.push(x)) == merkle_node(spec_merkle_root(s), odd_times(merkle_leaf(x), k)),
{
    assert(two_to(k) >= 1) by {
        lemma_two_to_positive(k);
    }
    let f = |tx: SignedTransaction| merkle_leaf(tx);
    assert(s.push(x).map_values(f) =~= s.map_values(f).push(merkle_leaf(x)));
    lemma_reduce_append_one(s.map_values(f), merkle_leaf(x), k);
}

proof fn lemma_two_to_positive(k: nat)
    ensures
        two_to(k) >= 1,
    decreases k,
{
    if k > 0 {
        lemma_two_to_positive((k - 1) as nat);
    }
}

/// The views of a list of digests.
pub open spec fn hash_views(v: Seq<Hash256>) -> Seq<Seq<u8>> {
    v.map_values(|h: Hash256| h@)
}

fn hash_transaction_leaf(tx: &SignedTransaction) -> (h: Hash256)
    ensures
        h@ == merkle_leaf(*tx),
{
    let tx_id = transaction_id(tx);
    let mut preimage: Vec<u8> = Vec::new();
    append_bytes(&mut preimage, &MERKLE_LEAF_DOMAIN);
    append_bytes(&mut preimage, tx_id.as_bytes());
    sha256(preimage.as_slice())
}

fn hash_node(left: &Hash256, right: &Hash256) -> (h: Hash256)
    ensures
        h@ == merkle_node(left@, right@),
{
    let mut preimage: Vec<u8> = Vec::new();
    append_bytes(&mut preimage, &MERKLE_NODE_DOMAIN);
    append_bytes(&mut preimage, left.as_bytes());
    append_bytes(&mut preimage, right.as_bytes());
    assert(preimage@ =~= MERKLE_NODE_DOMAIN@ + left@ + right@);
    sha256(preimage.as_slice())
}

fn hash_odd_node(node: &Hash256) -> (h: Hash256)
    ensures
        h@ == merkle_odd(node@),
{
    let mut preimage: Vec<u8> = Vec::new();
    append_bytes(&mut preimage, &MERKLE_ODD_DOMAIN);
    append_bytes(&mut preimage, node.as_bytes());
    sha256(preimage.as_slice())
}

fn next_level(level: &Vec<Hash256>) -> (next: Vec<Hash256>)
    requires
        level@.len() > 1,
    ensures
        hash_views(next@) == merkle_next_level(hash_views(level@)),
        next@.len() == (level@.len() + 1) / 2,
{
    let ghost lv = hash_views(level@);
    let n = level.len();
    let half = n / 2 + n % 2;
    let mut next: Vec<Hash256> = Vec::new();
    let mut i: usize = 0;
    while i < half
        invariant
            n == level@.len(),
            n > 1,
            half == (n + 1) / 2,
            lv == hash_views(level@),
            i <= half,
            next@.len() == i,
            forall|j: int| 0 <= j < i ==> #[trigger] next@[j]@ == merkle_next_level(lv)[j],
        decreases half - i,
    {
        let parent = if 2 * i + 1 < n {
            hash_node(&level[2 * i], &level[2 * i + 1])
        } else {
            hash_odd_node(&level[2 * i])
        };
        next.push(parent);
        i += 1;
    }
    assert(hash_views(next@) =~= merkle_next_level(lv));
    next
}

/// The Merkle root of a block's transactions.
pub fn merkle_root(transactions: &[SignedTransaction]) -> (root: MerkleRoot)
    ensures
        root@ == spec_merkle_root(transactions@),
{
    if transactions.len() == 0 {
        return MerkleRoot::from_hash(sha256(&MERKLE_EMPTY_DOMAIN));
    }
    let ghost leaves = transactions@.map_values(|tx: SignedTransaction| merkle_leaf(tx));
    let mut level: Vec<Hash256> = Vec::new();
    let mut i: usize = 0;
    while i < transactions.len()
        invariant
            i <= transactions@.len(),
            leaves == transactions@.map_values(|tx: SignedTransaction| merkle_leaf(tx)),
            level@.len() == i,
            forall|j: int| 0 <= j < i ==> #[trigger] level@[j]@ == leaves[j],
        decreases transactions@.len() - i,
    {
        level.push(hash_transaction_leaf(&transactions[i]));
        i += 1;
    }
    assert(hash_views(level@) =~= leaves);
    while level.len() > 1
        invariant
            level@.len() >= 1,
            merkle_reduce(hash_views(level@)) == merkle_reduce(leaves),
        decreases level@.len(),
    {
        let next = next_level(&level);
        level = next;
    }
    MerkleRoot::from_hash(level[0])
}

} // verus!
