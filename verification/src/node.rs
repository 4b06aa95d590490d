//! A node: the chain of a genesis configuration with its pool of pending
//! transfers; block production, block acceptance and the answers to peers.
use vstd::prelude::*;
use crate::block::{Block, BlockHeader};
use crate::bytes::{compare_be, Comparison};
use crate::chain::{
    apply_all, apply_transactions, path_to, same_block, spec_append_error, spec_appended, spec_next_target, Blockchain,
    ChainEntry, ChainView,
};
use crate::fork::ChainError;
use crate::genesis::GenesisConfig;
use crate::chain::find_entry;
use crate::hash::{block_hash, merkle_root, spec_block_hash, spec_merkle_root, spec_transaction_id, transaction_id};
use crate::mempool::holds_id;
use crate::network::{Message, WireMessage};
use crate::types::BlockHeight;
use crate::mempool::{id_value, lemma_candidates_apply, lemma_candidates_bounded, revalidated, select, spec_admit, Mempool, MempoolError, MempoolView};
use crate::pow::{mine_header, spec_validate_pow, with_nonce, PowError};
use crate::state::spec_state_root;
use crate::storage::StorageError;
use crate::transaction::SignedTransaction;
use crate::types::{BlockHash, BlockTimestamp, BlockVersion, PowNonce, TransactionId};

verus! {

/// Why a node operation fails.
#[derive(Debug, Clone, Copy, PartialEq, Eq)]
pub enum NodeError {
    Chain(ChainError),
    Mempool(MempoolError),
    Mining(PowError),
    Storage(StorageError),
    StorageNotConfigured,
    HeightOverflow,
}

/// A chain and its pool of pending transfers.
pub struct Node {
    genesis_config: GenesisConfig,
    blockchain: Blockchain,
    mempool: Mempool,
}

impl Node {
    pub closed spec fn config(&self) -> GenesisConfig {
        self.genesis_config
    }

    pub closed spec fn chain(&self) -> Blockchain {
        self.blockchain
    }

    pub closed spec fn pool(&self) -> Mempool {
        self.mempool
    }

    /// The chain is well formed and the pool belongs to its chain.
    pub closed spec fn wf(&self) -> bool {
        &&& self.blockchain.wf()
        &&& self.mempool@.chain_id == self.blockchain@.chain_id
    }

    /// A node at the genesis of `genesis_config`, with an empty pool.
    pub fn new(genesis_config: GenesisConfig) -> (r: Result<Self, NodeError>)
        ensures
            r matches Ok(n) && {
                &&& n.wf()
                &&& n.config() == genesis_config
                &&& n.chain()@.chain_id == genesis_config.spec_chain_id()
                &&& n.chain()@.entries.len() == 1
                &&& n.chain()@.entries[0].header == genesis_config.spec_genesis_header()
                &&& n.pool()@.transactions.len() == 0
            },
    {
        let blockchain = match Blockchain::from_genesis_config(&genesis_config) {
            Ok(c) => c,
            Err(e) => {
                return Err(NodeError::Chain(e));
            },
        };
        let mempool = Mempool::new(genesis_config.chain_id());
        Ok(Node { genesis_config, blockchain, mempool })
    }

    /// A node over a restored chain, with an empty pool.
    pub fn from_parts(genesis_config: GenesisConfig, blockchain: Blockchain) -> (n: Self)
        requires
            blockchain.wf(),
        ensures
            n.wf(),
            n.config() == genesis_config,
            n.chain() == blockchain,
            n.pool()@.chain_id == blockchain@.chain_id,
            n.pool()@.transactions.len() == 0,
    {
        let mempool = Mempool::new(blockchain.chain_id());
        Node { genesis_config, blockchain, mempool }
    }

    pub fn genesis_config(&self) -> (r: &GenesisConfig)
        ensures
            *r == self.config(),
    {
        &self.genesis_config
    }

    pub fn blockchain(&self) -> (r: &Blockchain)
        ensures
            *r == self.chain(),
    {
        &self.blockchain
    }

    pub fn mempool(&self) -> (r: &Mempool)
        ensures
            *r == self.pool(),
    {
        &self.mempool
    }

    /// Admits a transfer to the pool against the canonical state.
    pub fn submit_transaction(&mut self, tx: SignedTransaction) -> (r: Result<TransactionId, NodeError>)
        requires
            old(self).wf(),
        ensures
            final(self).wf(),
            final(self).chain() == old(self).chain(),
            final(self).config() == old(self).config(),
            match spec_admit(old(self).pool()@, tx, old(self).chain()@.entries[old(self).chain()@.tip].state) {
                Ok(t) => r matches Ok(id) && id@ == spec_transaction_id(tx) && final(self).pool()@ == (MempoolView {
                    chain_id: old(self).pool()@.chain_id,
                    transactions: t,
                }),
                Err(e) => r == Err::<TransactionId, NodeError>(NodeError::Mempool(e)) && final(self).pool()@ == old(
                    self,
                ).pool()@,
            },
    {
        match self.mempool.admit_transaction(tx, self.blockchain.state()) {
            Ok(id) => Ok(id),
            Err(e) => Err(NodeError::Mempool(e)),
        }
    }
}


/// The transactions of the blocks at `path`, block after block.
pub open spec fn txs_along(e: Seq<ChainEntry>, path: Seq<int>) -> Seq<SignedTransaction>
    decreases path.len(),
{
    if path.len() == 0 {
        Seq::empty()
    } else {
        txs_along(e, path.drop_last()) + e[path.last()].transactions
    }
}

/// The transactions of the canonical chain, genesis first.
pub open spec fn canonical_transactions(v: ChainView) -> Seq<SignedTransaction> {
    txs_along(v.entries, path_to(v.entries, v.tip))
}

/// The ids of the transactions of `s`.
pub open spec fn confirmed_ids(s: Seq<SignedTransaction>) -> Set<Seq<u8>> {
    Set::new(|id: Seq<u8>| exists|k: int| 0 <= k < s.len() && spec_transaction_id(#[trigger] s[k]) == id)
}

/// The transactions of `old` whose ids are not confirmed, in the order of `old`.
pub open spec fn orphans(old: Seq<SignedTransaction>, confirmed: Set<Seq<u8>>) -> Seq<SignedTransaction>
    decreases old.len(),
{
    if old.len() == 0 {
        Seq::empty()
    } else {
        let r = orphans(old.drop_last(), confirmed);
        if confirmed.contains(spec_transaction_id(old.last())) {
            r
        } else {
            r.push(old.last())
        }
    }
}

/// `o` holds the transactions the old canonical chain confirmed and the new
/// one does not, ascending by id.
pub open spec fn orphan_order(
    o: Seq<SignedTransaction>,
    old_txs: Seq<SignedTransaction>,
    new_txs: Seq<SignedTransaction>,
) -> bool {
    &&& o.to_multiset() == orphans(old_txs, confirmed_ids(new_txs)).to_multiset()
    &&& forall|i: int, j: int| 0 <= i < j < o.len() ==> id_value(#[trigger] o[i]) <= id_value(#[trigger] o[j])
}

/// The pool after the chain moved from `c0` to `c1`: unchanged while the
/// canonical tip stays; otherwise what remains of the pool revalidated
/// against the new tip's state, followed by the transactions that only the
/// old canonical chain confirmed, offered again in ascending id order.
pub open spec fn pool_follows_chain(c0: ChainView, c1: ChainView, p0: MempoolView, p1: MempoolView) -> bool {
    &&& tip_hash(c1) == tip_hash(c0) ==> p1 == p0
    &&& tip_hash(c1) != tip_hash(c0) ==> exists|o: Seq<SignedTransaction>|
        orphan_order(o, canonical_transactions(c0), canonical_transactions(c1)) && p1.transactions == revalidated(
            p0.chain_id,
            revalidated(p0.chain_id, Seq::empty(), tip_state(c1), p0.transactions),
            tip_state(c1),
            o,
        )
}

/// The transactions of the canonical chain.
fn canonical_txs(chain: &Blockchain) -> (r: Vec<SignedTransaction>)
    requires
        chain.wf(),
    ensures
        r@ == canonical_transactions(chain@),
{
    let blocks = chain.blocks();
    let ghost e = chain@.entries;
    let ghost path = chain.canonical();
    let mut r: Vec<SignedTransaction> = Vec::new();
    let mut k: usize = 0;
    while k < blocks.len()
        invariant
            blocks@.len() == path.len(),
            path == path_to(e, chain@.tip),
            e == chain@.entries,
            forall|q: int|
                0 <= q < blocks@.len() ==> same_block(#[trigger] blocks@[q], e[path[q]].header, e[path[q]].transactions),
            k <= blocks@.len(),
            r@ == txs_along(e, path.subrange(0, k as int)),
        decreases blocks@.len() - k,
    {
        let block = &blocks[k];
        assert(same_block(blocks@[k as int], e[path[k as int]].header, e[path[k as int]].transactions));
        let ghost prefix = r@;
        let mut i: usize = 0;
        while i < block.transactions.len()
            invariant
                i <= block.transactions@.len(),
                r@ == prefix + block.transactions@.subrange(0, i as int),
            decreases block.transactions@.len() - i,
        {
            r.push(block.transactions[i]);
            i += 1;
            assert(r@ =~= prefix + block.transactions@.subrange(0, i as int));
        }
        assert(block.transactions@.subrange(0, i as int) =~= block.transactions@);
        assert(path.subrange(0, k + 1).drop_last() =~= path.subrange(0, k as int));
        k += 1;
    }
    assert(path.subrange(0, k as int) =~= path);
    r
}

/// The ids of a list of transactions.
fn transaction_ids(txs: &Vec<SignedTransaction>) -> (r: Vec<TransactionId>)
    ensures
        r@.len() == txs@.len(),
        forall|k: int| 0 <= k < r@.len() ==> (#[trigger] r@[k])@ == spec_transaction_id(txs@[k]),
{
    let mut r: Vec<TransactionId> = Vec::new();
    let mut k: usize = 0;
    while k < txs.len()
        invariant
            k <= txs@.len(),
            r@.len() == k,
            forall|q: int| 0 <= q < k ==> (#[trigger] r@[q])@ == spec_transaction_id(txs@[q]),
        decreases txs@.len() - k,
    {
        r.push(transaction_id(&txs[k]));
        k += 1;
    }
    r
}

/// The transactions of `old` whose ids are not among `confirmed`.
fn orphaned(old: &Vec<SignedTransaction>, confirmed: &Vec<TransactionId>, Ghost(new_txs): Ghost<Seq<SignedTransaction>>) -> (r: Vec<SignedTransaction>)
    requires
        confirmed@.len() == new_txs.len(),
        forall|k: int| 0 <= k < confirmed@.len() ==> (#[trigger] confirmed@[k])@ == spec_transaction_id(new_txs[k]),
    ensures
        r@ == orphans(old@, confirmed_ids(new_txs)),
{
    let mut r: Vec<SignedTransaction> = Vec::new();
    let mut k: usize = 0;
    while k < old.len()
        invariant
            k <= old@.len(),
            confirmed@.len() == new_txs.len(),
            forall|q: int| 0 <= q < confirmed@.len() ==> (#[trigger] confirmed@[q])@ == spec_transaction_id(new_txs[q]),
            r@ == orphans(old@.subrange(0, k as int), confirmed_ids(new_txs)),
        decreases old@.len() - k,
    {
        let tx = old[k];
        let id = transaction_id(&tx);
        let mut found = false;
        let mut j: usize = 0;
        while j < confirmed.len()
            invariant
                j <= confirmed@.len(),
                confirmed@.len() == new_txs.len(),
                forall|q: int| 0 <= q < confirmed@.len() ==> (#[trigger] confirmed@[q])@ == spec_transaction_id(new_txs[q]),
                found == exists|q: int| 0 <= q < j && (#[trigger] confirmed@[q])@ == id@,
            decreases confirmed@.len() - j,
        {
            if confirmed[j] == id {
                found = true;
            }
            j += 1;
        }
        proof {
            assert(old@.subrange(0, k + 1).drop_last() =~= old@.subrange(0, k as int));
            assert(old@.subrange(0, k + 1).last() == tx);
            if found {
                let q = choose|q: int| 0 <= q < j && (#[trigger] confirmed@[q])@ == id@;
                assert(spec_transaction_id(new_txs[q]) == id@);
                assert(confirmed_ids(new_txs).contains(id@));
            } else {
                if confirmed_ids(new_txs).contains(id@) {
                    let q = choose|q: int| 0 <= q < new_txs.len() && spec_transaction_id(#[trigger] new_txs[q]) == id@;
                    assert(confirmed@[q]@ == id@);
                }
            }
        }
        if !found {
            r.push(tx);
        }
        k += 1;
    }
    assert(old@.subrange(0, old@.len() as int) =~= old@);
    r
}

/// The transactions ascending by id (a stable insertion sort).
fn sort_by_id(v: Vec<SignedTransaction>) -> (r: Vec<SignedTransaction>)
    ensures
        r@.to_multiset() == v@.to_multiset(),
        forall|i: int, j: int| 0 <= i < j < r@.len() ==> id_value(#[trigger] r@[i]) <= id_value(#[trigger] r@[j]),
{
    broadcast use vstd::seq_lib::group_to_multiset_ensures;

    let mut out: Vec<SignedTransaction> = Vec::new();
    let mut ids: Vec<TransactionId> = Vec::new();
    let mut i: usize = 0;
    while i < v.len()
        invariant
            i <= v@.len(),
            ids@.len() == out@.len(),
            forall|k: int| 0 <= k < ids@.len() ==> (#[trigger] ids@[k])@ == spec_transaction_id(out@[k]),
            forall|a: int, b: int| 0 <= a < b < out@.len() ==> id_value(#[trigger] out@[a]) <= id_value(#[trigger] out@[b]),
            out@.to_multiset() == v@.subrange(0, i as int).to_multiset(),
        decreases v@.len() - i,
    {
        let x = v[i];
        let xid = transaction_id(&x);
        let mut p: usize = 0;
        while p < out.len() && compare_be(ids[p].as_bytes(), xid.as_bytes()) != Comparison::Greater
            invariant
                p <= out@.len(),
                ids@.len() == out@.len(),
                forall|k: int| 0 <= k < ids@.len() ==> (#[trigger] ids@[k])@ == spec_transaction_id(out@[k]),
                forall|k: int| 0 <= k < p ==> id_value(#[trigger] out@[k]) <= id_value(x),
                xid@ == spec_transaction_id(x),
            decreases out@.len() - p,
        {
            assert(ids@[p as int]@ == spec_transaction_id(out@[p as int]));
            p += 1;
        }
        proof {
            if p < out@.len() {
                assert(ids@[p as int]@ == spec_transaction_id(out@[p as int]));
                assert(id_value(x) < id_value(out@[p as int]));
            }
        }
        let ghost old_out = out@;
        let ghost old_ids = ids@;
        out.insert(p, x);
        ids.insert(p, xid);
        proof {
            assert(out@ == old_out.insert(p as int, x));
            assert(v@.subrange(0, i + 1) =~= v@.subrange(0, i as int).push(x));
            vstd::seq_lib::to_multiset_insert(old_out, p as int, x);
            vstd::seq_lib::to_multiset_build(v@.subrange(0, i as int), x);
            assert forall|k: int| 0 <= k < ids@.len() implies (#[trigger] ids@[k])@ == spec_transaction_id(out@[k]) by {
                if k < p {
                    assert(ids@[k] == old_ids[k] && out@[k] == old_out[k]);
                } else if k > p {
                    assert(ids@[k] == old_ids[k - 1] && out@[k] == old_out[k - 1]);
                }
            }
            assert forall|a: int, b: int| 0 <= a < b < out@.len() implies id_value(#[trigger] out@[a]) <= id_value(
                #[trigger] out@[b],
            ) by {
                if b < p {
                    assert(out@[a] == old_out[a] && out@[b] == old_out[b]);
                } else if b == p {
                    assert(out@[a] == old_out[a]);
                } else if a < p {
                    assert(out@[a] == old_out[a] && out@[b] == old_out[b - 1]);
                    assert(id_value(old_out[p as int]) <= id_value(old_out[b - 1]));
                } else if a == p {
                    assert(out@[b] == old_out[b - 1]);
                    assert(id_value(old_out[p as int]) <= id_value(old_out[b - 1]));
                } else {
                    assert(out@[a] == old_out[a - 1] && out@[b] == old_out[b - 1]);
                }
            }
        }
        i += 1;
    }
    assert(v@.subrange(0, v@.len() as int) =~= v@);
    out
}


impl Node {
    /// After the canonical chain changed: the pool is rebuilt against the
    /// new canonical state, then the transactions the old canonical chain
    /// confirmed and the new one does not are admitted again, lowest id first.
    fn revalidate_after_canonical_change(&mut self, old_txs: Vec<SignedTransaction>)
        requires
            old(self).wf(),
        ensures
            final(self).wf(),
            final(self).chain() == old(self).chain(),
            final(self).config() == old(self).config(),
            final(self).pool()@.chain_id == old(self).pool()@.chain_id,
            exists|o: Seq<SignedTransaction>|
                orphan_order(o, old_txs@, canonical_transactions(old(self).chain()@)) && final(self).pool()@.transactions
                    == revalidated(
                    old(self).pool()@.chain_id,
                    revalidated(
                        old(self).pool()@.chain_id,
                        Seq::empty(),
                        old(self).chain()@.entries[old(self).chain()@.tip].state,
                        old(self).pool()@.transactions,
                    ),
                    old(self).chain()@.entries[old(self).chain()@.tip].state,
                    o,
                ),
    {
        let new_txs = canonical_txs(&self.blockchain);
        let confirmed = transaction_ids(&new_txs);
        let orphan = orphaned(&old_txs, &confirmed, Ghost(new_txs@));
        let sorted = sort_by_id(orphan);
        let ghost o = sorted@;
        self.mempool.revalidate(self.blockchain.state());
        self.mempool.readmit(sorted, self.blockchain.state());
        assert(orphan_order(o, old_txs@, canonical_transactions(old(self).chain()@)));
    }

    /// Validates and indexes a block. When the canonical tip moves, the pool
    /// is revalidated against the new canonical state and the transactions
    /// the old canonical chain confirmed and the new one does not are offered
    /// to it again. A rejected block changes nothing.
    pub fn accept_block(&mut self, block: Block) -> (r: Result<BlockHash, NodeError>)
        requires
            old(self).wf(),
        ensures
            final(self).wf(),
            final(self).config() == old(self).config(),
            final(self).pool()@.chain_id == old(self).pool()@.chain_id,
            match spec_append_error(old(self).chain()@, block.header, block.transactions@) {
                Some(e) => r == Err::<BlockHash, NodeError>(NodeError::Chain(e)) && final(self).chain()@ == old(
                    self,
                ).chain()@ && final(self).pool()@ == old(self).pool()@,
                None => r matches Ok(h) && h@ == spec_block_hash(block.header) && final(self).chain()@
                    == spec_appended(old(self).chain()@, block.header, block.transactions@),
            },
            pool_follows_chain(old(self).chain()@, final(self).chain()@, old(self).pool()@, final(self).pool()@),
    {
        let old_tip = self.blockchain.canonical_tip_hash();
        let old_txs = canonical_txs(&self.blockchain);
        let hash = match self.blockchain.append_block(block) {
            Ok(h) => h,
            Err(e) => {
                return Err(NodeError::Chain(e));
            },
        };
        let new_tip = self.blockchain.canonical_tip_hash();
        if !(new_tip == old_tip) {
            self.revalidate_after_canonical_change(old_txs);
        }
        Ok(hash)
    }
}

/// The hash of the canonical tip.
pub open spec fn tip_hash(v: ChainView) -> Seq<u8> {
    v.entries[v.tip].hash
}

/// The state at the canonical tip.
pub open spec fn tip_state(v: ChainView) -> Map<Seq<u8>, crate::state::Account> {
    v.entries[v.tip].state
}


/// A header for the next block on the canonical tip of `v` carrying `txs`
/// at `timestamp`: version 1, the chain's id, one above the tip, on the tip,
/// committing to `txs` and to the state they leave, with the target the
/// chain expects next; only the nonce is free.
pub open spec fn is_next_header(
    h: BlockHeader,
    v: ChainView,
    txs: Seq<SignedTransaction>,
    timestamp: BlockTimestamp,
) -> bool {
    &&& h.version.0 == 1
    &&& h.chain_id == v.chain_id
    &&& h.height.0 == v.entries[v.tip].header.height.0 + 1
    &&& h.previous_block_hash@ == tip_hash(v)
    &&& h.transaction_root@ == spec_merkle_root(txs)
    &&& h.state_root@ == spec_state_root(apply_all(tip_state(v), txs)->Ok_0)
    &&& spec_next_target(v, tip_hash(v)) == Ok::<Seq<u8>, ChainError>(h.pow_target@)
    &&& h.timestamp == timestamp
}

impl Node {
    /// Builds, mines and accepts the next block on the canonical tip: up to
    /// `max_transactions` pool candidates, the state they leave, the target
    /// the chain expects next, and the first nonce that meets it. Mining
    /// fails when no nonce meets the target; otherwise the mined block is
    /// accepted or refused as `accept_block` decides, whatever its nonce.
    pub fn produce_block(&mut self, timestamp: BlockTimestamp, max_transactions: usize) -> (r: Result<Block, NodeError>)
        requires
            old(self).wf(),
        ensures
            final(self).wf(),
            final(self).config() == old(self).config(),
            old(self).chain()@.entries[old(self).chain()@.tip].header.height.0 == u64::MAX ==> r == Err::<
                Block,
                NodeError,
            >(NodeError::HeightOverflow),
            r is Err ==> final(self).chain()@ == old(self).chain()@ && final(self).pool()@ == old(self).pool()@,
            r is Err ==> r == Err::<Block, NodeError>(NodeError::HeightOverflow) || r matches Err(NodeError::Mining(_))
                || r matches Err(NodeError::Chain(_)),
            ({
                let v = old(self).chain()@;
                let txs = select(tip_state(v), old(self).pool()@.transactions, max_transactions as nat);
                &&& r == Err::<Block, NodeError>(NodeError::HeightOverflow) ==> v.entries[v.tip].header.height.0
                    == u64::MAX
                &&& r matches Err(NodeError::Mining(_)) ==> forall|h: BlockHeader|
                    #[trigger] is_next_header(h, v, txs, timestamp) ==> !spec_validate_pow(h)
                &&& r matches Err(NodeError::Chain(e)) ==> (exists|h: BlockHeader|
                    #[trigger] is_next_header(h, v, txs, timestamp) && spec_validate_pow(h)) && forall|h: BlockHeader|
                    #[trigger] is_next_header(h, v, txs, timestamp) && spec_validate_pow(h) ==> spec_append_error(
                        v,
                        h,
                        txs,
                    ) == Some(e)
                &&& r matches Ok(b) ==> {
                    &&& b.transactions@ == txs
                    &&& b.transactions@.len() <= max_transactions
                    &&& forall|k: int|
                        0 <= k < b.transactions@.len() ==> old(self).pool()@.transactions.contains(
                            #[trigger] b.transactions@[k],
                        )
                    &&& is_next_header(b.header, v, txs, timestamp)
                    &&& spec_validate_pow(b.header)
                    &&& forall|n: u64|
                        n < b.header.pow_nonce.0 ==> !spec_validate_pow(#[trigger] with_nonce(b.header, n))
                    &&& spec_append_error(v, b.header, b.transactions@) is None
                    &&& final(self).chain()@ == spec_appended(v, b.header, b.transactions@)
                }
            }),
    {
        let ghost v = self.blockchain@;
        let transactions = self.mempool.candidates(self.blockchain.state(), max_transactions);
        proof {
            lemma_candidates_apply(tip_state(v), self.mempool@.transactions, max_transactions as nat);
            lemma_candidates_bounded(tip_state(v), self.mempool@.transactions, max_transactions as nat);
            crate::chain::lemma_tree_valid(&self.blockchain);
            crate::chain::lemma_find_entry(v.entries, v.tip, v.tip);
        }
        let mut next_state = self.blockchain.state().duplicate();
        match apply_transactions(&mut next_state, transactions.as_slice()) {
            Ok(()) => {},
            Err(e) => {
                return Err(NodeError::Chain(ChainError::State(e)));
            },
        }
        let tip_header = self.blockchain.tip().header;
        let height = match tip_header.height.checked_increment() {
            Some(h) => h,
            None => {
                return Err(NodeError::HeightOverflow);
            },
        };
        let target = match self.blockchain.next_pow_target() {
            Ok(t) => t,
            Err(e) => {
                return Err(NodeError::Chain(e));
            },
        };
        let header = BlockHeader::new(
            BlockVersion::v1(),
            self.blockchain.chain_id(),
            height,
            self.blockchain.canonical_tip_hash(),
            merkle_root(transactions.as_slice()),
            next_state.state_root(),
            target,
            timestamp,
            PowNonce::zero(),
        );
        let ghost txs = transactions@;
        proof {
            assert forall|h: BlockHeader| #[trigger] is_next_header(h, v, txs, timestamp) implies h == with_nonce(
                header,
                h.pow_nonce.0,
            ) by {
                assert(h.previous_block_hash.0.0 =~= header.previous_block_hash.0.0);
                assert(h.transaction_root.0.0 =~= header.transaction_root.0.0);
                assert(h.state_root.0.0 =~= header.state_root.0.0);
                assert(h.pow_target.0 =~= header.pow_target.0);
            }
        }
        let mined = match mine_header(header, &target) {
            Ok((h, _)) => h,
            Err(e) => {
                return Err(NodeError::Mining(e));
            },
        };
        let block = Block::new(mined, transactions);
        proof {
            assert(is_next_header(mined, v, txs, timestamp));
            assert forall|h: BlockHeader| #[trigger] is_next_header(h, v, txs, timestamp) && spec_validate_pow(h)
                implies spec_append_error(v, h, txs) == spec_append_error(v, mined, txs) by {
                assert(h == with_nonce(mined, h.pow_nonce.0));
            }
            assert forall|n: u64| n < mined.pow_nonce.0 implies !spec_validate_pow(#[trigger] with_nonce(mined, n)) by {
                assert(with_nonce(mined, n) == with_nonce(header, n));
            }
        }
        match self.accept_block(block.duplicate()) {
            Ok(_) => Ok(block),
            Err(e) => Err(e),
        }
    }
}


/// The ids of the transactions a node has already seen relayed or confirmed.
pub struct KnownTransactions {
    ids: Vec<TransactionId>,
}

impl View for KnownTransactions {
    type V = Set<Seq<u8>>;

    closed spec fn view(&self) -> Set<Seq<u8>> {
        Set::new(|id: Seq<u8>| exists|k: int| 0 <= k < self.ids@.len() && (#[trigger] self.ids@[k])@ == id)
    }
}

impl KnownTransactions {
    pub fn new() -> (k: Self)
        ensures
            k@ == Set::<Seq<u8>>::empty(),
    {
        let k = KnownTransactions { ids: Vec::new() };
        assert(k@ =~= Set::<Seq<u8>>::empty());
        k
    }

    pub fn contains(&self, id: &TransactionId) -> (r: bool)
        ensures
            r == self@.contains(id@),
    {
        let mut i: usize = 0;
        while i < self.ids.len()
            invariant
                i <= self.ids@.len(),
                forall|k: int| 0 <= k < i ==> (#[trigger] self.ids@[k])@ != id@,
            decreases self.ids@.len() - i,
        {
            if self.ids[i] == *id {
                return true;
            }
            i += 1;
        }
        false
    }

    pub fn insert(&mut self, id: TransactionId)
        ensures
            final(self)@ == old(self)@.insert(id@),
    {
        self.ids.push(id);
        assert forall|x: Seq<u8>| final(self)@.contains(x) == old(self)@.insert(id@).contains(x) by {
            if old(self)@.contains(x) {
                let k = choose|k: int| 0 <= k < old(self).ids@.len() && (#[trigger] old(self).ids@[k])@ == x;
                assert(self.ids@[k] == old(self).ids@[k]);
            }
            if final(self)@.contains(x) && x != id@ {
                let k = choose|k: int| 0 <= k < self.ids@.len() && (#[trigger] self.ids@[k])@ == x;
                assert(k < old(self).ids@.len());
                assert(old(self).ids@[k] == self.ids@[k]);
            }
            if x == id@ {
                assert(self.ids@[self.ids@.len() - 1]@ == x);
            }
        }
        assert(final(self)@ =~= old(self)@.insert(id@));
    }
}

/// What a node does after a message from a peer.
pub enum PeerAction {
    /// Nothing to send.
    Nothing,
    /// Messages for the peer that sent it.
    Reply(Vec<Message>),
    /// A message for every other peer.
    Relay(Message),
}

impl Node {
    /// The ids of the transactions of the canonical chain.
    pub fn canonical_transaction_ids(&self) -> (r: Vec<TransactionId>)
        requires
            self.wf(),
        ensures
            r@.len() == canonical_transactions(self.chain()@).len(),
            forall|k: int| 0 <= k < r@.len() ==> (#[trigger] r@[k])@ == spec_transaction_id(canonical_transactions(self.chain()@)[k]),
    {
        let txs = canonical_txs(&self.blockchain);
        transaction_ids(&txs)
    }

    /// Handles one message from a peer: a new valid transaction enters the
    /// pool and is relayed; a new valid block is accepted and relayed; a ping
    /// is answered; the tip is reported on request; a peer ahead of us is
    /// asked for the blocks after our tip; requested canonical blocks are sent.
    pub fn handle_message(&mut self, known: &mut KnownTransactions, message: Message) -> (r: PeerAction)
        requires
            old(self).wf(),
        ensures
            final(self).wf(),
            final(self).config() == old(self).config(),
            match message {
                Message::Transaction(tx) => transaction_outcome(old(self), final(self), old(known)@, final(known)@, tx, r),
                Message::Block(b) => {
                    &&& final(known)@ == old(known)@
                    &&& if find_entry(old(self).chain()@.entries, spec_block_hash(b.header)) is Some {
                        r is Nothing && final(self).chain()@ == old(self).chain()@ && final(self).pool()@ == old(
                            self,
                        ).pool()@
                    } else {
                        match spec_append_error(old(self).chain()@, b.header, b.transactions@) {
                            Some(_) => r is Nothing && final(self).chain()@ == old(self).chain()@ && final(self).pool()@
                                == old(self).pool()@,
                            None => (r matches PeerAction::Relay(m) && m@ == WireMessage::Block(b.header, b.transactions@))
                                && final(self).chain()@ == spec_appended(old(self).chain()@, b.header, b.transactions@)
                                && pool_follows_chain(
                                old(self).chain()@,
                                final(self).chain()@,
                                old(self).pool()@,
                                final(self).pool()@,
                            ),
                        }
                    }
                },
                Message::Ping(n) => r matches PeerAction::Reply(ms) && ms@.len() == 1 && ms@[0]@ == WireMessage::Pong(n)
                    && unchanged_node(old(self), final(self), old(known)@, final(known)@),
                Message::GetTip => {
                    let v = old(self).chain()@;
                    &&& r matches PeerAction::Reply(ms) && ms@.len() == 1 && (ms@[0] matches Message::Tip {
                        height: h,
                        block_hash: bh,
                    } && h == v.entries[v.tip].header.height && bh@ == tip_hash(v))
                    &&& unchanged_node(old(self), final(self), old(known)@, final(known)@)
                },
                Message::Tip { height, block_hash } => {
                    let v = old(self).chain()@;
                    let local = v.entries[v.tip].header.height.0;
                    &&& unchanged_node(old(self), final(self), old(known)@, final(known)@)
                    &&& if height.0 > local && find_entry(v.entries, block_hash@) is None {
                        r matches PeerAction::Reply(ms) && ms@.len() == 1 && ms@[0]@ == WireMessage::GetBlocks(
                            BlockHeight((local + 1) as u64),
                        )
                    } else {
                        r is Nothing
                    }
                },
                Message::GetBlocks { start_height } => {
                    let v = old(self).chain()@;
                    let path = path_to(v.entries, v.tip);
                    let start = start_height.0 as usize as int;
                    &&& unchanged_node(old(self), final(self), old(known)@, final(known)@)
                    &&& r matches PeerAction::Reply(ms) && ms@.len() == (if start < path.len() {
                        path.len() - start
                    } else {
                        0
                    }) && forall|k: int|
                        0 <= k < ms@.len() ==> (#[trigger] ms@[k])@ == WireMessage::Block(
                            v.entries[path[start + k]].header,
                            v.entries[path[start + k]].transactions,
                        )
                },
                _ => r is Nothing && unchanged_node(old(self), final(self), old(known)@, final(known)@),
            },
    {
        match message {
            Message::Transaction(tx) => {
                let id = transaction_id(&tx);
                if known.contains(&id) {
                    return PeerAction::Nothing;
                }
                if self.mempool.contains(&id) {
                    return PeerAction::Nothing;
                }
                match self.submit_transaction(tx) {
                    Ok(_) => {
                        known.insert(id);
                        PeerAction::Relay(Message::Transaction(tx))
                    },
                    Err(_) => {
                        PeerAction::Nothing
                    },
                }
            },
            Message::Block(block) => {
                let hash = block_hash(&block.header);
                if self.blockchain.block(&hash).is_some() {
                    return PeerAction::Nothing;
                }
                let relayed = block.duplicate();
                match self.accept_block(block) {
                    Ok(_) => PeerAction::Relay(Message::Block(relayed)),
                    Err(_) => PeerAction::Nothing,
                }
            },
            Message::Ping(n) => {
                let mut replies: Vec<Message> = Vec::new();
                replies.push(Message::Pong(n));
                PeerAction::Reply(replies)
            },
            Message::GetTip => {
                let mut replies: Vec<Message> = Vec::new();
                replies.push(
                    Message::Tip {
                        height: self.blockchain.tip().header.height,
                        block_hash: self.blockchain.canonical_tip_hash(),
                    },
                );
                PeerAction::Reply(replies)
            },
            Message::Tip { height, block_hash } => {
                let local = self.blockchain.tip().header.height;
                if height.0 > local.0 && self.blockchain.block(&block_hash).is_none() {
                    let mut replies: Vec<Message> = Vec::new();
                    replies.push(Message::GetBlocks { start_height: BlockHeight(local.0 + 1) });
                    PeerAction::Reply(replies)
                } else {
                    PeerAction::Nothing
                }
            },
            Message::GetBlocks { start_height } => {
                let blocks = self.blockchain.blocks();
                let ghost v = self.blockchain@;
                let ghost path = path_to(v.entries, v.tip);
                let start = start_height.0 as usize;
                let mut replies: Vec<Message> = Vec::new();
                let mut k: usize = start;
                while k < blocks.len()
                    invariant
                        blocks@.len() == path.len(),
                        forall|q: int|
                            0 <= q < blocks@.len() ==> same_block(
                                #[trigger] blocks@[q],
                                v.entries[path[q]].header,
                                v.entries[path[q]].transactions,
                            ),
                        start <= k,
                        start < blocks@.len() ==> k <= blocks@.len(),
                        start >= blocks@.len() ==> k == start,
                        replies@.len() == k - start,
                        forall|q: int|
                            0 <= q < replies@.len() ==> (#[trigger] replies@[q])@ == WireMessage::Block(
                                v.entries[path[start + q]].header,
                                v.entries[path[start + q]].transactions,
                            ),
                    decreases blocks@.len() - k,
                {
                    assert(same_block(blocks@[k as int], v.entries[path[k as int]].header, v.entries[path[k as int]].transactions));
                    replies.push(Message::Block(blocks[k].duplicate()));
                    k += 1;
                }
                PeerAction::Reply(replies)
            },
            _ => PeerAction::Nothing,
        }
    }
}

/// The node and the known set did not change.
pub open spec fn unchanged_node(a: &Node, b: &Node, ka: Set<Seq<u8>>, kb: Set<Seq<u8>>) -> bool {
    &&& a.chain() == b.chain()
    &&& a.pool() == b.pool()
    &&& ka == kb
}


/// What handling a relayed transaction does: a transaction already known
/// or pooled is ignored; otherwise it is admitted to the pool against the
/// canonical state and, when admitted, becomes known and is relayed.
pub open spec fn transaction_outcome(
    a: &Node,
    b: &Node,
    ka: Set<Seq<u8>>,
    kb: Set<Seq<u8>>,
    tx: SignedTransaction,
    r: PeerAction,
) -> bool {
    let id = spec_transaction_id(tx);
    &&& b.chain() == a.chain()
    &&& if ka.contains(id) || holds_id(a.pool()@.transactions, id) {
        r is Nothing && b.pool()@ == a.pool()@ && kb == ka
    } else {
        match spec_admit(a.pool()@, tx, tip_state(a.chain()@)) {
            Ok(t) => (r matches PeerAction::Relay(m) && m@ == WireMessage::Transaction(tx)) && b.pool()@
                == (MempoolView { chain_id: a.pool()@.chain_id, transactions: t }) && kb == ka.insert(id),
            Err(_) => r is Nothing && b.pool()@ == a.pool()@ && kb == ka,
        }
    }
}

} // verus!
