//! The storage format of a node: a genesis configuration and every indexed
//! block with its metadata and state, checked by replay when read back.
use vstd::prelude::*;
use crate::block::{Block, BlockHeader};
use crate::bytes::{
    append_bytes, append_u16, append_u32, append_u64, be_value, bytes_eq, read_u16, read_u32, read_u64, u16_be, u32_be, u64_be,
    zeros,
};
use crate::chain::{
    embedded, entries_consistent, find_entry, height_of, lemma_appended_work, lemma_find_entry,
    lemma_find_entry_push_any, lemma_height_bound, lemma_path_shape, lemma_replay_step, lemma_tree_valid, lemma_tree_valid_wf,
    lemma_unique_hash, has_parent, parent_of, path_to, same_block, spec_append_error, spec_appended, tree_valid, tree_wf,
    work_of, Blockchain, ChainEntry, ChainView,
};
use crate::fork::{BlockMetadata, ChainError, ChainWork};
use crate::genesis::{allocation_entries, allocation_entry, sorted_allocations, GenesisAllocation, GenesisConfig, GenesisConfigError};
use crate::hash::{block_hash, spec_block_hash};
use crate::network::{header_wire, parse_header, parse_tx, tx_wire, txs_wire};
use crate::state::{
    canonical_entries, canonical_state, entries_encoding, entries_map, entry_index, sorted_entries, spec_state_root, Account,
    AccountEntry, State,
};
use crate::transaction::SignedTransaction;
use crate::types::{Address, Amount, BlockHash, BlockHeight, BlockTimestamp, ChainId, Hash256, Nonce, PowTarget};

verus! {

/// `b"BGSTORE2"`: the first bytes of a stored node.
pub const STORAGE_MAGIC: [u8; 8] = [66, 71, 83, 84, 79, 82, 69, 50];

pub const STORAGE_VERSION: u16 = 2;

/// Why stored data is refused.
#[derive(Debug, Clone, Copy, PartialEq, Eq)]
pub enum StorageError {
    InvalidData(&'static str),
    Chain(ChainError),
    Genesis(GenesisConfigError),
}

/// A stored account map: its size, then its accounts ascending by address.
pub open spec fn state_bytes(m: Map<Seq<u8>, Account>) -> Seq<u8> {
    u64_be(canonical_entries(m).len() as u64) + entries_encoding(canonical_entries(m))
}

/// A stored block: its header, its transaction count and its transactions.
pub open spec fn block_bytes(h: BlockHeader, txs: Seq<SignedTransaction>) -> Seq<u8> {
    header_wire(h) + u64_be(txs.len() as u64) + txs_wire(txs)
}

/// A stored indexed block: hash, block, parent, height, cumulative work, state.
pub open spec fn entry_bytes(e: ChainEntry) -> Seq<u8> {
    e.hash + block_bytes(e.header, e.transactions) + e.metadata.parent@ + u64_be(e.metadata.height.0)
        + e.metadata.cumulative_work@ + state_bytes(e.state)
}

/// Stored indexed blocks, one after the other.
pub open spec fn entries_bytes(s: Seq<ChainEntry>) -> Seq<u8>
    decreases s.len(),
{
    if s.len() == 0 {
        Seq::empty()
    } else {
        entries_bytes(s.drop_last()) + entry_bytes(s.last())
    }
}

/// A stored node: magic, version, the genesis configuration, the canonical
/// tip and every indexed block.
pub open spec fn storage_bytes(config: GenesisConfig, v: ChainView) -> Seq<u8> {
    STORAGE_MAGIC@ + u16_be(STORAGE_VERSION) + u32_be(config.spec_chain_id().0) + u64_be(config.spec_timestamp().0)
        + config.spec_pow_target()@ + u64_be(config.spec_allocations().len() as u64) + entries_encoding(
        allocation_entries(config.spec_allocations()),
    ) + v.entries[v.tip].hash + u64_be(v.entries.len() as u64) + entries_bytes(v.entries)
}

fn append_state(out: &mut Vec<u8>, state: &State)
    ensures
        final(out)@ == old(out)@ + state_bytes(state@),
{
    let accounts = state.accounts();
    append_u64(out, accounts.len() as u64);
    let ghost prefix = out@;
    let mut i: usize = 0;
    while i < accounts.len()
        invariant
            i <= accounts@.len(),
            out@ == prefix + entries_encoding(accounts@.subrange(0, i as int)),
        decreases accounts@.len() - i,
    {
        let entry = &accounts[i];
        append_bytes(out, entry.address.as_bytes());
        append_u64(out, entry.account.balance.0);
        append_u64(out, entry.account.nonce.0);
        assert(accounts@.subrange(0, i + 1).drop_last() =~= accounts@.subrange(0, i as int));
        i += 1;
        assert(out@ =~= prefix + entries_encoding(accounts@.subrange(0, i as int)));
    }
    assert(accounts@.subrange(0, i as int) =~= accounts@);
}

fn append_block(out: &mut Vec<u8>, block: &Block)
    ensures
        final(out)@ == old(out)@ + block_bytes(block.header, block.transactions@),
{
    let ghost start = out@;
    crate::network::append_header_wire(out, &block.header);
    let n = block.transactions.len();
    append_u64(out, n as u64);
    let ghost prefix = out@;
    let mut i: usize = 0;
    while i < n
        invariant
            n == block.transactions@.len(),
            i <= n,
            out@ == prefix + txs_wire(block.transactions@.subrange(0, i as int)),
        decreases n - i,
    {
        crate::network::append_tx_wire(out, &block.transactions[i]);
        assert(block.transactions@.subrange(0, i + 1).drop_last() =~= block.transactions@.subrange(0, i as int));
        i += 1;
        assert(out@ =~= prefix + txs_wire(block.transactions@.subrange(0, i as int)));
    }
    assert(block.transactions@.subrange(0, n as int) =~= block.transactions@);
    assert(out@ =~= start + block_bytes(block.header, block.transactions@));
}

/// The stored form of a node's genesis configuration and chain.
pub fn encode(config: &GenesisConfig, chain: &Blockchain) -> (r: Vec<u8>)
    requires
        chain.wf(),
    ensures
        r@ == storage_bytes(*config, chain@),
{
    let mut out: Vec<u8> = Vec::new();
    append_bytes(&mut out, &STORAGE_MAGIC);
    append_u16(&mut out, STORAGE_VERSION);
    append_u32(&mut out, config.chain_id().0);
    append_u64(&mut out, config.timestamp().0);
    append_bytes(&mut out, config.pow_target().as_bytes());
    let allocations = config.allocations();
    append_u64(&mut out, allocations.len() as u64);
    let ghost entries = allocation_entries(allocations@);
    let ghost prefix = out@;
    let mut i: usize = 0;
    while i < allocations.len()
        invariant
            i <= allocations@.len(),
            entries == allocation_entries(allocations@),
            out@ == prefix + entries_encoding(entries.subrange(0, i as int)),
        decreases allocations@.len() - i,
    {
        let a = allocations[i];
        append_bytes(&mut out, a.address.as_bytes());
        append_u64(&mut out, a.balance.0);
        append_u64(&mut out, a.nonce.0);
        assert(entries.subrange(0, i + 1).drop_last() =~= entries.subrange(0, i as int));
        i += 1;
        assert(out@ =~= prefix + entries_encoding(entries.subrange(0, i as int)));
    }
    assert(entries.subrange(0, i as int) =~= entries);
    append_bytes(&mut out, chain.canonical_tip_hash().as_bytes());
    let indexed = chain.indexed_blocks();
    append_u64(&mut out, indexed.len() as u64);
    let ghost e = chain@.entries;
    let ghost middle = out@;
    let mut k: usize = 0;
    while k < indexed.len()
        invariant
            e == chain@.entries,
            indexed@.len() == e.len(),
            forall|q: int|
                0 <= q < indexed@.len() ==> {
                    let (h, b, m, st) = #[trigger] indexed@[q];
                    &&& h@ == e[q].hash
                    &&& same_block(*b, e[q].header, e[q].transactions)
                    &&& *m == e[q].metadata
                    &&& st@ == e[q].state
                },
            k <= e.len(),
            out@ == middle + entries_bytes(e.subrange(0, k as int)),
        decreases e.len() - k,
    {
        let (hash, block, metadata, state) = indexed[k];
        let ghost before = out@;
        append_bytes(&mut out, hash.as_bytes());
        append_block(&mut out, block);
        append_bytes(&mut out, metadata.parent.as_bytes());
        append_u64(&mut out, metadata.height.0);
        append_bytes(&mut out, metadata.cumulative_work.as_bytes());
        append_state(&mut out, state);
        assert(e.subrange(0, k + 1).drop_last() =~= e.subrange(0, k as int));
        assert(out@ =~= before + entry_bytes(e[k as int]));
        k += 1;
    }
    assert(e.subrange(0, k as int) =~= e);
    assert(out@ =~= storage_bytes(*config, chain@));
    out
}


/// An indexed block as it was stored.
struct StoredBlock {
    hash: BlockHash,
    block: Block,
    metadata: BlockMetadata,
    state: State,
}

/// A record holds exactly the indexed block `e`.
spec fn record_is(r: StoredBlock, e: ChainEntry) -> bool {
    &&& r.hash@ == e.hash
    &&& r.block.header == e.header
    &&& r.block.transactions@ == e.transactions
    &&& r.metadata == e.metadata
    &&& r.state@ == e.state
}

/// The records are the indexed blocks of `v`, in order.
spec fn records_of(records: Seq<StoredBlock>, v: ChainView) -> bool {
    &&& records.len() == v.entries.len()
    &&& forall|k: int| 0 <= k < records.len() ==> record_is(#[trigger] records[k], v.entries[k])
}

/// `v` is a valid block tree grown from the genesis block of `config`.
pub open spec fn built_from(config: GenesisConfig, v: ChainView) -> bool {
    &&& tree_valid(v)
    &&& v.chain_id == config.spec_chain_id()
    &&& v.pow_target == config.spec_pow_target()
    &&& v.entries[0].header == config.spec_genesis_header()
    &&& v.entries[0].state == config.spec_initial_state()
}

/// Two block trees under the same parameters index the same blocks, each
/// with the same metadata and state, and have the same canonical tip.
pub open spec fn same_tree(a: ChainView, b: ChainView) -> bool {
    &&& a.chain_id == b.chain_id
    &&& a.pow_target == b.pow_target
    &&& a.entries[a.tip].hash == b.entries[b.tip].hash
    &&& embedded(a.entries, b.entries)
    &&& embedded(b.entries, a.entries)
}

/// The end of the `n` bytes from `pos`, when `bytes` holds them.
fn take(bytes: &[u8], pos: usize, n: usize) -> (r: Result<usize, StorageError>)
    ensures
        r matches Ok(end) ==> end == pos + n && end <= bytes@.len(),
        r is Err <==> pos + n > bytes@.len(),
        r is Err ==> r == Err::<usize, StorageError>(StorageError::InvalidData("truncated data")),
{
    let len = bytes.len();
    if pos > len || n > len - pos {
        return Err(StorageError::InvalidData("truncated data"));
    }
    Ok(pos + n)
}

fn read_u16_at(bytes: &[u8], pos: usize) -> (r: Result<(u16, usize), StorageError>)
    ensures
        r matches Ok((v, end)) ==> end == pos + 2 && end <= bytes@.len() && bytes@.subrange(pos as int, end as int)
            == u16_be(v),
        r is Err <==> pos + 2 > bytes@.len(),
        r is Err ==> r == Err::<(u16, usize), StorageError>(truncated()),
{
    let end = take(bytes, pos, 2)?;
    Ok((read_u16(bytes, pos), end))
}

fn read_u32_at(bytes: &[u8], pos: usize) -> (r: Result<(u32, usize), StorageError>)
    ensures
        r matches Ok((v, end)) ==> end == pos + 4 && end <= bytes@.len() && bytes@.subrange(pos as int, end as int)
            == u32_be(v),
        r is Err <==> pos + 4 > bytes@.len(),
        r is Err ==> r == Err::<(u32, usize), StorageError>(truncated()),
{
    let end = take(bytes, pos, 4)?;
    Ok((read_u32(bytes, pos), end))
}

fn read_u64_at(bytes: &[u8], pos: usize) -> (r: Result<(u64, usize), StorageError>)
    ensures
        r matches Ok((v, end)) ==> end == pos + 8 && end <= bytes@.len() && bytes@.subrange(pos as int, end as int)
            == u64_be(v) && v == u64_at(bytes@, pos as int),
        r is Err <==> pos + 8 > bytes@.len(),
        r is Err ==> r == Err::<(u64, usize), StorageError>(truncated()),
{
    let end = take(bytes, pos, 8)?;
    let v = read_u64(bytes, pos);
    proof {
        lemma_u64_at(bytes@, pos as int, v);
    }
    Ok((v, end))
}

fn read_array_at<const N: usize>(bytes: &[u8], pos: usize) -> (r: Result<([u8; N], usize), StorageError>)
    ensures
        r matches Ok((v, end)) ==> end == pos + N && end <= bytes@.len() && bytes@.subrange(pos as int, end as int)
            == v@,
        r is Err ==> pos + N > bytes@.len() && r == Err::<([u8; N], usize), StorageError>(
            StorageError::InvalidData("truncated data"),
        ),
{
    let end = take(bytes, pos, N)?;
    let mut v = [0u8; N];
    let mut i: usize = 0;
    while i < N
        invariant
            end == pos + N,
            end <= bytes@.len(),
            v@.len() == N,
            i <= N,
            forall|j: int| 0 <= j < i ==> v@[j] == bytes@[pos + j],
        decreases N - i,
    {
        v[i] = bytes[pos + i];
        i += 1;
    }
    assert(v@ =~= bytes@.subrange(pos as int, end as int));
    Ok((v, end))
}

/// A stored count, refused when it does not fit in memory.
fn read_count_at(bytes: &[u8], pos: usize) -> (r: Result<(usize, usize), StorageError>)
    ensures
        r matches Ok((v, end)) ==> end == pos + 8 && end <= bytes@.len() && bytes@.subrange(pos as int, end as int)
            == u64_be(v as u64),
        forall|x: u64|
            pos + 8 <= bytes@.len() && bytes@.subrange(pos as int, pos + 8) == #[trigger] u64_be(x) && x <= usize::MAX
                ==> (r matches Ok((v, end)) && v as u64 == x),
        pos + 8 > bytes@.len() ==> r == Err::<(usize, usize), StorageError>(truncated()),
        pos + 8 <= bytes@.len() && u64_at(bytes@, pos as int) > usize::MAX ==> r == Err::<(usize, usize), StorageError>(
            StorageError::InvalidData("count too large"),
        ),
        pos + 8 <= bytes@.len() && u64_at(bytes@, pos as int) <= usize::MAX ==> (r matches Ok((v, end)) && v
            == u64_at(bytes@, pos as int) && end == pos + 8),
{
    proof {
        crate::bytes::lemma_be_injective();
    }
    let (v, end) = read_u64_at(bytes, pos)?;
    if v > usize::MAX as u64 {
        return Err(StorageError::InvalidData("count too large"));
    }
    Ok((v as usize, end))
}

/// The 36 bytes of a stored account: address, balance, nonce.
pub open spec fn account_bytes(a: AccountEntry) -> Seq<u8> {
    a.address@ + u64_be(a.account.balance.0) + u64_be(a.account.nonce.0)
}

/// Stored data that ends too early.
pub open spec fn truncated() -> StorageError {
    StorageError::InvalidData("truncated data")
}

/// The big-endian `u64` in the 8 bytes from `p`.
pub open spec fn u64_at(bytes: Seq<u8>, p: int) -> u64 {
    choose|x: u64| u64_be(x) == bytes.subrange(p, p + 8)
}

/// The account in the 36 bytes from `p`.
pub open spec fn account_at(bytes: Seq<u8>, p: int) -> AccountEntry {
    choose|a: AccountEntry| account_bytes(a) == bytes.subrange(p, p + 36)
}

/// The block header in the 158 bytes from `p`.
pub open spec fn header_at(bytes: Seq<u8>, p: int) -> BlockHeader {
    choose|h: BlockHeader| header_wire(h) == bytes.subrange(p, p + 158)
}

/// Reading `n` more accounts of a stored state from `p` on, after the
/// accounts `acc`: an address read a second time is refused, and so are
/// accounts cut short. Gives the accounts and the end.
pub open spec fn stored_accounts(bytes: Seq<u8>, p: int, n: nat, acc: Map<Seq<u8>, Account>) -> Result<
    (Map<Seq<u8>, Account>, int),
    StorageError,
>
    decreases n,
{
    if n == 0 {
        Ok((acc, p))
    } else if p + 36 > bytes.len() {
        Err(truncated())
    } else if acc.dom().contains(account_at(bytes, p).address@) {
        Err(StorageError::InvalidData("duplicate state account"))
    } else {
        stored_accounts(
            bytes,
            p + 36,
            (n - 1) as nat,
            acc.insert(account_at(bytes, p).address@, account_at(bytes, p).account),
        )
    }
}

/// Reading a stored state from `p`: its count, then its accounts.
pub open spec fn stored_state(bytes: Seq<u8>, p: int) -> Result<(Map<Seq<u8>, Account>, int), StorageError> {
    if p + 8 > bytes.len() {
        Err(truncated())
    } else if u64_at(bytes, p) > usize::MAX {
        Err(StorageError::InvalidData("count too large"))
    } else {
        stored_accounts(bytes, p + 8, u64_at(bytes, p) as nat, Map::empty())
    }
}

/// Reading a stored block from `p`: its header, its transaction count and
/// its 139-byte transactions. Gives the header and the end.
pub open spec fn stored_block(bytes: Seq<u8>, p: int) -> Result<(BlockHeader, int), StorageError> {
    if p + 166 > bytes.len() {
        Err(truncated())
    } else if u64_at(bytes, p + 158) > usize::MAX {
        Err(StorageError::InvalidData("count too large"))
    } else if p + 166 + 139 * u64_at(bytes, p + 158) > bytes.len() {
        Err(truncated())
    } else {
        Ok((header_at(bytes, p), p + 166 + 139 * u64_at(bytes, p + 158)))
    }
}

/// Reading one stored record from `p`, after records with the hashes
/// `seen`: its hash must be that of its header, its state must have the
/// header's state root, and its hash must be new. Gives the end.
pub open spec fn stored_record(bytes: Seq<u8>, p: int, seen: Seq<Seq<u8>>) -> Result<int, StorageError> {
    if p + 32 > bytes.len() {
        Err(truncated())
    } else {
        match stored_block(bytes, p + 32) {
            Err(e) => Err(e),
            Ok((h, q)) => if spec_block_hash(h) != bytes.subrange(p, p + 32) {
                Err(StorageError::InvalidData("block hash mismatch"))
            } else if q + 72 > bytes.len() {
                Err(truncated())
            } else {
                match stored_state(bytes, q + 72) {
                    Err(e) => Err(e),
                    Ok((m, end)) => if spec_state_root(m) != h.state_root@ {
                        Err(StorageError::InvalidData("stored state root mismatch"))
                    } else if seen.contains(bytes.subrange(p, p + 32)) {
                        Err(StorageError::InvalidData("duplicate block"))
                    } else {
                        Ok(end)
                    },
                }
            },
        }
    }
}

/// Reading `n` more records from `p` on, after records with the hashes
/// `seen`. Gives the end.
pub open spec fn stored_records(bytes: Seq<u8>, p: int, n: nat, seen: Seq<Seq<u8>>) -> Result<int, StorageError>
    decreases n,
{
    if n == 0 {
        Ok(p)
    } else {
        match stored_record(bytes, p, seen) {
            Err(e) => Err(e),
            Ok(q) => stored_records(bytes, q, (n - 1) as nat, seen.push(bytes.subrange(p, p + 32))),
        }
    }
}

/// The number of stored genesis allocations.
pub open spec fn allocation_count(bytes: Seq<u8>) -> int {
    u64_at(bytes, 54) as int
}

/// The address of the `i`-th stored genesis allocation.
pub open spec fn allocation_address(bytes: Seq<u8>, i: int) -> Seq<u8> {
    bytes.subrange(62 + 36 * i, 82 + 36 * i)
}

/// Two of the stored genesis allocations have the address `k`.
pub open spec fn stored_duplicate(bytes: Seq<u8>, k: Seq<u8>) -> bool {
    exists|i: int, j: int|
        0 <= i < j < allocation_count(bytes) && #[trigger] allocation_address(bytes, i) == k
            && #[trigger] allocation_address(bytes, j) == k
}

/// The smallest address that two stored genesis allocations share.
pub open spec fn smallest_stored_duplicate(bytes: Seq<u8>) -> Address {
    choose|a: Address|
        #[trigger] stored_duplicate(bytes, a@) && forall|k: Seq<u8>|
            #[trigger] stored_duplicate(bytes, k) ==> be_value(a@) <= be_value(k)
}

/// Reading the genesis configuration, the canonical tip and the block
/// count that follow the format and version. Gives the block count.
pub open spec fn stored_prefix(bytes: Seq<u8>) -> Result<u64, StorageError> {
    if bytes.len() < 62 || 62 + 36 * allocation_count(bytes) > bytes.len() {
        Err(truncated())
    } else if exists|k: Seq<u8>| #[trigger] stored_duplicate(bytes, k) {
        Err(StorageError::Genesis(GenesisConfigError::DuplicateAllocation(smallest_stored_duplicate(bytes))))
    } else if 102 + 36 * allocation_count(bytes) > bytes.len() {
        Err(truncated())
    } else if u64_at(bytes, 94 + 36 * allocation_count(bytes)) > usize::MAX {
        Err(StorageError::InvalidData("count too large"))
    } else {
        Ok(u64_at(bytes, 94 + 36 * allocation_count(bytes)))
    }
}

/// Reading a stored node, up to the replay: `Err` with the refusal of the
/// first check that fails, `Ok` when the bytes are a stored node whose
/// records are then replayed.
pub open spec fn stored_node(bytes: Seq<u8>) -> Result<(), StorageError> {
    if bytes.len() < 8 {
        Err(truncated())
    } else if bytes.subrange(0, 8) != STORAGE_MAGIC@ {
        Err(StorageError::InvalidData("wrong magic"))
    } else if bytes.len() < 10 {
        Err(truncated())
    } else if bytes.subrange(8, 10) != u16_be(STORAGE_VERSION) {
        Err(StorageError::InvalidData("unsupported version"))
    } else {
        stored_contents(bytes)
    }
}

/// Reading what follows the format and version: the prefix, then at least
/// one record, then nothing more.
pub open spec fn stored_contents(bytes: Seq<u8>) -> Result<(), StorageError> {
    match stored_prefix(bytes) {
        Err(e) => Err(e),
        Ok(n) => if n == 0 {
            Err(StorageError::InvalidData("no blocks"))
        } else {
            match stored_records(bytes, 102 + 36 * allocation_count(bytes), n as nat, Seq::empty()) {
                Err(e) => Err(e),
                Ok(end) => if end != bytes.len() {
                    Err(StorageError::InvalidData("trailing bytes"))
                } else {
                    Ok(())
                },
            }
        },
    }
}

/// A `u64` read from its 8 bytes is the one stored there.
proof fn lemma_u64_at(bytes: Seq<u8>, p: int, v: u64)
    requires
        u64_be(v) == bytes.subrange(p, p + 8),
    ensures
        u64_at(bytes, p) == v,
{
    crate::bytes::lemma_be_injective();
}

/// An account read from its 36 bytes is the one stored there.
proof fn lemma_account_at(bytes: Seq<u8>, p: int, a: AccountEntry)
    requires
        account_bytes(a) == bytes.subrange(p, p + 36),
    ensures
        account_at(bytes, p) == a,
{
    lemma_account_bytes_injective(account_at(bytes, p), a);
}

/// A header read from its 158 bytes is the one stored there.
proof fn lemma_header_at(bytes: Seq<u8>, p: int, h: BlockHeader)
    requires
        header_wire(h) == bytes.subrange(p, p + 158),
    ensures
        header_at(bytes, p) == h,
{
    crate::network::lemma_header_wire_injective(header_at(bytes, p), h);
}

/// Stored accounts take 36 bytes each, in order.
proof fn lemma_entries_encoding_at(s: Seq<AccountEntry>)
    ensures
        entries_encoding(s).len() == 36 * s.len(),
        forall|i: int|
            0 <= i < s.len() ==> entries_encoding(s).subrange(36 * i, 36 * i + 36) == account_bytes(#[trigger] s[i]),
    decreases s.len(),
{
    if s.len() > 0 {
        let t = s.drop_last();
        lemma_entries_encoding_at(t);
        let x = s.last();
        assert(entries_encoding(s) =~= entries_encoding(t) + account_bytes(x));
        assert forall|i: int| 0 <= i < s.len() implies entries_encoding(s).subrange(36 * i, 36 * i + 36)
            == account_bytes(#[trigger] s[i]) by {
            if i < t.len() {
                assert(t[i] == s[i]);
                assert(entries_encoding(s).subrange(36 * i, 36 * i + 36) =~= entries_encoding(t).subrange(
                    36 * i,
                    36 * i + 36,
                ));
            } else {
                assert(entries_encoding(s).subrange(36 * i, 36 * i + 36) =~= account_bytes(x));
            }
        }
    }
}

/// The stored bytes of an account determine it.
proof fn lemma_account_bytes_injective(a: AccountEntry, b: AccountEntry)
    requires
        account_bytes(a) == account_bytes(b),
    ensures
        a == b,
{
    crate::encoding::lemma_split_concat(
        a.address@ + u64_be(a.account.balance.0),
        u64_be(a.account.nonce.0),
        b.address@ + u64_be(b.account.balance.0),
        u64_be(b.account.nonce.0),
    );
    crate::encoding::lemma_split_concat(
        a.address@,
        u64_be(a.account.balance.0),
        b.address@,
        u64_be(b.account.balance.0),
    );
    crate::bytes::lemma_be_injective();
    assert(a.address.0 =~= b.address.0);
}

fn read_account_at(bytes: &[u8], pos: usize) -> (r: Result<((Address, Account), usize), StorageError>)
    ensures
        r matches Ok(((a, acct), end)) ==> end == pos + 36 && end <= bytes@.len() && bytes@.subrange(
            pos as int,
            end as int,
        ) == account_bytes(AccountEntry { address: a, account: acct }),
        r matches Ok(((a, acct), _)) ==> account_at(bytes@, pos as int) == (AccountEntry { address: a, account: acct }),
        pos + 36 <= bytes@.len() ==> r is Ok,
        r is Err ==> r == Err::<((Address, Account), usize), StorageError>(truncated()),
{
    let (address, p1) = read_array_at::<20>(bytes, pos)?;
    let (balance, p2) = read_u64_at(bytes, p1)?;
    let (nonce, p3) = read_u64_at(bytes, p2)?;
    let a = Address::from_bytes(address);
    let acct = Account::new(Amount(balance), Nonce(nonce));
    assert(bytes@.subrange(pos as int, p3 as int) =~= bytes@.subrange(pos as int, p1 as int) + bytes@.subrange(
        p1 as int,
        p2 as int,
    ) + bytes@.subrange(p2 as int, p3 as int));
    proof {
        lemma_account_at(bytes@, pos as int, AccountEntry { address: a, account: acct });
    }
    Ok(((a, acct), p3))
}

/// The bytes from `pos` begin with the stored form of the canonical map `m`.
spec fn state_stored_at(bytes: Seq<u8>, pos: int, m: Map<Seq<u8>, Account>) -> bool {
    &&& canonical_state(m)
    &&& 0 <= pos
    &&& pos + state_bytes(m).len() <= bytes.len()
    &&& bytes.subrange(pos, pos + state_bytes(m).len()) == state_bytes(m)
}

/// The facts about a stored map that reading it relies on.
proof fn lemma_state_stored_at(bytes: Seq<u8>, pos: int, m: Map<Seq<u8>, Account>)
    requires
        state_stored_at(bytes, pos, m),
        bytes.len() <= usize::MAX,
    ensures
        ({
            let s = canonical_entries(m);
            &&& sorted_entries(s)
            &&& entries_map(s) == m
            &&& state_bytes(m).len() == 8 + 36 * s.len()
            &&& s.len() <= usize::MAX
            &&& s.len() as u64 as int == s.len()
            &&& bytes.subrange(pos, pos + 8) == u64_be(s.len() as u64)
            &&& forall|i: int|
                0 <= i < s.len() ==> bytes.subrange(pos + 8 + 36 * i, pos + 8 + 36 * i + 36) == account_bytes(
                    #[trigger] s[i],
                )
        }),
{
    let s = canonical_entries(m);
    reveal(canonical_state);
    lemma_entries_encoding_at(s);
    let sb = state_bytes(m);
    assert(bytes.subrange(pos, pos + 8) =~= sb.subrange(0, 8));
    assert(sb.subrange(0, 8) =~= u64_be(s.len() as u64));
    assert forall|i: int| 0 <= i < s.len() implies bytes.subrange(pos + 8 + 36 * i, pos + 8 + 36 * i + 36)
        == account_bytes(#[trigger] s[i]) by {
        assert(bytes.subrange(pos + 8 + 36 * i, pos + 8 + 36 * i + 36) =~= sb.subrange(8 + 36 * i, 8 + 36 * i + 36));
        assert(sb.subrange(8 + 36 * i, 8 + 36 * i + 36) =~= entries_encoding(s).subrange(36 * i, 36 * i + 36));
    }
}

/// Two canonical maps stored at the same place are the same map.
proof fn lemma_state_unique(bytes: Seq<u8>, pos: int, m1: Map<Seq<u8>, Account>, m2: Map<Seq<u8>, Account>)
    requires
        state_stored_at(bytes, pos, m1),
        state_stored_at(bytes, pos, m2),
        bytes.len() <= usize::MAX,
    ensures
        m1 == m2,
{
    lemma_state_stored_at(bytes, pos, m1);
    lemma_state_stored_at(bytes, pos, m2);
    let s1 = canonical_entries(m1);
    let s2 = canonical_entries(m2);
    crate::bytes::lemma_be_injective();
    assert(u64_be(s1.len() as u64) == u64_be(s2.len() as u64));
    assert(s1.len() == s2.len());
    assert forall|i: int| 0 <= i < s1.len() implies s1[i] == s2[i] by {
        assert(account_bytes(s1[i]) == account_bytes(s2[i]));
        lemma_account_bytes_injective(s1[i], s2[i]);
    }
    assert(s1 =~= s2);
}

/// A stored state; an address stored twice is refused. The stored form of a
/// canonical map reads back as that map.
fn read_state_at(bytes: &[u8], pos: usize) -> (r: Result<(State, usize), StorageError>)
    ensures
        r matches Ok((_, end)) ==> pos <= end <= bytes@.len(),
        forall|m: Map<Seq<u8>, Account>|
            #[trigger] state_stored_at(bytes@, pos as int, m) ==> (r matches Ok((s, end)) && s@ == m && end == pos
                + state_bytes(m).len()),
        stored_state(bytes@, pos as int) matches Err(e) ==> r == Err::<(State, usize), StorageError>(e),
        stored_state(bytes@, pos as int) matches Ok((m, end)) ==> (r matches Ok((s, e2)) && s@ == m && e2 == end),
{
    let _ = bytes.len();
    let ghost stored = exists|m: Map<Seq<u8>, Account>| state_stored_at(bytes@, pos as int, m);
    let ghost m0 = choose|m: Map<Seq<u8>, Account>| state_stored_at(bytes@, pos as int, m);
    let ghost s0 = canonical_entries(m0);
    proof {
        if stored {
            lemma_state_stored_at(bytes@, pos as int, m0);
        }
    }
    let (count, mut p) = match read_count_at(bytes, pos) {
        Ok(x) => x,
        Err(e) => {
            return Err(e);
        },
    };
    let mut state = State::new();
    let mut i: usize = 0;
    proof {
        if stored {
            assert(s0.subrange(0, 0) =~= Seq::<AccountEntry>::empty());
            assert(entries_map(Seq::<AccountEntry>::empty()) =~= Map::<Seq<u8>, Account>::empty());
        }
    }
    while i < count
        invariant
            pos <= p <= bytes@.len(),
            i <= count,
            stored == exists|m: Map<Seq<u8>, Account>| state_stored_at(bytes@, pos as int, m),
            stored_state(bytes@, pos as int) == stored_accounts(bytes@, p as int, (count - i) as nat, state@),
            stored ==> {
                &&& state_stored_at(bytes@, pos as int, m0)
                &&& state_bytes(m0).len() == 8 + 36 * s0.len()
                &&& s0 == canonical_entries(m0)
                &&& sorted_entries(s0)
                &&& entries_map(s0) == m0
                &&& forall|k: int|
                    0 <= k < s0.len() ==> bytes@.subrange(pos + 8 + 36 * k, pos + 8 + 36 * k + 36) == account_bytes(
                        #[trigger] s0[k],
                    )
                &&& count == s0.len()
                &&& p == pos + 8 + 36 * i
                &&& state@ == entries_map(s0.subrange(0, i as int))
            },
        decreases count - i,
    {
        let ((address, account), next) = match read_account_at(bytes, p) {
            Ok(x) => x,
            Err(e) => {
                return Err(e);
            },
        };
        let ghost before = state@;
        proof {
            if stored {
                lemma_account_bytes_injective(AccountEntry { address, account }, s0[i as int]);
                if state@.dom().contains(address@) {
                    let j = entry_index(s0.subrange(0, i as int), address@);
                    assert(s0.subrange(0, i as int)[j] == s0[j]);
                    crate::state::lemma_sorted_index(s0, j, i as int);
                }
            }
        }
        if state.account(&address).is_some() {
            return Err(StorageError::InvalidData("duplicate state account"));
        }
        state.set_account(address, account);
        proof {
            if stored {
                crate::state::lemma_entries_map_push(s0, i as int);
            }
            assert(stored_accounts(bytes@, p as int, (count - i) as nat, before) == stored_accounts(
                bytes@,
                next as int,
                (count - (i + 1)) as nat,
                state@,
            ));
        }
        p = next;
        i += 1;
    }
    proof {
        if stored {
            assert(s0.subrange(0, i as int) =~= s0);
            assert forall|m: Map<Seq<u8>, Account>| #[trigger] state_stored_at(bytes@, pos as int, m) implies m == m0 by {
                lemma_state_stored_at(bytes@, pos as int, m);
                lemma_state_unique(bytes@, pos as int, m, m0);
            }
        }
    }
    Ok((state, p))
}

/// The bytes from `pos` begin with the stored form of a block.
spec fn block_stored_at(bytes: Seq<u8>, pos: int, h: BlockHeader, txs: Seq<SignedTransaction>) -> bool {
    &&& 0 <= pos
    &&& pos + block_bytes(h, txs).len() <= bytes.len()
    &&& bytes.subrange(pos, pos + block_bytes(h, txs).len()) == block_bytes(h, txs)
}

/// The facts about a stored block that reading it relies on.
proof fn lemma_block_stored_at(bytes: Seq<u8>, pos: int, h: BlockHeader, txs: Seq<SignedTransaction>)
    requires
        block_stored_at(bytes, pos, h, txs),
        bytes.len() <= usize::MAX,
    ensures
        block_bytes(h, txs).len() == 166 + 139 * txs.len(),
        txs.len() <= usize::MAX,
        txs.len() as u64 as int == txs.len(),
        bytes.subrange(pos, pos + 158) == header_wire(h),
        bytes.subrange(pos + 158, pos + 166) == u64_be(txs.len() as u64),
        forall|i: int|
            0 <= i < txs.len() ==> bytes.subrange(pos + 166 + 139 * i, pos + 166 + 139 * i + 139) == tx_wire(
                #[trigger] txs[i],
            ),
{
    let bb = block_bytes(h, txs);
    crate::network::lemma_txs_wire_len(txs);
    lemma_txs_wire_at(txs);
    assert(header_wire(h).len() == 158);
    assert(bytes.subrange(pos, pos + 158) =~= bb.subrange(0, 158));
    assert(bytes.subrange(pos + 158, pos + 166) =~= bb.subrange(158, 166));
    assert forall|i: int| 0 <= i < txs.len() implies bytes.subrange(pos + 166 + 139 * i, pos + 166 + 139 * i + 139)
        == tx_wire(#[trigger] txs[i]) by {
        assert(bytes.subrange(pos + 166 + 139 * i, pos + 166 + 139 * i + 139) =~= bb.subrange(
            166 + 139 * i,
            166 + 139 * i + 139,
        ));
        assert(bb.subrange(166 + 139 * i, 166 + 139 * i + 139) =~= txs_wire(txs).subrange(139 * i, 139 * i + 139));
    }
}

/// Transactions on the wire take 139 bytes each, in order.
proof fn lemma_txs_wire_at(s: Seq<SignedTransaction>)
    ensures
        forall|i: int| 0 <= i < s.len() ==> txs_wire(s).subrange(139 * i, 139 * i + 139) == tx_wire(#[trigger] s[i]),
    decreases s.len(),
{
    if s.len() > 0 {
        let t = s.drop_last();
        lemma_txs_wire_at(t);
        crate::network::lemma_txs_wire_len(t);
        assert forall|i: int| 0 <= i < s.len() implies txs_wire(s).subrange(139 * i, 139 * i + 139) == tx_wire(
            #[trigger] s[i],
        ) by {
            if i < t.len() {
                assert(t[i] == s[i]);
                assert(txs_wire(s).subrange(139 * i, 139 * i + 139) =~= txs_wire(t).subrange(139 * i, 139 * i + 139));
            } else {
                assert(txs_wire(s).subrange(139 * i, 139 * i + 139) =~= tx_wire(s.last()));
            }
        }
    }
}

/// A stored block. The stored form of a block reads back as that block.
fn read_block_at(bytes: &[u8], pos: usize) -> (r: Result<(Block, usize), StorageError>)
    ensures
        r matches Ok((b, end)) ==> pos <= end <= bytes@.len() && bytes@.subrange(pos as int, end as int) == block_bytes(
            b.header,
            b.transactions@,
        ),
        forall|h: BlockHeader, txs: Seq<SignedTransaction>|
            #[trigger] block_stored_at(bytes@, pos as int, h, txs) ==> (r matches Ok((b, end)) && b.header == h
                && b.transactions@ == txs && end == pos + block_bytes(h, txs).len()),
        stored_block(bytes@, pos as int) matches Err(e) ==> r == Err::<(Block, usize), StorageError>(e),
        stored_block(bytes@, pos as int) matches Ok((h, end)) ==> (r matches Ok((b, e2)) && b.header == h && e2 == end),
{
    let _ = bytes.len();
    let ghost stored = exists|h: BlockHeader, txs: Seq<SignedTransaction>| block_stored_at(bytes@, pos as int, h, txs);
    let ghost w = choose|w: (BlockHeader, Seq<SignedTransaction>)| block_stored_at(bytes@, pos as int, w.0, w.1);
    proof {
        if stored {
            let (h, txs) = choose|h: BlockHeader, txs: Seq<SignedTransaction>| block_stored_at(bytes@, pos as int, h, txs);
            assert(block_stored_at(bytes@, pos as int, (h, txs).0, (h, txs).1));
            lemma_block_stored_at(bytes@, pos as int, w.0, w.1);
        }
    }
    let p1 = match take(bytes, pos, 158) {
        Ok(x) => x,
        Err(e) => {
            return Err(e);
        },
    };
    let header = parse_header(bytes, pos);
    let (count, p2) = match read_count_at(bytes, p1) {
        Ok(x) => x,
        Err(e) => {
            return Err(e);
        },
    };
    let mut transactions: Vec<SignedTransaction> = Vec::new();
    let mut p = p2;
    let mut i: usize = 0;
    while i < count
        invariant
            p2 <= p <= bytes@.len(),
            i <= count,
            p2 == pos + 166,
            p == p2 + 139 * i,
            count == u64_at(bytes@, pos + 158),
            transactions@.len() == i,
            bytes@.subrange(p2 as int, p as int) == txs_wire(transactions@),
            stored == exists|h: BlockHeader, txs: Seq<SignedTransaction>| block_stored_at(bytes@, pos as int, h, txs),
            stored ==> {
                &&& block_stored_at(bytes@, pos as int, w.0, w.1)
                &&& block_bytes(w.0, w.1).len() == 166 + 139 * w.1.len()
                &&& forall|k: int|
                    0 <= k < w.1.len() ==> bytes@.subrange(pos + 166 + 139 * k, pos + 166 + 139 * k + 139) == tx_wire(
                        #[trigger] w.1[k],
                    )
                &&& count == w.1.len()
                &&& p2 == pos + 166
                &&& p == p2 + 139 * i
                &&& transactions@ == w.1.subrange(0, i as int)
            },
        decreases count - i,
    {
        let next = match take(bytes, p, 139) {
            Ok(x) => x,
            Err(e) => {
                return Err(e);
            },
        };
        let t = parse_tx(bytes, p);
        let ghost before = transactions@;
        transactions.push(t);
        assert(transactions@.drop_last() == before);
        assert(bytes@.subrange(p2 as int, next as int) =~= bytes@.subrange(p2 as int, p as int) + bytes@.subrange(
            p as int,
            next as int,
        ));
        proof {
            if stored {
                crate::network::lemma_tx_wire_injective(t, w.1[i as int]);
                assert(transactions@ =~= w.1.subrange(0, i + 1));
            }
        }
        p = next;
        i += 1;
    }
    proof {
        lemma_header_at(bytes@, pos as int, header);
    }
    let block = Block::new(header, transactions);
    assert(bytes@.subrange(pos as int, p as int) =~= bytes@.subrange(pos as int, p1 as int) + bytes@.subrange(
        p1 as int,
        p2 as int,
    ) + bytes@.subrange(p2 as int, p as int));
    proof {
        if stored {
            crate::network::lemma_header_wire_injective(header, w.0);
            assert(w.1.subrange(0, i as int) =~= w.1);
            assert forall|h: BlockHeader, txs: Seq<SignedTransaction>| #[trigger] block_stored_at(bytes@, pos as int, h, txs) implies (
                h == w.0 && txs == w.1) by {
                lemma_block_stored_at(bytes@, pos as int, h, txs);
                crate::network::lemma_header_wire_injective(h, w.0);
                crate::bytes::lemma_be_injective();
                assert(u64_be(txs.len() as u64) == u64_be(w.1.len() as u64));
                assert(txs.len() == w.1.len());
                assert forall|k: int| 0 <= k < txs.len() implies txs[k] == w.1[k] by {
                    assert(tx_wire(txs[k]) == tx_wire(w.1[k]));
                    crate::network::lemma_tx_wire_injective(txs[k], w.1[k]);
                }
                assert(txs =~= w.1);
            }
        }
    }
    Ok((block, p))
}


/// A genesis configuration and the chain restored from storage.
pub struct LoadedBlockchain {
    genesis_config: GenesisConfig,
    blockchain: Blockchain,
}

impl LoadedBlockchain {
    #[verifier::type_invariant]
    spec fn inv(self) -> bool {
        self.blockchain.wf()
    }

    pub closed spec fn config(&self) -> GenesisConfig {
        self.genesis_config
    }

    pub closed spec fn chain(&self) -> Blockchain {
        self.blockchain
    }

    pub fn genesis_config(&self) -> (r: &GenesisConfig)
        ensures
            *r == self.config(),
    {
        &self.genesis_config
    }

    pub fn blockchain(&self) -> (r: &Blockchain)
        ensures
            *r == self.chain(),
            r.wf(),
    {
        proof {
            use_type_invariant(self);
        }
        &self.blockchain
    }

    pub fn into_parts(self) -> (r: (GenesisConfig, Blockchain))
        ensures
            r.0 == self.config(),
            r.1 == self.chain(),
            r.1.wf(),
    {
        proof {
            use_type_invariant(&self);
        }
        (self.genesis_config, self.blockchain)
    }
}

/// The position of the record with hash `hash`.
fn record_position(records: &Vec<StoredBlock>, hash: &BlockHash) -> (r: Option<usize>)
    ensures
        r matches Some(k) ==> k < records@.len() && records@[k as int].hash@ == hash@,
        r is None ==> forall|k: int| 0 <= k < records@.len() ==> (#[trigger] records@[k]).hash@ != hash@,
{
    let mut i: usize = 0;
    while i < records.len()
        invariant
            i <= records@.len(),
            forall|k: int| 0 <= k < i ==> (#[trigger] records@[k]).hash@ != hash@,
        decreases records@.len() - i,
    {
        if records[i].hash == *hash {
            return Some(i);
        }
        i += 1;
    }
    None
}

/// The records are, in order, the blocks of the valid tree `v`.
#[verifier::opaque]
spec fn stored_tree(records: Seq<StoredBlock>, v: ChainView) -> bool {
    &&& tree_valid(v)
    &&& records_of(records, v)
}

proof fn lemma_stored_record(records: Seq<StoredBlock>, v: ChainView, k: int)
    requires
        stored_tree(records, v),
        0 <= k < records.len(),
    ensures
        records.len() == v.entries.len(),
        record_is(records[k], v.entries[k]),
{
    reveal(stored_tree);
}

proof fn lemma_stored_wf(records: Seq<StoredBlock>, v: ChainView)
    requires
        stored_tree(records, v),
    ensures
        records.len() == v.entries.len(),
        tree_wf(v.entries, v.tip),
        entries_consistent(v.entries),
        tree_valid(v),
{
    reveal(stored_tree);
    lemma_tree_valid_wf(v);
}

/// In stored blocks of a tree, a hash names one record.
proof fn lemma_stored_unique(records: Seq<StoredBlock>, v: ChainView, i: int, j: int)
    requires
        stored_tree(records, v),
        0 <= i < records.len(),
        0 <= j < records.len(),
        records[i].hash@ == records[j].hash@,
    ensures
        i == j,
{
    lemma_stored_wf(records, v);
    lemma_stored_record(records, v, i);
    lemma_stored_record(records, v, j);
    lemma_unique_hash(v.entries, v.tip, i, j);
}

/// The facts the walk from a stored block to genesis relies on, at the
/// `k`-th block of the path to `tip`.
proof fn lemma_ancestry_step(records: Seq<StoredBlock>, v: ChainView, tip: int, k: int)
    requires
        stored_tree(records, v),
        0 <= tip < records.len(),
        0 <= k <= height_of(v.entries, tip),
    ensures
        height_of(v.entries, tip) <= tip,
        path_to(v.entries, tip).len() == height_of(v.entries, tip) + 1,
        0 <= path_to(v.entries, tip)[k] < records.len(),
        k == height_of(v.entries, tip) ==> path_to(v.entries, tip)[k] == tip,
        (records[path_to(v.entries, tip)[k]].hash@ == v.entries[0].hash) <==> k == 0,
        k > 0 ==> 0 <= path_to(v.entries, tip)[k - 1] < records.len(),
        k > 0 ==> forall|m: int|
            0 <= m < records.len() ==> ((#[trigger] records[m]).hash@ == records[path_to(
                v.entries,
                tip,
            )[k]].metadata.parent@ <==> m == path_to(v.entries, tip)[k - 1]),
{
    reveal(stored_tree);
    lemma_tree_valid_wf(v);
    let e = v.entries;
    let pt = path_to(e, tip);
    lemma_path_shape(e, v.tip, tip);
    lemma_height_bound(e, v.tip, tip);
    let i = pt[k];
    assert(record_is(records[i], e[i]));
    if records[i].hash@ == e[0].hash {
        lemma_unique_hash(e, v.tip, i, 0);
    }
    if k == 0 {
        assert(i == 0);
    }
    if k > 0 {
        let p = pt[k - 1];
        assert(e[i].metadata.parent@ == e[p].hash);
        assert forall|m: int| 0 <= m < records.len() implies ((#[trigger] records[m]).hash@
            == records[i].metadata.parent@ <==> m == p) by {
            assert(record_is(records[m], e[m]));
            if records[m].hash@ == records[i].metadata.parent@ {
                lemma_unique_hash(e, v.tip, m, p);
            }
        }
    }
}

/// The positions of the records from genesis to the record at `tip`,
/// following stored parents. When the records are the blocks of a tree, this
/// is the tree's path to that block.
fn ancestry(records: &Vec<StoredBlock>, tip: usize, genesis: &BlockHash, Ghost(v): Ghost<ChainView>) -> (r: Result<
    Vec<usize>,
    StorageError,
>)
    requires
        tip < records@.len(),
    ensures
        r matches Ok(path) ==> {
            &&& path@.len() >= 1
            &&& forall|q: int| 0 <= q < path@.len() ==> (#[trigger] path@[q]) < records@.len()
            &&& records@[path@[0] as int].hash@ == genesis@
            &&& path@[path@.len() - 1] == tip
        },
        stored_tree(records@, v) && genesis@ == v.entries[0].hash ==> (r matches Ok(path) && path@.len() == path_to(
            v.entries,
            tip as int,
        ).len() && forall|q: int| 0 <= q < path@.len() ==> path@[q] as int == #[trigger] path_to(v.entries, tip as int)[q]),
{
    let ghost honest = stored_tree(records@, v) && genesis@ == v.entries[0].hash;
    let ghost pt = path_to(v.entries, tip as int);
    let ghost top = height_of(v.entries, tip as int) as int;
    proof {
        if honest {
            lemma_ancestry_step(records@, v, tip as int, top);
        }
    }
    let mut reversed: Vec<usize> = Vec::new();
    let mut current = tip;
    let mut steps: usize = 0;
    loop
        invariant_except_break
            honest ==> {
                &&& stored_tree(records@, v)
                &&& genesis@ == v.entries[0].hash
                &&& top <= tip
                &&& pt.len() == top + 1
                &&& steps <= top
                &&& current as int == pt[top - steps]
                &&& forall|q: int| 0 <= q < steps ==> reversed@[q] as int == #[trigger] pt[top - q]
            },
        invariant
            honest == (stored_tree(records@, v) && genesis@ == v.entries[0].hash),
            tip < records@.len(),
            pt == path_to(v.entries, tip as int),
            top == height_of(v.entries, tip as int) as int,
            current < records@.len(),
            reversed@.len() == steps,
            steps <= records@.len(),
            forall|q: int| 0 <= q < reversed@.len() ==> (#[trigger] reversed@[q]) < records@.len(),
            steps > 0 ==> reversed@[0] == tip,
            steps == 0 ==> current == tip,
            honest ==> stored_tree(records@, v) && genesis@ == v.entries[0].hash,
        ensures
            reversed@.len() >= 1,
            reversed@[0] == tip,
            forall|q: int| 0 <= q < reversed@.len() ==> (#[trigger] reversed@[q]) < records@.len(),
            records@[reversed@[reversed@.len() - 1] as int].hash@ == genesis@,
            honest ==> pt.len() == top + 1 && reversed@.len() == top + 1 && forall|q: int|
                0 <= q < reversed@.len() ==> reversed@[q] as int == #[trigger] pt[top - q],
        decreases records@.len() - steps,
    {
        proof {
            if honest {
                lemma_ancestry_step(records@, v, tip as int, top - steps);
            }
        }
        if steps >= records.len() {
            return Err(StorageError::InvalidData("canonical cycle"));
        }
        let ghost before = reversed@;
        reversed.push(current);
        steps += 1;
        proof {
            if honest {
                assert forall|q: int| 0 <= q < steps implies reversed@[q] as int == #[trigger] pt[top - q] by {
                    if q < steps - 1 {
                        assert(reversed@[q] == before[q]);
                    }
                }
            }
        }
        if records[current].hash == *genesis {
            break;
        }
        current = match record_position(records, &records[current].metadata.parent) {
            Some(k) => k,
            None => {
                proof {
                    if honest {
                        let p = pt[top - (steps - 1) - 1];
                        assert(records@[p].hash@ == records@[current as int].metadata.parent@);
                    }
                }
                return Err(StorageError::InvalidData("canonical block missing"));
            },
        };
    }
    let mut path: Vec<usize> = Vec::new();
    let mut i: usize = reversed.len();
    while i > 0
        invariant
            i <= reversed@.len(),
            reversed@.len() >= 1,
            reversed@[0] == tip,
            forall|q: int| 0 <= q < reversed@.len() ==> (#[trigger] reversed@[q]) < records@.len(),
            records@[reversed@[reversed@.len() - 1] as int].hash@ == genesis@,
            pt == path_to(v.entries, tip as int),
            top == height_of(v.entries, tip as int) as int,
            path@.len() == reversed@.len() - i,
            forall|q: int| 0 <= q < path@.len() ==> #[trigger] path@[q] == reversed@[reversed@.len() - 1 - q],
            honest ==> pt.len() == top + 1 && reversed@.len() == top + 1 && forall|q: int|
                0 <= q < reversed@.len() ==> reversed@[q] as int == #[trigger] pt[top - q],
        decreases i,
    {
        i -= 1;
        path.push(reversed[i]);
    }
    proof {
        if honest {
            assert forall|q: int| 0 <= q < path@.len() implies path@[q] as int == #[trigger] pt[q] by {
                assert(path@[q] == reversed@[top - q]);
                assert(reversed@[top - q] as int == pt[top - (top - q)]);
            }
        }
    }
    Ok(path)
}

/// Every indexed block of `v` is one of the records.
spec fn entries_recorded(v: ChainView, records: Seq<StoredBlock>) -> bool {
    forall|i: int|
        0 <= i < v.entries.len() ==> exists|k: int|
            0 <= k < records.len() && (#[trigger] records[k]).hash@ == #[trigger] v.entries[i].hash
}

/// Whether two headers are the same, field by field.
fn same_header(a: &BlockHeader, b: &BlockHeader) -> (r: bool)
    ensures
        r == (*a == *b),
{
    let r = a.version.0 == b.version.0 && a.chain_id.0 == b.chain_id.0 && a.height.0 == b.height.0
        && a.previous_block_hash == b.previous_block_hash && a.transaction_root == b.transaction_root
        && a.state_root == b.state_root && a.pow_target == b.pow_target && a.timestamp.0 == b.timestamp.0
        && a.pow_nonce.0 == b.pow_nonce.0;
    proof {
        if r {
            assert(a.previous_block_hash.0.0 =~= b.previous_block_hash.0.0);
            assert(a.transaction_root.0.0 =~= b.transaction_root.0.0);
            assert(a.state_root.0.0 =~= b.state_root.0.0);
            assert(a.pow_target.0 =~= b.pow_target.0);
        }
    }
    r
}

/// Whether two metadata records are the same, field by field.
fn same_metadata(a: &BlockMetadata, b: &BlockMetadata) -> (r: bool)
    ensures
        r == (*a == *b),
{
    let r = a.parent == b.parent && a.height.0 == b.height.0 && a.cumulative_work == b.cumulative_work;
    proof {
        if r {
            assert(a.parent.0.0 =~= b.parent.0.0);
            assert(a.cumulative_work.0 =~= b.cumulative_work.0);
        }
    }
    r
}

/// Appends a stored block to the chain being restored.
fn replay(chain: &mut Blockchain, records: &Vec<StoredBlock>, pos: usize) -> (r: Result<(), StorageError>)
    requires
        old(chain).wf(),
        pos < records@.len(),
        records@[pos as int].hash@ == spec_block_hash(records@[pos as int].block.header),
        entries_recorded(old(chain)@, records@),
        old(chain)@.entries.len() >= 1,
    ensures
        final(chain).wf(),
        entries_recorded(final(chain)@, records@),
        final(chain)@.chain_id == old(chain)@.chain_id,
        final(chain)@.pow_target == old(chain)@.pow_target,
        final(chain)@.entries.len() >= 1,
        final(chain)@.entries[0] == old(chain)@.entries[0],
        spec_append_error(old(chain)@, records@[pos as int].block.header, records@[pos as int].block.transactions@)
            is None ==> r is Ok && final(chain)@ == spec_appended(
            old(chain)@,
            records@[pos as int].block.header,
            records@[pos as int].block.transactions@,
        ),
{
    let block = records[pos].block.duplicate();
    let ghost before = chain@;
    match chain.append_block(block) {
        Ok(_) => {
            proof {
                let v = chain@;
                if v != before {
                    assert(v.entries == before.entries.push(v.entries.last()));
                    assert forall|i: int| 0 <= i < v.entries.len() implies exists|k: int|
                        0 <= k < records@.len() && (#[trigger] records@[k]).hash@ == #[trigger] v.entries[i].hash by {
                        if i < before.entries.len() {
                            assert(v.entries[i] == before.entries[i]);
                            let k = choose|k: int|
                                0 <= k < records@.len() && (#[trigger] records@[k]).hash@ == #[trigger] before.entries[i].hash;
                            assert(records@[k].hash@ == v.entries[i].hash);
                        } else {
                            assert(records@[pos as int].hash@ == v.entries[i].hash);
                        }
                    }
                }
            }
            Ok(())
        },
        Err(e) => Err(StorageError::Chain(e)),
    }
}

/// Every position of `s` holds a block no lower than the one at `x`.
spec fn lowest_at(e: Seq<ChainEntry>, s: Seq<usize>, x: int) -> bool {
    &&& 0 <= x < s.len()
    &&& forall|y: int| 0 <= y < s.len() ==> height_of(e, #[trigger] s[y] as int) >= height_of(e, s[x] as int)
}

/// A non-empty list of positions has a lowest block.
proof fn lemma_lowest(e: Seq<ChainEntry>, s: Seq<usize>)
    requires
        s.len() > 0,
    ensures
        exists|x: int| lowest_at(e, s, x),
    decreases s.len(),
{
    if s.len() == 1 {
        assert(lowest_at(e, s, 0));
    } else {
        let t = s.drop_last();
        lemma_lowest(e, t);
        let x = choose|x: int| lowest_at(e, t, x);
        let last = s.len() - 1;
        if height_of(e, s[last] as int) < height_of(e, s[x] as int) {
            assert forall|y: int| 0 <= y < s.len() implies height_of(e, #[trigger] s[y] as int) >= height_of(
                e,
                s[last] as int,
            ) by {
                if y < last {
                    assert(s[y] == t[y]);
                }
            }
            assert(lowest_at(e, s, last));
        } else {
            assert forall|y: int| 0 <= y < s.len() implies height_of(e, #[trigger] s[y] as int) >= height_of(
                e,
                s[x] as int,
            ) by {
                if y < last {
                    assert(s[y] == t[y]);
                }
            }
            assert(lowest_at(e, s, x));
        }
    }
}

/// Whether the block at `k` of `v` is indexed in the tree `c`.
spec fn present(c: ChainView, v: ChainView, k: int) -> bool {
    find_entry(c.entries, v.entries[k].hash) is Some
}

/// Whether `k` occurs in `s`.
spec fn listed(s: Seq<usize>, k: int) -> bool {
    exists|x: int| 0 <= x < s.len() && s[x] as int == k
}

/// The stored genesis record, for blocks of a tree grown from `config`.
proof fn lemma_stored_genesis(config: GenesisConfig, records: Seq<StoredBlock>, v: ChainView)
    requires
        stored_tree(records, v),
        v.entries[0].header == config.spec_genesis_header(),
        v.entries[0].state == config.spec_initial_state(),
    ensures
        records.len() >= 1,
        record_is(records[0], v.entries[0]),
        records[0].hash@ == spec_block_hash(config.spec_genesis_header()),
        records[0].block.header == config.spec_genesis_header(),
        records[0].block.transactions@.len() == 0,
        records[0].metadata.parent@ == Seq::new(32, |i: int| 0u8),
        records[0].metadata.height.0 == 0,
        records[0].metadata.cumulative_work@ == zeros(32),
        records[0].state@ == config.spec_initial_state(),
{
    reveal(stored_tree);
    lemma_tree_valid_wf(v);
    assert(record_is(records[0], v.entries[0]));
    assert(height_of(v.entries, 0) == 0);
}

/// A stored record of a tree agrees with its header, and one above genesis
/// has its parent among the records.
proof fn lemma_stored_links(records: Seq<StoredBlock>, v: ChainView, k: int)
    requires
        stored_tree(records, v),
        0 <= k < records.len(),
    ensures
        records[k].metadata.height == records[k].block.header.height,
        records[k].metadata.parent@ == records[k].block.header.previous_block_hash@,
        k > 0 ==> exists|p: int| 0 <= p < records.len() && (#[trigger] records[p]).hash@ == records[k].metadata.parent@,
{
    reveal(stored_tree);
    lemma_tree_valid_wf(v);
    let e = v.entries;
    assert(record_is(records[k], e[k]));
    if k > 0 {
        assert(has_parent(e, k));
        let p = parent_of(e, k);
        assert(record_is(records[p], e[p]));
    }
}

/// Checks the genesis record against the configuration, and every record's
/// parent and metadata against its header; gives the genesis position.
fn check_records(config: &GenesisConfig, records: &Vec<StoredBlock>, Ghost(vo): Ghost<ChainView>) -> (r: Result<
    usize,
    StorageError,
>)
    ensures
        r matches Ok(g) ==> g < records@.len() && records@[g as int].hash@ == spec_block_hash(config.spec_genesis_header()),
        stored_tree(records@, vo) && vo.entries[0].header == config.spec_genesis_header() && vo.entries[0].state
            == config.spec_initial_state() ==> r is Ok,
{
    let ghost honest = stored_tree(records@, vo) && vo.entries[0].header == config.spec_genesis_header()
        && vo.entries[0].state == config.spec_initial_state();
    let genesis_hash = config.genesis_hash();
    proof {
        if honest {
            lemma_stored_genesis(*config, records@, vo);
        }
    }
    let genesis_pos = match record_position(records, &genesis_hash) {
        Some(k) => k,
        None => {
            return Err(StorageError::InvalidData("genesis missing"));
        },
    };
    let genesis_block = config.genesis_block();
    let g = &records[genesis_pos];
    let zero_hash = BlockHash::zero();
    let zero_work = ChainWork::zero();
    let genesis_root = config.state_root();
    proof {
        assert(zero_hash@ =~= Seq::new(32, |i: int| 0u8));
        if honest {
            lemma_stored_unique(records@, vo, genesis_pos as int, 0);
        }
    }
    if !same_header(&g.block.header, &genesis_block.header) || g.block.transactions.len() != 0
        || !(g.metadata.parent == zero_hash) || g.metadata.height.0 != 0
        || !(g.metadata.cumulative_work == zero_work) || !(g.state.state_root() == genesis_root) {
        return Err(StorageError::InvalidData("genesis mismatch"));
    }
    let mut k: usize = 0;
    while k < records.len()
        invariant
            k <= records@.len(),
            honest == (stored_tree(records@, vo) && vo.entries[0].header == config.spec_genesis_header()
                && vo.entries[0].state == config.spec_initial_state()),
            honest ==> stored_tree(records@, vo) && records@[0].hash@ == genesis_hash@,
        decreases records@.len() - k,
    {
        let record = &records[k];
        proof {
            if honest {
                lemma_stored_links(records@, vo, k as int);
            }
        }
        if !(record.hash == genesis_hash) && record_position(records, &record.metadata.parent).is_none() {
            return Err(StorageError::InvalidData("parent missing"));
        }
        if record.metadata.height.0 != record.block.header.height.0 || !(record.metadata.parent
            == record.block.header.previous_block_hash) {
            return Err(StorageError::InvalidData("metadata mismatch"));
        }
        k += 1;
    }
    Ok(genesis_pos)
}

/// The records on the path, in order, are the blocks of the path to `v`'s tip.
spec fn path_of(path: Seq<usize>, v: ChainView) -> bool {
    &&& path.len() == path_to(v.entries, v.tip).len()
    &&& forall|q: int| 0 <= q < path.len() ==> path[q] as int == #[trigger] path_to(v.entries, v.tip)[q]
}

/// Replaying the `q`-th record of the path, with the ones before it replayed,
/// indexes it as the new tip.
#[verifier::rlimit(100)]
proof fn lemma_path_step(c: ChainView, records: Seq<StoredBlock>, vo: ChainView, path: Seq<usize>, q: int)
    requires
        stored_tree(records, vo),
        path_of(path, vo),
        tree_wf(c.entries, c.tip),
        c.chain_id == vo.chain_id,
        c.pow_target == vo.pow_target,
        1 <= q < path.len(),
        c.entries.len() == q,
        c.tip == q - 1,
        forall|i: int| 0 <= i < q ==> c.entries[i] == vo.entries[#[trigger] path[i] as int],
    ensures
        0 <= path[q] < records.len(),
        spec_append_error(c, records[path[q] as int].block.header, records[path[q] as int].block.transactions@) is None,
        spec_appended(c, records[path[q] as int].block.header, records[path[q] as int].block.transactions@)
            == (ChainView { entries: c.entries.push(vo.entries[path[q] as int]), tip: q, ..c }),
{
    reveal(stored_tree);
    lemma_tree_valid_wf(vo);
    let e = vo.entries;
    let pt = path_to(e, vo.tip);
    lemma_path_shape(e, vo.tip, vo.tip);
    let j = pt[q];
    assert(path[q] as int == j);
    assert(record_is(records[j], e[j]));
    assert forall|i: int| 0 <= i < c.entries.len() implies exists|k: int|
        0 <= k < e.len() && #[trigger] e[k] == #[trigger] c.entries[i] by {
        assert(path[i] as int == pt[i]);
        assert(e[pt[i]] == c.entries[i]);
    }
    assert(height_of(e, j) == q);
    assert(j != 0);
    assert(path[q - 1] as int == pt[q - 1]);
    assert(e[j].metadata.parent@ == e[pt[q - 1]].hash);
    assert(c.entries[q - 1].hash == e[j].metadata.parent@);
    lemma_replay_step(c, vo, j);
    lemma_find_entry(c.entries, c.tip, q - 1);
    lemma_appended_work(c, e[j].header, e[j].transactions);
    assert forall|i: int| 0 <= i < c.entries.len() implies #[trigger] c.entries[i].hash != e[j].hash by {
        assert(path[i] as int == pt[i]);
        if c.entries[i].hash == e[j].hash {
            lemma_unique_hash(e, vo.tip, pt[i], j);
        }
    }
    assert(find_entry(c.entries, spec_block_hash(e[j].header)) is None);
}

/// Replays the records on the path after its first.
fn replay_path(chain: &mut Blockchain, records: &Vec<StoredBlock>, path: &Vec<usize>, Ghost(vo): Ghost<ChainView>) -> (r:
    Result<(), StorageError>)
    requires
        old(chain).wf(),
        forall|k: int| 0 <= k < records@.len() ==> (#[trigger] records@[k]).hash@ == spec_block_hash(records@[k].block.header),
        forall|j: int| 0 <= j < path@.len() ==> (#[trigger] path@[j]) < records@.len(),
        entries_recorded(old(chain)@, records@),
        old(chain)@.entries.len() >= 1,
    ensures
        final(chain).wf(),
        entries_recorded(final(chain)@, records@),
        final(chain)@.chain_id == old(chain)@.chain_id,
        final(chain)@.pow_target == old(chain)@.pow_target,
        final(chain)@.entries.len() >= 1,
        final(chain)@.entries[0] == old(chain)@.entries[0],
        stored_tree(records@, vo) && path_of(path@, vo) && old(chain)@.chain_id == vo.chain_id && old(chain)@.pow_target
            == vo.pow_target && old(chain)@.entries.len() == 1 && old(chain)@.tip == 0 && old(chain)@.entries[0]
            == vo.entries[path@[0] as int] ==> (r is Ok && final(chain)@.entries.len() == path@.len()
            && final(chain)@.tip == path@.len() - 1 && forall|i: int|
            0 <= i < path@.len() ==> final(chain)@.entries[i] == vo.entries[#[trigger] path@[i] as int]),
{
    let ghost honest = stored_tree(records@, vo) && path_of(path@, vo) && chain@.chain_id == vo.chain_id
        && chain@.pow_target == vo.pow_target && chain@.entries.len() == 1 && chain@.tip == 0 && chain@.entries[0]
        == vo.entries[path@[0] as int];
    let ghost first = chain@.entries[0];
    let ghost cid = chain@.chain_id;
    let ghost target = chain@.pow_target;
    let mut q: usize = 1;
    while q < path.len()
        invariant
            forall|k: int| 0 <= k < records@.len() ==> (#[trigger] records@[k]).hash@ == spec_block_hash(records@[k].block.header),
            forall|j: int| 0 <= j < path@.len() ==> (#[trigger] path@[j]) < records@.len(),
            chain.wf(),
            entries_recorded(chain@, records@),
            chain@.chain_id == cid,
            chain@.pow_target == target,
            chain@.entries.len() >= 1,
            chain@.entries[0] == first,
            cid == old(chain)@.chain_id,
            target == old(chain)@.pow_target,
            first == old(chain)@.entries[0],
            honest == (stored_tree(records@, vo) && path_of(path@, vo) && old(chain)@.chain_id == vo.chain_id
                && old(chain)@.pow_target == vo.pow_target && old(chain)@.entries.len() == 1 && old(chain)@.tip == 0
                && old(chain)@.entries[0] == vo.entries[path@[0] as int]),
            1 <= q,
            honest ==> {
                &&& stored_tree(records@, vo)
                &&& path_of(path@, vo)
                &&& cid == vo.chain_id
                &&& target == vo.pow_target
                &&& q <= path@.len()
                &&& chain@.entries.len() == q
                &&& chain@.tip == q - 1
                &&& forall|i: int| 0 <= i < q ==> chain@.entries[i] == vo.entries[#[trigger] path@[i] as int]
            },
        decreases path@.len() - q,
    {
        let ghost c1 = chain@;
        proof {
            if honest {
                let j = path@[q as int] as int;
                let h = records@[j].block.header;
                let txs = records@[j].block.transactions@;
                assert(spec_append_error(c1, h, txs) is None && spec_appended(c1, h, txs) == (ChainView {
                    entries: c1.entries.push(vo.entries[j]),
                    tip: q as int,
                    ..c1
                })) by {
                    lemma_tree_valid(chain);
                    lemma_path_step(c1, records@, vo, path@, q as int);
                }
            }
        }
        replay(chain, records, path[q])?;
        proof {
            if honest {
                assert forall|i: int| 0 <= i < q + 1 implies chain@.entries[i] == vo.entries[#[trigger] path@[i] as int] by {
                    if i < q {
                        assert(chain@.entries[i] == c1.entries[i]);
                    }
                }
            }
        }
        q += 1;
    }
    Ok(())
}

/// The positions of the records that are not on the path, ascending.
fn off_path(n: usize, path: &Vec<usize>) -> (pending: Vec<usize>)
    ensures
        forall|x: int| 0 <= x < pending@.len() ==> (#[trigger] pending@[x]) < n,
        forall|k: int| 0 <= k < n ==> (listed(pending@, k) <==> !listed(path@, k)),
{
    let mut pending: Vec<usize> = Vec::new();
    let mut k: usize = 0;
    while k < n
        invariant
            k <= n,
            forall|x: int| 0 <= x < pending@.len() ==> (#[trigger] pending@[x]) < k,
            forall|k2: int| 0 <= k2 < k ==> (listed(pending@, k2) <==> !listed(path@, k2)),
        decreases n - k,
    {
        let mut on_path = false;
        let mut j: usize = 0;
        while j < path.len()
            invariant
                j <= path@.len(),
                on_path <==> exists|x: int| 0 <= x < j && #[trigger] path@[x] == k,
            decreases path@.len() - j,
        {
            if path[j] == k {
                on_path = true;
            }
            j += 1;
        }
        let ghost before = pending@;
        if !on_path {
            pending.push(k);
        }
        proof {
            assert forall|k2: int| 0 <= k2 < k + 1 implies (listed(pending@, k2) <==> !listed(path@, k2)) by {
                if listed(pending@, k2) {
                    let x = choose|x: int| 0 <= x < pending@.len() && #[trigger] pending@[x] as int == k2;
                    if x < before.len() {
                        assert(before[x] == pending@[x]);
                    }
                }
                if listed(before, k2) {
                    let x = choose|x: int| 0 <= x < before.len() && #[trigger] before[x] as int == k2;
                    assert(pending@[x] == before[x]);
                }
                if k2 == k && listed(path@, k2) {
                    let x = choose|x: int| 0 <= x < path@.len() && #[trigger] path@[x] as int == k2;
                    assert(path@[x] == k);
                }
                if k2 == k && !on_path {
                    assert(pending@[pending@.len() - 1] == k);
                }
            }
            assert forall|x: int| 0 <= x < pending@.len() implies (#[trigger] pending@[x]) < k + 1 by {
                if x < before.len() {
                    assert(pending@[x] == before[x]);
                }
            }
        }
        k += 1;
    }
    pending
}

/// While restoring from the blocks of the tree `vo`: the chain is a part of
/// `vo` with its genesis and its canonical tip, holding exactly the blocks
/// that are not pending.
#[verifier::opaque]
spec fn restoring(c: ChainView, vo: ChainView, records: Seq<StoredBlock>, pending: Seq<usize>) -> bool {
    &&& stored_tree(records, vo)
    &&& c.chain_id == vo.chain_id
    &&& c.pow_target == vo.pow_target
    &&& c.entries.len() >= 1
    &&& c.entries[0] == vo.entries[0]
    &&& embedded(c.entries, vo.entries)
    &&& c.entries[c.tip].hash == vo.entries[vo.tip].hash
    &&& forall|k: int| 0 <= k < vo.entries.len() ==> (#[trigger] present(c, vo, k) <==> !listed(pending, k))
}

/// Within a round: as `restoring`, with the first `x` ready records done,
/// and every ready record above genesis with its parent indexed.
#[verifier::opaque]
spec fn restoring_round(
    c: ChainView,
    vo: ChainView,
    records: Seq<StoredBlock>,
    pending: Seq<usize>,
    ready: Seq<usize>,
    x: int,
) -> bool {
    &&& stored_tree(records, vo)
    &&& c.chain_id == vo.chain_id
    &&& c.pow_target == vo.pow_target
    &&& c.entries.len() >= 1
    &&& c.entries[0] == vo.entries[0]
    &&& embedded(c.entries, vo.entries)
    &&& c.entries[c.tip].hash == vo.entries[vo.tip].hash
    &&& 0 <= x <= ready.len()
    &&& forall|k: int|
        0 <= k < vo.entries.len() ==> (#[trigger] present(c, vo, k) <==> (!listed(pending, k) || listed(
            ready.subrange(0, x),
            k,
        )))
    &&& forall|y: int|
        0 <= y < ready.len() ==> 0 < #[trigger] ready[y] < records.len() && find_entry(
            c.entries,
            records[ready[y] as int].metadata.parent@,
        ) is Some
}

/// Splits the pending records into those whose parent is indexed and the rest.
fn split_ready(chain: &Blockchain, records: &Vec<StoredBlock>, pending: &Vec<usize>) -> (r: (Vec<usize>, Vec<usize>))
    requires
        chain.wf(),
        forall|x: int| 0 <= x < pending@.len() ==> (#[trigger] pending@[x]) < records@.len(),
    ensures
        r.0@.len() + r.1@.len() == pending@.len(),
        forall|x: int| 0 <= x < r.0@.len() ==> (#[trigger] r.0@[x]) < records@.len(),
        forall|x: int| 0 <= x < r.1@.len() ==> (#[trigger] r.1@[x]) < records@.len(),
        forall|y: int|
            0 <= y < r.0@.len() ==> listed(pending@, #[trigger] r.0@[y] as int) && find_entry(
                chain@.entries,
                records@[r.0@[y] as int].metadata.parent@,
            ) is Some,
        forall|y: int|
            0 <= y < r.1@.len() ==> listed(pending@, #[trigger] r.1@[y] as int) && find_entry(
                chain@.entries,
                records@[r.1@[y] as int].metadata.parent@,
            ) is None,
        forall|x: int|
            0 <= x < pending@.len() ==> listed(r.0@, #[trigger] pending@[x] as int) || listed(r.1@, pending@[x] as int),
{
    let mut ready: Vec<usize> = Vec::new();
    let mut rest: Vec<usize> = Vec::new();
    let mut j: usize = 0;
    while j < pending.len()
        invariant
            chain.wf(),
            forall|x: int| 0 <= x < pending@.len() ==> (#[trigger] pending@[x]) < records@.len(),
            j <= pending@.len(),
            ready@.len() + rest@.len() == j,
            forall|x: int| 0 <= x < ready@.len() ==> (#[trigger] ready@[x]) < records@.len(),
            forall|x: int| 0 <= x < rest@.len() ==> (#[trigger] rest@[x]) < records@.len(),
            forall|y: int|
                0 <= y < ready@.len() ==> listed(pending@, #[trigger] ready@[y] as int) && find_entry(
                    chain@.entries,
                    records@[ready@[y] as int].metadata.parent@,
                ) is Some,
            forall|y: int|
                0 <= y < rest@.len() ==> listed(pending@, #[trigger] rest@[y] as int) && find_entry(
                    chain@.entries,
                    records@[rest@[y] as int].metadata.parent@,
                ) is None,
            forall|x: int| 0 <= x < j ==> listed(ready@, #[trigger] pending@[x] as int) || listed(rest@, pending@[x] as int),
        decreases pending@.len() - j,
    {
        let p = pending[j];
        let ghost ready0 = ready@;
        let ghost rest0 = rest@;
        if chain.block(&records[p].metadata.parent).is_some() {
            ready.push(p);
        } else {
            rest.push(p);
        }
        proof {
            assert(listed(pending@, p as int));
            assert forall|y: int| 0 <= y < ready@.len() implies listed(pending@, #[trigger] ready@[y] as int) && find_entry(
                chain@.entries,
                records@[ready@[y] as int].metadata.parent@,
            ) is Some by {
                if y < ready0.len() {
                    assert(ready@[y] == ready0[y]);
                }
            }
            assert forall|y: int| 0 <= y < rest@.len() implies listed(pending@, #[trigger] rest@[y] as int) && find_entry(
                chain@.entries,
                records@[rest@[y] as int].metadata.parent@,
            ) is None by {
                if y < rest0.len() {
                    assert(rest@[y] == rest0[y]);
                }
            }
            assert forall|x: int| 0 <= x < j + 1 implies listed(ready@, #[trigger] pending@[x] as int) || listed(
                rest@,
                pending@[x] as int,
            ) by {
                if x < j {
                    if listed(ready0, pending@[x] as int) {
                        let y = choose|y: int| 0 <= y < ready0.len() && #[trigger] ready0[y] as int == pending@[x] as int;
                        assert(ready@[y] == ready0[y]);
                    } else {
                        let y = choose|y: int| 0 <= y < rest0.len() && #[trigger] rest0[y] as int == pending@[x] as int;
                        assert(rest@[y] == rest0[y]);
                    }
                } else {
                    if ready@.len() > ready0.len() {
                        assert(ready@[ready@.len() - 1] == p);
                    } else {
                        assert(rest@[rest@.len() - 1] == p);
                    }
                }
            }
        }
        j += 1;
    }
    (ready, rest)
}

/// When some records are pending, some pending record has its parent
/// indexed (the lowest pending one), and a round starts.
proof fn lemma_round_start(
    c: ChainView,
    vo: ChainView,
    records: Seq<StoredBlock>,
    pending: Seq<usize>,
    ready: Seq<usize>,
    rest: Seq<usize>,
)
    requires
        restoring(c, vo, records, pending),
        pending.len() > 0,
        forall|x: int| 0 <= x < pending.len() ==> (#[trigger] pending[x]) < records.len(),
        forall|x: int| 0 <= x < ready.len() ==> (#[trigger] ready[x]) < records.len(),
        forall|y: int|
            0 <= y < ready.len() ==> listed(pending, #[trigger] ready[y] as int) && find_entry(
                c.entries,
                records[ready[y] as int].metadata.parent@,
            ) is Some,
        forall|y: int|
            0 <= y < rest.len() ==> find_entry(c.entries, records[#[trigger] rest[y] as int].metadata.parent@) is None,
        forall|x: int| 0 <= x < pending.len() ==> listed(ready, #[trigger] pending[x] as int) || listed(rest, pending[x] as int),
    ensures
        ready.len() > 0,
        restoring_round(c, vo, records, pending, ready, 0),
{
    reveal(restoring);
    reveal(restoring_round);
    lemma_stored_wf(records, vo);
    let e = vo.entries;
    assert(present(c, vo, 0)) by {
        assert(c.entries[0].hash == e[0].hash);
    }
    lemma_lowest(e, pending);
    let x0 = choose|x: int| lowest_at(e, pending, x);
    let k0 = pending[x0] as int;
    assert(listed(pending, k0));
    assert(k0 != 0);
    assert(has_parent(e, k0));
    let p0 = parent_of(e, k0);
    if listed(pending, p0) {
        let x1 = choose|x: int| 0 <= x < pending.len() && #[trigger] pending[x] as int == p0;
        assert(height_of(e, pending[x1] as int) >= height_of(e, k0));
    }
    assert(present(c, vo, p0));
    lemma_stored_record(records, vo, k0);
    assert(find_entry(c.entries, records[k0].metadata.parent@) is Some);
    assert(listed(ready, pending[x0] as int) || listed(rest, pending[x0] as int));
    if listed(rest, k0) {
        let y = choose|y: int| 0 <= y < rest.len() && #[trigger] rest[y] as int == k0;
        assert(find_entry(c.entries, records[rest[y] as int].metadata.parent@) is None);
    }
    assert(listed(ready, k0));
    assert forall|y: int| 0 <= y < ready.len() implies 0 < #[trigger] ready[y] < records.len() && find_entry(
        c.entries,
        records[ready[y] as int].metadata.parent@,
    ) is Some by {
        if ready[y] == 0 {
            assert(listed(pending, ready[y] as int));
            assert(listed(pending, 0));
        }
    }
    assert forall|k: int| 0 <= k < e.len() implies (present(c, vo, k) <==> (!listed(pending, k) || listed(
        ready.subrange(0, 0),
        k,
    ))) by {
        if listed(ready.subrange(0, 0), k) {
            let y = choose|y: int| 0 <= y < ready.subrange(0, 0).len() && #[trigger] ready.subrange(0, 0)[y] as int == k;
        }
    }
}

/// Replaying a stored block of the tree whose parent is indexed keeps the
/// chain a part of the tree with the same tip, adding that block.
proof fn lemma_replay_record(c: ChainView, vo: ChainView, records: Seq<StoredBlock>, kk: int)
    requires
        stored_tree(records, vo),
        tree_wf(c.entries, c.tip),
        c.chain_id == vo.chain_id,
        c.pow_target == vo.pow_target,
        c.entries.len() >= 1,
        embedded(c.entries, vo.entries),
        c.entries[c.tip].hash == vo.entries[vo.tip].hash,
        0 < kk < records.len(),
        find_entry(c.entries, records[kk].metadata.parent@) is Some,
    ensures
        ({
            let c2 = spec_appended(c, records[kk].block.header, records[kk].block.transactions@);
            &&& spec_append_error(c, records[kk].block.header, records[kk].block.transactions@) is None
            &&& c2.chain_id == c.chain_id
            &&& c2.pow_target == c.pow_target
            &&& c2.entries.len() >= 1
            &&& c2.entries[0] == c.entries[0]
            &&& embedded(c2.entries, vo.entries)
            &&& c2.entries[c2.tip].hash == vo.entries[vo.tip].hash
            &&& forall|h: Seq<u8>|
                #[trigger] find_entry(c2.entries, h) is Some <==> (find_entry(c.entries, h) is Some || h
                    == vo.entries[kk].hash)
        }),
{
    lemma_stored_wf(records, vo);
    lemma_stored_record(records, vo, kk);
    let e = vo.entries;
    lemma_replay_step(c, vo, kk);
    let x2 = e[kk];
    let c2 = spec_appended(c, x2.header, x2.transactions);
    let jt = choose|jt: int| 0 <= jt < e.len() && #[trigger] e[jt] == c.entries[c.tip];
    lemma_unique_hash(e, vo.tip, jt, vo.tip);
    assert(work_of(e, kk) <= work_of(e, vo.tip));
    if find_entry(c.entries, x2.hash) is None {
        assert(c2.entries == c.entries.push(x2));
        assert(c2.tip == c.tip);
        assert(c2.entries[c2.tip] == c.entries[c.tip]);
        assert(c2.entries[0] == c.entries[0]);
        assert forall|i: int| 0 <= i < c2.entries.len() implies exists|k: int|
            0 <= k < e.len() && #[trigger] e[k] == #[trigger] c2.entries[i] by {
            if i < c.entries.len() {
                assert(c2.entries[i] == c.entries[i]);
            } else {
                assert(e[kk] == c2.entries[i]);
            }
        }
        assert forall|h: Seq<u8>| #[trigger] find_entry(c2.entries, h) is Some <==> (find_entry(c.entries, h) is Some
            || h == x2.hash) by {
            lemma_find_entry_push_any(c.entries, x2, h);
        }
    } else {
        assert(c2 == c);
    }
}

/// Replaying the next ready record keeps the round going.
#[verifier::rlimit(100)]
proof fn lemma_round_step(
    c: ChainView,
    vo: ChainView,
    records: Seq<StoredBlock>,
    pending: Seq<usize>,
    ready: Seq<usize>,
    x: int,
)
    requires
        restoring_round(c, vo, records, pending, ready, x),
        tree_wf(c.entries, c.tip),
        x < ready.len(),
    ensures
        spec_append_error(c, records[ready[x] as int].block.header, records[ready[x] as int].block.transactions@) is None,
        restoring_round(
            spec_appended(c, records[ready[x] as int].block.header, records[ready[x] as int].block.transactions@),
            vo,
            records,
            pending,
            ready,
            x + 1,
        ),
{
    reveal(restoring_round);
    let e = vo.entries;
    let kk = ready[x] as int;
    assert(0 < kk < records.len());
    lemma_replay_record(c, vo, records, kk);
    let c2 = spec_appended(c, records[kk].block.header, records[kk].block.transactions@);
    assert(records.len() == e.len()) by {
        lemma_stored_wf(records, vo);
    }
    let sub1 = ready.subrange(0, x + 1);
    let sub0 = ready.subrange(0, x);
    assert forall|k2: int| 0 <= k2 < e.len() implies (present(c2, vo, k2) <==> (!listed(pending, k2) || listed(
        sub1,
        k2,
    ))) by {
        assert(find_entry(c2.entries, e[k2].hash) is Some <==> (find_entry(c.entries, e[k2].hash) is Some
            || e[k2].hash == e[kk].hash));
        assert(present(c, vo, k2) <==> (!listed(pending, k2) || listed(sub0, k2)));
        if e[k2].hash == e[kk].hash {
            lemma_stored_wf(records, vo);
            lemma_unique_hash(e, vo.tip, k2, kk);
        }
        assert(sub1[x] == ready[x]);
        if listed(sub1, k2) {
            let y = choose|y: int| 0 <= y < sub1.len() && #[trigger] sub1[y] as int == k2;
            assert(sub1[y] == ready[y]);
            if y < x {
                assert(sub0[y] == ready[y]);
                assert(listed(sub0, k2));
            } else {
                assert(k2 == kk);
            }
        }
        if listed(sub0, k2) {
            let y = choose|y: int| 0 <= y < sub0.len() && #[trigger] sub0[y] as int == k2;
            assert(sub0[y] == ready[y]);
            assert(sub1[y] == ready[y]);
            assert(listed(sub1, k2));
        }
        if k2 == kk {
            assert(listed(sub1, k2));
        }
    }
    assert forall|y: int| 0 <= y < ready.len() implies 0 < #[trigger] ready[y] < records.len() && find_entry(
        c2.entries,
        records[ready[y] as int].metadata.parent@,
    ) is Some by {
        assert(find_entry(c2.entries, records[ready[y] as int].metadata.parent@) is Some <==> (find_entry(
            c.entries,
            records[ready[y] as int].metadata.parent@,
        ) is Some || records[ready[y] as int].metadata.parent@ == e[kk].hash));
    }
}

/// At the end of a round, the records still pending are those left over.
proof fn lemma_round_end(
    part: ChainView,
    c: ChainView,
    vo: ChainView,
    records: Seq<StoredBlock>,
    pending: Seq<usize>,
    ready: Seq<usize>,
    rest: Seq<usize>,
)
    requires
        restoring_round(c, vo, records, pending, ready, ready.len() as int),
        forall|y: int|
            0 <= y < ready.len() ==> listed(pending, #[trigger] ready[y] as int) && find_entry(
                part.entries,
                records[ready[y] as int].metadata.parent@,
            ) is Some,
        forall|y: int|
            0 <= y < rest.len() ==> listed(pending, #[trigger] rest[y] as int) && find_entry(
                part.entries,
                records[rest[y] as int].metadata.parent@,
            ) is None,
        forall|x: int| 0 <= x < pending.len() ==> listed(ready, #[trigger] pending[x] as int) || listed(rest, pending[x] as int),
    ensures
        restoring(c, vo, records, rest),
{
    reveal(restoring_round);
    reveal(restoring);
    let e = vo.entries;
    assert(ready.subrange(0, ready.len() as int) =~= ready);
    assert forall|k2: int| 0 <= k2 < e.len() implies (present(c, vo, k2) <==> !listed(rest, k2)) by {
        if listed(rest, k2) {
            let y = choose|y: int| 0 <= y < rest.len() && #[trigger] rest[y] as int == k2;
            assert(listed(pending, rest[y] as int));
            if listed(ready, k2) {
                let z = choose|z: int| 0 <= z < ready.len() && #[trigger] ready[z] as int == k2;
                assert(find_entry(part.entries, records[ready[z] as int].metadata.parent@) is Some);
            }
        }
        if listed(pending, k2) {
            let w = choose|w: int| 0 <= w < pending.len() && #[trigger] pending[w] as int == k2;
            assert(listed(ready, pending[w] as int) || listed(rest, pending[w] as int));
        }
    }
}

/// Replays the pending records, in rounds, each round those whose parent is
/// indexed; refused when a round finds none.
#[verifier::loop_isolation(false)]
fn replay_rest(chain: &mut Blockchain, records: &Vec<StoredBlock>, pending: Vec<usize>, Ghost(vo): Ghost<ChainView>) -> (r:
    Result<(), StorageError>)
    requires
        old(chain).wf(),
        forall|k: int| 0 <= k < records@.len() ==> (#[trigger] records@[k]).hash@ == spec_block_hash(records@[k].block.header),
        forall|j: int| 0 <= j < pending@.len() ==> (#[trigger] pending@[j]) < records@.len(),
        entries_recorded(old(chain)@, records@),
        old(chain)@.entries.len() >= 1,
    ensures
        final(chain).wf(),
        entries_recorded(final(chain)@, records@),
        final(chain)@.chain_id == old(chain)@.chain_id,
        final(chain)@.pow_target == old(chain)@.pow_target,
        final(chain)@.entries.len() >= 1,
        final(chain)@.entries[0] == old(chain)@.entries[0],
        restoring(old(chain)@, vo, records@, pending@) ==> (r is Ok && restoring(
            final(chain)@,
            vo,
            records@,
            Seq::<usize>::empty(),
        )),
{
    let ghost honest = restoring(chain@, vo, records@, pending@);
    let ghost old_pending = pending@;
    let ghost first = chain@.entries[0];
    let ghost cid = chain@.chain_id;
    let ghost target = chain@.pow_target;
    let mut pending = pending;
    while pending.len() > 0
        invariant
            forall|k: int| 0 <= k < records@.len() ==> (#[trigger] records@[k]).hash@ == spec_block_hash(records@[k].block.header),
            forall|j: int| 0 <= j < pending@.len() ==> (#[trigger] pending@[j]) < records@.len(),
            chain.wf(),
            entries_recorded(chain@, records@),
            chain@.chain_id == cid,
            chain@.pow_target == target,
            chain@.entries.len() >= 1,
            chain@.entries[0] == first,
            cid == old(chain)@.chain_id,
            target == old(chain)@.pow_target,
            first == old(chain)@.entries[0],
            honest == restoring(old(chain)@, vo, records@, old_pending),
            honest ==> restoring(chain@, vo, records@, pending@),
        decreases pending@.len(),
    {
        let ghost part = chain@;
        let (ready, rest) = split_ready(chain, records, &pending);
        proof {
            if honest {
                lemma_round_start(part, vo, records@, pending@, ready@, rest@);
            }
        }
        if ready.len() == 0 {
            return Err(StorageError::InvalidData("cyclic block ancestry"));
        }
        let mut x: usize = 0;
        while x < ready.len()
            invariant
                forall|k: int| 0 <= k < records@.len() ==> (#[trigger] records@[k]).hash@ == spec_block_hash(records@[k].block.header),
                forall|y: int| 0 <= y < ready@.len() ==> (#[trigger] ready@[y]) < records@.len(),
                chain.wf(),
                entries_recorded(chain@, records@),
                chain@.chain_id == cid,
                chain@.pow_target == target,
                chain@.entries.len() >= 1,
                chain@.entries[0] == first,
                cid == old(chain)@.chain_id,
                target == old(chain)@.pow_target,
                first == old(chain)@.entries[0],
                honest == restoring(old(chain)@, vo, records@, old_pending),
                x <= ready@.len(),
                honest ==> restoring_round(chain@, vo, records@, pending@, ready@, x as int),
            decreases ready@.len() - x,
        {
            proof {
                if honest {
                    let kk = ready@[x as int] as int;
                    let h = records@[kk].block.header;
                    let txs = records@[kk].block.transactions@;
                    assert(spec_append_error(chain@, h, txs) is None && restoring_round(
                        spec_appended(chain@, h, txs),
                        vo,
                        records@,
                        pending@,
                        ready@,
                        x + 1,
                    )) by {
                        lemma_tree_valid(chain);
                        lemma_round_step(chain@, vo, records@, pending@, ready@, x as int);
                    }
                }
            }
            replay(chain, records, ready[x])?;
            x += 1;
        }
        proof {
            if honest {
                lemma_round_end(part, chain@, vo, records@, pending@, ready@, rest@);
            }
        }
        pending = rest;
    }
    proof {
        if honest {
            assert(pending@ =~= Seq::<usize>::empty());
        }
    }
    Ok(())
}

/// A record of the tree being restored, once nothing is pending.
proof fn lemma_restored_record(c: ChainView, vo: ChainView, records: Seq<StoredBlock>, k: int)
    requires
        restoring(c, vo, records, Seq::<usize>::empty()),
        tree_wf(c.entries, c.tip),
        0 <= k < records.len(),
    ensures
        find_entry(c.entries, records[k].hash@) is Some,
        c.entries[find_entry(c.entries, records[k].hash@)->Some_0].metadata == records[k].metadata,
        c.entries[find_entry(c.entries, records[k].hash@)->Some_0].state == records[k].state@,
{
    reveal(restoring);
    lemma_stored_wf(records, vo);
    lemma_stored_record(records, vo, k);
    let e = vo.entries;
    assert(!listed(Seq::<usize>::empty(), k));
    assert(present(c, vo, k));
    let i = find_entry(c.entries, e[k].hash)->Some_0;
    assert(0 <= i < c.entries.len() && c.entries[i].hash == e[k].hash);
    let jj = choose|jj: int| 0 <= jj < e.len() && #[trigger] e[jj] == c.entries[i];
    lemma_unique_hash(e, vo.tip, jj, k);
}

/// Checks every record's metadata and state root against the replayed chain.
fn check_replayed(chain: &Blockchain, records: &Vec<StoredBlock>, Ghost(vo): Ghost<ChainView>) -> (r: Result<(), StorageError>)
    requires
        chain.wf(),
    ensures
        r is Ok ==> forall|k: int|
            0 <= k < records@.len() ==> (find_entry(chain@.entries, (#[trigger] records@[k]).hash@) matches Some(i)
                && chain@.entries[i].metadata == records@[k].metadata && spec_state_root(chain@.entries[i].state)
                == spec_state_root(records@[k].state@)),
        restoring(chain@, vo, records@, Seq::<usize>::empty()) ==> r is Ok,
{
    let ghost honest = restoring(chain@, vo, records@, Seq::<usize>::empty());
    let mut k: usize = 0;
    while k < records.len()
        invariant
            k <= records@.len(),
            chain.wf(),
            honest == restoring(chain@, vo, records@, Seq::<usize>::empty()),
            forall|j: int|
                0 <= j < k ==> (find_entry(chain@.entries, (#[trigger] records@[j]).hash@) matches Some(i)
                    && chain@.entries[i].metadata == records@[j].metadata && spec_state_root(chain@.entries[i].state)
                    == spec_state_root(records@[j].state@)),
        decreases records@.len() - k,
    {
        let record = &records[k];
        proof {
            if honest {
                lemma_tree_valid(chain);
                lemma_restored_record(chain@, vo, records@, k as int);
            }
        }
        let matches_metadata = match chain.metadata(&record.hash) {
            Some(m) => same_metadata(m, &record.metadata),
            None => false,
        };
        let matches_state = match chain.state_at(&record.hash) {
            Some(st) => st.state_root() == record.state.state_root(),
            None => false,
        };
        if !matches_metadata || !matches_state {
            return Err(StorageError::InvalidData("replayed block data mismatch"));
        }
        k += 1;
    }
    Ok(())
}

/// After the canonical chain is replayed, the restore state holds with the
/// records off the path pending.
#[verifier::rlimit(30)]
proof fn lemma_path_restoring(c: ChainView, vo: ChainView, records: Seq<StoredBlock>, path: Seq<usize>, pending: Seq<usize>)
    requires
        stored_tree(records, vo),
        path_of(path, vo),
        c.chain_id == vo.chain_id,
        c.pow_target == vo.pow_target,
        c.entries.len() == path.len(),
        c.tip == path.len() - 1,
        forall|i: int| 0 <= i < path.len() ==> c.entries[i] == vo.entries[#[trigger] path[i] as int],
        forall|k: int| 0 <= k < records.len() ==> (listed(pending, k) <==> !listed(path, k)),
    ensures
        restoring(c, vo, records, pending),
{
    lemma_stored_wf(records, vo);
    let e = vo.entries;
    let pt = path_to(e, vo.tip);
    lemma_path_shape(e, vo.tip, vo.tip);
    assert(forall|i: int| 0 <= i < path.len() ==> path[i] as int == #[trigger] pt[i]);
    assert(forall|i: int| 0 <= i < path.len() ==> 0 <= #[trigger] path[i] < e.len()) by {
        assert forall|i: int| 0 <= i < path.len() implies 0 <= #[trigger] path[i] < e.len() by {
            assert(path[i] as int == pt[i]);
        }
    }
    assert(path[0] == 0) by {
        assert(path[0] as int == pt[0]);
    }
    assert(c.entries[0] == e[0]);
    assert(embedded(c.entries, e)) by {
        assert forall|i: int| 0 <= i < c.entries.len() implies exists|k: int|
            0 <= k < e.len() && #[trigger] e[k] == #[trigger] c.entries[i] by {
            assert(e[path[i] as int] == c.entries[i]);
        }
    }
    assert(c.entries[c.tip].hash == e[vo.tip].hash) by {
        assert(c.entries[c.tip] == e[path[path.len() - 1] as int]);
        assert(path[path.len() - 1] as int == pt[pt.len() - 1]);
    }
    assert forall|k: int| 0 <= k < e.len() implies (present(c, vo, k) <==> !listed(pending, k)) by {
        if present(c, vo, k) {
            let i = choose|i: int| 0 <= i < c.entries.len() && #[trigger] c.entries[i].hash == e[k].hash;
            lemma_unique_hash(e, vo.tip, path[i] as int, k);
            assert(listed(path, k));
        }
        if listed(path, k) {
            let i = choose|i: int| 0 <= i < path.len() && #[trigger] path[i] as int == k;
            assert(c.entries[i].hash == e[k].hash);
        }
    }
    reveal(restoring);
}

/// Replays the canonical chain along `path`, then every other record.
fn replay_all(chain: &mut Blockchain, records: &Vec<StoredBlock>, path: &Vec<usize>, Ghost(vo): Ghost<ChainView>) -> (r:
    Result<(), StorageError>)
    requires
        old(chain).wf(),
        forall|k: int| 0 <= k < records@.len() ==> (#[trigger] records@[k]).hash@ == spec_block_hash(records@[k].block.header),
        forall|j: int| 0 <= j < path@.len() ==> (#[trigger] path@[j]) < records@.len(),
        entries_recorded(old(chain)@, records@),
        old(chain)@.entries.len() >= 1,
    ensures
        final(chain).wf(),
        entries_recorded(final(chain)@, records@),
        final(chain)@.chain_id == old(chain)@.chain_id,
        final(chain)@.pow_target == old(chain)@.pow_target,
        final(chain)@.entries.len() >= 1,
        final(chain)@.entries[0] == old(chain)@.entries[0],
        stored_tree(records@, vo) && path_of(path@, vo) && old(chain)@.chain_id == vo.chain_id && old(chain)@.pow_target
            == vo.pow_target && old(chain)@.entries.len() == 1 && old(chain)@.tip == 0 && old(chain)@.entries[0]
            == vo.entries[path@[0] as int] ==> (r is Ok && restoring(final(chain)@, vo, records@, Seq::<usize>::empty())),
{
    let ghost honest = stored_tree(records@, vo) && path_of(path@, vo) && chain@.chain_id == vo.chain_id
        && chain@.pow_target == vo.pow_target && chain@.entries.len() == 1 && chain@.tip == 0 && chain@.entries[0]
        == vo.entries[path@[0] as int];
    replay_path(chain, records, path, Ghost(vo))?;
    let pending = off_path(records.len(), path);
    proof {
        if honest {
            lemma_path_restoring(chain@, vo, records@, path@, pending@);
        }
    }
    replay_rest(chain, records, pending, Ghost(vo))
}

/// Once nothing is pending, the restored tree is the stored one.
proof fn lemma_restored_same_tree(c: ChainView, vo: ChainView, records: Seq<StoredBlock>)
    requires
        restoring(c, vo, records, Seq::<usize>::empty()),
    ensures
        same_tree(c, vo),
{
    reveal(restoring);
    lemma_stored_wf(records, vo);
    let e = vo.entries;
    assert forall|j: int| 0 <= j < e.len() implies exists|i: int|
        0 <= i < c.entries.len() && #[trigger] c.entries[i] == #[trigger] e[j] by {
        assert(!listed(Seq::<usize>::empty(), j));
        assert(present(c, vo, j));
        let i = find_entry(c.entries, e[j].hash)->Some_0;
        assert(0 <= i < c.entries.len() && c.entries[i].hash == e[j].hash);
        let jj = choose|jj: int| 0 <= jj < e.len() && #[trigger] e[jj] == c.entries[i];
        lemma_unique_hash(e, vo.tip, jj, j);
    }
}

/// The genesis entry of a chain built from `config` is the stored tree's.
proof fn lemma_genesis_entry(config: GenesisConfig, c: ChainView, records: Seq<StoredBlock>, vo: ChainView)
    requires
        stored_tree(records, vo),
        vo.entries[0].header == config.spec_genesis_header(),
        vo.entries[0].state == config.spec_initial_state(),
        tree_wf(c.entries, c.tip),
        entries_consistent(c.entries),
        c.entries[0].header == config.spec_genesis_header(),
        c.entries[0].hash == spec_block_hash(config.spec_genesis_header()),
        c.entries[0].state == config.spec_initial_state(),
    ensures
        c.entries[0] == vo.entries[0],
        vo.entries[0].hash == spec_block_hash(config.spec_genesis_header()),
{
    lemma_stored_genesis(config, records, vo);
    let e = vo.entries;
    let c0 = c.entries[0];
    assert(c0.metadata.parent.0.0 =~= e[0].metadata.parent.0.0);
    assert(c0.metadata.cumulative_work.0 =~= e[0].metadata.cumulative_work.0);
    assert(c0.transactions =~= e[0].transactions);
    assert(height_of(c.entries, 0) == 0);
    assert(c0.metadata == e[0].metadata);
}

/// Checks stored blocks against the genesis configuration and restores the
/// chain by replaying them: the canonical chain first, then every other
/// branch once its parent is indexed. The replayed chain must reach the
/// stored canonical tip and reproduce every stored metadata and state root.
/// The blocks of a tree grown from `config`, stored with its canonical tip,
/// restore that same tree.
#[verifier::rlimit(100)]
fn validate_and_restore(
    config: GenesisConfig,
    canonical_tip: BlockHash,
    records: Vec<StoredBlock>,
    Ghost(vo): Ghost<ChainView>,
) -> (r: Result<LoadedBlockchain, StorageError>)
    requires
        forall|k: int| 0 <= k < records@.len() ==> (#[trigger] records@[k]).hash@ == spec_block_hash(records@[k].block.header),
    ensures
        (forall|k: int| 0 <= k < records@.len() ==> (#[trigger] records@[k]).hash@ != canonical_tip@) ==> r
            == Err::<LoadedBlockchain, StorageError>(StorageError::InvalidData("canonical tip missing")),
        r matches Ok(l) ==> {
            let v = l.chain()@;
            &&& l.config() == config
            &&& v.chain_id == config.spec_chain_id()
            &&& v.pow_target == config.spec_pow_target()
            &&& v.entries[0].header == config.spec_genesis_header()
            &&& v.entries[v.tip].hash == canonical_tip@
            &&& entries_recorded(v, records@)
            &&& forall|k: int|
                0 <= k < records@.len() ==> (find_entry(v.entries, (#[trigger] records@[k]).hash@) matches Some(i)
                    && v.entries[i].metadata == records@[k].metadata && spec_state_root(v.entries[i].state)
                    == spec_state_root(records@[k].state@))
        },
        built_from(config, vo) && records_of(records@, vo) && canonical_tip@ == vo.entries[vo.tip].hash ==> (r matches Ok(
            l,
        ) && same_tree(l.chain()@, vo)),
{
    let ghost honest = built_from(config, vo) && records_of(records@, vo) && canonical_tip@ == vo.entries[vo.tip].hash;
    proof {
        if honest {
            assert(stored_tree(records@, vo)) by {
                reveal(stored_tree);
            }
        }
    }
    let tip_pos = match record_position(&records, &canonical_tip) {
        Some(k) => k,
        None => {
            proof {
                if honest {
                    lemma_stored_wf(records@, vo);
                    lemma_stored_record(records@, vo, vo.tip);
                }
            }
            return Err(StorageError::InvalidData("canonical tip missing"));
        },
    };
    proof {
        if honest {
            assert(tip_pos == vo.tip) by {
                lemma_stored_wf(records@, vo);
                lemma_stored_record(records@, vo, vo.tip);
                lemma_stored_unique(records@, vo, tip_pos as int, vo.tip);
            }
        }
    }
    let genesis_pos = check_records(&config, &records, Ghost(vo))?;
    let genesis_hash = config.genesis_hash();
    let mut chain = match Blockchain::from_genesis_config(&config) {
        Ok(c) => c,
        Err(x) => {
            return Err(StorageError::Chain(x));
        },
    };
    proof {
        if honest {
            assert(chain@.entries[0] == vo.entries[0] && vo.entries[0].hash == spec_block_hash(
                config.spec_genesis_header(),
            )) by {
                lemma_tree_valid(&chain);
                lemma_genesis_entry(config, chain@, records@, vo);
            }
        }
    }
    let path = ancestry(&records, tip_pos, &genesis_hash, Ghost(vo))?;
    proof {
        assert(records@[genesis_pos as int].hash@ == chain@.entries[0].hash);
        assert forall|i: int| 0 <= i < chain@.entries.len() implies exists|k: int|
            0 <= k < records@.len() && (#[trigger] records@[k]).hash@ == #[trigger] chain@.entries[i].hash by {
            assert(i == 0);
            assert(records@[genesis_pos as int].hash@ == chain@.entries[i].hash);
        }
        if honest {
            assert(path_of(path@, vo));
            assert(path@[0] == 0) by {
                lemma_stored_wf(records@, vo);
                lemma_path_shape(vo.entries, vo.tip, vo.tip);
                assert(path@[0] as int == path_to(vo.entries, vo.tip)[0]);
            }
        }
    }
    replay_all(&mut chain, &records, &path, Ghost(vo))?;
    proof {
        if honest {
            assert(chain@.entries[chain@.tip].hash == vo.entries[vo.tip].hash) by {
                reveal(restoring);
            }
        }
    }
    if !(chain.canonical_tip_hash() == canonical_tip) {
        return Err(StorageError::InvalidData("canonical tip is inconsistent"));
    }
    check_replayed(&chain, &records, Ghost(vo))?;
    proof {
        if honest {
            assert(same_tree(chain@, vo)) by {
                lemma_restored_same_tree(chain@, vo, records@);
            }
        }
    }
    Ok(LoadedBlockchain { genesis_config: config, blockchain: chain })
}


/// Two configurations with the same parameters and allocations.
pub open spec fn same_config(a: GenesisConfig, b: GenesisConfig) -> bool {
    &&& a.spec_chain_id() == b.spec_chain_id()
    &&& a.spec_timestamp() == b.spec_timestamp()
    &&& a.spec_pow_target() == b.spec_pow_target()
    &&& a.spec_allocations() == b.spec_allocations()
}

/// `bytes` are the stored form of the tree `v` grown from `config`, whose
/// allocations ascend by address (as those of every configuration do).
#[verifier::opaque]
pub open spec fn stores(bytes: Seq<u8>, config: GenesisConfig, v: ChainView) -> bool {
    &&& built_from(config, v)
    &&& sorted_allocations(config.spec_allocations())
    &&& bytes == storage_bytes(config, v)
}

proof fn lemma_stores(bytes: Seq<u8>, c: GenesisConfig, v: ChainView)
    requires
        stores(bytes, c, v),
    ensures
        built_from(c, v),
        sorted_allocations(c.spec_allocations()),
        bytes == storage_bytes(c, v),
{
    reveal(stores);
}

proof fn lemma_records_hyp(bytes: Seq<u8>, pos: int, count: int, c: GenesisConfig, v: ChainView)
    requires
        records_hyp(bytes, pos, count, c, v),
    ensures
        stores(bytes, c, v),
        pos == 102 + 36 * c.spec_allocations().len(),
        count == v.entries.len(),
{
}

proof fn lemma_entries_bytes_concat(a: Seq<ChainEntry>, b: Seq<ChainEntry>)
    ensures
        entries_bytes(a + b) == entries_bytes(a) + entries_bytes(b),
    decreases b.len(),
{
    if b.len() == 0 {
        assert(a + b =~= a);
        assert(entries_bytes(a) + entries_bytes(b) =~= entries_bytes(a));
    } else {
        lemma_entries_bytes_concat(a, b.drop_last());
        assert((a + b).drop_last() =~= a + b.drop_last());
        assert((a + b).last() == b.last());
        assert(entries_bytes(a + b) =~= entries_bytes(a) + entries_bytes(b));
    }
}

/// Every stored block takes more than one byte.
proof fn lemma_entries_bytes_len(s: Seq<ChainEntry>)
    ensures
        entries_bytes(s).len() >= s.len(),
    decreases s.len(),
{
    if s.len() > 0 {
        lemma_entries_bytes_len(s.drop_last());
        assert(header_wire(s.last().header).len() == 158);
    }
}

/// The stored blocks around the `n`-th one.
proof fn lemma_entries_bytes_at(s: Seq<ChainEntry>, n: int)
    requires
        0 <= n < s.len(),
    ensures
        entries_bytes(s) == entries_bytes(s.subrange(0, n)) + entry_bytes(s[n]) + entries_bytes(
            s.subrange(n + 1, s.len() as int),
        ),
        entries_bytes(s.subrange(0, n + 1)) == entries_bytes(s.subrange(0, n)) + entry_bytes(s[n]),
{
    let a = s.subrange(0, n + 1);
    let b = s.subrange(n + 1, s.len() as int);
    assert(s =~= a + b);
    lemma_entries_bytes_concat(a, b);
    assert(a.drop_last() =~= s.subrange(0, n));
    assert(a.last() == s[n]);
}

/// The two parts of a concatenation.
proof fn lemma_parts(x: Seq<u8>, f: Seq<u8>)
    ensures
        (x + f).subrange(0, x.len() as int) == x,
        (x + f).subrange(x.len() as int, x.len() + f.len() as int) == f,
{
    assert((x + f).subrange(0, x.len() as int) =~= x);
    assert((x + f).subrange(x.len() as int, x.len() + f.len() as int) =~= f);
}

/// A part of a part.
proof fn lemma_sub_sub(s: Seq<u8>, i: int, j: int, k: int, l: int)
    requires
        0 <= i <= j <= s.len(),
        0 <= k <= l <= j - i,
    ensures
        s.subrange(i, j).subrange(k, l) == s.subrange(i + k, i + l),
{
    assert(s.subrange(i, j).subrange(k, l) =~= s.subrange(i + k, i + l));
}

/// When `s` begins with `x + f`, it begins with `x`, followed by `f`.
proof fn lemma_peel(s: Seq<u8>, x: Seq<u8>, f: Seq<u8>)
    requires
        x.len() + f.len() <= s.len(),
        s.subrange(0, x.len() + f.len() as int) == x + f,
    ensures
        s.subrange(0, x.len() as int) == x,
        s.subrange(x.len() as int, x.len() + f.len() as int) == f,
{
    let n = x.len() + f.len() as int;
    lemma_parts(x, f);
    lemma_sub_sub(s, 0, n, 0, x.len() as int);
    lemma_sub_sub(s, 0, n, x.len() as int, n);
}

/// Where each part of a stored node lies.
#[verifier::spinoff_prover]
#[verifier::rlimit(40)]
proof fn lemma_storage_layout(bytes: Seq<u8>, c: GenesisConfig, v: ChainView)
    requires
        stores(bytes, c, v),
        bytes.len() <= usize::MAX,
    ensures
        ({
            let a = c.spec_allocations().len() as int;
            let n = v.entries.len() as int;
            let start = 102 + 36 * a;
            &&& start <= bytes.len()
            &&& bytes.subrange(0, 8) == STORAGE_MAGIC@
            &&& bytes.subrange(8, 10) == u16_be(STORAGE_VERSION)
            &&& bytes.subrange(10, 14) == u32_be(c.spec_chain_id().0)
            &&& bytes.subrange(14, 22) == u64_be(c.spec_timestamp().0)
            &&& bytes.subrange(22, 54) == c.spec_pow_target()@
            &&& bytes.subrange(54, 62) == u64_be(a as u64)
            &&& a as u64 as int == a
            &&& bytes.subrange(62, 62 + 36 * a) == entries_encoding(allocation_entries(c.spec_allocations()))
            &&& entries_encoding(allocation_entries(c.spec_allocations())).len() == 36 * a
            &&& bytes.subrange(62 + 36 * a, 94 + 36 * a) == v.entries[v.tip].hash
            &&& bytes.subrange(94 + 36 * a, start) == u64_be(n as u64)
            &&& n >= 1
            &&& n <= bytes.len()
            &&& n as u64 as int == n
            &&& bytes.subrange(start, bytes.len() as int) == entries_bytes(v.entries)
        }),
{
    lemma_stores(bytes, c, v);
    let allocs = c.spec_allocations();
    let a = allocs.len() as int;
    let n = v.entries.len() as int;
    let ents = allocation_entries(allocs);
    lemma_tree_valid_wf(v);
    assert(ents.len() == a);
    lemma_entries_encoding_at(ents);
    lemma_entries_bytes_len(v.entries);
    let enc = entries_encoding(ents);
    let tip = v.entries[v.tip].hash;
    let eb = entries_bytes(v.entries);
    let x1 = STORAGE_MAGIC@;
    let x2 = x1 + u16_be(STORAGE_VERSION);
    let x3 = x2 + u32_be(c.spec_chain_id().0);
    let x4 = x3 + u64_be(c.spec_timestamp().0);
    let x5 = x4 + c.spec_pow_target()@;
    let x6 = x5 + u64_be(a as u64);
    let x7 = x6 + enc;
    let x8 = x7 + tip;
    let x9 = x8 + u64_be(n as u64);
    assert(bytes == x9 + eb);
    assert(x9.len() == 102 + 36 * a);
    lemma_parts(x9, eb);
    lemma_peel(bytes, x8, u64_be(n as u64));
    lemma_peel(bytes, x7, tip);
    lemma_peel(bytes, x6, enc);
    lemma_peel(bytes, x5, u64_be(a as u64));
    lemma_peel(bytes, x4, c.spec_pow_target()@);
    lemma_peel(bytes, x3, u64_be(c.spec_timestamp().0));
    lemma_peel(bytes, x2, u32_be(c.spec_chain_id().0));
    lemma_peel(bytes, x1, u16_be(STORAGE_VERSION));
}

/// Where the `i`-th allocation of a stored node lies.
proof fn lemma_allocation_at(bytes: Seq<u8>, c: GenesisConfig, v: ChainView, i: int)
    requires
        stores(bytes, c, v),
        bytes.len() <= usize::MAX,
        0 <= i < c.spec_allocations().len(),
    ensures
        bytes.subrange(62 + 36 * i, 98 + 36 * i) == account_bytes(allocation_entry(c.spec_allocations()[i])),
{
    let ents = allocation_entries(c.spec_allocations());
    let a = c.spec_allocations().len() as int;
    lemma_storage_layout(bytes, c, v);
    lemma_entries_encoding_at(ents);
    lemma_sub_sub(bytes, 62, 62 + 36 * a, 36 * i, 36 * i + 36);
    assert(ents[i] == allocation_entry(c.spec_allocations()[i]));
}

/// Where each part of a stored indexed block lies.
proof fn lemma_entry_layout(bytes: Seq<u8>, p: int, e: ChainEntry)
    requires
        0 <= p,
        p + entry_bytes(e).len() <= bytes.len(),
        bytes.subrange(p, p + entry_bytes(e).len()) == entry_bytes(e),
        e.hash.len() == 32,
        canonical_state(e.state),
    ensures
        ({
            let bl = block_bytes(e.header, e.transactions).len() as int;
            let q2 = p + 32 + bl;
            &&& entry_bytes(e).len() == 32 + bl + 72 + state_bytes(e.state).len()
            &&& bytes.subrange(p, p + 32) == e.hash
            &&& block_stored_at(bytes, p + 32, e.header, e.transactions)
            &&& bytes.subrange(q2, q2 + 32) == e.metadata.parent@
            &&& bytes.subrange(q2 + 32, q2 + 40) == u64_be(e.metadata.height.0)
            &&& bytes.subrange(q2 + 40, q2 + 72) == e.metadata.cumulative_work@
            &&& state_stored_at(bytes, q2 + 72, e.state)
        }),
{
    let blk = block_bytes(e.header, e.transactions);
    let bl = blk.len() as int;
    let sb = state_bytes(e.state);
    let eb = entry_bytes(e);
    assert(eb =~= e.hash + blk + e.metadata.parent@ + u64_be(e.metadata.height.0) + e.metadata.cumulative_work@ + sb);
    let q2 = p + 32 + bl;
    assert(eb.subrange(0, 32) =~= e.hash);
    assert(eb.subrange(32, 32 + bl) =~= blk);
    assert(eb.subrange(32 + bl, 64 + bl) =~= e.metadata.parent@);
    assert(eb.subrange(64 + bl, 72 + bl) =~= u64_be(e.metadata.height.0));
    assert(eb.subrange(72 + bl, 104 + bl) =~= e.metadata.cumulative_work@);
    assert(eb.subrange(104 + bl, 104 + bl + sb.len()) =~= sb);
    assert(bytes.subrange(p, p + 32) =~= eb.subrange(0, 32));
    assert(bytes.subrange(p + 32, p + 32 + bl) =~= eb.subrange(32, 32 + bl));
    assert(bytes.subrange(q2, q2 + 32) =~= eb.subrange(32 + bl, 64 + bl));
    assert(bytes.subrange(q2 + 32, q2 + 40) =~= eb.subrange(64 + bl, 72 + bl));
    assert(bytes.subrange(q2 + 40, q2 + 72) =~= eb.subrange(72 + bl, 104 + bl));
    assert(bytes.subrange(q2 + 72, q2 + 72 + sb.len()) =~= eb.subrange(104 + bl, 104 + bl + sb.len()));
}

/// For the stored form of a tree, read from `pos` on with `count` blocks.
spec fn records_hyp(bytes: Seq<u8>, pos: int, count: int, c: GenesisConfig, v: ChainView) -> bool {
    &&& stores(bytes, c, v)
    &&& pos == 102 + 36 * c.spec_allocations().len()
    &&& count == v.entries.len()
}

/// Where the `n`-th stored block of a tree lies, and what reading it checks.
proof fn lemma_record_at(bytes: Seq<u8>, pos: int, count: int, c: GenesisConfig, v: ChainView, n: int, p: int)
    requires
        records_hyp(bytes, pos, count, c, v),
        bytes.len() <= usize::MAX,
        0 <= n < count,
        p == pos + entries_bytes(v.entries.subrange(0, n)).len(),
    ensures
        ({
            let e = v.entries[n];
            let bl = block_bytes(e.header, e.transactions).len() as int;
            let q2 = p + 32 + bl;
            &&& p + entry_bytes(e).len() == pos + entries_bytes(v.entries.subrange(0, n + 1)).len()
            &&& p + entry_bytes(e).len() <= bytes.len()
            &&& n + 1 == count ==> p + entry_bytes(e).len() == bytes.len()
            &&& entry_bytes(e).len() == 32 + bl + 72 + state_bytes(e.state).len()
            &&& bytes.subrange(p, p + 32) == e.hash
            &&& block_stored_at(bytes, p + 32, e.header, e.transactions)
            &&& bytes.subrange(q2, q2 + 32) == e.metadata.parent@
            &&& bytes.subrange(q2 + 32, q2 + 40) == u64_be(e.metadata.height.0)
            &&& bytes.subrange(q2 + 40, q2 + 72) == e.metadata.cumulative_work@
            &&& state_stored_at(bytes, q2 + 72, e.state)
            &&& e.hash == spec_block_hash(e.header)
            &&& e.header.state_root@ == spec_state_root(e.state)
            &&& forall|k: int| 0 <= k < n ==> (#[trigger] v.entries[k]).hash != e.hash
        }),
{
    lemma_records_hyp(bytes, pos, count, c, v);
    lemma_stores(bytes, c, v);
    lemma_storage_layout(bytes, c, v);
    lemma_tree_valid_wf(v);
    let s = v.entries;
    let e = s[n];
    lemma_entries_bytes_at(s, n);
    let pre = entries_bytes(s.subrange(0, n));
    let eb = entry_bytes(e);
    let post = entries_bytes(s.subrange(n + 1, s.len() as int));
    let tail = bytes.subrange(pos, bytes.len() as int);
    assert(tail == pre + eb + post);
    assert(bytes.subrange(p, p + eb.len()) =~= tail.subrange(pre.len() as int, pre.len() + eb.len() as int));
    assert(tail.subrange(pre.len() as int, pre.len() + eb.len() as int) =~= eb);
    if n + 1 == count {
        assert(s.subrange(n + 1, s.len() as int) =~= Seq::<ChainEntry>::empty());
        assert(post.len() == 0);
    }
    lemma_entry_layout(bytes, p, e);
    assert forall|k: int| 0 <= k < n implies (#[trigger] s[k]).hash != e.hash by {
        if s[k].hash == e.hash {
            lemma_unique_hash(s, v.tip, k, n);
        }
    }
}

/// A record read where the `n`-th stored block of a tree lies is that block.
proof fn lemma_record_read(
    bytes: Seq<u8>,
    pos: int,
    count: int,
    c: GenesisConfig,
    v: ChainView,
    n: int,
    p: int,
    end: int,
    rec: StoredBlock,
)
    requires
        records_hyp(bytes, pos, count, c, v),
        bytes.len() <= usize::MAX,
        0 <= n < count,
        p == pos + entries_bytes(v.entries.subrange(0, n)).len(),
        rec.hash@ == bytes.subrange(p, p + 32),
        forall|h: BlockHeader, txs: Seq<SignedTransaction>|
            #[trigger] block_stored_at(bytes, p + 32, h, txs) ==> rec.block.header == h && rec.block.transactions@ == txs,
        ({
            let q2 = p + 32 + block_bytes(rec.block.header, rec.block.transactions@).len();
            &&& rec.metadata.parent@ == bytes.subrange(q2, q2 + 32)
            &&& u64_be(rec.metadata.height.0) == bytes.subrange(q2 + 32, q2 + 40)
            &&& rec.metadata.cumulative_work@ == bytes.subrange(q2 + 40, q2 + 72)
            &&& forall|m: Map<Seq<u8>, Account>|
                #[trigger] state_stored_at(bytes, q2 + 72, m) ==> rec.state@ == m && end == q2 + 72 + state_bytes(m).len()
        }),
    ensures
        record_is(rec, v.entries[n]),
        end == pos + entries_bytes(v.entries.subrange(0, n + 1)).len(),
{
    lemma_record_at(bytes, pos, count, c, v, n, p);
    let e = v.entries[n];
    assert(block_stored_at(bytes, p + 32, e.header, e.transactions));
    crate::bytes::lemma_be_injective();
    assert(u64_be(rec.metadata.height.0) == u64_be(e.metadata.height.0));
    assert(rec.metadata.parent.0.0 =~= e.metadata.parent.0.0);
    assert(rec.metadata.cumulative_work.0 =~= e.metadata.cumulative_work.0);
    assert(rec.metadata == e.metadata);
}

/// The hashes of the records, in order.
spec fn hashes_of(records: Seq<StoredBlock>) -> Seq<Seq<u8>> {
    records.map_values(|r: StoredBlock| r.hash@)
}

/// Reading `n` records from `p` goes on after one that is read in full.
proof fn lemma_records_step(
    bytes: Seq<u8>,
    p: int,
    n: nat,
    seen: Seq<Seq<u8>>,
    h: BlockHeader,
    q: int,
    m: Map<Seq<u8>, Account>,
    end: int,
)
    requires
        n > 0,
        p + 32 <= bytes.len(),
        stored_block(bytes, p + 32) == Ok::<(BlockHeader, int), StorageError>((h, q)),
        spec_block_hash(h) == bytes.subrange(p, p + 32),
        q + 72 <= bytes.len(),
        stored_state(bytes, q + 72) == Ok::<(Map<Seq<u8>, Account>, int), StorageError>((m, end)),
        spec_state_root(m) == h.state_root@,
        !seen.contains(bytes.subrange(p, p + 32)),
    ensures
        stored_records(bytes, p, n, seen) == stored_records(bytes, end, (n - 1) as nat, seen.push(
            bytes.subrange(p, p + 32),
        )),
{
}

/// Reads the stored records from `pos` on. The stored blocks of a tree read
/// back as the tree's blocks, up to the last byte.
#[verifier::rlimit(100)]
fn read_records(bytes: &[u8], pos: usize, count: usize) -> (r: Result<(Vec<StoredBlock>, usize), StorageError>)
    requires
        pos <= bytes@.len(),
    ensures
        stored_records(bytes@, pos as int, count as nat, Seq::empty()) matches Err(e) ==> r == Err::<
            (Vec<StoredBlock>, usize),
            StorageError,
        >(e),
        stored_records(bytes@, pos as int, count as nat, Seq::empty()) matches Ok(end) ==> (r matches Ok((_, e2))
            && e2 == end),
        r matches Ok((records, end)) ==> end <= bytes@.len() && forall|k: int|
            0 <= k < records@.len() ==> (#[trigger] records@[k]).hash@ == spec_block_hash(records@[k].block.header),
        forall|c: GenesisConfig, v: ChainView|
            #[trigger] stores(bytes@, c, v) && pos == 102 + 36 * c.spec_allocations().len() && count == v.entries.len()
                ==> (r matches Ok((records, end)) && records_of(records@, v) && end == bytes@.len()),
{
    let _ = bytes.len();
    let ghost some = exists|c: GenesisConfig, v: ChainView| #[trigger] stores(bytes@, c, v) && pos == 102 + 36 * c.spec_allocations().len() && count == v.entries.len();
    let ghost w = choose|w: (GenesisConfig, ChainView)| records_hyp(bytes@, pos as int, count as int, w.0, w.1);
    proof {
        if some {
            let (c, v) = choose|c: GenesisConfig, v: ChainView| #[trigger] stores(bytes@, c, v) && pos == 102 + 36
                * c.spec_allocations().len() && count == v.entries.len();
            assert(records_hyp(bytes@, pos as int, count as int, (c, v).0, (c, v).1));
            assert(w.1.entries.subrange(0, 0) =~= Seq::<ChainEntry>::empty());
        }
        assert forall|c: GenesisConfig, v: ChainView| #[trigger] records_hyp(bytes@, pos as int, count as int, c, v) implies pos
            == pos + entries_bytes(v.entries.subrange(0, 0)).len() by {
            assert(v.entries.subrange(0, 0) =~= Seq::<ChainEntry>::empty());
        }
    }
    let mut records: Vec<StoredBlock> = Vec::new();
    let mut p = pos;
    let mut n: usize = 0;
    assert(hashes_of(records@) =~= Seq::<Seq<u8>>::empty());
    while n < count
        invariant
            n <= count,
            records@.len() == n,
            stored_records(bytes@, pos as int, count as nat, Seq::empty()) == stored_records(
                bytes@,
                p as int,
                (count - n) as nat,
                hashes_of(records@),
            ),
            bytes@.len() <= usize::MAX,
            p <= bytes@.len(),
            forall|k: int| 0 <= k < records@.len() ==> (#[trigger] records@[k]).hash@ == spec_block_hash(records@[k].block.header),
            some == exists|c: GenesisConfig, v: ChainView| #[trigger] stores(bytes@, c, v) && pos == 102 + 36 * c.spec_allocations().len() && count == v.entries.len(),
            some ==> records_hyp(bytes@, pos as int, count as int, w.0, w.1),
            forall|c: GenesisConfig, v: ChainView|
                #[trigger] records_hyp(bytes@, pos as int, count as int, c, v) ==> {
                    &&& p == pos + entries_bytes(v.entries.subrange(0, n as int)).len()
                    &&& forall|k: int| 0 <= k < n ==> record_is(#[trigger] records@[k], v.entries[k])
                },
        decreases count - n,
    {
        proof {
            if some {
                lemma_record_at(bytes@, pos as int, count as int, w.0, w.1, n as int, p as int);
            }
        }
        let (stored, q1) = read_array_at::<32>(bytes, p)?;
        let stored_hash = BlockHash::from_hash(Hash256::from_bytes(stored));
        let (block, q2) = read_block_at(bytes, q1)?;
        if !(block_hash(&block.header) == stored_hash) {
            return Err(StorageError::InvalidData("block hash mismatch"));
        }
        let (parent, q3) = read_array_at::<32>(bytes, q2)?;
        let (height, q4) = read_u64_at(bytes, q3)?;
        let (work, q5) = read_array_at::<32>(bytes, q4)?;
        let (state, q6) = read_state_at(bytes, q5)?;
        if !(state.state_root() == block.header.state_root) {
            return Err(StorageError::InvalidData("stored state root mismatch"));
        }
        proof {
            if some {
                let v = w.1;
                assert forall|k: int| 0 <= k < records@.len() implies (#[trigger] records@[k]).hash@ != stored_hash@ by {
                    assert(record_is(records@[k], v.entries[k]));
                    assert(v.entries[k].hash != v.entries[n as int].hash);
                }
            }
        }
        let position = record_position(&records, &stored_hash);
        proof {
            if position is Some {
                let k = position->Some_0 as int;
                assert(hashes_of(records@)[k] == stored_hash@);
            } else {
                assert forall|k: int| 0 <= k < hashes_of(records@).len() implies hashes_of(records@)[k] != stored_hash@ by {
                    assert(records@[k].hash@ != stored_hash@);
                }
            }
        }
        if position.is_some() {
            return Err(StorageError::InvalidData("duplicate block"));
        }
        proof {
            lemma_records_step(
                bytes@,
                p as int,
                (count - n) as nat,
                hashes_of(records@),
                block.header,
                q2 as int,
                state@,
                q6 as int,
            );
        }
        let metadata = BlockMetadata::new(
            BlockHash::from_hash(Hash256::from_bytes(parent)),
            BlockHeight(height),
            ChainWork::from_bytes(work),
        );
        let ghost before = records@;
        records.push(StoredBlock { hash: stored_hash, block, metadata, state });
        assert(hashes_of(records@) =~= hashes_of(before).push(stored_hash@));
        proof {
            assert forall|c: GenesisConfig, v: ChainView| #[trigger] records_hyp(bytes@, pos as int, count as int, c, v) implies {
                &&& q6 == pos + entries_bytes(v.entries.subrange(0, n + 1)).len()
                &&& forall|k: int| 0 <= k < n + 1 ==> record_is(#[trigger] records@[k], v.entries[k])
            } by {
                lemma_record_read(bytes@, pos as int, count as int, c, v, n as int, p as int, q6 as int, records@[n as int]);
                assert forall|k: int| 0 <= k < n + 1 implies record_is(#[trigger] records@[k], v.entries[k]) by {
                    if k < n {
                        assert(records@[k] == before[k]);
                    }
                }
            }
        }
        p = q6;
        n += 1;
    }
    proof {
        assert forall|c: GenesisConfig, v: ChainView|
            #[trigger] stores(bytes@, c, v) && pos == 102 + 36 * c.spec_allocations().len() && count == v.entries.len()
            implies (records_of(records@, v) && p == bytes@.len()) by {
            assert(records_hyp(bytes@, pos as int, count as int, c, v));
            lemma_storage_layout(bytes@, c, v);
            assert(v.entries.subrange(0, n as int) =~= v.entries);
            assert(bytes@.subrange(pos as int, bytes@.len() as int).len() == entries_bytes(v.entries).len());
        }
    }
    Ok((records, p))
}

/// The stored genesis allocations share an address exactly when the
/// allocations read from them do.
proof fn lemma_stored_duplicates(bytes: Seq<u8>, allocs: Seq<GenesisAllocation>)
    requires
        allocs.len() == allocation_count(bytes),
        forall|k: int| 0 <= k < allocs.len() ==> (#[trigger] allocs[k]).address@ == allocation_address(bytes, k),
    ensures
        forall|k: Seq<u8>| #[trigger] crate::genesis::duplicated(allocs, k) <==> stored_duplicate(bytes, k),
        crate::genesis::has_duplicate(allocs) <==> exists|k: Seq<u8>| #[trigger] stored_duplicate(bytes, k),
{
    assert forall|k: Seq<u8>| #[trigger] crate::genesis::duplicated(allocs, k) <==> stored_duplicate(bytes, k) by {
        if crate::genesis::duplicated(allocs, k) {
            let (i, j) = choose|i: int, j: int|
                0 <= i < j < allocs.len() && #[trigger] allocs[i].address@ == k && #[trigger] allocs[j].address@ == k;
            assert(allocation_address(bytes, i) == k && allocation_address(bytes, j) == k);
        }
        if stored_duplicate(bytes, k) {
            let (i, j) = choose|i: int, j: int|
                0 <= i < j < allocation_count(bytes) && #[trigger] allocation_address(bytes, i) == k
                    && #[trigger] allocation_address(bytes, j) == k;
            assert(allocs[i].address@ == k && allocs[j].address@ == k);
        }
    }
    if crate::genesis::has_duplicate(allocs) {
        let (i, j) = choose|i: int, j: int| 0 <= i < j < allocs.len() && #[trigger] allocs[i].address@ == #[trigger] allocs[j].address@;
        assert(crate::genesis::duplicated(allocs, allocs[i].address@));
    }
    if exists|k: Seq<u8>| #[trigger] stored_duplicate(bytes, k) {
        let k = choose|k: Seq<u8>| #[trigger] stored_duplicate(bytes, k);
        assert(crate::genesis::duplicated(allocs, k));
        let (i, j) = choose|i: int, j: int|
            0 <= i < j < allocs.len() && #[trigger] allocs[i].address@ == k && #[trigger] allocs[j].address@ == k;
        assert(allocs[i].address@ == allocs[j].address@);
    }
}

/// The smallest address that the allocations read share is the smallest
/// one that the stored allocations share.
proof fn lemma_smallest_stored_duplicate(bytes: Seq<u8>, allocs: Seq<GenesisAllocation>, a: Address)
    requires
        allocs.len() == allocation_count(bytes),
        forall|k: int| 0 <= k < allocs.len() ==> (#[trigger] allocs[k]).address@ == allocation_address(bytes, k),
        crate::genesis::duplicated(allocs, a@),
        forall|k: Seq<u8>| #[trigger] crate::genesis::duplicated(allocs, k) ==> be_value(a@) <= be_value(k),
    ensures
        smallest_stored_duplicate(bytes) == a,
{
    lemma_stored_duplicates(bytes, allocs);
    assert(stored_duplicate(bytes, a@));
    assert forall|k: Seq<u8>| #[trigger] stored_duplicate(bytes, k) implies be_value(a@) <= be_value(k) by {
        assert(crate::genesis::duplicated(allocs, k));
    }
    assert(stored_duplicate(bytes, a@) && forall|k: Seq<u8>|
        #[trigger] stored_duplicate(bytes, k) ==> be_value(a@) <= be_value(k));
    let b = smallest_stored_duplicate(bytes);
    assert(stored_duplicate(bytes, b@) && be_value(b@) <= be_value(a@));
    assert(be_value(a@) <= be_value(b@));
    crate::bytes::lemma_be_value_injective(a@, b@);
    assert(a.0 =~= b.0);
}

/// Reads the configuration, the canonical tip and the block count that
/// follow the format and version. The stored form of a tree reads back as
/// its configuration, tip and number of blocks.
fn read_prefix(bytes: &[u8]) -> (r: Result<(GenesisConfig, BlockHash, usize, usize), StorageError>)
    ensures
        r matches Ok((_, _, _, end)) ==> end <= bytes@.len(),
        stored_prefix(bytes@) matches Err(e) ==> r == Err::<(GenesisConfig, BlockHash, usize, usize), StorageError>(e),
        stored_prefix(bytes@) matches Ok(n) ==> (r matches Ok((_, _, count, end)) && count == n && end == 102 + 36
            * allocation_count(bytes@)),
        forall|c: GenesisConfig, v: ChainView|
            #[trigger] stores(bytes@, c, v) ==> (r matches Ok((cfg, tip, n, end)) && same_config(cfg, c) && tip@
                == v.entries[v.tip].hash && n == v.entries.len() && end == 102 + 36 * c.spec_allocations().len()),
{
    let _ = bytes.len();
    let ghost some = exists|c: GenesisConfig, v: ChainView| stores(bytes@, c, v);
    let ghost w = choose|w: (GenesisConfig, ChainView)| stores(bytes@, w.0, w.1);
    proof {
        if some {
            let (c, v) = choose|c: GenesisConfig, v: ChainView| stores(bytes@, c, v);
            assert(stores(bytes@, (c, v).0, (c, v).1));
            lemma_storage_layout(bytes@, w.0, w.1);
        }
    }
    let (chain_id, p2) = read_u32_at(bytes, 10)?;
    let (timestamp, p3) = read_u64_at(bytes, p2)?;
    let (target, p4) = read_array_at::<32>(bytes, p3)?;
    let (stored_count, p5) = read_u64_at(bytes, p4)?;
    proof {
        assert forall|c: GenesisConfig, v: ChainView| #[trigger] stores(bytes@, c, v) implies stored_count
            == c.spec_allocations().len() && 102 + 36 * c.spec_allocations().len() <= bytes@.len() by {
            lemma_storage_layout(bytes@, c, v);
            crate::bytes::lemma_be_injective();
        }
    }
    let room = (bytes.len() - p5) / 36;
    proof {
        if stored_count > room as u64 {
            assert(62 + 36 * stored_count > bytes@.len()) by (nonlinear_arith)
                requires
                    stored_count > room,
                    room == (bytes@.len() - 62) / 36,
                    bytes@.len() >= 62,
            ;
        } else {
            assert(62 + 36 * stored_count <= bytes@.len()) by (nonlinear_arith)
                requires
                    stored_count <= room,
                    room == (bytes@.len() - 62) / 36,
                    bytes@.len() >= 62,
            ;
        }
    }
    if stored_count > room as u64 {
        return Err(StorageError::InvalidData("truncated data"));
    }
    let n_allocations = stored_count as usize;
    let mut allocations: Vec<GenesisAllocation> = Vec::new();
    let mut p = p5;
    let mut i: usize = 0;
    while i < n_allocations
        invariant
            p <= bytes@.len(),
            bytes@.len() <= usize::MAX,
            i <= n_allocations,
            allocations@.len() == i,
            n_allocations == allocation_count(bytes@),
            62 + 36 * n_allocations <= bytes@.len(),
            p == 62 + 36 * i,
            forall|k: int| 0 <= k < i ==> (#[trigger] allocations@[k]).address@ == allocation_address(bytes@, k),
            some == exists|c: GenesisConfig, v: ChainView| stores(bytes@, c, v),
            some ==> stores(bytes@, w.0, w.1),
            forall|c: GenesisConfig, v: ChainView|
                #[trigger] stores(bytes@, c, v) ==> {
                    &&& n_allocations == c.spec_allocations().len()
                    &&& 102 + 36 * c.spec_allocations().len() <= bytes@.len()
                    &&& p == 62 + 36 * i
                    &&& allocations@ == c.spec_allocations().subrange(0, i as int)
                },
        decreases n_allocations - i,
    {
        let ((address, account), next) = read_account_at(bytes, p)?;
        let ghost before = allocations@;
        allocations.push(GenesisAllocation::new(address, account.balance, account.nonce));
        proof {
            let ab = account_bytes(AccountEntry { address, account });
            assert(ab.subrange(0, 20) =~= address@);
            assert(bytes@.subrange(p as int, p + 36).subrange(0, 20) =~= allocation_address(bytes@, i as int));
            assert forall|k: int| 0 <= k < i + 1 implies (#[trigger] allocations@[k]).address@ == allocation_address(
                bytes@,
                k,
            ) by {
                if k < i {
                    assert(allocations@[k] == before[k]);
                }
            }
            assert forall|c: GenesisConfig, v: ChainView| #[trigger] stores(bytes@, c, v) implies {
                &&& next == 62 + 36 * (i + 1)
                &&& allocations@ == c.spec_allocations().subrange(0, i + 1)
            } by {
                lemma_allocation_at(bytes@, c, v, i as int);
                lemma_account_bytes_injective(
                    AccountEntry { address, account },
                    allocation_entry(c.spec_allocations()[i as int]),
                );
                assert(allocations@ =~= c.spec_allocations().subrange(0, i + 1));
            }
        }
        p = next;
        i += 1;
    }
    let ghost allocs = allocations@;
    proof {
        if some {
            lemma_stores(bytes@, w.0, w.1);
            assert(allocs =~= w.0.spec_allocations());
            assert(!crate::genesis::has_duplicate(allocs)) by {
                if crate::genesis::has_duplicate(allocs) {
                    let (x, y) = choose|x: int, y: int|
                        0 <= x < y < allocs.len() && #[trigger] allocs[x].address@ == #[trigger] allocs[y].address@;
                    assert(be_value(allocs[x].address@) < be_value(allocs[y].address@));
                }
            }
        }
    }
    proof {
        lemma_stored_duplicates(bytes@, allocs);
    }
    let config = match GenesisConfig::new(ChainId(chain_id), BlockTimestamp(timestamp), PowTarget::from_bytes(target), allocations) {
        Ok(c) => c,
        Err(e) => {
            proof {
                let GenesisConfigError::DuplicateAllocation(a) = e;
                lemma_smallest_stored_duplicate(bytes@, allocs, a);
            }
            return Err(StorageError::Genesis(e));
        },
    };
    let (tip, p6) = read_array_at::<32>(bytes, p)?;
    let canonical_tip = BlockHash::from_hash(Hash256::from_bytes(tip));
    let (block_count, p7) = read_count_at(bytes, p6)?;
    proof {
        assert forall|c: GenesisConfig, v: ChainView| #[trigger] stores(bytes@, c, v) implies (same_config(config, c)
            && canonical_tip@ == v.entries[v.tip].hash && block_count == v.entries.len() && p7 == 102 + 36
            * c.spec_allocations().len()) by {
            lemma_storage_layout(bytes@, c, v);
            lemma_stores(bytes@, c, v);
            assert(allocs =~= c.spec_allocations());
            crate::genesis::lemma_sorted_allocations_unique(config.spec_allocations(), c.spec_allocations());
            crate::bytes::lemma_be_injective();
            assert(config.spec_pow_target().0 =~= c.spec_pow_target().0);
        }
    }
    Ok((config, canonical_tip, block_count, p7))
}

/// Reads everything after the format and version: the configuration, the
/// canonical tip and the stored blocks, up to the last byte. The stored form
/// of a tree reads back as its configuration, tip and blocks.
fn read_node(bytes: &[u8]) -> (r: Result<(GenesisConfig, BlockHash, Vec<StoredBlock>), StorageError>)
    ensures
        stored_contents(bytes@) matches Err(e) ==> r == Err::<(GenesisConfig, BlockHash, Vec<StoredBlock>), StorageError>(
            e,
        ),
        r is Ok <==> stored_contents(bytes@) is Ok,
        r matches Ok((_, _, records)) ==> forall|k: int|
            0 <= k < records@.len() ==> (#[trigger] records@[k]).hash@ == spec_block_hash(records@[k].block.header),
        forall|c: GenesisConfig, v: ChainView|
            #[trigger] stores(bytes@, c, v) ==> (r matches Ok((cfg, tip, records)) && same_config(cfg, c) && tip@
                == v.entries[v.tip].hash && records_of(records@, v)),
{
    let (config, canonical_tip, block_count, p7) = read_prefix(bytes)?;
    proof {
        assert forall|c: GenesisConfig, v: ChainView| #[trigger] stores(bytes@, c, v) implies block_count > 0 by {
            lemma_stores(bytes@, c, v);
            lemma_tree_valid_wf(v);
        }
    }
    if block_count == 0 {
        return Err(StorageError::InvalidData("no blocks"));
    }
    let (records, p) = read_records(bytes, p7, block_count)?;
    if p != bytes.len() {
        return Err(StorageError::InvalidData("trailing bytes"));
    }
    Ok((config, canonical_tip, records))
}

/// Stored forms of trees that read back as the same records hold the same
/// blocks, and a restored tree that is one of them is the other.
proof fn lemma_same_records(records: Seq<StoredBlock>, v1: ChainView, v2: ChainView, r: ChainView)
    requires
        records_of(records, v1),
        records_of(records, v2),
        v1.chain_id == v2.chain_id,
        v1.pow_target == v2.pow_target,
        v1.entries[v1.tip].hash == v2.entries[v2.tip].hash,
        same_tree(r, v1),
    ensures
        same_tree(r, v2),
{
    assert forall|k: int| 0 <= k < v2.entries.len() implies v1.entries[k] == v2.entries[k] by {
        assert(record_is(records[k], v1.entries[k]));
        assert(record_is(records[k], v2.entries[k]));
    }
    assert(v1.entries =~= v2.entries);
}

/// Reads a stored node: the format and version, the genesis configuration,
/// every stored block (its hash must match its header and its state its
/// state root, no block stored twice, nothing after the last), then
/// restores the chain by replay (`validate_and_restore`). Bytes that are not
/// a stored node are refused as `stored_node` says, with the refusal of the
/// first check that fails. The stored form of a tree grown from a
/// configuration reads back as that configuration and that same tree.
pub fn decode_and_validate(bytes: &[u8]) -> (r: Result<LoadedBlockchain, StorageError>)
    ensures
        stored_node(bytes@) matches Err(e) ==> r == Err::<LoadedBlockchain, StorageError>(e),
        r is Ok ==> stored_node(bytes@) is Ok,
        bytes@.len() < 8 ==> r == Err::<LoadedBlockchain, StorageError>(StorageError::InvalidData("truncated data")),
        bytes@.len() >= 8 && bytes@.subrange(0, 8) != STORAGE_MAGIC@ ==> r == Err::<LoadedBlockchain, StorageError>(
            StorageError::InvalidData("wrong magic"),
        ),
        bytes@.len() >= 10 && bytes@.subrange(0, 8) == STORAGE_MAGIC@ && bytes@.subrange(8, 10) != u16_be(
            STORAGE_VERSION,
        ) ==> r == Err::<LoadedBlockchain, StorageError>(StorageError::InvalidData("unsupported version")),
        r matches Ok(l) ==> {
            let v = l.chain()@;
            &&& bytes@.subrange(0, 8) == STORAGE_MAGIC@
            &&& bytes@.subrange(8, 10) == u16_be(STORAGE_VERSION)
            &&& v.chain_id == l.config().spec_chain_id()
            &&& v.pow_target == l.config().spec_pow_target()
            &&& v.entries[0].header == l.config().spec_genesis_header()
        },
        forall|c: GenesisConfig, v: ChainView|
            #[trigger] stores(bytes@, c, v) ==> (r matches Ok(l) && same_config(l.config(), c) && same_tree(
                l.chain()@,
                v,
            )),
{
    let _ = bytes.len();
    let ghost some = exists|c: GenesisConfig, v: ChainView| stores(bytes@, c, v);
    let ghost w = choose|w: (GenesisConfig, ChainView)| stores(bytes@, w.0, w.1);
    proof {
        if some {
            let (c, v) = choose|c: GenesisConfig, v: ChainView| stores(bytes@, c, v);
            assert(stores(bytes@, (c, v).0, (c, v).1));
            assert(bytes@.len() >= 102 && bytes@.subrange(0, 8) == STORAGE_MAGIC@ && bytes@.subrange(8, 10) == u16_be(
                STORAGE_VERSION,
            )) by {
                lemma_storage_layout(bytes@, w.0, w.1);
            }
        }
    }
    let (magic, p0) = read_array_at::<8>(bytes, 0)?;
    if !bytes_eq(&magic, &STORAGE_MAGIC) {
        return Err(StorageError::InvalidData("wrong magic"));
    }
    let (version, p1) = match read_u16_at(bytes, p0) {
        Ok(x) => x,
        Err(_) => {
            return Err(StorageError::InvalidData("truncated data"));
        },
    };
    if version != STORAGE_VERSION {
        proof {
            crate::bytes::lemma_be_injective();
        }
        return Err(StorageError::InvalidData("unsupported version"));
    }
    let (config, canonical_tip, records) = read_node(bytes)?;
    proof {
        if some {
            lemma_stores(bytes@, w.0, w.1);
            assert(built_from(config, w.1));
        }
    }
    let ghost records_view = records@;
    let r = validate_and_restore(config, canonical_tip, records, Ghost(w.1));
    proof {
        assert forall|c: GenesisConfig, v: ChainView| #[trigger] stores(bytes@, c, v) implies (r matches Ok(l)
            && same_config(l.config(), c) && same_tree(l.chain()@, v)) by {
            lemma_stores(bytes@, c, v);
            lemma_stores(bytes@, w.0, w.1);
            let l = r->Ok_0;
            lemma_same_records(records_view, w.1, v, l.chain()@);
        }
    }
    r
}


/// The stored form of a node, after checking that the configuration is the
/// one the chain was built from: same chain, same target, its genesis indexed.
pub fn checked_encode(config: &GenesisConfig, chain: &Blockchain) -> (r: Result<Vec<u8>, StorageError>)
    requires
        chain.wf(),
    ensures
        (chain@.chain_id != config.spec_chain_id() || chain@.pow_target@ != config.spec_pow_target()@ || find_entry(
            chain@.entries,
            spec_block_hash(config.spec_genesis_header()),
        ) is None) ==> r == Err::<Vec<u8>, StorageError>(
            StorageError::InvalidData("genesis config does not match chain"),
        ),
        !(chain@.chain_id != config.spec_chain_id() || chain@.pow_target@ != config.spec_pow_target()@ || find_entry(
            chain@.entries,
            spec_block_hash(config.spec_genesis_header()),
        ) is None) ==> (r matches Ok(bytes) && bytes@ == storage_bytes(*config, chain@)),
{
    if chain.chain_id().0 != config.chain_id().0 || !(chain.pow_target() == config.pow_target())
        || chain.block(&config.genesis_hash()).is_none() {
        return Err(StorageError::InvalidData("genesis config does not match chain"));
    }
    Ok(encode(config, chain))
}

} // verus!
