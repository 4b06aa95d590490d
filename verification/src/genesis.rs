//! Genesis configuration: the initial allocations and the genesis block they commit to.
use vstd::prelude::*;
use crate::block::{Block, BlockHeader};
use crate::bytes::{be_value, compare_be, Comparison};
use crate::hash::{block_hash, merkle_root, spec_block_hash, spec_merkle_root};
use crate::state::{
    entries_map, lemma_entries_map_push, sorted_entries, spec_state_root, Account,
    AccountEntry, State,
};
use crate::transaction::SignedTransaction;
use crate::types::{
    Address, Amount, BlockHash, BlockHeight, BlockTimestamp, BlockVersion, ChainId, Nonce,
    PowNonce, PowTarget, StateRoot,
};

verus! {

/// An account that exists from genesis on.
#[derive(Debug, Clone, Copy, PartialEq, Eq)]
pub struct GenesisAllocation {
    pub address: Address,
    pub balance: Amount,
    pub nonce: Nonce,
}

impl GenesisAllocation {
    pub fn new(address: Address, balance: Amount, nonce: Nonce) -> (a: Self)
        ensures
            a == (GenesisAllocation { address, balance, nonce }),
    {
        GenesisAllocation { address, balance, nonce }
    }

    pub fn address(&self) -> (r: Address)
        ensures
            r == self.address,
    {
        self.address
    }

    pub fn balance(&self) -> (r: Amount)
        ensures
            r == self.balance,
    {
        self.balance
    }

    pub fn nonce(&self) -> (r: Nonce)
        ensures
            r == self.nonce,
    {
        self.nonce
    }
}

/// Why a genesis configuration is rejected.
#[derive(Debug, Clone, Copy, PartialEq, Eq)]
pub enum GenesisConfigError {
    DuplicateAllocation(Address),
}

/// An allocation as a state entry.
pub open spec fn allocation_entry(a: GenesisAllocation) -> AccountEntry {
    AccountEntry { address: a.address, account: Account { balance: a.balance, nonce: a.nonce } }
}

pub open spec fn allocation_entries(s: Seq<GenesisAllocation>) -> Seq<AccountEntry> {
    s.map_values(|a: GenesisAllocation| allocation_entry(a))
}

/// Some two allocations share the address `k`.
pub open spec fn duplicated(s: Seq<GenesisAllocation>, k: Seq<u8>) -> bool {
    exists|i: int, j: int|
        0 <= i < j < s.len() && #[trigger] s[i].address@ == k && #[trigger] s[j].address@ == k
}

/// Some two allocations share an address.
pub open spec fn has_duplicate(s: Seq<GenesisAllocation>) -> bool {
    exists|i: int, j: int| 0 <= i < j < s.len() && #[trigger] s[i].address@ == #[trigger] s[j].address@
}

/// Allocations strictly ascending by address.
pub open spec fn sorted_allocations(s: Seq<GenesisAllocation>) -> bool {
    forall|i: int, j: int|
        0 <= i < j < s.len() ==> be_value(#[trigger] s[i].address@) < be_value(#[trigger] s[j].address@)
}

/// A genesis header: version 1, height zero, a zero parent, the root of no
/// transactions, the given state root, target and timestamp, nonce zero.
pub open spec fn is_genesis_header_of(
    h: BlockHeader,
    chain_id: ChainId,
    timestamp: BlockTimestamp,
    pow_target: Seq<u8>,
    state_root: Seq<u8>,
) -> bool {
    &&& h.version.0 == 1
    &&& h.chain_id == chain_id
    &&& h.height.0 == 0
    &&& h.previous_block_hash@ == Seq::new(32, |i: int| 0u8)
    &&& h.transaction_root@ == spec_merkle_root(Seq::<SignedTransaction>::empty())
    &&& h.state_root@ == state_root
    &&& h.pow_target@ == pow_target
    &&& h.timestamp == timestamp
    &&& h.pow_nonce.0 == 0
}

/// The genesis header with these parameters.
pub open spec fn genesis_header_of(
    chain_id: ChainId,
    timestamp: BlockTimestamp,
    pow_target: Seq<u8>,
    state_root: Seq<u8>,
) -> BlockHeader {
    choose|h: BlockHeader| is_genesis_header_of(h, chain_id, timestamp, pow_target, state_root)
}

/// The parameters of a chain and its initial accounts, ascending by address.
#[derive(Debug, PartialEq, Eq)]
pub struct GenesisConfig {
    chain_id: ChainId,
    timestamp: BlockTimestamp,
    pow_target: PowTarget,
    allocations: Vec<GenesisAllocation>,
}

/// The smallest address that occurs twice, if any does.
fn smallest_duplicate(s: &Vec<GenesisAllocation>) -> (r: Option<Address>)
    ensures
        r is None <==> !has_duplicate(s@),
        r matches Some(a) ==> duplicated(s@, a@) && forall|k: Seq<u8>|
            #[trigger] duplicated(s@, k) ==> be_value(a@) <= be_value(k),
{
    let mut best: Option<Address> = None;
    let mut i: usize = 0;
    while i < s.len()
        invariant
            i <= s@.len(),
            best is None <==> !(exists|a: int, b: int|
                0 <= a < b < s@.len() && a < i && #[trigger] s@[a].address@ == #[trigger] s@[b].address@),
            best matches Some(x) ==> duplicated(s@, x@) && forall|a: int, b: int|
                0 <= a < b < s@.len() && a < i && #[trigger] s@[a].address@ == #[trigger] s@[b].address@
                    ==> be_value(x@) <= be_value(s@[a].address@),
        decreases s@.len() - i,
    {
        let mut j: usize = i + 1;
        while j < s.len()
            invariant
                i < s@.len(),
                i + 1 <= j <= s@.len(),
                best is None <==> !(exists|a: int, b: int|
                    0 <= a < b < s@.len() && (a < i || (a == i && b < j)) && #[trigger] s@[a].address@
                        == #[trigger] s@[b].address@),
                best matches Some(x) ==> duplicated(s@, x@) && forall|a: int, b: int|
                    0 <= a < b < s@.len() && (a < i || (a == i && b < j)) && #[trigger] s@[a].address@
                        == #[trigger] s@[b].address@ ==> be_value(x@) <= be_value(s@[a].address@),
            decreases s@.len() - j,
        {
            if compare_be(s[i].address.as_bytes(), s[j].address.as_bytes()) == Comparison::Equal {
                let replace = match &best {
                    None => true,
                    Some(x) => compare_be(s[i].address.as_bytes(), x.as_bytes()) == Comparison::Less,
                };
                if replace {
                    best = Some(s[i].address);
                }
                assert(duplicated(s@, s@[i as int].address@)) by {
                    assert(s@[i as int].address@ == s@[i as int].address@ && s@[j as int].address@
                        == s@[i as int].address@);
                }
            }
            j += 1;
        }
        i += 1;
    }
    assert forall|k: Seq<u8>| #[trigger] duplicated(s@, k) implies best is Some && be_value(best->Some_0@) <= be_value(k) by {
        let (a, b) = choose|a: int, b: int|
            0 <= a < b < s@.len() && #[trigger] s@[a].address@ == k && #[trigger] s@[b].address@ == k;
        assert(s@[a].address@ == s@[b].address@);
    }
    assert(has_duplicate(s@) ==> best is Some) by {
        if has_duplicate(s@) {
            let (a, b) = choose|a: int, b: int|
                0 <= a < b < s@.len() && #[trigger] s@[a].address@ == #[trigger] s@[b].address@;
            assert(duplicated(s@, s@[a].address@));
        }
    }
    best
}

/// The allocations ascending by address (stable insertion sort).
fn sort_allocations(s: Vec<GenesisAllocation>) -> (r: Vec<GenesisAllocation>)
    requires
        !has_duplicate(s@),
    ensures
        sorted_allocations(r@),
        r@.to_multiset() == s@.to_multiset(),
{
    broadcast use vstd::seq_lib::group_to_multiset_ensures;

    let mut out: Vec<GenesisAllocation> = Vec::new();
    let mut i: usize = 0;
    while i < s.len()
        invariant
            i <= s@.len(),
            !has_duplicate(s@),
            sorted_allocations(out@),
            out@.to_multiset() == s@.subrange(0, i as int).to_multiset(),
            forall|k: int| 0 <= k < out@.len() ==> exists|a: int| 0 <= a < i && #[trigger] s@[a] == #[trigger] out@[k],
        decreases s@.len() - i,
    {
        let x = s[i];
        let mut p: usize = 0;
        while p < out.len() && compare_be(out[p].address.as_bytes(), x.address.as_bytes())
            == Comparison::Less
            invariant
                p <= out@.len(),
                forall|k: int| 0 <= k < p ==> be_value(#[trigger] out@[k].address@) < be_value(x.address@),
            decreases out@.len() - p,
        {
            p += 1;
        }
        proof {
            // x's address differs from every earlier allocation's.
            assert forall|k: int| p <= k < out@.len() implies be_value(x.address@) < be_value(
                #[trigger] out@[k].address@,
            ) by {
                let a = choose|a: int| 0 <= a < i && #[trigger] s@[a] == out@[k];
                if p < out@.len() {
                    assert(be_value(out@[p as int].address@) >= be_value(x.address@));
                    if k > p as int {
                        assert(be_value(out@[p as int].address@) < be_value(out@[k].address@));
                    }
                }
                if be_value(out@[k].address@) == be_value(x.address@) {
                    crate::bytes::lemma_be_value_injective(out@[k].address@, x.address@);
                    assert(s@[a].address@ == s@[i as int].address@);
                }
            }
        }
        let ghost old_out = out@;
        out.insert(p, x);
        proof {
            assert(out@ == old_out.insert(p as int, x));
            assert(s@.subrange(0, i + 1) =~= s@.subrange(0, i as int).push(x));
            vstd::seq_lib::to_multiset_insert(old_out, p as int, x);
            vstd::seq_lib::to_multiset_build(s@.subrange(0, i as int), x);
            assert forall|a: int, b: int| 0 <= a < b < out@.len() implies be_value(
                #[trigger] out@[a].address@,
            ) < be_value(#[trigger] out@[b].address@) by {
                if b < p {
                    assert(be_value(old_out[a].address@) < be_value(old_out[b].address@));
                } else if b == p {
                } else if a < p {
                    assert(out@[b] == old_out[b - 1]);
                    assert(be_value(old_out[b - 1].address@) > be_value(x.address@));
                } else if a == p {
                    assert(out@[b] == old_out[b - 1]);
                } else {
                    assert(be_value(old_out[a - 1].address@) < be_value(old_out[b - 1].address@));
                }
            }
            assert forall|k: int| 0 <= k < out@.len() implies exists|a: int|
                0 <= a < i + 1 && #[trigger] s@[a] == #[trigger] out@[k] by {
                if k < p {
                    let a = choose|a: int| 0 <= a < i && #[trigger] s@[a] == old_out[k];
                    assert(s@[a] == out@[k]);
                } else if k == p {
                    assert(s@[i as int] == out@[k]);
                } else {
                    let a = choose|a: int| 0 <= a < i && #[trigger] s@[a] == old_out[k - 1];
                    assert(s@[a] == out@[k]);
                }
            }
        }
        i += 1;
    }
    assert(s@.subrange(0, s@.len() as int) =~= s@);
    out
}

impl GenesisConfig {
    #[verifier::type_invariant]
    spec fn wf(self) -> bool {
        sorted_allocations(self.allocations@)
    }

    pub closed spec fn spec_chain_id(&self) -> ChainId {
        self.chain_id
    }

    pub closed spec fn spec_timestamp(&self) -> BlockTimestamp {
        self.timestamp
    }

    pub closed spec fn spec_pow_target(&self) -> PowTarget {
        self.pow_target
    }

    pub closed spec fn spec_allocations(&self) -> Seq<GenesisAllocation> {
        self.allocations@
    }

    /// Builds a configuration with the allocations ascending by address; two
    /// allocations of one address are rejected, naming the smallest such address.
    pub fn new(
        chain_id: ChainId,
        timestamp: BlockTimestamp,
        pow_target: PowTarget,
        allocations: Vec<GenesisAllocation>,
    ) -> (r: Result<Self, GenesisConfigError>)
        ensures
            r is Ok <==> !has_duplicate(allocations@),
            r matches Ok(cfg) ==> {
                &&& cfg.spec_chain_id() == chain_id
                &&& cfg.spec_timestamp() == timestamp
                &&& cfg.spec_pow_target() == pow_target
                &&& sorted_allocations(cfg.spec_allocations())
                &&& cfg.spec_allocations().to_multiset() == allocations@.to_multiset()
            },
            r matches Err(GenesisConfigError::DuplicateAllocation(a)) ==> duplicated(allocations@, a@)
                && forall|k: Seq<u8>| #[trigger] duplicated(allocations@, k) ==> be_value(a@) <= be_value(k),
    {
        match smallest_duplicate(&allocations) {
            Some(a) => Err(GenesisConfigError::DuplicateAllocation(a)),
            None => {
                let sorted = sort_allocations(allocations);
                Ok(GenesisConfig { chain_id, timestamp, pow_target, allocations: sorted })
            },
        }
    }

    pub fn chain_id(&self) -> (r: ChainId)
        ensures
            r == self.spec_chain_id(),
    {
        self.chain_id
    }

    pub fn timestamp(&self) -> (r: BlockTimestamp)
        ensures
            r == self.spec_timestamp(),
    {
        self.timestamp
    }

    pub fn pow_target(&self) -> (r: PowTarget)
        ensures
            r == self.spec_pow_target(),
    {
        self.pow_target
    }

    pub fn allocations(&self) -> (r: &[GenesisAllocation])
        ensures
            r@ == self.spec_allocations(),
            sorted_allocations(r@),
    {
        proof {
            use_type_invariant(self);
        }
        self.allocations.as_slice()
    }

    /// A copy of this configuration.
    pub fn duplicate(&self) -> (c: Self)
        ensures
            c.spec_chain_id() == self.spec_chain_id(),
            c.spec_timestamp() == self.spec_timestamp(),
            c.spec_pow_target() == self.spec_pow_target(),
            c.spec_allocations() == self.spec_allocations(),
    {
        proof {
            use_type_invariant(self);
        }
        let mut allocations: Vec<GenesisAllocation> = Vec::new();
        let mut i: usize = 0;
        while i < self.allocations.len()
            invariant
                i <= self.allocations@.len(),
                allocations@ == self.allocations@.subrange(0, i as int),
            decreases self.allocations@.len() - i,
        {
            allocations.push(self.allocations[i]);
            i += 1;
            assert(allocations@ =~= self.allocations@.subrange(0, i as int));
        }
        assert(allocations@ =~= self.allocations@);
        GenesisConfig {
            chain_id: self.chain_id,
            timestamp: self.timestamp,
            pow_target: self.pow_target,
            allocations,
        }
    }

    /// The account map the allocations define.
    pub open spec fn spec_initial_state(&self) -> Map<Seq<u8>, Account> {
        entries_map(allocation_entries(self.spec_allocations()))
    }

    /// The state holding exactly the allocated accounts.
    pub fn initial_state(&self) -> (s: State)
        ensures
            s@ == self.spec_initial_state(),
    {
        proof {
            use_type_invariant(self);
        }
        let ghost entries = allocation_entries(self.allocations@);
        let mut state = State::new();
        let mut i: usize = 0;
        while i < self.allocations.len()
            invariant
                i <= self.allocations@.len(),
                sorted_allocations(self.allocations@),
                entries == allocation_entries(self.allocations@),
                state@ == entries_map(entries.subrange(0, i as int)),
            decreases self.allocations@.len() - i,
        {
            let allocation = self.allocations[i];
            state.set_account(allocation.address, Account::new(allocation.balance, allocation.nonce));
            proof {
                assert(sorted_entries(entries)) by {
                    assert forall|a: int, b: int| 0 <= a < b < entries.len() implies be_value(
                        #[trigger] entries[a].address@,
                    ) < be_value(#[trigger] entries[b].address@) by {
                        assert(be_value(self.allocations@[a].address@) < be_value(self.allocations@[b].address@));
                    }
                }
                lemma_entries_map_push(entries, i as int);
            }
            i += 1;
        }
        assert(entries.subrange(0, entries.len() as int) =~= entries);
        state
    }

    /// The commitment to the initial state.
    pub fn state_root(&self) -> (r: StateRoot)
        ensures
            r@ == spec_state_root(self.spec_initial_state()),
    {
        self.initial_state().state_root()
    }

    /// The genesis header of this configuration.
    pub open spec fn is_genesis_header(&self, h: BlockHeader) -> bool {
        is_genesis_header_of(
            h,
            self.spec_chain_id(),
            self.spec_timestamp(),
            self.spec_pow_target()@,
            spec_state_root(self.spec_initial_state()),
        )
    }

    pub open spec fn spec_genesis_header(&self) -> BlockHeader {
        genesis_header_of(
            self.spec_chain_id(),
            self.spec_timestamp(),
            self.spec_pow_target()@,
            spec_state_root(self.spec_initial_state()),
        )
    }

    /// The genesis header is determined by the configuration.
    pub proof fn lemma_genesis_header_unique(&self, h: BlockHeader)
        requires
            self.is_genesis_header(h),
        ensures
            self.spec_genesis_header() == h,
    {
        let g = self.spec_genesis_header();
        assert(g.previous_block_hash.0.0 =~= h.previous_block_hash.0.0);
        assert(g.transaction_root.0.0 =~= h.transaction_root.0.0);
        assert(g.state_root.0.0 =~= h.state_root.0.0);
        assert(g.pow_target.0 =~= h.pow_target.0);
    }

    pub fn genesis_block(&self) -> (b: Block)
        ensures
            self.is_genesis_header(b.header),
            b.header == self.spec_genesis_header(),
            b.transactions@.len() == 0,
    {
        let transactions: Vec<SignedTransaction> = Vec::new();
        let header = BlockHeader::new(
            BlockVersion::v1(),
            self.chain_id,
            BlockHeight::zero(),
            BlockHash::zero(),
            merkle_root(transactions.as_slice()),
            self.state_root(),
            self.pow_target,
            self.timestamp,
            PowNonce::zero(),
        );
        assert(header.previous_block_hash@ =~= Seq::new(32, |i: int| 0u8));
        proof {
            self.lemma_genesis_header_unique(header);
        }
        Block::new(header, transactions)
    }

    pub fn genesis_hash(&self) -> (h: BlockHash)
        ensures
            h@ == spec_block_hash(self.spec_genesis_header()),
    {
        let block = self.genesis_block();
        block_hash(&block.header)
    }
}


/// Two allocation lists, each ascending by address, that hold the same
/// allocations are the same list.
pub proof fn lemma_sorted_allocations_unique(a: Seq<GenesisAllocation>, b: Seq<GenesisAllocation>)
    requires
        sorted_allocations(a),
        sorted_allocations(b),
        a.to_multiset() == b.to_multiset(),
    ensures
        a == b,
    decreases a.len(),
{
    broadcast use vstd::seq_lib::group_to_multiset_ensures;

    assert(a.to_multiset().len() == a.len() && b.to_multiset().len() == b.len());
    if a.len() == 0 {
        assert(a =~= b);
    } else {
        assert(a.contains(a[0]));
        assert(b.to_multiset().count(a[0]) > 0);
        assert(b.contains(a[0]));
        let j = choose|j: int| 0 <= j < b.len() && b[j] == a[0];
        assert(b.contains(b[0]));
        assert(a.to_multiset().count(b[0]) > 0);
        assert(a.contains(b[0]));
        let i = choose|i: int| 0 <= i < a.len() && a[i] == b[0];
        if i > 0 {
            assert(be_value(a[0].address@) < be_value(a[i].address@));
            if j > 0 {
                assert(be_value(b[0].address@) < be_value(b[j].address@));
            }
            assert(false);
        }
        assert(a[0] == b[0]);
        let a1 = a.remove(0);
        let b1 = b.remove(0);
        assert(a1.to_multiset() == a.to_multiset().remove(a[0]));
        assert(b1.to_multiset() == b.to_multiset().remove(b[0]));
        assert forall|x: int, y: int| 0 <= x < y < a1.len() implies be_value(#[trigger] a1[x].address@)
            < be_value(#[trigger] a1[y].address@) by {
            assert(a1[x] == a[x + 1] && a1[y] == a[y + 1]);
        }
        assert forall|x: int, y: int| 0 <= x < y < b1.len() implies be_value(#[trigger] b1[x].address@)
            < be_value(#[trigger] b1[y].address@) by {
            assert(b1[x] == b[x + 1] && b1[y] == b[y + 1]);
        }
        lemma_sorted_allocations_unique(a1, b1);
        assert(a =~= seq![a[0]] + a1);
        assert(b =~= seq![b[0]] + b1);
    }
}

/// The order in which allocations are listed does not matter: configurations
/// of the same chain, time and target whose allocations are the same, in any
/// order, hold the same allocations, the same initial state and the same
/// genesis header.
pub proof fn lemma_allocation_order_irrelevant(c1: &GenesisConfig, c2: &GenesisConfig)
    requires
        sorted_allocations(c1.spec_allocations()),
        sorted_allocations(c2.spec_allocations()),
        c1.spec_chain_id() == c2.spec_chain_id(),
        c1.spec_timestamp() == c2.spec_timestamp(),
        c1.spec_pow_target() == c2.spec_pow_target(),
        c1.spec_allocations().to_multiset() == c2.spec_allocations().to_multiset(),
    ensures
        c1.spec_allocations() == c2.spec_allocations(),
        c1.spec_initial_state() == c2.spec_initial_state(),
        c1.spec_genesis_header() == c2.spec_genesis_header(),
{
    lemma_sorted_allocations_unique(c1.spec_allocations(), c2.spec_allocations());
    assert(c1.spec_initial_state() == c2.spec_initial_state());
}

} // verus!
