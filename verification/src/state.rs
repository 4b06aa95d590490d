//! Account state: balances and nonces by address, its commitment, and the
//! transfer state transition.
use vstd::prelude::*;
use crate::bytes::{append_bytes, append_u64, be_value, compare_be, u64_be, Comparison};
use crate::hash::{sha256, sha256_digest, spec_address, derive_address};
use crate::keys::{spec_verify_transaction_signature, verify_transaction_signature};
use crate::transaction::SignedTransaction;
use crate::types::{Address, Amount, Nonce, StateRoot};

verus! {

/// The balance and transaction counter of an address.
#[derive(Debug, Clone, Copy, PartialEq, Eq, Structural)]
pub struct Account {
    pub balance: Amount,
    pub nonce: Nonce,
}

impl Account {
    pub fn new(balance: Amount, nonce: Nonce) -> (a: Self)
        ensures
            a == (Account { balance, nonce }),
    {
        Account { balance, nonce }
    }

    /// A zero balance and nonce.
    pub fn empty() -> (a: Self)
        ensures
            a == (Account { balance: Amount(0), nonce: Nonce(0) }),
    {
        Account { balance: Amount::zero(), nonce: Nonce::zero() }
    }

    pub fn balance(&self) -> (r: Amount)
        ensures
            r == self.balance,
    {
        self.balance
    }

    pub fn nonce(&self) -> (r: Nonce)
        ensures
            r == self.nonce,
    {
        self.nonce
    }
}

/// Why a state query or transition fails.
#[derive(Debug, Clone, Copy, PartialEq, Eq, Structural)]
pub enum StateError {
    AccountNotFound,
    InsufficientBalance,
    InvalidNonce,
    BalanceOverflow,
    NonceOverflow,
    InvalidSignature,
}

/// An address with its account.
#[derive(Debug, Clone, Copy)]
pub struct AccountEntry {
    pub address: Address,
    pub account: Account,
}

/// Entries strictly ascending by address (as big-endian numbers), so each
/// address occurs once.
pub open spec fn sorted_entries(s: Seq<AccountEntry>) -> bool {
    forall|i: int, j: int|
        0 <= i < j < s.len() ==> be_value(#[trigger] s[i].address@) < be_value(#[trigger] s[j].address@)
}

/// The index of an address in a list of entries.
pub open spec fn entry_index(s: Seq<AccountEntry>, k: Seq<u8>) -> int {
    choose|i: int| 0 <= i < s.len() && #[trigger] s[i].address@ == k
}

/// The map from address to account that a list of entries holds.
pub open spec fn entries_map(s: Seq<AccountEntry>) -> Map<Seq<u8>, Account> {
    Map::new(
        |k: Seq<u8>| exists|i: int| 0 <= i < s.len() && #[trigger] s[i].address@ == k,
        |k: Seq<u8>| s[entry_index(s, k)].account,
    )
}

/// The entry list of a map: ascending by address.
pub open spec fn canonical_entries(m: Map<Seq<u8>, Account>) -> Seq<AccountEntry> {
    choose|s: Seq<AccountEntry>| sorted_entries(s) && entries_map(s) == m
}

/// A map whose canonical list is ascending by address and holds exactly it,
/// as the map of every `State` is.
#[verifier::opaque]
pub open spec fn canonical_state(m: Map<Seq<u8>, Account>) -> bool {
    &&& sorted_entries(canonical_entries(m))
    &&& entries_map(canonical_entries(m)) == m
}

/// `b"BLOCKGUARD_STATE_V1"`
pub const STATE_DOMAIN: [u8; 19] = [
    66, 76, 79, 67, 75, 71, 85, 65, 82, 68, 95, 83, 84, 65, 84, 69, 95, 86, 49,
];

/// The encoded accounts, each address, balance and nonce.
pub open spec fn entries_encoding(s: Seq<AccountEntry>) -> Seq<u8>
    decreases s.len(),
{
    if s.len() == 0 {
        Seq::empty()
    } else {
        entries_encoding(s.drop_last()) + s.last().address@ + u64_be(s.last().account.balance.0)
            + u64_be(s.last().account.nonce.0)
    }
}

/// The preimage of a state root: domain, account count, accounts by address.
pub open spec fn state_preimage(s: Seq<AccountEntry>) -> Seq<u8> {
    STATE_DOMAIN@ + u64_be(s.len() as u64) + entries_encoding(s)
}

/// The commitment to an account map.
pub open spec fn spec_state_root(m: Map<Seq<u8>, Account>) -> Seq<u8> {
    sha256_digest(state_preimage(canonical_entries(m)))
}

proof fn lemma_entries_encoding_step(s: Seq<AccountEntry>, i: int)
    requires
        0 <= i < s.len(),
    ensures
        entries_encoding(s.subrange(0, i + 1)) == entries_encoding(s.subrange(0, i))
            + s[i].address@ + u64_be(s[i].account.balance.0) + u64_be(s[i].account.nonce.0),
{
    let sub = s.subrange(0, i + 1);
    assert(sub.drop_last() =~= s.subrange(0, i));
    assert(sub.last() == s[i]);
}

/// In a sorted list, an address is at its index only.
pub proof fn lemma_sorted_index(s: Seq<AccountEntry>, i: int, j: int)
    requires
        sorted_entries(s),
        0 <= i < s.len(),
        0 <= j < s.len(),
        s[i].address@ == s[j].address@,
    ensures
        i == j,
{
    if i < j {
        assert(be_value(s[i].address@) < be_value(s[j].address@));
    } else if j < i {
        assert(be_value(s[j].address@) < be_value(s[i].address@));
    }
}

/// Looking an entry's address up in a sorted list gives that entry's account.
pub proof fn lemma_entries_map_at(s: Seq<AccountEntry>, i: int)
    requires
        sorted_entries(s),
        0 <= i < s.len(),
    ensures
        entries_map(s).dom().contains(s[i].address@),
        entries_map(s)[s[i].address@] == s[i].account,
{
    let k = s[i].address@;
    assert(exists|j: int| 0 <= j < s.len() && #[trigger] s[j].address@ == k);
    let j = entry_index(s, k);
    lemma_sorted_index(s, i, j);
}

/// Extending a sorted list by its next entry adds that entry to the map.
pub proof fn lemma_entries_map_push(s: Seq<AccountEntry>, i: int)
    requires
        sorted_entries(s),
        0 <= i < s.len(),
    ensures
        entries_map(s.subrange(0, i + 1)) == entries_map(s.subrange(0, i)).insert(s[i].address@, s[i].account),
{
    let a = s.subrange(0, i);
    let b = s.subrange(0, i + 1);
    assert(sorted_entries(a));
    assert(sorted_entries(b));
    let m = entries_map(a).insert(s[i].address@, s[i].account);
    assert forall|k: Seq<u8>| #[trigger] entries_map(b).dom().contains(k) <==> m.dom().contains(k) by {
        if entries_map(b).dom().contains(k) {
            let j = entry_index(b, k);
            if j < i {
                assert(a[j].address@ == k);
            }
        }
        if entries_map(a).dom().contains(k) {
            let j = entry_index(a, k);
            assert(b[j].address@ == k);
        }
        if k == s[i].address@ {
            assert(b[i].address@ == k);
        }
    }
    assert forall|k: Seq<u8>| #[trigger] entries_map(b).dom().contains(k) implies entries_map(b)[k] == m[k] by {
        let j = entry_index(b, k);
        lemma_entries_map_at(b, j);
        if j < i {
            assert(a[j] == b[j]);
            lemma_entries_map_at(a, j);
            if k == s[i].address@ {
                lemma_sorted_index(b, j, i);
            }
        }
    }
    assert(entries_map(b) =~= m);
}

/// Two sorted entry lists that hold the same map are the same list: the
/// representation of a state is canonical.
pub proof fn lemma_sorted_entries_canonical(s1: Seq<AccountEntry>, s2: Seq<AccountEntry>)
    requires
        sorted_entries(s1),
        sorted_entries(s2),
        entries_map(s1) == entries_map(s2),
    ensures
        s1 == s2,
{
    let m = entries_map(s1);
    // Matching positions hold matching addresses, by induction on the position.
    assert forall|i: int| 0 <= i < s1.len() && 0 <= i < s2.len() implies #[trigger] s1[i].address@
        == s2[i].address@ by {
        lemma_same_address_at(s1, s2, i);
    }
    if s1.len() < s2.len() {
        let k = s2[s1.len() as int].address@;
        lemma_entries_map_at(s2, s1.len() as int);
        let j = entry_index(s1, k);
        assert(s1[j].address@ == s2[j].address@);
        lemma_sorted_index(s2, j, s1.len() as int);
    } else if s2.len() < s1.len() {
        let k = s1[s2.len() as int].address@;
        lemma_entries_map_at(s1, s2.len() as int);
        let j = entry_index(s2, k);
        assert(s1[j].address@ == s2[j].address@);
        lemma_sorted_index(s1, j, s2.len() as int);
    }
    assert forall|i: int| 0 <= i < s1.len() implies #[trigger] s1[i] == s2[i] by {
        lemma_entries_map_at(s1, i);
        lemma_entries_map_at(s2, i);
        assert(s1[i].address.0 =~= s2[i].address.0);
    }
    assert(s1 =~= s2);
}

proof fn lemma_same_address_at(s1: Seq<AccountEntry>, s2: Seq<AccountEntry>, i: int)
    requires
        sorted_entries(s1),
        sorted_entries(s2),
        entries_map(s1) == entries_map(s2),
        0 <= i < s1.len(),
        0 <= i < s2.len(),
    ensures
        s1[i].address@ == s2[i].address@,
    decreases i,
{
    assert forall|j: int| 0 <= j < i implies #[trigger] s1[j].address@ == s2[j].address@ by {
        lemma_same_address_at(s1, s2, j);
    }
    let k1 = s1[i].address@;
    let k2 = s2[i].address@;
    lemma_entries_map_at(s1, i);
    lemma_entries_map_at(s2, i);
    let j1 = entry_index(s2, k1);
    let j2 = entry_index(s1, k2);
    if j1 < i {
        assert(s1[j1].address@ == s2[j1].address@);
        lemma_sorted_index(s1, j1, i);
    }
    if j2 < i {
        assert(s1[j2].address@ == s2[j2].address@);
        lemma_sorted_index(s2, j2, i);
    }
    if j1 > i {
        assert(be_value(s2[i].address@) < be_value(s2[j1].address@));
        if j2 > i {
            assert(be_value(s1[i].address@) < be_value(s1[j2].address@));
        }
    }
}

/// The balances and nonces of all accounts, by address.
#[derive(Debug)]
pub struct State {
    accounts: Vec<AccountEntry>,
}

impl View for State {
    type V = Map<Seq<u8>, Account>;

    closed spec fn view(&self) -> Map<Seq<u8>, Account> {
        entries_map(self.accounts@)
    }
}

impl Clone for State {
    fn clone(&self) -> (s: Self)
        ensures
            s@ == self@,
    {
        self.duplicate()
    }
}

impl State {
    #[verifier::type_invariant]
    spec fn wf(self) -> bool {
        sorted_entries(self.accounts@)
    }

    /// The accounts ascending by address.
    pub closed spec fn entries(&self) -> Seq<AccountEntry> {
        self.accounts@
    }

    /// The entries are the map's canonical list.
    pub(crate) fn entries_are_canonical(&self)
        ensures
            self.entries() == canonical_entries(self@),
            sorted_entries(self.entries()),
            canonical_state(self@),
    {
        proof {
            use_type_invariant(self);
            let s = canonical_entries(self@);
            assert(sorted_entries(self.accounts@) && entries_map(self.accounts@) == self@);
            lemma_sorted_entries_canonical(s, self.accounts@);
            reveal(canonical_state);
        }
    }

    /// The empty state.
    pub fn new() -> (s: Self)
        ensures
            s@ == Map::<Seq<u8>, Account>::empty(),
    {
        let s = State { accounts: Vec::new() };
        assert(s@ =~= Map::<Seq<u8>, Account>::empty());
        s
    }

    /// A copy of this state.
    pub fn duplicate(&self) -> (s: Self)
        ensures
            s@ == self@,
            s.entries() == self.entries(),
    {
        proof {
            use_type_invariant(self);
        }
        let mut accounts: Vec<AccountEntry> = Vec::new();
        let mut i: usize = 0;
        while i < self.accounts.len()
            invariant
                i <= self.accounts@.len(),
                accounts@ == self.accounts@.subrange(0, i as int),
            decreases self.accounts@.len() - i,
        {
            accounts.push(self.accounts[i]);
            i += 1;
            assert(accounts@ =~= self.accounts@.subrange(0, i as int));
        }
        assert(accounts@ =~= self.accounts@);
        State { accounts }
    }

    /// The position of `address`: the index of its entry if present, else the
    /// index where it belongs.
    fn position(&self, address: &Address) -> (r: (usize, bool))
        ensures
            r.0 <= self.accounts@.len(),
            r.1 ==> r.0 < self.accounts@.len() && self.accounts@[r.0 as int].address@ == address@,
            forall|j: int| 0 <= j < r.0 ==> be_value(#[trigger] self.accounts@[j].address@) < be_value(address@),
            !r.1 ==> forall|j: int|
                r.0 <= j < self.accounts@.len() ==> be_value(address@) < be_value(
                    #[trigger] self.accounts@[j].address@,
                ),
    {
        proof {
            use_type_invariant(self);
        }
        let mut i: usize = 0;
        while i < self.accounts.len()
            invariant
                sorted_entries(self.accounts@),
                i <= self.accounts@.len(),
                forall|j: int| 0 <= j < i ==> be_value(#[trigger] self.accounts@[j].address@) < be_value(address@),
            decreases self.accounts@.len() - i,
        {
            match compare_be(self.accounts[i].address.as_bytes(), address.as_bytes()) {
                Comparison::Less => {},
                Comparison::Equal => {
                    return (i, true);
                },
                Comparison::Greater => {
                    assert forall|j: int| i <= j < self.accounts@.len() implies be_value(address@)
                        < be_value(#[trigger] self.accounts@[j].address@) by {
                        if j > i {
                            assert(be_value(self.accounts@[i as int].address@) < be_value(self.accounts@[j].address@));
                        }
                    }
                    return (i, false);
                },
            }
            i += 1;
        }
        (i, false)
    }

    /// Sets the account of `address`, replacing any it had.
    pub fn set_account(&mut self, address: Address, account: Account)
        ensures
            final(self)@ == old(self)@.insert(address@, account),
    {
        proof {
            use_type_invariant(&*self);
        }
        let (i, found) = self.position(&address);
        let ghost old_s = self.accounts@;
        let entry = AccountEntry { address, account };
        let mut accounts: Vec<AccountEntry> = Vec::new();
        std::mem::swap(&mut accounts, &mut self.accounts);
        if found {
            accounts.set(i, entry);
        } else {
            accounts.insert(i, entry);
        }
        let ghost new_s = accounts@;
        proof {
            if found {
                assert(new_s == old_s.update(i as int, entry));
                assert(sorted_entries(new_s)) by {
                    assert forall|a: int, b: int| 0 <= a < b < new_s.len() implies be_value(
                        #[trigger] new_s[a].address@,
                    ) < be_value(#[trigger] new_s[b].address@) by {
                        assert(be_value(old_s[a].address@) < be_value(old_s[b].address@));
                    }
                }
                assert forall|k: Seq<u8>| #[trigger] entries_map(new_s).dom().contains(k) <==> entries_map(old_s).insert(address@, account).dom().contains(k) by {
                    if entries_map(new_s).dom().contains(k) {
                        let j = entry_index(new_s, k);
                        if j != i {
                            assert(old_s[j].address@ == k);
                        }
                    }
                    if k != address@ && entries_map(old_s).dom().contains(k) {
                        let j = entry_index(old_s, k);
                        assert(new_s[j].address@ == k);
                    }
                    if k == address@ {
                        assert(new_s[i as int].address@ == k);
                    }
                }
                assert forall|k: Seq<u8>| #[trigger] entries_map(new_s).dom().contains(k) implies entries_map(new_s)[k] == entries_map(old_s).insert(address@, account)[k] by {
                    let j = entry_index(new_s, k);
                    lemma_entries_map_at(new_s, j);
                    if j != i {
                        assert(old_s[j].address@ == k);
                        lemma_entries_map_at(old_s, j);
                    }
                }
                assert(entries_map(new_s) =~= entries_map(old_s).insert(address@, account));
            } else {
                assert(new_s == old_s.insert(i as int, entry));
                assert(sorted_entries(new_s)) by {
                    assert forall|a: int, b: int| 0 <= a < b < new_s.len() implies be_value(
                        #[trigger] new_s[a].address@,
                    ) < be_value(#[trigger] new_s[b].address@) by {
                        if a < i && b < i {
                            assert(be_value(old_s[a].address@) < be_value(old_s[b].address@));
                        } else if a < i && b == i {
                        } else if a < i && b > i {
                            assert(be_value(old_s[a].address@) < be_value(old_s[b - 1].address@));
                        } else if a == i {
                            assert(new_s[b].address@ == old_s[b - 1].address@);
                        } else {
                            assert(be_value(old_s[a - 1].address@) < be_value(old_s[b - 1].address@));
                        }
                    }
                }
                assert forall|k: Seq<u8>| #[trigger] entries_map(new_s).dom().contains(k) <==> entries_map(old_s).insert(address@, account).dom().contains(k) by {
                    if entries_map(new_s).dom().contains(k) {
                        let j = entry_index(new_s, k);
                        if j < i {
                            assert(old_s[j].address@ == k);
                        } else if j > i {
                            assert(old_s[j - 1].address@ == k);
                        }
                    }
                    if entries_map(old_s).dom().contains(k) {
                        let j = entry_index(old_s, k);
                        if j < i {
                            assert(new_s[j].address@ == k);
                        } else {
                            assert(new_s[j + 1].address@ == k);
                        }
                    }
                    if k == address@ {
                        assert(new_s[i as int].address@ == k);
                    }
                }
                assert forall|k: Seq<u8>| #[trigger] entries_map(new_s).dom().contains(k) implies entries_map(new_s)[k] == entries_map(old_s).insert(address@, account)[k] by {
                    let j = entry_index(new_s, k);
                    lemma_entries_map_at(new_s, j);
                    if j < i {
                        assert(old_s[j].address@ == k);
                        lemma_entries_map_at(old_s, j);
                    } else if j > i {
                        assert(old_s[j - 1].address@ == k);
                        lemma_entries_map_at(old_s, j - 1);
                    }
                }
                assert(entries_map(new_s) =~= entries_map(old_s).insert(address@, account));
            }
        }
        self.accounts = accounts;
    }

    /// Creates an empty account at `address` unless it has one.
    pub fn create_account(&mut self, address: Address)
        ensures
            old(self)@.dom().contains(address@) ==> final(self)@ == old(self)@,
            !old(self)@.dom().contains(address@) ==> final(self)@ == old(self)@.insert(
                address@,
                Account { balance: Amount(0), nonce: Nonce(0) },
            ),
    {
        if self.account(&address).is_none() {
            self.set_account(address, Account::empty());
        }
    }

    /// The account of `address`, if it has one.
    pub fn account(&self, address: &Address) -> (r: Option<&Account>)
        ensures
            r is Some <==> self@.dom().contains(address@),
            r matches Some(a) ==> *a == self@[address@],
    {
        proof {
            use_type_invariant(self);
        }
        let (i, found) = self.position(address);
        if found {
            proof {
                lemma_entries_map_at(self.accounts@, i as int);
            }
            Some(&self.accounts[i].account)
        } else {
            assert(!self@.dom().contains(address@)) by {
                if self@.dom().contains(address@) {
                    let j = entry_index(self.accounts@, address@);
                    if j < i {
                        assert(be_value(self.accounts@[j].address@) < be_value(address@));
                    } else {
                        assert(be_value(address@) < be_value(self.accounts@[j].address@));
                    }
                }
            }
            None
        }
    }

    pub fn balance(&self, address: &Address) -> (r: Result<Amount, StateError>)
        ensures
            r == (if self@.dom().contains(address@) {
                Ok::<Amount, StateError>(self@[address@].balance)
            } else {
                Err(StateError::AccountNotFound)
            }),
    {
        match self.account(address) {
            Some(a) => Ok(a.balance),
            None => Err(StateError::AccountNotFound),
        }
    }

    pub fn nonce(&self, address: &Address) -> (r: Result<Nonce, StateError>)
        ensures
            r == (if self@.dom().contains(address@) {
                Ok::<Nonce, StateError>(self@[address@].nonce)
            } else {
                Err(StateError::AccountNotFound)
            }),
    {
        match self.account(address) {
            Some(a) => Ok(a.nonce),
            None => Err(StateError::AccountNotFound),
        }
    }

    /// All accounts, ascending by address.
    pub fn accounts(&self) -> (r: &[AccountEntry])
        ensures
            r@ == self.entries(),
            r@ == canonical_entries(self@),
            sorted_entries(r@),
    {
        self.entries_are_canonical();
        self.accounts.as_slice()
    }

    /// The commitment to this state; it depends only on the account map.
    pub fn state_root(&self) -> (r: StateRoot)
        ensures
            r@ == spec_state_root(self@),
    {
        self.entries_are_canonical();
        let mut encoded: Vec<u8> = Vec::new();
        append_bytes(&mut encoded, &STATE_DOMAIN);
        append_u64(&mut encoded, self.accounts.len() as u64);
        let ghost prefix = encoded@;
        let mut i: usize = 0;
        while i < self.accounts.len()
            invariant
                i <= self.accounts@.len(),
                encoded@ == prefix + entries_encoding(self.accounts@.subrange(0, i as int)),
            decreases self.accounts@.len() - i,
        {
            let entry = &self.accounts[i];
            append_bytes(&mut encoded, entry.address.as_bytes());
            append_u64(&mut encoded, entry.account.balance.0);
            append_u64(&mut encoded, entry.account.nonce.0);
            proof {
                lemma_entries_encoding_step(self.accounts@, i as int);
            }
            i += 1;
        }
        assert(self.accounts@.subrange(0, self.accounts@.len() as int) =~= self.accounts@);
        StateRoot::from_hash(sha256(encoded.as_slice()))
    }
}

/// The result of applying a transfer to an account map: the new map, or why
/// the transfer is rejected.
pub open spec fn spec_apply_transaction(m: Map<Seq<u8>, Account>, tx: SignedTransaction) -> Result<
    Map<Seq<u8>, Account>,
    StateError,
> {
    let sender = spec_address(tx.payload.sender_public_key@);
    let recipient = tx.payload.recipient@;
    let amount = tx.payload.amount.0;
    if spec_verify_transaction_signature(tx) is Err {
        Err(StateError::InvalidSignature)
    } else if !m.dom().contains(sender) {
        Err(StateError::AccountNotFound)
    } else if tx.payload.nonce != m[sender].nonce {
        Err(StateError::InvalidNonce)
    } else if m[sender].balance.0 < amount {
        Err(StateError::InsufficientBalance)
    } else {
        let recipient_balance: u64 = if m.dom().contains(recipient) {
            m[recipient].balance.0
        } else {
            0
        };
        let recipient_nonce: u64 = if m.dom().contains(recipient) {
            m[recipient].nonce.0
        } else {
            0
        };
        if recipient_balance + amount > u64::MAX {
            Err(StateError::BalanceOverflow)
        } else if m[sender].nonce.0 == u64::MAX {
            Err(StateError::NonceOverflow)
        } else if sender == recipient {
            Ok(
                m.insert(
                    sender,
                    Account { balance: m[sender].balance, nonce: Nonce((m[sender].nonce.0 + 1) as u64) },
                ),
            )
        } else {
            Ok(
                m.insert(
                    sender,
                    Account {
                        balance: Amount((m[sender].balance.0 - amount) as u64),
                        nonce: Nonce((m[sender].nonce.0 + 1) as u64),
                    },
                ).insert(
                    recipient,
                    Account {
                        balance: Amount((recipient_balance + amount) as u64),
                        nonce: Nonce(recipient_nonce),
                    },
                ),
            )
        }
    }
}

impl State {
    /// Applies a signed transfer: checks the signature, the sender's nonce and
    /// balance, moves the amount and counts the sender's nonce up. A rejected
    /// transfer leaves the state as it was.
    pub fn apply_transaction(&mut self, tx: &SignedTransaction) -> (r: Result<(), StateError>)
        ensures
            match spec_apply_transaction(old(self)@, *tx) {
                Ok(m) => r is Ok && final(self)@ == m,
                Err(e) => r == Err::<(), StateError>(e) && final(self)@ == old(self)@,
            },
    {
        if verify_transaction_signature(tx).is_err() {
            return Err(StateError::InvalidSignature);
        }
        let sender_address = derive_address(&tx.payload.sender_public_key);
        let recipient_address = tx.payload.recipient;
        let amount = tx.payload.amount;
        let expected_nonce = match self.nonce(&sender_address) {
            Ok(n) => n,
            Err(e) => {
                return Err(e);
            },
        };
        if tx.payload.nonce.0 != expected_nonce.0 {
            return Err(StateError::InvalidNonce);
        }
        let sender_balance = match self.balance(&sender_address) {
            Ok(b) => b,
            Err(e) => {
                return Err(e);
            },
        };
        if sender_balance.0 < amount.0 {
            return Err(StateError::InsufficientBalance);
        }
        let new_sender_balance = match sender_balance.checked_sub(amount) {
            Some(b) => b,
            None => {
                return Err(StateError::InsufficientBalance);
            },
        };
        let recipient_balance = match self.account(&recipient_address) {
            Some(a) => a.balance,
            None => Amount::zero(),
        };
        let new_recipient_balance = match recipient_balance.checked_add(amount) {
            Some(b) => b,
            None => {
                return Err(StateError::BalanceOverflow);
            },
        };
        let new_sender_nonce = match expected_nonce.checked_increment() {
            Some(n) => n,
            None => {
                return Err(StateError::NonceOverflow);
            },
        };
        let recipient_nonce = match self.account(&recipient_address) {
            Some(a) => a.nonce,
            None => Nonce::zero(),
        };
        if sender_address == recipient_address {
            self.set_account(sender_address, Account::new(sender_balance, new_sender_nonce));
            return Ok(());
        }
        self.set_account(sender_address, Account::new(new_sender_balance, new_sender_nonce));
        self.set_account(recipient_address, Account::new(new_recipient_balance, recipient_nonce));
        Ok(())
    }
}

/// A transfer that was applied cannot be applied again: the replay is
/// rejected for its nonce.
pub proof fn lemma_replay_rejected(m: Map<Seq<u8>, Account>, tx: SignedTransaction)
    requires
        spec_apply_transaction(m, tx) is Ok,
    ensures
        spec_apply_transaction(spec_apply_transaction(m, tx)->Ok_0, tx) == Err::<
            Map<Seq<u8>, Account>,
            StateError,
        >(StateError::InvalidNonce),
{
    let sender = spec_address(tx.payload.sender_public_key@);
    let m2 = spec_apply_transaction(m, tx)->Ok_0;
    assert(m2.dom().contains(sender));
    assert(m2[sender].nonce.0 == m[sender].nonce.0 + 1);
}

} // verus!
