//! The pool of transfers waiting for a block: admission against a state,
//! selection of executable candidates, and revalidation after the chain moves.
use vstd::prelude::*;
use crate::bytes::{be_value, compare_be, Comparison};
use crate::chain::apply_all;
use crate::hash::{derive_address, spec_address, spec_transaction_id, transaction_id};
use crate::keys::{spec_verify_transaction_signature, verify_transaction_signature, CryptoError};
use crate::state::{spec_apply_transaction, Account, State, StateError};
use crate::transaction::SignedTransaction;
use crate::types::{Address, ChainId, TransactionId};

verus! {

/// Why the pool refuses a transaction.
#[derive(Debug, Clone, Copy, PartialEq, Eq, Structural)]
pub enum MempoolError {
    InvalidSignature,
    WrongChainId,
    UnsupportedTransactionVersion,
    DuplicateTransaction,
    SenderAccountNotFound,
    StaleNonce,
    ConflictingNonce,
    NonceGap,
    ImpossibleSpend(StateError),
}

/// The identity of a transaction, as a number.
pub open spec fn id_value(tx: SignedTransaction) -> int {
    be_value(spec_transaction_id(tx)) as int
}

/// The nonce of a transaction.
pub open spec fn nonce_value(tx: SignedTransaction) -> int {
    tx.payload.nonce.0 as int
}

/// The address that sends a transaction.
pub open spec fn tx_sender(tx: SignedTransaction) -> Seq<u8> {
    spec_address(tx.payload.sender_public_key@)
}

/// Strictly ascending by `key`.
pub open spec fn ordered_by(s: Seq<SignedTransaction>, key: spec_fn(SignedTransaction) -> int) -> bool {
    forall|i: int, j: int| 0 <= i < j < s.len() ==> key(#[trigger] s[i]) < key(#[trigger] s[j])
}

/// The transactions of `s` arranged strictly ascending by `key`.
pub open spec fn arranged(s: Seq<SignedTransaction>, key: spec_fn(SignedTransaction) -> int) -> Seq<
    SignedTransaction,
> {
    arrangement(s.to_multiset(), key)
}

/// The transactions counted by `ms` in a sequence strictly ascending by `key`.
pub open spec fn arrangement(ms: vstd::multiset::Multiset<SignedTransaction>, key: spec_fn(SignedTransaction) -> int) -> Seq<
    SignedTransaction,
> {
    choose|t: Seq<SignedTransaction>| ordered_by(t, key) && t.to_multiset() == ms
}

pub open spec fn by_id() -> spec_fn(SignedTransaction) -> int {
    |tx: SignedTransaction| id_value(tx)
}

pub open spec fn by_nonce() -> spec_fn(SignedTransaction) -> int {
    |tx: SignedTransaction| nonce_value(tx)
}

/// No two transactions of one sender carry the same nonce.
pub open spec fn slots_distinct(s: Seq<SignedTransaction>) -> bool {
    forall|i: int, j: int|
        0 <= i < j < s.len() ==> !(tx_sender(#[trigger] s[i]) == tx_sender(#[trigger] s[j])
            && s[i].payload.nonce == s[j].payload.nonce)
}

/// The transactions of `s` sent by `sender`, in the order of `s`.
pub open spec fn sender_queue(s: Seq<SignedTransaction>, sender: Seq<u8>) -> Seq<SignedTransaction>
    decreases s.len(),
{
    if s.len() == 0 {
        Seq::empty()
    } else {
        let rest = sender_queue(s.drop_last(), sender);
        if tx_sender(s.last()) == sender {
            rest.push(s.last())
        } else {
            rest
        }
    }
}

/// Two sequences, each strictly ascending by the same key, with the same
/// elements are equal.
pub proof fn lemma_arranged_unique(
    a: Seq<SignedTransaction>,
    b: Seq<SignedTransaction>,
    key: spec_fn(SignedTransaction) -> int,
)
    requires
        ordered_by(a, key),
        ordered_by(b, key),
        a.to_multiset() == b.to_multiset(),
    ensures
        a == b,
    decreases a.len(),
{
    broadcast use vstd::seq_lib::group_to_multiset_ensures;

    assert(a.to_multiset().len() == a.len() && b.to_multiset().len() == b.len());
    if a.len() == 0 {
        assert(a =~= b);
    } else {
        assert(a.contains(a[0]));
        assert(b.to_multiset().count(a[0]) > 0);
        assert(b.contains(a[0]));
        let j = choose|j: int| 0 <= j < b.len() && b[j] == a[0];
        assert(b.contains(b[0]));
        assert(a.to_multiset().count(b[0]) > 0);
        assert(a.contains(b[0]));
        let i = choose|i: int| 0 <= i < a.len() && a[i] == b[0];
        if i > 0 {
            assert(key(a[0]) < key(a[i]));
            if j > 0 {
                assert(key(b[0]) < key(b[j]));
            }
            assert(false);
        }
        let a1 = a.remove(0);
        let b1 = b.remove(0);
        assert(a1.to_multiset() == a.to_multiset().remove(a[0]));
        assert(b1.to_multiset() == b.to_multiset().remove(b[0]));
        assert forall|x: int, y: int| 0 <= x < y < a1.len() implies key(#[trigger] a1[x]) < key(#[trigger] a1[y]) by {
            assert(a1[x] == a[x + 1] && a1[y] == a[y + 1]);
        }
        assert forall|x: int, y: int| 0 <= x < y < b1.len() implies key(#[trigger] b1[x]) < key(#[trigger] b1[y]) by {
            assert(b1[x] == b[x + 1] && b1[y] == b[y + 1]);
        }
        lemma_arranged_unique(a1, b1, key);
        assert(a =~= seq![a[0]] + a1);
        assert(b =~= seq![b[0]] + b1);
    }
}

/// A sequence ascending by `key` is its own arrangement, and so is any
/// other ascending sequence with the same elements.
pub proof fn lemma_arranged_is(
    s: Seq<SignedTransaction>,
    t: Seq<SignedTransaction>,
    key: spec_fn(SignedTransaction) -> int,
)
    requires
        ordered_by(t, key),
        t.to_multiset() == s.to_multiset(),
    ensures
        arranged(s, key) == t,
{
    let a = arranged(s, key);
    assert(ordered_by(a, key) && a.to_multiset() == s.to_multiset());
    lemma_arranged_unique(a, t, key);
}

/// The walk of the admission check: the sender's transactions in nonce
/// order must continue the confirmed nonce without a gap and each must
/// execute on the state the ones before it leave.
pub open spec fn walk(m: Map<Seq<u8>, Account>, expected: u64, s: Seq<SignedTransaction>) -> Option<
    MempoolError,
>
    decreases s.len(),
{
    if s.len() == 0 {
        None
    } else if s[0].payload.nonce.0 != expected {
        Some(MempoolError::NonceGap)
    } else {
        match spec_apply_transaction(m, s[0]) {
            Err(e) => Some(MempoolError::ImpossibleSpend(e)),
            Ok(m1) => if expected == u64::MAX {
                Some(MempoolError::ImpossibleSpend(StateError::NonceOverflow))
            } else {
                walk(m1, (expected + 1) as u64, s.drop_first())
            },
        }
    }
}

/// What the pool holds: its chain and its transactions, ascending by id.
pub ghost struct MempoolView {
    pub chain_id: ChainId,
    pub transactions: Seq<SignedTransaction>,
}

/// Some transaction of `s` has the id `id`.
pub open spec fn holds_id(s: Seq<SignedTransaction>, id: Seq<u8>) -> bool {
    exists|i: int| 0 <= i < s.len() && spec_transaction_id(#[trigger] s[i]) == id
}

/// Some transaction of `s` is sent by `sender` with nonce `nonce`.
pub open spec fn holds_slot(s: Seq<SignedTransaction>, sender: Seq<u8>, nonce: u64) -> bool {
    exists|i: int| 0 <= i < s.len() && tx_sender(#[trigger] s[i]) == sender && s[i].payload.nonce.0 == nonce
}

/// The pool after admitting `tx` against the account map `m`, or why it is refused.
#[verifier::opaque]
pub open spec fn spec_admit(v: MempoolView, tx: SignedTransaction, m: Map<Seq<u8>, Account>) -> Result<
    Seq<SignedTransaction>,
    MempoolError,
> {
    let sender = tx_sender(tx);
    if tx.payload.chain_id != v.chain_id {
        Err(MempoolError::WrongChainId)
    } else if tx.payload.version.0 != 1 {
        Err(MempoolError::UnsupportedTransactionVersion)
    } else if spec_verify_transaction_signature(tx) is Err {
        Err(MempoolError::InvalidSignature)
    } else if holds_id(v.transactions, spec_transaction_id(tx)) {
        Err(MempoolError::DuplicateTransaction)
    } else if !m.dom().contains(sender) {
        Err(MempoolError::SenderAccountNotFound)
    } else if tx.payload.nonce.0 < m[sender].nonce.0 {
        Err(MempoolError::StaleNonce)
    } else if holds_slot(v.transactions, sender, tx.payload.nonce.0) {
        Err(MempoolError::ConflictingNonce)
    } else {
        match walk(m, m[sender].nonce.0, arranged(sender_queue(v.transactions, sender).push(tx), by_nonce())) {
            Some(e) => Err(e),
            None => Ok(arranged(v.transactions.push(tx), by_id())),
        }
    }
}


/// The transactions of `s` sent by `sender` carry distinct nonces, all come
/// from `s`, and all are sent by `sender`.
pub proof fn lemma_sender_queue(s: Seq<SignedTransaction>, sender: Seq<u8>)
    requires
        slots_distinct(s),
    ensures
        forall|k: int| 0 <= k < sender_queue(s, sender).len() ==> tx_sender(#[trigger] sender_queue(s, sender)[k]) == sender,
        forall|k: int| 0 <= k < sender_queue(s, sender).len() ==> s.contains(#[trigger] sender_queue(s, sender)[k]),
        forall|k1: int, k2: int|
            0 <= k1 < k2 < sender_queue(s, sender).len() ==> (#[trigger] sender_queue(s, sender)[k1]).payload.nonce
                != (#[trigger] sender_queue(s, sender)[k2]).payload.nonce,
    decreases s.len(),
{
    if s.len() > 0 {
        let s1 = s.drop_last();
        assert forall|i: int, j: int| 0 <= i < j < s1.len() implies !(tx_sender(#[trigger] s1[i]) == tx_sender(
            #[trigger] s1[j],
        ) && s1[i].payload.nonce == s1[j].payload.nonce) by {
            assert(s1[i] == s[i] && s1[j] == s[j]);
        }
        lemma_sender_queue(s1, sender);
        let q1 = sender_queue(s1, sender);
        let q = sender_queue(s, sender);
        assert forall|k: int| 0 <= k < q.len() implies s.contains(#[trigger] q[k]) by {
            if k < q1.len() {
                assert(q[k] == q1[k]);
                let i = choose|i: int| 0 <= i < s1.len() && s1[i] == q1[k];
                assert(s[i] == q[k]);
            } else {
                assert(s[s.len() - 1] == q[k]);
            }
        }
        if tx_sender(s.last()) == sender {
            assert forall|k1: int, k2: int| 0 <= k1 < k2 < q.len() implies (#[trigger] q[k1]).payload.nonce != (
            #[trigger] q[k2]).payload.nonce by {
                if k2 < q1.len() {
                    assert(q[k1] == q1[k1] && q[k2] == q1[k2]);
                } else {
                    assert(q[k1] == q1[k1]);
                    let i = choose|i: int| 0 <= i < s1.len() && s1[i] == q1[k1];
                    assert(s[i] == q1[k1]);
                    assert(q[k2] == s[s.len() - 1]);
                    assert(tx_sender(s[i]) == sender);
                }
            }
        }
    }
}

/// The sender's transactions of `pool` can be put in strictly ascending
/// nonce order, and in that order they continue the sender's nonce in `m`
/// without a gap, each applying on the state the ones before it leave.
pub open spec fn runs_on_from(m: Map<Seq<u8>, Account>, pool: Seq<SignedTransaction>, sender: Seq<u8>) -> bool {
    let q = sender_queue(pool, sender);
    let a = arranged(q, by_nonce());
    &&& m.dom().contains(sender)
    &&& ordered_by(a, by_nonce())
    &&& a.to_multiset() == q.to_multiset()
    &&& walk(m, m[sender].nonce.0, a) is None
}

/// Every sender's transactions in `pool`, in nonce order, continue the
/// sender's nonce in `m` without a gap, and each applies on the state the
/// ones before it leave.
pub open spec fn runs_on(m: Map<Seq<u8>, Account>, pool: Seq<SignedTransaction>) -> bool {
    forall|sender: Seq<u8>| #[trigger] sender_queue(pool, sender).len() > 0 ==> runs_on_from(m, pool, sender)
}

/// A sender's queue holds that sender's transactions of `s`, as often as `s` does.
proof fn lemma_sender_queue_count(s: Seq<SignedTransaction>, sender: Seq<u8>)
    ensures
        forall|t: SignedTransaction|
            #[trigger] sender_queue(s, sender).to_multiset().count(t) == if tx_sender(t) == sender {
                s.to_multiset().count(t)
            } else {
                0
            },
    decreases s.len(),
{
    broadcast use vstd::seq_lib::group_to_multiset_ensures;

    if s.len() == 0 {
        assert(sender_queue(s, sender) =~= Seq::<SignedTransaction>::empty());
    } else {
        let s1 = s.drop_last();
        let x = s.last();
        lemma_sender_queue_count(s1, sender);
        assert(s =~= s1.push(x));
        assert(s.to_multiset() =~= s1.to_multiset().insert(x));
        let q1 = sender_queue(s1, sender);
        assert forall|t: SignedTransaction| #[trigger] sender_queue(s, sender).to_multiset().count(t) == if tx_sender(t)
            == sender {
            s.to_multiset().count(t)
        } else {
            0
        } by {
            assert(q1.to_multiset().count(t) == if tx_sender(t) == sender {
                s1.to_multiset().count(t)
            } else {
                0
            });
            if tx_sender(x) == sender {
                assert(sender_queue(s, sender) == q1.push(x));
                assert(sender_queue(s, sender).to_multiset() =~= q1.to_multiset().insert(x));
            } else {
                assert(sender_queue(s, sender) == q1);
            }
        }
    }
}

/// Admitting a transaction keeps every sender's transactions running on
/// from the state's nonces.
proof fn lemma_admit_keeps_runs(v: MempoolView, tx: SignedTransaction, m: Map<Seq<u8>, Account>, t: Seq<SignedTransaction>)
    requires
        spec_admit(v, tx, m) == Ok::<Seq<SignedTransaction>, MempoolError>(t),
        t.to_multiset() == v.transactions.to_multiset().insert(tx),
        ordered_by(arranged(sender_queue(v.transactions, tx_sender(tx)).push(tx), by_nonce()), by_nonce()),
        arranged(sender_queue(v.transactions, tx_sender(tx)).push(tx), by_nonce()).to_multiset() == sender_queue(
            v.transactions,
            tx_sender(tx),
        ).push(tx).to_multiset(),
        runs_on(m, v.transactions),
    ensures
        runs_on(m, t),
{
    broadcast use vstd::seq_lib::group_to_multiset_ensures;

    reveal(spec_admit);
    let sender = tx_sender(tx);
    assert forall|x: Seq<u8>| #[trigger] sender_queue(t, x).len() > 0 implies runs_on_from(m, t, x) by {
        lemma_sender_queue_count(t, x);
        lemma_sender_queue_count(v.transactions, x);
        if x == sender {
            let q = sender_queue(v.transactions, x).push(tx);
            assert(sender_queue(t, x).to_multiset() =~= q.to_multiset());
        } else {
            let q = sender_queue(v.transactions, x);
            assert(sender_queue(t, x).to_multiset() =~= q.to_multiset());
            assert(q.len() == q.to_multiset().len());
            assert(sender_queue(t, x).len() == sender_queue(t, x).to_multiset().len());
        }
    }
}

/// The state a walk of `s` ends on, when it gets through.
pub open spec fn walk_state(m: Map<Seq<u8>, Account>, s: Seq<SignedTransaction>) -> Map<Seq<u8>, Account>
    decreases s.len(),
{
    if s.len() == 0 {
        m
    } else {
        match spec_apply_transaction(m, s[0]) {
            Ok(m1) => walk_state(m1, s.drop_first()),
            Err(_) => m,
        }
    }
}

/// A walk that gets through sees the nonces `expected`, `expected + 1`, ...;
/// one more transaction is then checked on the state it ends on.
proof fn lemma_walk_through(m: Map<Seq<u8>, Account>, expected: u64, s: Seq<SignedTransaction>, t: SignedTransaction)
    requires
        walk(m, expected, s) is None,
    ensures
        forall|i: int| 0 <= i < s.len() ==> (#[trigger] s[i]).payload.nonce.0 == expected + i,
        expected + s.len() <= u64::MAX,
        walk(m, expected, s.push(t)) == walk(walk_state(m, s), (expected + s.len()) as u64, seq![t]),
    decreases s.len(),
{
    if s.len() > 0 {
        let m1 = spec_apply_transaction(m, s[0])->Ok_0;
        lemma_walk_through(m1, (expected + 1) as u64, s.drop_first(), t);
        assert(s.push(t).drop_first() =~= s.drop_first().push(t));
        assert forall|i: int| 0 <= i < s.len() implies (#[trigger] s[i]).payload.nonce.0 == expected + i by {
            if i > 0 {
                assert(s[i] == s.drop_first()[i - 1]);
            }
        }
    } else {
        assert(s.push(t) =~= seq![t]);
    }
}

/// A transaction of `s` from `sender` is in the sender's queue.
proof fn lemma_in_sender_queue(s: Seq<SignedTransaction>, sender: Seq<u8>, x: SignedTransaction)
    requires
        s.contains(x),
        tx_sender(x) == sender,
    ensures
        sender_queue(s, sender).contains(x),
{
    broadcast use vstd::seq_lib::group_to_multiset_ensures;

    lemma_sender_queue_count(s, sender);
    assert(sender_queue(s, sender).to_multiset().count(x) > 0);
}

/// The sender's transactions of a pool that runs on from `m`, in nonce
/// order: nonces `m`'s nonce, `+ 1`, ..., each from the pool.
proof fn lemma_run_of(m: Map<Seq<u8>, Account>, pool: Seq<SignedTransaction>, sender: Seq<u8>) -> (a: Seq<
    SignedTransaction,
>)
    requires
        runs_on(m, pool),
        slots_distinct(pool),
        m.dom().contains(sender),
    ensures
        ordered_by(a, by_nonce()),
        a.to_multiset() == sender_queue(pool, sender).to_multiset(),
        walk(m, m[sender].nonce.0, a) is None,
        forall|i: int| 0 <= i < a.len() ==> (#[trigger] a[i]).payload.nonce.0 == m[sender].nonce.0 + i,
        forall|i: int| 0 <= i < a.len() ==> pool.contains(#[trigger] a[i]) && tx_sender(a[i]) == sender,
        m[sender].nonce.0 + a.len() <= u64::MAX,
{
    broadcast use vstd::seq_lib::group_to_multiset_ensures;

    let q = sender_queue(pool, sender);
    let a = if q.len() > 0 {
        arranged(q, by_nonce())
    } else {
        Seq::<SignedTransaction>::empty()
    };
    if q.len() == 0 {
        assert(q =~= Seq::<SignedTransaction>::empty());
    }
    lemma_walk_through(m, m[sender].nonce.0, a, vstd::pervasive::arbitrary());
    lemma_sender_queue(pool, sender);
    assert forall|i: int| 0 <= i < a.len() implies pool.contains(#[trigger] a[i]) && tx_sender(a[i]) == sender by {
        assert(a.to_multiset().count(a[i]) > 0);
        assert(q.contains(a[i]));
        let k = choose|k: int| 0 <= k < q.len() && q[k] == a[i];
    }
    a
}

/// Appending a transaction whose nonce follows a run keeps it in nonce
/// order: that is the arrangement of the queue with the transaction.
proof fn lemma_arranged_after_run(a: Seq<SignedTransaction>, q: Seq<SignedTransaction>, n0: int, t: SignedTransaction)
    requires
        ordered_by(a, by_nonce()),
        a.to_multiset() == q.to_multiset(),
        forall|i: int| 0 <= i < a.len() ==> (#[trigger] a[i]).payload.nonce.0 == n0 + i,
        t.payload.nonce.0 >= n0 + a.len(),
    ensures
        arranged(q.push(t), by_nonce()) == a.push(t),
{
    broadcast use vstd::seq_lib::group_to_multiset_ensures;

    let b = a.push(t);
    assert forall|i: int, j: int| 0 <= i < j < b.len() implies nonce_value(#[trigger] b[i]) < nonce_value(
        #[trigger] b[j],
    ) by {
        assert(b[i] == a[i]);
        if j < a.len() {
            assert(b[j] == a[j]);
        }
    }
    assert(b.to_multiset() =~= q.push(t).to_multiset());
    lemma_arranged_is(q.push(t), b, by_nonce());
}

/// The run of a sender in a pool starts the run of that sender in every
/// larger pool.
proof fn lemma_run_extends(
    v: Seq<SignedTransaction>,
    v2: Seq<SignedTransaction>,
    sender: Seq<u8>,
    n0: int,
    a1: Seq<SignedTransaction>,
    a2: Seq<SignedTransaction>,
)
    requires
        forall|x: SignedTransaction| #[trigger] v.contains(x) ==> v2.contains(x),
        forall|i: int| 0 <= i < a1.len() ==> v.contains(#[trigger] a1[i]) && tx_sender(a1[i]) == sender,
        forall|i: int| 0 <= i < a1.len() ==> (#[trigger] a1[i]).payload.nonce.0 == n0 + i,
        forall|i: int| 0 <= i < a2.len() ==> (#[trigger] a2[i]).payload.nonce.0 == n0 + i,
        a2.to_multiset() == sender_queue(v2, sender).to_multiset(),
    ensures
        a1.len() <= a2.len(),
        forall|i: int| 0 <= i < a1.len() ==> #[trigger] a2[i] == a1[i],
{
    broadcast use vstd::seq_lib::group_to_multiset_ensures;

    assert forall|i: int| 0 <= i < a1.len() implies i < a2.len() && #[trigger] a2[i] == a1[i] by {
        lemma_in_sender_queue(v2, sender, a1[i]);
        assert(a2.to_multiset().count(a1[i]) > 0);
        assert(a2.contains(a1[i]));
        let j = choose|j: int| 0 <= j < a2.len() && a2[j] == a1[i];
        assert(a2[j].payload.nonce.0 == n0 + j);
    }
    if a1.len() > 0 {
        assert(a2[a1.len() - 1] == a1[a1.len() - 1]);
    }
}

/// A transaction refused for another reason than a nonce gap by a pool
/// whose senders run on from `m` stays refused by every larger such pool of
/// the same chain.
#[verifier::spinoff_prover]
#[verifier::rlimit(60)]
proof fn lemma_refused_stays_refused(
    v: MempoolView,
    v2: MempoolView,
    t: SignedTransaction,
    m: Map<Seq<u8>, Account>,
    e: MempoolError,
)
    requires
        spec_admit(v, t, m) == Err::<Seq<SignedTransaction>, MempoolError>(e),
        e != MempoolError::NonceGap,
        v2.chain_id == v.chain_id,
        forall|x: SignedTransaction| #[trigger] v.transactions.contains(x) ==> v2.transactions.contains(x),
        runs_on(m, v.transactions),
        runs_on(m, v2.transactions),
        slots_distinct(v.transactions),
        slots_distinct(v2.transactions),
    ensures
        spec_admit(v2, t, m) is Err,
{
    reveal(spec_admit);
    let sender = tx_sender(t);
    let id = spec_transaction_id(t);
    if t.payload.chain_id != v2.chain_id || t.payload.version.0 != 1 || spec_verify_transaction_signature(t) is Err
        || holds_id(v2.transactions, id) || !m.dom().contains(sender) || t.payload.nonce.0 < m[sender].nonce.0
        || holds_slot(v2.transactions, sender, t.payload.nonce.0) {
        return;
    }
    assert(!holds_id(v.transactions, id)) by {
        if holds_id(v.transactions, id) {
            let i = choose|i: int| 0 <= i < v.transactions.len() && spec_transaction_id(#[trigger] v.transactions[i]) == id;
            assert(v.transactions.contains(v.transactions[i]));
            let j = choose|j: int| 0 <= j < v2.transactions.len() && v2.transactions[j] == v.transactions[i];
            assert(spec_transaction_id(v2.transactions[j]) == id);
        }
    }
    assert(!holds_slot(v.transactions, sender, t.payload.nonce.0)) by {
        if holds_slot(v.transactions, sender, t.payload.nonce.0) {
            let i = choose|i: int|
                0 <= i < v.transactions.len() && tx_sender(#[trigger] v.transactions[i]) == sender
                    && v.transactions[i].payload.nonce.0 == t.payload.nonce.0;
            assert(v.transactions.contains(v.transactions[i]));
            let j = choose|j: int| 0 <= j < v2.transactions.len() && v2.transactions[j] == v.transactions[i];
            assert(tx_sender(v2.transactions[j]) == sender);
        }
    }
    let n0 = m[sender].nonce.0;
    let q1 = sender_queue(v.transactions, sender);
    let q2 = sender_queue(v2.transactions, sender);
    let a1 = lemma_run_of(m, v.transactions, sender);
    let a2 = lemma_run_of(m, v2.transactions, sender);
    assert(t.payload.nonce.0 >= n0 + a1.len()) by {
        if t.payload.nonce.0 < n0 + a1.len() {
            let i = t.payload.nonce.0 - n0;
            assert(v.transactions.contains(a1[i]));
            let j = choose|j: int| 0 <= j < v.transactions.len() && v.transactions[j] == a1[i];
            assert(tx_sender(v.transactions[j]) == sender && v.transactions[j].payload.nonce.0 == t.payload.nonce.0);
        }
    }
    lemma_arranged_after_run(a1, q1, n0 as int, t);
    lemma_walk_through(m, n0, a1, t);
    lemma_run_extends(v.transactions, v2.transactions, sender, n0 as int, a1, a2);
    if t.payload.nonce.0 != n0 + a1.len() {
        return;
    }
    if a2.len() > a1.len() {
        let k1 = a1.len() as int;
        assert(v2.transactions.contains(a2[k1]));
        let j = choose|j: int| 0 <= j < v2.transactions.len() && v2.transactions[j] == a2[k1];
        assert(tx_sender(v2.transactions[j]) == sender && v2.transactions[j].payload.nonce.0 == t.payload.nonce.0);
        assert(false);
    }
    assert(a2 =~= a1);
    lemma_arranged_after_run(a2, q2, n0 as int, t);
}

/// Every pool of the chain that holds the transactions of `pool`, whose
/// senders run on from `m` and whose sender slots are distinct, refuses `t`.
pub open spec fn refused_beyond(chain_id: ChainId, pool: Seq<SignedTransaction>, t: SignedTransaction, m: Map<
    Seq<u8>,
    Account,
>) -> bool {
    forall|v2: MempoolView|
        v2.chain_id == chain_id && (forall|x: SignedTransaction| #[trigger] pool.contains(x) ==> v2.transactions.contains(x))
            && runs_on(m, v2.transactions) && slots_distinct(v2.transactions) ==> #[trigger] spec_admit(v2, t, m) is Err
}

/// Refusal by every pool holding `pool` carries over to a larger `pool2`.
proof fn lemma_refused_beyond_grows(
    chain_id: ChainId,
    pool: Seq<SignedTransaction>,
    pool2: Seq<SignedTransaction>,
    t: SignedTransaction,
    m: Map<Seq<u8>, Account>,
)
    requires
        refused_beyond(chain_id, pool, t, m),
        forall|x: SignedTransaction| #[trigger] pool.contains(x) ==> pool2.contains(x),
    ensures
        refused_beyond(chain_id, pool2, t, m),
{
    assert forall|v2: MempoolView|
        v2.chain_id == chain_id && (forall|x: SignedTransaction| #[trigger] pool2.contains(x) ==> v2.transactions.contains(x))
            && runs_on(m, v2.transactions) && slots_distinct(v2.transactions) implies #[trigger] spec_admit(v2, t, m) is Err by {
        assert forall|x: SignedTransaction| #[trigger] pool.contains(x) implies v2.transactions.contains(x) by {
            assert(pool2.contains(x));
        }
    }
}

struct PoolEntry {
    id: TransactionId,
    sender: Address,
    transaction: SignedTransaction,
}

impl PoolEntry {
    spec fn ok(&self) -> bool {
        &&& self.id@ == spec_transaction_id(self.transaction)
        &&& self.sender@ == tx_sender(self.transaction)
    }
}

spec fn txs_of(s: Seq<PoolEntry>) -> Seq<SignedTransaction> {
    s.map_values(|e: PoolEntry| e.transaction)
}

/// Transactions waiting for a block, ascending by id.
pub struct Mempool {
    chain_id: ChainId,
    entries: Vec<PoolEntry>,
}

impl View for Mempool {
    type V = MempoolView;

    closed spec fn view(&self) -> MempoolView {
        MempoolView { chain_id: self.chain_id, transactions: txs_of(self.entries@) }
    }
}

spec fn entries_ok(s: Seq<PoolEntry>) -> bool {
    &&& forall|i: int| 0 <= i < s.len() ==> (#[trigger] s[i]).ok()
    &&& ordered_by(txs_of(s), by_id())
    &&& slots_distinct(txs_of(s))
}

/// The queued transactions of one sender, in pool order.
fn queue_of(entries: &Vec<PoolEntry>, sender: &Address) -> (q: Vec<SignedTransaction>)
    requires
        forall|i: int| 0 <= i < entries@.len() ==> (#[trigger] entries@[i]).ok(),
    ensures
        q@ == sender_queue(txs_of(entries@), sender@),
{
    let ghost all = txs_of(entries@);
    let mut q: Vec<SignedTransaction> = Vec::new();
    let mut i: usize = 0;
    while i < entries.len()
        invariant
            all == txs_of(entries@),
            forall|k: int| 0 <= k < entries@.len() ==> (#[trigger] entries@[k]).ok(),
            i <= entries@.len(),
            q@ == sender_queue(all.subrange(0, i as int), sender@),
        decreases entries@.len() - i,
    {
        let ghost pre = all.subrange(0, i as int);
        assert(all.subrange(0, i + 1).drop_last() =~= pre);
        assert(all.subrange(0, i + 1).last() == entries@[i as int].transaction);
        assert(entries@[i as int].ok());
        if entries[i].sender == *sender {
            q.push(entries[i].transaction);
        }
        i += 1;
    }
    assert(all.subrange(0, entries@.len() as int) =~= all);
    q
}

/// Arranges transactions of distinct nonces ascending by nonce.
fn sort_by_nonce(v: Vec<SignedTransaction>) -> (r: Vec<SignedTransaction>)
    requires
        forall|i: int, j: int| 0 <= i < j < v@.len() ==> (#[trigger] v@[i]).payload.nonce != (#[trigger] v@[j]).payload.nonce,
    ensures
        ordered_by(r@, by_nonce()),
        r@.to_multiset() == v@.to_multiset(),
{
    broadcast use vstd::seq_lib::group_to_multiset_ensures;

    let mut out: Vec<SignedTransaction> = Vec::new();
    let mut i: usize = 0;
    while i < v.len()
        invariant
            i <= v@.len(),
            forall|a: int, b: int| 0 <= a < b < v@.len() ==> (#[trigger] v@[a]).payload.nonce != (#[trigger] v@[b]).payload.nonce,
            ordered_by(out@, by_nonce()),
            out@.to_multiset() == v@.subrange(0, i as int).to_multiset(),
            forall|k: int| 0 <= k < out@.len() ==> exists|a: int| 0 <= a < i && #[trigger] v@[a] == #[trigger] out@[k],
        decreases v@.len() - i,
    {
        let x = v[i];
        let mut p: usize = 0;
        while p < out.len() && out[p].payload.nonce.0 < x.payload.nonce.0
            invariant
                p <= out@.len(),
                forall|k: int| 0 <= k < p ==> nonce_value(#[trigger] out@[k]) < nonce_value(x),
            decreases out@.len() - p,
        {
            p += 1;
        }
        proof {
            assert forall|k: int| p <= k < out@.len() implies nonce_value(x) < nonce_value(#[trigger] out@[k]) by {
                let a = choose|a: int| 0 <= a < i && #[trigger] v@[a] == out@[k];
                assert(v@[a].payload.nonce != v@[i as int].payload.nonce);
                if p < out@.len() {
                    assert(nonce_value(out@[p as int]) >= nonce_value(x));
                    if k > p as int {
                        assert(by_nonce()(out@[p as int]) < by_nonce()(out@[k]));
                    }
                }
            }
        }
        let ghost old_out = out@;
        out.insert(p, x);
        proof {
            assert(out@ == old_out.insert(p as int, x));
            assert(v@.subrange(0, i + 1) =~= v@.subrange(0, i as int).push(x));
            vstd::seq_lib::to_multiset_insert(old_out, p as int, x);
            vstd::seq_lib::to_multiset_build(v@.subrange(0, i as int), x);
            assert forall|a: int, b: int| 0 <= a < b < out@.len() implies by_nonce()(#[trigger] out@[a]) < by_nonce()(
                #[trigger] out@[b],
            ) by {
                if b < p {
                    assert(by_nonce()(old_out[a]) < by_nonce()(old_out[b]));
                } else if b == p {
                } else if a < p {
                    assert(out@[b] == old_out[b - 1]);
                } else if a == p {
                    assert(out@[b] == old_out[b - 1]);
                } else {
                    assert(by_nonce()(old_out[a - 1]) < by_nonce()(old_out[b - 1]));
                }
            }
            assert forall|k: int| 0 <= k < out@.len() implies exists|a: int|
                0 <= a < i + 1 && #[trigger] v@[a] == #[trigger] out@[k] by {
                if k < p {
                    let a = choose|a: int| 0 <= a < i && #[trigger] v@[a] == old_out[k];
                    assert(v@[a] == out@[k]);
                } else if k == p {
                    assert(v@[i as int] == out@[k]);
                } else {
                    let a = choose|a: int| 0 <= a < i && #[trigger] v@[a] == old_out[k - 1];
                    assert(v@[a] == out@[k]);
                }
            }
        }
        i += 1;
    }
    assert(v@.subrange(0, v@.len() as int) =~= v@);
    out
}


/// The position of the entry with id `id`, if there is one.
fn find_id(entries: &Vec<PoolEntry>, id: &TransactionId) -> (r: Option<usize>)
    requires
        forall|i: int| 0 <= i < entries@.len() ==> (#[trigger] entries@[i]).ok(),
    ensures
        r is Some <==> holds_id(txs_of(entries@), id@),
        r matches Some(k) ==> k < entries@.len() && entries@[k as int].id@ == id@,
{
    let mut i: usize = 0;
    while i < entries.len()
        invariant
            i <= entries@.len(),
            forall|k: int| 0 <= k < entries@.len() ==> (#[trigger] entries@[k]).ok(),
            forall|k: int| 0 <= k < i ==> (#[trigger] entries@[k]).id@ != id@,
        decreases entries@.len() - i,
    {
        if entries[i].id == *id {
            assert(txs_of(entries@)[i as int] == entries@[i as int].transaction);
            return Some(i);
        }
        i += 1;
    }
    assert forall|k: int| 0 <= k < txs_of(entries@).len() implies spec_transaction_id(#[trigger] txs_of(entries@)[k]) != id@ by {
        assert(entries@[k].ok());
    }
    None
}

/// Whether some entry is sent by `sender` with nonce `nonce`.
fn has_slot(entries: &Vec<PoolEntry>, sender: &Address, nonce: u64) -> (r: bool)
    requires
        forall|i: int| 0 <= i < entries@.len() ==> (#[trigger] entries@[i]).ok(),
    ensures
        r == holds_slot(txs_of(entries@), sender@, nonce),
{
    let mut i: usize = 0;
    while i < entries.len()
        invariant
            i <= entries@.len(),
            forall|k: int| 0 <= k < entries@.len() ==> (#[trigger] entries@[k]).ok(),
            forall|k: int| 0 <= k < i ==> !((#[trigger] entries@[k]).sender@ == sender@ && entries@[k].transaction.payload.nonce.0 == nonce),
        decreases entries@.len() - i,
    {
        if entries[i].sender == *sender && entries[i].transaction.payload.nonce.0 == nonce {
            assert(txs_of(entries@)[i as int] == entries@[i as int].transaction);
            assert(entries@[i as int].ok());
            return true;
        }
        i += 1;
    }
    assert forall|k: int| 0 <= k < txs_of(entries@).len() implies !(tx_sender(#[trigger] txs_of(entries@)[k]) == sender@
        && txs_of(entries@)[k].payload.nonce.0 == nonce) by {
        assert(entries@[k].ok());
    }
    false
}

impl Mempool {
    #[verifier::type_invariant]
    spec fn inv(self) -> bool {
        entries_ok(self.entries@)
    }

    pub fn new(chain_id: ChainId) -> (p: Self)
        ensures
            p@.chain_id == chain_id,
            p@.transactions.len() == 0,
    {
        let p = Mempool { chain_id, entries: Vec::new() };
        assert(txs_of(p.entries@) =~= Seq::<SignedTransaction>::empty());
        p
    }

    pub fn chain_id(&self) -> (r: ChainId)
        ensures
            r == self@.chain_id,
    {
        self.chain_id
    }

    pub fn len(&self) -> (n: usize)
        ensures
            n == self@.transactions.len(),
    {
        self.entries.len()
    }

    pub fn is_empty(&self) -> (r: bool)
        ensures
            r == (self@.transactions.len() == 0),
    {
        self.entries.len() == 0
    }

    pub fn contains(&self, id: &TransactionId) -> (r: bool)
        ensures
            r == holds_id(self@.transactions, id@),
    {
        proof {
            use_type_invariant(self);
        }
        find_id(&self.entries, id).is_some()
    }

    pub fn get(&self, id: &TransactionId) -> (r: Option<&SignedTransaction>)
        ensures
            r is Some <==> holds_id(self@.transactions, id@),
            r matches Some(tx) ==> self@.transactions.contains(*tx) && spec_transaction_id(*tx) == id@,
    {
        proof {
            use_type_invariant(self);
        }
        match find_id(&self.entries, id) {
            Some(k) => {
                assert(self.entries@[k as int].ok());
                assert(self@.transactions[k as int] == self.entries@[k as int].transaction);
                Some(&self.entries[k].transaction)
            },
            None => None,
        }
    }

    /// The transactions of the pool, ascending by id; no two of them take
    /// the same nonce of one sender.
    pub fn transactions(&self) -> (r: Vec<SignedTransaction>)
        ensures
            r@ == self@.transactions,
            ordered_by(r@, by_id()),
            slots_distinct(r@),
    {
        proof {
            use_type_invariant(self);
        }
        let mut r: Vec<SignedTransaction> = Vec::new();
        let mut i: usize = 0;
        while i < self.entries.len()
            invariant
                i <= self.entries@.len(),
                r@ == txs_of(self.entries@).subrange(0, i as int),
            decreases self.entries@.len() - i,
        {
            r.push(self.entries[i].transaction);
            i += 1;
            assert(r@ =~= txs_of(self.entries@).subrange(0, i as int));
        }
        assert(r@ =~= txs_of(self.entries@));
        r
    }

    /// The checks that need no state: chain, version and signature.
    fn validate_static(&self, tx: &SignedTransaction) -> (r: Result<(), MempoolError>)
        ensures
            r == (if tx.payload.chain_id != self@.chain_id {
                Err(MempoolError::WrongChainId)
            } else if tx.payload.version.0 != 1 {
                Err(MempoolError::UnsupportedTransactionVersion)
            } else if spec_verify_transaction_signature(*tx) is Err {
                Err(MempoolError::InvalidSignature)
            } else {
                Ok(())
            }),
    {
        if tx.payload.chain_id.0 != self.chain_id.0 {
            return Err(MempoolError::WrongChainId);
        }
        if tx.payload.version.0 != 1 {
            return Err(MempoolError::UnsupportedTransactionVersion);
        }
        match verify_transaction_signature(tx) {
            Ok(()) => Ok(()),
            Err(_) => Err(MempoolError::InvalidSignature),
        }
    }
}


/// Inserting an entry with a fresh id and a free sender slot at the first
/// position whose id is larger keeps the entries well formed, and gives the
/// arrangement by id of the old transactions with the new one.
#[verifier::spinoff_prover]
#[verifier::rlimit(60)]
proof fn lemma_insert_entry(old: Seq<PoolEntry>, p: int, e: PoolEntry)
    requires
        entries_ok(old),
        e.ok(),
        e.id@.len() == 32,
        forall|i: int| 0 <= i < old.len() ==> (#[trigger] old[i]).id@.len() == 32,
        0 <= p <= old.len(),
        forall|k: int| 0 <= k < p ==> be_value((#[trigger] old[k]).id@) < be_value(e.id@),
        p < old.len() ==> be_value(old[p].id@) >= be_value(e.id@),
        !holds_id(txs_of(old), e.id@),
        !holds_slot(txs_of(old), e.sender@, e.transaction.payload.nonce.0),
    ensures
        entries_ok(old.insert(p, e)),
        txs_of(old.insert(p, e)) == arranged(txs_of(old).push(e.transaction), by_id()),
        txs_of(old.insert(p, e)).to_multiset() == txs_of(old).to_multiset().insert(e.transaction),
{
    broadcast use vstd::seq_lib::group_to_multiset_ensures;

    let new = old.insert(p, e);
    let t_old = txs_of(old);
    let t = txs_of(new);
    assert(t =~= t_old.insert(p, e.transaction));
    assert forall|i: int| 0 <= i < new.len() implies (#[trigger] new[i]).ok() by {
        if i < p {
            assert(new[i] == old[i]);
        } else if i > p {
            assert(new[i] == old[i - 1]);
        }
    }
    assert forall|k: int| p <= k < old.len() implies be_value(e.id@) < be_value((#[trigger] old[k]).id@) by {
        if k > p {
            assert(by_id()(t_old[p]) < by_id()(t_old[k]));
            assert(old[p].ok() && old[k].ok());
        }
        assert(old[k].ok());
        if be_value(old[k].id@) == be_value(e.id@) {
            crate::bytes::lemma_be_value_injective(old[k].id@, e.id@);
            assert(spec_transaction_id(t_old[k]) == e.id@);
        }
    }
    assert forall|a: int, b: int| 0 <= a < b < t.len() implies by_id()(#[trigger] t[a]) < by_id()(#[trigger] t[b]) by {
        assert(new[a].ok() && new[b].ok());
        if b < p {
            assert(t[a] == t_old[a] && t[b] == t_old[b]);
        } else if b == p {
            assert(t[a] == t_old[a]);
            assert(old[a].ok());
        } else if a < p {
            assert(t[a] == t_old[a] && t[b] == t_old[b - 1]);
            assert(old[a].ok() && old[b - 1].ok());
            assert(be_value(e.id@) < be_value(old[b - 1].id@));
        } else if a == p {
            assert(t[b] == t_old[b - 1]);
            assert(old[b - 1].ok());
        } else {
            assert(t[a] == t_old[a - 1] && t[b] == t_old[b - 1]);
        }
    }
    assert forall|a: int, b: int| 0 <= a < b < t.len() implies !(tx_sender(#[trigger] t[a]) == tx_sender(#[trigger] t[b])
        && t[a].payload.nonce == t[b].payload.nonce) by {
        if b < p {
            assert(t[a] == t_old[a] && t[b] == t_old[b]);
        } else if b == p {
            assert(t[a] == t_old[a]);
        } else if a < p {
            assert(t[a] == t_old[a] && t[b] == t_old[b - 1]);
        } else if a == p {
            assert(t[b] == t_old[b - 1]);
        } else {
            assert(t[a] == t_old[a - 1] && t[b] == t_old[b - 1]);
        }
    }
    vstd::seq_lib::to_multiset_insert(t_old, p, e.transaction);
    lemma_arranged_is(t_old.push(e.transaction), t, by_id());
}

impl Mempool {
    /// Admits a transfer: it must be for this chain, of version 1, correctly
    /// signed, new to the pool, from an existing account, not behind the
    /// sender's confirmed nonce and on a free nonce; and the sender's whole
    /// queue with it, in nonce order, must continue the confirmed nonce and
    /// execute against `state`. A refused transaction changes nothing.
    #[verifier::loop_isolation(false)]
    pub fn admit_transaction(&mut self, tx: SignedTransaction, state: &State) -> (r: Result<TransactionId, MempoolError>)
        ensures
            match spec_admit(old(self)@, tx, state@) {
                Ok(t) => r matches Ok(id) && id@ == spec_transaction_id(tx) && final(self)@ == (MempoolView {
                    chain_id: old(self)@.chain_id,
                    transactions: t,
                }),
                Err(e) => r == Err::<TransactionId, MempoolError>(e) && final(self)@ == old(self)@,
            },
            r is Ok ==> final(self)@.transactions.to_multiset() == old(self)@.transactions.to_multiset().insert(tx),
            r is Ok ==> holds_id(final(self)@.transactions, spec_transaction_id(tx)),
            r is Ok ==> ({
                let q = sender_queue(old(self)@.transactions, tx_sender(tx)).push(tx);
                &&& ordered_by(arranged(q, by_nonce()), by_nonce())
                &&& arranged(q, by_nonce()).to_multiset() == q.to_multiset()
            }),
    {
        proof {
            use_type_invariant(&*self);
            reveal(spec_admit);
        }
        match self.validate_static(&tx) {
            Ok(()) => {},
            Err(e) => {
                return Err(e);
            },
        }
        let id = transaction_id(&tx);
        if find_id(&self.entries, &id).is_some() {
            return Err(MempoolError::DuplicateTransaction);
        }
        let sender = derive_address(&tx.payload.sender_public_key);
        let confirmed = match state.nonce(&sender) {
            Ok(n) => n,
            Err(_) => {
                return Err(MempoolError::SenderAccountNotFound);
            },
        };
        if tx.payload.nonce.0 < confirmed.0 {
            return Err(MempoolError::StaleNonce);
        }
        if has_slot(&self.entries, &sender, tx.payload.nonce.0) {
            return Err(MempoolError::ConflictingNonce);
        }
        let ghost all = self@.transactions;
        let mut queue = queue_of(&self.entries, &sender);
        proof {
            lemma_sender_queue(all, sender@);
        }
        let ghost q0 = queue@;
        queue.push(tx);
        proof {
            assert forall|a: int, b: int| 0 <= a < b < queue@.len() implies (#[trigger] queue@[a]).payload.nonce != (
            #[trigger] queue@[b]).payload.nonce by {
                if b < q0.len() {
                    assert(queue@[a] == q0[a] && queue@[b] == q0[b]);
                } else {
                    assert(queue@[a] == q0[a]);
                    assert(tx_sender(q0[a]) == sender@);
                    assert(all.contains(q0[a]));
                    let i = choose|i: int| 0 <= i < all.len() && all[i] == q0[a];
                    assert(tx_sender(all[i]) == sender@);
                }
            }
        }
        let sequence = sort_by_nonce(queue);
        let ghost seq0 = sequence@;
        proof {
            lemma_arranged_is(q0.push(tx), seq0, by_nonce());
        }
        let mut trial = state.duplicate();
        let mut expected = confirmed;
        let mut k: usize = 0;
        assert(seq0.subrange(0, seq0.len() as int) =~= seq0);
        while k < sequence.len()
            invariant
                seq0 == sequence@,
                k <= seq0.len(),
                walk(state@, confirmed.0, seq0) == walk(trial@, expected.0, seq0.subrange(k as int, seq0.len() as int)),
            decreases seq0.len() - k,
        {
            let ghost rest = seq0.subrange(k as int, seq0.len() as int);
            assert(rest[0] == seq0[k as int]);
            assert(rest.drop_first() =~= seq0.subrange(k + 1, seq0.len() as int));
            let queued = sequence[k];
            if queued.payload.nonce.0 != expected.0 {
                return Err(MempoolError::NonceGap);
            }
            let ghost before = trial@;
            match trial.apply_transaction(&queued) {
                Ok(()) => {},
                Err(e) => {
                    return Err(MempoolError::ImpossibleSpend(e));
                },
            }
            expected = match expected.checked_increment() {
                Some(n) => n,
                None => {
                    return Err(MempoolError::ImpossibleSpend(StateError::NonceOverflow));
                },
            };
            k += 1;
        }
        let mut p: usize = 0;
        while p < self.entries.len() && compare_be(self.entries[p].id.as_bytes(), id.as_bytes()) == Comparison::Less
            invariant
                p <= self.entries@.len(),
                forall|j: int| 0 <= j < p ==> be_value((#[trigger] self.entries@[j]).id@) < be_value(id@),
            decreases self.entries@.len() - p,
        {
            p += 1;
        }
        let entry = PoolEntry { id, sender, transaction: tx };
        proof {
            assert forall|i: int| 0 <= i < self.entries@.len() implies (#[trigger] self.entries@[i]).id@.len() == 32 by {}
            lemma_insert_entry(self.entries@, p as int, entry);
        }
        let mut entries: Vec<PoolEntry> = Vec::new();
        proof {
            assert(txs_of(entries@) =~= Seq::<SignedTransaction>::empty());
        }
        std::mem::swap(&mut entries, &mut self.entries);
        entries.insert(p, entry);
        self.entries = entries;
        proof {
            broadcast use vstd::seq_lib::group_to_multiset_ensures;
            let t = self@.transactions;
            assert(t.to_multiset().count(tx) > 0);
            assert(t.contains(tx));
            let i = choose|i: int| 0 <= i < t.len() && t[i] == tx;
            assert(spec_transaction_id(t[i]) == spec_transaction_id(tx));
        }
        Ok(id)
    }
}


/// A transaction is executable on `m` when its sender exists there with
/// exactly the transaction's nonce.
pub open spec fn executable(m: Map<Seq<u8>, Account>, tx: SignedTransaction) -> bool {
    m.dom().contains(tx_sender(tx)) && m[tx_sender(tx)].nonce == tx.payload.nonce
}

/// The first position of `s` whose transaction is executable on `m`.
pub open spec fn first_executable(m: Map<Seq<u8>, Account>, s: Seq<SignedTransaction>) -> Option<int> {
    if exists|i: int| 0 <= i < s.len() && executable(m, #[trigger] s[i]) {
        Some(
            choose|i: int|
                0 <= i < s.len() && executable(m, #[trigger] s[i]) && forall|j: int|
                    0 <= j < i ==> !executable(m, #[trigger] s[j]),
        )
    } else {
        None
    }
}

/// Block candidates from `s` (ascending by id) against `m`, at most `count`
/// of them: repeatedly the first transaction executable on the evolving
/// state is taken out; it is selected when it applies.
#[verifier::opaque]
pub open spec fn select(m: Map<Seq<u8>, Account>, s: Seq<SignedTransaction>, count: nat) -> Seq<SignedTransaction>
    decreases s.len(),
{
    if count == 0 {
        Seq::empty()
    } else {
        match first_executable(m, s) {
            None => Seq::empty(),
            Some(i) => {
                if 0 <= i < s.len() {
                    match spec_apply_transaction(m, s[i]) {
                        Ok(m1) => seq![s[i]] + select(m1, s.remove(i), (count - 1) as nat),
                        Err(_) => select(m, s.remove(i), count),
                    }
                } else {
                    Seq::empty()
                }
            },
        }
    }
}

/// One pass of revalidation: each pending transaction in turn is admitted
/// to the pool; those refused for a nonce gap are deferred, the other
/// refused ones are dropped. Gives the pool and the deferred transactions.
pub open spec fn admit_round(
    chain_id: ChainId,
    pool: Seq<SignedTransaction>,
    m: Map<Seq<u8>, Account>,
    pending: Seq<SignedTransaction>,
) -> (Seq<SignedTransaction>, Seq<SignedTransaction>)
    decreases pending.len(),
{
    if pending.len() == 0 {
        (pool, Seq::empty())
    } else {
        let (t, d) = admit_round(chain_id, pool, m, pending.drop_last());
        let tx = pending.last();
        match spec_admit(MempoolView { chain_id, transactions: t }, tx, m) {
            Ok(t2) => (t2, d),
            Err(MempoolError::NonceGap) => (t, d.push(tx)),
            Err(_) => (t, d),
        }
    }
}

/// Passes of revalidation are repeated on the deferred transactions while
/// a pass admits something and defers something.
pub open spec fn revalidated(
    chain_id: ChainId,
    pool: Seq<SignedTransaction>,
    m: Map<Seq<u8>, Account>,
    pending: Seq<SignedTransaction>,
) -> Seq<SignedTransaction>
    decreases pending.len(),
{
    let (t, d) = admit_round(chain_id, pool, m, pending);
    if d.len() == 0 || d.len() >= pending.len() {
        t
    } else {
        revalidated(chain_id, t, m, d)
    }
}

/// A pass defers no more transactions than it was given.
pub proof fn lemma_admit_round_len(
    chain_id: ChainId,
    pool: Seq<SignedTransaction>,
    m: Map<Seq<u8>, Account>,
    pending: Seq<SignedTransaction>,
)
    ensures
        admit_round(chain_id, pool, m, pending).1.len() <= pending.len(),
    decreases pending.len(),
{
    if pending.len() > 0 {
        lemma_admit_round_len(chain_id, pool, m, pending.drop_last());
    }
}

impl Mempool {
    /// Whether `tx` is executable on `state`.
    fn is_executable(state: &State, tx: &SignedTransaction) -> (r: bool)
        ensures
            r == executable(state@, *tx),
    {
        let sender = derive_address(&tx.payload.sender_public_key);
        match state.nonce(&sender) {
            Ok(n) => n.0 == tx.payload.nonce.0,
            Err(_) => false,
        }
    }

    /// Up to `max_count` transactions for a block on `state`: repeatedly the
    /// lowest id among those executable on the state the selected ones leave.
    pub fn candidates(&self, state: &State, max_count: usize) -> (r: Vec<SignedTransaction>)
        ensures
            r@ == select(state@, self@.transactions, max_count as nat),
    {
        let mut remaining = self.transactions();
        let mut trial = state.duplicate();
        let mut selected: Vec<SignedTransaction> = Vec::new();
        let ghost all = remaining@;
        loop
            invariant
                selected@.len() <= max_count,
                select(state@, all, max_count as nat) == selected@ + select(
                    trial@,
                    remaining@,
                    (max_count - selected@.len()) as nat,
                ),
            ensures
                select(state@, all, max_count as nat) == selected@,
            decreases remaining@.len(),
        {
            if selected.len() >= max_count {
                proof {
                    reveal(select);
                    assert(selected@ + Seq::<SignedTransaction>::empty() =~= selected@);
                }
                break;
            }
            let mut i: usize = 0;
            while i < remaining.len() && !Self::is_executable(&trial, &remaining[i])
                invariant
                    i <= remaining@.len(),
                    forall|j: int| 0 <= j < i ==> !executable(trial@, #[trigger] remaining@[j]),
                decreases remaining@.len() - i,
            {
                i += 1;
            }
            let ghost count = (max_count - selected@.len()) as nat;
            if i == remaining.len() {
                proof {
                    assert(first_executable(trial@, remaining@) is None);
                    reveal(select);
                    assert(select(trial@, remaining@, count) == Seq::<SignedTransaction>::empty());
                    assert(selected@ + Seq::<SignedTransaction>::empty() =~= selected@);
                }
                break;
            }
            proof {
                let c = choose|c: int|
                    0 <= c < remaining@.len() && executable(trial@, #[trigger] remaining@[c]) && forall|j: int|
                        0 <= j < c ==> !executable(trial@, #[trigger] remaining@[j]);
                assert(0 <= i < remaining@.len() && executable(trial@, remaining@[i as int]));
                if c < i {
                    assert(!executable(trial@, remaining@[c]));
                } else if c > i {
                    assert(!executable(trial@, remaining@[i as int]));
                }
                assert(first_executable(trial@, remaining@) == Some(i as int));
            }
            let ghost before = trial@;
            let ghost rest = remaining@;
            let tx = remaining.remove(i);
            match trial.apply_transaction(&tx) {
                Ok(()) => {
                    selected.push(tx);
                    proof {
                        assert(select(before, rest, count) == seq![tx] + select(trial@, remaining@, (count - 1) as nat)) by {
                            reveal(select);
                        }
                    }
                },
                Err(_) => {
                    proof {
                        assert(select(before, rest, count) == select(trial@, remaining@, count)) by {
                            reveal(select);
                        }
                    }
                },
            }
            assert(select(state@, all, max_count as nat) == selected@ + select(
                trial@,
                remaining@,
                (max_count - selected@.len()) as nat,
            ));
        }
        selected
    }

    /// Rebuilds the pool against a canonical state: every transaction is
    /// admitted again, lowest id first, in passes over those refused for a
    /// nonce gap; stale, conflicting and no longer executable ones go. What
    /// stays came from the pool; each sender's transactions that stay, in
    /// nonce order, continue the state's nonce and apply one after the other;
    /// and a transaction that went would be refused if admitted again.
    pub fn revalidate(&mut self, state: &State)
        ensures
            final(self)@ == (MempoolView {
                chain_id: old(self)@.chain_id,
                transactions: revalidated(
                    old(self)@.chain_id,
                    Seq::empty(),
                    state@,
                    old(self)@.transactions,
                ),
            }),
            forall|t: SignedTransaction|
                #[trigger] final(self)@.transactions.contains(t) ==> old(self)@.transactions.contains(t),
            runs_on(state@, final(self)@.transactions),
            forall|t: SignedTransaction|
                #[trigger] old(self)@.transactions.contains(t) && !final(self)@.transactions.contains(t) ==> spec_admit(
                    final(self)@,
                    t,
                    state@,
                ) is Err,
    {
        let chain_id = self.chain_id;
        let pending = self.transactions();
        let mut fresh = Mempool::new(chain_id);
        std::mem::swap(self, &mut fresh);
        assert(self@.transactions =~= Seq::<SignedTransaction>::empty());
        assert forall|x: Seq<u8>| #[trigger] sender_queue(self@.transactions, x).len() == 0 by {}
        self.readmit(pending, state);
    }

    /// Admits `pending` in order, in passes over those refused for a nonce
    /// gap, while a pass admits something and defers something.
    pub fn readmit(&mut self, pending: Vec<SignedTransaction>, state: &State)
        ensures
            final(self)@ == (MempoolView {
                chain_id: old(self)@.chain_id,
                transactions: revalidated(old(self)@.chain_id, old(self)@.transactions, state@, pending@),
            }),
            forall|t: SignedTransaction|
                #[trigger] final(self)@.transactions.contains(t) ==> old(self)@.transactions.contains(t)
                    || pending@.contains(t),
            runs_on(state@, old(self)@.transactions) ==> runs_on(state@, final(self)@.transactions),
            runs_on(state@, old(self)@.transactions) ==> forall|t: SignedTransaction|
                #[trigger] pending@.contains(t) && !final(self)@.transactions.contains(t) ==> spec_admit(
                    final(self)@,
                    t,
                    state@,
                ) is Err,
    {
        let chain_id = self.chain_id;
        let ghost initial = pending@;
        let ghost runs = runs_on(state@, old(self)@.transactions);
        let mut pending = pending;
        loop
            invariant_except_break
                self@.chain_id == chain_id,
                chain_id == old(self)@.chain_id,
                forall|t: SignedTransaction| #[trigger] pending@.contains(t) ==> initial.contains(t),
                runs ==> forall|t: SignedTransaction|
                    #[trigger] initial.contains(t) ==> self@.transactions.contains(t) || pending@.contains(t)
                        || refused_beyond(chain_id, self@.transactions, t, state@),
                revalidated(chain_id, old(self)@.transactions, state@, initial) == revalidated(
                    chain_id,
                    self@.transactions,
                    state@,
                    pending@,
                ),
            invariant
                forall|t: SignedTransaction|
                    #[trigger] self@.transactions.contains(t) ==> old(self)@.transactions.contains(t) || initial.contains(t),
                runs_on(state@, old(self)@.transactions) ==> runs_on(state@, self@.transactions),
                runs == runs_on(state@, old(self)@.transactions),
            ensures
                self@.chain_id == chain_id,
                self@.transactions == revalidated(chain_id, old(self)@.transactions, state@, initial),
                runs ==> forall|t: SignedTransaction|
                    #[trigger] initial.contains(t) && !self@.transactions.contains(t) ==> spec_admit(self@, t, state@) is Err,
            decreases pending@.len(),
        {
            let before = pending.len();
            let ghost start = self@.transactions;
            let ghost start_view = self@;
            let mut deferred: Vec<SignedTransaction> = Vec::new();
            assert(pending@.subrange(0, pending@.len() as int) =~= pending@);
            let mut j: usize = 0;
            while j < pending.len()
                invariant
                    self@.chain_id == chain_id,
                    j <= pending@.len(),
                    forall|t: SignedTransaction| #[trigger] deferred@.contains(t) ==> pending@.contains(t),
                    forall|t: SignedTransaction| #[trigger] pending@.contains(t) ==> initial.contains(t),
                    forall|t: SignedTransaction|
                        #[trigger] self@.transactions.contains(t) ==> old(self)@.transactions.contains(t) || initial.contains(
                            t,
                        ),
                    runs_on(state@, old(self)@.transactions) ==> runs_on(state@, self@.transactions),
                    runs == runs_on(state@, old(self)@.transactions),
                    start_view.chain_id == chain_id,
                    start_view.transactions == start,
                    forall|x: SignedTransaction| #[trigger] start.contains(x) ==> self@.transactions.contains(x),
                    deferred@.len() <= j,
                    deferred@.len() == j ==> self@ == start_view && forall|t: SignedTransaction|
                        #[trigger] deferred@.contains(t) ==> spec_admit(start_view, t, state@) == Err::<
                            Seq<SignedTransaction>,
                            MempoolError,
                        >(MempoolError::NonceGap),
                    runs ==> forall|t: SignedTransaction|
                        #[trigger] initial.contains(t) ==> self@.transactions.contains(t) || deferred@.contains(t)
                            || pending@.subrange(j as int, pending@.len() as int).contains(t) || refused_beyond(
                            chain_id,
                            self@.transactions,
                            t,
                            state@,
                        ),
                    (self@.transactions, deferred@) == admit_round(
                        chain_id,
                        start,
                        state@,
                        pending@.subrange(0, j as int),
                    ),
                decreases pending@.len() - j,
            {
                let tx = pending[j];
                let ghost pre = pending@.subrange(0, j as int);
                let ghost before_view = self@;
                assert(pending@.subrange(0, j + 1).drop_last() =~= pre);
                assert(pending@.contains(tx));
                let ghost held_before = deferred@;
                proof {
                    use_type_invariant(&*self);
                }
                let admitted = self.admit_transaction(tx, state);
                proof {
                    broadcast use vstd::seq_lib::group_to_multiset_ensures;

                    use_type_invariant(&*self);
                    if admitted is Ok {
                        assert forall|t: SignedTransaction| #[trigger] self@.transactions.contains(t) implies before_view.transactions.contains(
                            t,
                        ) || t == tx by {
                            assert(self@.transactions.to_multiset().count(t) > 0);
                        }
                        assert forall|t: SignedTransaction| #[trigger] before_view.transactions.contains(t) implies self@.transactions.contains(
                            t,
                        ) by {
                            assert(before_view.transactions.to_multiset().count(t) > 0);
                            assert(self@.transactions.to_multiset().count(t) > 0);
                        }
                        assert(self@.transactions.to_multiset().count(tx) > 0);
                        if runs_on(state@, before_view.transactions) {
                            lemma_admit_keeps_runs(before_view, tx, state@, self@.transactions);
                        }
                    }
                    if runs {
                        if let Err(e) = admitted {
                            if e != MempoolError::NonceGap {
                                assert forall|v2: MempoolView|
                                    v2.chain_id == chain_id && (forall|x: SignedTransaction| #[trigger] self@.transactions.contains(x)
                                        ==> v2.transactions.contains(x)) && runs_on(state@, v2.transactions) && slots_distinct(
                                        v2.transactions,
                                    ) implies #[trigger] spec_admit(v2, tx, state@) is Err by {
                                    lemma_refused_stays_refused(self@, v2, tx, state@, e);
                                }
                                assert(refused_beyond(chain_id, self@.transactions, tx, state@));
                            }
                        }
                    }
                }
                match admitted {
                    Ok(_) => {},
                    Err(MempoolError::NonceGap) => {
                        let ghost held = deferred@;
                        deferred.push(tx);
                        assert forall|t: SignedTransaction| #[trigger] deferred@.contains(t) implies pending@.contains(t) by {
                            if t != tx {
                                let k = choose|k: int| 0 <= k < deferred@.len() && deferred@[k] == t;
                                assert(held[k] == t);
                                assert(held.contains(t));
                            }
                        }
                    },
                    Err(_) => {},
                }
                proof {
                    let rest = pending@.subrange(j as int, pending@.len() as int);
                    let rest2 = pending@.subrange(j + 1, pending@.len() as int);
                    assert forall|t: SignedTransaction| #[trigger] rest.contains(t) && t != tx implies rest2.contains(t) by {
                        let k = choose|k: int| 0 <= k < rest.len() && rest[k] == t;
                        assert(k != 0);
                        assert(rest2[k - 1] == t);
                    }
                    assert(admitted matches Err(MempoolError::NonceGap) ==> deferred@ == held_before.push(tx));
                    assert(!(admitted matches Err(MempoolError::NonceGap)) ==> deferred@ == held_before);
                    assert forall|t: SignedTransaction| #[trigger] held_before.contains(t) implies deferred@.contains(t) by {
                        let k = choose|k: int| 0 <= k < held_before.len() && held_before[k] == t;
                        assert(deferred@[k] == t);
                    }
                    if admitted matches Err(MempoolError::NonceGap) {
                        assert(deferred@[deferred@.len() - 1] == tx);
                        assert(deferred@.contains(tx));
                    }
                    if deferred@.len() == j + 1 {
                        assert(held_before.len() == j);
                        assert(self@ == start_view);
                        assert forall|t: SignedTransaction| #[trigger] deferred@.contains(t) implies spec_admit(
                            start_view,
                            t,
                            state@,
                        ) == Err::<Seq<SignedTransaction>, MempoolError>(MempoolError::NonceGap) by {
                            let k = choose|k: int| 0 <= k < deferred@.len() && deferred@[k] == t;
                            if k < held_before.len() {
                                assert(held_before[k] == t);
                                assert(held_before.contains(t));
                            }
                        }
                    }
                    if runs {
                        assert forall|t: SignedTransaction| #[trigger] initial.contains(t) implies self@.transactions.contains(t)
                            || deferred@.contains(t) || rest2.contains(t) || refused_beyond(
                            chain_id,
                            self@.transactions,
                            t,
                            state@,
                        ) by {
                            if t != tx && refused_beyond(chain_id, before_view.transactions, t, state@) {
                                lemma_refused_beyond_grows(chain_id, before_view.transactions, self@.transactions, t, state@);
                            }
                        }
                    }
                }
                j += 1;
            }
            proof {
                assert(pending@.subrange(0, pending@.len() as int) =~= pending@);
                lemma_admit_round_len(chain_id, start, state@, pending@);
                use_type_invariant(&*self);
                assert(pending@.subrange(j as int, pending@.len() as int) =~= Seq::<SignedTransaction>::empty());
                if runs && (deferred.len() == 0 || deferred.len() == before) {
                    assert forall|t: SignedTransaction| #[trigger] initial.contains(t) && !self@.transactions.contains(t)
                        implies spec_admit(self@, t, state@) is Err by {
                        if deferred@.contains(t) {
                            assert(deferred@.len() == j);
                        } else {
                            assert(refused_beyond(chain_id, self@.transactions, t, state@));
                        }
                    }
                }
            }
            if deferred.len() == 0 || deferred.len() == before {
                break;
            }
            pending = deferred;
        }
    }
}


/// A transaction for the pool's chain, of version 1, whose signature
/// verifies (as that of every transaction `sign_transaction` gives does),
/// new to the pool, carrying its sender's next nonce while nothing else of
/// the sender waits, and applying on the state, is admitted.
pub proof fn lemma_signed_transfer_admitted(v: MempoolView, tx: SignedTransaction, m: Map<Seq<u8>, Account>)
    requires
        tx.payload.chain_id == v.chain_id,
        tx.payload.version.0 == 1,
        spec_verify_transaction_signature(tx) == Ok::<(), CryptoError>(()),
        !holds_id(v.transactions, spec_transaction_id(tx)),
        m.dom().contains(tx_sender(tx)),
        m[tx_sender(tx)].nonce == tx.payload.nonce,
        tx.payload.nonce.0 < u64::MAX,
        sender_queue(v.transactions, tx_sender(tx)).len() == 0,
        spec_apply_transaction(m, tx) is Ok,
    ensures
        spec_admit(v, tx, m) is Ok,
{
    reveal(spec_admit);
    let sender = tx_sender(tx);
    if holds_slot(v.transactions, sender, tx.payload.nonce.0) {
        let i = choose|i: int|
            0 <= i < v.transactions.len() && tx_sender(#[trigger] v.transactions[i]) == sender
                && v.transactions[i].payload.nonce.0 == tx.payload.nonce.0;
        assert(v.transactions.contains(v.transactions[i]));
        lemma_in_sender_queue(v.transactions, sender, v.transactions[i]);
    }
    let q = sender_queue(v.transactions, sender);
    assert(q =~= Seq::<SignedTransaction>::empty());
    assert(q.push(tx) =~= seq![tx]);
    lemma_arranged_is(q.push(tx), seq![tx], by_nonce());
    let m1 = spec_apply_transaction(m, tx)->Ok_0;
    assert(seq![tx].drop_first() =~= Seq::<SignedTransaction>::empty());
    assert(walk(m1, (tx.payload.nonce.0 + 1) as u64, Seq::<SignedTransaction>::empty()) is None);
}

/// A transaction whose id the pool holds already is refused as a duplicate
/// (once it passes the checks that need no pool).
pub proof fn lemma_duplicate_rejected(v: MempoolView, tx: SignedTransaction, m: Map<Seq<u8>, Account>)
    requires
        tx.payload.chain_id == v.chain_id,
        tx.payload.version.0 == 1,
        spec_verify_transaction_signature(tx) is Ok,
        holds_id(v.transactions, spec_transaction_id(tx)),
    ensures
        spec_admit(v, tx, m) == Err::<Seq<SignedTransaction>, MempoolError>(MempoolError::DuplicateTransaction),
{
    reveal(spec_admit);
}


/// The candidates execute one after the other on the state they were
/// selected against.
pub proof fn lemma_candidates_apply(m: Map<Seq<u8>, Account>, s: Seq<SignedTransaction>, count: nat)
    ensures
        apply_all(m, select(m, s, count)) is Ok,
    decreases s.len(),
{
    reveal(select);
    if count > 0 {
        match first_executable(m, s) {
            None => {},
            Some(i) => {
                if 0 <= i < s.len() {
                    match spec_apply_transaction(m, s[i]) {
                        Ok(m1) => {
                            lemma_candidates_apply(m1, s.remove(i), (count - 1) as nat);
                            let sel = select(m, s, count);
                            assert(sel[0] == s[i]);
                            assert(sel.drop_first() =~= select(m1, s.remove(i), (count - 1) as nat));
                        },
                        Err(_) => {
                            lemma_candidates_apply(m, s.remove(i), count);
                        },
                    }
                }
            },
        }
    }
}


/// At most `count` candidates are selected, each a transaction of `s`.
pub proof fn lemma_candidates_bounded(m: Map<Seq<u8>, Account>, s: Seq<SignedTransaction>, count: nat)
    ensures
        select(m, s, count).len() <= count,
        forall|k: int| 0 <= k < select(m, s, count).len() ==> s.contains(#[trigger] select(m, s, count)[k]),
    decreases s.len(),
{
    reveal(select);
    let sel = select(m, s, count);
    if count > 0 {
        match first_executable(m, s) {
            None => {},
            Some(i) => {
                if 0 <= i < s.len() {
                    let rest = s.remove(i);
                    assert forall|x: SignedTransaction| rest.contains(x) implies s.contains(x) by {
                        let j = choose|j: int| 0 <= j < rest.len() && rest[j] == x;
                        if j < i {
                            assert(s[j] == x);
                        } else {
                            assert(s[j + 1] == x);
                        }
                    }
                    match spec_apply_transaction(m, s[i]) {
                        Ok(m1) => {
                            lemma_candidates_bounded(m1, rest, (count - 1) as nat);
                            let tail = select(m1, rest, (count - 1) as nat);
                            assert(sel == seq![s[i]] + tail);
                            assert forall|k: int| 0 <= k < sel.len() implies s.contains(#[trigger] sel[k]) by {
                                if k == 0 {
                                    assert(sel[0] == s[i]);
                                } else {
                                    assert(sel[k] == tail[k - 1]);
                                    assert(rest.contains(tail[k - 1]));
                                }
                            }
                        },
                        Err(_) => {
                            lemma_candidates_bounded(m, rest, count);
                            assert forall|k: int| 0 <= k < sel.len() implies s.contains(#[trigger] sel[k]) by {
                                assert(rest.contains(sel[k]));
                            }
                        },
                    }
                }
            },
        }
    }
}

/// Taking one transaction out of a sequence ascending by id leaves one
/// ascending by id that no longer holds it.
proof fn lemma_remove_ordered(s: Seq<SignedTransaction>, i: int)
    requires
        ordered_by(s, by_id()),
        0 <= i < s.len(),
    ensures
        ordered_by(s.remove(i), by_id()),
        !s.remove(i).contains(s[i]),
{
    let rest = s.remove(i);
    assert forall|a: int, b: int| 0 <= a < b < rest.len() implies id_value(#[trigger] rest[a]) < id_value(
        #[trigger] rest[b],
    ) by {
        let a1 = if a < i { a } else { a + 1 };
        let b1 = if b < i { b } else { b + 1 };
        assert(rest[a] == s[a1] && rest[b] == s[b1]);
        assert(id_value(s[a1]) < id_value(s[b1]));
    }
    if rest.contains(s[i]) {
        let j = choose|j: int| 0 <= j < rest.len() && rest[j] == s[i];
        let j1 = if j < i { j } else { j + 1 };
        assert(rest[j] == s[j1]);
        if j1 < i {
            assert(id_value(s[j1]) < id_value(s[i]));
        } else {
            assert(id_value(s[i]) < id_value(s[j1]));
        }
    }
}

/// No transaction is selected twice.
#[verifier::spinoff_prover]
#[verifier::rlimit(60)]
pub proof fn lemma_candidates_distinct(m: Map<Seq<u8>, Account>, s: Seq<SignedTransaction>, count: nat)
    requires
        ordered_by(s, by_id()),
    ensures
        select(m, s, count).no_duplicates(),
    decreases s.len(),
{
    reveal(select);
    let sel = select(m, s, count);
    if count > 0 {
        if let Some(i) = first_executable(m, s) {
            if 0 <= i < s.len() {
                let rest = s.remove(i);
                lemma_remove_ordered(s, i);
                match spec_apply_transaction(m, s[i]) {
                    Ok(m1) => {
                        lemma_candidates_distinct(m1, rest, (count - 1) as nat);
                        lemma_candidates_bounded(m1, rest, (count - 1) as nat);
                        let tail = select(m1, rest, (count - 1) as nat);
                        assert(sel == seq![s[i]] + tail);
                        assert forall|a: int, b: int| 0 <= a < b < sel.len() implies sel[a] != sel[b] by {
                            if a == 0 {
                                assert(sel[b] == tail[b - 1]);
                                assert(rest.contains(tail[b - 1]));
                            } else {
                                assert(sel[a] == tail[a - 1] && sel[b] == tail[b - 1]);
                            }
                        }
                    },
                    Err(_) => {
                        lemma_candidates_distinct(m, rest, count);
                    },
                }
            }
        }
    }
}

/// None is selected when no transaction is executable on the state; and the
/// first one selected is the lowest-id transaction executable on the state,
/// when that one applies there.
#[verifier::spinoff_prover]
#[verifier::rlimit(60)]
pub proof fn lemma_candidates_first(m: Map<Seq<u8>, Account>, s: Seq<SignedTransaction>, count: nat)
    requires
        ordered_by(s, by_id()),
    ensures
        (forall|t: SignedTransaction| s.contains(t) ==> !executable(m, t)) ==> select(m, s, count).len() == 0,
        forall|u: SignedTransaction|
            count > 0 && s.contains(u) && #[trigger] executable(m, u) && spec_apply_transaction(m, u) is Ok && (forall|
                t: SignedTransaction,
            | s.contains(t) && executable(m, t) ==> id_value(u) <= id_value(t)) ==> select(m, s, count).len() > 0
                && select(m, s, count)[0] == u,
{
    reveal(select);
    if forall|t: SignedTransaction| s.contains(t) ==> !executable(m, t) {
        assert forall|j: int| 0 <= j < s.len() implies !executable(m, #[trigger] s[j]) by {
            assert(s.contains(s[j]));
        }
        assert(first_executable(m, s) is None);
    }
    assert forall|u: SignedTransaction|
        count > 0 && s.contains(u) && #[trigger] executable(m, u) && spec_apply_transaction(m, u) is Ok && (forall|
            t: SignedTransaction,
        | s.contains(t) && executable(m, t) ==> id_value(u) <= id_value(t)) implies select(m, s, count).len() > 0
            && select(m, s, count)[0] == u by {
        let j = choose|j: int| 0 <= j < s.len() && s[j] == u;
        assert(executable(m, s[j]));
        let i = first_executable(m, s)->Some_0;
        assert(0 <= i < s.len() && executable(m, s[i]) && forall|k: int| 0 <= k < i ==> !executable(m, #[trigger] s[k]));
        assert(i <= j);
        if i < j {
            assert(id_value(s[i]) < id_value(s[j]));
            assert(s.contains(s[i]));
            assert(id_value(u) <= id_value(s[i]));
        }
        assert(s[i] == u);
    }
}

/// Candidates for a smaller count are the first ones of the candidates for
/// a larger count: as many of them as the smaller count allows.
#[verifier::spinoff_prover]
#[verifier::rlimit(60)]
pub proof fn lemma_candidates_prefix(m: Map<Seq<u8>, Account>, s: Seq<SignedTransaction>, c1: nat, c2: nat)
    requires
        c1 <= c2,
    ensures
        select(m, s, c1).len() == (if c1 < select(m, s, c2).len() {
            c1 as int
        } else {
            select(m, s, c2).len() as int
        }),
        select(m, s, c1) == select(m, s, c2).take(select(m, s, c1).len() as int),
    decreases s.len(),
{
    reveal(select);
    let a = select(m, s, c1);
    let b = select(m, s, c2);
    if c1 == 0 {
        assert(a =~= b.take(0));
    } else {
        match first_executable(m, s) {
            None => {},
            Some(i) => {
                if 0 <= i < s.len() {
                    let rest = s.remove(i);
                    match spec_apply_transaction(m, s[i]) {
                        Ok(m1) => {
                            lemma_candidates_prefix(m1, rest, (c1 - 1) as nat, (c2 - 1) as nat);
                            let ta = select(m1, rest, (c1 - 1) as nat);
                            let tb = select(m1, rest, (c2 - 1) as nat);
                            assert(a == seq![s[i]] + ta);
                            assert(b == seq![s[i]] + tb);
                            assert(a =~= b.take(a.len() as int));
                        },
                        Err(_) => {
                            lemma_candidates_prefix(m, rest, c1, c2);
                        },
                    }
                } else {
                    assert(a =~= b.take(0));
                }
            },
        }
    }
}

/// The state that the first `k` of the transactions `r` leave on `m`.
pub open spec fn after_picks(m: Map<Seq<u8>, Account>, r: Seq<SignedTransaction>, k: int) -> Map<Seq<u8>, Account> {
    apply_all(m, r.take(k))->Ok_0
}

/// On every state that the candidates `r` pass through, each transaction
/// of `s` executable there also applies there.
#[verifier::opaque]
pub open spec fn picks_never_fail(m: Map<Seq<u8>, Account>, s: Seq<SignedTransaction>, r: Seq<SignedTransaction>) -> bool {
    forall|k: int, t: SignedTransaction|
        0 <= k <= r.len() && s.contains(t) && #[trigger] executable(after_picks(m, r, k), t)
            ==> spec_apply_transaction(after_picks(m, r, k), t) is Ok
}

/// Applying a first transaction and then the rest is applying the rest on
/// the state the first one leaves.
proof fn lemma_after_picks_step(m: Map<Seq<u8>, Account>, x: SignedTransaction, m1: Map<Seq<u8>, Account>, y: Seq<SignedTransaction>, k: int)
    requires
        spec_apply_transaction(m, x) == Ok::<Map<Seq<u8>, Account>, StateError>(m1),
        0 <= k <= y.len(),
    ensures
        after_picks(m, seq![x] + y, k + 1) == after_picks(m1, y, k),
{
    let r = seq![x] + y;
    assert(r.take(k + 1)[0] == x);
    assert(r.take(k + 1).drop_first() =~= y.take(k));
}

/// Each of the transactions `r` is executable on the state the ones before
/// it leave and has the lowest id among the transactions of `s` not among
/// those before it that are executable there; and there are fewer than
/// `count` of them only when no transaction of `s` left out is executable on
/// the state all of them leave.
#[verifier::opaque]
pub open spec fn lowest_each_step(m: Map<Seq<u8>, Account>, s: Seq<SignedTransaction>, r: Seq<SignedTransaction>, count: nat) -> bool {
    &&& forall|k: int| 0 <= k < r.len() ==> executable(after_picks(m, r, k), #[trigger] r[k])
    &&& forall|k: int, t: SignedTransaction|
        0 <= k < r.len() && s.contains(t) && !r.take(k).contains(t) && #[trigger] executable(after_picks(m, r, k), t)
            ==> id_value(r[k]) <= id_value(t)
    &&& r.len() < count ==> forall|t: SignedTransaction|
        s.contains(t) && !r.contains(t) ==> !#[trigger] executable(after_picks(m, r, r.len() as int), t)
}

/// The facts that carry from the candidates after the first pick to all of them.
proof fn lemma_pick_shift(
    m: Map<Seq<u8>, Account>,
    s: Seq<SignedTransaction>,
    i: int,
    m1: Map<Seq<u8>, Account>,
    tail: Seq<SignedTransaction>,
)
    requires
        0 <= i < s.len(),
        spec_apply_transaction(m, s[i]) == Ok::<Map<Seq<u8>, Account>, StateError>(m1),
    ensures
        forall|k: int| 0 <= k <= tail.len() ==> #[trigger] after_picks(m1, tail, k) == after_picks(m, seq![s[i]] + tail, k + 1),
        forall|x: SignedTransaction| #[trigger] s.remove(i).contains(x) ==> s.contains(x),
        forall|x: SignedTransaction| #[trigger] s.contains(x) && x != s[i] ==> s.remove(i).contains(x),
{
    let rest = s.remove(i);
    assert forall|k: int| 0 <= k <= tail.len() implies #[trigger] after_picks(m1, tail, k) == after_picks(m, seq![s[i]] + tail, k + 1) by {
        lemma_after_picks_step(m, s[i], m1, tail, k);
    }
    assert forall|x: SignedTransaction| #[trigger] rest.contains(x) implies s.contains(x) by {
        let j = choose|j: int| 0 <= j < rest.len() && rest[j] == x;
        if j < i {
            assert(s[j] == x);
        } else {
            assert(s[j + 1] == x);
        }
    }
    assert forall|x: SignedTransaction| #[trigger] s.contains(x) && x != s[i] implies rest.contains(x) by {
        let j = choose|j: int| 0 <= j < s.len() && s[j] == x;
        if j < i {
            assert(rest[j] == x);
        } else {
            assert(rest[j - 1] == x);
        }
    }
}

/// Where the first pick applies, the transactions after it pass through
/// states on which nothing executable fails either.
proof fn lemma_never_fail_tail(
    m: Map<Seq<u8>, Account>,
    s: Seq<SignedTransaction>,
    i: int,
    m1: Map<Seq<u8>, Account>,
    tail: Seq<SignedTransaction>,
)
    requires
        0 <= i < s.len(),
        spec_apply_transaction(m, s[i]) == Ok::<Map<Seq<u8>, Account>, StateError>(m1),
        picks_never_fail(m, s, seq![s[i]] + tail),
    ensures
        picks_never_fail(m1, s.remove(i), tail),
{
    reveal(picks_never_fail);
    lemma_pick_shift(m, s, i, m1, tail);
    let r = seq![s[i]] + tail;
    assert forall|k: int, t: SignedTransaction|
        0 <= k <= tail.len() && s.remove(i).contains(t) && #[trigger] executable(after_picks(m1, tail, k), t)
        implies spec_apply_transaction(after_picks(m1, tail, k), t) is Ok by {
        assert(after_picks(m1, tail, k) == after_picks(m, r, k + 1));
        assert(s.contains(t));
        assert(executable(after_picks(m, r, k + 1), t));
    }
}

/// The step of the law: from the candidates after the first pick to all.
#[verifier::spinoff_prover]
#[verifier::rlimit(60)]
proof fn lemma_lowest_step(
    m: Map<Seq<u8>, Account>,
    s: Seq<SignedTransaction>,
    count: nat,
    i: int,
    m1: Map<Seq<u8>, Account>,
    tail: Seq<SignedTransaction>,
)
    requires
        ordered_by(s, by_id()),
        count > 0,
        0 <= i < s.len(),
        executable(m, s[i]),
        forall|j: int| 0 <= j < i ==> !executable(m, #[trigger] s[j]),
        spec_apply_transaction(m, s[i]) == Ok::<Map<Seq<u8>, Account>, StateError>(m1),
        lowest_each_step(m1, s.remove(i), tail, (count - 1) as nat),
    ensures
        lowest_each_step(m, s, seq![s[i]] + tail, count),
{
    reveal(lowest_each_step);
    lemma_pick_shift(m, s, i, m1, tail);
    let rest = s.remove(i);
    let r = seq![s[i]] + tail;
    assert(r.take(0) =~= Seq::<SignedTransaction>::empty());
    assert(after_picks(m, r, 0) == m);
    assert forall|k: int| 0 <= k < r.len() implies executable(after_picks(m, r, k), #[trigger] r[k]) by {
        if k > 0 {
            assert(r[k] == tail[k - 1]);
            assert(after_picks(m1, tail, k - 1) == after_picks(m, r, k));
        }
    }
    assert forall|k: int, t: SignedTransaction|
        0 <= k < r.len() && s.contains(t) && !r.take(k).contains(t) && #[trigger] executable(after_picks(m, r, k), t)
        implies id_value(r[k]) <= id_value(t) by {
        if k == 0 {
            let j = choose|j: int| 0 <= j < s.len() && s[j] == t;
            assert(executable(m, s[j]));
            assert(i <= j);
            if i < j {
                assert(id_value(s[i]) < id_value(s[j]));
            }
        } else {
            assert(r[k] == tail[k - 1]);
            assert(after_picks(m1, tail, k - 1) == after_picks(m, r, k));
            assert(r.take(k) =~= seq![s[i]] + tail.take(k - 1));
            assert(t != s[i]) by {
                assert(r.take(k)[0] == s[i]);
            }
            assert(rest.contains(t));
            let pre = tail.take(k - 1);
            assert(!pre.contains(t)) by {
                if pre.contains(t) {
                    let q = choose|q: int| 0 <= q < pre.len() && #[trigger] pre[q] == t;
                    assert(r.take(k)[q + 1] == t);
                }
            }
        }
    }
    if r.len() < count {
        assert forall|t: SignedTransaction| s.contains(t) && !r.contains(t) implies !#[trigger] executable(
            after_picks(m, r, r.len() as int),
            t,
        ) by {
            assert(r[0] == s[i]);
            assert(t != s[i]);
            assert(rest.contains(t));
            assert(!tail.contains(t)) by {
                if tail.contains(t) {
                    let q = choose|q: int| 0 <= q < tail.len() && tail[q] == t;
                    assert(r[q + 1] == t);
                }
            }
            assert(after_picks(m1, tail, tail.len() as int) == after_picks(m, r, r.len() as int));
        }
    }
}

/// One step of the selection: the first executable transaction, when it
/// applies, is selected ahead of the selection from the others.
#[verifier::spinoff_prover]
#[verifier::rlimit(60)]
proof fn lemma_select_step(m: Map<Seq<u8>, Account>, s: Seq<SignedTransaction>, count: nat)
    requires
        count > 0,
    ensures
        first_executable(m, s) is None ==> select(m, s, count) == Seq::<SignedTransaction>::empty(),
        first_executable(m, s) matches Some(i) ==> 0 <= i < s.len() && executable(m, s[i]) && (forall|j: int|
            0 <= j < i ==> !executable(m, #[trigger] s[j])) && (spec_apply_transaction(m, s[i]) matches Ok(m1)
            ==> select(m, s, count) == seq![s[i]] + select(m1, s.remove(i), (count - 1) as nat)),
{
    reveal(select);
    if let Some(i) = first_executable(m, s) {
        assert(exists|i: int| 0 <= i < s.len() && executable(m, #[trigger] s[i]));
        let w = choose|w: int| 0 <= w < s.len() && executable(m, #[trigger] s[w]);
        lemma_first_executable_exists(m, s, w);
        assert(0 <= i < s.len() && executable(m, s[i]) && forall|j: int| 0 <= j < i ==> !executable(m, #[trigger] s[j]));
    }
}

/// Some position is the first one executable, when one is.
proof fn lemma_first_executable_exists(m: Map<Seq<u8>, Account>, s: Seq<SignedTransaction>, w: int)
    requires
        0 <= w < s.len(),
        executable(m, s[w]),
    ensures
        exists|i: int|
            0 <= i < s.len() && executable(m, #[trigger] s[i]) && forall|j: int| 0 <= j < i ==> !executable(m, #[trigger] s[j]),
    decreases w,
{
    if exists|j: int| 0 <= j < w && executable(m, #[trigger] s[j]) {
        let j = choose|j: int| 0 <= j < w && executable(m, #[trigger] s[j]);
        lemma_first_executable_exists(m, s, j);
    } else {
        assert(forall|j: int| 0 <= j < w ==> !executable(m, #[trigger] s[j]));
    }
}

/// Where no state the candidates pass through sees an executable
/// transaction fail to apply, the candidates are chosen one by one as the
/// lowest-id executable transaction not yet chosen, and they stop short of
/// `count` only when no transaction left out is executable (see
/// `lowest_each_step`).
#[verifier::spinoff_prover]
#[verifier::rlimit(60)]
pub proof fn lemma_candidates_lowest_each_step(m: Map<Seq<u8>, Account>, s: Seq<SignedTransaction>, count: nat)
    requires
        ordered_by(s, by_id()),
        picks_never_fail(m, s, select(m, s, count)),
    ensures
        lowest_each_step(m, s, select(m, s, count), count),
    decreases s.len(),
{
    let r = select(m, s, count);
    if count == 0 {
        reveal(select);
        reveal(lowest_each_step);
        return;
    }
    lemma_select_step(m, s, count);
    match first_executable(m, s) {
        None => {
            reveal(lowest_each_step);
            assert(r.take(0) =~= Seq::<SignedTransaction>::empty());
            assert forall|t: SignedTransaction| s.contains(t) implies !executable(m, t) by {
                let j = choose|j: int| 0 <= j < s.len() && s[j] == t;
                if executable(m, s[j]) {
                    assert(exists|i: int| 0 <= i < s.len() && executable(m, #[trigger] s[i]));
                }
            }
        },
        Some(i) => {
            assert(spec_apply_transaction(m, s[i]) is Ok) by {
                reveal(picks_never_fail);
                assert(r.take(0) =~= Seq::<SignedTransaction>::empty());
                assert(after_picks(m, r, 0) == m);
                assert(s.contains(s[i]));
                assert(executable(after_picks(m, r, 0), s[i]));
            }
            let m1 = spec_apply_transaction(m, s[i])->Ok_0;
            let rest = s.remove(i);
            lemma_remove_ordered(s, i);
            let tail = select(m1, rest, (count - 1) as nat);
            assert(r == seq![s[i]] + tail);
            lemma_never_fail_tail(m, s, i, m1, tail);
            lemma_candidates_lowest_each_step(m1, rest, (count - 1) as nat);
            lemma_lowest_step(m, s, count, i, m1, tail);
        },
    }
}

/// Candidate selection does not depend on the order in which transactions
/// were admitted: two pools holding the same transactions (each ascending by
/// id, as every pool is) give the same candidates.
pub proof fn lemma_candidates_independent_of_admission_order(
    a: Seq<SignedTransaction>,
    b: Seq<SignedTransaction>,
    m: Map<Seq<u8>, Account>,
    count: nat,
)
    requires
        ordered_by(a, by_id()),
        ordered_by(b, by_id()),
        a.to_multiset() == b.to_multiset(),
    ensures
        select(m, a, count) == select(m, b, count),
{
    lemma_arranged_unique(a, b, by_id());
}

} // verus!
