//! Proof of work: targets, their retargeting, the work they represent, and mining.
use vstd::prelude::*;
use crate::block::BlockHeader;
use crate::bytes::{
    be_bytes, be_value, compare_be, lemma_be_bytes_of_value, lemma_be_value_concat, lemma_be_value_zeros_prefix, lemma_pow256_add,
    pow256, zeros, Comparison,
};
use crate::hash::{block_hash, spec_block_hash};
use crate::types::{BlockHash, PowNonce, PowTarget};
use crate::wide::{
    lemma_below_2_256, narrow, u512_checked_add, u512_checked_div,
    u512_checked_mul, widen,
};

verus! {

/// Seconds between blocks that the retargeting aims at.
pub const TARGET_BLOCK_TIME: u64 = 10;

/// Blocks between two retargetings.
pub const DIFFICULTY_ADJUSTMENT_INTERVAL: u64 = 10;

/// Seconds one adjustment interval is meant to take.
pub const EXPECTED_TIMESPAN: u64 = 100;

/// Failure to mine a header.
#[derive(Debug, Clone, Copy, PartialEq, Eq, Structural)]
pub enum PowError {
    NonceExhausted,
}

/// The expected work of a target, as a 256-bit big-endian number.
#[derive(Debug, Clone, Copy, Hash)]
pub struct PowWork(pub [u8; 32]);

impl View for PowWork {
    type V = Seq<u8>;

    open spec fn view(&self) -> Seq<u8> {
        self.0@
    }
}

impl PowWork {
    pub fn as_bytes(&self) -> (b: &[u8; 32])
        ensures
            b@ == self@,
    {
        &self.0
    }
}

impl PartialEq for PowWork {
    fn eq(&self, other: &Self) -> (r: bool) {
        crate::bytes::bytes_eq(&self.0, &other.0)
    }
}

impl Eq for PowWork {}

impl vstd::std_specs::cmp::PartialEqSpecImpl for PowWork {
    open spec fn obeys_eq_spec() -> bool {
        true
    }

    open spec fn eq_spec(&self, other: &Self) -> bool {
        self@ == other@
    }
}

/// A hash meets a target when, read as a big-endian number, it does not exceed it.
pub open spec fn meets_target(hash: Seq<u8>, target: Seq<u8>) -> bool {
    be_value(hash) <= be_value(target)
}

pub fn hash_meets_target(hash: &BlockHash, target: &PowTarget) -> (r: bool)
    ensures
        r == meets_target(hash@, target@),
{
    compare_be(hash.as_bytes(), target.as_bytes()) != Comparison::Greater
}

/// A header carries valid proof of work when its hash meets its own target.
pub open spec fn spec_validate_pow(header: BlockHeader) -> bool {
    meets_target(spec_block_hash(header), header.pow_target@)
}

pub fn validate_pow(header: &BlockHeader) -> (r: bool)
    ensures
        r == spec_validate_pow(*header),
{
    let hash = block_hash(header);
    hash_meets_target(&hash, &header.pow_target)
}

/// The measured timespan clamped to a quarter and four times the expected one.
pub open spec fn clamped_timespan(actual: u64) -> nat {
    if actual < EXPECTED_TIMESPAN / 4 {
        (EXPECTED_TIMESPAN / 4) as nat
    } else if actual > EXPECTED_TIMESPAN * 4 {
        (EXPECTED_TIMESPAN * 4) as nat
    } else {
        actual as nat
    }
}

/// The retargeted value: the old target scaled by clamped/expected time,
/// rounded down, and capped at the proof-of-work limit.
pub open spec fn spec_adjusted_target(old: nat, actual: u64, limit: nat) -> nat {
    let scaled = old * clamped_timespan(actual) / (EXPECTED_TIMESPAN as nat);
    if scaled > limit {
        limit
    } else {
        scaled
    }
}

/// The work of a target: `2^256 / (target + 1)`, saturated to 256 bits.
pub open spec fn spec_target_work(target: nat) -> nat {
    let q = pow256(32) / (target + 1);
    if q > (pow256(32) - 1) as nat {
        (pow256(32) - 1) as nat
    } else {
        q
    }
}

/// A small number as a 512-bit big-endian value.
fn small_u512(v: u8) -> (r: [u8; 64])
    ensures
        be_value(r@) == v as nat,
{
    let mut r = [0u8; 64];
    r[63] = v;
    proof {
        assert(r@ =~= zeros(63) + seq![v]);
        lemma_be_value_zeros_prefix(63, seq![v]);
        assert(seq![v].drop_first() =~= Seq::<u8>::empty());
        assert(pow256(0) == 1);
        assert(be_value(Seq::<u8>::empty()) == 0);
        assert(be_value(seq![v]) == (v as nat) * pow256(0) + be_value(Seq::<u8>::empty()));
        assert(be_value(r@) == be_value(seq![v]));
        assert((v as nat) * 1 == v as nat);
        assert(be_value(r@) == v as nat);
    }
    r
}

/// `2^256` as a 512-bit big-endian value.
fn two_pow_256() -> (r: [u8; 64])
    ensures
        be_value(r@) == pow256(32),
{
    let mut r = [0u8; 64];
    r[31] = 1;
    proof {
        let hi = zeros(31) + seq![1u8];
        assert(r@ =~= hi + (zeros(32) + Seq::<u8>::empty()));
        lemma_be_value_zeros_prefix(31, seq![1u8]);
        assert(seq![1u8].drop_first() =~= Seq::<u8>::empty());
        assert(be_value(seq![1u8]) == 1 * pow256(0) + be_value(Seq::<u8>::empty()));
        lemma_be_value_zeros_prefix(32, Seq::<u8>::empty());
        assert((zeros(32) + Seq::<u8>::empty()).len() == 32);
        lemma_be_value_concat(hi, zeros(32) + Seq::<u8>::empty());
        assert(be_value(Seq::<u8>::empty()) == 0);
        assert(be_value(hi) == 1);
        assert(be_value(r@) == 1 * pow256(32) + 0);
    }
    r
}

proof fn lemma_pow256_32_large()
    ensures
        pow256(32) > 400,
        pow256(64) == pow256(32) * pow256(32),
{
    lemma_pow256_add(32, 32);
    lemma_pow256_add(2, 30);
    crate::bytes::lemma_pow256_positive(30);
    assert(pow256(2) == 65536) by {
        assert(pow256(0) == 1);
        assert(pow256(1) == 256);
    }
    assert(pow256(2) * pow256(30) >= 65536) by (nonlinear_arith)
        requires
            pow256(30) >= 1,
            pow256(2) == 65536,
    ;
}

/// Retargets `old` for an interval that took `actual_timespan` seconds.
pub fn adjusted_target(old: PowTarget, actual_timespan: u64, pow_limit: PowTarget) -> (r: PowTarget)
    ensures
        be_value(r@) == spec_adjusted_target(be_value(old@), actual_timespan, be_value(pow_limit@)),
        r@ == be_bytes(32, spec_adjusted_target(be_value(old@), actual_timespan, be_value(pow_limit@))),
{
    let timespan: u64 = if actual_timespan < EXPECTED_TIMESPAN / 4 {
        EXPECTED_TIMESPAN / 4
    } else if actual_timespan > EXPECTED_TIMESPAN * 4 {
        EXPECTED_TIMESPAN * 4
    } else {
        actual_timespan
    };
    let wide_old = widen(&old.0);
    proof {
        lemma_below_2_256(old@);
        lemma_pow256_32_large();
        let o = be_value(old@);
        let p = pow256(32);
        assert(o * (timespan as nat) < pow256(64)) by (nonlinear_arith)
            requires
                o < p,
                timespan <= 400,
                p > 400,
                pow256(64) == p * p,
        ;
    }
    let product = u512_checked_mul(&wide_old, timespan).unwrap();
    let adjusted = u512_checked_div(&product, &small_u512(100)).unwrap();
    let limit = widen(&pow_limit.0);
    let capped = if compare_be(&adjusted, &limit) == Comparison::Greater {
        limit
    } else {
        adjusted
    };
    proof {
        lemma_below_2_256(pow_limit@);
    }
    let r = PowTarget(narrow(&capped));
    proof {
        lemma_be_bytes_of_value(r@);
    }
    r
}

/// The expected number of hashes needed to meet `target`.
pub fn target_work(target: PowTarget) -> (w: PowWork)
    ensures
        be_value(w@) == spec_target_work(be_value(target@)),
        w@ == be_bytes(32, spec_target_work(be_value(target@))),
{
    let t = widen(&target.0);
    proof {
        lemma_below_2_256(target@);
        lemma_pow256_32_large();
        assert(pow256(32) + 1 < pow256(64)) by (nonlinear_arith)
            requires
                pow256(32) > 400,
                pow256(64) == pow256(32) * pow256(32),
        ;
    }
    let t1 = u512_checked_add(&t, &small_u512(1)).unwrap();
    let quotient = u512_checked_div(&two_pow_256(), &t1).unwrap();
    let max = PowTarget::max();
    let wide_max = widen(&max.0);
    proof {
        crate::bytes::lemma_be_value_all_ones(max@);
    }
    let w = if compare_be(&quotient, &wide_max) == Comparison::Greater {
        PowWork(max.0)
    } else {
        PowWork(narrow(&quotient))
    };
    proof {
        lemma_be_bytes_of_value(w@);
    }
    w
}

/// The header with its proof-of-work nonce replaced.
pub open spec fn with_nonce(header: BlockHeader, nonce: u64) -> BlockHeader {
    BlockHeader { pow_nonce: PowNonce(nonce), ..header }
}

/// Tries nonces from zero upwards and returns the header with the first one
/// whose hash meets `target`, together with that hash.
pub fn mine_header(header: BlockHeader, target: &PowTarget) -> (r: Result<(BlockHeader, BlockHash), PowError>)
    ensures
        r matches Ok((mined, hash)) ==> {
            &&& mined == with_nonce(header, mined.pow_nonce.0)
            &&& hash@ == spec_block_hash(mined)
            &&& meets_target(hash@, target@)
            &&& forall|n: u64|
                n < mined.pow_nonce.0 ==> !meets_target(
                    #[trigger] spec_block_hash(with_nonce(header, n)),
                    target@,
                )
        },
        r is Err ==> forall|n: u64|
            !meets_target(#[trigger] spec_block_hash(with_nonce(header, n)), target@),
{
    let mut nonce: u64 = 0;
    loop
        invariant
            forall|n: u64|
                n < nonce ==> !meets_target(#[trigger] spec_block_hash(with_nonce(header, n)), target@),
        decreases u64::MAX - nonce,
    {
        let mut candidate = header;
        candidate.set_pow_nonce(PowNonce::new(nonce));
        let hash = block_hash(&candidate);
        if hash_meets_target(&hash, target) {
            return Ok((candidate, hash));
        }
        if nonce == u64::MAX {
            assert forall|n: u64| !meets_target(#[trigger] spec_block_hash(with_nonce(header, n)), target@) by {
                if n < nonce {
                } else {
                    assert(n == nonce);
                }
            }
            return Err(PowError::NonceExhausted);
        }
        nonce = nonce + 1;
    }
}


/// Retargeting scales the old target by the measured timespan over the
/// expected 100 seconds, rounding down, and caps it at the limit, for every
/// timespan from a quarter (25 s) to four times (400 s) the expected one; a
/// shorter timespan counts as 25 s and a longer one as 400 s.
pub proof fn lemma_adjusted_target_scales(old: nat, actual: u64, limit: nat)
    ensures
        25 <= actual <= 400 ==> spec_adjusted_target(old, actual, limit) == (if old * actual / 100 > limit {
            limit as int
        } else {
            old * actual / 100
        }),
        actual < 25 ==> spec_adjusted_target(old, actual, limit) == spec_adjusted_target(old, 25, limit),
        actual > 400 ==> spec_adjusted_target(old, actual, limit) == spec_adjusted_target(old, 400, limit),
{
}

/// The work of a target `t` is the number of times `t + 1` fits in
/// `2^256`; for the target zero, which would give `2^256`, it is the
/// largest 256-bit value.
pub proof fn lemma_target_work_quotient(t: nat)
    requires
        t < pow256(32),
    ensures
        t >= 1 ==> spec_target_work(t) * (t + 1) <= pow256(32) && pow256(32) < (spec_target_work(t) + 1) * (t + 1),
        t == 0 ==> spec_target_work(t) == pow256(32) - 1,
{
    lemma_pow256_32_large();
    let m = pow256(32) as int;
    let d = (t + 1) as int;
    let q = m / d;
    vstd::arithmetic::div_mod::lemma_fundamental_div_mod(m, d);
    vstd::arithmetic::div_mod::lemma_mod_bound(m, d);
    if t >= 1 {
        assert(q <= m / 2) by {
            vstd::arithmetic::div_mod::lemma_div_is_ordered_by_denominator(m, 2, d);
        }
        assert(m / 2 < m - 1);
        assert(q * d <= m) by (nonlinear_arith)
            requires
                m == d * q + m % d,
                m % d >= 0,
        ;
        assert(m < (q + 1) * d) by (nonlinear_arith)
            requires
                m == d * q + m % d,
                m % d < d,
        ;
    } else {
        assert(d == 1);
        vstd::arithmetic::div_mod::lemma_div_basics(m);
        assert(q == m);
    }
}

/// Every target below `256^32` is worth at least one unit of work.
pub proof fn lemma_target_work_positive(t: nat)
    requires
        t < pow256(32),
    ensures
        spec_target_work(t) >= 1,
{
    lemma_pow256_32_large();
    let m = pow256(32);
    assert(m / (t + 1) >= 1) by (nonlinear_arith)
        requires
            t + 1 <= m,
    ;
}

/// A harder target (a smaller number) is worth at least as much work.
pub proof fn lemma_harder_target_more_work(hard: nat, easy: nat)
    requires
        hard <= easy,
    ensures
        spec_target_work(hard) >= spec_target_work(easy),
{
    vstd::arithmetic::div_mod::lemma_div_is_ordered_by_denominator(
        pow256(32) as int,
        (hard + 1) as int,
        (easy + 1) as int,
    );
}

/// Retargeting stays within the proof-of-work limit, and a slower interval
/// never gives a harder target than a faster one.
pub proof fn lemma_adjusted_target_bounds(old: nat, fast: u64, slow: u64, limit: nat)
    requires
        fast <= slow,
    ensures
        spec_adjusted_target(old, fast, limit) <= limit,
        spec_adjusted_target(old, fast, limit) <= spec_adjusted_target(old, slow, limit),
{
    let cf = clamped_timespan(fast);
    let cs = clamped_timespan(slow);
    assert(cf <= cs);
    vstd::arithmetic::mul::lemma_mul_inequality(cf as int, cs as int, old as int);
    assert(old * cf <= old * cs) by {
        vstd::arithmetic::mul::lemma_mul_is_commutative(old as int, cf as int);
        vstd::arithmetic::mul::lemma_mul_is_commutative(old as int, cs as int);
    }
    vstd::arithmetic::div_mod::lemma_div_is_ordered(
        (old * cf) as int,
        (old * cs) as int,
        EXPECTED_TIMESPAN as int,
    );
}

} // verus!
