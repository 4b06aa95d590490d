//! Byte-level building blocks: big-endian integer encodings, the numeric
//! value of a big-endian byte string, and byte-string comparison.
use vstd::prelude::*;

verus! {

/// `256^n`.
pub open spec fn pow256(n: nat) -> nat
    decreases n,
{
    if n == 0 {
        1
    } else {
        256 * pow256((n - 1) as nat)
    }
}

/// The unsigned integer that a big-endian byte string denotes.
pub open spec fn be_value(s: Seq<u8>) -> nat
    decreases s.len(),
{
    if s.len() == 0 {
        0
    } else {
        (s[0] as nat) * pow256((s.len() - 1) as nat) + be_value(s.drop_first())
    }
}

/// Big-endian encoding of a `u16`.
pub open spec fn u16_be(x: u16) -> Seq<u8> {
    seq![(x >> 8u16) as u8, x as u8]
}

/// Big-endian encoding of a `u32`.
pub open spec fn u32_be(x: u32) -> Seq<u8> {
    seq![(x >> 24u32) as u8, (x >> 16u32) as u8, (x >> 8u32) as u8, x as u8]
}

/// Big-endian encoding of a `u64`.
pub open spec fn u64_be(x: u64) -> Seq<u8> {
    seq![
        (x >> 56u64) as u8,
        (x >> 48u64) as u8,
        (x >> 40u64) as u8,
        (x >> 32u64) as u8,
        (x >> 24u64) as u8,
        (x >> 16u64) as u8,
        (x >> 8u64) as u8,
        x as u8,
    ]
}

/// A byte string of `n` zeros.
pub open spec fn zeros(n: nat) -> Seq<u8> {
    Seq::new(n, |i: int| 0u8)
}

pub proof fn lemma_pow256_positive(n: nat)
    ensures
        pow256(n) >= 1,
    decreases n,
{
    if n > 0 {
        lemma_pow256_positive((n - 1) as nat);
    }
}

pub proof fn lemma_pow256_add(a: nat, b: nat)
    ensures
        pow256(a + b) == pow256(a) * pow256(b),
    decreases a,
{
    if a == 0 {
    } else {
        let a1 = (a - 1) as nat;
        lemma_pow256_add(a1, b);
        assert((a + b - 1) as nat == a1 + b);
        assert(pow256(a + b) == 256 * pow256(a1 + b));
        let x = pow256(a1);
        let y = pow256(b);
        assert(256 * (x * y) == (256 * x) * y) by (nonlinear_arith);
    }
}

/// A big-endian string of length `n` denotes a number below `256^n`.
pub proof fn lemma_be_value_bound(s: Seq<u8>)
    ensures
        be_value(s) < pow256(s.len()),
    decreases s.len(),
{
    if s.len() > 0 {
        let p = pow256((s.len() - 1) as nat);
        lemma_be_value_bound(s.drop_first());
        let d = s[0] as nat;
        let r = be_value(s.drop_first());
        assert(d * p + r < 256 * p) by (nonlinear_arith)
            requires
                d <= 255,
                r < p,
        ;
    }
}

/// Leading zeros do not change the value.
pub proof fn lemma_be_value_zeros_prefix(n: nat, s: Seq<u8>)
    ensures
        be_value(zeros(n) + s) == be_value(s),
    decreases n,
{
    if n > 0 {
        let t = zeros(n) + s;
        assert(t.drop_first() =~= zeros((n - 1) as nat) + s);
        lemma_be_value_zeros_prefix((n - 1) as nat, s);
        assert(t[0] == 0u8);
    }
}

/// Value of a concatenation: `be(a ++ b) = be(a) * 256^|b| + be(b)`.
pub proof fn lemma_be_value_concat(a: Seq<u8>, b: Seq<u8>)
    ensures
        be_value(a + b) == be_value(a) * pow256(b.len()) + be_value(b),
    decreases a.len(),
{
    if a.len() == 0 {
        assert(a + b =~= b);
        assert(be_value(a) == 0);
        assert(0 * pow256(b.len()) == 0);
    } else {
        let t = a + b;
        assert(t.drop_first() =~= a.drop_first() + b);
        lemma_be_value_concat(a.drop_first(), b);
        lemma_pow256_add((a.len() - 1) as nat, b.len());
        assert((t.len() - 1) as nat == (a.len() - 1) as nat + b.len());
        let d = a[0] as nat;
        let pa = pow256((a.len() - 1) as nat);
        let pb = pow256(b.len());
        let ra = be_value(a.drop_first());
        let rb = be_value(b);
        assert(t[0] == a[0]);
        assert(be_value(t) == d * pow256((t.len() - 1) as nat) + be_value(t.drop_first()));
        assert(be_value(t) == d * (pa * pb) + (ra * pb + rb));
        assert(d * (pa * pb) + (ra * pb + rb) == (d * pa + ra) * pb + rb) by (nonlinear_arith);
        assert(be_value(a) == d * pa + ra);
    }
}

/// A string of `n` bytes `0xff` denotes `256^n - 1`.
pub proof fn lemma_be_value_all_ones(s: Seq<u8>)
    requires
        forall|i: int| 0 <= i < s.len() ==> s[i] == 0xffu8,
    ensures
        be_value(s) + 1 == pow256(s.len()),
    decreases s.len(),
{
    if s.len() > 0 {
        lemma_be_value_all_ones(s.drop_first());
        let p = pow256((s.len() - 1) as nat);
        assert(255 * p + p == 256 * p);
    }
}

/// If two equally long strings agree before index `i` and differ first at `i`,
/// their order as numbers is the order of the bytes at `i`.
pub proof fn lemma_be_value_first_difference(a: Seq<u8>, b: Seq<u8>, i: int)
    requires
        a.len() == b.len(),
        0 <= i < a.len(),
        forall|j: int| 0 <= j < i ==> a[j] == b[j],
        a[i] < b[i],
    ensures
        be_value(a) < be_value(b),
    decreases i,
{
    let p = pow256((a.len() - 1) as nat);
    if i == 0 {
        lemma_be_value_bound(a.drop_first());
        let da = a[0] as nat;
        let db = b[0] as nat;
        let ra = be_value(a.drop_first());
        let rb = be_value(b.drop_first());
        assert(da * p + ra < db * p + rb) by (nonlinear_arith)
            requires
                da < db,
                ra < p,
        ;
    } else {
        assert forall|j: int| 0 <= j < i - 1 implies a.drop_first()[j] == b.drop_first()[j] by {
            assert(a[j + 1] == b[j + 1]);
        }
        lemma_be_value_first_difference(a.drop_first(), b.drop_first(), i - 1);
        assert(a[0] == b[0]);
    }
}

/// Equally long strings with the same value are equal.
pub proof fn lemma_be_value_injective(a: Seq<u8>, b: Seq<u8>)
    requires
        a.len() == b.len(),
        be_value(a) == be_value(b),
    ensures
        a == b,
    decreases a.len(),
{
    if a.len() > 0 {
        let p = pow256((a.len() - 1) as nat);
        lemma_be_value_bound(a.drop_first());
        lemma_be_value_bound(b.drop_first());
        let da = a[0] as nat;
        let db = b[0] as nat;
        let ra = be_value(a.drop_first());
        let rb = be_value(b.drop_first());
        assert(da == db) by (nonlinear_arith)
            requires
                da * p + ra == db * p + rb,
                ra < p,
                rb < p,
                0 <= ra,
                0 <= rb,
        {
            if da < db {
                assert(da * p + p <= db * p);
            } else if db < da {
                assert(db * p + p <= da * p);
            }
        }
        lemma_be_value_injective(a.drop_first(), b.drop_first());
        assert(a =~= seq![a[0]] + a.drop_first());
        assert(b =~= seq![b[0]] + b.drop_first());
    } else {
        assert(a =~= b);
    }
}

/// Three-way result of comparing two byte strings as big-endian numbers.
#[derive(Debug, Clone, Copy, PartialEq, Eq, Structural)]
pub enum Comparison {
    Less,
    Equal,
    Greater,
}

/// Compares two equally long byte strings as big-endian unsigned numbers
/// (the same order as the lexicographic order of the bytes).
pub fn compare_be(a: &[u8], b: &[u8]) -> (r: Comparison)
    requires
        a@.len() == b@.len(),
    ensures
        r == Comparison::Less <==> be_value(a@) < be_value(b@),
        r == Comparison::Equal <==> a@ == b@,
        r == Comparison::Greater <==> be_value(a@) > be_value(b@),
{
    let mut i: usize = 0;
    while i < a.len()
        invariant
            a@.len() == b@.len(),
            i <= a@.len(),
            forall|j: int| 0 <= j < i ==> a@[j] == b@[j],
        decreases a@.len() - i,
    {
        if a[i] < b[i] {
            proof {
                lemma_be_value_first_difference(a@, b@, i as int);
            }
            assert(a@ != b@) by {
                assert(a@[i as int] != b@[i as int]);
            }
            return Comparison::Less;
        }
        if a[i] > b[i] {
            proof {
                lemma_be_value_first_difference(b@, a@, i as int);
            }
            assert(a@ != b@) by {
                assert(a@[i as int] != b@[i as int]);
            }
            return Comparison::Greater;
        }
        i += 1;
    }
    assert(a@ =~= b@);
    Comparison::Equal
}

/// Equality of two byte strings.
pub fn bytes_eq(a: &[u8], b: &[u8]) -> (r: bool)
    ensures
        r == (a@ == b@),
{
    if a.len() != b.len() {
        return false;
    }
    let mut i: usize = 0;
    while i < a.len()
        invariant
            a@.len() == b@.len(),
            i <= a@.len(),
            forall|j: int| 0 <= j < i ==> a@[j] == b@[j],
        decreases a@.len() - i,
    {
        if a[i] != b[i] {
            return false;
        }
        i += 1;
    }
    assert(a@ =~= b@);
    true
}

/// Appends `bytes` to `out`.
pub fn append_bytes(out: &mut Vec<u8>, bytes: &[u8])
    ensures
        final(out)@ == old(out)@ + bytes@,
{
    let ghost start = out@;
    let mut i: usize = 0;
    while i < bytes.len()
        invariant
            i <= bytes@.len(),
            out@ == start + bytes@.subrange(0, i as int),
        decreases bytes@.len() - i,
    {
        out.push(bytes[i]);
        i += 1;
        assert(out@ =~= start + bytes@.subrange(0, i as int));
    }
    assert(bytes@.subrange(0, bytes@.len() as int) =~= bytes@);
}

/// Appends the big-endian encoding of a `u16`.
pub fn append_u16(out: &mut Vec<u8>, x: u16)
    ensures
        final(out)@ == old(out)@ + u16_be(x),
{
    out.push((x >> 8u16) as u8);
    out.push(x as u8);
    assert(out@ =~= old(out)@ + u16_be(x));
}

/// Appends the big-endian encoding of a `u32`.
pub fn append_u32(out: &mut Vec<u8>, x: u32)
    ensures
        final(out)@ == old(out)@ + u32_be(x),
{
    out.push((x >> 24u32) as u8);
    out.push((x >> 16u32) as u8);
    out.push((x >> 8u32) as u8);
    out.push(x as u8);
    assert(out@ =~= old(out)@ + u32_be(x));
}

/// Appends the big-endian encoding of a `u64`.
pub fn append_u64(out: &mut Vec<u8>, x: u64)
    ensures
        final(out)@ == old(out)@ + u64_be(x),
{
    out.push((x >> 56u64) as u8);
    out.push((x >> 48u64) as u8);
    out.push((x >> 40u64) as u8);
    out.push((x >> 32u64) as u8);
    out.push((x >> 24u64) as u8);
    out.push((x >> 16u64) as u8);
    out.push((x >> 8u64) as u8);
    out.push(x as u8);
    assert(out@ =~= old(out)@ + u64_be(x));
}

proof fn lemma_u16_from_bytes(b0: u8, b1: u8)
    by (bit_vector)
    ensures
        ((((b0 as u16) << 8u16) | (b1 as u16)) >> 8u16) as u8 == b0,
        ((((b0 as u16) << 8u16) | (b1 as u16))) as u8 == b1,
{
}

proof fn lemma_u32_from_bytes(b0: u8, b1: u8, b2: u8, b3: u8)
    by (bit_vector)
    ensures
        ({
            let x = ((b0 as u32) << 24u32) | ((b1 as u32) << 16u32) | ((b2 as u32) << 8u32) | (
            b3 as u32);
            &&& (x >> 24u32) as u8 == b0
            &&& (x >> 16u32) as u8 == b1
            &&& (x >> 8u32) as u8 == b2
            &&& x as u8 == b3
        }),
{
}

proof fn lemma_u64_from_bytes(b0: u8, b1: u8, b2: u8, b3: u8, b4: u8, b5: u8, b6: u8, b7: u8)
    by (bit_vector)
    ensures
        ({
            let x = ((b0 as u64) << 56u64) | ((b1 as u64) << 48u64) | ((b2 as u64) << 40u64) | ((
            b3 as u64) << 32u64) | ((b4 as u64) << 24u64) | ((b5 as u64) << 16u64) | ((b6 as u64)
                << 8u64) | (b7 as u64);
            &&& (x >> 56u64) as u8 == b0
            &&& (x >> 48u64) as u8 == b1
            &&& (x >> 40u64) as u8 == b2
            &&& (x >> 32u64) as u8 == b3
            &&& (x >> 24u64) as u8 == b4
            &&& (x >> 16u64) as u8 == b5
            &&& (x >> 8u64) as u8 == b6
            &&& x as u8 == b7
        }),
{
}

proof fn lemma_u16_be_injective_bv(x: u16, y: u16)
    by (bit_vector)
    requires
        (x >> 8u16) as u8 == (y >> 8u16) as u8,
        x as u8 == y as u8,
    ensures
        x == y,
{
}

proof fn lemma_u32_be_injective_bv(x: u32, y: u32)
    by (bit_vector)
    requires
        (x >> 24u32) as u8 == (y >> 24u32) as u8,
        (x >> 16u32) as u8 == (y >> 16u32) as u8,
        (x >> 8u32) as u8 == (y >> 8u32) as u8,
        x as u8 == y as u8,
    ensures
        x == y,
{
}

proof fn lemma_u64_be_injective_bv(x: u64, y: u64)
    by (bit_vector)
    requires
        (x >> 56u64) as u8 == (y >> 56u64) as u8,
        (x >> 48u64) as u8 == (y >> 48u64) as u8,
        (x >> 40u64) as u8 == (y >> 40u64) as u8,
        (x >> 32u64) as u8 == (y >> 32u64) as u8,
        (x >> 24u64) as u8 == (y >> 24u64) as u8,
        (x >> 16u64) as u8 == (y >> 16u64) as u8,
        (x >> 8u64) as u8 == (y >> 8u64) as u8,
        x as u8 == y as u8,
    ensures
        x == y,
{
}

/// The big-endian encodings are injective.
pub proof fn lemma_be_injective()
    ensures
        forall|x: u16, y: u16| #[trigger] u16_be(x) == #[trigger] u16_be(y) ==> x == y,
        forall|x: u32, y: u32| #[trigger] u32_be(x) == #[trigger] u32_be(y) ==> x == y,
        forall|x: u64, y: u64| #[trigger] u64_be(x) == #[trigger] u64_be(y) ==> x == y,
{
    assert forall|x: u16, y: u16| #[trigger] u16_be(x) == #[trigger] u16_be(y) implies x == y by {
        assert(u16_be(x)[0] == u16_be(y)[0] && u16_be(x)[1] == u16_be(y)[1]);
        lemma_u16_be_injective_bv(x, y);
    }
    assert forall|x: u32, y: u32| #[trigger] u32_be(x) == #[trigger] u32_be(y) implies x == y by {
        assert(u32_be(x)[0] == u32_be(y)[0] && u32_be(x)[1] == u32_be(y)[1]);
        assert(u32_be(x)[2] == u32_be(y)[2] && u32_be(x)[3] == u32_be(y)[3]);
        lemma_u32_be_injective_bv(x, y);
    }
    assert forall|x: u64, y: u64| #[trigger] u64_be(x) == #[trigger] u64_be(y) implies x == y by {
        assert(u64_be(x)[0] == u64_be(y)[0] && u64_be(x)[1] == u64_be(y)[1]);
        assert(u64_be(x)[2] == u64_be(y)[2] && u64_be(x)[3] == u64_be(y)[3]);
        assert(u64_be(x)[4] == u64_be(y)[4] && u64_be(x)[5] == u64_be(y)[5]);
        assert(u64_be(x)[6] == u64_be(y)[6] && u64_be(x)[7] == u64_be(y)[7]);
        lemma_u64_be_injective_bv(x, y);
    }
}

/// Reads a big-endian `u16` at `pos`.
pub fn read_u16(b: &[u8], pos: usize) -> (r: u16)
    requires
        pos + 2 <= b@.len(),
    ensures
        u16_be(r) == b@.subrange(pos as int, pos + 2),
{
    let b0 = b[pos];
    let b1 = b[pos + 1];
    let r = ((b0 as u16) << 8u16) | (b1 as u16);
    proof {
        lemma_u16_from_bytes(b0, b1);
    }
    assert(u16_be(r) =~= b@.subrange(pos as int, pos + 2));
    r
}

/// Reads a big-endian `u32` at `pos`.
pub fn read_u32(b: &[u8], pos: usize) -> (r: u32)
    requires
        pos + 4 <= b@.len(),
    ensures
        u32_be(r) == b@.subrange(pos as int, pos + 4),
{
    let b0 = b[pos];
    let b1 = b[pos + 1];
    let b2 = b[pos + 2];
    let b3 = b[pos + 3];
    let r = ((b0 as u32) << 24u32) | ((b1 as u32) << 16u32) | ((b2 as u32) << 8u32) | (b3 as u32);
    proof {
        lemma_u32_from_bytes(b0, b1, b2, b3);
    }
    assert(u32_be(r) =~= b@.subrange(pos as int, pos + 4));
    r
}

/// Reads a big-endian `u64` at `pos`.
pub fn read_u64(b: &[u8], pos: usize) -> (r: u64)
    requires
        pos + 8 <= b@.len(),
    ensures
        u64_be(r) == b@.subrange(pos as int, pos + 8),
{
    let b0 = b[pos];
    let b1 = b[pos + 1];
    let b2 = b[pos + 2];
    let b3 = b[pos + 3];
    let b4 = b[pos + 4];
    let b5 = b[pos + 5];
    let b6 = b[pos + 6];
    let b7 = b[pos + 7];
    let r = ((b0 as u64) << 56u64) | ((b1 as u64) << 48u64) | ((b2 as u64) << 40u64) | ((
    b3 as u64) << 32u64) | ((b4 as u64) << 24u64) | ((b5 as u64) << 16u64) | ((b6 as u64)
        << 8u64) | (b7 as u64);
    proof {
        lemma_u64_from_bytes(b0, b1, b2, b3, b4, b5, b6, b7);
    }
    assert(u64_be(r) =~= b@.subrange(pos as int, pos + 8));
    r
}

/// The unique string of `n` bytes that denotes `v` (for `v < 256^n`).
pub open spec fn be_bytes(n: nat, v: nat) -> Seq<u8> {
    choose|s: Seq<u8>| s.len() == n && be_value(s) == v
}

/// An `n`-byte string is the `n`-byte encoding of its own value.
pub proof fn lemma_be_bytes_of_value(s: Seq<u8>)
    ensures
        be_bytes(s.len(), be_value(s)) == s,
{
    let t = be_bytes(s.len(), be_value(s));
    assert(s.len() == s.len() && be_value(s) == be_value(s));
    lemma_be_value_injective(t, s);
}

/// Every number below `256^n` has an `n`-byte big-endian form.
proof fn be_witness(n: nat, v: nat) -> (s: Seq<u8>)
    requires
        v < pow256(n),
    ensures
        s.len() == n,
        be_value(s) == v,
    decreases n,
{
    if n == 0 {
        Seq::empty()
    } else {
        let p = pow256((n - 1) as nat);
        lemma_pow256_positive((n - 1) as nat);
        let d = v / p;
        let r = v % p;
        assert(v == d * p + r && r < p && d < 256) by (nonlinear_arith)
            requires
                p >= 1,
                v < 256 * p,
                d == v / p,
                r == v % p,
        ;
        let rest = be_witness((n - 1) as nat, r);
        let s = seq![d as u8] + rest;
        assert(s.drop_first() =~= rest);
        s
    }
}

/// The `n`-byte form of a number below `256^n` denotes it.
pub proof fn lemma_be_bytes_exist(n: nat, v: nat)
    requires
        v < pow256(n),
    ensures
        be_bytes(n, v).len() == n,
        be_value(be_bytes(n, v)) == v,
{
    let s = be_witness(n, v);
    assert(s.len() == n && be_value(s) == v);
}

proof fn lemma_u64_value_bv(x: u64)
    by (bit_vector)
    ensures
        x == ((x >> 56u64) as u8 as u64) * 0x100000000000000u64 + ((x >> 48u64) as u8 as u64)
            * 0x1000000000000u64 + ((x >> 40u64) as u8 as u64) * 0x10000000000u64 + ((x >> 32u64)
            as u8 as u64) * 0x100000000u64 + ((x >> 24u64) as u8 as u64) * 0x1000000u64 + ((x
            >> 16u64) as u8 as u64) * 0x10000u64 + ((x >> 8u64) as u8 as u64) * 0x100u64 + (x as u8
            as u64),
{
}

/// The big-endian encoding of a `u64` denotes it.
pub proof fn lemma_be_value_u64(x: u64)
    ensures
        be_value(u64_be(x)) == x,
{
    let s = u64_be(x);
    assert(pow256(0) == 1);
    assert(pow256(1) == 0x100);
    assert(pow256(2) == 0x10000);
    assert(pow256(3) == 0x1000000);
    assert(pow256(4) == 0x100000000);
    assert(pow256(5) == 0x10000000000);
    assert(pow256(6) == 0x1000000000000);
    assert(pow256(7) == 0x100000000000000);
    let t7 = s.subrange(7, 8);
    let t6 = s.subrange(6, 8);
    let t5 = s.subrange(5, 8);
    let t4 = s.subrange(4, 8);
    let t3 = s.subrange(3, 8);
    let t2 = s.subrange(2, 8);
    let t1 = s.subrange(1, 8);
    assert(t7.drop_first() =~= Seq::<u8>::empty());
    assert(t6.drop_first() =~= t7);
    assert(t5.drop_first() =~= t6);
    assert(t4.drop_first() =~= t5);
    assert(t3.drop_first() =~= t4);
    assert(t2.drop_first() =~= t3);
    assert(t1.drop_first() =~= t2);
    assert(s.drop_first() =~= t1);
    assert(be_value(Seq::<u8>::empty()) == 0);
    assert(be_value(t7) == s[7] as nat);
    assert(be_value(t6) == (s[6] as nat) * 0x100 + be_value(t7));
    assert(be_value(t5) == (s[5] as nat) * 0x10000 + be_value(t6));
    assert(be_value(t4) == (s[4] as nat) * 0x1000000 + be_value(t5));
    assert(be_value(t3) == (s[3] as nat) * 0x100000000 + be_value(t4));
    assert(be_value(t2) == (s[2] as nat) * 0x10000000000 + be_value(t3));
    assert(be_value(t1) == (s[1] as nat) * 0x1000000000000 + be_value(t2));
    assert(be_value(s) == (s[0] as nat) * 0x100000000000000 + be_value(t1));
    lemma_u64_value_bv(x);
}

} // verus!
