//! The mathematical meaning of a limb vector and the facts about it that the
//! limb kernels rely on.
use vstd::arithmetic::div_mod::*;
use vstd::arithmetic::mul::*;
use vstd::arithmetic::power2::*;
use vstd::prelude::*;

verus! {

/// One limb's worth of weight: 2^64.
pub open spec fn limb_base() -> nat {
    0x1_0000_0000_0000_0000nat
}

/// Weight of limb number `i` in a little-endian vector: 2^(64 i).
pub open spec fn limb_weight(i: nat) -> nat {
    pow2(64 * i)
}

/// The natural number denoted by a little-endian limb sequence.
pub open spec fn value_of(s: Seq<u64>) -> nat
    decreases s.len(),
{
    if s.len() == 0 {
        0
    } else {
        value_of(s.drop_last()) + (s.last() as nat) * limb_weight((s.len() - 1) as nat)
    }
}

/// A limb sequence whose top limb is nonzero (the empty sequence is zero).
pub open spec fn is_normalized(s: Seq<u64>) -> bool {
    s.len() == 0 || s.last() != 0
}

pub proof fn lemma_pow2_64()
    ensures
        pow2(64) == limb_base(),
{
    lemma2_to64();
    lemma2_to64_rest();
}

pub proof fn lemma_weight_succ(i: nat)
    ensures
        limb_weight(i + 1) == limb_weight(i) * limb_base(),
        limb_weight(0) == 1,
{
    lemma_pow2_adds(64 * i, 64);
    lemma_pow2_64();
    assert(64 * (i + 1) == 64 * i + 64) by (nonlinear_arith);
    lemma2_to64();
}

pub proof fn lemma_weight_add(i: nat, j: nat)
    ensures
        limb_weight(i + j) == limb_weight(i) * limb_weight(j),
{
    lemma_pow2_adds(64 * i, 64 * j);
    assert(64 * (i + j) == 64 * i + 64 * j) by (nonlinear_arith);
}

pub proof fn lemma_weight_pos(i: nat)
    ensures
        limb_weight(i) > 0,
{
    lemma_pow2_pos(64 * i);
}

pub proof fn lemma_weight_mono(i: nat, j: nat)
    requires
        i <= j,
    ensures
        limb_weight(i) <= limb_weight(j),
{
    if i < j {
        lemma_pow2_strictly_increases(64 * i, 64 * j);
    }
}

/// Appending a limb adds it at the next weight.
pub proof fn lemma_value_push(s: Seq<u64>, x: u64)
    ensures
        value_of(s.push(x)) == value_of(s) + (x as nat) * limb_weight(s.len()),
{
    assert(s.push(x).drop_last() =~= s);
}

/// The prefix of length `i + 1` adds limb `i` to the prefix of length `i`.
pub proof fn lemma_value_take_step(s: Seq<u64>, i: int)
    requires
        0 <= i < s.len(),
    ensures
        value_of(s.take(i + 1)) == value_of(s.take(i)) + (s[i] as nat) * limb_weight(i as nat),
{
    assert(s.take(i + 1).drop_last() =~= s.take(i));
}

pub proof fn lemma_value_take_all(s: Seq<u64>)
    ensures
        value_of(s.take(s.len() as int)) == value_of(s),
{
    assert(s.take(s.len() as int) =~= s);
}

pub proof fn lemma_value_empty()
    ensures
        value_of(Seq::<u64>::empty()) == 0,
{
}

/// A value fits below the weight of its length.
pub proof fn lemma_value_bound(s: Seq<u64>)
    ensures
        value_of(s) < limb_weight(s.len()),
    decreases s.len(),
{
    lemma_weight_succ(0);
    if s.len() > 0 {
        let n = (s.len() - 1) as nat;
        lemma_value_bound(s.drop_last());
        lemma_weight_succ(n);
        let w = limb_weight(n);
        let x = s.last() as nat;
        assert(x * w + w <= limb_base() * w) by (nonlinear_arith)
            requires
                x < limb_base(),
        ;
    }
}

/// Splitting a sequence at `k`: low part plus weighted high part.
pub proof fn lemma_value_split(s: Seq<u64>, k: int)
    requires
        0 <= k <= s.len(),
    ensures
        value_of(s) == value_of(s.take(k)) + limb_weight(k as nat) * value_of(s.skip(k)),
    decreases s.len(),
{
    if k == s.len() {
        assert(s.take(k) =~= s);
        assert(s.skip(k) =~= Seq::<u64>::empty());
    } else {
        let t = s.drop_last();
        lemma_value_split(t, k);
        assert(t.take(k) =~= s.take(k));
        let n = (s.len() - 1) as nat;
        assert(s.skip(k).drop_last() =~= t.skip(k));
        assert(s.skip(k).last() == s.last());
        // value(s.skip(k)) = value(t.skip(k)) + last * W(n - k)
        lemma_weight_add(k as nat, (n - k) as nat);
        let wk = limb_weight(k as nat);
        let wr = limb_weight((n - k) as nat);
        let x = s.last() as nat;
        let vt = value_of(t.skip(k));
        assert(wk * (vt + x * wr) == wk * vt + x * (wk * wr)) by (nonlinear_arith);
    }
}

/// Value of a concatenation.
pub proof fn lemma_value_concat(a: Seq<u64>, b: Seq<u64>)
    ensures
        value_of(a + b) == value_of(a) + limb_weight(a.len()) * value_of(b),
{
    lemma_value_split(a + b, a.len() as int);
    assert((a + b).take(a.len() as int) =~= a);
    assert((a + b).skip(a.len() as int) =~= b);
}

/// High zero limbs do not change the value.
pub proof fn lemma_value_zeros_above(s: Seq<u64>, n: int)
    requires
        0 <= n <= s.len(),
        forall|i: int| n <= i < s.len() ==> s[i] == 0,
    ensures
        value_of(s) == value_of(s.take(n)),
{
    lemma_value_split(s, n);
    lemma_value_all_zero(s.skip(n));
}

/// A sequence of zeros denotes zero.
pub proof fn lemma_value_all_zero(s: Seq<u64>)
    requires
        forall|i: int| 0 <= i < s.len() ==> s[i] == 0,
    ensures
        value_of(s) == 0,
    decreases s.len(),
{
    if s.len() > 0 {
        lemma_value_all_zero(s.drop_last());
    }
}

/// Zero value means all limbs are zero.
pub proof fn lemma_value_zero_limbs(s: Seq<u64>)
    requires
        value_of(s) == 0,
    ensures
        forall|i: int| 0 <= i < s.len() ==> s[i] == 0,
    decreases s.len(),
{
    if s.len() > 0 {
        let n = (s.len() - 1) as nat;
        lemma_weight_pos(n);
        assert((s.last() as nat) * limb_weight(n) == 0);
        lemma_mul_nonzero(s.last() as int, limb_weight(n) as int);
        lemma_value_zero_limbs(s.drop_last());
        assert forall|i: int| 0 <= i < s.len() implies s[i] == 0 by {
            if i < s.len() - 1 {
                assert(s.drop_last()[i] == s[i]);
            }
        }
    }
}

/// A normalized nonempty sequence is at least the weight of its top limb.
pub proof fn lemma_value_lower(s: Seq<u64>)
    requires
        s.len() > 0,
        s.last() != 0,
    ensures
        value_of(s) >= limb_weight((s.len() - 1) as nat),
{
    let n = (s.len() - 1) as nat;
    let x = s.last() as nat;
    let w = limb_weight(n);
    assert(x * w >= w) by (nonlinear_arith)
        requires
            x >= 1,
    ;
}

/// Replacing limb `i` changes the value by the weighted difference.
pub proof fn lemma_value_update(s: Seq<u64>, i: int, x: u64)
    requires
        0 <= i < s.len(),
    ensures
        value_of(s.update(i, x)) + (s[i] as nat) * limb_weight(i as nat) == value_of(s) + (x as nat)
            * limb_weight(i as nat),
{
    let t = s.update(i, x);
    lemma_value_split(s, i + 1);
    lemma_value_split(t, i + 1);
    lemma_value_take_step(s, i);
    lemma_value_take_step(t, i);
    assert(t.take(i) =~= s.take(i));
    assert(t.skip(i + 1) =~= s.skip(i + 1));
}

/// Equal sequences in the value sense when limbs match on a prefix.
pub proof fn lemma_value_take_eq(a: Seq<u64>, b: Seq<u64>, n: int)
    requires
        0 <= n <= a.len(),
        n <= b.len(),
        forall|i: int| 0 <= i < n ==> a[i] == b[i],
    ensures
        value_of(a.take(n)) == value_of(b.take(n)),
{
    assert(a.take(n) =~= b.take(n));
}

/// Comparison of equal-length vectors is decided by the highest differing limb.
pub proof fn lemma_value_lt_at(a: Seq<u64>, b: Seq<u64>, i: int)
    requires
        a.len() == b.len(),
        0 <= i < a.len(),
        forall|j: int| i < j < a.len() ==> a[j] == b[j],
        a[i] < b[i],
    ensures
        value_of(a) < value_of(b),
{
    lemma_value_split(a, i + 1);
    lemma_value_split(b, i + 1);
    assert(a.skip(i + 1) =~= b.skip(i + 1));
    lemma_value_take_step(a, i);
    lemma_value_take_step(b, i);
    lemma_value_bound(a.take(i));
    assert(a.take(i).len() == i);
    let w = limb_weight(i as nat);
    let va = value_of(a.take(i));
    let vb = value_of(b.take(i));
    assert(va + (a[i] as nat) * w < vb + (b[i] as nat) * w) by (nonlinear_arith)
        requires
            va < w,
            (a[i] as nat) + 1 <= (b[i] as nat),
    ;
}

/// Equal-length, limbwise equal sequences have equal values.
pub proof fn lemma_value_ext(a: Seq<u64>, b: Seq<u64>)
    requires
        a =~= b,
    ensures
        value_of(a) == value_of(b),
{
}

/// Two normalized sequences: a shorter one denotes a smaller number.
pub proof fn lemma_value_len_lt(a: Seq<u64>, b: Seq<u64>)
    requires
        is_normalized(b),
        a.len() < b.len(),
    ensures
        value_of(a) < value_of(b),
{
    lemma_value_bound(a);
    lemma_value_lower(b);
    lemma_weight_mono(a.len(), (b.len() - 1) as nat);
}

/// The value of a one-limb sequence.
pub proof fn lemma_value_single(x: u64)
    ensures
        value_of(seq![x]) == x,
{
    let e = Seq::<u64>::empty();
    lemma_value_push(e, x);
    assert(e.push(x) =~= seq![x]);
    lemma_value_empty();
    lemma_weight_succ(0);
    assert(e.len() == 0);
    assert(limb_weight(e.len()) == 1);
    assert(value_of(e) == 0);
    assert(value_of(e.push(x)) == value_of(e) + (x as nat) * limb_weight(e.len()));
    assert((x as nat) * 1 == x);
    assert(value_of(e.push(x)) == x);
}

/// The value of a two-limb sequence.
pub proof fn lemma_value_pair(x: u64, y: u64)
    ensures
        value_of(seq![x, y]) == x + (y as nat) * limb_base(),
{
    assert(seq![x, y].drop_last() =~= seq![x]);
    lemma_value_single(x);
    lemma_weight_succ(0);
}

} // verus!
