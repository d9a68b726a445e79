//! Bernoulli numbers `B_2k` as balls, from exact tangent numbers.
//!
//! The tangent numbers `T_1 = 1, T_2 = 2, T_3 = 16, …` come from Luschny's
//! integer recurrence; then
//! `B_2k = (−1)^(k−1) · 2k · T_k / (2^(2k) · (2^(2k) − 1))`,
//! an exact rational turned into a ball at the requested precision.
use crate::ball::{abs_real, Ball};
use crate::bigint::{Int, INT_LIMBS_MAX};
use crate::dyadic::pow2r;
use crate::elementary::factorial;
use crate::fp::{Float, Round, EXP_SMALL};
use vstd::prelude::*;

verus! {

/// Largest index of a tangent number computed: 2^20.
pub const TANGENT_MAX: usize = 0x10_0000;

/// Entry `j` of Luschny's table after pass `k >= 1`: pass 1 holds
/// `(j − 1)!`, and pass `k` rewrites the entries `j >= k` as
/// `(j − k)·T[j − 1] + (j − k + 2)·T[j]`, left to right.
pub open spec fn luschny(k: nat, j: nat) -> int
    decreases k, j,
{
    if k <= 1 {
        if j == 0 {
            0
        } else {
            factorial((j - 1) as nat) as int
        }
    } else if j < k {
        luschny((k - 1) as nat, j)
    } else {
        (j - k) * luschny(k, (j - 1) as nat) + (j - k + 2) * luschny((k - 1) as nat, j)
    }
}

/// The tangent number `T_j`, the entry `j` of the table once pass `j` is
/// done (later passes leave it alone).
pub open spec fn tangent(j: nat) -> int {
    luschny(j, j)
}

/// Passes after `j` leave entry `j` unchanged.
pub proof fn lemma_luschny_final(k: nat, j: nat)
    requires
        1 <= j <= k,
    ensures
        luschny(k, j) == tangent(j),
    decreases k,
{
    if k > j {
        lemma_luschny_final((k - 1) as nat, j);
    }
}

/// `B_2k` from the tangent number `T_k`.
pub open spec fn bernoulli_value(k: nat) -> real {
    let s = (if k % 2 == 1 {
        1real
    } else {
        -1real
    });
    s * (2 * k * tangent(k)) as real / (pow2r((2 * k) as int) * (pow2r((2 * k) as int) - 1real))
}

/// Tangent numbers `T_1..T_m`: entry `i` of the result is `T_{i+1}`.
pub fn tangent_numbers(m: usize) -> (t: Vec<Int>)
    requires
        1 <= m <= TANGENT_MAX,
    ensures
        t@.len() == m,
        forall|i: int|
            0 <= i < m ==> (#[trigger] t@[i]).wf() && t@[i].value() == tangent((i + 1) as nat)
                && t@[i].nlimbs() <= 6 * m + 3,
{
    let mut t: Vec<Int> = Vec::new();
    t.push(Int::zero());
    t.push(Int::from_u64(1));
    let mut k: usize = 2;
    proof {
        assert(luschny(1, 0) == 0);
        assert(factorial(0) == 1);
        assert(luschny(1, 1) == 1);
    }
    while k <= m
        invariant
            2 <= k <= m + 1,
            m <= TANGENT_MAX,
            t@.len() == k,
            forall|i: int|
                0 <= i < k ==> (#[trigger] t@[i]).wf() && t@[i].value() == luschny(1, i as nat)
                    && t@[i].nlimbs() <= i,
        decreases m + 1 - k,
    {
        let prev = t[k - 1].mul_u64((k - 1) as u64);
        proof {
            let km = (k - 1) as nat;
            assert(luschny(1, k as nat) == factorial(km) as int);
            assert(luschny(1, km) == factorial((km - 1) as nat) as int);
            assert(factorial(km) == km * factorial((km - 1) as nat));
        }
        t.push(prev);
        k = k + 1;
    }
    let mut k: usize = 2;
    while k <= m
        invariant
            2 <= k <= m + 1,
            m <= TANGENT_MAX,
            t@.len() == m + 1,
            forall|i: int|
                0 <= i <= m ==> (#[trigger] t@[i]).wf() && t@[i].value() == luschny((k - 1) as nat, i as nat)
                    && t@[i].nlimbs() <= 3 * (i + k),
        decreases m + 1 - k,
    {
        let mut j: usize = k;
        while j <= m
            invariant
                2 <= k <= j <= m + 1,
                k <= m,
                m <= TANGENT_MAX,
                t@.len() == m + 1,
                forall|i: int|
                    0 <= i < j ==> (#[trigger] t@[i]).wf() && t@[i].value() == luschny(k as nat, i as nat)
                        && t@[i].nlimbs() <= 3 * (i + k + 1),
                forall|i: int|
                    j <= i <= m ==> (#[trigger] t@[i]).wf() && t@[i].value() == luschny((k - 1) as nat, i as nat)
                        && t@[i].nlimbs() <= 3 * (i + k),
            decreases m + 1 - j,
        {
            let a = t[j - 1].mul_u64((j - k) as u64);
            let b = t[j].mul_u64((j - k + 2) as u64);
            let c = a.add(&b);
            proof {
                let x = t@[j - 1];
                let y = t@[j as int];
                assert(x.value() == luschny(k as nat, (j - 1) as nat));
                assert(y.value() == luschny((k - 1) as nat, j as nat));
                assert(a.value() == x.value() * (j - k));
                assert(b.value() == y.value() * (j - k + 2));
                assert(luschny(k as nat, j as nat) == (j - k) * luschny(k as nat, (j - 1) as nat) + (j - k
                    + 2) * luschny((k - 1) as nat, j as nat));
                assert(c.value() == luschny(k as nat, j as nat)) by (nonlinear_arith)
                    requires
                        c.value() == a.value() + b.value(),
                        a.value() == x.value() * (j - k),
                        b.value() == y.value() * (j - k + 2),
                        x.value() == luschny(k as nat, (j - 1) as nat),
                        y.value() == luschny((k - 1) as nat, j as nat),
                        luschny(k as nat, j as nat) == (j - k) * luschny(k as nat, (j - 1) as nat) + (j
                            - k + 2) * luschny((k - 1) as nat, j as nat),
                ;
                assert(x.nlimbs() <= 3 * (j - 1 + k + 1));
                assert(y.nlimbs() <= 3 * (j + k));
            }
            t.set(j, c);
            j = j + 1;
        }
        proof {
            assert forall|i: int| 0 <= i <= m implies (#[trigger] t@[i]).wf() && t@[i].value() == luschny(
                k as nat,
                i as nat,
            ) && t@[i].nlimbs() <= 3 * (i + k + 1) by {
                if i < k {
                }
            }
        }
        k = k + 1;
    }
    let mut out: Vec<Int> = Vec::new();
    let mut i: usize = 1;
    while i <= m
        invariant
            1 <= i <= m + 1,
            m <= TANGENT_MAX,
            t@.len() == m + 1,
            out@.len() == i - 1,
            forall|q: int|
                0 <= q <= m ==> (#[trigger] t@[q]).wf() && t@[q].value() == luschny(m as nat, q as nat)
                    && t@[q].nlimbs() <= 3 * (q + m + 1),
            forall|q: int|
                0 <= q < i - 1 ==> (#[trigger] out@[q]).wf() && out@[q].value() == tangent((q + 1) as nat)
                    && out@[q].nlimbs() <= 6 * m + 3,
        decreases m + 1 - i,
    {
        proof {
            lemma_luschny_final(m as nat, i as nat);
        }
        out.push(t[i].copy());
        i = i + 1;
    }
    out
}

/// `4^k` as an exact integer.
fn pow4(k: usize) -> (r: Int)
    requires
        k <= TANGENT_MAX,
    ensures
        r.wf(),
        r.value() == vstd::arithmetic::power2::pow2((2 * k) as nat),
        r.nlimbs() <= k + 1,
{
    let mut r = Int::from_u64(1);
    let mut i: usize = 0;
    proof {
        vstd::arithmetic::power2::lemma2_to64();
    }
    while i < k
        invariant
            i <= k <= TANGENT_MAX,
            r.wf(),
            r.value() == vstd::arithmetic::power2::pow2((2 * i) as nat),
            r.nlimbs() <= i + 1,
        decreases k - i,
    {
        let r2 = r.mul_u64(4);
        proof {
            vstd::arithmetic::power2::lemma_pow2_adds((2 * i) as nat, 2);
            vstd::arithmetic::power2::lemma2_to64();
            assert((2 * i) as nat + 2 == (2 * (i + 1)) as nat);
        }
        r = r2;
        i = i + 1;
    }
    r
}

/// `B_2k` as a ball at `prec` bits, from `t_k = T_k`.
pub(crate) fn bernoulli_from(t_k: &Int, k: usize, prec: u32) -> (r: Ball)
    requires
        1 <= k <= TANGENT_MAX,
        2 <= prec,
        t_k.wf(),
        t_k.value() == tangent(k as nat),
        t_k.nlimbs() < INT_LIMBS_MAX,
    ensures
        r.wf(),
        r.contains_real(bernoulli_value(k as nat)),
        r.rel_accuracy() >= prec,
{
    let num = t_k.mul_u64(2 * k as u64);
    let p = pow4(k);
    let den = p.sub(&Int::from_u64(1));
    let nf = num.to_float();
    let df = den.to_float();
    let nb = Ball::exact(nf);
    let db = Ball::exact(df);
    let ghost pk = vstd::arithmetic::power2::pow2((2 * k) as nat);
    proof {
        vstd::arithmetic::power2::lemma_pow2_pos((2 * k) as nat);
        vstd::arithmetic::power2::lemma_pow2_strictly_increases(0, (2 * k) as nat);
        vstd::arithmetic::power2::lemma2_to64();
        assert(pk >= 2);
        assert(db.mid_val() == (pk - 1) as real);
        assert(db.mid_val() > 0real);
        assert(!db.contains_real(0real));
        assert(nb.contains_real(nb.mid_val()));
        assert(db.contains_real(db.mid_val()));
    }
    let b = nb.div(&db, prec);
    let b2 = b.mul_2exp(-(2 * k as i64));
    let ghost q = nb.mid_val() / db.mid_val();
    proof {
        assert(b.contains_real(q));
        assert(b2.contains_real(q * pow2r(-(2 * k as i64) as int)));
        let x = (2 * k * tangent(k as nat)) as real;
        let d = (pk - 1) as real;
        let e = pow2r((2 * k) as int);
        assert(e == pk as real);
        assert(pow2r(-(2 * k as i64) as int) == 1real / e);
        assert(nb.mid_val() == (tangent(k as nat) * (2 * k)) as real);
        assert(tangent(k as nat) * (2 * k) == 2 * k * tangent(k as nat)) by (nonlinear_arith);
        assert(x / d * (1real / e) == x / (e * (e - 1real))) by (nonlinear_arith)
            requires
                d == e - 1real,
                e >= 2real,
        ;
    }
    let r = if k % 2 == 0 {
        b2.neg()
    } else {
        b2
    };
    proof {
        let x = (2 * k * tangent(k as nat)) as real;
        let e = pow2r((2 * k) as int);
        let v = x / (e * (e - 1real));
        assert(q * pow2r(-(2 * k as i64) as int) == v);
        if k % 2 == 0 {
            assert(r.contains_real(-v));
            assert(bernoulli_value(k as nat) == -1real * x / (e * (e - 1real)));
            assert(-1real * x / (e * (e - 1real)) == -v) by (nonlinear_arith)
                requires
                    e >= 2real,
                    v == x / (e * (e - 1real)),
            ;
        } else {
            assert(bernoulli_value(k as nat) == 1real * x / (e * (e - 1real)));
        }
    }
    r
}

/// `B_2k` for `k >= 1` as a ball, computed at `2·prec + 64` bits: it holds
/// `(−1)^(k−1) · 2k · T_k / (2^(2k) · (2^(2k) − 1))` with at least `prec`
/// certified bits.
pub fn bernoulli(k: usize, prec: u32) -> (r: Ball)
    requires
        1 <= k <= TANGENT_MAX,
        2 <= prec <= 0x7FFF_FF00,
    ensures
        r.wf(),
        r.contains_real(bernoulli_value(k as nat)),
        r.rel_accuracy() >= prec,
{
    let cp = prec * 2 + 64;
    let t = tangent_numbers(k);
    bernoulli_from(&t[k - 1], k, cp)
}

} // verus!
