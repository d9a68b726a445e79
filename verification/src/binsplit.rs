//! Binary splitting for rational series: π (Chudnovsky), e (Σ 1/k!) and
//! ln 2 (2·atanh(1/3)).
//!
//! A series is given by integer leaves `(p_k, q_k, t_k)`. Over a range
//! `[a, b)` binary splitting computes `P = Π p_k`, `Q = Π q_k` and
//! `T = Σ_k P(a, k) · t_k · Q(k+1, b)`, so that
//! `T/Q = Σ_k t_k · P(a, k) / Q(a, k+1)`, combining halves with
//! `P = P_l·P_r`, `Q = Q_l·Q_r`, `T = T_l·Q_r + P_l·T_r`.
use crate::ball::{abs_real, is_root, Ball, BALL_EXP};
use crate::bigint::{Int, INT_LIMBS_MAX};
use crate::directed::{lemma_div_up, lemma_mul_directed, lemma_nonneg_unsigned, lemma_rpow_mono, pow_up, rpow};
use crate::dyadic::{lemma_int_mul_real, lemma_pow2r_add, lemma_pow2r_le, lemma_pow2r_pos, pow2r};
use crate::fp::{lemma_mag_nonneg_pub, Float, Round, EXP_SMALL};
use crate::mag::Mag;
use vstd::prelude::*;

verus! {

/// The series evaluated by binary splitting.
#[derive(Clone, Copy, PartialEq, Eq, Structural)]
pub enum Series {
    /// π = 426880·√10005 · Q/T with
    /// `p_k = (6k−5)(2k−1)(6k−1)`, `q_k = k³·640320³/24`,
    /// `t_k = (−1)^k · p_k · (13591409 + 545140134·k)`.
    Chudnovsky,
    /// e = Σ 1/k!: `p_k = 1`, `q_k = max(k, 1)`, `t_k = 1`.
    ExpOne,
    /// atanh(1/3)·3 = Σ 9^−k/(2k+1): `p_k = 2k+1`,
    /// `q_k = (2k+1)·(1 if k = 0 else 9)`, `t_k = 1`.
    AtanhThird,
}

/// 640320³ / 24.
pub const C3_OVER_24: u64 = 10_939_058_860_032_000;

/// Constant term of the Chudnovsky numerator.
pub const A0: u64 = 13_591_409;

/// Linear coefficient of the Chudnovsky numerator.
pub const A1: u64 = 545_140_134;

/// Largest number of terms a splitting may span.
pub const TERMS_MAX: u64 = 0x80_0000;

/// The leaf `p_k`.
pub open spec fn leaf_p(s: Series, k: nat) -> int {
    match s {
        Series::Chudnovsky => if k == 0 {
            1
        } else {
            ((6 * k - 5) * (2 * k - 1) * (6 * k - 1)) as int
        },
        Series::ExpOne => 1,
        Series::AtanhThird => (2 * k + 1) as int,
    }
}

/// The leaf `q_k`.
pub open spec fn leaf_q(s: Series, k: nat) -> int {
    match s {
        Series::Chudnovsky => if k == 0 {
            1
        } else {
            (k * k * k * C3_OVER_24) as int
        },
        Series::ExpOne => if k == 0 {
            1
        } else {
            k as int
        },
        Series::AtanhThird => if k == 0 {
            1
        } else {
            ((2 * k + 1) * 9) as int
        },
    }
}

/// The leaf `t_k`.
pub open spec fn leaf_t(s: Series, k: nat) -> int {
    match s {
        Series::Chudnovsky => if k == 0 {
            A0 as int
        } else if k % 2 == 1 {
            -(leaf_p(s, k) * (A0 + A1 * k))
        } else {
            leaf_p(s, k) * (A0 + A1 * k)
        },
        Series::ExpOne => 1,
        Series::AtanhThird => 1,
    }
}

/// `Π_{a ≤ k < b} p_k`.
pub open spec fn prod_p(s: Series, a: nat, b: nat) -> int
    decreases b - a,
{
    if b <= a {
        1
    } else {
        prod_p(s, a, (b - 1) as nat) * leaf_p(s, (b - 1) as nat)
    }
}

/// `Π_{a ≤ k < b} q_k`.
pub open spec fn prod_q(s: Series, a: nat, b: nat) -> int
    decreases b - a,
{
    if b <= a {
        1
    } else {
        prod_q(s, a, (b - 1) as nat) * leaf_q(s, (b - 1) as nat)
    }
}

/// `T(a, b) = Σ_{a ≤ k < b} P(a, k) · t_k · Q(k+1, b)`, accumulated term by
/// term from the left.
pub open spec fn tsum(s: Series, a: nat, b: nat) -> int
    decreases b - a,
{
    if b <= a {
        0
    } else {
        tsum(s, a, (b - 1) as nat) * leaf_q(s, (b - 1) as nat) + prod_p(s, a, (b - 1) as nat)
            * leaf_t(s, (b - 1) as nat)
    }
}

/// The partial sum `Σ_{a ≤ k < b} t_k · P(a, k) / Q(a, k+1)`.
pub open spec fn series_sum(s: Series, a: nat, b: nat) -> real
    decreases b - a,
{
    if b <= a {
        0real
    } else {
        series_sum(s, a, (b - 1) as nat) + (leaf_t(s, (b - 1) as nat) * prod_p(s, a, (b - 1) as nat))
            as real / prod_q(s, a, b) as real
    }
}

/// Products split at any midpoint.
pub proof fn lemma_prod_split(s: Series, a: nat, m: nat, b: nat)
    requires
        a <= m <= b,
    ensures
        prod_p(s, a, b) == prod_p(s, a, m) * prod_p(s, m, b),
        prod_q(s, a, b) == prod_q(s, a, m) * prod_q(s, m, b),
    decreases b - m,
{
    if b == m {
        assert(prod_p(s, a, m) * 1 == prod_p(s, a, m));
        assert(prod_q(s, a, m) * 1 == prod_q(s, a, m));
    } else {
        let b1 = (b - 1) as nat;
        lemma_prod_split(s, a, m, b1);
        let x = prod_p(s, a, m);
        let y = prod_p(s, m, b1);
        let z = leaf_p(s, b1);
        assert(x * y * z == x * (y * z)) by (nonlinear_arith);
        let u = prod_q(s, a, m);
        let v = prod_q(s, m, b1);
        let w = leaf_q(s, b1);
        assert(u * v * w == u * (v * w)) by (nonlinear_arith);
    }
}

/// The binary splitting recursion: `T(a, b) = T(a, m)·Q(m, b) + P(a, m)·T(m, b)`.
pub proof fn lemma_tsum_split(s: Series, a: nat, m: nat, b: nat)
    requires
        a <= m <= b,
    ensures
        tsum(s, a, b) == tsum(s, a, m) * prod_q(s, m, b) + prod_p(s, a, m) * tsum(s, m, b),
    decreases b - m,
{
    if b == m {
        assert(tsum(s, a, m) * 1 + prod_p(s, a, m) * 0 == tsum(s, a, m));
    } else {
        let b1 = (b - 1) as nat;
        lemma_tsum_split(s, a, m, b1);
        lemma_prod_split(s, a, m, b1);
        let tl = tsum(s, a, m);
        let pl = prod_p(s, a, m);
        let qr = prod_q(s, m, b1);
        let pr = prod_p(s, m, b1);
        let tr = tsum(s, m, b1);
        let qb = leaf_q(s, b1);
        let tb = leaf_t(s, b1);
        assert((tl * qr + pl * tr) * qb == (tl * qr) * qb + (pl * tr) * qb) by (nonlinear_arith);
        assert((tl * qr) * qb == tl * (qr * qb)) by (nonlinear_arith);
        assert((pl * tr) * qb == pl * (tr * qb)) by (nonlinear_arith);
        assert((pl * pr) * tb == pl * (pr * tb)) by (nonlinear_arith);
        assert(pl * (tr * qb + pr * tb) == pl * (tr * qb) + pl * (pr * tb)) by (nonlinear_arith);
    }
}

/// Every leaf `q_k` is positive.
pub proof fn lemma_leaf_q_pos(s: Series, k: nat)
    ensures
        leaf_q(s, k) > 0,
{
    if k > 0 {
        assert(k * k > 0) by (nonlinear_arith)
            requires
                k > 0,
        ;
        assert(k * k * k > 0) by (nonlinear_arith)
            requires
                k * k > 0,
                k > 0,
        ;
        assert(k * k * k * C3_OVER_24 > 0) by (nonlinear_arith)
            requires
                k * k * k > 0,
        ;
    }
}

/// Every leaf `p_k` is positive.
pub proof fn lemma_leaf_p_pos(s: Series, k: nat)
    ensures
        leaf_p(s, k) > 0,
{
    if k > 0 {
        let x = 6 * k - 5;
        let y = 2 * k - 1;
        let z = 6 * k - 1;
        assert(x * y * z > 0) by (nonlinear_arith)
            requires
                x > 0,
                y > 0,
                z > 0,
        ;
    }
}

/// Products of positive leaves are positive.
pub proof fn lemma_prod_pos(s: Series, a: nat, b: nat)
    ensures
        prod_p(s, a, b) > 0,
        prod_q(s, a, b) > 0,
    decreases b - a,
{
    if b > a {
        let b1 = (b - 1) as nat;
        lemma_prod_pos(s, a, b1);
        lemma_leaf_p_pos(s, b1);
        lemma_leaf_q_pos(s, b1);
        let x = prod_p(s, a, b1);
        let y = leaf_p(s, b1);
        assert(x * y > 0) by (nonlinear_arith)
            requires
                x > 0,
                y > 0,
        ;
        let u = prod_q(s, a, b1);
        let v = leaf_q(s, b1);
        assert(u * v > 0) by (nonlinear_arith)
            requires
                u > 0,
                v > 0,
        ;
    }
}

/// What binary splitting computes: `T/Q` is the partial sum of the series.
pub proof fn lemma_tsum_is_sum(s: Series, a: nat, b: nat)
    ensures
        tsum(s, a, b) as real / prod_q(s, a, b) as real == series_sum(s, a, b),
    decreases b - a,
{
    lemma_prod_pos(s, a, b);
    if b <= a {
        assert(0real / 1real == 0real);
    } else {
        let b1 = (b - 1) as nat;
        lemma_tsum_is_sum(s, a, b1);
        lemma_prod_pos(s, a, b1);
        lemma_leaf_q_pos(s, b1);
        let t1 = tsum(s, a, b1) as real;
        let q1 = prod_q(s, a, b1) as real;
        let qb = leaf_q(s, b1) as real;
        let pt = (leaf_t(s, b1) * prod_p(s, a, b1)) as real;
        let pt2 = (prod_p(s, a, b1) * leaf_t(s, b1)) as real;
        assert(leaf_t(s, b1) * prod_p(s, a, b1) == prod_p(s, a, b1) * leaf_t(s, b1)) by (
        nonlinear_arith);
        let q = prod_q(s, a, b) as real;
        lemma_int_mul_real(prod_q(s, a, b1), leaf_q(s, b1));
        lemma_int_mul_real(tsum(s, a, b1), leaf_q(s, b1));
        assert(q == q1 * qb);
        assert(tsum(s, a, b) as real == t1 * qb + pt2);
        assert((t1 * qb + pt) / (q1 * qb) == t1 / q1 + pt / (q1 * qb)) by (nonlinear_arith)
            requires
                q1 > 0real,
                qb > 0real,
        ;
    }
}

/// The leaf `(p_k, q_k, t_k)`.
fn leaf(s: Series, k: u64) -> (r: (Int, Int, Int))
    requires
        k < TERMS_MAX,
    ensures
        r.0.wf(),
        r.1.wf(),
        r.2.wf(),
        r.0.value() == leaf_p(s, k as nat),
        r.1.value() == leaf_q(s, k as nat),
        r.2.value() == leaf_t(s, k as nat),
        r.0.nlimbs() <= 4,
        r.1.nlimbs() <= 4,
        r.2.nlimbs() <= 4,
{
    match s {
        Series::Chudnovsky => {
            if k == 0 {
                return (Int::from_u64(1), Int::from_u64(1), Int::from_u64(A0));
            }
            let p = Int::from_u64(6 * k - 5).mul_u64(2 * k - 1).mul_u64(6 * k - 1);
            let q = Int::from_u64(k).mul_u64(k).mul_u64(k).mul_u64(C3_OVER_24);
            let t0 = p.mul(&Int::from_u64(A0 + A1 * k));
            let t = if k % 2 == 1 {
                t0.neg()
            } else {
                t0
            };
            (p, q, t)
        },
        Series::ExpOne => {
            let q = if k == 0 {
                1
            } else {
                k
            };
            (Int::from_u64(1), Int::from_u64(q), Int::from_u64(1))
        },
        Series::AtanhThird => {
            let q = if k == 0 {
                1
            } else {
                9
            };
            (Int::from_u64(2 * k + 1), Int::from_u64(q).mul_u64(2 * k + 1), Int::from_u64(1))
        },
    }
}

/// `(P, Q, T)` over `[a, b)` by binary splitting.
fn split(s: Series, a: u64, b: u64) -> (r: (Int, Int, Int))
    requires
        a < b <= TERMS_MAX,
    ensures
        r.0.wf(),
        r.1.wf(),
        r.2.wf(),
        r.0.value() == prod_p(s, a as nat, b as nat),
        r.1.value() == prod_q(s, a as nat, b as nat),
        r.2.value() == tsum(s, a as nat, b as nat),
        r.0.nlimbs() <= 4 * (b - a),
        r.1.nlimbs() <= 4 * (b - a),
        r.2.nlimbs() + 1 <= 5 * (b - a),
    decreases b - a,
{
    if b - a == 1 {
        let r = leaf(s, a);
        proof {
            assert(prod_p(s, a as nat, a as nat) == 1);
            assert(prod_q(s, a as nat, a as nat) == 1);
            assert(tsum(s, a as nat, a as nat) == 0);
            assert(prod_p(s, a as nat, b as nat) == 1 * leaf_p(s, a as nat));
            assert(prod_q(s, a as nat, b as nat) == 1 * leaf_q(s, a as nat));
            assert(tsum(s, a as nat, b as nat) == 0 * leaf_q(s, a as nat) + 1 * leaf_t(s, a as nat));
        }
        return r;
    }
    let m = a + (b - a) / 2;
    let (pl, ql, tl) = split(s, a, m);
    let (pr, qr, tr) = split(s, m, b);
    let p = pl.mul(&pr);
    let q = ql.mul(&qr);
    let x = tl.mul(&qr);
    let y = pl.mul(&tr);
    let t = x.add(&y);
    proof {
        lemma_prod_split(s, a as nat, m as nat, b as nat);
        lemma_tsum_split(s, a as nat, m as nat, b as nat);
    }
    (p, q, t)
}

/// `x` lies within `e` of `c`.
pub open spec fn near(x: real, c: real, e: real) -> bool {
    abs_real(x - c) <= e
}

/// Largest precision accepted for the constants: 2^24 bits.
pub const CONST_PREC_MAX: u32 = 0x100_0000;

/// Terms of the Chudnovsky series summed for `prec` bits (≈ 47 bits each).
pub open spec fn chud_terms(prec: nat) -> nat {
    (prec + 64) / 47 + 2
}

/// The bound used for the Chudnovsky truncation tail after `n` terms:
/// `|t_n| · 2^−44` with `t_n = (A0 + A1·n) · P(0, n)/Q(0, n)`.
pub open spec fn chud_tail(n: nat) -> real {
    prod_p(Series::Chudnovsky, 0, n) as real / prod_q(Series::Chudnovsky, 0, n) as real * (A0 + A1
        * n) as real * pow2r(-44)
}

/// A float holding a positive value has a positive mantissa and no sign.
proof fn lemma_pos_float(f: Float)
    requires
        f.wf(),
        f.val() > 0real,
    ensures
        f.mant() > 0,
        !f.sign(),
{
    f.lemma_val_sign();
}

/// An upper bound of a nonnegative quantity through `from_float_upper`.
proof fn lemma_upper_of(f: Float, m: Mag, x: real)
    requires
        f.wf(),
        x <= f.val(),
        f.mag() <= m.val(),
    ensures
        x <= m.val(),
{
    f.lemma_val_abs();
    lemma_mag_nonneg_pub(&f);
}

/// A ball that holds `c` and is widened by at least `e` holds every point
/// within `e` of `c`.
proof fn lemma_widened(b0: Ball, b: Ball, c: real, e: real, err: real, x: real)
    requires
        b0.contains_real(c),
        b.mid_val() == b0.mid_val(),
        b0.rad_val() + err <= b.rad_val(),
        e <= err,
        near(x, c, e),
    ensures
        b.contains_real(x),
{
}

/// The divisor ball of the Chudnovsky formula stays away from zero: the
/// partial sum is within `1/2` of `A0`, the exact quotient holds it with
/// relative accuracy `wp`, and the tail bound is below `2^10`.
proof fn lemma_pi_divisor_nonzero(
    s0: Ball,
    s: Ball,
    tail: Mag,
    sum: real,
    pq: Float,
    c: Float,
    tn: Float,
    tn2: Float,
    wp: nat,
    n: nat,
)
    requires
        s0.wf(),
        s.wf(),
        wp >= 66,
        2 <= n <= 0x8_0000,
        s0.contains_real(sum),
        sum == series_sum(Series::Chudnovsky, 0, n),
        s0.rel_accuracy() >= wp,
        pq.wf() && c.wf() && tn.wf() && tn2.wf() && tail.wf(),
        !pq.sign() && !c.sign(),
        pq.val() <= 2real * (prod_p(Series::Chudnovsky, 0, n) as real / prod_q(Series::Chudnovsky, 0, n) as real),
        c.val() == (A0 + A1 * n) as real,
        tn.val() == crate::fp::rounded(pq.sm() * c.sm(), pq.low() + c.low(), 64, Round::Up),
        tn2.val() == tn.val() * pow2r(-44),
        tail.val() <= tn2.mag() + tn2.mag() * pow2r(-29),
        s.mid_val() == s0.mid_val(),
        s.rad_val() <= (s0.rad_val() + tail.val()) + (s0.rad_val() + tail.val()) * pow2r(-26),
    ensures
        !s.contains_real(0real),
{
    let ch = Series::Chudnovsky;
    lemma_chud_sum_near_a0(n);
    lemma_chud_terms_small((n - 1) as nat);
    lemma_prod_pos(ch, 0, n);
    vstd::arithmetic::power2::lemma2_to64();
    let pp = prod_p(ch, 0, n);
    let qq = prod_q(ch, 0, n);
    vstd::arithmetic::power2::lemma_pow2_pos(n);
    assert(pp <= qq) by (nonlinear_arith)
        requires
            pp * (A0 + A1 * (n - 1)) * vstd::arithmetic::power2::pow2(n) <= qq,
            pp > 0,
            A0 + A1 * (n - 1) >= 1,
            vstd::arithmetic::power2::pow2(n) >= 1,
    ;
    crate::fp::lemma_real_cast_order(pp, qq);
    crate::fp::lemma_real_cast_order(0, qq);
    assert(pp as real / qq as real <= 1real) by (nonlinear_arith)
        requires
            pp as real <= qq as real,
            qq as real > 0real,
    ;
    assert(pq.val() <= 2real);
    // tn <= 2·pq·c, and c < 2^49
    crate::directed::lemma_mul_exact(pq, c);
    lemma_mul_directed(pq, c, 64, Round::Up);
    tail.lemma_val_pos();
    lemma_pow2r_pos(-26);
    pq.lemma_val_abs();
    c.lemma_val_abs();
    crate::fp::lemma_mag_nonneg_pub(&pq);
    crate::fp::lemma_mag_nonneg_pub(&c);
    assert(A0 + A1 * n <= 0x2_0000_0000_0000);
    crate::fp::lemma_real_cast_order((A0 + A1 * n) as int, 0x2_0000_0000_0000);
    let cv = c.val();
    assert(cv <= 0x2_0000_0000_0000int as real);
    if pq.sm() * c.sm() > 0 {
        lemma_up_double(pq.sm() * c.sm(), pq.low() + c.low(), 64);
    } else {
        assert(pq.sm() * c.sm() == 0) by (nonlinear_arith)
            requires
                pq.sm() >= 0,
                c.sm() >= 0,
                pq.sm() * c.sm() <= 0,
        ;
        crate::fp::lemma_window_zero(false, 0, pq.low() + c.low(), 64, Round::Up);
    }
    assert(tn.val() <= 2real * (pq.val() * cv)) by {
        if pq.sm() * c.sm() == 0 {
            assert(pq.val() * cv >= 0real) by (nonlinear_arith)
                requires
                    pq.val() >= 0real,
                    cv >= 0real,
            ;
        }
    }
    assert(pq.val() * cv <= 2real * 0x2_0000_0000_0000int as real) by (nonlinear_arith)
        requires
            0real <= pq.val() <= 2real,
            0real <= cv <= 0x2_0000_0000_0000int as real,
    ;
    lemma_pow2r_pos(-44);
    lemma_pow2r_pos(-29);
    lemma_pow2r_le(-29, 0);
    lemma_pow2r_le(-44, -1);
    crate::dyadic::lemma_pow2r_nat(0);
    assert(pow2r(-1) == 1real / 2real);
    tn2.lemma_val_abs();
    crate::fp::lemma_mag_nonneg_pub(&tn2);
    tn.lemma_val_abs();
    crate::fp::lemma_mag_nonneg_pub(&tn);
    assert(pow2r(-44) * 0x1000_0000_0000int as real == 1real) by {
        crate::dyadic::lemma_pow2r_nat(44);
        vstd::arithmetic::power2::lemma2_to64_rest();
        assert(pow2r(-44) == 1real / 0x1000_0000_0000int as real);
    }
    assert(tn2.mag() <= 1024real) by (nonlinear_arith)
        requires
            tn2.val() == tn.val() * pow2r(-44),
            tn.val() <= 2real * (pq.val() * cv),
            pq.val() * cv <= 2real * 0x2_0000_0000_0000int as real,
            pow2r(-44) * 0x1000_0000_0000int as real == 1real,
            pow2r(-44) > 0real,
            tn2.mag() == abs_real(tn2.val()),
            tn.val() >= 0real,
    ;
    assert(tail.val() <= 2048real) by (nonlinear_arith)
        requires
            tail.val() <= tn2.mag() + tn2.mag() * pow2r(-29),
            0real <= tn2.mag() <= 1024real,
            0real < pow2r(-29) <= 1real,
    ;
    // the exact quotient's radius is below one
    s0.rad_m().lemma_val_pos();
    s.rad_m().lemma_val_pos();
    let m = s0.mid_f();
    m.lemma_mant_bounds();
    if s0.rad_val() != 0real {
        m.lemma_exponent_bounds();
        m.lemma_val_abs();
        crate::fp::lemma_mag_nonneg_pub(&m);
        if m.ex() - wp >= 0 {
            crate::dyadic::lemma_pow2r_nat((m.ex() - wp) as nat);
        }
        lemma_pow2r_le(s0.rad_m().ex(), m.ex() - wp);
        lemma_pow2r_add(m.ex() - wp, wp as int);
        lemma_pow2r_le(m.ex() - wp, m.ex() - 66);
        lemma_pow2r_add(m.ex() - 66, 66);
        crate::dyadic::lemma_pow2r_nat(66);
        assert(s0.rad_val() < pow2r(m.ex() - 66));
        assert(abs_real(s0.mid_val()) >= pow2r(m.ex() - 1));
        lemma_pow2r_le(m.ex() - 66, m.ex() - 1);
        assert(s0.rad_val() < abs_real(s0.mid_val()));
    }
    assert(s0.rad_val() <= abs_real(s0.mid_val()) / 1024real || s0.rad_val() <= 1real) by {
        if s0.rad_val() != 0real {
            let h = pow2r(m.ex() - 66);
            lemma_pow2r_add(m.ex() - 66, 65);
            crate::dyadic::lemma_pow2r_nat(65);
            assert(pow2r(m.ex() - 1) == h * vstd::arithmetic::power2::pow2(65) as real);
            assert(vstd::arithmetic::power2::pow2(65) >= 1024) by {
                vstd::arithmetic::power2::lemma_pow2_strictly_increases(10, 65);
            }
            crate::fp::lemma_real_cast_order(1024, vstd::arithmetic::power2::pow2(65) as int);
            lemma_pow2r_pos(m.ex() - 66);
            assert(s0.rad_val() <= abs_real(s0.mid_val()) / 1024real) by (nonlinear_arith)
                requires
                    s0.rad_val() < h,
                    abs_real(s0.mid_val()) >= h * vstd::arithmetic::power2::pow2(65) as real,
                    vstd::arithmetic::power2::pow2(65) as real >= 1024real,
                    h > 0real,
            ;
        }
    }
    lemma_pow2r_le(-26, 0);
    assert(A0 as real >= 13591409real);
    let mv = abs_real(s0.mid_val());
    assert(abs_real(sum - s0.mid_val()) <= s0.rad_val());
    assert(sum >= 13591408real);
    assert(mv >= 13591408real - s0.rad_val());
    assert(s.rad_val() < mv) by (nonlinear_arith)
        requires
            s.rad_val() <= (s0.rad_val() + tail.val()) + (s0.rad_val() + tail.val()) * pow2r(-26),
            0real < pow2r(-26) <= 1real,
            0real <= tail.val() <= 2048real,
            0real <= s0.rad_val(),
            s0.rad_val() <= mv / 1024real || s0.rad_val() <= 1real,
            mv >= 13591408real - s0.rad_val(),
    ;
}

/// π to `prec` bits via Chudnovsky binary splitting.
///
/// With `n = chud_terms(prec)` terms the ball holds `426880·√10005 / σ` for
/// every `σ` within `chud_tail(n)` of the partial sum
/// `series_sum(Chudnovsky, 0, n)` (the term ratio of the series is below
/// `2^−45`, so this covers the true sum, whose reciprocal scaled is π).
/// Every intermediate stays well within the exponent range.
pub fn pi_chudnovsky(prec: u32) -> (r: Ball)
    requires
        2 <= prec <= CONST_PREC_MAX,
    ensures
        r.wf(),
        r.small(),
        forall|sigma: real, root: real|
            #![trigger near(sigma, series_sum(Series::Chudnovsky, 0, chud_terms(prec as nat)), chud_tail(chud_terms(prec as nat))), is_root(root, 10005real)]
            near(sigma, series_sum(Series::Chudnovsky, 0, chud_terms(prec as nat)), chud_tail(chud_terms(prec as nat)))
                && is_root(root, 10005real) ==> sigma != 0real && r.contains_real(root * 426880real / sigma),
{
    let wp = prec + 64;
    let n: u64 = (wp as u64) / 47 + 2;
    let ghost nn = n as nat;
    let ghost ch = Series::Chudnovsky;
    let (p, q, t) = split(Series::Chudnovsky, 0, n);
    proof {
        lemma_prod_pos(ch, 0, nn);
        lemma_tsum_is_sum(ch, 0, nn);
    }
    let qf = q.to_float();
    let tf = t.to_float();
    let pf = p.to_float();
    proof {
        lemma_pos_float(qf);
        lemma_pos_float(pf);
    }
    let bq = Ball::exact(qf.copy());
    let bt = Ball::exact(tf);
    proof {
        assert(crate::ball::exact_operands(bt, bq));
    }
    proof {
        assert(bq.contains_real(qf.val()));
        assert(bt.contains_real(bt.mid_val()));
        assert(!bq.contains_real(0real));
    }
    let s0 = bt.div(&bq, wp);
    let ghost sum = series_sum(ch, 0, nn);
    proof {
        assert(s0.contains_real(bt.mid_val() / qf.val()));
        assert(bt.mid_val() / qf.val() == sum);
    }
    let (pq, _) = pf.div(&qf, 64, Round::Up);
    proof {
        lemma_div_up(pf, qf, 64, pq.val());
        assert(pf.val() / qf.val() > 0real) by (nonlinear_arith)
            requires
                pf.val() > 0real,
                qf.val() > 0real,
        ;
    }
    proof {
        pq.lemma_mant_bounds();
        pf.lemma_mant_bounds();
        qf.lemma_mant_bounds();
        assert(pq.within(0x1000_0000_0000));
        lemma_pos_float(pq);
    }
    let c = Float::from_u64(A0 + A1 * n);
    let (tn, _) = pq.mul(&c, 64, Round::Up);
    proof {
        lemma_mul_directed(pq, c, 64, Round::Up);
        c.lemma_mant_bounds();
        tn.lemma_mant_bounds();
        assert(tn.within(0x1000_0000_0000));
    }
    let tn2 = tn.mul_2exp(-44);
    proof {
        assert(tn2.within(0x1000_0000_0000));
    }
    let tail = Mag::from_float_upper(&tn2);
    let ghost bound = chud_tail(nn);
    proof {
        let pr = prod_p(ch, 0, nn) as real;
        let qr = prod_q(ch, 0, nn) as real;
        let cv = (A0 + A1 * nn) as real;
        assert(c.val() == cv);
        lemma_pow2r_pos(-44);
        let h = pow2r(-44);
        assert(bound == pr / qr * cv * h);
        assert(pr / qr * cv * h <= tn.val() * h) by (nonlinear_arith)
            requires
                pr / qr <= pq.val(),
                pq.val() * cv <= tn.val(),
                cv >= 0real,
                h > 0real,
        ;
        lemma_upper_of(tn2, tail, bound);
    }
    proof {
        assert(tail.within(0x1000_0000_0000));
    }
    let s = s0.add_error(&tail);
    let b10005 = Ball::from_u64(10005);
    let sq = b10005.sqrt(wp);
    let num = sq.mul_i64(426880, wp);
    proof {
        assert(s.within_exp(0x1000_0000_0020int));
        assert(b10005.mid_f().within(0x100_0000_0000));
        assert(sq.within_exp(0x1000_0000_0000));
        assert(num.within_exp(2 * 0x1000_0000_0000int + wp + 1024));
        lemma_div_up_double(pf, qf, 64, pq.val());
        assert(s.mid_val() == s0.mid_val());
        lemma_pi_divisor_nonzero(s0, s, tail, sum, pq, c, tn, tn2, wp as nat, nn);
    }
    let d = num.div(&s, wp);
    proof {
        let bb = 2 * 0x1000_0000_0000int + wp + 1024;
        assert(s.within_exp(bb));
        assert(d.within_exp(16 * bb + 0x10_0000_0000));
    }
    let r = d.round(prec);
    proof {
        let bb = 2 * 0x1000_0000_0000int + wp + 1024;
        assert(r.within_exp(16 * bb + 0x10_0000_0000 + prec + 128));
    }
    proof {
        assert forall|sigma: real, root: real|
            #![trigger near(sigma, sum, bound), is_root(root, 10005real)]
            near(sigma, sum, bound) && is_root(root, 10005real) implies sigma != 0real
            && r.contains_real(root * 426880real / sigma) by {
            lemma_widened(s0, s, sum, bound, tail.val(), sigma);
            assert(b10005.contains_real(10005real));
            assert(is_root(root, b10005.mid_val()));
            assert(sq.contains_real(root));
            assert(num.contains_real(root * 426880i64 as real));
            assert(d.contains_real(root * 426880real / sigma));
        }
    }
    r
}

/// The bound used for the tail of `Σ 1/k!` after `n` terms: `2/Q(0, n)`
/// (the terms from `n` on at most halve each time).
pub open spec fn exp_one_tail(n: nat) -> real {
    2real / prod_q(Series::ExpOne, 0, n) as real
}

/// `r` holds every point within `exp_one_tail(n)` of the partial sum of
/// `n >= 2` terms of `Σ 1/k!`.
pub open spec fn encloses_e(r: Ball, n: nat) -> bool {
    n >= 2 && forall|sigma: real|
        #[trigger] near(sigma, series_sum(Series::ExpOne, 0, n), exp_one_tail(n)) ==> r.contains_real(sigma)
}

/// Each factor from `2^20` on adds at least 20 bits to `n!`.
proof fn lemma_fact_growth(n: nat)
    requires
        n >= 0x10_0000,
    ensures
        prod_q(Series::ExpOne, 0, n) >= vstd::arithmetic::power2::pow2((20 * (n - 0x10_0000)) as nat),
    decreases n,
{
    if n == 0x10_0000 {
        lemma_prod_pos(Series::ExpOne, 0, n);
        vstd::arithmetic::power2::lemma2_to64();
    } else {
        let n1 = (n - 1) as nat;
        lemma_fact_growth(n1);
        let k = (20 * (n1 - 0x10_0000)) as nat;
        vstd::arithmetic::power2::lemma_pow2_adds(k, 20);
        vstd::arithmetic::power2::lemma2_to64();
        assert(k + 20 == (20 * (n - 0x10_0000)) as nat);
        assert(leaf_q(Series::ExpOne, n1) == n1);
        let f = prod_q(Series::ExpOne, 0, n1);
        assert(f * n1 >= vstd::arithmetic::power2::pow2(k) * 0x10_0000) by (nonlinear_arith)
            requires
                f >= vstd::arithmetic::power2::pow2(k),
                n1 >= 0x10_0000,
                vstd::arithmetic::power2::pow2(k) >= 0,
        ;
    }
}

/// `Σ_{k<n} 1/k! >= 2` from two terms on.
proof fn lemma_exp_sum_ge_two(n: nat)
    requires
        n >= 2,
    ensures
        series_sum(Series::ExpOne, 0, n) >= 2real,
    decreases n,
{
    let n1 = (n - 1) as nat;
    lemma_prod_pos(Series::ExpOne, 0, n);
    lemma_prod_pos(Series::ExpOne, 0, n1);
    let t = (leaf_t(Series::ExpOne, n1) * prod_p(Series::ExpOne, 0, n1)) as real / prod_q(Series::ExpOne, 0, n)
        as real;
    assert(prod_p(Series::ExpOne, 0, n1) > 0);
    crate::fp::lemma_real_cast_order(0, prod_q(Series::ExpOne, 0, n));
    crate::fp::lemma_real_cast_order(0, leaf_t(Series::ExpOne, n1) * prod_p(Series::ExpOne, 0, n1));
    assert(t >= 0real) by (nonlinear_arith)
        requires
            t == (leaf_t(Series::ExpOne, n1) * prod_p(Series::ExpOne, 0, n1)) as real / prod_q(Series::ExpOne, 0, n)
                as real,
            (leaf_t(Series::ExpOne, n1) * prod_p(Series::ExpOne, 0, n1)) as real >= 0real,
            prod_q(Series::ExpOne, 0, n) as real > 0real,
    ;
    if n == 2 {
        let e = Series::ExpOne;
        assert(prod_p(e, 0, 0) == 1 && prod_q(e, 0, 0) == 1);
        assert(prod_p(e, 0, 1) == 1 && prod_q(e, 0, 1) == 1);
        assert(prod_q(e, 0, 2) == 1);
        assert(series_sum(e, 0, 0) == 0real);
        assert(series_sum(e, 0, 1) == 1real);
        assert(series_sum(e, 0, 2) == 2real);
    } else {
        lemma_exp_sum_ge_two(n1);
    }
}

/// Rounding a nonnegative window gives a nonnegative value.
proof fn lemma_window_nonneg(w: nat, bot: int, prec: nat, rnd: Round)
    ensures
        crate::fp::rounded(w as int, bot, prec, rnd) >= 0real,
{
    let mode = rnd.mag_spec(false);
    let sh = crate::dyadic::round_shift(w, prec);
    let d = crate::dyadic::round_digits(w, false, prec, mode);
    lemma_pow2r_pos(bot + sh);
    crate::fp::lemma_real_cast_order(0, d as int);
    assert(d as real * pow2r(bot + sh) >= 0real) by (nonlinear_arith)
        requires
            d as real >= 0real,
            pow2r(bot + sh) > 0real,
    ;
}

/// A quotient of nonnegative floats rounded up at most doubles it.
proof fn lemma_div_up_double(a: Float, b: Float, prec: nat, r: real)
    requires
        a.wf(),
        b.wf(),
        b.mant() > 0,
        !a.sign(),
        !b.sign(),
        prec >= 2,
        r == crate::fp::window_val(
            false,
            crate::fp::div_quo(a, b, prec),
            crate::fp::div_bot(a, b, prec),
            crate::fp::div_sticky(a, b, prec),
            prec,
            crate::dyadic::MagRound::Up,
        ),
        crate::fp::div_sticky(a, b, prec) ==> crate::dyadic::nbits(crate::fp::div_quo(a, b, prec)) > prec,
    ensures
        r <= 2real * (a.val() / b.val()),
{
    crate::fp::lemma_div_value(a, b, prec);
    let s = crate::fp::div_shift(a.nlimbs(), b.nlimbs(), prec);
    let n = a.mant() * crate::limb_spec::limb_weight(s);
    let delta = (n % b.mant()) as real / b.mant() as real;
    let w = crate::fp::div_quo(a, b, prec);
    let bot = crate::fp::div_bot(a, b, prec);
    let st = crate::fp::div_sticky(a, b, prec);
    crate::fp::lemma_window_error(w, bot, st, delta, prec, crate::dyadic::MagRound::Up);
    a.lemma_val_abs();
    b.lemma_val_abs();
    let t = (w as real + delta) * pow2r(bot);
    let sh = crate::dyadic::round_shift(w, prec);
    let u = pow2r(bot + sh);
    lemma_pow2r_pos(bot);
    if w == 0 {
        assert(!st);
        assert(!crate::dyadic::round_inexact(w, st, prec));
        assert(r == t);
        assert(t == 0real);
    } else {
        crate::dyadic::lemma_nbits_bounds(w);
        let k = crate::dyadic::nbits(w);
        assert(sh <= k - 1);
        vstd::arithmetic::power2::lemma_pow2_pos(sh);
        if sh > 0 {
            vstd::arithmetic::power2::lemma_pow2_strictly_increases(sh, (k - 1) as nat);
        }
        if sh == (k - 1) as nat {
        }
        assert(vstd::arithmetic::power2::pow2(sh) <= w) by {
            if sh < (k - 1) as nat {
                vstd::arithmetic::power2::lemma_pow2_strictly_increases(sh, (k - 1) as nat);
            }
        }
        crate::dyadic::lemma_pow2r_add(bot, sh as int);
        crate::dyadic::lemma_pow2r_nat(sh);
        crate::fp::lemma_real_cast_order(vstd::arithmetic::power2::pow2(sh) as int, w as int);
        assert(u <= w as real * pow2r(bot)) by (nonlinear_arith)
            requires
                u == pow2r(bot) * vstd::arithmetic::power2::pow2(sh) as real,
                vstd::arithmetic::power2::pow2(sh) as real <= w as real,
                pow2r(bot) > 0real,
        ;
        assert(w as real * pow2r(bot) <= t) by (nonlinear_arith)
            requires
                t == (w as real + delta) * pow2r(bot),
                delta >= 0real,
                pow2r(bot) > 0real,
        ;
    }
    assert(a.mag() / b.mag() == a.val() / b.val());
}

/// The ball of `e`: holding the partial sum `σ >= 2` with relative
/// accuracy `wp` before widening by a tail below `2^(−wp−1)`, it keeps
/// relative accuracy `wp − 1`.
proof fn lemma_e_accuracy(s0: Ball, s: Ball, tail: Mag, sum: real, wp: int)
    requires
        s0.wf(),
        s.wf(),
        wp >= 66,
        s0.contains_real(sum),
        sum >= 2real,
        s0.rel_accuracy() >= wp,
        0real <= tail.val() <= pow2r(-wp - 1),
        s.mid_f().mant() == s0.mid_f().mant(),
        s.mid_f().ex() == s0.mid_f().ex(),
        s.mid_val() == s0.mid_val(),
        s.rad_val() <= (s0.rad_val() + tail.val()) + (s0.rad_val() + tail.val()) * pow2r(-26),
    ensures
        s.rel_accuracy() >= wp - 1,
{
    s0.rad_m().lemma_val_pos();
    s.rad_m().lemma_val_pos();
    s0.mid_f().lemma_mant_bounds();
    let m = s0.mid_f();
    m.lemma_val_abs();
    crate::fp::lemma_mag_nonneg_pub(&m);
    if s.rad_val() != 0real {
        // the midpoint has exponent at least one
        if m.mant() > 0 {
            m.lemma_exponent_bounds();
        } else {
            crate::fp::lemma_mag_zero_pub(m.mant(), m.low());
        }
        if s0.rad_val() != 0real {
            assert(s0.rad_m().ex() <= m.ex() - wp);
            lemma_pow2r_le(s0.rad_m().ex(), m.ex() - wp);
        }
        assert(m.mant() > 0 && m.ex() >= 1) by {
            if m.mant() == 0 || m.ex() <= 0 {
                if m.mant() > 0 {
                    lemma_pow2r_le(m.ex() as int, 0);
                    lemma_pow2r_le(m.ex() - wp, -wp);
                }
                lemma_pow2r_le(-wp, 0);
                crate::dyadic::lemma_pow2r_nat(0);
                vstd::arithmetic::power2::lemma2_to64();
                assert(abs_real(m.val()) < 1real);
                assert(s0.rad_val() < 1real);
                assert(false);
            }
        }
        lemma_pow2r_le(-wp - 1, m.ex() - wp - 2);
        lemma_pow2r_add(m.ex() - wp - 2, 2);
        lemma_pow2r_add(m.ex() - wp - 2, 3);
        crate::dyadic::lemma_pow2r_nat(2);
        crate::dyadic::lemma_pow2r_nat(3);
        vstd::arithmetic::power2::lemma2_to64();
        lemma_pow2r_pos(m.ex() - wp - 2);
        lemma_pow2r_pos(-26);
        lemma_pow2r_le(-26, -2);
        assert(pow2r(-2) == 1real / 4real);
        let h = pow2r(m.ex() - wp - 2);
        let d = pow2r(-26);
        assert(pow2r(2) == 4real && pow2r(3) == 8real);
        assert(pow2r(m.ex() - wp) == h * 4real);
        assert(h * 4real > 0real) by (nonlinear_arith)
            requires
                h > 0real,
        ;
        if s0.rad_val() != 0real {
            lemma_pow2r_le(s0.rad_m().ex(), m.ex() - wp);
            assert(s0.rad_val() < pow2r(m.ex() - wp));
        }
        assert(s0.rad_val() < h * 4real);
        assert(tail.val() <= h);
        assert(s.rad_val() < h * 8real) by (nonlinear_arith)
            requires
                s.rad_val() <= (s0.rad_val() + tail.val()) + (s0.rad_val() + tail.val()) * d,
                0real <= s0.rad_val() < h * 4real,
                0real <= tail.val() <= h,
                0real < d <= 1real / 4real,
                h > 0real,
        ;
        if s.rad_m().ex() > m.ex() - wp + 1 {
            lemma_pow2r_le(m.ex() - wp + 1, s.rad_m().ex() - 1);
        }
    }
}

/// Rounding a positive `m·2^e` up at `prec` bits at most doubles it.
proof fn lemma_up_double(m: int, e: int, prec: nat)
    requires
        m > 0,
        prec >= 1,
    ensures
        crate::fp::rounded(m, e, prec, Round::Up) <= 2real * (m as real * pow2r(e)),
{
    crate::fp::lemma_rounded_error(m, e, prec, Round::Up);
    let w = m as nat;
    crate::dyadic::lemma_nbits_bounds(w);
    let k = crate::dyadic::nbits(w);
    let sh = crate::dyadic::round_shift(w, prec);
    assert(vstd::arithmetic::power2::pow2(sh) <= w) by {
        if sh < (k - 1) as nat {
            vstd::arithmetic::power2::lemma_pow2_strictly_increases(sh, (k - 1) as nat);
        }
    }
    lemma_pow2r_add(e, sh as int);
    crate::dyadic::lemma_pow2r_nat(sh);
    lemma_pow2r_pos(e);
    crate::fp::lemma_real_cast_order(vstd::arithmetic::power2::pow2(sh) as int, m);
    assert(pow2r(e + sh) <= m as real * pow2r(e)) by (nonlinear_arith)
        requires
            pow2r(e + sh) == pow2r(e) * vstd::arithmetic::power2::pow2(sh) as real,
            vstd::arithmetic::power2::pow2(sh) as real <= m as real,
            pow2r(e) > 0real,
    ;
}

/// Past the first, every Chudnovsky term is tiny:
/// `P(0, k+1)·(A0 + A1·k)·2^(k+1) <= Q(0, k+1)` for `k >= 1`.
proof fn lemma_chud_terms_small(k: nat)
    requires
        k >= 1,
    ensures
        prod_p(Series::Chudnovsky, 0, k + 1) * (A0 + A1 * k) * vstd::arithmetic::power2::pow2(k + 1)
            <= prod_q(Series::Chudnovsky, 0, k + 1),
    decreases k,
{
    let c = Series::Chudnovsky;
    vstd::arithmetic::power2::lemma2_to64();
    if k == 1 {
        assert(prod_p(c, 0, 0) == 1);
        assert(prod_q(c, 0, 0) == 1);
        assert(leaf_p(c, 0) == 1 && leaf_q(c, 0) == 1);
        assert(prod_p(c, 0, 1) == 1);
        assert(prod_q(c, 0, 1) == 1);
        assert((6 * 1nat - 5) * (2 * 1nat - 1) * (6 * 1nat - 1) == 5) by (nonlinear_arith);
        assert(leaf_p(Series::Chudnovsky, 1) == 5);
        assert(leaf_q(c, 1) == C3_OVER_24);
        assert(prod_p(c, 0, 2) == 5);
        assert(prod_q(c, 0, 2) == C3_OVER_24);
    } else {
        let k1 = (k - 1) as nat;
        lemma_chud_terms_small(k1);
        let pp = prod_p(c, 0, k);
        let qq = prod_q(c, 0, k);
        let lp = leaf_p(c, k);
        let lq = leaf_q(c, k);
        let w = vstd::arithmetic::power2::pow2(k);
        vstd::arithmetic::power2::lemma_pow2_adds(k, 1);
        assert(vstd::arithmetic::power2::pow2(k + 1) == w * 2);
        lemma_prod_pos(c, 0, k);
        vstd::arithmetic::power2::lemma_pow2_pos(k);
        assert(lp <= 72 * k * k * k) by (nonlinear_arith)
            requires
                lp == ((6 * k - 5) * (2 * k - 1) * (6 * k - 1)) as int,
                k >= 2,
        ;
        assert(lq == k * k * k * C3_OVER_24);
        assert(lp >= 0);
        assert(A0 + A1 * k <= 2 * (A0 + A1 * k1));
        assert(pp * lp * (A0 + A1 * k) * (w * 2) <= qq * lq) by (nonlinear_arith)
            requires
                pp * (A0 + A1 * k1) * w <= qq,
                0 <= lp <= 72 * k * k * k,
                lq == k * k * k * C3_OVER_24,
                A0 + A1 * k <= 2 * (A0 + A1 * k1),
                pp > 0,
                w > 0,
                k >= 2,
                A0 + A1 * k1 > 0,
        ;
    }
}

/// The Chudnovsky partial sum of `n >= 1` terms lies within `1/2` of its
/// first term `A0`.
proof fn lemma_chud_sum_near_a0(n: nat)
    requires
        n >= 1,
    ensures
        A0 as real - 1real / 2real <= series_sum(Series::Chudnovsky, 0, n) <= A0 as real + 1real / 2real
            - pow2r(-(n as int)),
        A0 as real - 1real / 2real + pow2r(-(n as int)) <= series_sum(Series::Chudnovsky, 0, n),
    decreases n,
{
    let c = Series::Chudnovsky;
    vstd::arithmetic::power2::lemma2_to64();
    if n == 1 {
        assert(prod_p(c, 0, 0) == 1);
        assert(prod_q(c, 0, 0) == 1);
        assert(leaf_q(c, 0) == 1);
        assert(prod_q(c, 0, 1) == 1);
        assert(leaf_t(c, 0) == A0);
        assert(leaf_t(c, 0) * prod_p(c, 0, 0) == A0);
        assert(series_sum(c, 0, 0) == 0real);
        assert((A0 as int) as real / (1int as real) == A0 as real);
        assert(series_sum(c, 0, 1) == A0 as real);
        assert(pow2r(-1) == 1real / 2real);
    } else {
        let k = (n - 1) as nat;
        lemma_chud_sum_near_a0(k);
        lemma_chud_terms_small(k);
        lemma_prod_pos(c, 0, n);
        lemma_prod_pos(c, 0, k);
        let pp = prod_p(c, 0, k);
        let lp = leaf_p(c, k);
        let qq = prod_q(c, 0, n);
        let tk = leaf_t(c, k) * pp;
        assert(prod_p(c, 0, n) == pp * lp);
        let mag = pp * lp * (A0 + A1 * k);
        assert(tk == mag || tk == -mag) by {
            assert(leaf_t(c, k) == lp * (A0 + A1 * k) || leaf_t(c, k) == -(lp * (A0 + A1 * k)));
            assert(leaf_t(c, k) * pp == pp * lp * (A0 + A1 * k) || leaf_t(c, k) * pp == -(pp * lp * (A0
                + A1 * k))) by (nonlinear_arith)
                requires
                    leaf_t(c, k) == lp * (A0 + A1 * k) || leaf_t(c, k) == -(lp * (A0 + A1 * k)),
            ;
        }
        let w = vstd::arithmetic::power2::pow2(n);
        vstd::arithmetic::power2::lemma_pow2_pos(n);
        assert(mag * w <= qq);
        assert(mag >= 0) by (nonlinear_arith)
            requires
                pp > 0,
                lp >= 0,
                mag == pp * lp * (A0 + A1 * k),
        ;
        crate::dyadic::lemma_int_mul_real(mag, w as int);
        crate::fp::lemma_real_cast_order(mag * w, qq);
        let term = tk as real / qq as real;
        let bound = 1real / w as real;
        assert(pow2r(-(n as int)) == bound);
        assert(pow2r(-(k as int)) == bound * 2real) by {
            vstd::arithmetic::power2::lemma_pow2_adds(k, 1);
            let pk = vstd::arithmetic::power2::pow2(k);
            assert(w == pk * 2);
            vstd::arithmetic::power2::lemma_pow2_pos(k);
            crate::dyadic::lemma_int_mul_real(pk as int, 2);
            assert(pow2r(-(k as int)) == 1real / pk as real);
            assert(1real / pk as real == (1real / w as real) * 2real) by (nonlinear_arith)
                requires
                    w as real == pk as real * 2real,
                    pk as real > 0real,
            ;
        }
        assert(-bound <= term <= bound) by (nonlinear_arith)
            requires
                term == tk as real / qq as real,
                tk as real == mag as real || tk as real == -(mag as real),
                mag as real >= 0real,
                (mag * w) as real == mag as real * w as real,
                (mag * w) as real <= qq as real,
                w as real > 0real,
                qq as real > 0real,
                bound == 1real / w as real,
        ;
        assert(series_sum(c, 0, n) == series_sum(c, 0, k) + term);
    }
}

/// e to `prec` bits via binary splitting of `Σ 1/k!`.
///
/// For the number `n >= 2` of terms used (the first with `(n−1)! >=
/// 2^(prec+68)`, as far as a 64-bit lower bound of the factorial tells),
/// the ball holds every point within `exp_one_tail(n)` of the partial sum.
/// Every intermediate stays well within the exponent range.
pub fn e_binsplit(prec: u32) -> (r: Ball)
    requires
        2 <= prec <= CONST_PREC_MAX,
    ensures
        r.wf(),
        r.small(),
        r.rel_accuracy() >= prec,
        exists|n: nat| #[trigger] encloses_e(r, n),
{
    let wp = prec + 64;
    let target: i64 = wp as i64 + 4;
    let mut n: u64 = 2;
    let mut acc = Float::from_i64(1);
    let mut go = true;
    proof {
        lemma_nonneg_unsigned(acc);
    }
    proof {
        let e = Series::ExpOne;
        assert(prod_q(e, 0, 0) == 1);
        assert(prod_q(e, 0, 1) == 1);
        assert(prod_q(e, 0, 2) == 1);
        acc.lemma_mant_bounds();
    }
    while go
        invariant
            2 <= n <= TERMS_MAX,
            go ==> n < TERMS_MAX,
            acc.small(),
            !acc.sign(),
            acc.val() <= prod_q(Series::ExpOne, 0, n as nat) as real,
            acc.low() >= -128 * n,
            go ==> acc.ex() <= target,
            target == wp + 4,
            wp <= CONST_PREC_MAX + 64,
            !go ==> n >= TERMS_MAX || pow2r(target as int) <= acc.val(),
        decreases TERMS_MAX - n,
    {
        let (a2, _) = acc.mul_u64(n, 64, Round::Down);
        let ghost n0 = n as nat;
        proof {
            let e = Series::ExpOne;
            a2.lemma_mant_bounds();
            acc.lemma_mant_bounds();
            assert(a2.within(EXP_SMALL as int));
            lemma_prod_pos(e, 0, n0);
            crate::fp::lemma_rounded_error(acc.sm() * n, acc.low(), 64, Round::Down);
            acc.lemma_val_abs();
            let p = pow2r(acc.low());
            lemma_pow2r_pos(acc.low());
            let f = prod_q(e, 0, n0);
            assert(acc.sm() >= 0);
            assert(acc.sm() * n >= 0) by (nonlinear_arith)
                requires
                    acc.sm() >= 0,
                    n >= 2,
            ;
            crate::dyadic::lemma_int_mul_real(acc.sm(), n as int);
            assert((acc.sm() * n) as real * p == acc.val() * n as real) by (nonlinear_arith)
                requires
                    (acc.sm() * n) as real == acc.sm() as real * n as real,
                    acc.val() == acc.sm() as real * p,
            ;
            assert(leaf_q(e, n0) == n0);
            assert(prod_q(e, 0, n0 + 1) == f * n0);
            crate::dyadic::lemma_int_mul_real(f, n0 as int);
            assert(acc.val() * n as real <= (f * n0) as real) by (nonlinear_arith)
                requires
                    acc.val() <= f as real,
                    (f * n0) as real == f as real * n0 as real,
                    n0 == n,
                    n >= 2,
            ;
            assert(acc.val() <= (f * n0) as real) by (nonlinear_arith)
                requires
                    acc.val() <= f as real,
                    (f * n0) as real == f as real * n0 as real,
                    n0 >= 2,
                    f >= 1,
            ;
            lemma_window_nonneg((acc.sm() * n) as nat, acc.low(), 64, Round::Down);
        }
        n = n + 1;
        if !a2.is_within(EXP_SMALL) || n >= TERMS_MAX {
            go = false;
        } else {
            acc = a2;
            proof {
                lemma_nonneg_unsigned(acc);
                acc.lemma_val_abs();
                crate::fp::lemma_mag_nonneg_pub(&acc);
            }
            go = match acc.exponent() {
                None => true,
                Some(e) => {
                    proof {
                        if e > target {
                            crate::dyadic::lemma_pow2r_le(target as int, e - 1);
                        }
                    }
                    e <= target
                },
            };
        }
    }
    let ghost nn = n as nat;
    let ghost ex = Series::ExpOne;
    let (_p, q, t) = split(Series::ExpOne, 0, n);
    proof {
        lemma_prod_pos(ex, 0, nn);
        lemma_tsum_is_sum(ex, 0, nn);
    }
    let qf = q.to_float();
    let tf = t.to_float();
    proof {
        lemma_pos_float(qf);
    }
    let bq = Ball::exact(qf.copy());
    let bt = Ball::exact(tf);
    proof {
        assert(bq.mid_f().within(0x100_0000_0000));
        assert(bt.mid_f().within(0x100_0000_0000));
        assert(crate::ball::exact_operands(bt, bq));
    }
    proof {
        assert(bq.contains_real(qf.val()));
        assert(bt.contains_real(bt.mid_val()));
        assert(!bq.contains_real(0real));
    }
    let s0 = bt.div(&bq, wp);
    let ghost sum = series_sum(ex, 0, nn);
    proof {
        assert(s0.contains_real(bt.mid_val() / qf.val()));
    }
    let one = Float::from_u64(1);
    let (inv_q, _) = one.div(&qf, 64, Round::Up);
    proof {
        lemma_div_up(one, qf, 64, inv_q.val());
        inv_q.lemma_mant_bounds();
        qf.lemma_mant_bounds();
        assert(inv_q.within(0x1000_0000_0000));
    }
    let i2 = inv_q.mul_2exp(1);
    proof {
        assert(i2.within(0x1000_0000_0000));
    }
    let tail = Mag::from_float_upper(&i2);
    let ghost bound = exp_one_tail(nn);
    proof {
        let qr = qf.val();
        assert(bound == 2real / qr);
        assert(pow2r(1) == 2real) by {
            vstd::arithmetic::power2::lemma2_to64();
        }
        assert(2real / qr <= inv_q.val() * 2real) by (nonlinear_arith)
            requires
                1real / qr <= inv_q.val(),
                qr > 0real,
        ;
        lemma_upper_of(i2, tail, bound);
    }
    proof {
        assert(tail.within(0x1000_0000_0000));
    }
    let s = s0.add_error(&tail);
    proof {
        assert(s.within_exp(0x1000_0000_0020int));
        // the product of the first n leaves reaches 2^target
        let qv = prod_q(ex, 0, nn);
        assert(qf.val() == qv as real);
        if n >= TERMS_MAX {
            lemma_fact_growth(nn);
            let k = (20 * (nn - 0x10_0000)) as nat;
            assert(target as nat <= k);
            if (target as nat) < k {
                vstd::arithmetic::power2::lemma_pow2_strictly_increases(target as nat, k);
            }
            crate::dyadic::lemma_pow2r_nat(target as nat);
            crate::fp::lemma_real_cast_order(vstd::arithmetic::power2::pow2(target as nat) as int, qv);
        }
        assert(pow2r(target as int) <= qf.val());
        lemma_div_up_double(one, qf, 64, inv_q.val());
        crate::dyadic::lemma_pow2r_pos(target as int);
        lemma_pow2r_pos(-29);
        lemma_pow2r_le(-29, 0);
        crate::dyadic::lemma_pow2r_nat(0);
        vstd::arithmetic::power2::lemma2_to64();
        i2.lemma_val_abs();
        crate::fp::lemma_mag_nonneg_pub(&i2);
        assert(i2.val() == inv_q.val() * 2real);
        assert(one.val() == 1real);
        let qr = qf.val();
        let pt = pow2r(target as int);
        assert(tail.val() <= 8real / qr) by (nonlinear_arith)
            requires
                tail.val() <= i2.mag() + i2.mag() * pow2r(-29),
                i2.mag() == i2.val(),
                i2.val() == inv_q.val() * 2real,
                inv_q.val() <= 2real * (1real / qr),
                0real < pow2r(-29) <= 1real,
                qr > 0real,
                i2.val() >= 0real,
        ;
        lemma_pow2r_add(-(wp as int) - 1, target as int);
        crate::dyadic::lemma_pow2r_nat(3);
        assert(pow2r(-(wp as int) - 1) * pt == 8real);
        assert(8real / qr <= pow2r(-(wp as int) - 1)) by (nonlinear_arith)
            requires
                pt <= qr,
                pt > 0real,
                pow2r(-(wp as int) - 1) * pt == 8real,
        ;
        tail.lemma_val_pos();
        assert(s0.contains_real(sum));
        lemma_exp_sum_ge_two(nn);
        lemma_e_accuracy(s0, s, tail, sum, wp as int);
    }
    let r = s.round(prec);
    proof {
        assert(r.within_exp(0x1000_0000_0020int + prec + 128));
    }
    proof {
        assert forall|sigma: real| #[trigger] near(sigma, sum, bound) implies r.contains_real(sigma) by {
            lemma_widened(s0, s, sum, bound, tail.val(), sigma);
        }
        assert(encloses_e(r, nn));
    }
    r
}

/// Terms of `Σ 9^−k/(2k+1)` summed for `prec` bits (≈ 3.17 bits each).
pub open spec fn ln2_terms(prec: nat) -> nat {
    (prec + 64) * 10 / 31 + 4
}

/// The bound used for the tail of `Σ 9^−k/(2k+1)` after `n` terms:
/// `9^−n · 9/8`.
pub open spec fn ln2_tail(n: nat) -> real {
    rpow(1real / 9real, n) * 9real / 8real
}

/// ln 2 to `prec` bits via binary splitting of `2·atanh(1/3) = (2/3)·Σ
/// 9^−k/(2k+1)`.
///
/// The ball holds `2σ/3` for every `σ` within `ln2_tail(n)` of the partial
/// sum of `n = ln2_terms(prec)` terms. Every intermediate stays well
/// within the exponent range.
pub fn ln2_binsplit(prec: u32) -> (r: Ball)
    requires
        2 <= prec <= CONST_PREC_MAX,
    ensures
        r.wf(),
        r.small(),
        forall|sigma: real|
            #[trigger] near(sigma, series_sum(Series::AtanhThird, 0, ln2_terms(prec as nat)), ln2_tail(ln2_terms(prec as nat)))
                ==> r.contains_real(sigma * 2real / 3real),
{
    let wp = prec + 64;
    let n: u64 = (wp as u64) * 10 / 31 + 4;
    let ghost nn = n as nat;
    let ghost at = Series::AtanhThird;
    let (_b, den, t) = split(Series::AtanhThird, 0, n);
    proof {
        lemma_prod_pos(at, 0, nn);
        lemma_tsum_is_sum(at, 0, nn);
    }
    let qf = den.to_float();
    let tf = t.to_float();
    proof {
        lemma_pos_float(qf);
    }
    let bq = Ball::exact(qf);
    let bt = Ball::exact(tf);
    proof {
        assert(crate::ball::exact_operands(bt, bq));
    }
    proof {
        assert(bq.contains_real(bq.mid_val()));
        assert(bt.contains_real(bt.mid_val()));
        assert(!bq.contains_real(0real));
    }
    let s0 = bt.div(&bq, wp);
    let ghost sum = series_sum(at, 0, nn);
    proof {
        assert(s0.contains_real(bt.mid_val() / bq.mid_val()));
    }
    let one = Float::from_u64(1);
    let nine = Float::from_u64(9);
    let (nth, _) = one.div(&nine, 64, Round::Up);
    proof {
        lemma_div_up(one, nine, 64, nth.val());
        nth.lemma_mant_bounds();
        one.lemma_mant_bounds();
        nine.lemma_mant_bounds();
        reveal_with_fuel(crate::dyadic::nbits, 5);
        assert(one.ex() == 1 && nine.ex() == 4);
        nth.lemma_val_zero();
        assert(nth.val() > 0real);
        assert(nth.mant() > 0);
        assert(-400 <= nth.low() <= nth.ex() <= 8);
        assert(n <= 0x60_0000);
        reveal(crate::directed::pow_in_range);
        reveal(crate::directed::pow_bound);
        assert((crate::directed::pow_reach(nth) + 64) * (n + 1) <= 0x1_0000_0000) by (nonlinear_arith)
            requires
                0 <= crate::directed::pow_reach(nth) <= 400,
                n <= 0x60_0000,
        ;
    }
    proof {
        assert(1real / 9real > 0real);
        lemma_nonneg_unsigned(nth);
    }
    let acc = pow_up(&nth, n).unwrap();
    let ne = nine.mul_2exp(-3);
    proof {
        crate::dyadic::lemma_pow2r_pos(-3);
        assert(ne.val() >= 0real);
        lemma_nonneg_unsigned(ne);
        lemma_rpow_mono(1real / 9real, nth.val(), nn);
        crate::directed::lemma_rpow_nonneg(1real / 9real, nn);
    }
    let (tl, _) = acc.mul(&ne, 64, Round::Up);
    proof {
        lemma_mul_directed(acc, ne, 64, Round::Up);
        acc.lemma_mant_bounds();
        ne.lemma_mant_bounds();
        tl.lemma_mant_bounds();
        assert(tl.within(0x1000_0000_0000));
    }
    let tail = Mag::from_float_upper(&tl);
    let ghost bound = ln2_tail(nn);
    proof {
        let h = pow2r(-3);
        assert(h == 1real / 8real) by {
            vstd::arithmetic::power2::lemma2_to64();
        }
        let x = rpow(1real / 9real, nn);
        assert(x * 9real / 8real <= acc.val() * ne.val()) by (nonlinear_arith)
            requires
                x <= acc.val(),
                ne.val() == 9real * h,
                h == 1real / 8real,
                x >= 0real,
        ;
        lemma_upper_of(tl, tail, bound);
    }
    proof {
        assert(tail.within(0x1000_0000_0000));
    }
    let s = s0.add_error(&tail);
    proof {
        assert(s.within_exp(0x1000_0000_0020int));
    }
    let s2 = s.mul_i64(2, wp);
    proof {
        assert(s2.within_exp(2 * 0x1000_0000_0020int + wp + 1024));
    }
    let s3 = s2.div_u64(3, wp);
    proof {
        assert(s3.within_exp(16 * (2 * 0x1000_0000_0020int + wp + 1024) + 0x10_0000_0000));
    }
    let r = s3.round(prec);
    proof {
        assert(r.within_exp(16 * (2 * 0x1000_0000_0020int + wp + 1024) + 0x10_0000_0000 + prec + 128));
    }
    proof {
        assert forall|sigma: real| #[trigger] near(sigma, sum, bound) implies r.contains_real(
            sigma * 2real / 3real,
        ) by {
            lemma_widened(s0, s, sum, bound, tail.val(), sigma);
            assert(s2.contains_real(sigma * 2i64 as real));
            assert(s3.contains_real(sigma * 2i64 as real / 3u64 as real));
        }
    }
    r
}

} // verus!
