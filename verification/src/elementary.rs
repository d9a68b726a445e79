//! Elementary functions on balls: exp, ln, atan, sin and cos.
//!
//! Each reduces its argument exactly or in ball arithmetic, sums a Taylor
//! series in ball arithmetic, widens the sum by a computed bound of the
//! truncated tail, and undoes the reduction in ball arithmetic; if the
//! result certifies fewer than `prec` bits it retries with more working
//! precision. Should an intermediate leave the exponent range of ball
//! arithmetic, the whole ball is returned.
use crate::ball::{abs_real, is_root, lemma_widen, Ball, BALL_EXP};
use crate::directed::{
    lemma_div_down, lemma_div_up, lemma_mul_directed, lemma_nonneg_unsigned, lemma_rpow_add,
    lemma_rpow_mono, lemma_rpow_nonneg, pow_up, rpow,
};
use crate::dyadic::pow2r;
use vstd::arithmetic::power2::pow2;
use crate::dyadic::max_int;
use crate::constants;
use crate::binsplit::{chud_tail, chud_terms, ln2_tail, ln2_terms, near, series_sum, Series};
use crate::fp::{Float, Round, EXP_SMALL};
use crate::mag::Mag;
use vstd::prelude::*;

verus! {

/// Largest `|x|` exponent accepted by exp, sin and cos.
pub const MAX_ARG_EXP: i64 = 40;

/// Number of retries with more working precision.
pub const MAX_ATTEMPTS: u32 = 4;

/// Largest precision accepted by the elementary functions: 2^19 bits.
pub const ELEM_PREC_MAX: u32 = 0x8_0000;

/// Extra working bits on attempt `attempt`.
pub open spec fn extra_bits(prec: nat, attempt: nat) -> nat {
    64 + (prec / 2) * attempt * attempt
}

fn attempt_extra(prec: u32, attempt: u32) -> (r: u32)
    requires
        prec <= ELEM_PREC_MAX,
        attempt <= MAX_ATTEMPTS,
    ensures
        r == extra_bits(prec as nat, attempt as nat),
        r <= 64 + 8 * ELEM_PREC_MAX,
{
    proof {
        assert((prec / 2) * attempt <= (prec / 2) * 4) by (nonlinear_arith)
            requires
                attempt <= 4,
        ;
        assert((prec / 2) * attempt * attempt <= (prec / 2) * 16) by (nonlinear_arith)
            requires
                attempt <= 4,
        ;
    }
    64 + (prec / 2) * attempt * attempt
}

/// `max(floor(√v), 1)`, a reduction parameter.
fn isqrt32(v: u32) -> (r: u32)
    ensures
        r >= 1,
        r <= 0x1_0000,
        v >= 1 ==> r * r <= v,
        v < (r + 1) * (r + 1),
{
    let mut lo: u32 = 0;
    let mut hi: u32 = 0x1_0000;
    proof {
        assert(0x1_0000 * 0x1_0000 > u32::MAX) by (nonlinear_arith);
    }
    while hi - lo > 1
        invariant
            lo < hi <= 0x1_0000,
            lo * lo <= v,
            v < hi * hi,
        decreases hi - lo,
    {
        let m = lo + (hi - lo) / 2;
        proof {
            assert(m * m <= 0x1_0000 * 0x1_0000) by (nonlinear_arith)
                requires
                    m <= 0x1_0000,
            ;
        }
        if (m as u64) * (m as u64) <= v as u64 {
            lo = m;
        } else {
            hi = m;
        }
    }
    if lo == 0 {
        proof {
            assert(hi == 1);
            assert(hi * hi == 1);
            assert(v < 1);
        }
        1
    } else {
        lo
    }
}

/// `n!`.
pub open spec fn factorial(n: nat) -> nat
    decreases n,
{
    if n == 0 {
        1
    } else {
        n * factorial((n - 1) as nat)
    }
}

pub(crate) proof fn lemma_factorial_pos(n: nat)
    ensures
        factorial(n) >= 1,
    decreases n,
{
    if n > 0 {
        lemma_factorial_pos((n - 1) as nat);
        assert(n * factorial((n - 1) as nat) >= 1) by (nonlinear_arith)
            requires
                n >= 1,
                factorial((n - 1) as nat) >= 1,
        ;
    }
}

/// `n!` rounded down at 64 bits (positive); `None` should it leave the
/// exponent range.
pub(crate) fn factorial_down(n: u64) -> (r: Option<Float>)
    requires
        n < 0x1_0000_0000,
    ensures
        r is Some,
        r matches Some(f) ==> f.small() && 0real < f.val() <= factorial(n as nat) as real,
        r matches Some(f) ==> f.within(0x80_0000_0000),
{
    let mut acc = Float::from_i64(1);
    let mut m: u64 = 2;
    if n < 2 {
        proof {
            assert(factorial(0) == 1);
            assert(factorial(1) == 1 * factorial(0));
        }
        return Some(acc);
    }
    proof {
        assert(factorial(1) == 1 * factorial(0));
    }
    while m <= n
        invariant
            2 <= m <= n + 1,
            n < 0x1_0000_0000,
            acc.small(),
            0real < acc.val() <= factorial((m - 1) as nat) as real,
            acc.low() >= -64 - 127 * (m - 2),
            acc.ex() <= 64 + 65 * (m - 2),
        decreases n + 1 - m,
    {
        let ghost a0 = acc.val();
        let (a2, _) = acc.mul_u64(m, 64, Round::Down);
        proof {
            crate::dyadic::lemma_int_mul_real(acc.sm(), m as int);
            lemma_nonneg_unsigned(acc);
            crate::fp::lemma_rounded_error(acc.sm() * m, acc.low(), 64, Round::Down);
            assert(acc.sm() >= 0);
            assert(acc.sm() * m >= 0) by (nonlinear_arith)
                requires
                    acc.sm() >= 0,
                    m >= 0,
            ;
            acc.lemma_val_abs();
            crate::dyadic::lemma_pow2r_pos(acc.low());
            assert((acc.sm() * m) as real * crate::dyadic::pow2r(acc.low()) == a0 * m as real) by (
            nonlinear_arith)
                requires
                    (acc.sm() * m) as real == acc.sm() as real * m as real,
                    a0 == acc.sm() as real * crate::dyadic::pow2r(acc.low()),
            ;
            lemma_factorial_pos((m - 1) as nat);
            assert(factorial(m as nat) == m * factorial((m - 1) as nat));
            crate::dyadic::lemma_nat_mul_real(m as nat, factorial((m - 1) as nat));
            assert(a0 * m as real <= factorial((m - 1) as nat) as real * m as real) by (nonlinear_arith)
                requires
                    a0 <= factorial((m - 1) as nat) as real,
                    m >= 2,
            ;
            assert(a0 * m as real > 0real) by (nonlinear_arith)
                requires
                    a0 > 0real,
                    m >= 2,
            ;
        }
        proof {
            acc.lemma_val_sign();
            crate::fp::lemma_rounded_error(acc.sm() * m, acc.low(), 64, Round::Down);
            assert(acc.sm() * m > 0) by (nonlinear_arith)
                requires
                    acc.sm() > 0,
                    m >= 2,
            ;
            a2.lemma_val_zero();
            a2.lemma_val_sign();
            assert(a2.mant() > 0);
            assert(a2.low() >= -64 - 127 * (m - 1));
            assert(a2.ex() <= 64 + 65 * (m - 1));
        }
        if !a2.is_within(EXP_SMALL) {
            return None;
        }
        proof {
            // a2 is 64-bit rounding down of a positive product: still positive.
            crate::fp::lemma_rounded_error(acc.sm() * m, acc.low(), 64, Round::Down);
            assert(acc.sm() * m > 0) by (nonlinear_arith)
                requires
                    acc.sm() > 0,
                    m >= 2,
            ;
        }
        acc = a2;
        m = m + 1;
    }
    Some(acc)
}

/// `1 − x` rounded down at 64 bits, when it is positive.
fn one_minus_down(x: &Float) -> (r: Option<Float>)
    requires
        x.small(),
    ensures
        r matches Some(f) ==> f.small() && !f.sign() && 0real < f.val() <= 1real - x.val(),
{
    let one = Float::from_i64(1);
    let (om, _) = one.sub(x, 64, Round::Down);
    proof {
        one.lemma_val_abs();
        x.lemma_val_abs();
        crate::directed::lemma_lin_directed(one, one.sign(), *x, !x.sign(), 64, Round::Down);
        crate::fp::lemma_rounded_error(
            crate::fp::lin_mant(one.mant(), one.low(), one.sign(), x.mant(), x.low(), !x.sign()),
            crate::fp::lin_low(one.mant(), one.low(), x.mant(), x.low()),
            64,
            Round::Down,
        );
        crate::fp::lemma_lin_exact(one, one.sign(), *x, !x.sign());
        let m = crate::fp::lin_mant(one.mant(), one.low(), one.sign(), x.mant(), x.low(), !x.sign());
        let e = crate::fp::lin_low(one.mant(), one.low(), x.mant(), x.low());
        crate::dyadic::lemma_pow2r_pos(e);
        let p = crate::dyadic::pow2r(e);
        if m <= 0 {
            assert((m as real) * p <= 0real) by (nonlinear_arith)
                requires
                    m <= 0,
                    p > 0real,
            ;
        } else {
            assert((m as real) * p > 0real) by (nonlinear_arith)
                requires
                    m > 0,
                    p > 0real,
            ;
        }
        om.lemma_val_sign();
    }
    if om.is_zero() || om.is_neg() || !om.is_within(EXP_SMALL) {
        return None;
    }
    Some(om)
}

/// A quotient of nonnegative floats, rounded up at 64 bits.
pub(crate) fn div_up(a: &Float, b: &Float) -> (r: Option<Float>)
    requires
        a.small(),
        b.small(),
        !a.sign(),
        !b.sign(),
        b.val() > 0real,
    ensures
        r matches Some(f) ==> f.small() && !f.sign() && a.val() / b.val() <= f.val(),
        a.within(EXP_SMALL / 4) && b.within(EXP_SMALL / 4) ==> r is Some,
{
    proof {
        b.lemma_val_sign();
        a.lemma_val_sign();
    }
    let (q, _) = a.div(b, 64, Round::Up);
    proof {
        q.lemma_mant_bounds();
        if a.within(EXP_SMALL / 4) && b.within(EXP_SMALL / 4) && q.mant() > 0 {
            let sh = crate::fp::div_shift(a.nlimbs(), b.nlimbs(), 64);
            assert(sh <= 3 + b.nlimbs());
            assert(b.nlimbs() <= 0x400_0000);
            assert(q.low() >= -EXP_SMALL);
            assert(q.ex() <= EXP_SMALL);
        }
    }
    proof {
        lemma_div_up(*a, *b, 64, q.val());
        assert(a.val() / b.val() >= 0real) by (nonlinear_arith)
            requires
                a.val() >= 0real,
                b.val() > 0real,
        ;
        lemma_nonneg_unsigned(q);
    }
    if !q.is_within(EXP_SMALL) {
        return None;
    }
    Some(q)
}

/// An upper bound of `x^n/n! · 1/(1 − x)` for `0 <= x < 1`, the tail of
/// the exponential series after `n` terms at `|r| <= x`.
fn exp_tail_bound(r_up: &Float, n: u64) -> (t: Option<Mag>)
    requires
        r_up.small(),
        !r_up.sign(),
        1 <= n < 0x1_0000_0000,
    ensures
        t matches Some(m) ==> m.within(BALL_EXP as int) && r_up.val() < 1real && rpow(r_up.val(), n as nat)
            / factorial(n as nat) as real / (1real - r_up.val()) <= m.val(),
{
    let ghost x = r_up.val();
    proof {
        r_up.lemma_val_sign();
    }
    if r_up.is_zero() {
        let z = Mag::zero();
        proof {
            assert(rpow(0real, n as nat) == 0real * rpow(0real, (n - 1) as nat));
            lemma_factorial_pos(n as nat);
            assert(x == 0real);
            let f = factorial(n as nat) as real;
            assert(0real / f / (1real - 0real) == 0real) by (nonlinear_arith)
                requires
                    f >= 1real,
            ;
        }
        return Some(z);
    }
    let num = match pow_up(r_up, n) {
        Some(v) => v,
        None => {
            return None;
        },
    };
    let den = match factorial_down(n) {
        Some(v) => v,
        None => {
            return None;
        },
    };
    proof {
        lemma_nonneg_unsigned(den);
    }
    let t = match div_up(&num, &den) {
        Some(v) => v,
        None => {
            return None;
        },
    };
    let om = match one_minus_down(r_up) {
        Some(v) => v,
        None => {
            return None;
        },
    };
    let t2 = match div_up(&t, &om) {
        Some(v) => v,
        None => {
            return None;
        },
    };
    let m = Mag::from_float_upper(&t2);
    if !m.is_within(BALL_EXP) {
        return None;
    }
    proof {
        let p = rpow(x, n as nat);
        let f = factorial(n as nat) as real;
        lemma_factorial_pos(n as nat);
        crate::fp::lemma_real_cast_order(1, factorial(n as nat) as int);
        lemma_rpow_nonneg(x, n as nat);
        assert(p / f >= 0real) by (nonlinear_arith)
            requires
                p >= 0real,
                f >= 1real,
        ;
        let nv = num.val();
        let dv = den.val();
        let tv = t.val();
        let ov = om.val();
        assert(p / f <= nv / dv) by (nonlinear_arith)
            requires
                0real <= p <= nv,
                0real < dv <= f,
        ;
        assert(p / f / (1real - x) <= tv / ov) by (nonlinear_arith)
            requires
                0real <= p / f <= nv / dv,
                nv / dv <= tv,
                0real < ov <= 1real - x,
        ;
        t2.lemma_val_abs();
        crate::fp::lemma_mag_nonneg_pub(&t2);
    }
    Some(m)
}

/// The exponential series `Σ_{j<n} ρ^j/j!` in Horner form from `m >= 1`:
/// `1 + ρ/m·(1 + ρ/(m+1)·(… (1 + ρ/(n−1))))`.
pub open spec fn exp_horner(rho: real, m: nat, n: nat) -> real
    decreases n - m,
{
    if m >= n || m == 0 {
        1real
    } else {
        1real + rho * exp_horner(rho, m + 1, n) / m as real
    }
}

/// The Taylor polynomial `Σ_{j<n} ρ^j/j!` of the exponential.
pub open spec fn exp_sum(rho: real, n: nat) -> real
    decreases n,
{
    if n == 0 {
        0real
    } else {
        exp_sum(rho, (n - 1) as nat) + rpow(rho, (n - 1) as nat) / factorial((n - 1) as nat) as real
    }
}

/// `Σ_{i=0}^{n−m} ρ^i·(m−1)!/(m−1+i)!`, the tail of the Taylor polynomial
/// from term `m − 1` on, scaled by `(m−1)!/ρ^(m−1)`.
spec fn exp_part(rho: real, m: nat, n: nat) -> real
    decreases n - m,
{
    if n <= m {
        1real
    } else {
        exp_part(rho, m, (n - 1) as nat) + rpow(rho, (n - m) as nat) * factorial((m - 1) as nat) as real
            / factorial((n - 1) as nat) as real
    }
}

/// One Horner step on the scaled tails: `1 + ρ/m·part(m+1) = part(m)`.
proof fn lemma_exp_part_step(rho: real, m: nat, n: nat)
    requires
        1 <= m < n,
    ensures
        1real + rho * exp_part(rho, m + 1, n) / m as real == exp_part(rho, m, n),
    decreases n - m,
{
    lemma_factorial_pos((m - 1) as nat);
    lemma_factorial_pos(m);
    assert(factorial(m) == m * factorial((m - 1) as nat));
    let fm1 = factorial((m - 1) as nat) as real;
    let fm = factorial(m) as real;
    crate::dyadic::lemma_nat_mul_real(m, factorial((m - 1) as nat));
    assert(fm == m as real * fm1);
    crate::fp::lemma_real_cast_order(1, factorial((m - 1) as nat) as int);
    crate::fp::lemma_real_cast_order(1, m as int);
    if n == m + 1 {
        assert(exp_part(rho, m + 1, n) == 1real);
        assert(exp_part(rho, m, n) == exp_part(rho, m, m) + rpow(rho, 1) * fm1 / fm);
        assert(exp_part(rho, m, m) == 1real);
        assert(rpow(rho, 1) == rho * rpow(rho, 0));
        assert(rho * 1real / m as real == rho * fm1 / fm) by (nonlinear_arith)
            requires
                fm == m as real * fm1,
                fm1 >= 1real,
                m as real >= 1real,
        ;
    } else {
        let n1 = (n - 1) as nat;
        lemma_exp_part_step(rho, m, n1);
        lemma_factorial_pos(n1);
        crate::fp::lemma_real_cast_order(1, factorial(n1) as int);
        let fn1 = factorial(n1) as real;
        let g = exp_part(rho, m + 1, n1);
        let p = rpow(rho, (n - (m + 1)) as nat);
        assert(exp_part(rho, m + 1, n) == g + p * fm / fn1);
        assert(exp_part(rho, m, n) == exp_part(rho, m, n1) + rpow(rho, (n - m) as nat) * fm1 / fn1);
        assert(rpow(rho, (n - m) as nat) == rho * p);
        assert(1real + rho * (g + p * fm / fn1) / m as real == (1real + rho * g / m as real) + (rho * p)
            * fm1 / fn1) by (nonlinear_arith)
            requires
                fm == m as real * fm1,
                m as real >= 1real,
                fn1 >= 1real,
        ;
    }
}

/// The Horner form is the Taylor polynomial: `exp_horner(ρ, 1, n)` is
/// `Σ_{j<n} ρ^j/j!`.
pub proof fn lemma_exp_horner_is_sum(rho: real, n: nat)
    requires
        n >= 1,
    ensures
        exp_horner(rho, 1, n) == exp_sum(rho, n),
{
    lemma_horner_part(rho, 1, n);
    lemma_part_sum(rho, n);
}

proof fn lemma_horner_part(rho: real, m: nat, n: nat)
    requires
        1 <= m <= n,
    ensures
        exp_horner(rho, m, n) == exp_part(rho, m, n),
    decreases n - m,
{
    if m < n {
        lemma_horner_part(rho, m + 1, n);
        lemma_exp_part_step(rho, m, n);
    }
}

proof fn lemma_part_sum(rho: real, n: nat)
    requires
        n >= 1,
    ensures
        exp_part(rho, 1, n) == exp_sum(rho, n),
    decreases n,
{
    assert(factorial(0) == 1);
    if n == 1 {
        assert(exp_sum(rho, 0) == 0real);
        assert(rpow(rho, 0) == 1real);
        assert(exp_sum(rho, 1) == 0real + 1real / 1real);
    } else {
        let n1 = (n - 1) as nat;
        lemma_part_sum(rho, n1);
        lemma_factorial_pos(n1);
        assert(exp_part(rho, 1, n) == exp_part(rho, 1, n1) + rpow(rho, n1) * 1real / factorial(n1) as real);
        assert(rpow(rho, n1) * 1real == rpow(rho, n1));
    }
}

/// `t` bounds the tail of the exponential series after `n` terms at `ρ`:
/// `|ρ| < 1` and `|ρ|^n/n! · 1/(1 − |ρ|) <= t`.
pub open spec fn exp_tail_ok(rho: real, n: nat, t: real) -> bool {
    &&& abs_real(rho) < 1real
    &&& rpow(abs_real(rho), n) / factorial(n) as real / (1real - abs_real(rho)) <= t
}

/// `r` holds `(Σ_{j<n} ρ^j/j! + ε)^(2^k)` with `ρ = ξ/2^k` for every `ξ`
/// of `x` and every `|ε| <= t`, where `t` bounds the series tail at each
/// such `ρ`: the reduction, series and squaring behind `exp`.
pub open spec fn exp_encloses(x: Ball, r: Ball, k: nat, n: nat, t: real) -> bool {
    &&& n >= 1
    &&& forall|xi: real| #[trigger] x.contains_real(xi) ==> exp_tail_ok(xi * pow2r(-(k as int)), n, t)
    &&& forall|xi: real, eps: real|
        #![trigger x.contains_real(xi), abs_real(eps)]
        x.contains_real(xi) && abs_real(eps) <= t ==> r.contains_real(
            rpow(exp_horner(xi * pow2r(-(k as int)), 1, n) + eps, pow2(k)),
        )
}

/// One evaluation of `exp(x)` with `extra` working bits: `x = r·2^k` with
/// `|r| <= 2^−j`, the Taylor sum of `exp(r)` widened by its tail bound, then
/// squared `k` times.
fn exp_attempt(x: &Ball, prec: u32, extra: u32) -> (r: Ball)
    requires
        x.small(),
        2 <= prec <= ELEM_PREC_MAX,
        extra <= 64 + 8 * ELEM_PREC_MAX,
    ensures
        r.wf(),
        r.is_whole() || exists|k: nat, n: nat, t: real| #[trigger] exp_encloses(*x, r, k, n, t),
{
    let up = x.abs_upper();
    let e: i64 = match up.exponent() {
        None => -(prec as i64),
        Some(v) => v,
    };
    if e > MAX_ARG_EXP {
        return Ball::whole();
    }
    let j: i64 = isqrt32(prec) as i64 + 2;
    let k: u32 = if e + j > 0 {
        (e + j) as u32
    } else {
        0
    };
    let wp: u32 = prec + extra + k + 16;
    let r = x.mul_2exp(-(k as i64));
    if !r.is_small() {
        return Ball::whole();
    }
    let r_up = r.abs_upper();
    if !r_up.is_within(EXP_SMALL) {
        return Ball::whole();
    }
    let jr0: i64 = match r_up.exponent() {
        None => wp as i64,
        Some(v) => -v,
    };
    let jr: i64 = if jr0 > 1 {
        jr0
    } else {
        1
    };
    let n: u64 = (wp as i64 / jr + 2) as u64;
    let ghost kk = k as nat;
    let ghost nn = n as nat;
    let ghost sc = pow2r(-(k as i64) as int);
    let one = Ball::from_i64(1);
    let mut s = Ball::from_i64(1);
    let mut m: u64 = n;
    proof {
        assert forall|rho: real| #[trigger] r.contains_real(rho) implies s.contains_real(
            exp_horner(rho, m as nat, nn),
        ) by {
            assert(exp_horner(rho, nn, nn) == 1real);
        }
    }
    while m > 1
        invariant
            r.small(),
            one.small(),
            s.small(),
            2 <= wp,
            1 <= m <= n,
            nn == n as nat,
            one.mid_val() == 1real && one.rad_val() == 0real,
            forall|rho: real| #[trigger] r.contains_real(rho) ==> s.contains_real(exp_horner(rho, m as nat, nn)),
        decreases m,
    {
        m = m - 1;
        let t = r.mul(&s, wp);
        if !t.is_small() {
            return Ball::whole();
        }
        let t2 = t.div_u64(m, wp);
        if !t2.is_small() {
            return Ball::whole();
        }
        let s2 = one.add(&t2, wp);
        if !s2.is_small() {
            return Ball::whole();
        }
        proof {
            assert forall|rho: real| #[trigger] r.contains_real(rho) implies s2.contains_real(
                exp_horner(rho, m as nat, nn),
            ) by {
                let h = exp_horner(rho, (m + 1) as nat, nn);
                assert(s.contains_real(h));
                assert(t.contains_real(rho * h));
                assert(t2.contains_real(rho * h / m as real));
                assert(one.contains_real(1real));
                assert(s2.contains_real(1real + rho * h / m as real));
                let mm = m as nat;
                assert(mm < nn && mm >= 1);
                assert(exp_horner(rho, mm, nn) == 1real + rho * exp_horner(rho, mm + 1, nn) / mm as real);
                assert((mm + 1) as nat == (m + 1) as nat);
            }
        }
        s = s2;
    }
    let tail = match exp_tail_bound(&r_up, n) {
        Some(t) => t,
        None => {
            return Ball::whole();
        },
    };
    let ghost tv = tail.val();
    let s0 = s.copy();
    let mut s = s.add_error(&tail);
    let ghost s1 = s;
    proof {
        assert(m == 1);
        assert forall|rho: real, eps: real|
            #![trigger r.contains_real(rho), abs_real(eps)]
            r.contains_real(rho) && abs_real(eps) <= tv implies s.contains_real(
            rpow(exp_horner(rho, 1, nn) + eps, pow2(0)),
        ) by {
            let h = exp_horner(rho, 1, nn);
            assert(s0.contains_real(h));
            assert(rpow(h + eps, 1) == (h + eps) * rpow(h + eps, 0));
            vstd::arithmetic::power2::lemma2_to64();
        }
    }
    let mut i: u32 = 0;
    while i < k
        invariant
            s.wf(),
            2 <= wp,
            i <= k,
            forall|rho: real, eps: real|
                #![trigger r.contains_real(rho), abs_real(eps)]
                r.contains_real(rho) && abs_real(eps) <= tv ==> s.contains_real(
                    rpow(exp_horner(rho, 1, nn) + eps, pow2(i as nat)),
                ),
        decreases k - i,
    {
        if !s.is_small() {
            return Ball::whole();
        }
        let s2 = s.mul(&s, wp);
        proof {
            assert forall|rho: real, eps: real|
                #![trigger r.contains_real(rho), abs_real(eps)]
                r.contains_real(rho) && abs_real(eps) <= tv implies s2.contains_real(
                rpow(exp_horner(rho, 1, nn) + eps, pow2((i + 1) as nat)),
            ) by {
                let v = exp_horner(rho, 1, nn) + eps;
                let p = pow2(i as nat);
                let w = rpow(v, p);
                assert(s.contains_real(w));
                assert(s2.contains_real(w * w));
                vstd::arithmetic::power2::lemma_pow2_adds(i as nat, 1);
                vstd::arithmetic::power2::lemma2_to64();
                assert(pow2((i + 1) as nat) == p + p);
                lemma_rpow_add(v, p, p);
            }
        }
        s = s2;
        i = i + 1;
    }
    proof {
        lemma_factorial_pos(nn);
        crate::fp::lemma_real_cast_order(1, factorial(nn) as int);
        assert forall|xi: real| #[trigger] x.contains_real(xi) implies exp_tail_ok(xi * sc, nn, tv) by {
            let rho = xi * sc;
            assert(r.contains_real(rho));
            let a = abs_real(rho);
            let u = r_up.val();
            assert(a <= u);
            assert(u < 1real);
            crate::directed::lemma_rpow_nonneg(a, nn);
            lemma_rpow_mono(a, u, nn);
            let f = factorial(nn) as real;
            let pa = rpow(a, nn);
            let pu = rpow(u, nn);
            assert(pa / f / (1real - a) <= pu / f / (1real - u)) by (nonlinear_arith)
                requires
                    0real <= pa <= pu,
                    f >= 1real,
                    0real <= a <= u < 1real,
            ;
        }
        assert forall|xi: real, eps: real|
            #![trigger x.contains_real(xi), abs_real(eps)]
            x.contains_real(xi) && abs_real(eps) <= tv implies s.contains_real(
            rpow(exp_horner(xi * sc, 1, nn) + eps, pow2(kk)),
        ) by {
            assert(r.contains_real(xi * sc));
        }
        assert(exp_encloses(*x, s, kk, nn, tv));
    }
    s
}

/// A ball holding every point of one that satisfies `exp_encloses` does
/// too.
proof fn lemma_exp_encloses_widen(x: Ball, r: Ball, r2: Ball, k: nat, n: nat, t: real)
    requires
        exp_encloses(x, r, k, n, t),
        forall|y: real| #[trigger] r.contains_real(y) ==> r2.contains_real(y),
    ensures
        exp_encloses(x, r2, k, n, t),
{
    assert forall|xi: real, eps: real|
        #![trigger x.contains_real(xi), abs_real(eps)]
        x.contains_real(xi) && abs_real(eps) <= t implies r2.contains_real(
        rpow(exp_horner(xi * pow2r(-(k as int)), 1, n) + eps, pow2(k)),
    ) by {
        assert(r.contains_real(rpow(exp_horner(xi * pow2r(-(k as int)), 1, n) + eps, pow2(k))));
    }
}

/// Rounding an attempt keeps what it encloses.
proof fn lemma_exp_round(x: Ball, r: Ball, r2: Ball)
    requires
        exists|k: nat, n: nat, t: real| #[trigger] exp_encloses(x, r, k, n, t),
        forall|y: real| #[trigger] r.contains_real(y) ==> r2.contains_real(y),
    ensures
        exists|k: nat, n: nat, t: real| #[trigger] exp_encloses(x, r2, k, n, t),
{
    let (k, n, t) = choose|k: nat, n: nat, t: real| #[trigger] exp_encloses(x, r, k, n, t);
    lemma_exp_encloses_widen(x, r, r2, k, n, t);
}

/// Whether `x` lies in the argument range of [`exp`], [`sin_cos`],
/// [`sin`] and [`cos`]: `|mid| + rad`, rounded up, below `2^MAX_ARG_EXP`.
pub fn arg_in_range(x: &Ball) -> (r: bool)
    requires
        x.small(),
    ensures
        r ==> abs_real(x.mid_val()) + x.rad_val() < pow2r(MAX_ARG_EXP as int),
{
    let up = x.abs_upper();
    proof {
        up.lemma_val_abs();
        crate::fp::lemma_mag_nonneg_pub(&up);
    }
    match up.exponent() {
        Some(e) => {
            proof {
                if e <= MAX_ARG_EXP {
                    crate::dyadic::lemma_pow2r_le(e as int, MAX_ARG_EXP as int);
                }
            }
            e <= MAX_ARG_EXP
        },
        None => {
            proof {
                crate::fp::lemma_mag_zero_pub(up.mant(), up.low());
                crate::dyadic::lemma_pow2r_pos(MAX_ARG_EXP as int);
            }
            true
        },
    }
}

/// `exp(x)` with about `prec` certified bits: for some reduction `2^k`,
/// series length `n` and tail bound `t` (see `exp_encloses`), the ball
/// holds `(Σ_{j<n} ρ^j/j! + ε)^(2^k)` for every `ξ` of `x`, `ρ = ξ/2^k`
/// and `|ε| <= t`. An exact zero gives exactly one. The argument must lie
/// below `2^40` in magnitude ([`arg_in_range`] tests it); one whose
/// bound, rounded up, reaches `2^40` gives the whole ball.
pub fn exp(x: &Ball, prec: u32) -> (r: Ball)
    requires
        x.small(),
        2 <= prec <= ELEM_PREC_MAX,
        abs_real(x.mid_val()) + x.rad_val() < pow2r(MAX_ARG_EXP as int),
    ensures
        r.wf(),
        x.mid_val() == 0real && x.rad_val() == 0real ==> r.mid_val() == 1real && r.rad_val() == 0real,
        r.is_whole() || exists|k: nat, n: nat, t: real| #[trigger] exp_encloses(*x, r, k, n, t),
{
    if x.is_exact() && x.mid().is_zero() {
        let one = Ball::from_i64(1);
        proof {
            assert forall|xi: real| #[trigger] x.contains_real(xi) implies exp_tail_ok(
                xi * pow2r(-(0nat as int)),
                1,
                0real,
            ) by {
                assert(xi == 0real);
                assert(pow2r(-(0nat as int)) == 1real) by {
                    vstd::arithmetic::power2::lemma2_to64();
                }
                assert(xi * pow2r(-(0nat as int)) == 0real);
                assert(abs_real(0real) == 0real);
                assert(rpow(0real, 1) == 0real * rpow(0real, 0));
                assert(factorial(0) == 1);
                assert(factorial(1) == 1 * factorial(0));
                assert(0real / (1nat as real) / (1real - 0real) == 0real);
            }
            assert forall|xi: real, eps: real|
                #![trigger x.contains_real(xi), abs_real(eps)]
                x.contains_real(xi) && abs_real(eps) <= 0real implies one.contains_real(
                rpow(exp_horner(xi * pow2r(-(0nat as int)), 1, 1) + eps, pow2(0)),
            ) by {
                vstd::arithmetic::power2::lemma2_to64();
                assert(eps == 0real);
                assert(exp_horner(xi * pow2r(0), 1, 1) == 1real);
                assert(rpow(1real, 1) == 1real * rpow(1real, 0));
            }
            assert(exp_encloses(*x, one, 0, 1, 0real));
        }
        return one;
    }
    let up = x.abs_upper();
    match up.exponent() {
        Some(e) => {
            if e > MAX_ARG_EXP {
                return Ball::whole();
            }
        },
        None => {},
    }
    let mut attempt: u32 = 0;
    while attempt < MAX_ATTEMPTS
        invariant
            x.small(),
            2 <= prec <= ELEM_PREC_MAX,
            attempt <= MAX_ATTEMPTS,
            !(x.mid_val() == 0real && x.rad_val() == 0real),
        decreases MAX_ATTEMPTS - attempt,
    {
        let r = exp_attempt(x, prec, attempt_extra(prec, attempt));
        if !r.is_small() {
            return Ball::whole();
        }
        if r.rel_accuracy_bits() >= prec as i64 {
            let r2 = r.round(prec);
            proof {
                lemma_exp_round(*x, r, r2);
            }
            return r2;
        }
        attempt = attempt + 1;
    }
    let r = exp_attempt(x, prec, attempt_extra(prec, MAX_ATTEMPTS));
    if !r.is_small() {
        return Ball::whole();
    }
    let r2 = r.round(prec);
    proof {
        lemma_exp_round(*x, r, r2);
    }
    r2
}

/// Whether `v` may go through a ball square root: a nonnegative midpoint,
/// and exact or wholly above zero.
fn sqrt_ok(v: &Ball) -> (r: bool)
    requires
        v.small(),
    ensures
        r <==> v.mid_val() >= 0real && (v.rad_val() == 0real || v.mid_val() - v.rad_val() > 0real),
{
    if v.mid().is_neg() {
        return false;
    }
    if v.is_exact() {
        return true;
    }
    let l = v.lower_bound();
    l.signum() > 0
}

/// `Σ_{m<n} z^(2m+1)/(2m+1)`, the atanh series cut after `n` terms.
pub open spec fn atanh_sum(z: real, n: nat) -> real
    decreases n,
{
    if n == 0 {
        0real
    } else {
        atanh_sum(z, (n - 1) as nat) + rpow(z, (2 * n - 1) as nat) / (2 * n - 1) as real
    }
}

/// `t` bounds the atanh tail after `n` terms at `z`: `|z| < 1` and
/// `|z|^(2n+1)/(2n+1) · 1/(1 − z²) <= t`.
pub open spec fn atanh_tail_ok(z: real, n: nat, t: real) -> bool {
    &&& abs_real(z) < 1real
    &&& rpow(abs_real(z), 2 * n + 1) / (2 * n + 1) as real / (1real - z * z) <= t
}

/// `r` holds `Σ_{m<n} ζ^(2m+1)/(2m+1) + ε` for every `ζ` of `zb` and every
/// `|ε| <= t`, where `t` bounds the series tail at each such `ζ`.
pub open spec fn atanh_encloses(zb: Ball, r: Ball, n: nat, t: real) -> bool {
    &&& forall|zeta: real| #[trigger] zb.contains_real(zeta) ==> atanh_tail_ok(zeta, n, t)
    &&& forall|zeta: real, eps: real|
        #![trigger zb.contains_real(zeta), abs_real(eps)]
        zb.contains_real(zeta) && abs_real(eps) <= t ==> r.contains_real(atanh_sum(zeta, n) + eps)
}

/// A ball all of whose points are zero holds the one-term atanh series
/// with tail bound zero.
proof fn lemma_atanh_zero(z: Ball, r: Ball)
    requires
        forall|zeta: real| #[trigger] z.contains_real(zeta) ==> zeta == 0real,
        forall|x: real| #[trigger] r.contains_real(x) <==> z.contains_real(x),
    ensures
        atanh_encloses(z, r, 1, 0real),
{
    assert(rpow(0real, 1) == 0real * rpow(0real, 0));
    assert(rpow(0real, 3) == 0real * rpow(0real, 2));
    assert(atanh_sum(0real, 0) == 0real);
    assert(atanh_sum(0real, 1) == atanh_sum(0real, 0) + rpow(0real, 1) / 1int as real);
    assert(0real / 1int as real == 0real);
    assert forall|zeta: real| #[trigger] z.contains_real(zeta) implies atanh_tail_ok(zeta, 1, 0real) by {
        assert(zeta == 0real);
        assert(0real / 3real / (1real - 0real * 0real) == 0real);
    }
    assert forall|zeta: real, eps: real|
        #![trigger z.contains_real(zeta), abs_real(eps)]
        z.contains_real(zeta) && abs_real(eps) <= 0real implies r.contains_real(atanh_sum(zeta, 1) + eps) by {
        assert(zeta == 0real);
        assert(eps == 0real);
    }
}

/// The computed tail bound covers the atanh tail at a point `ζ` of the
/// ball: `|ζ| <= zu`, `zu² <= z2 < 1 − … `, and the directed quotients.
proof fn lemma_atanh_tail_at(
    zeta: real,
    n: nat,
    zu: real,
    z2: real,
    om: real,
    num: real,
    num2: real,
    t: real,
    tv: real,
)
    requires
        abs_real(zeta) <= zu,
        zu * zu <= z2,
        0real < om <= 1real - z2,
        rpow(zu, 2 * n + 1) <= num,
        num / (2 * n + 1) as real <= num2,
        num2 / om <= t,
        t <= tv,
    ensures
        atanh_tail_ok(zeta, n, tv),
{
    let a = abs_real(zeta);
    let dv = (2 * n + 1) as real;
    crate::fp::lemma_real_cast_order(1, (2 * n + 1) as int);
    assert(zeta * zeta == a * a) by (nonlinear_arith)
        requires
            a == abs_real(zeta),
    ;
    assert(a * a <= zu * zu) by (nonlinear_arith)
        requires
            0real <= a <= zu,
    ;
    assert(a < 1real) by (nonlinear_arith)
        requires
            0real <= a,
            a * a <= zu * zu,
            zu * zu <= z2,
            0real < om <= 1real - z2,
    ;
    lemma_rpow_mono(a, zu, 2 * n + 1);
    lemma_rpow_nonneg(a, 2 * n + 1);
    let pa = rpow(a, 2 * n + 1);
    assert(pa / dv / (1real - zeta * zeta) <= tv) by (nonlinear_arith)
        requires
            0real <= pa <= rpow(zu, 2 * n + 1),
            rpow(zu, 2 * n + 1) <= num,
            num / dv <= num2,
            num2 / om <= t,
            t <= tv,
            dv >= 1real,
            0real < om <= 1real - z2,
            zeta * zeta <= z2,
    ;
}

/// One step of the atanh series on balls: from `ζ^(2m−1)` and the sum of
/// `m` terms to `ζ^(2m+1)` and the sum of `m + 1` terms, at every `ζ`.
proof fn lemma_atanh_step(
    z: Ball,
    u: Ball,
    term: Ball,
    t2: Ball,
    c: Ball,
    sum: Ball,
    s2: Ball,
    m: nat,
    v: u64,
)
    requires
        m >= 1,
        v == 2 * m + 1,
        forall|zeta: real| #[trigger] z.contains_real(zeta) ==> u.contains_real(zeta * zeta),
        forall|zeta: real|
            #[trigger] z.contains_real(zeta) ==> term.contains_real(rpow(zeta, (2 * m - 1) as nat))
                && sum.contains_real(atanh_sum(zeta, m)),
        forall|x: real, y: real|
            #![trigger term.contains_real(x), u.contains_real(y)]
            term.contains_real(x) && u.contains_real(y) ==> t2.contains_real(x * y),
        forall|x: real| #[trigger] t2.contains_real(x) ==> c.contains_real(x / v as real),
        forall|x: real, y: real|
            #![trigger sum.contains_real(x), c.contains_real(y)]
            sum.contains_real(x) && c.contains_real(y) ==> s2.contains_real(x + y),
    ensures
        forall|zeta: real|
            #[trigger] z.contains_real(zeta) ==> t2.contains_real(rpow(zeta, (2 * (m + 1) - 1) as nat))
                && s2.contains_real(atanh_sum(zeta, m + 1)),
{
    assert forall|zeta: real| #[trigger] z.contains_real(zeta) implies t2.contains_real(
        rpow(zeta, (2 * (m + 1) - 1) as nat),
    ) && s2.contains_real(atanh_sum(zeta, m + 1)) by {
        let p = rpow(zeta, (2 * m - 1) as nat);
        assert(u.contains_real(zeta * zeta));
        assert(term.contains_real(p));
        assert(t2.contains_real(p * (zeta * zeta)));
        assert(rpow(zeta, (2 * m + 1) as nat) == zeta * rpow(zeta, (2 * m) as nat));
        assert(rpow(zeta, (2 * m) as nat) == zeta * p);
        assert(p * (zeta * zeta) == zeta * (zeta * p)) by (nonlinear_arith);
        assert((2 * (m + 1) - 1) as nat == (2 * m + 1) as nat);
        let q = rpow(zeta, (2 * m + 1) as nat);
        assert(c.contains_real(q / v as real));
        assert(atanh_sum(zeta, m + 1) == atanh_sum(zeta, m) + q / (2 * (m + 1) - 1) as real);
        assert((2 * (m + 1) - 1) as real == v as real);
    }
}

/// An upper bound of `x^(2n+1)/(2n+1) · 1/(1 − x²)` for `0 <= x < 1`, the
/// tail of the atanh series after `n` terms at `|z| <= x`.
fn atanh_tail(z_up: &Float, n: u64) -> (r: Option<Mag>)
    requires
        z_up.small(),
        !z_up.sign(),
        1 <= n <= 0x200_0000,
    ensures
        r matches Some(m) ==> m.within(BALL_EXP as int) && forall|zeta: real|
            abs_real(zeta) <= z_up.val() ==> #[trigger] atanh_tail_ok(zeta, n as nat, m.val()),
{
    proof {
        z_up.lemma_val_sign();
    }
    let num = match pow_up(z_up, 2 * n + 1) {
        Some(v) => v,
        None => {
            return None;
        },
    };
    let d = Float::from_u64(2 * n + 1);
    proof {
        lemma_nonneg_unsigned(d);
    }
    let num2 = match div_up(&num, &d) {
        Some(v) => v,
        None => {
            return None;
        },
    };
    let (z2, _) = z_up.mul(z_up, 64, Round::Up);
    proof {
        lemma_mul_directed(*z_up, *z_up, 64, Round::Up);
    }
    if !z2.is_within(EXP_SMALL) {
        return None;
    }
    let om = match one_minus_down(&z2) {
        Some(v) => v,
        None => {
            return None;
        },
    };
    let t = match div_up(&num2, &om) {
        Some(v) => v,
        None => {
            return None;
        },
    };
    let tail = Mag::from_float_upper(&t);
    if !tail.is_within(BALL_EXP) {
        return None;
    }
    proof {
        t.lemma_val_abs();
        let nn = n as nat;
        assert(d.val() == (2 * nn + 1) as real);
        assert forall|zeta: real| abs_real(zeta) <= z_up.val() implies #[trigger] atanh_tail_ok(
            zeta,
            nn,
            tail.val(),
        ) by {
            lemma_atanh_tail_at(
                zeta,
                nn,
                z_up.val(),
                z2.val(),
                om.val(),
                num.val(),
                num2.val(),
                t.val(),
                tail.val(),
            );
        }
    }
    Some(tail)
}

/// `atanh(z) = Σ z^(2m+1)/(2m+1)` for a small ball `z`, widened by the
/// geometric bound `|z|^(2n+1)/(2n+1) · 1/(1 − |z|²)` of the omitted tail.
fn atanh_series(z: &Ball, wp: u32) -> (r: Ball)
    requires
        z.small(),
        2 <= wp <= 0x100_0000,
    ensures
        r.wf(),
        r.is_whole() || exists|n: nat, t: real| #[trigger] atanh_encloses(*z, r, n, t),
{
    let z_up = z.abs_upper();
    if !z_up.is_within(EXP_SMALL) {
        return Ball::whole();
    }
    if z_up.is_zero() {
        let r = z.copy();
        proof {
            lemma_atanh_zero(*z, r);
        }
        return r;
    }
    let ez: i64 = match z_up.exponent() {
        Some(v) => v,
        None => 0,
    };
    let jz: i64 = if -ez > 1 {
        -ez
    } else {
        1
    };
    proof {
        let d = 2 * jz as int;
        let w = wp as int;
        assert(w / d <= w && w / d >= 0) by (nonlinear_arith)
            requires
                d >= 2,
                w >= 0,
        ;
    }
    let n: u64 = (wp as i64 / (2 * jz) + 2) as u64;
    let u = z.mul(z, wp);
    if !u.is_small() {
        return Ball::whole();
    }
    let mut term = z.copy();
    let mut sum = z.copy();
    let mut m: u64 = 1;
    proof {
        assert forall|zeta: real| #[trigger] z.contains_real(zeta) implies term.contains_real(
            rpow(zeta, 1),
        ) && sum.contains_real(atanh_sum(zeta, 1)) by {
            assert(rpow(zeta, 1) == zeta * rpow(zeta, 0));
            assert(atanh_sum(zeta, 0) == 0real);
            assert(atanh_sum(zeta, 1) == atanh_sum(zeta, 0) + rpow(zeta, 1) / 1int as real);
            assert(rpow(zeta, 1) / 1int as real == rpow(zeta, 1));
        }
    }
    while m < n
        invariant
            1 <= m <= n,
            u.small(),
            term.small(),
            sum.small(),
            2 <= wp,
            n <= 0x200_0000,
            forall|zeta: real| #[trigger] z.contains_real(zeta) ==> u.contains_real(zeta * zeta),
            forall|zeta: real|
                #[trigger] z.contains_real(zeta) ==> term.contains_real(rpow(zeta, (2 * m - 1) as nat))
                    && sum.contains_real(atanh_sum(zeta, m as nat)),
        decreases n - m,
    {
        let t2 = term.mul(&u, wp);
        if !t2.is_small() {
            return Ball::whole();
        }
        let c = t2.div_u64(2 * m + 1, wp);
        if !c.is_small() {
            return Ball::whole();
        }
        let s2 = sum.add(&c, wp);
        if !s2.is_small() {
            return Ball::whole();
        }
        proof {
            lemma_atanh_step(*z, u, term, t2, c, sum, s2, m as nat, (2 * m + 1) as u64);
        }
        term = t2;
        sum = s2;
        m = m + 1;
    }
    let tail = match atanh_tail(&z_up, n) {
        Some(v) => v,
        None => {
            return Ball::whole();
        },
    };
    let r = sum.add_error(&tail);
    proof {
        let tv = tail.val();
        let nn = n as nat;
        assert forall|zeta: real| #[trigger] z.contains_real(zeta) implies atanh_tail_ok(zeta, nn, tv) by {
            assert(abs_real(zeta) <= z_up.val());
        }
        assert forall|zeta: real, eps: real|
            #![trigger z.contains_real(zeta), abs_real(eps)]
            z.contains_real(zeta) && abs_real(eps) <= tv implies r.contains_real(
            atanh_sum(zeta, nn) + eps,
        ) by {
            assert(sum.contains_real(atanh_sum(zeta, nn)));
            lemma_widen(sum, r, atanh_sum(zeta, nn), tv);
        }
        assert(atanh_encloses(*z, r, nn, tv));
    }
    r
}

/// `w^(2^j)` is a square root of `w^(2^(j+1))`.
proof fn lemma_root_step(w: real, j: nat)
    requires
        w >= 0real,
    ensures
        is_root(rpow(w, pow2(j)), rpow(w, pow2(j + 1))),
{
    vstd::arithmetic::power2::lemma_pow2_unfold(j + 1);
    lemma_rpow_add(w, pow2(j), pow2(j));
    lemma_rpow_nonneg(w, pow2(j));
}

/// `r` holds `(Σ_{m<n} ζ^(2m+1)/(2m+1) + ε)·2^(k+1)` with `ζ = (w−1)/(w+1)`
/// for every `w >= 0` whose `2^k`-th power lies in `y` and every
/// `|ε| <= t`, where `t` bounds the series tail at each such `ζ`: the
/// reduction `ln y = 2^(k+1)·atanh((w−1)/(w+1))` with `w = y^(1/2^k)`.
pub open spec fn ln_core_encloses(y: Ball, r: Ball, k: nat, n: nat, t: real) -> bool {
    &&& forall|w: real|
        w >= 0real && #[trigger] y.contains_real(rpow(w, pow2(k))) ==> atanh_tail_ok(
            (w - 1real) / (w + 1real),
            n,
            t,
        )
    &&& forall|w: real, eps: real|
        #![trigger y.contains_real(rpow(w, pow2(k))), abs_real(eps)]
        w >= 0real && y.contains_real(rpow(w, pow2(k))) && abs_real(eps) <= t ==> r.contains_real(
            (atanh_sum((w - 1real) / (w + 1real), n) + eps) * pow2r(k + 1int),
        )
}

/// `ln(y)` for a ball near `[1, 2]`: `k` square roots bring `y` close to
/// one, then `ln v = 2·atanh((v − 1)/(v + 1))`, scaled back by `2^k`.
pub fn ln_core(y: &Ball, wp: u32) -> (r: Ball)
    requires
        y.small(),
        2 <= wp <= 0x100_0000,
    ensures
        r.wf(),
        r.is_whole() || exists|k: nat, n: nat, t: real| #[trigger] ln_core_encloses(*y, r, k, n, t),
{
    let k = isqrt32(wp / 10);
    let ghost kn = k as nat;
    let mut v = y.copy();
    let mut i: u32 = 0;
    proof {
        assert forall|w: real| w >= 0real && #[trigger] y.contains_real(rpow(w, pow2(kn))) implies v.contains_real(
            rpow(w, pow2((kn - 0) as nat)),
        ) by {}
    }
    while i < k
        invariant
            v.small(),
            2 <= wp,
            i <= k,
            kn == k as nat,
            forall|w: real|
                w >= 0real && #[trigger] y.contains_real(rpow(w, pow2(kn))) ==> v.contains_real(
                    rpow(w, pow2((kn - i) as nat)),
                ),
        decreases k - i,
    {
        if !sqrt_ok(&v) {
            return Ball::whole();
        }
        let v2 = v.sqrt(wp);
        if !v2.is_small() {
            return Ball::whole();
        }
        proof {
            assert forall|w: real| w >= 0real && #[trigger] y.contains_real(rpow(w, pow2(kn))) implies v2.contains_real(
                rpow(w, pow2((kn - (i + 1)) as nat)),
            ) by {
                let j = (kn - (i + 1)) as nat;
                lemma_root_step(w, j);
                assert(j + 1 == (kn - i) as nat);
                assert(v.contains_real(rpow(w, pow2(j + 1))));
            }
        }
        v = v2;
        i = i + 1;
    }
    let one = Ball::from_i64(1);
    let t = v.sub(&one, wp);
    if !t.is_small() {
        return Ball::whole();
    }
    let two = Ball::from_i64(2);
    let den = t.add(&two, wp);
    if !den.is_small() || den.contains_zero() {
        return Ball::whole();
    }
    let z = t.div(&den, wp);
    if !z.is_small() {
        return Ball::whole();
    }
    let s = atanh_series(&z, wp);
    if !s.is_small() {
        return Ball::whole();
    }
    let r = s.mul_2exp(k as i64 + 1);
    proof {
        let (n, tt) = choose|n: nat, tt: real| #[trigger] atanh_encloses(z, s, n, tt);
        vstd::arithmetic::power2::lemma2_to64();
        assert forall|w: real| w >= 0real && #[trigger] y.contains_real(rpow(w, pow2(kn))) implies z.contains_real(
            (w - 1real) / (w + 1real),
        ) by {
            assert(v.contains_real(rpow(w, pow2(0))));
            assert(rpow(w, 1) == w * rpow(w, 0));
            assert(v.contains_real(w));
            assert(one.contains_real(1real));
            assert(t.contains_real(w - 1real));
            assert(two.contains_real(2real));
            assert(den.contains_real((w - 1real) + 2real));
            assert((w - 1real) + 2real == w + 1real);
        }
        assert forall|w: real, eps: real|
            #![trigger y.contains_real(rpow(w, pow2(kn))), abs_real(eps)]
            w >= 0real && y.contains_real(rpow(w, pow2(kn))) && abs_real(eps) <= tt implies r.contains_real(
            (atanh_sum((w - 1real) / (w + 1real), n) + eps) * pow2r(kn + 1int),
        ) by {
            let zeta = (w - 1real) / (w + 1real);
            assert(z.contains_real(zeta));
            assert(s.contains_real(atanh_sum(zeta, n) + eps));
            assert((k as i64 + 1) as int == kn + 1int);
        }
        assert(ln_core_encloses(*y, r, kn, n, tt));
    }
    r
}

/// `r` holds `ln x` as computed from `x = m·2^e`: for every `w >= 0` with
/// `w^(2^k)·2^e` in `x`, every `|ε| <= t` and every `σ` within the tail
/// bound of the `ln 2` series partial sum at `p` bits,
/// `(Σ_{m<n} ζ^(2m+1)/(2m+1) + ε)·2^(k+1) + (2σ/3)·e` with
/// `ζ = (w−1)/(w+1)`, where `t` bounds the atanh tail at each such `ζ`.
pub open spec fn ln_encloses(x: Ball, r: Ball, e: int, k: nat, n: nat, t: real, p: nat) -> bool {
    &&& forall|w: real|
        w >= 0real && #[trigger] x.contains_real(rpow(w, pow2(k)) * pow2r(e)) ==> atanh_tail_ok(
            (w - 1real) / (w + 1real),
            n,
            t,
        )
    &&& forall|w: real, eps: real, sigma: real|
        #![trigger x.contains_real(rpow(w, pow2(k)) * pow2r(e)), abs_real(eps), ln2_near(sigma, p)]
        w >= 0real && x.contains_real(rpow(w, pow2(k)) * pow2r(e)) && abs_real(eps) <= t && ln2_near(
            sigma,
            p,
        ) ==> r.contains_real(
            (atanh_sum((w - 1real) / (w + 1real), n) + eps) * pow2r(k + 1int) + (sigma * 2real / 3real) * e as real,
        )
}

/// `σ` lies within the tail bound of the partial sum of the series behind
/// `ln 2 = (2/3)·Σ 1/((2j+1)·9^j)` at `p` bits.
pub open spec fn ln2_near(sigma: real, p: nat) -> bool {
    near(
        sigma,
        series_sum(Series::AtanhThird, 0, ln2_terms(constants::headroom(p))),
        ln2_tail(ln2_terms(constants::headroom(p))),
    )
}

/// The whole ball, or a ball holding `ln x` as [`ln_encloses`] states for
/// some decomposition and working precision.
pub open spec fn ln_result(x: Ball, r: Ball) -> bool {
    r.is_whole() || exists|e: int, k: nat, n: nat, t: real, p: nat|
        #[trigger] ln_encloses(x, r, e, k, n, t, p)
}

/// A ball holding every point of one holding `ln x` holds `ln x` too.
proof fn lemma_ln_result_widen(x: Ball, r: Ball, r2: Ball)
    requires
        ln_result(x, r),
        !r.is_whole(),
        forall|v: real| r.contains_real(v) ==> #[trigger] r2.contains_real(v),
    ensures
        ln_result(x, r2),
{
    let (e, k, n, t, p) = choose|e: int, k: nat, n: nat, t: real, p: nat|
        #[trigger] ln_encloses(x, r, e, k, n, t, p);
    assert(ln_encloses(x, r2, e, k, n, t, p));
}

/// One evaluation of `ln(x)` for a ball wholly above zero: split off the
/// exponent, `ln x = ln(m) + e·ln 2` with `m` near `[1, 2)`.
fn ln_attempt(x: &Ball, prec: u32, extra: u32) -> (r: Ball)
    requires
        x.small(),
        x.mid_val() - x.rad_val() > 0real,
        2 <= prec <= ELEM_PREC_MAX,
        extra <= 64 + 8 * ELEM_PREC_MAX,
    ensures
        r.wf(),
        ln_result(*x, r),
{
    let wp = prec + extra + 2 * isqrt32(prec) + 16;
    let e2: i64 = match x.mid().exponent() {
        Some(v) => v - 1,
        None => 0,
    };
    let m2 = x.mul_2exp(-e2);
    if !m2.is_small() {
        return Ball::whole();
    }
    let lnm = ln_core(&m2, wp);
    let ghost ge = e2 as int;
    proof {
        if !lnm.is_whole() {
            let (k, n, t) = choose|k: nat, n: nat, t: real| #[trigger] ln_core_encloses(m2, lnm, k, n, t);
            assert forall|w: real|
                w >= 0real && #[trigger] x.contains_real(rpow(w, pow2(k)) * pow2r(ge)) implies m2.contains_real(
                rpow(w, pow2(k)),
            ) by {
                let q = rpow(w, pow2(k));
                assert(m2.contains_real(q * pow2r(ge) * pow2r(-ge)));
                crate::dyadic::lemma_pow2r_add(ge, -ge);
                assert(pow2r(0) == 1real) by {
                    vstd::arithmetic::power2::lemma2_to64();
                }
                assert(q * pow2r(ge) * pow2r(-ge) == q * (pow2r(ge) * pow2r(-ge))) by (nonlinear_arith);
            }
        }
    }
    if e2 == 0 {
        proof {
            if !lnm.is_whole() {
                let (k, n, t) = choose|k: nat, n: nat, t: real| #[trigger] ln_core_encloses(m2, lnm, k, n, t);
                assert forall|w: real, eps: real, sigma: real|
                    #![trigger x.contains_real(rpow(w, pow2(k)) * pow2r(0)), abs_real(eps), ln2_near(sigma, 0)]
                    w >= 0real && x.contains_real(rpow(w, pow2(k)) * pow2r(0)) && abs_real(eps) <= t
                        && ln2_near(sigma, 0) implies lnm.contains_real(
                    (atanh_sum((w - 1real) / (w + 1real), n) + eps) * pow2r(k + 1int) + (sigma * 2real
                        / 3real) * 0int as real,
                ) by {
                    assert(m2.contains_real(rpow(w, pow2(k))));
                }
                assert(ln_encloses(*x, lnm, 0, k, n, t, 0));
            }
        }
        return lnm;
    }
    let l2 = constants::ln2(wp + 8);
    if !l2.is_small() || !lnm.is_small() {
        return Ball::whole();
    }
    let t = l2.mul_i64(e2, wp);
    if !t.is_small() {
        return Ball::whole();
    }
    let r = lnm.add(&t, wp);
    proof {
        let (k, n, tt) = choose|k: nat, n: nat, tt: real| #[trigger] ln_core_encloses(m2, lnm, k, n, tt);
        let p = (wp + 8) as nat;
        assert forall|w: real, eps: real, sigma: real|
            #![trigger x.contains_real(rpow(w, pow2(k)) * pow2r(ge)), abs_real(eps), ln2_near(sigma, p)]
            w >= 0real && x.contains_real(rpow(w, pow2(k)) * pow2r(ge)) && abs_real(eps) <= tt && ln2_near(
                sigma,
                p,
            ) implies r.contains_real(
            (atanh_sum((w - 1real) / (w + 1real), n) + eps) * pow2r(k + 1int) + (sigma * 2real / 3real)
                * ge as real,
        ) by {
            assert(m2.contains_real(rpow(w, pow2(k))));
            assert(l2.contains_real(sigma * 2real / 3real));
            assert(t.contains_real((sigma * 2real / 3real) * e2 as real));
        }
        assert(ln_encloses(*x, r, ge, k, n, tt, p));
    }
    r
}

/// `ln(x)`, or `None` when the ball reaches down to zero or below (its
/// 64-bit lower bound `mid − rad` is not positive). An exact one gives
/// exactly zero; otherwise the result holds `ln x` as [`ln_encloses`]
/// states, or is the whole ball.
pub fn try_ln(x: &Ball, prec: u32) -> (r: Option<Ball>)
    requires
        x.small(),
        2 <= prec <= ELEM_PREC_MAX,
    ensures
        r is None <==> x.mid_val() - x.rad_val() <= 0real,
        r matches Some(b) ==> b.wf() && ln_result(*x, b),
        x.mid_val() == 1real && x.rad_val() == 0real ==> (r matches Some(b) && b.mid_val() == 0real
            && b.rad_val() == 0real),
{
    let l = x.lower_bound();
    if l.signum() <= 0 {
        return None;
    }
    let one = Float::from_i64(1);
    if x.is_exact() && x.mid().compare_val(&one) == 0 {
        let z = Ball::zero();
        proof {
            lemma_ln_one(*x, z);
        }
        return Some(z);
    }
    let mut attempt: u32 = 0;
    while attempt < MAX_ATTEMPTS
        invariant
            x.small(),
            x.mid_val() - x.rad_val() > 0real,
            2 <= prec <= ELEM_PREC_MAX,
            attempt <= MAX_ATTEMPTS,
            !(x.mid_val() == 1real && x.rad_val() == 0real),
        decreases MAX_ATTEMPTS - attempt,
    {
        let r = ln_attempt(x, prec, attempt_extra(prec, attempt));
        if !r.is_small() {
            return Some(Ball::whole());
        }
        if r.rel_accuracy_bits() >= prec as i64 {
            let rr = r.round(prec);
            proof {
                lemma_ln_result_widen(*x, r, rr);
            }
            return Some(rr);
        }
        attempt = attempt + 1;
    }
    let r = ln_attempt(x, prec, attempt_extra(prec, MAX_ATTEMPTS));
    if !r.is_small() {
        return Some(Ball::whole());
    }
    let rr = r.round(prec);
    proof {
        lemma_ln_result_widen(*x, r, rr);
    }
    Some(rr)
}

/// The exact zero ball holds `ln 1` as [`ln_encloses`] states: `w = 1`,
/// no square roots, one series term, no tail.
proof fn lemma_ln_one(x: Ball, z: Ball)
    requires
        x.mid_val() == 1real,
        x.rad_val() == 0real,
        z.mid_val() == 0real,
        z.rad_val() == 0real,
    ensures
        ln_result(x, z),
{
    vstd::arithmetic::power2::lemma2_to64();
    assert(pow2r(0) == 1real);
    assert(pow2r(1) == 2real);
    assert forall|w: real| w >= 0real && #[trigger] x.contains_real(rpow(w, pow2(0)) * pow2r(0)) implies atanh_tail_ok(
        (w - 1real) / (w + 1real),
        1,
        0real,
    ) by {
        assert(rpow(w, 1) == w * rpow(w, 0));
        assert(w == 1real);
        assert((w - 1real) / (w + 1real) == 0real) by (nonlinear_arith)
            requires
                w == 1real,
        ;
        assert(rpow(0real, 3) == 0real * rpow(0real, 2));
        assert(0real / 3real / (1real - 0real * 0real) == 0real);
    }
    assert forall|w: real, eps: real, sigma: real|
        #![trigger x.contains_real(rpow(w, pow2(0)) * pow2r(0)), abs_real(eps), ln2_near(sigma, 0)]
        w >= 0real && x.contains_real(rpow(w, pow2(0)) * pow2r(0)) && abs_real(eps) <= 0real && ln2_near(
            sigma,
            0,
        ) implies z.contains_real(
        (atanh_sum((w - 1real) / (w + 1real), 1) + eps) * pow2r(0 + 1int) + (sigma * 2real / 3real)
            * 0int as real,
    ) by {
        assert(rpow(w, 1) == w * rpow(w, 0));
        assert(w == 1real);
        assert((w - 1real) / (w + 1real) == 0real) by (nonlinear_arith)
            requires
                w == 1real,
        ;
        assert(rpow(0real, 1) == 0real * rpow(0real, 0));
        assert(atanh_sum(0real, 0) == 0real);
        assert(atanh_sum(0real, 1) == atanh_sum(0real, 0) + rpow(0real, 1) / 1int as real);
        assert(0real / 1int as real == 0real);
        assert(eps == 0real);
    }
    assert(ln_encloses(x, z, 0, 0, 1, 0real, 0));
}

/// `ln(x)` for a ball wholly above zero: the whole ball, or a ball holding
/// `ln x` as [`ln_encloses`] states; an exact one gives exactly zero.
pub fn ln(x: &Ball, prec: u32) -> (r: Ball)
    requires
        x.small(),
        2 <= prec <= ELEM_PREC_MAX,
        x.mid_val() - x.rad_val() > 0real,
    ensures
        r.wf(),
        ln_result(*x, r),
        x.mid_val() == 1real && x.rad_val() == 0real ==> r.mid_val() == 0real && r.rad_val() == 0real,
{
    match try_ln(x, prec) {
        Some(b) => b,
        None => Ball::whole(),
    }
}

/// `Σ_{m<n} (−1)^m z^(2m+1)/(2m+1)`, the atan series cut after `n` terms.
pub open spec fn atan_sum(z: real, n: nat) -> real
    decreases n,
{
    if n == 0 {
        0real
    } else if (n - 1) % 2 == 0 {
        atan_sum(z, (n - 1) as nat) + rpow(z, (2 * n - 1) as nat) / (2 * n - 1) as real
    } else {
        atan_sum(z, (n - 1) as nat) - rpow(z, (2 * n - 1) as nat) / (2 * n - 1) as real
    }
}

/// `t` is at least the first omitted term `|z|^(2n+1)/(2n+1)` of the atan
/// series, which bounds its alternating tail for `|z| <= 1`.
pub open spec fn atan_tail_ok(z: real, n: nat, t: real) -> bool {
    rpow(abs_real(z), 2 * n + 1) / (2 * n + 1) as real <= t
}

/// `r` holds `Σ_{m<n} (−1)^m ζ^(2m+1)/(2m+1) + ε` for every `ζ` of `zb`
/// and every `|ε| <= t`, where `t` bounds the first omitted term at each
/// such `ζ`.
pub open spec fn atan_encloses(zb: Ball, r: Ball, n: nat, t: real) -> bool {
    &&& forall|zeta: real| #[trigger] zb.contains_real(zeta) ==> atan_tail_ok(zeta, n, t)
    &&& forall|zeta: real, eps: real|
        #![trigger zb.contains_real(zeta), abs_real(eps)]
        zb.contains_real(zeta) && abs_real(eps) <= t ==> r.contains_real(atan_sum(zeta, n) + eps)
}

/// A ball all of whose points are zero holds the one-term atan series
/// with tail bound zero.
proof fn lemma_atan_zero(z: Ball, r: Ball)
    requires
        forall|zeta: real| #[trigger] z.contains_real(zeta) ==> zeta == 0real,
        forall|x: real| #[trigger] r.contains_real(x) <==> z.contains_real(x),
    ensures
        atan_encloses(z, r, 1, 0real),
{
    assert(rpow(0real, 1) == 0real * rpow(0real, 0));
    assert(rpow(0real, 3) == 0real * rpow(0real, 2));
    assert(atan_sum(0real, 0) == 0real);
    assert(atan_sum(0real, 1) == atan_sum(0real, 0) + rpow(0real, 1) / 1int as real);
    assert(0real / 1int as real == 0real);
    assert(0real / 3int as real == 0real);
    assert forall|zeta: real| #[trigger] z.contains_real(zeta) implies atan_tail_ok(zeta, 1, 0real) by {
        assert(zeta == 0real);
    }
    assert forall|zeta: real, eps: real|
        #![trigger z.contains_real(zeta), abs_real(eps)]
        z.contains_real(zeta) && abs_real(eps) <= 0real implies r.contains_real(atan_sum(zeta, 1) + eps) by {
        assert(zeta == 0real);
        assert(eps == 0real);
    }
}

/// One step of the atan series on balls: from `ζ^(2m−1)` and the sum of
/// `m` terms to `ζ^(2m+1)` and the sum of `m + 1` terms, at every `ζ`.
proof fn lemma_atan_step(
    z: Ball,
    u: Ball,
    term: Ball,
    t2: Ball,
    c: Ball,
    sum: Ball,
    s2: Ball,
    m: nat,
    v: u64,
)
    requires
        m >= 1,
        v == 2 * m + 1,
        forall|zeta: real| #[trigger] z.contains_real(zeta) ==> u.contains_real(zeta * zeta),
        forall|zeta: real|
            #[trigger] z.contains_real(zeta) ==> term.contains_real(rpow(zeta, (2 * m - 1) as nat))
                && sum.contains_real(atan_sum(zeta, m)),
        forall|x: real, y: real|
            #![trigger term.contains_real(x), u.contains_real(y)]
            term.contains_real(x) && u.contains_real(y) ==> t2.contains_real(x * y),
        forall|x: real| #[trigger] t2.contains_real(x) ==> c.contains_real(x / v as real),
        m % 2 == 1 ==> forall|x: real, y: real|
            #![trigger sum.contains_real(x), c.contains_real(y)]
            sum.contains_real(x) && c.contains_real(y) ==> s2.contains_real(x - y),
        m % 2 == 0 ==> forall|x: real, y: real|
            #![trigger sum.contains_real(x), c.contains_real(y)]
            sum.contains_real(x) && c.contains_real(y) ==> s2.contains_real(x + y),
    ensures
        forall|zeta: real|
            #[trigger] z.contains_real(zeta) ==> t2.contains_real(rpow(zeta, (2 * (m + 1) - 1) as nat))
                && s2.contains_real(atan_sum(zeta, m + 1)),
{
    assert forall|zeta: real| #[trigger] z.contains_real(zeta) implies t2.contains_real(
        rpow(zeta, (2 * (m + 1) - 1) as nat),
    ) && s2.contains_real(atan_sum(zeta, m + 1)) by {
        let p = rpow(zeta, (2 * m - 1) as nat);
        assert(u.contains_real(zeta * zeta));
        assert(term.contains_real(p));
        assert(t2.contains_real(p * (zeta * zeta)));
        assert(rpow(zeta, (2 * m + 1) as nat) == zeta * rpow(zeta, (2 * m) as nat));
        assert(rpow(zeta, (2 * m) as nat) == zeta * p);
        assert(p * (zeta * zeta) == zeta * (zeta * p)) by (nonlinear_arith);
        assert((2 * (m + 1) - 1) as nat == (2 * m + 1) as nat);
        let q = rpow(zeta, (2 * m + 1) as nat);
        assert(c.contains_real(q / v as real));
        assert((2 * (m + 1) - 1) as real == v as real);
        assert(sum.contains_real(atan_sum(zeta, m)));
        if m % 2 == 1 {
            assert(atan_sum(zeta, m + 1) == atan_sum(zeta, m) - q / (2 * (m + 1) - 1) as real);
        } else {
            assert(atan_sum(zeta, m + 1) == atan_sum(zeta, m) + q / (2 * (m + 1) - 1) as real);
        }
    }
}

/// `atan(z) = Σ (−1)^m z^(2m+1)/(2m+1)` for a small ball `z`, widened by
/// the first omitted term `|z|^(2n+1)/(2n+1)` (alternating, decreasing).
#[verifier::spinoff_prover]
fn atan_series(z: &Ball, wp: u32) -> (r: Ball)
    requires
        z.small(),
        2 <= wp <= 0x100_0000,
    ensures
        r.wf(),
        r.is_whole() || exists|n: nat, t: real| #[trigger] atan_encloses(*z, r, n, t),
{
    let z_up = z.abs_upper();
    if !z_up.is_within(EXP_SMALL) {
        return Ball::whole();
    }
    if z_up.is_zero() {
        let r = z.copy();
        proof {
            lemma_atan_zero(*z, r);
        }
        return r;
    }
    let ez: i64 = match z_up.exponent() {
        Some(v) => v,
        None => 0,
    };
    let jz: i64 = if -ez > 1 {
        -ez
    } else {
        1
    };
    proof {
        let d = 2 * jz as int;
        let w = wp as int;
        assert(w / d <= w && w / d >= 0) by (nonlinear_arith)
            requires
                d >= 2,
                w >= 0,
        ;
    }
    let n: u64 = (wp as i64 / (2 * jz) + 2) as u64;
    let u = z.mul(z, wp);
    if !u.is_small() {
        return Ball::whole();
    }
    let mut term = z.copy();
    let mut sum = z.copy();
    let mut m: u64 = 1;
    proof {
        assert forall|zeta: real| #[trigger] z.contains_real(zeta) implies term.contains_real(
            rpow(zeta, 1),
        ) && sum.contains_real(atan_sum(zeta, 1)) by {
            assert(rpow(zeta, 1) == zeta * rpow(zeta, 0));
            assert(atan_sum(zeta, 0) == 0real);
            assert(atan_sum(zeta, 1) == atan_sum(zeta, 0) + rpow(zeta, 1) / 1int as real);
            assert(rpow(zeta, 1) / 1int as real == rpow(zeta, 1));
        }
    }
    while m < n
        invariant
            1 <= m <= n,
            u.small(),
            term.small(),
            sum.small(),
            2 <= wp,
            n <= 0x200_0000,
            forall|zeta: real| #[trigger] z.contains_real(zeta) ==> u.contains_real(zeta * zeta),
            forall|zeta: real|
                #[trigger] z.contains_real(zeta) ==> term.contains_real(rpow(zeta, (2 * m - 1) as nat))
                    && sum.contains_real(atan_sum(zeta, m as nat)),
        decreases n - m,
    {
        let t2 = term.mul(&u, wp);
        if !t2.is_small() {
            return Ball::whole();
        }
        let c = t2.div_u64(2 * m + 1, wp);
        if !c.is_small() {
            return Ball::whole();
        }
        let s2 = if m % 2 == 1 {
            sum.sub(&c, wp)
        } else {
            sum.add(&c, wp)
        };
        if !s2.is_small() {
            return Ball::whole();
        }
        proof {
            lemma_atan_step(*z, u, term, t2, c, sum, s2, m as nat, (2 * m + 1) as u64);
        }
        term = t2;
        sum = s2;
        m = m + 1;
    }
    let tail = match atan_tail(&z_up, n) {
        Some(v) => v,
        None => {
            return Ball::whole();
        },
    };
    let r = sum.add_error(&tail);
    proof {
        let tv = tail.val();
        let nn = n as nat;
        assert forall|zeta: real| #[trigger] z.contains_real(zeta) implies atan_tail_ok(zeta, nn, tv) by {
            assert(abs_real(zeta) <= z_up.val());
        }
        assert forall|zeta: real, eps: real|
            #![trigger z.contains_real(zeta), abs_real(eps)]
            z.contains_real(zeta) && abs_real(eps) <= tv implies r.contains_real(atan_sum(zeta, nn) + eps) by {
            assert(sum.contains_real(atan_sum(zeta, nn)));
            lemma_widen(sum, r, atan_sum(zeta, nn), tv);
        }
        assert(atan_encloses(*z, r, nn, tv));
    }
    r
}

/// The computed bound covers the first omitted atan term at a point `ζ`
/// with `|ζ| <= zu`.
proof fn lemma_atan_tail_at(zeta: real, n: nat, zu: real, num: real, t: real, tv: real)
    requires
        abs_real(zeta) <= zu,
        rpow(zu, 2 * n + 1) <= num,
        num / (2 * n + 1) as real <= t,
        t <= tv,
    ensures
        atan_tail_ok(zeta, n, tv),
{
    let a = abs_real(zeta);
    let dv = (2 * n + 1) as real;
    crate::fp::lemma_real_cast_order(1, (2 * n + 1) as int);
    lemma_rpow_mono(a, zu, 2 * n + 1);
    lemma_rpow_nonneg(a, 2 * n + 1);
    let pa = rpow(a, 2 * n + 1);
    let pz = rpow(zu, 2 * n + 1);
    assert(pa / dv <= tv) by (nonlinear_arith)
        requires
            0real <= pa <= pz,
            pz <= num,
            num / dv <= t,
            t <= tv,
            dv >= 1real,
    ;
}

/// An upper bound of `x^(2n+1)/(2n+1)`, the first omitted term of the atan
/// series after `n` terms at `|z| <= x`.
fn atan_tail(z_up: &Float, n: u64) -> (r: Option<Mag>)
    requires
        z_up.small(),
        !z_up.sign(),
        1 <= n <= 0x200_0000,
    ensures
        r matches Some(m) ==> m.within(BALL_EXP as int) && forall|zeta: real|
            abs_real(zeta) <= z_up.val() ==> #[trigger] atan_tail_ok(zeta, n as nat, m.val()),
{
    let num = match pow_up(z_up, 2 * n + 1) {
        Some(v) => v,
        None => {
            return None;
        },
    };
    let d = Float::from_u64(2 * n + 1);
    proof {
        lemma_nonneg_unsigned(d);
    }
    let t = match div_up(&num, &d) {
        Some(v) => v,
        None => {
            return None;
        },
    };
    let tail = Mag::from_float_upper(&t);
    if !tail.is_within(BALL_EXP) {
        return None;
    }
    proof {
        t.lemma_val_abs();
        z_up.lemma_val_sign();
        let nn = n as nat;
        let dv = (2 * nn + 1) as real;
        assert(d.val() == dv);
        crate::fp::lemma_real_cast_order(1, (2 * nn + 1) as int);
        assert forall|zeta: real| abs_real(zeta) <= z_up.val() implies #[trigger] atan_tail_ok(
            zeta,
            nn,
            tail.val(),
        ) by {
            lemma_atan_tail_at(zeta, nn, z_up.val(), num.val(), t.val(), tail.val());
        }
    }
    Some(tail)
}

/// `zs` and `rs` record `i` half-angle steps from `ξ`: `zs[0] = ξ` and
/// `zs[j+1] = zs[j]/(1 + rs[j])` with `rs[j]` the root of `1 + zs[j]²`, so
/// that `atan ξ = 2^i·atan zs[i]`.
pub open spec fn half_angle_steps(xi: real, i: nat, zs: Seq<real>, rs: Seq<real>) -> bool {
    &&& zs.len() > i
    &&& rs.len() >= i
    &&& zs[0] == xi
    &&& forall|j: int|
        0 <= j < i ==> #[trigger] is_root(rs[j], 1real + zs[j] * zs[j]) && zs[j + 1] == zs[j] / (1real
            + rs[j])
}

/// `r` holds `(Σ_{m<n} (−1)^m ζ^(2m+1)/(2m+1) + ε)·2^k` for every `ξ` of
/// `x`, every `ζ` that `k` half-angle steps take `ξ` to, and every
/// `|ε| <= t`, where `t` bounds the first omitted term at each such `ζ`.
pub open spec fn atan_core_encloses(x: Ball, r: Ball, k: nat, n: nat, t: real) -> bool {
    &&& forall|xi: real, zs: Seq<real>, rs: Seq<real>|
        #![trigger x.contains_real(xi), half_angle_steps(xi, k, zs, rs)]
        x.contains_real(xi) && half_angle_steps(xi, k, zs, rs) ==> atan_tail_ok(zs[k as int], n, t)
    &&& forall|xi: real, zs: Seq<real>, rs: Seq<real>, eps: real|
        #![trigger x.contains_real(xi), half_angle_steps(xi, k, zs, rs), abs_real(eps)]
        x.contains_real(xi) && half_angle_steps(xi, k, zs, rs) && abs_real(eps) <= t ==> r.contains_real(
            (atan_sum(zs[k as int], n) + eps) * pow2r(k as int),
        )
}

/// One half-angle step on balls: the point one more step away from a
/// point of `x` lies in `z / (1 + √(1 + z²))`.
proof fn lemma_half_angle_step(
    x: Ball,
    z: Ball,
    one: Ball,
    zz: Ball,
    w: Ball,
    sq: Ball,
    den: Ball,
    z2: Ball,
    i: nat,
)
    requires
        one.contains_real(1real),
        forall|xi: real, zs: Seq<real>, rs: Seq<real>|
            #![trigger x.contains_real(xi), half_angle_steps(xi, i, zs, rs)]
            x.contains_real(xi) && half_angle_steps(xi, i, zs, rs) ==> z.contains_real(zs[i as int]),
        forall|a: real, b: real|
            #![trigger z.contains_real(a), z.contains_real(b)]
            z.contains_real(a) && z.contains_real(b) ==> zz.contains_real(a * b),
        forall|a: real, b: real|
            #![trigger one.contains_real(a), zz.contains_real(b)]
            one.contains_real(a) && zz.contains_real(b) ==> w.contains_real(a + b),
        forall|a: real, s: real|
            #![trigger w.contains_real(a), is_root(s, a)]
            w.contains_real(a) && is_root(s, a) ==> sq.contains_real(s),
        forall|a: real, b: real|
            #![trigger one.contains_real(a), sq.contains_real(b)]
            one.contains_real(a) && sq.contains_real(b) ==> den.contains_real(a + b),
        forall|a: real, b: real|
            #![trigger z.contains_real(a), den.contains_real(b)]
            z.contains_real(a) && den.contains_real(b) ==> b != 0real && z2.contains_real(a / b),
    ensures
        forall|xi: real, zs: Seq<real>, rs: Seq<real>|
            #![trigger x.contains_real(xi), half_angle_steps(xi, i + 1, zs, rs)]
            x.contains_real(xi) && half_angle_steps(xi, i + 1, zs, rs) ==> z2.contains_real(
                zs[i + 1int],
            ),
{
    assert forall|xi: real, zs: Seq<real>, rs: Seq<real>|
        #![trigger x.contains_real(xi), half_angle_steps(xi, i + 1, zs, rs)]
        x.contains_real(xi) && half_angle_steps(xi, i + 1, zs, rs) implies z2.contains_real(
        zs[i + 1int],
    ) by {
        assert(half_angle_steps(xi, i, zs, rs));
        let z0 = zs[i as int];
        let rho = rs[i as int];
        assert(is_root(rho, 1real + z0 * z0));
        assert(z.contains_real(z0));
        assert(zz.contains_real(z0 * z0));
        assert(w.contains_real(1real + z0 * z0));
        assert(sq.contains_real(rho));
        assert(den.contains_real(1real + rho));
        assert(z2.contains_real(z0 / (1real + rho)));
    }
}

/// atan through `k` half-angle reductions
/// `atan x = 2·atan(x / (1 + √(1 + x²)))` and the alternating series.
#[verifier::spinoff_prover]
fn atan_core(x: &Ball, wp: u32) -> (r: Ball)
    requires
        x.small(),
        2 <= wp <= 0x100_0000,
    ensures
        r.wf(),
        r.is_whole() || exists|k: nat, n: nat, t: real| #[trigger] atan_core_encloses(*x, r, k, n, t),
{
    let k = isqrt32(wp / 11) + 1;
    let one = Ball::from_i64(1);
    let mut z = x.copy();
    let mut i: u32 = 0;
    let ghost mut gi: nat = 0;
    proof {
        assert(one.contains_real(1real));
        assert forall|xi: real, zs: Seq<real>, rs: Seq<real>|
            #![trigger x.contains_real(xi), half_angle_steps(xi, 0, zs, rs)]
            x.contains_real(xi) && half_angle_steps(xi, 0, zs, rs) implies z.contains_real(zs[0]) by {}
    }
    while i < k
        invariant
            z.small(),
            one.small(),
            one.contains_real(1real),
            2 <= wp,
            i <= k,
            gi == i as nat,
            forall|xi: real, zs: Seq<real>, rs: Seq<real>|
                #![trigger x.contains_real(xi), half_angle_steps(xi, gi, zs, rs)]
                x.contains_real(xi) && half_angle_steps(xi, gi, zs, rs) ==> z.contains_real(
                    zs[gi as int],
                ),
        decreases k - i,
    {
        let zz = z.mul(&z, wp);
        if !zz.is_small() {
            return Ball::whole();
        }
        let w = one.add(&zz, wp);
        if !w.is_small() || !sqrt_ok(&w) {
            return Ball::whole();
        }
        let sq = w.sqrt(wp);
        if !sq.is_small() {
            return Ball::whole();
        }
        let den = one.add(&sq, wp);
        if !den.is_small() || den.contains_zero() {
            return Ball::whole();
        }
        let z2 = z.div(&den, wp);
        if !z2.is_small() {
            return Ball::whole();
        }
        proof {
            lemma_half_angle_step(*x, z, one, zz, w, sq, den, z2, gi);
            gi = gi + 1;
        }
        z = z2;
        i = i + 1;
    }
    let s = atan_series(&z, wp);
    if !s.is_small() {
        return Ball::whole();
    }
    let r = s.mul_2exp(k as i64);
    proof {
        let (n, tt) = choose|n: nat, tt: real| #[trigger] atan_encloses(z, s, n, tt);
        let kn = k as nat;
        assert forall|xi: real, zs: Seq<real>, rs: Seq<real>|
            #![trigger x.contains_real(xi), half_angle_steps(xi, kn, zs, rs)]
            x.contains_real(xi) && half_angle_steps(xi, kn, zs, rs) implies atan_tail_ok(
            zs[kn as int],
            n,
            tt,
        ) by {
            assert(z.contains_real(zs[kn as int]));
        }
        assert forall|xi: real, zs: Seq<real>, rs: Seq<real>, eps: real|
            #![trigger x.contains_real(xi), half_angle_steps(xi, kn, zs, rs), abs_real(eps)]
            x.contains_real(xi) && half_angle_steps(xi, kn, zs, rs) && abs_real(eps) <= tt implies r.contains_real(
            (atan_sum(zs[kn as int], n) + eps) * pow2r(kn as int),
        ) by {
            assert(z.contains_real(zs[kn as int]));
            assert(s.contains_real(atan_sum(zs[kn as int], n) + eps));
        }
        assert(atan_core_encloses(*x, r, kn, n, tt));
    }
    r
}

/// Whether `a <= b`.
fn float_le(a: &Float, b: &Float) -> (r: bool)
    requires
        a.wf(),
        b.wf(),
    ensures
        r <==> a.val() <= b.val(),
{
    a.compare_val(b) <= 0
}

/// `σ` and `root` give a value that the π ball at `p` bits holds,
/// `root·426880/σ`: `σ` within the tail bound of the Chudnovsky partial sum
/// and `root² = 10005`.
pub open spec fn pi_near(sigma: real, root: real, p: nat) -> bool {
    &&& near(
        sigma,
        series_sum(Series::Chudnovsky, 0, chud_terms(constants::headroom(p))),
        chud_tail(chud_terms(constants::headroom(p))),
    )
    &&& is_root(root, 10005real)
}

/// `r` holds `sg·(π/2 − atan(sg/ξ))` as computed: for every `ξ` of `x`,
/// every chain of `k` half-angle steps from `sg/ξ` to `ζ`, every
/// `|ε| <= t` and every π value `root·426880/σ` of the π ball at `p` bits,
/// `sg·((root·426880/σ)/2 − (Σ_{m<n} (−1)^m ζ^(2m+1)/(2m+1) + ε)·2^k)`.
pub open spec fn atan_far_encloses(x: Ball, r: Ball, sg: real, k: nat, n: nat, t: real, p: nat) -> bool {
    &&& forall|xi: real, zs: Seq<real>, rs: Seq<real>|
        #![trigger x.contains_real(xi), half_angle_steps(sg / xi, k, zs, rs)]
        x.contains_real(xi) && half_angle_steps(sg / xi, k, zs, rs) ==> atan_tail_ok(zs[k as int], n, t)
    &&& forall|xi: real, zs: Seq<real>, rs: Seq<real>, eps: real, sigma: real, root: real|
        #![trigger x.contains_real(xi), half_angle_steps(sg / xi, k, zs, rs), abs_real(eps), pi_near(sigma, root, p)]
        x.contains_real(xi) && half_angle_steps(sg / xi, k, zs, rs) && abs_real(eps) <= t && pi_near(
            sigma,
            root,
            p,
        ) ==> r.contains_real(
            sg * ((root * 426880real / sigma) * pow2r(-1) - (atan_sum(zs[k as int], n) + eps) * pow2r(
                k as int,
            )),
        )
}

/// `π/2 − atan(1/x)` for a ball whose points are all at least one.
fn atan_far(x: &Ball, wp: u32) -> (r: Ball)
    requires
        x.small(),
        x.mid_val() - x.rad_val() > 0real,
        2 <= wp <= 0x50_0000,
    ensures
        r.wf(),
        r.is_whole() || exists|k: nat, n: nat, t: real, p: nat|
            #[trigger] atan_far_encloses(*x, r, 1real, k, n, t, p),
{
    let one = Ball::from_i64(1);
    proof {
        assert(!x.contains_real(0real));
    }
    let inv = one.div(x, wp);
    let p = constants::pi(wp + 8);
    if !p.is_small() || !inv.is_small() {
        return Ball::whole();
    }
    let half_pi = p.mul_2exp(-1);
    let a = atan_core(&inv, wp);
    if !half_pi.is_small() || !a.is_small() {
        return Ball::whole();
    }
    let r = half_pi.sub(&a, wp);
    proof {
        let (k, n, t) = choose|k: nat, n: nat, t: real| #[trigger] atan_core_encloses(inv, a, k, n, t);
        let pp = (wp + 8) as nat;
        assert(one.contains_real(1real));
        assert forall|xi: real, zs: Seq<real>, rs: Seq<real>|
            #![trigger x.contains_real(xi), half_angle_steps(1real / xi, k, zs, rs)]
            x.contains_real(xi) && half_angle_steps(1real / xi, k, zs, rs) implies atan_tail_ok(
            zs[k as int],
            n,
            t,
        ) by {
            assert(inv.contains_real(1real / xi));
        }
        assert forall|xi: real, zs: Seq<real>, rs: Seq<real>, eps: real, sigma: real, root: real|
            #![trigger x.contains_real(xi), half_angle_steps(1real / xi, k, zs, rs), abs_real(eps), pi_near(sigma, root, pp)]
            x.contains_real(xi) && half_angle_steps(1real / xi, k, zs, rs) && abs_real(eps) <= t && pi_near(
                sigma,
                root,
                pp,
            ) implies r.contains_real(
            1real * ((root * 426880real / sigma) * pow2r(-1) - (atan_sum(zs[k as int], n) + eps) * pow2r(
                k as int,
            )),
        ) by {
            assert(inv.contains_real(1real / xi));
            let pv = root * 426880real / sigma;
            assert(p.contains_real(pv));
            assert(half_pi.contains_real(pv * pow2r(-1)));
            let av = (atan_sum(zs[k as int], n) + eps) * pow2r(k as int);
            assert(a.contains_real(av));
            assert(r.contains_real(pv * pow2r(-1) - av));
            assert(1real * (pv * pow2r(-1) - av) == pv * pow2r(-1) - av);
        }
        assert(atan_far_encloses(*x, r, 1real, k, n, t, pp));
    }
    r
}

/// The whole ball, or a ball holding `atan x` as computed on one of the
/// three paths: the half-angle reductions and series at `x`, or
/// `±π/2 − atan(1/x)` for a ball wholly beyond one in magnitude.
pub open spec fn atan_result(x: Ball, r: Ball) -> bool {
    ||| r.is_whole()
    ||| exists|k: nat, n: nat, t: real| #[trigger] atan_core_encloses(x, r, k, n, t)
    ||| exists|sg: real, k: nat, n: nat, t: real, p: nat|
        (sg == 1real || sg == -1real) && #[trigger] atan_far_encloses(x, r, sg, k, n, t, p)
}

/// A ball holding every point of one holding `atan x` holds `atan x` too.
proof fn lemma_atan_result_widen(x: Ball, r: Ball, r2: Ball)
    requires
        atan_result(x, r),
        !r.is_whole(),
        forall|v: real| r.contains_real(v) ==> #[trigger] r2.contains_real(v),
    ensures
        atan_result(x, r2),
{
    if exists|k: nat, n: nat, t: real| #[trigger] atan_core_encloses(x, r, k, n, t) {
        let (k, n, t) = choose|k: nat, n: nat, t: real| #[trigger] atan_core_encloses(x, r, k, n, t);
        assert(atan_core_encloses(x, r2, k, n, t));
    } else {
        let (sg, k, n, t, p) = choose|sg: real, k: nat, n: nat, t: real, p: nat|
            (sg == 1real || sg == -1real) && #[trigger] atan_far_encloses(x, r, sg, k, n, t, p);
        assert(atan_far_encloses(x, r2, sg, k, n, t, p));
    }
}

/// The negation of a ball holding `π/2 − atan(1/η)` at the points `η` of
/// `−x` holds `−(π/2 − atan(−1/ξ))` at the points `ξ` of `x`.
proof fn lemma_atan_far_mirror(x: Ball, nx: Ball, a: Ball, r: Ball, k: nat, n: nat, t: real, p: nat)
    requires
        forall|v: real| x.contains_real(v) ==> #[trigger] nx.contains_real(-v),
        forall|v: real| #[trigger] nx.contains_real(v) ==> v > 0real,
        forall|v: real| a.contains_real(v) ==> #[trigger] r.contains_real(-v),
        atan_far_encloses(nx, a, 1real, k, n, t, p),
    ensures
        atan_far_encloses(x, r, -1real, k, n, t, p),
{
    assert forall|xi: real, zs: Seq<real>, rs: Seq<real>|
        #![trigger x.contains_real(xi), half_angle_steps(-1real / xi, k, zs, rs)]
        x.contains_real(xi) && half_angle_steps(-1real / xi, k, zs, rs) implies atan_tail_ok(
        zs[k as int],
        n,
        t,
    ) by {
        assert(nx.contains_real(-xi));
        assert(-xi > 0real);
        assert(1real / (-xi) == -1real / xi) by (nonlinear_arith)
            requires
                xi < 0real,
        ;
        assert(half_angle_steps(1real / (-xi), k, zs, rs));
    }
    assert forall|xi: real, zs: Seq<real>, rs: Seq<real>, eps: real, sigma: real, root: real|
        #![trigger x.contains_real(xi), half_angle_steps(-1real / xi, k, zs, rs), abs_real(eps), pi_near(sigma, root, p)]
        x.contains_real(xi) && half_angle_steps(-1real / xi, k, zs, rs) && abs_real(eps) <= t && pi_near(
            sigma,
            root,
            p,
        ) implies r.contains_real(
        -1real * ((root * 426880real / sigma) * pow2r(-1) - (atan_sum(zs[k as int], n) + eps) * pow2r(
            k as int,
        )),
    ) by {
        assert(nx.contains_real(-xi));
        assert(-xi > 0real);
        assert(1real / (-xi) == -1real / xi) by (nonlinear_arith)
            requires
                xi < 0real,
        ;
        assert(half_angle_steps(1real / (-xi), k, zs, rs));
        let v = (root * 426880real / sigma) * pow2r(-1) - (atan_sum(zs[k as int], n) + eps) * pow2r(
            k as int,
        );
        assert(a.contains_real(1real * v));
        assert(1real * v == v);
        assert(r.contains_real(-v));
        assert(-1real * v == -v);
    }
}

/// One evaluation of `atan(x)`: arguments whose points are all beyond one
/// in magnitude go through `atan x = ±π/2 − atan(1/x)`.
fn atan_attempt(x: &Ball, prec: u32, extra: u32) -> (r: Ball)
    requires
        x.small(),
        2 <= prec <= ELEM_PREC_MAX,
        extra <= 64 + 8 * ELEM_PREC_MAX,
    ensures
        r.wf(),
        atan_result(*x, r),
{
    let wp = prec + extra + 2 * isqrt32(prec) + 16;
    let low = x.lower_bound();
    let up = x.abs_upper();
    let one = Float::from_i64(1);
    if !float_le(&up, &one) {
        if low.signum() > 0 && float_le(&one, &low) {
            let r = atan_far(x, wp);
            proof {
                if !r.is_whole() {
                    let (k, n, t, p) = choose|k: nat, n: nat, t: real, p: nat|
                        #[trigger] atan_far_encloses(*x, r, 1real, k, n, t, p);
                    assert(atan_far_encloses(*x, r, 1real, k, n, t, p));
                }
            }
            return r;
        }
        let neg_x = x.neg();
        let nlow = neg_x.lower_bound();
        if nlow.signum() > 0 && float_le(&one, &nlow) {
            let a = atan_far(&neg_x, wp);
            let r = a.neg();
            proof {
                if !a.is_whole() {
                    let (k, n, t, p) = choose|k: nat, n: nat, t: real, p: nat|
                        #[trigger] atan_far_encloses(neg_x, a, 1real, k, n, t, p);
                    assert forall|v: real| #[trigger] neg_x.contains_real(v) implies v > 0real by {
                        assert(nlow.val() <= v);
                    }
                    lemma_atan_far_mirror(*x, neg_x, a, r, k, n, t, p);
                    assert(atan_far_encloses(*x, r, -1real, k, n, t, p));
                } else {
                    assert(r.is_whole());
                }
            }
            return r;
        }
    }
    atan_core(x, wp)
}

/// `atan(x)` for any ball; a ball of radius beyond `2^40` gives `[0 ± 2]`,
/// any other the whole ball or one holding `atan x` as [`atan_result`]
/// states.
pub fn atan(x: &Ball, prec: u32) -> (r: Ball)
    requires
        x.small(),
        2 <= prec <= ELEM_PREC_MAX,
    ensures
        r.wf(),
        x.rad_m().ex() > MAX_ARG_EXP ==> r.mid_val() == 0real && r.rad_val() == 2real,
        x.rad_m().ex() <= MAX_ARG_EXP ==> atan_result(*x, r),
{
    if x.rad().exp() > MAX_ARG_EXP {
        let r = Ball::new(Float::zero(), Mag::two_exp(1));
        proof {
            vstd::arithmetic::power2::lemma2_to64();
        }
        return r;
    }
    let mut attempt: u32 = 0;
    while attempt < MAX_ATTEMPTS
        invariant
            x.small(),
            2 <= prec <= ELEM_PREC_MAX,
            attempt <= MAX_ATTEMPTS,
            x.rad_m().ex() <= MAX_ARG_EXP,
        decreases MAX_ATTEMPTS - attempt,
    {
        let r = atan_attempt(x, prec, attempt_extra(prec, attempt));
        if !r.is_small() {
            return Ball::whole();
        }
        if r.rel_accuracy_bits() >= prec as i64 {
            let rr = r.round(prec);
            proof {
                lemma_atan_result_widen(*x, r, rr);
            }
            return rr;
        }
        attempt = attempt + 1;
    }
    let r = atan_attempt(x, prec, attempt_extra(prec, MAX_ATTEMPTS));
    if !r.is_small() {
        return Ball::whole();
    }
    let rr = r.round(prec);
    proof {
        lemma_atan_result_widen(*x, r, rr);
    }
    rr
}

/// An integer near `v` (round half away from zero), for `|v| < 2^62`;
/// zero otherwise. Only a reduction parameter: any integer keeps the
/// reduction exact.
pub(crate) fn nearest_int(v: &Float) -> (q: i64)
    requires
        v.small(),
    ensures
        -0x4000_0000_0000_0000 < q < 0x4000_0000_0000_0000,
{
    let a = v.abs();
    let half = Float::from_i64(1).mul_2exp(-1);
    if !half.is_within(EXP_SMALL) {
        return 0;
    }
    let (w, _) = a.add(&half, 128, Round::Down);
    let e: i64 = match w.exponent() {
        Some(x) => x,
        None => 0,
    };
    if e <= 0 || e > 62 {
        return 0;
    }
    let ip = w.top_bits(e as u32);
    if ip >= 0x4000_0000_0000_0000 {
        return 0;
    }
    if v.is_neg() {
        -(ip as i64)
    } else {
        ip as i64
    }
}

/// `t` bounds the sine or cosine Taylor tail from term `n` on at `τ`:
/// `|τ| < 1` and `|τ|^n/n! · 1/(1 − τ²) <= t`.
pub open spec fn trig_tail_ok(tau: real, n: nat, t: real) -> bool {
    &&& abs_real(tau) < 1real
    &&& rpow(abs_real(tau), n) / factorial(n) as real / (1real - tau * tau) <= t
}

/// The bound at one point `τ` with `|τ| <= tu` and `0 < om <= 1 − τ²`.
proof fn lemma_trig_tail_at(
    tau: real,
    n: nat,
    tu: real,
    om: real,
    num: real,
    den: real,
    v: real,
    v2: real,
    tv: real,
)
    requires
        abs_real(tau) <= tu,
        0real < om <= 1real - tau * tau,
        rpow(tu, n) <= num,
        0real < den <= factorial(n) as real,
        num / den <= v,
        v / om <= v2,
        v2 <= tv,
    ensures
        trig_tail_ok(tau, n, tv),
{
    let a = abs_real(tau);
    lemma_factorial_pos(n);
    crate::fp::lemma_real_cast_order(1, factorial(n) as int);
    let f = factorial(n) as real;
    lemma_rpow_mono(a, tu, n);
    lemma_rpow_nonneg(a, n);
    let pa = rpow(a, n);
    let pt = rpow(tu, n);
    let q = 1real - tau * tau;
    assert(tau * tau == a * a) by (nonlinear_arith)
        requires
            a == abs_real(tau),
    ;
    assert(a < 1real) by (nonlinear_arith)
        requires
            a >= 0real,
            a * a == tau * tau,
            0real < om <= 1real - tau * tau,
    ;
    assert(pa / f / q <= tv) by (nonlinear_arith)
        requires
            0real <= pa <= pt,
            pt <= num,
            0real < den <= f,
            num / den <= v,
            v / om <= v2,
            v2 <= tv,
            0real < om <= q,
    ;
}

/// The Taylor tail bound `t^n/n! · 1/(1 − t²)` (`om <= 1 − t²`), as a
/// radius.
fn trig_tail(t_up: &Float, n: u64, om: &Float) -> (r: Option<Mag>)
    requires
        t_up.small(),
        !t_up.sign(),
        om.small(),
        !om.sign(),
        om.val() > 0real,
        1 <= n < 0x1_0000_0000,
    ensures
        r matches Some(m) ==> m.within(BALL_EXP as int) && forall|tau: real|
            abs_real(tau) <= t_up.val() && om.val() <= 1real - tau * tau ==> #[trigger] trig_tail_ok(
                tau,
                n as nat,
                m.val(),
            ),
{
    let num = match pow_up(t_up, n) {
        Some(v) => v,
        None => {
            return None;
        },
    };
    let den = match factorial_down(n) {
        Some(v) => v,
        None => {
            return None;
        },
    };
    proof {
        lemma_nonneg_unsigned(den);
    }
    let v = match div_up(&num, &den) {
        Some(v) => v,
        None => {
            return None;
        },
    };
    let v2 = match div_up(&v, om) {
        Some(v) => v,
        None => {
            return None;
        },
    };
    let m = Mag::from_float_upper(&v2);
    if !m.is_within(BALL_EXP) {
        return None;
    }
    proof {
        v2.lemma_val_abs();
        assert forall|tau: real|
            abs_real(tau) <= t_up.val() && om.val() <= 1real - tau * tau implies #[trigger] trig_tail_ok(
            tau,
            n as nat,
            m.val(),
        ) by {
            lemma_trig_tail_at(
                tau,
                n as nat,
                t_up.val(),
                om.val(),
                num.val(),
                den.val(),
                v.val(),
                v2.val(),
                m.val(),
            );
        }
    }
    Some(m)
}

/// The sine factor in Horner form from level `i` up to `m`:
/// `h(m) = 1`, `h(i) = 1 − v·h(i+1)/(2i(2i+1))`; `τ·h(1)` at `v = τ²` is the
/// Taylor polynomial `Σ_{j<m} (−1)^j τ^(2j+1)/(2j+1)!`.
pub open spec fn sin_horner(v: real, i: nat, m: nat) -> real
    decreases m - i,
{
    if i >= m {
        1real
    } else {
        1real - (v * sin_horner(v, i + 1, m)) / (2 * i * (2 * i + 1)) as real
    }
}

/// The cosine polynomial in Horner form from level `i` up to `m`:
/// `h(m) = 1`, `h(i) = 1 − v·h(i+1)/((2i−1)·2i)`.
pub open spec fn cos_horner(v: real, i: nat, m: nat) -> real
    decreases m - i,
{
    if i >= m {
        1real
    } else {
        1real - (v * cos_horner(v, i + 1, m)) / ((2 * i - 1) * 2 * i) as real
    }
}

/// The series balls `rs`, `rc` hold `τ·sin_horner(τ², 1, m) + ε` and
/// `cos_horner(τ², 1, m) + ε` for every `τ` of `t` and every `ε` within
/// `ts`, `tc`, which bound the sine and cosine tails at each such `τ`.
pub open spec fn trig_series_encloses(t: Ball, rs: Ball, rc: Ball, m: nat, ts: real, tc: real) -> bool {
    &&& forall|tau: real|
        #[trigger] t.contains_real(tau) ==> trig_tail_ok(tau, 2 * m + 1, ts) && trig_tail_ok(tau, 2 * m, tc)
    &&& forall|tau: real, eps: real|
        #![trigger t.contains_real(tau), abs_real(eps)]
        t.contains_real(tau) && abs_real(eps) <= ts ==> rs.contains_real(tau * sin_horner(tau * tau, 1, m) + eps)
    &&& forall|tau: real, eps: real|
        #![trigger t.contains_real(tau), abs_real(eps)]
        t.contains_real(tau) && abs_real(eps) <= tc ==> rc.contains_real(cos_horner(tau * tau, 1, m) + eps)
}

/// One Horner step on balls: `1 − u·p/d` holds `1 − τ²·h/d` at every `τ`.
proof fn lemma_horner_step(
    t: Ball,
    u: Ball,
    p: Ball,
    a: Ball,
    b: Ball,
    one: Ball,
    c: Ball,
    d: u64,
    hp: spec_fn(real) -> real,
    hc: spec_fn(real) -> real,
)
    requires
        d > 0,
        one.contains_real(1real),
        forall|tau: real| #[trigger] t.contains_real(tau) ==> u.contains_real(tau * tau),
        forall|tau: real| #[trigger] t.contains_real(tau) ==> p.contains_real(hp(tau)),
        forall|tau: real| #[trigger] hc(tau) == 1real - (tau * tau * hp(tau)) / d as real,
        forall|x: real, y: real|
            #![trigger u.contains_real(x), p.contains_real(y)]
            u.contains_real(x) && p.contains_real(y) ==> a.contains_real(x * y),
        forall|x: real| #[trigger] a.contains_real(x) ==> b.contains_real(x / d as real),
        forall|x: real, y: real|
            #![trigger one.contains_real(x), b.contains_real(y)]
            one.contains_real(x) && b.contains_real(y) ==> c.contains_real(x - y),
    ensures
        forall|tau: real| #[trigger] t.contains_real(tau) ==> c.contains_real(hc(tau)),
{
    assert forall|tau: real| #[trigger] t.contains_real(tau) implies c.contains_real(hc(tau)) by {
        assert(u.contains_real(tau * tau));
        assert(p.contains_real(hp(tau)));
        assert(a.contains_real(tau * tau * hp(tau)));
        assert(b.contains_real((tau * tau * hp(tau)) / d as real));
    }
}

/// A ball all of whose points are zero, and the exact one, hold the
/// one-level sine and cosine polynomials with tail bounds zero.
proof fn lemma_trig_zero(t: Ball, rs: Ball, rc: Ball)
    requires
        forall|tau: real| #[trigger] t.contains_real(tau) ==> tau == 0real,
        forall|x: real| #[trigger] rs.contains_real(x) <==> t.contains_real(x),
        rc.contains_real(1real),
    ensures
        trig_series_encloses(t, rs, rc, 1, 0real, 0real),
{
    assert(rpow(0real, 1) == 0real * rpow(0real, 0));
    assert(rpow(0real, 2) == 0real * rpow(0real, 1));
    assert(rpow(0real, 3) == 0real * rpow(0real, 2));
    lemma_factorial_pos(2);
    lemma_factorial_pos(3);
    assert forall|tau: real| #[trigger] t.contains_real(tau) implies trig_tail_ok(tau, 3, 0real) && trig_tail_ok(
        tau,
        2,
        0real,
    ) by {
        assert(tau == 0real);
        let f3 = factorial(3) as real;
        let f2 = factorial(2) as real;
        crate::fp::lemma_real_cast_order(1, factorial(3) as int);
        crate::fp::lemma_real_cast_order(1, factorial(2) as int);
        assert(0real / f3 / (1real - 0real * 0real) == 0real) by (nonlinear_arith)
            requires
                f3 >= 1real,
        ;
        assert(0real / f2 / (1real - 0real * 0real) == 0real) by (nonlinear_arith)
            requires
                f2 >= 1real,
        ;
    }
    assert forall|tau: real, eps: real|
        #![trigger t.contains_real(tau), abs_real(eps)]
        t.contains_real(tau) && abs_real(eps) <= 0real implies rs.contains_real(
        tau * sin_horner(tau * tau, 1, 1) + eps,
    ) by {
        assert(tau == 0real);
        assert(eps == 0real);
    }
    assert forall|tau: real, eps: real|
        #![trigger t.contains_real(tau), abs_real(eps)]
        t.contains_real(tau) && abs_real(eps) <= 0real implies rc.contains_real(
        cos_horner(tau * tau, 1, 1) + eps,
    ) by {
        assert(eps == 0real);
    }
}

/// `τ² <= t2` when `|τ| <= tu` and `tu² <= t2`.
proof fn lemma_sq_le(tau: real, tu: real, t2: real)
    requires
        abs_real(tau) <= tu,
        tu * tu <= t2,
    ensures
        tau * tau <= t2,
{
    let a = abs_real(tau);
    assert(tau * tau == a * a) by (nonlinear_arith)
        requires
            a == abs_real(tau),
    ;
    assert(a * a <= tu * tu) by (nonlinear_arith)
        requires
            0real <= a <= tu,
    ;
}

/// `(sin t, cos t)` for a small ball `t` by their Taylor series in Horner
/// form, each widened by its geometric tail bound.
#[verifier::spinoff_prover]
fn sin_cos_series(t: &Ball, wp: u32) -> (r: (Ball, Ball))
    requires
        t.small(),
        2 <= wp <= 0x100_0000,
    ensures
        r.0.wf(),
        r.1.wf(),
        (r.0.is_whole() && r.1.is_whole()) || exists|m: nat, ts: real, tc: real|
            #[trigger] trig_series_encloses(*t, r.0, r.1, m, ts, tc),
{
    let t_up = t.abs_upper();
    if !t_up.is_within(EXP_SMALL) {
        return (Ball::whole(), Ball::whole());
    }
    if t_up.is_zero() {
        let rs = t.copy();
        let rc = Ball::from_i64(1);
        proof {
            lemma_trig_zero(*t, rs, rc);
        }
        return (rs, rc);
    }
    let et: i64 = match t_up.exponent() {
        Some(v) => v,
        None => 0,
    };
    let jt: i64 = if -et > 1 {
        -et
    } else {
        1
    };
    proof {
        let d = 2 * jt as int;
        let w = wp as int;
        assert(w / d <= w && w / d >= 0) by (nonlinear_arith)
            requires
                d >= 2,
                w >= 0,
        ;
    }
    let m: u64 = (wp as i64 / (2 * jt) + 2) as u64;
    let ghost mn = m as nat;
    let u = t.mul(t, wp);
    if !u.is_small() {
        return (Ball::whole(), Ball::whole());
    }
    let one = Ball::from_i64(1);
    let mut ps = Ball::from_i64(1);
    let mut i: u64 = m;
    proof {
        assert(one.contains_real(1real));
        assert forall|tau: real| #[trigger] t.contains_real(tau) implies ps.contains_real(
            sin_horner(tau * tau, i as nat, mn),
        ) by {}
    }
    while i > 1
        invariant
            u.small(),
            one.small(),
            ps.small(),
            2 <= wp,
            1 <= i <= m <= 0x200_0000,
            mn == m as nat,
            one.contains_real(1real),
            forall|tau: real| #[trigger] t.contains_real(tau) ==> u.contains_real(tau * tau),
            forall|tau: real| #[trigger] t.contains_real(tau) ==> ps.contains_real(
                sin_horner(tau * tau, i as nat, mn),
            ),
        decreases i,
    {
        i = i - 1;
        let a = u.mul(&ps, wp);
        if !a.is_small() {
            return (Ball::whole(), Ball::whole());
        }
        proof {
            assert(2 * i * (2 * i + 1) <= 0x100_0000_0000_0000 && 2 * i * (2 * i + 1) >= 6) by (
            nonlinear_arith)
                requires
                    1 <= i < 0x200_0000,
            ;
        }
        let b = a.div_u64(2 * i * (2 * i + 1), wp);
        if !b.is_small() {
            return (Ball::whole(), Ball::whole());
        }
        let c = one.sub(&b, wp);
        if !c.is_small() {
            return (Ball::whole(), Ball::whole());
        }
        proof {
            let d = (2 * i * (2 * i + 1)) as u64;
            let inn = i as nat;
            lemma_horner_step(
                *t,
                u,
                ps,
                a,
                b,
                one,
                c,
                d,
                |tau: real| sin_horner(tau * tau, inn + 1, mn),
                |tau: real| sin_horner(tau * tau, inn, mn),
            );
        }
        ps = c;
    }
    let sin = t.mul(&ps, wp);
    let mut pc = Ball::from_i64(1);
    let mut i: u64 = m;
    proof {
        assert forall|tau: real| #[trigger] t.contains_real(tau) implies pc.contains_real(
            cos_horner(tau * tau, i as nat, mn),
        ) by {}
    }
    while i > 1
        invariant
            u.small(),
            one.small(),
            pc.small(),
            2 <= wp,
            1 <= i <= m <= 0x200_0000,
            mn == m as nat,
            one.contains_real(1real),
            forall|tau: real| #[trigger] t.contains_real(tau) ==> u.contains_real(tau * tau),
            forall|tau: real| #[trigger] t.contains_real(tau) ==> pc.contains_real(
                cos_horner(tau * tau, i as nat, mn),
            ),
        decreases i,
    {
        i = i - 1;
        let a = u.mul(&pc, wp);
        if !a.is_small() {
            return (Ball::whole(), Ball::whole());
        }
        proof {
            let a1 = 2 * i - 1;
            assert(1 <= a1 < 0x400_0000);
            assert(a1 * 2 * i <= 0x100_0000_0000_0000) by (nonlinear_arith)
                requires
                    1 <= a1 < 0x400_0000,
                    1 <= i < 0x200_0000,
            ;
            assert(a1 * 2 * i >= 2) by (nonlinear_arith)
                requires
                    1 <= a1,
                    1 <= i,
            ;
        }
        let b = a.div_u64((2 * i - 1) * 2 * i, wp);
        if !b.is_small() {
            return (Ball::whole(), Ball::whole());
        }
        let c = one.sub(&b, wp);
        if !c.is_small() {
            return (Ball::whole(), Ball::whole());
        }
        proof {
            let d = ((2 * i - 1) * 2 * i) as u64;
            let inn = i as nat;
            lemma_horner_step(
                *t,
                u,
                pc,
                a,
                b,
                one,
                c,
                d,
                |tau: real| cos_horner(tau * tau, inn + 1, mn),
                |tau: real| cos_horner(tau * tau, inn, mn),
            );
        }
        pc = c;
    }
    let (t2, _) = t_up.mul(&t_up, 64, Round::Up);
    proof {
        t_up.lemma_val_sign();
        lemma_mul_directed(t_up, t_up, 64, Round::Up);
    }
    if !t2.is_within(EXP_SMALL) {
        return (Ball::whole(), Ball::whole());
    }
    let om = match one_minus_down(&t2) {
        Some(v) => v,
        None => {
            return (Ball::whole(), Ball::whole());
        },
    };
    let sin_tail = match trig_tail(&t_up, 2 * m + 1, &om) {
        Some(v) => v,
        None => {
            return (Ball::whole(), Ball::whole());
        },
    };
    let cos_tail = match trig_tail(&t_up, 2 * m, &om) {
        Some(v) => v,
        None => {
            return (Ball::whole(), Ball::whole());
        },
    };
    if !sin.is_small() {
        return (Ball::whole(), Ball::whole());
    }
    let rs = sin.add_error(&sin_tail);
    let rc = pc.add_error(&cos_tail);
    proof {
        let ts = sin_tail.val();
        let tc = cos_tail.val();
        assert forall|tau: real| #[trigger] t.contains_real(tau) implies trig_tail_ok(tau, 2 * mn + 1, ts)
            && trig_tail_ok(tau, 2 * mn, tc) by {
            lemma_sq_le(tau, t_up.val(), t2.val());
            assert(abs_real(tau) <= t_up.val());
        }
        assert forall|tau: real, eps: real|
            #![trigger t.contains_real(tau), abs_real(eps)]
            t.contains_real(tau) && abs_real(eps) <= ts implies rs.contains_real(
            tau * sin_horner(tau * tau, 1, mn) + eps,
        ) by {
            assert(ps.contains_real(sin_horner(tau * tau, 1, mn)));
            assert(sin.contains_real(tau * sin_horner(tau * tau, 1, mn)));
            lemma_widen(sin, rs, tau * sin_horner(tau * tau, 1, mn), ts);
        }
        assert forall|tau: real, eps: real|
            #![trigger t.contains_real(tau), abs_real(eps)]
            t.contains_real(tau) && abs_real(eps) <= tc implies rc.contains_real(
            cos_horner(tau * tau, 1, mn) + eps,
        ) by {
            assert(pc.contains_real(cos_horner(tau * tau, 1, mn)));
            lemma_widen(pc, rc, cos_horner(tau * tau, 1, mn), tc);
        }
        assert(trig_series_encloses(*t, rs, rc, mn, ts, tc));
    }
    let r = (rs, rc);
    proof {
        assert(trig_series_encloses(*t, r.0, r.1, mn, sin_tail.val(), cos_tail.val()));
    }
    r
}

/// `k` doublings `(s, c) ↦ (2sc, 1 − 2s²)`, from `sin 2a = 2 sin a cos a`
/// and `cos 2a = 1 − 2 sin² a`.
pub open spec fn dbl(s: real, c: real, k: nat) -> (real, real)
    decreases k,
{
    if k == 0 {
        (s, c)
    } else {
        let p = dbl(s, c, (k - 1) as nat);
        ((p.0 * p.1) * pow2r(1), 1real - (p.0 * p.0) * pow2r(1))
    }
}

/// The sine after turning by `q` quarter turns: `sin(a + qπ/2)`.
pub open spec fn rot_sin(s: real, c: real, q: int) -> real {
    let r = q % 4;
    if r == 0 {
        s
    } else if r == 1 {
        c
    } else if r == 2 {
        -s
    } else {
        -c
    }
}

/// The cosine after turning by `q` quarter turns: `cos(a + qπ/2)`.
pub open spec fn rot_cos(s: real, c: real, q: int) -> real {
    let r = q % 4;
    if r == 0 {
        c
    } else if r == 1 {
        -s
    } else if r == 2 {
        -c
    } else {
        s
    }
}

/// The reduced argument `(ξ − q·π̃/2)/2^k` for the π value `root·426880/σ`.
pub open spec fn trig_reduced(xi: real, sigma: real, root: real, q: int, k: nat) -> real {
    (xi - ((root * 426880real / sigma) * pow2r(-1)) * q as real) * pow2r(-(k as int))
}

/// The sine and cosine of the reduced argument as summed: the Taylor
/// polynomials with `m` levels moved by `εs`, `εc`, doubled `k` times.
pub open spec fn trig_doubled(tau: real, m: nat, es: real, ec: real, k: nat) -> (real, real) {
    dbl(tau * sin_horner(tau * tau, 1, m) + es, cos_horner(tau * tau, 1, m) + ec, k)
}

/// For every `ξ` of `x`, every π value `root·426880/σ` of the π ball at
/// `p` bits and every `|εs| <= ts`, `|εc| <= tc`: the tails are bounded at
/// the reduced argument `τ`, and `rs` holds the sine that [`trig_doubled`]
/// and [`rot_sin`] give.
pub open spec fn sin_encloses(x: Ball, rs: Ball, q: int, k: nat, m: nat, ts: real, tc: real, p: nat) -> bool {
    forall|xi: real, sigma: real, root: real, es: real, ec: real|
        #![trigger x.contains_real(xi), pi_near(sigma, root, p), abs_real(es), abs_real(ec)]
        x.contains_real(xi) && pi_near(sigma, root, p) && abs_real(es) <= ts && abs_real(ec) <= tc ==> {
            let tau = trig_reduced(xi, sigma, root, q, k);
            let d = trig_doubled(tau, m, es, ec, k);
            &&& trig_tail_ok(tau, 2 * m + 1, ts)
            &&& trig_tail_ok(tau, 2 * m, tc)
            &&& rs.contains_real(rot_sin(d.0, d.1, q))
        }
}

/// As [`sin_encloses`], for the cosine ball `rc`.
pub open spec fn cos_encloses(x: Ball, rc: Ball, q: int, k: nat, m: nat, ts: real, tc: real, p: nat) -> bool {
    forall|xi: real, sigma: real, root: real, es: real, ec: real|
        #![trigger x.contains_real(xi), pi_near(sigma, root, p), abs_real(es), abs_real(ec)]
        x.contains_real(xi) && pi_near(sigma, root, p) && abs_real(es) <= ts && abs_real(ec) <= tc ==> {
            let tau = trig_reduced(xi, sigma, root, q, k);
            let d = trig_doubled(tau, m, es, ec, k);
            &&& trig_tail_ok(tau, 2 * m + 1, ts)
            &&& trig_tail_ok(tau, 2 * m, tc)
            &&& rc.contains_real(rot_cos(d.0, d.1, q))
        }
}

/// One doubling step on balls, at every pair of series values.
proof fn lemma_dbl_step(
    s0: Ball,
    c0: Ball,
    s: Ball,
    c: Ball,
    sc: Ball,
    ss: Ball,
    s2: Ball,
    ss2: Ball,
    one: Ball,
    c2: Ball,
    i: nat,
)
    requires
        one.contains_real(1real),
        forall|a: real, b: real|
            #![trigger s0.contains_real(a), c0.contains_real(b)]
            s0.contains_real(a) && c0.contains_real(b) ==> s.contains_real(dbl(a, b, i).0) && c.contains_real(
                dbl(a, b, i).1,
            ),
        forall|x: real, y: real|
            #![trigger s.contains_real(x), c.contains_real(y)]
            s.contains_real(x) && c.contains_real(y) ==> sc.contains_real(x * y),
        forall|x: real, y: real|
            #![trigger s.contains_real(x), s.contains_real(y)]
            s.contains_real(x) && s.contains_real(y) ==> ss.contains_real(x * y),
        forall|x: real| sc.contains_real(x) ==> #[trigger] s2.contains_real(x * pow2r(1)),
        forall|x: real| ss.contains_real(x) ==> #[trigger] ss2.contains_real(x * pow2r(1)),
        forall|x: real, y: real|
            #![trigger one.contains_real(x), ss2.contains_real(y)]
            one.contains_real(x) && ss2.contains_real(y) ==> c2.contains_real(x - y),
    ensures
        forall|a: real, b: real|
            #![trigger s0.contains_real(a), c0.contains_real(b)]
            s0.contains_real(a) && c0.contains_real(b) ==> s2.contains_real(dbl(a, b, i + 1).0)
                && c2.contains_real(dbl(a, b, i + 1).1),
{
    assert forall|a: real, b: real|
        #![trigger s0.contains_real(a), c0.contains_real(b)]
        s0.contains_real(a) && c0.contains_real(b) implies s2.contains_real(dbl(a, b, i + 1).0)
        && c2.contains_real(dbl(a, b, i + 1).1) by {
        let p = dbl(a, b, i);
        assert(s.contains_real(p.0));
        assert(c.contains_real(p.1));
        assert(sc.contains_real(p.0 * p.1));
        assert(ss.contains_real(p.0 * p.0));
        assert(s2.contains_real((p.0 * p.1) * pow2r(1)));
        assert(ss2.contains_real((p.0 * p.0) * pow2r(1)));
        assert(c2.contains_real(1real - (p.0 * p.0) * pow2r(1)));
    }
}

/// π at `p` bits as [`constants::pi`] gives it, stated as the reduction
/// uses it: the whole ball, or one holding every π value of [`pi_near`].
fn pi_for_reduction(p: u32) -> (r: Ball)
    requires
        2 <= p <= constants::PREC_MAX,
    ensures
        r.wf(),
        r.is_whole() || forall|sigma: real, root: real|
            #[trigger] pi_near(sigma, root, p as nat) ==> r.contains_real(root * 426880real / sigma),
{
    let r = constants::pi(p);
    proof {
        assert forall|sigma: real, root: real|
            #[trigger] pi_near(sigma, root, p as nat) implies r.contains_real(root * 426880real / sigma) by {
        }
    }
    r
}

/// One evaluation of `(sin x, cos x)`: reduce by a multiple `q` of `π/2`,
/// halve `k` times, sum the series, double back with
/// `sin 2a = 2 sin a cos a`, `cos 2a = 1 − 2 sin² a`, and rotate by the
/// quadrant `q mod 4`.
#[verifier::spinoff_prover]
#[verifier::rlimit(100)]
fn sin_cos_attempt(x: &Ball, prec: u32, extra: u32) -> (r: (Ball, Ball))
    requires
        x.small(),
        2 <= prec <= ELEM_PREC_MAX,
        extra <= 64 + 8 * ELEM_PREC_MAX,
    ensures
        r.0.wf(),
        r.1.wf(),
        (r.0.is_whole() && r.1.is_whole()) || exists|q: int, k: nat, m: nat, ts: real, tc: real, p: nat|
            #[trigger] sin_encloses(*x, r.0, q, k, m, ts, tc, p) && cos_encloses(*x, r.1, q, k, m, ts, tc, p),
{
    let up = x.abs_upper();
    let e0: i64 = match up.exponent() {
        Some(v) => v,
        None => 0,
    };
    if e0 > MAX_ARG_EXP {
        return (Ball::whole(), Ball::whole());
    }
    let e: u32 = if e0 > 0 {
        e0 as u32
    } else {
        0
    };
    let wp = prec + extra + 2 * isqrt32(prec) + e + 16;
    let p = pi_for_reduction(wp + e + 8);
    if !p.is_small() {
        return (Ball::whole(), Ball::whole());
    }
    let half_pi = p.mul_2exp(-1);
    if !half_pi.is_small() || half_pi.mid().is_zero() {
        return (Ball::whole(), Ball::whole());
    }
    proof {
        half_pi.mid_f().lemma_val_zero();
        half_pi.mid_f().lemma_val_sign();
    }
    let hm = half_pi.mid().abs();
    let (qf, _) = x.mid().div(&hm, 64, Round::Nearest);
    if !qf.is_within(EXP_SMALL) {
        return (Ball::whole(), Ball::whole());
    }
    let q0 = nearest_int(&qf);
    let q = if half_pi.mid().is_neg() {
        -q0
    } else {
        q0
    };
    let qb = Ball::exact(Float::from_i64(q));
    let hq = half_pi.mul(&qb, wp);
    if !hq.is_small() {
        return (Ball::whole(), Ball::whole());
    }
    let t0 = x.sub(&hq, wp);
    let quadrant = ((q % 4) + 4) % 4;
    let k = isqrt32(wp) / 2 + 1;
    if !t0.is_small() {
        return (Ball::whole(), Ball::whole());
    }
    let t = t0.mul_2exp(-(k as i64));
    if !t.is_small() {
        return (Ball::whole(), Ball::whole());
    }
    let (s0, c0) = sin_cos_series(&t, wp);
    let mut s = s0.copy();
    let mut c = c0.copy();
    let one = Ball::from_i64(1);
    let mut i: u32 = 0;
    let ghost mut gi: nat = 0;
    proof {
        assert(one.contains_real(1real));
        assert forall|a: real, b: real|
            #![trigger s0.contains_real(a), c0.contains_real(b)]
            s0.contains_real(a) && c0.contains_real(b) implies s.contains_real(dbl(a, b, 0).0)
            && c.contains_real(dbl(a, b, 0).1) by {}
    }
    while i < k
        invariant
            s.wf(),
            c.wf(),
            one.small(),
            one.contains_real(1real),
            2 <= wp,
            i <= k,
            gi == i as nat,
            s0.is_whole() ==> i == 0 && s.rad_m() == s0.rad_m(),
            forall|a: real, b: real|
                #![trigger s0.contains_real(a), c0.contains_real(b)]
                s0.contains_real(a) && c0.contains_real(b) ==> s.contains_real(dbl(a, b, gi).0)
                    && c.contains_real(dbl(a, b, gi).1),
        decreases k - i,
    {
        if !s.is_small() || !c.is_small() {
            return (Ball::whole(), Ball::whole());
        }
        let sc = s.mul(&c, wp);
        let ss = s.mul(&s, wp);
        if !sc.is_small() || !ss.is_small() {
            return (Ball::whole(), Ball::whole());
        }
        let s2 = sc.mul_2exp(1);
        let ss2 = ss.mul_2exp(1);
        if !ss2.is_small() {
            return (Ball::whole(), Ball::whole());
        }
        let c2 = one.sub(&ss2, wp);
        proof {
            lemma_dbl_step(s0, c0, s, c, sc, ss, s2, ss2, one, c2, gi);
            gi = gi + 1;
        }
        s = s2;
        c = c2;
        i = i + 1;
    }
    let r = if quadrant == 0 {
        (s, c)
    } else if quadrant == 1 {
        (c, s.neg())
    } else if quadrant == 2 {
        (s.neg(), c.neg())
    } else {
        (c.neg(), s)
    };
    proof {
        if !(s0.is_whole() && c0.is_whole()) {
            let (m, ts, tc) = choose|m: nat, ts: real, tc: real| #[trigger] trig_series_encloses(t, s0, c0, m, ts, tc);
            let kn = k as nat;
            let pp = (wp + e + 8) as nat;
            let qi = q as int;
            assert(quadrant == qi % 4);
            assert forall|xi: real, sigma: real, root: real, es: real, ec: real|
                #![trigger x.contains_real(xi), pi_near(sigma, root, pp), abs_real(es), abs_real(ec)]
                x.contains_real(xi) && pi_near(sigma, root, pp) && abs_real(es) <= ts && abs_real(ec) <= tc implies {
                let tau = trig_reduced(xi, sigma, root, qi, kn);
                let d = trig_doubled(tau, m, es, ec, kn);
                &&& trig_tail_ok(tau, 2 * m + 1, ts)
                &&& trig_tail_ok(tau, 2 * m, tc)
                &&& r.0.contains_real(rot_sin(d.0, d.1, qi))
                &&& r.1.contains_real(rot_cos(d.0, d.1, qi))
            } by {
                let pv = root * 426880real / sigma;
                assert(p.contains_real(pv));
                assert(half_pi.contains_real(pv * pow2r(-1)));
                assert(qb.contains_real(qi as real));
                assert(hq.contains_real((pv * pow2r(-1)) * qi as real));
                assert(t0.contains_real(xi - (pv * pow2r(-1)) * qi as real));
                let tau = trig_reduced(xi, sigma, root, qi, kn);
                assert((k as i64) as int == kn as int);
                assert(t.contains_real(tau));
                assert(s0.contains_real(tau * sin_horner(tau * tau, 1, m) + es));
                assert(c0.contains_real(cos_horner(tau * tau, 1, m) + ec));
                let d = trig_doubled(tau, m, es, ec, kn);
                assert(s.contains_real(d.0));
                assert(c.contains_real(d.1));
            }
            assert(sin_encloses(*x, r.0, qi, kn, m, ts, tc, pp));
            assert(cos_encloses(*x, r.1, qi, kn, m, ts, tc, pp));
        }
    }
    r
}

/// A sin or cos ball whose radius reaches past one is replaced by `[0 ± 1]`.
fn clamp_unit(b: Ball) -> (r: Ball)
    requires
        b.wf(),
    ensures
        r.wf(),
        r.rad_m().ex() <= 1,
        unit_ball(r) || forall|v: real| b.contains_real(v) ==> #[trigger] r.contains_real(v),
{
    if b.rad().exp() > 0 {
        let r = Ball::new(Float::zero(), Mag::two_exp(0));
        proof {
            vstd::arithmetic::power2::lemma2_to64();
        }
        r
    } else {
        b
    }
}

/// The ball `[0 ± 1]`.
pub open spec fn unit_ball(b: Ball) -> bool {
    b.mid_val() == 0real && b.rad_val() == 1real
}

/// Every point of `a` lies in `b`.
pub open spec fn ball_within(a: Ball, b: Ball) -> bool {
    forall|v: real| a.contains_real(v) ==> #[trigger] b.contains_real(v)
}

/// The whole pair, the pair `[0 ± 1]`, or a pair of balls each `[0 ± 1]`
/// or holding a ball `s` (`c`) that holds the sine (cosine) as
/// [`sin_encloses`] ([`cos_encloses`]) states for one reduction.
pub open spec fn sin_cos_result(x: Ball, rs: Ball, rc: Ball) -> bool {
    ||| rs.is_whole() && rc.is_whole()
    ||| unit_ball(rs) && unit_ball(rc)
    ||| exists|s: Ball, c: Ball, q: int, k: nat, m: nat, ts: real, tc: real, p: nat|
        #![trigger sin_encloses(x, s, q, k, m, ts, tc, p), cos_encloses(x, c, q, k, m, ts, tc, p)]
        sin_encloses(x, s, q, k, m, ts, tc, p) && cos_encloses(x, c, q, k, m, ts, tc, p) && (unit_ball(rs)
            || ball_within(s, rs)) && (unit_ball(rc) || ball_within(c, rc))
}

/// The whole ball, `[0 ± 1]`, or a ball holding a ball that holds the
/// sine as [`sin_encloses`] states.
pub open spec fn sin_result(x: Ball, rs: Ball) -> bool {
    ||| rs.is_whole()
    ||| unit_ball(rs)
    ||| exists|s: Ball, q: int, k: nat, m: nat, ts: real, tc: real, p: nat|
        #[trigger] sin_encloses(x, s, q, k, m, ts, tc, p) && ball_within(s, rs)
}

/// The whole ball, `[0 ± 1]`, or a ball holding a ball that holds the
/// cosine as [`cos_encloses`] states.
pub open spec fn cos_result(x: Ball, rc: Ball) -> bool {
    ||| rc.is_whole()
    ||| unit_ball(rc)
    ||| exists|c: Ball, q: int, k: nat, m: nat, ts: real, tc: real, p: nat|
        #[trigger] cos_encloses(x, c, q, k, m, ts, tc, p) && ball_within(c, rc)
}

/// Rounding and clamping a pair that holds the sine and cosine keeps them.
proof fn lemma_sin_cos_finish(x: Ball, s: Ball, c: Ball, s1: Ball, c1: Ball, s2: Ball, c2: Ball)
    requires
        !(s.is_whole() && c.is_whole()),
        exists|q: int, k: nat, m: nat, ts: real, tc: real, p: nat|
            #[trigger] sin_encloses(x, s, q, k, m, ts, tc, p) && cos_encloses(x, c, q, k, m, ts, tc, p),
        forall|v: real| s.contains_real(v) ==> #[trigger] s1.contains_real(v),
        forall|v: real| c.contains_real(v) ==> #[trigger] c1.contains_real(v),
        unit_ball(s2) || forall|v: real| s1.contains_real(v) ==> #[trigger] s2.contains_real(v),
        unit_ball(c2) || forall|v: real| c1.contains_real(v) ==> #[trigger] c2.contains_real(v),
    ensures
        sin_cos_result(x, s2, c2),
{
    let (q, k, m, ts, tc, p) = choose|q: int, k: nat, m: nat, ts: real, tc: real, p: nat|
        #[trigger] sin_encloses(x, s, q, k, m, ts, tc, p) && cos_encloses(x, c, q, k, m, ts, tc, p);
    if !unit_ball(s2) {
        assert forall|v: real| s.contains_real(v) implies #[trigger] s2.contains_real(v) by {
            assert(s1.contains_real(v));
        }
    }
    if !unit_ball(c2) {
        assert forall|v: real| c.contains_real(v) implies #[trigger] c2.contains_real(v) by {
            assert(c1.contains_real(v));
        }
    }
    assert(sin_encloses(x, s, q, k, m, ts, tc, p) && cos_encloses(x, c, q, k, m, ts, tc, p) && (unit_ball(
        s2,
    ) || ball_within(s, s2)) && (unit_ball(c2) || ball_within(c, c2)));
}

/// `(sin x, cos x)`. The argument must lie below `2^40` in magnitude
/// ([`arg_in_range`] tests it); one whose bound, rounded up, reaches `2^40`
/// gives whole balls. A ball of radius beyond 4 gives `[0 ± 1]` for both.
/// Results are
/// otherwise of radius at most 2, and each is `[0 ± 1]` or holds the sine
/// or cosine as [`sin_cos_result`] states.
pub fn sin_cos(x: &Ball, prec: u32) -> (r: (Ball, Ball))
    requires
        x.small(),
        2 <= prec <= ELEM_PREC_MAX,
        abs_real(x.mid_val()) + x.rad_val() < pow2r(MAX_ARG_EXP as int),
    ensures
        r.0.wf(),
        r.1.wf(),
        r.0.is_whole() || r.0.rad_m().ex() <= 1,
        r.1.is_whole() || r.1.rad_m().ex() <= 1,
        sin_cos_result(*x, r.0, r.1),
{
    let up = x.abs_upper();
    let e0: i64 = match up.exponent() {
        Some(v) => v,
        None => 0,
    };
    if e0 > MAX_ARG_EXP {
        return (Ball::whole(), Ball::whole());
    }
    if x.rad().exp() > 2 {
        let r = (Ball::new(Float::zero(), Mag::two_exp(0)), Ball::new(Float::zero(), Mag::two_exp(0)));
        proof {
            vstd::arithmetic::power2::lemma2_to64();
            assert(unit_ball(r.0) && unit_ball(r.1));
        }
        return r;
    }
    let mut attempt: u32 = 0;
    while attempt < MAX_ATTEMPTS
        invariant
            x.small(),
            2 <= prec <= ELEM_PREC_MAX,
            attempt <= MAX_ATTEMPTS,
        decreases MAX_ATTEMPTS - attempt,
    {
        let (s, c) = sin_cos_attempt(x, prec, attempt_extra(prec, attempt));
        if !s.is_small() || !c.is_small() {
            return (Ball::whole(), Ball::whole());
        }
        if s.rel_accuracy_bits() >= prec as i64 && c.rel_accuracy_bits() >= prec as i64 {
            let s1 = s.round(prec);
            let c1 = c.round(prec);
            let s2 = clamp_unit(s1);
            let c2 = clamp_unit(c1);
            proof {
                lemma_sin_cos_finish(*x, s, c, s1, c1, s2, c2);
            }
            return (s2, c2);
        }
        attempt = attempt + 1;
    }
    let (s, c) = sin_cos_attempt(x, prec, attempt_extra(prec, MAX_ATTEMPTS));
    if !s.is_small() || !c.is_small() {
        return (Ball::whole(), Ball::whole());
    }
    let s1 = s.round(prec);
    let c1 = c.round(prec);
    let s2 = clamp_unit(s1);
    let c2 = clamp_unit(c1);
    proof {
        lemma_sin_cos_finish(*x, s, c, s1, c1, s2, c2);
    }
    (s2, c2)
}

/// `sin(x)`: the first half of [`sin_cos`].
pub fn sin(x: &Ball, prec: u32) -> (r: Ball)
    requires
        x.small(),
        2 <= prec <= ELEM_PREC_MAX,
        abs_real(x.mid_val()) + x.rad_val() < pow2r(MAX_ARG_EXP as int),
    ensures
        r.wf(),
        r.is_whole() || r.rad_m().ex() <= 1,
        sin_result(*x, r),
{
    let (s, c) = sin_cos(x, prec);
    proof {
        if !s.is_whole() && !unit_ball(s) && !(unit_ball(s) && unit_ball(c)) && !(s.is_whole() && c.is_whole()) {
            let (sb, cb, q, k, m, ts, tc, p) = choose|
                sb: Ball,
                cb: Ball,
                q: int,
                k: nat,
                m: nat,
                ts: real,
                tc: real,
                p: nat,
            |
                #![trigger sin_encloses(*x, sb, q, k, m, ts, tc, p), cos_encloses(*x, cb, q, k, m, ts, tc, p)]
                sin_encloses(*x, sb, q, k, m, ts, tc, p) && cos_encloses(*x, cb, q, k, m, ts, tc, p) && (
                unit_ball(s) || ball_within(sb, s)) && (unit_ball(c) || ball_within(cb, c));
            assert(sin_encloses(*x, sb, q, k, m, ts, tc, p) && ball_within(sb, s));
        }
    }
    s
}

/// `cos(x)`: the second half of [`sin_cos`].
pub fn cos(x: &Ball, prec: u32) -> (r: Ball)
    requires
        x.small(),
        2 <= prec <= ELEM_PREC_MAX,
        abs_real(x.mid_val()) + x.rad_val() < pow2r(MAX_ARG_EXP as int),
    ensures
        r.wf(),
        r.is_whole() || r.rad_m().ex() <= 1,
        cos_result(*x, r),
{
    let (s, c) = sin_cos(x, prec);
    proof {
        if !c.is_whole() && !unit_ball(c) && !(unit_ball(s) && unit_ball(c)) && !(s.is_whole() && c.is_whole()) {
            let (sb, cb, q, k, m, ts, tc, p) = choose|
                sb: Ball,
                cb: Ball,
                q: int,
                k: nat,
                m: nat,
                ts: real,
                tc: real,
                p: nat,
            |
                #![trigger sin_encloses(*x, sb, q, k, m, ts, tc, p), cos_encloses(*x, cb, q, k, m, ts, tc, p)]
                sin_encloses(*x, sb, q, k, m, ts, tc, p) && cos_encloses(*x, cb, q, k, m, ts, tc, p) && (
                unit_ball(s) || ball_within(sb, s)) && (unit_ball(c) || ball_within(cb, c));
            assert(cos_encloses(*x, cb, q, k, m, ts, tc, p) && ball_within(cb, c));
        }
    }
    c
}

/// The integer part of `m / 2^d` brackets it: `⌊m/2^d⌋ <= m·2^−d < ⌊m/2^d⌋ + 1`.
proof fn lemma_floor_shift(m: nat, d: nat)
    ensures
        (m / pow2(d)) as real <= m as real * pow2r(-(d as int)),
        m as real * pow2r(-(d as int)) < (m / pow2(d)) as real + 1real,
{
    vstd::arithmetic::power2::lemma_pow2_pos(d);
    let p = pow2(d);
    let q = m / p;
    let rm = m % p;
    vstd::arithmetic::div_mod::lemma_fundamental_div_mod(m as int, p as int);
    assert(m == q * p + rm);
    let pr = p as real;
    crate::dyadic::lemma_pos_real(p as int);
    crate::dyadic::lemma_nat_mul_real(q, p);
    if d == 0 {
        vstd::arithmetic::power2::lemma2_to64();
        assert(pow2r(-(d as int)) == 1real);
        assert(pr == 1real);
        assert(1real / 1real == 1real);
    } else {
        assert((-(-(d as int))) as nat == d);
    }
    assert(pow2r(-(d as int)) == 1real / pr);
    let mr = m as real;
    let qr = q as real;
    let rr = rm as real;
    assert(mr == qr * pr + rr);
    assert(0real <= rr < pr) by {
        crate::fp::lemma_real_cast_order(0, rm as int);
        crate::fp::lemma_real_cast_order(rm as int + 1, p as int);
    }
    assert(qr <= mr * (1real / pr) < qr + 1real) by (nonlinear_arith)
        requires
            mr == qr * pr + rr,
            0real <= rr < pr,
    ;
}

/// `v` truncated toward zero to an integer, for `|v| < 2^62`; zero
/// otherwise.
pub(crate) fn trunc_int(v: &Float) -> (q: i64)
    requires
        v.wf(),
    ensures
        -0x4000_0000_0000_0000 < q < 0x4000_0000_0000_0000,
        q > 0 ==> q as real <= v.val() < q as real + 1real,
        q < 0 ==> q as real - 1real < v.val() <= q as real,
        1real <= v.val() < pow2r(62) ==> q > 0,
        -pow2r(62) < v.val() <= -1real ==> q < 0,
{
    let e: i64 = match v.exponent() {
        Some(x) => x,
        None => 0,
    };
    proof {
        v.lemma_val_abs();
        v.lemma_mant_bounds();
        v.lemma_val_zero();
        crate::dyadic::lemma_pow2r_pos(v.low());
        let a = v.mant() as real * pow2r(v.low());
        crate::fp::lemma_real_cast_order(0, v.mant() as int);
        assert(v.mant() as real * pow2r(v.low()) >= 0real) by (nonlinear_arith)
            requires
                v.mant() as real >= 0real,
                pow2r(v.low()) > 0real,
        ;
        vstd::arithmetic::power2::lemma2_to64();
        vstd::arithmetic::power2::lemma2_to64_rest();
        assert(pow2r(0) == 1real);
        if v.mant() > 0 {
            // |v| in [2^(e−1), 2^e): |v| >= 1 forces e >= 1, |v| < 2^62 forces e <= 62.
            if e <= 0 {
                crate::dyadic::lemma_pow2r_le(e as int, 0);
            }
            if e > 62 {
                crate::dyadic::lemma_pow2r_le(62, e - 1);
            }
        } else {
            assert(v.val() == 0real);
        }
    }
    if e <= 0 || e > 62 {
        return 0;
    }
    let ip = v.top_bits(e as u32);
    proof {
        let d = (64 * v.nlimbs() - e) as nat;
        assert(v.low() == -(d as int));
        lemma_floor_shift(v.mant(), d);
        assert(ip == v.mant() / pow2(d));
    }
    if ip >= 0x4000_0000_0000_0000 {
        proof {
            crate::fp::lemma_real_cast_order(0x4000_0000_0000_0000, ip as int);
            vstd::arithmetic::power2::lemma2_to64_rest();
            assert(pow2(62) == 0x4000_0000_0000_0000);
            assert(pow2r(62) == 0x4000_0000_0000_0000int as real);
        }
        return 0;
    }
    proof {
        let a = v.mant() as real * pow2r(v.low());
        if 1real <= a {
            assert(ip as real + 1real > 1real);
            crate::fp::lemma_real_cast_order(1, ip as int + 1);
            assert(ip > 0) by {
                if ip == 0 {
                    assert(ip as real + 1real == 1real);
                }
            }
        }
    }
    if v.is_neg() {
        -(ip as i64)
    } else {
        ip as i64
    }
}

} // verus!
