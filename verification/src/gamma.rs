//! The gamma function on balls: the Stirling series with the classical
//! first-omitted-term remainder, an upward shift of the argument, and the
//! reflection formula left of 1/2.
//!
//! For real `z > 0`,
//! `ln Γ(z) = (z − 1/2) ln z − z + ½ ln 2π + Σ_{k=1}^{M} B_2k/(2k(2k−1) z^(2k−1)) + R_M`
//! with `|R_M| <= |B_{2M+2}| / ((2M+2)(2M+1) z^(2M+1))`; the bound decreases
//! in `z`, so it is taken at a lower bound of the argument ball. Balls with
//! midpoint below 1/2 use `Γ(x)·Γ(1−x) = π/sin(πx)`; a ball holding a pole
//! (a nonpositive integer) makes a divisor ball hold zero.
use crate::ball::{abs_real, Ball};
use crate::bernoulli::{bernoulli_from, bernoulli_value, tangent_numbers, TANGENT_MAX};
use crate::bigint::INT_LIMBS_MAX;
use crate::constants;
use crate::directed::{lemma_div_up, lemma_mul_directed, lemma_nonneg_unsigned, pow_down, rpow};
use crate::dyadic::pow2r;
use crate::elementary::{exp_encloses, ln_result, pi_near, sin_result};
use crate::elementary::{self, trunc_int, ELEM_PREC_MAX};
use crate::fp::{Float, Round, EXP_SMALL};
use crate::mag::Mag;
use crate::zeta::rising;
use vstd::prelude::*;

verus! {

/// Number of retries with more working precision.
pub const GAMMA_ATTEMPTS: u32 = 3;

/// Largest precision accepted by the gamma functions: 2^17 bits.
pub const GAMMA_PREC_MAX: u32 = 0x2_0000;

/// Largest upward shift of the argument.
pub const SHIFT_MAX: i64 = 0x10_0000;

/// Cap on the Stirling series length.
pub const STIRLING_TERMS_MAX: usize = 1500;

/// The Stirling series budget for `wp` bits: `min(0.17·wp + 8, 1500)`.
pub open spec fn stirling_budget(wp: nat) -> nat {
    if 17 * wp / 100 + 8 <= STIRLING_TERMS_MAX {
        17 * wp / 100 + 8
    } else {
        STIRLING_TERMS_MAX as nat
    }
}

/// The series budget and the argument the Stirling series wants for `wp`
/// bits: `z ≈ (M/2π)·exp((wp·ln 2 + 16)/(2M)) + 4`, evaluated in 64-bit
/// ball arithmetic (a tuning parameter only).
fn stirling_params(wp: u32) -> (r: (usize, Option<Float>))
    requires
        2 <= wp <= ELEM_PREC_MAX,
    ensures
        r.0 == stirling_budget(wp as nat),
        r.1 matches Some(f) ==> f.small(),
{
    let m0 = 17 * (wp as usize) / 100 + 8;
    let m = if m0 <= STIRLING_TERMS_MAX {
        m0
    } else {
        STIRLING_TERMS_MAX
    };
    let l2 = constants::ln2(64);
    let p = constants::pi(64);
    if !l2.is_small() || !p.is_small() {
        return (m, None);
    }
    let a = l2.mul_i64(wp as i64, 64);
    if !a.is_small() {
        return (m, None);
    }
    let b = a.add(&Ball::from_i64(16), 64);
    if !b.is_small() {
        return (m, None);
    }
    let e = b.div_u64(2 * m as u64, 64);
    if !e.is_small() {
        return (m, None);
    }
    if !elementary::arg_in_range(&e) {
        return (m, None);
    }
    let ex = elementary::exp(&e, 64);
    if !ex.is_small() {
        return (m, None);
    }
    let num = ex.mul_i64(m as i64, 64);
    let two_pi = p.mul_2exp(1);
    if !num.is_small() || !two_pi.is_small() || two_pi.contains_zero() {
        return (m, None);
    }
    let q = num.div(&two_pi, 64);
    if !q.is_small() {
        return (m, None);
    }
    let z = q.add(&Ball::from_i64(4), 64);
    if !z.is_small() {
        return (m, None);
    }
    let f = z.mid().copy();
    if !f.is_within(EXP_SMALL) {
        return (m, None);
    }
    (m, Some(f))
}

/// Shift `x` up by an integer `r` (about `target − mid x`, at least zero):
/// `Γ(x) = Γ(x + r) / (x(x+1)…(x+r−1))`. Returns `x + r` and the product,
/// or `None` for the product when `r = 0`; `None` overall should a value
/// leave the exponent range or the shift exceed `SHIFT_MAX`.
fn shift_argument(x: &Ball, wp: u32, target: &Float) -> (r: Option<(Ball, Option<Ball>)>)
    requires
        x.small(),
        target.small(),
        2 <= wp,
    ensures
        r matches Some(v) ==> v.0.wf() && (v.1 matches Some(p) ==> p.wf()),
        r matches Some(v) ==> exists|n: nat| #[trigger] shift_holds(*x, v.0, v.1, n),
{
    let (d, _) = target.sub(x.mid(), 64, Round::Nearest);
    let r: i64 = if d.signum() <= 0 {
        0
    } else {
        trunc_int(&d) + 1
    };
    if r > SHIFT_MAX {
        return None;
    }
    if r <= 0 {
        let c = x.copy();
        proof {
            assert forall|t: real| #[trigger] x.contains_real(t) implies c.contains_real(t + 0nat as real) by {
                assert(c.contains_real(t));
            }
            assert(shift_holds(*x, c, None, 0));
        }
        let res: (Ball, Option<Ball>) = (c, None);
        proof {
            assert(shift_holds(*x, res.0, res.1, 0));
        }
        return Some(res);
    }
    let one = Ball::from_i64(1);
    let mut prod = x.copy();
    let mut term = x.copy();
    let mut i: i64 = 1;
    proof {
        assert forall|t: real| #[trigger] x.contains_real(t) implies prod.contains_real(rising(t, 1))
            && term.contains_real(t + 0real) by {
            assert(rising(t, 1) == rising(t, 0) * (t + 0real));
        }
    }
    while i < r
        invariant
            1 <= i <= r <= SHIFT_MAX,
            prod.small(),
            term.small(),
            one.small(),
            one.mid_val() == 1real,
            one.rad_val() == 0real,
            2 <= wp,
            forall|t: real| #[trigger]
                x.contains_real(t) ==> prod.contains_real(rising(t, i as nat)) && term.contains_real(t + (i - 1) as real),
        decreases r - i,
    {
        let t2 = term.add(&one, wp);
        if !t2.is_small() {
            return None;
        }
        let p2 = prod.mul(&t2, wp);
        if !p2.is_small() {
            return None;
        }
        proof {
            assert forall|t: real| #[trigger] x.contains_real(t) implies p2.contains_real(rising(t, (i + 1) as nat))
                && t2.contains_real(t + i as real) by {
                assert(one.contains_real(1real));
                assert(term.contains_real(t + (i - 1) as real));
                assert(t2.contains_real(t + (i - 1) as real + 1real));
                assert(t + (i - 1) as real + 1real == t + i as real);
                assert(prod.contains_real(rising(t, i as nat)));
                assert(p2.contains_real(rising(t, i as nat) * (t + i as real)));
                assert(rising(t, (i + 1) as nat) == rising(t, i as nat) * (t + i as real));
            }
        }
        term = t2;
        prod = p2;
        i = i + 1;
    }
    let rb = Ball::from_i64(r);
    let shifted = x.add(&rb, wp);
    proof {
        assert forall|t: real| #[trigger] x.contains_real(t) implies shifted.contains_real(t + r as nat as real)
            && prod.contains_real(rising(t, r as nat)) by {
            assert(rb.contains_real(r as real));
        }
        assert(shift_holds(*x, shifted, Some(prod), r as nat));
    }
    let res = (shifted, Some(prod));
    proof {
        assert(shift_holds(*x, res.0, res.1, r as nat));
    }
    Some(res)
}

/// The number `M` of Stirling terms: the first for which the estimate
/// `2·(2k)! / ((2π)^(2k)·2k(2k−1)·z^(2k−1))` of the first omitted term
/// (`k = M + 1`) drops below `2^−(wp+8)`, up to `budget + 64`; estimated in
/// 64-bit arithmetic.
fn stirling_terms(z_low: &Float, wp: u32, budget: usize) -> (m: usize)
    requires
        z_low.small(),
        z_low.val() > 0real,
        2 <= wp <= ELEM_PREC_MAX,
        budget <= STIRLING_TERMS_MAX,
    ensures
        1 <= m <= budget + 64,
{
    let mut m: usize = 1;
    let p = constants::pi(64);
    if !p.is_small() {
        return m;
    }
    let two_pi = p.mid().mul_2exp(1);
    if !two_pi.is_within(EXP_SMALL) {
        return m;
    }
    let (tz, _) = two_pi.mul(z_low, 64, Round::Nearest);
    if !tz.is_within(EXP_SMALL) {
        return m;
    }
    let (c, _) = tz.mul(&tz, 64, Round::Nearest);
    if !c.is_within(EXP_SMALL) || c.is_zero() {
        return m;
    }
    let (tz3, _) = c.mul(&tz, 64, Round::Nearest);
    if !tz3.is_within(EXP_SMALL) {
        return m;
    }
    let (d, _) = tz3.mul(&two_pi, 64, Round::Nearest);
    if !d.is_within(EXP_SMALL) || d.is_zero() {
        return m;
    }
    let four = Float::from_i64(4);
    let (a0, _) = four.div(&d, 64, Round::Nearest);
    let mut a = a0;
    let limit: i64 = -(wp as i64 + 8);
    while m < budget + 64
        invariant
            1 <= m <= budget + 64,
            budget <= STIRLING_TERMS_MAX,
            a.wf(),
            c.small(),
            c.mant() > 0,
        decreases budget + 64 - m,
    {
        let small_enough = match a.exponent() {
            None => true,
            Some(e) => e <= limit,
        };
        if small_enough || !a.is_within(EXP_SMALL) {
            return m;
        }
        let k = (m + 1) as u64;
        proof {
            assert(2 * k * (2 * k - 1) <= 0x1000_0000) by (nonlinear_arith)
                requires
                    1 <= k <= 1600,
            ;
        }
        let (a1, _) = a.mul_u64(2 * k * (2 * k - 1), 64, Round::Nearest);
        if !a1.is_within(EXP_SMALL) {
            return m;
        }
        let (a2, _) = a1.div(&c, 64, Round::Nearest);
        a = a2;
        m = m + 1;
    }
    m
}

/// `r` holds `ln` of a ball `tp` that holds `2π̃` for every π value
/// `π̃ = root·426880/σ` of the π ball at `p` bits, as
/// [`elementary::ln_result`] states.
pub open spec fn ln_2pi_encloses(r: Ball, tp: Ball, p: nat) -> bool {
    &&& forall|sigma: real, root: real|
        #[trigger] pi_near(sigma, root, p) ==> tp.contains_real((root * 426880real / sigma) * pow2r(1))
    &&& ln_result(tp, r)
}

/// `ln(2π)` at `wp` bits.
fn ln_2pi(wp: u32) -> (r: Ball)
    requires
        2 <= wp <= ELEM_PREC_MAX,
    ensures
        r.wf(),
        r.is_whole() || exists|tp: Ball| #[trigger] ln_2pi_encloses(r, tp, (wp + 8) as nat),
{
    let p = constants::pi(wp + 8);
    if !p.is_small() {
        return Ball::whole();
    }
    let tp = p.mul_2exp(1);
    if !tp.is_small() || !(tp.mid().signum() > 0) {
        return Ball::whole();
    }
    let l = tp.lower_bound();
    if l.signum() <= 0 {
        return Ball::whole();
    }
    let r = elementary::ln(&tp, wp);
    proof {
        assert forall|sigma: real, root: real| #[trigger] pi_near(sigma, root, (wp + 8) as nat) implies tp.contains_real(
            (root * 426880real / sigma) * pow2r(1),
        ) by {
            assert(p.contains_real(root * 426880real / sigma));
        }
        assert(ln_2pi_encloses(r, tp, (wp + 8) as nat));
    }
    r
}

/// The Stirling correction `Σ_{k=1}^{m} B_2k / (2k·(2k − 1)·w^(2k−1))`.
pub open spec fn stirling_sum(w: real, m: nat) -> real
    decreases m,
{
    if m == 0 {
        0real
    } else {
        stirling_sum(w, (m - 1) as nat) + bernoulli_value(m) * rpow(1real / w, (2 * m - 1) as nat) / ((2 * m)
            * (2 * m - 1)) as real
    }
}

/// `sh` holds `t + n` and `pr` (present exactly when `n > 0`) holds the
/// rising product `t···(t + n − 1)`, for every `t` of `x`.
pub open spec fn shift_holds(x: Ball, sh: Ball, pr: Option<Ball>, n: nat) -> bool {
    &&& (pr is Some <==> n > 0)
    &&& forall|t: real| #[trigger]
        x.contains_real(t) ==> sh.contains_real(t + n as real) && (pr matches Some(p) ==> p.contains_real(
            rising(t, n),
        ))
}

/// The first omitted Stirling term bound `|B_(2m+2)| / ((2m+2)(2m+1)·lo^(2m+1))`.
pub open spec fn stirling_omitted(m: nat, lo: real) -> real {
    abs_real(bernoulli_value(m + 1)) / (((2 * m + 2) * (2 * m + 1)) as real * rpow(lo, (2 * m + 1) as nat))
}

/// `b / (c·R) <= ρ` from `b <= a`, `a / d <= q <= ρ` and `0 < d <= c·z <= c·R`.
proof fn lemma_omitted_bound(b: real, a: real, d: real, c: real, zv: real, rr: real, q: real, rho: real)
    requires
        0real <= b <= a,
        0real < d,
        0real <= c,
        d <= c * zv,
        zv <= rr,
        a / d <= q,
        q <= rho,
    ensures
        b / (c * rr) <= rho,
{
    assert(c * zv <= c * rr) by (nonlinear_arith)
        requires
            0real <= c,
            zv <= rr,
    ;
    assert(b / (c * rr) <= a / d) by (nonlinear_arith)
        requires
            0real <= b <= a,
            0real < d <= c * rr,
    ;
}

/// `r` holds the Stirling approximation of `ln Γ` at every point `w` of
/// `z`: `(w − ½)·L − w + Λ/2 + Σ_{k≤m} B_2k/(2k(2k−1)·w^(2k−1)) + δ` for
/// every `L` of a ball `lnz` holding `ln` of `z` ([`ln_result`]), every
/// `Λ` of a ball `l2p` holding `ln 2π` ([`ln_2pi_encloses`], π at `p`
/// bits) and every `|δ| <= ρ`, where `ρ` is at least the first omitted
/// term at a positive lower bound `lo` of `z`.
pub open spec fn stirling_encloses(
    r: Ball,
    z: Ball,
    lnz: Ball,
    l2p: Ball,
    m: nat,
    rho: real,
    lo: real,
    p: nat,
) -> bool {
    &&& ln_result(z, lnz)
    &&& exists|tp: Ball| #[trigger] ln_2pi_encloses(l2p, tp, p)
    &&& 0real < lo
    &&& forall|w: real| #[trigger] z.contains_real(w) ==> lo <= w
    &&& rho >= stirling_omitted(m, lo)
    &&& rho >= 0real
    &&& forall|w: real, ll: real, lam: real, d: real|
        #![trigger z.contains_real(w), lnz.contains_real(ll), l2p.contains_real(lam), abs_real(d)]
        z.contains_real(w) && lnz.contains_real(ll) && l2p.contains_real(lam) && abs_real(d) <= rho
            ==> r.contains_real((w - 1real / 2real) * ll - w + lam / 2real + stirling_sum(w, m) + d)
}

/// The Stirling series for `ln Γ(z)` on a ball wholly above zero, widened
/// by the first omitted term taken at the ball's lower bound.
#[verifier::spinoff_prover]
#[verifier::rlimit(50)]
fn ln_gamma_stirling(z: &Ball, wp: u32, budget: usize) -> (r: Ball)
    requires
        z.small(),
        2 <= wp <= ELEM_PREC_MAX - 16,
        budget <= STIRLING_TERMS_MAX,
    ensures
        r.wf(),
        r.is_whole() || exists|lnz: Ball, l2p: Ball, m: nat, rho: real, lo: real|
            #[trigger] stirling_encloses(r, *z, lnz, l2p, m, rho, lo, (wp + 16) as nat),
{
    let z_low = z.lower_bound();
    if !z_low.is_within(EXP_SMALL) || z_low.signum() <= 0 {
        return Ball::whole();
    }
    let m = stirling_terms(&z_low, wp, budget);
    let tan = tangent_numbers(m + 1);
    let one = Ball::from_i64(1);
    proof {
        assert(!z.contains_real(0real));
    }
    let inv_z = one.div(z, wp);
    if !inv_z.is_small() {
        return Ball::whole();
    }
    let inv_z2 = inv_z.mul(&inv_z, wp);
    if !inv_z2.is_small() {
        return Ball::whole();
    }
    let mut pow = inv_z.copy();
    let mut sum = Ball::zero();
    let mut k: usize = 1;
    proof {
        assert forall|w: real| #[trigger] z.contains_real(w) implies inv_z.contains_real(1real / w) by {
            assert(one.contains_real(1real));
        }
        assert forall|w: real| #[trigger] z.contains_real(w) implies sum.contains_real(stirling_sum(w, 0))
            && pow.contains_real(rpow(1real / w, 1)) by {
            assert(one.contains_real(1real));
            assert(inv_z.contains_real(1real / w));
            assert(rpow(1real / w, 1) == (1real / w) * rpow(1real / w, 0));
        }
    }
    while k <= m
        invariant
            1 <= k <= m + 1,
            forall|w: real| #[trigger]
                z.contains_real(w) ==> sum.contains_real(stirling_sum(w, (k - 1) as nat)) && (k <= m
                    ==> pow.contains_real(rpow(1real / w, (2 * k - 1) as nat))),
            forall|u: real, v: real|
                #![trigger inv_z.contains_real(u), inv_z.contains_real(v)]
                inv_z.contains_real(u) && inv_z.contains_real(v) ==> inv_z2.contains_real(u * v),
            forall|w: real| #[trigger] z.contains_real(w) ==> inv_z.contains_real(1real / w),
            m <= STIRLING_TERMS_MAX + 64,
            tan@.len() == m + 1,
            forall|i: int|
                0 <= i < m + 1 ==> (#[trigger] tan@[i]).wf() && tan@[i].value()
                    == crate::bernoulli::tangent((i + 1) as nat) && tan@[i].nlimbs() <= 6 * (m + 1) + 3,
            pow.small(),
            sum.small(),
            inv_z2.small(),
            2 <= wp <= ELEM_PREC_MAX - 16,
        decreases m + 1 - k,
    {
        let b2k = bernoulli_from(&tan[k - 1], k, wp * 2 + 64);
        if !b2k.is_small() {
            return Ball::whole();
        }
        let bp = b2k.mul(&pow, wp);
        if !bp.is_small() {
            return Ball::whole();
        }
        proof {
            assert((2 * k as u64) * (2 * k as u64 - 1) <= 0x1000_0000 && (2 * k as u64) * (2 * k as u64
                - 1) >= 2) by (nonlinear_arith)
                requires
                    1 <= k <= 1600,
            ;
        }
        let nk = (2 * k as u64) * (2 * k as u64 - 1);
        let t = bp.div_u64(nk, wp);
        if !t.is_small() {
            return Ball::whole();
        }
        let s2 = sum.add(&t, wp);
        if !s2.is_small() {
            return Ball::whole();
        }
        proof {
            assert(nk as real == ((2 * k as nat) * (2 * k as nat - 1)) as real);
            assert forall|w: real| #[trigger] z.contains_real(w) implies s2.contains_real(stirling_sum(w, k as nat)) by {
                let q = rpow(1real / w, (2 * k - 1) as nat);
                let b = bernoulli_value(k as nat);
                assert(b2k.contains_real(b));
                assert(pow.contains_real(q));
                assert(bp.contains_real(b * q));
                assert(t.contains_real(b * q / nk as real));
                assert(sum.contains_real(stirling_sum(w, (k - 1) as nat)));
                assert(s2.contains_real(stirling_sum(w, (k - 1) as nat) + b * q / nk as real));
            }
        }
        let ghost pow0 = pow;
        sum = s2;
        if k < m {
            let p2 = pow.mul(&inv_z2, wp);
            if !p2.is_small() {
                return Ball::whole();
            }
            proof {
                assert forall|w: real| #[trigger] z.contains_real(w) implies p2.contains_real(
                    rpow(1real / w, (2 * (k + 1) - 1) as nat),
                ) by {
                    let x = 1real / w;
                    let q = rpow(x, (2 * k - 1) as nat);
                    assert(inv_z.contains_real(x));
                    assert(inv_z2.contains_real(x * x));
                    assert(pow0.contains_real(q));
                    assert(p2.contains_real(q * (x * x)));
                    assert(rpow(x, (2 * k) as nat) == x * q);
                    assert(rpow(x, (2 * k + 1) as nat) == x * rpow(x, (2 * k) as nat));
                    assert(q * (x * x) == x * (x * q)) by (nonlinear_arith);
                }
            }
            pow = p2;
        }
        k = k + 1;
    }
    let b_next = bernoulli_from(&tan[m], m + 1, 192);
    if !b_next.is_small() {
        return Ball::whole();
    }
    let num = b_next.abs_upper();
    proof {
        z_low.lemma_val_sign();
    }
    let zp = match pow_down(&z_low, 2 * m as u64 + 1) {
        Some(v) => v,
        None => {
            return Ball::whole();
        },
    };
    proof {
        assert((2 * m as u64 + 2) * (2 * m as u64 + 1) <= 0x1000_0000) by (nonlinear_arith)
            requires
                m <= 1600,
        ;
    }
    let coef = Float::from_u64((2 * m as u64 + 2) * (2 * m as u64 + 1));
    let (den1, _) = coef.mul(&zp, 64, Round::Down);
    if !den1.is_within(EXP_SMALL) || !num.is_within(EXP_SMALL) || den1.is_zero() {
        return Ball::whole();
    }
    let (bound, _) = num.div(&den1, 64, Round::Up);
    if !bound.is_within(EXP_SMALL) {
        return Ball::whole();
    }
    let rem = Mag::from_float_upper(&bound);
    proof {
        let lo = z_low.val();
        let bv = bernoulli_value((m + 1) as nat);
        let n = (2 * m + 1) as nat;
        let cf = ((2 * m + 2) * (2 * m + 1)) as real;
        assert(b_next.contains_real(bv));
        assert(abs_real(bv) <= num.val());
        assert(coef.val() == cf);
        lemma_mul_directed(coef, zp, 64, Round::Down);
        assert(den1.val() <= cf * zp.val());
        assert(den1.val() != 0real);
        lemma_nonneg_unsigned(den1);
        lemma_div_up(num, den1, 64, bound.val());
        bound.lemma_val_abs();
        crate::fp::lemma_mag_nonneg_pub(&bound);
        assert(bound.val() <= bound.mag());
        let rr = rpow(lo, n);
        assert(zp.val() <= rr);
        lemma_omitted_bound(abs_real(bv), num.val(), den1.val(), cf, zp.val(), rr, bound.val(), rem.val());
        assert(rem.val() >= stirling_omitted(m as nat, lo));
    }
    if !rem.is_within(crate::ball::BALL_EXP) {
        return Ball::whole();
    }
    let ghost s0 = sum;
    let sum = sum.add_error(&rem);
    let half = Ball::exact(Float::from_i64(1).mul_2exp(-1));
    if !half.is_small() || !sum.is_small() {
        return Ball::whole();
    }
    proof {
        rem.lemma_val_pos();
        assert(sum.mid_val() == s0.mid_val());
        assert forall|w: real, d: real|
            #![trigger z.contains_real(w), abs_real(d)]
            z.contains_real(w) && abs_real(d) <= rem.val() implies sum.contains_real(stirling_sum(w, m as nat) + d) by {
            assert(s0.contains_real(stirling_sum(w, m as nat)));
        }
        vstd::arithmetic::power2::lemma2_to64();
        assert(pow2r(-1) == 1real / 2real);
        assert(half.contains_real(1real / 2real));
    }
    let lnz = elementary::ln(z, wp);
    let zh = z.sub(&half, wp);
    if !lnz.is_small() || !zh.is_small() {
        return Ball::whole();
    }
    let zl = zh.mul(&lnz, wp);
    if !zl.is_small() {
        return Ball::whole();
    }
    let main = zl.sub(z, wp);
    let l2p = ln_2pi(wp + 8);
    if !main.is_small() || !l2p.is_small() {
        return Ball::whole();
    }
    let hl = l2p.mul_2exp(-1);
    if !hl.is_small() {
        return Ball::whole();
    }
    let t1 = main.add(&hl, wp);
    if !t1.is_small() {
        return Ball::whole();
    }
    let r = t1.add(&sum, wp);
    proof {
        assert(!l2p.is_whole());
        assert forall|w: real, ll: real, lam: real, d: real|
            #![trigger z.contains_real(w), lnz.contains_real(ll), l2p.contains_real(lam), abs_real(d)]
            z.contains_real(w) && lnz.contains_real(ll) && l2p.contains_real(lam) && abs_real(d) <= rem.val()
                implies r.contains_real((w - 1real / 2real) * ll - w + lam / 2real + stirling_sum(w, m as nat) + d) by {
            assert(zh.contains_real(w - 1real / 2real));
            assert(zl.contains_real((w - 1real / 2real) * ll));
            assert(main.contains_real((w - 1real / 2real) * ll - w));
            assert(hl.contains_real(lam * pow2r(-1)));
            assert(t1.contains_real((w - 1real / 2real) * ll - w + lam * pow2r(-1)));
            assert(sum.contains_real(stirling_sum(w, m as nat) + d));
        }
        assert(stirling_encloses(r, *z, lnz, l2p, m as nat, rem.val(), z_low.val(), (wp + 16) as nat));
    }
    r
}

/// `r` holds Γ of the points of `x` as `exp` of the Stirling series at the
/// shifted argument divided by the shift product: `lg`
/// [`stirling_encloses`] over a ball `sh` holding `t + n` for every `t` of
/// `x` (π at `p` bits), `g` holds `exp` of `lg` ([`exp_encloses`]), and
/// `r` holds `v / q` for every `v` of `g` and `q` of the ball `pr` holding
/// `t·(t + 1)···(t + n − 1)` (every `v` when `n = 0`).
pub open spec fn gamma_pos_encloses(
    r: Ball,
    x: Ball,
    n: nat,
    sh: Ball,
    pr: Option<Ball>,
    lg: Ball,
    g: Ball,
    p: nat,
) -> bool {
    &&& shift_holds(x, sh, pr, n)
    &&& exists|lnz: Ball, l2p: Ball, m: nat, rho: real, lo: real|
        #[trigger] stirling_encloses(lg, sh, lnz, l2p, m, rho, lo, p)
    &&& exists|k: nat, j: nat, t: real| #[trigger] exp_encloses(lg, g, k, j, t)
    &&& pr is None ==> forall|v: real| #[trigger] g.contains_real(v) ==> r.contains_real(v)
    &&& pr matches Some(q) ==> forall|v: real, y: real|
        #![trigger g.contains_real(v), q.contains_real(y)]
        g.contains_real(v) && q.contains_real(y) ==> y != 0real && r.contains_real(v / y)
}

/// Γ for balls with midpoint at least 1/2: shift, Stirling, exponentiate,
/// divide by the shift product (`None` if that product holds zero).
fn gamma_pos(x: &Ball, wp: u32) -> (r: Option<Ball>)
    requires
        x.small(),
        2 <= wp <= ELEM_PREC_MAX - 16,
    ensures
        r matches Some(b) ==> b.wf(),
        r matches Some(b) ==> b.is_whole() || exists|n: nat, sh: Ball, pr: Option<Ball>, lg: Ball, g: Ball, p: nat|
            #[trigger] gamma_pos_encloses(b, *x, n, sh, pr, lg, g, p),
{
    let (budget, target) = stirling_params(wp);
    let target = match target {
        Some(t) => t,
        None => {
            return Some(Ball::whole());
        },
    };
    let (shifted, poch) = match shift_argument(x, wp, &target) {
        Some(v) => v,
        None => {
            return Some(Ball::whole());
        },
    };
    let ghost n = choose|n: nat| shift_holds(*x, shifted, poch, n);
    if !shifted.is_small() {
        return Some(Ball::whole());
    }
    let lg = ln_gamma_stirling(&shifted, wp, budget);
    if !lg.is_small() {
        return Some(Ball::whole());
    }
    if !elementary::arg_in_range(&lg) {
        return Some(Ball::whole());
    }
    let g = elementary::exp(&lg, wp);
    proof {
        assert(shift_holds(*x, shifted, poch, n));
    }
    match poch {
        Some(p) => {
            if !g.is_small() || !p.is_small() {
                return Some(Ball::whole());
            }
            let r = g.try_div(&p, wp);
            proof {
                if r is Some {
                    assert(gamma_pos_encloses(r->0, *x, n, shifted, poch, lg, g, (wp + 16) as nat));
                }
            }
            r
        },
        None => {
            proof {
                if !g.is_whole() {
                    assert(gamma_pos_encloses(g, *x, n, shifted, poch, lg, g, (wp + 16) as nat));
                }
            }
            Some(g)
        },
    }
}

/// `r` holds Γ of the points of `x` by reflection: `om` holds `1 − t` for
/// every `t` of `x`, `g` holds Γ over `om` ([`gamma_pos_encloses`]), `pb`
/// holds every value `π̃` of [`pi_near`] at `p` bits, `px` holds `π̃·t`,
/// `s` holds `sin` of `px` ([`sin_result`]), `sg` holds `S·G` for every `S`
/// of `s` and `G` of `g`, and `r` holds `π̃ / u` for every `u` of `sg`.
pub open spec fn reflect_encloses(
    r: Ball,
    x: Ball,
    pb: Ball,
    om: Ball,
    g: Ball,
    px: Ball,
    s: Ball,
    sg: Ball,
    p: nat,
) -> bool {
    &&& forall|t: real| #[trigger] x.contains_real(t) ==> om.contains_real(1real - t)
    &&& exists|n: nat, sh: Ball, pr: Option<Ball>, lg: Ball, g2: Ball, q: nat|
        #[trigger] gamma_pos_encloses(g, om, n, sh, pr, lg, g2, q)
    &&& forall|sigma: real, root: real|
        #[trigger] pi_near(sigma, root, p) ==> pb.contains_real(root * 426880real / sigma)
    &&& forall|a: real, t: real|
        #![trigger pb.contains_real(a), x.contains_real(t)]
        pb.contains_real(a) && x.contains_real(t) ==> px.contains_real(a * t)
    &&& sin_result(px, s)
    &&& forall|u: real, v: real|
        #![trigger s.contains_real(u), g.contains_real(v)]
        s.contains_real(u) && g.contains_real(v) ==> sg.contains_real(u * v)
    &&& forall|a: real, y: real|
        #![trigger pb.contains_real(a), sg.contains_real(y)]
        pb.contains_real(a) && sg.contains_real(y) ==> y != 0real && r.contains_real(a / y)
}

/// What one evaluation of Γ states of its ball: the whole ball, or Γ
/// directly ([`gamma_pos_encloses`]) or by reflection
/// ([`reflect_encloses`]).
pub open spec fn gamma_result(x: Ball, r: Ball) -> bool {
    ||| r.is_whole()
    ||| exists|n: nat, sh: Ball, pr: Option<Ball>, lg: Ball, g: Ball, p: nat|
        #[trigger] gamma_pos_encloses(r, x, n, sh, pr, lg, g, p)
    ||| exists|pb: Ball, om: Ball, g: Ball, px: Ball, s: Ball, sg: Ball, p: nat|
        #[trigger] reflect_encloses(r, x, pb, om, g, px, s, sg, p)
}

/// A ball holding every point of one that [`gamma_result`] describes is
/// described by it too.
proof fn lemma_gamma_widen(x: Ball, r: Ball, r2: Ball)
    requires
        gamma_result(x, r),
        !r.is_whole(),
        forall|v: real| r.contains_real(v) ==> #[trigger] r2.contains_real(v),
    ensures
        gamma_result(x, r2),
{
    if exists|n: nat, sh: Ball, pr: Option<Ball>, lg: Ball, g: Ball, p: nat|
        #[trigger] gamma_pos_encloses(r, x, n, sh, pr, lg, g, p) {
        let (n, sh, pr, lg, g, p) = choose|n: nat, sh: Ball, pr: Option<Ball>, lg: Ball, g: Ball, p: nat|
            #[trigger] gamma_pos_encloses(r, x, n, sh, pr, lg, g, p);
        if pr is None {
            assert forall|v: real| #[trigger] g.contains_real(v) implies r2.contains_real(v) by {
                assert(r.contains_real(v));
            }
        } else {
            let q = pr->0;
            assert forall|v: real, y: real|
                #![trigger g.contains_real(v), q.contains_real(y)]
                g.contains_real(v) && q.contains_real(y) implies y != 0real && r2.contains_real(v / y) by {
                assert(r.contains_real(v / y));
            }
        }
        assert(gamma_pos_encloses(r2, x, n, sh, pr, lg, g, p));
    } else {
        let (pb, om, g, px, s, sg, p) = choose|pb: Ball, om: Ball, g: Ball, px: Ball, s: Ball, sg: Ball, p: nat|
            #[trigger] reflect_encloses(r, x, pb, om, g, px, s, sg, p);
        assert forall|a: real, y: real|
            #![trigger pb.contains_real(a), sg.contains_real(y)]
            pb.contains_real(a) && sg.contains_real(y) implies y != 0real && r2.contains_real(a / y) by {
            assert(r.contains_real(a / y));
        }
        assert(reflect_encloses(r2, x, pb, om, g, px, s, sg, p));
    }
}

/// One evaluation of Γ at `wp` bits, reflecting balls with midpoint below
/// 1/2: `Γ(x) = π / (sin(πx) · Γ(1 − x))`.
fn gamma_attempt(x: &Ball, wp: u32) -> (r: Option<Ball>)
    requires
        x.small(),
        2 <= wp <= ELEM_PREC_MAX - 16,
    ensures
        r matches Some(b) ==> b.wf() && gamma_result(*x, b),
{
    let half = Float::from_i64(1).mul_2exp(-1);
    if x.mid().compare_val(&half) < 0 {
        let p = constants::pi(wp + 8);
        let one_b = Ball::from_i64(1);
        let om = one_b.sub(x, wp);
        if !p.is_small() || !om.is_small() {
            return Some(Ball::whole());
        }
        let g = match gamma_pos(&om, wp) {
            Some(g) => g,
            None => {
                return None;
            },
        };
        let px = p.mul(x, wp);
        if !px.is_small() {
            return Some(Ball::whole());
        }
        if !elementary::arg_in_range(&px) {
            return Some(Ball::whole());
        }
        let s = elementary::sin(&px, wp);
        if !s.is_small() || !g.is_small() {
            return Some(Ball::whole());
        }
        let sg = s.mul(&g, wp);
        if !sg.is_small() {
            return Some(Ball::whole());
        }
        let r = p.try_div(&sg, wp);
        proof {
            if r is Some {
                assert forall|t: real| #[trigger] x.contains_real(t) implies om.contains_real(1real - t) by {
                    assert(one_b.contains_real(1real));
                }
                assert forall|sigma: real, root: real|
                    #[trigger] pi_near(sigma, root, (wp + 8) as nat) implies p.contains_real(root * 426880real / sigma) by {
                    assert(p.contains_real(root * 426880real / sigma));
                }
                assert(!g.is_whole());
                assert(reflect_encloses(r->0, *x, p, om, g, px, s, sg, (wp + 8) as nat));
            }
        }
        return r;
    }
    gamma_pos(x, wp)
}

/// Γ(x), or `None` when a divisor ball of the computation holds zero, as
/// it does for balls holding a pole (a nonpositive integer).
pub fn try_gamma(x: &Ball, prec: u32) -> (r: Option<Ball>)
    requires
        x.small(),
        2 <= prec <= GAMMA_PREC_MAX,
    ensures
        r matches Some(b) ==> b.wf() && gamma_result(*x, b),
{
    let mut attempt: u32 = 0;
    while attempt < GAMMA_ATTEMPTS
        invariant
            x.small(),
            2 <= prec <= GAMMA_PREC_MAX,
            attempt <= GAMMA_ATTEMPTS,
        decreases GAMMA_ATTEMPTS - attempt,
    {
        proof {
            assert(prec / 2 * attempt <= prec / 2 * 3) by (nonlinear_arith)
                requires
                    attempt <= 3,
            ;
        }
        let extra = 64 + prec / 2 * attempt;
        let r = match gamma_attempt(x, prec + extra) {
            Some(r) => r,
            None => {
                return None;
            },
        };
        if !r.is_small() {
            return Some(Ball::whole());
        }
        if r.rel_accuracy_bits() >= prec as i64 {
            let rr = r.round(prec);
            proof {
                lemma_gamma_widen(*x, r, rr);
            }
            return Some(rr);
        }
        attempt = attempt + 1;
    }
    let extra = 64 + prec / 2 * GAMMA_ATTEMPTS;
    let r = match gamma_attempt(x, prec + extra) {
        Some(r) => r,
        None => {
            return None;
        },
    };
    if !r.is_small() {
        return Some(Ball::whole());
    }
    let rr = r.round(prec);
    proof {
        lemma_gamma_widen(*x, r, rr);
    }
    Some(rr)
}

/// Γ(x); the whole ball where [`try_gamma`] gives `None`.
pub fn gamma(x: &Ball, prec: u32) -> (r: Ball)
    requires
        x.small(),
        2 <= prec <= GAMMA_PREC_MAX,
    ensures
        r.wf(),
        gamma_result(*x, r),
{
    match try_gamma(x, prec) {
        Some(b) => b,
        None => Ball::whole(),
    }
}

/// `r` holds `ln Γ` of the points of `x` as the Stirling series at the
/// shifted argument less `ln` of the shift product: `lg`
/// [`stirling_encloses`] over a ball `sh` holding `t + n` for every `t` of
/// `x` (π at `p` bits), and when `n > 0`, `lp` holds `ln` of a ball `pr`
/// holding `t·(t + 1)···(t + n − 1)`; `r` holds `g − L` for every `g` of
/// `lg` and `L` of `lp` (every `g` when `n = 0`).
pub open spec fn ln_gamma_encloses(
    r: Ball,
    x: Ball,
    n: nat,
    sh: Ball,
    pr: Option<Ball>,
    lg: Ball,
    lp: Ball,
    p: nat,
) -> bool {
    &&& shift_holds(x, sh, pr, n)
    &&& exists|lnz: Ball, l2p: Ball, m: nat, rho: real, lo: real|
        #[trigger] stirling_encloses(lg, sh, lnz, l2p, m, rho, lo, p)
    &&& pr is None ==> forall|g: real| #[trigger] lg.contains_real(g) ==> r.contains_real(g)
    &&& pr matches Some(q) ==> ln_result(q, lp) && forall|g: real, l: real|
        #![trigger lg.contains_real(g), lp.contains_real(l)]
        lg.contains_real(g) && lp.contains_real(l) ==> r.contains_real(g - l)
}

/// A ball holding every point of one that [`ln_gamma_encloses`] does too.
proof fn lemma_ln_gamma_widen(
    r: Ball,
    r2: Ball,
    x: Ball,
    n: nat,
    sh: Ball,
    pr: Option<Ball>,
    lg: Ball,
    lp: Ball,
    p: nat,
)
    requires
        ln_gamma_encloses(r, x, n, sh, pr, lg, lp, p),
        forall|v: real| r.contains_real(v) ==> #[trigger] r2.contains_real(v),
    ensures
        ln_gamma_encloses(r2, x, n, sh, pr, lg, lp, p),
{
    if pr is None {
        assert forall|g: real| #[trigger] lg.contains_real(g) implies r2.contains_real(g) by {
            assert(r.contains_real(g));
        }
    } else {
        assert forall|g: real, l: real|
            #![trigger lg.contains_real(g), lp.contains_real(l)]
            lg.contains_real(g) && lp.contains_real(l) implies r2.contains_real(g - l) by {
            assert(r.contains_real(g - l));
        }
    }
}

/// ln Γ(x) for a ball wholly above zero.
pub fn ln_gamma(x: &Ball, prec: u32) -> (r: Ball)
    requires
        x.small(),
        2 <= prec <= GAMMA_PREC_MAX,
        x.mid_val() - x.rad_val() > 0real,
    ensures
        r.wf(),
        r.is_whole() || exists|n: nat, sh: Ball, pr: Option<Ball>, lg: Ball, lp: Ball, p: nat|
            #[trigger] ln_gamma_encloses(r, *x, n, sh, pr, lg, lp, p),
{
    let mut attempt: u32 = 0;
    loop
        invariant
            x.small(),
            2 <= prec <= GAMMA_PREC_MAX,
            attempt <= GAMMA_ATTEMPTS,
        decreases GAMMA_ATTEMPTS - attempt,
    {
        proof {
            assert(prec / 2 * attempt <= prec / 2 * 3) by (nonlinear_arith)
                requires
                    attempt <= 3,
            ;
        }
        let extra = 64 + prec / 2 * attempt;
        let wp = prec + extra;
        let (budget, target) = stirling_params(wp);
        let target = match target {
            Some(t) => t,
            None => {
                return Ball::whole();
            },
        };
        let (shifted, poch) = match shift_argument(x, wp, &target) {
            Some(v) => v,
            None => {
                return Ball::whole();
            },
        };
        let ghost n = choose|n: nat| shift_holds(*x, shifted, poch, n);
        if !shifted.is_small() {
            return Ball::whole();
        }
        let lg = ln_gamma_stirling(&shifted, wp, budget);
        let ghost lgg = lg;
        let ghost mut lpg = lg;
        let r = match poch {
            Some(p) => {
                if !p.is_small() || !lg.is_small() {
                    return Ball::whole();
                }
                let l = p.lower_bound();
                if l.signum() <= 0 {
                    return Ball::whole();
                }
                let lp = elementary::ln(&p, wp);
                if !lp.is_small() {
                    return Ball::whole();
                }
                proof {
                    lpg = lp;
                }
                lg.sub(&lp, wp)
            },
            None => lg,
        };
        if !r.is_small() {
            return Ball::whole();
        }
        proof {
            assert(shift_holds(*x, shifted, poch, n));
            assert(!lgg.is_whole());
            if poch is None {
                assert(r == lgg);
            }
            assert(ln_gamma_encloses(r, *x, n, shifted, poch, lgg, lpg, (wp + 16) as nat));
        }
        if r.rel_accuracy_bits() >= prec as i64 || attempt == GAMMA_ATTEMPTS {
            let rr = r.round(prec);
            proof {
                lemma_ln_gamma_widen(r, rr, *x, n, shifted, poch, lgg, lpg, (wp + 16) as nat);
            }
            return rr;
        }
        attempt = attempt + 1;
    }
}

} // verus!
