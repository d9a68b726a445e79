//! The Riemann zeta function for real `s > 0`, `s ≠ 1`, by Euler–Maclaurin
//! summation with a rigorous remainder bound:
//! `ζ(s) = Σ_{j<N} j^−s + N^−s/2 + N^(1−s)/(s−1)
//!       + Σ_{k=1}^{M} B_2k/(2k)! · (s)_{2k−1} · N^(−s−2k+1) + R_M`
//! with `(s)_{2k−1} = s(s+1)…(s+2k−2)` and, for real `s`, `|R_M|` at most the
//! first omitted term. Integer `s` uses exact powers; other `s` computes
//! `j^−s = exp(−s ln j)`.
use crate::ball::{abs_real, lemma_widen, span_ok, Ball, BALL_EXP};
use crate::bernoulli::{bernoulli_from, bernoulli_value, tangent, tangent_numbers};
use crate::bigint::Int;
use crate::elementary::{
    self, div_up, factorial, factorial_down, lemma_factorial_pos, trunc_int, ELEM_PREC_MAX,
};
use crate::fp::{Float, Round, EXP_SMALL};
use crate::mag::Mag;
use crate::dyadic::pow2r;
use crate::directed::{
    lemma_lin_directed, lemma_mul_directed, lemma_nonneg_unsigned, lemma_rpow_add, lemma_rpow_exp_mono,
    lemma_rpow_one, lemma_rpow_pos, pow_down, rpow,
};
use vstd::prelude::*;

verus! {

/// Number of retries with more working precision.
pub const ZETA_ATTEMPTS: u32 = 3;

/// Largest precision accepted by the zeta functions: 2^17 bits.
pub const ZETA_PREC_MAX: u32 = 0x2_0000;

/// `Σ_{j=1}^{n−1} j^−e`, the directly summed part.
pub open spec fn zeta_direct(e: nat, n: nat) -> real
    decreases n,
{
    if n <= 1 {
        0real
    } else {
        zeta_direct(e, (n - 1) as nat) + 1real / rpow((n - 1) as real, e)
    }
}

/// The rising factorial `x(x+1)…(x+len−1)`.
pub open spec fn rising(x: real, len: nat) -> real
    decreases len,
{
    if len == 0 {
        1real
    } else {
        rising(x, (len - 1) as nat) * (x + (len - 1) as real)
    }
}

/// The `k`-th Euler–Maclaurin correction `B_2k·(e)_{2k−1}·N^(−e−2k+1)/(2k)!`.
pub open spec fn em_term(e: nat, n: nat, k: nat) -> real {
    ((bernoulli_value(k) * rising(e as real, (2 * k - 1) as nat)) * (1real / rpow(
        n as real,
        (e + 2 * k - 1) as nat,
    ))) / factorial(2 * k) as real
}

/// `Σ_{k=1}^{m}` of the corrections.
pub open spec fn em_sum(e: nat, n: nat, m: nat) -> real
    decreases m,
{
    if m == 0 {
        0real
    } else {
        em_sum(e, n, (m - 1) as nat) + em_term(e, n, m)
    }
}

/// `N^−e/2 + N^(1−e)/(e−1)`, the integral and the half end term.
pub open spec fn em_head(e: nat, n: nat) -> real {
    (1real / rpow(n as real, e)) * pow2r(-1) + ((1real / rpow(n as real, e)) * n as real) / (e as real
        - 1real)
}

/// The Euler–Maclaurin approximation of `ζ(e)` with `n` direct terms and
/// `m` corrections.
pub open spec fn em_approx(e: nat, n: nat, m: nat) -> real {
    (zeta_direct(e, n) + em_head(e, n)) + em_sum(e, n, m)
}

/// The magnitude of the first omitted correction, `k = m + 1`.
pub open spec fn em_omitted(e: nat, n: nat, m: nat) -> real {
    abs_real(bernoulli_value(m + 1)) * rising(e as real, (2 * m + 1) as nat) / (factorial(
        (2 * m + 2) as nat,
    ) as real * rpow(n as real, (e + 2 * m + 1) as nat))
}

/// `N = M = ⌈0.17·wp⌉ + 10` for `wp` working bits.
pub open spec fn em_terms(wp: nat) -> nat {
    (17 * wp + 99) / 100 + 10
}

/// `r` holds the Euler–Maclaurin approximation of `ζ(e)` with `N = M = n`,
/// moved by any amount up to the first omitted correction.
pub open spec fn zeta_encloses(r: Ball, e: nat, n: nat) -> bool {
    forall|eps: real|
        #[trigger] abs_real(eps) <= em_omitted(e, n, n) ==> r.contains_real(em_approx(e, n, n) + eps)
}

proof fn lemma_rising_nonneg(x: real, len: nat)
    requires
        x >= 0real,
    ensures
        rising(x, len) >= 0real,
    decreases len,
{
    if len > 0 {
        lemma_rising_nonneg(x, (len - 1) as nat);
        let r = rising(x, (len - 1) as nat);
        let f = x + (len - 1) as real;
        crate::fp::lemma_real_cast_order(0, len - 1);
        assert(r * f >= 0real) by (nonlinear_arith)
            requires
                r >= 0real,
                f >= 0real,
        ;
    }
}

proof fn lemma_rising_mono(x: real, y: real, len: nat)
    requires
        0real <= x <= y,
    ensures
        rising(x, len) <= rising(y, len),
    decreases len,
{
    if len > 0 {
        lemma_rising_mono(x, y, (len - 1) as nat);
        lemma_rising_nonneg(x, (len - 1) as nat);
        let a = rising(x, (len - 1) as nat);
        let b = rising(y, (len - 1) as nat);
        crate::fp::lemma_real_cast_order(0, len - 1);
        let c = (len - 1) as real;
        assert(a * (x + c) <= b * (y + c)) by (nonlinear_arith)
            requires
                0real <= a <= b,
                0real <= x <= y,
                c >= 0real,
        ;
    }
}

/// `s` is the exact integer `e`.
pub open spec fn is_exact_int(s: Ball, e: nat) -> bool {
    s.rad_val() == 0real && s.mid_val() == e as real
}

/// The value of an exact ball holding an integer in `[2, 2^62)`.
fn as_small_int(s: &Ball) -> (r: Option<u64>)
    requires
        s.small(),
    ensures
        r matches Some(e) ==> 2 <= e < 0x4000_0000_0000_0000 && is_exact_int(*s, e as nat),
        forall|e: nat|
            #[trigger] is_exact_int(*s, e) && 2 <= e < 0x4000_0000_0000_0000 ==> r == Some(e as u64),
{
    if !s.is_exact() {
        return None;
    }
    let v = trunc_int(s.mid());
    proof {
        vstd::arithmetic::power2::lemma2_to64_rest();
        assert(pow2r(62) == 0x4000_0000_0000_0000int as real);
        assert forall|e: nat| #[trigger]
            is_exact_int(*s, e) && 2 <= e < 0x4000_0000_0000_0000 implies v == e as int by {
            crate::fp::lemma_real_cast_order(1, e as int);
            crate::fp::lemma_real_cast_order(e as int, 0x4000_0000_0000_0000);
            assert(v > 0);
            crate::fp::lemma_real_cast_order(v as int, e as int);
            crate::fp::lemma_real_cast_order(e as int, v as int + 1);
            assert(v as real + 1real == (v as int + 1) as real);
        }
    }
    if v >= 2 && s.mid().compare_val(&Float::from_i64(v)) == 0 {
        Some(v as u64)
    } else {
        None
    }
}

/// `s` is an exact integer in `[2, 2^62)`: the case computed with exact
/// powers.
pub open spec fn small_int(s: Ball) -> bool {
    exists|e: nat| #[trigger] is_exact_int(s, e) && 2 <= e < 0x4000_0000_0000_0000
}

/// `Σ_{j=2}^{hi−1} v[j]`.
pub open spec fn sum_from_two(v: Seq<real>, hi: nat) -> real
    decreases hi,
{
    if hi <= 2 {
        0real
    } else {
        sum_from_two(v, (hi - 1) as nat) + v[hi - 1]
    }
}

/// Each `v[j]`, `2 <= j < hi`, is a point of the ball `ts[j]`.
pub open spec fn picks(ts: Seq<Ball>, v: Seq<real>, hi: nat) -> bool {
    forall|j: int| 2 <= j < hi ==> #[trigger] ts[j].contains_real(v[j])
}

/// `w/2 + w·N/(t − 1)`: with `w = N^−t`, the half end term and the
/// integral `N^(1−t)/(t − 1)`.
pub open spec fn em_head_real(t: real, w: real, n: nat) -> real {
    w * pow2r(-1) + (w * n as real) / (t - 1real)
}

/// The `k`-th correction `B_2k·(t)_{2k−1}·N^(−t−2k+1)/(2k)!` with
/// `w = N^−t`.
pub open spec fn em_term_real(t: real, w: real, n: nat, k: nat) -> real {
    ((bernoulli_value(k) * rising(t, (2 * k - 1) as nat)) * (w / rpow(n as real, (2 * k - 1) as nat)))
        / factorial(2 * k) as real
}

/// `Σ_{k=1}^{m}` of the corrections at a real exponent.
pub open spec fn em_sum_real(t: real, w: real, n: nat, m: nat) -> real
    decreases m,
{
    if m == 0 {
        0real
    } else {
        em_sum_real(t, w, n, (m - 1) as nat) + em_term_real(t, w, n, m)
    }
}

/// The Euler–Maclaurin approximation `1 + Σ_{j=2}^{N−1} j^−t + N^−t/2 +
/// N^(1−t)/(t−1) + Σ_{k=1}^{N} B_2k/(2k)!·(t)_{2k−1}·N^(−t−2k+1)`, with
/// `v[j]` standing for `j^−t`.
pub open spec fn em_approx_real(t: real, v: Seq<real>, n: nat) -> real {
    ((1real + sum_from_two(v, n)) + em_head_real(t, v[n as int], n)) + em_sum_real(t, v[n as int], n, n)
}

/// The first omitted correction at a real exponent `t`, with `N^−t` bounded
/// by `N^−ee` for an integer `ee <= t`.
pub open spec fn em_omitted_real(t: real, n: nat, m: nat, ee: nat) -> real {
    abs_real(bernoulli_value(m + 1)) * rising(t, (2 * m + 1) as nat) / (factorial((2 * m + 2) as nat) as real
        * rpow(n as real, (ee + 2 * m + 1) as nat))
}

/// The law of ζ at a general exponent ball `s`: `ts[j]` holds `j^−t` for
/// every `t` of `s` (as [`pow_neg_encloses`] states), `ee` is an integer at
/// or below every positive point of `s`, and for every positive `t` of `s`
/// and every choice `v[j]` of a point of `ts[j]`, `r` holds the
/// Euler–Maclaurin approximation at `t` moved by up to its first omitted
/// correction.
pub open spec fn zeta_em_encloses(r: Ball, s: Ball, n: nat, ts: Seq<Ball>, ee: nat) -> bool {
    &&& ts.len() == n + 1
    &&& forall|j: int| 2 <= j <= n ==> pow_neg_encloses(j as nat, s, #[trigger] ts[j])
    &&& forall|t: real| #[trigger] s.contains_real(t) && t > 0real ==> ee as real <= t
    &&& forall|t: real, v: Seq<real>, eps: real|
        #![trigger s.contains_real(t), picks(ts, v, n + 1), abs_real(eps)]
        s.contains_real(t) && t > 0real && picks(ts, v, n + 1) && abs_real(eps) <= em_omitted_real(
            t,
            n,
            n,
            ee,
        ) ==> r.contains_real(em_approx_real(t, v, n) + eps)
}

/// `v` bounds `b·(t)_{2m+1}/((2m+2)!·N^(ee+2m+1))` for every `t >= 0` of
/// `s`, where the integer `ee` lies at or below every positive point of `s`
/// (so `N^(−t−2m−1) <= N^(−ee−2m−1)` there).
pub open spec fn rem_bounds(s: Ball, n: nat, m: nat, b: real, v: real, ee: nat) -> bool {
    &&& forall|t: real| #[trigger] s.contains_real(t) && t > 0real ==> ee as real <= t
    &&& forall|t: real|
        #[trigger] s.contains_real(t) && t >= 0real ==> b * rising(t, (2 * m + 1) as nat) / (factorial(
            (2 * m + 2) as nat,
        ) as real * rpow(n as real, (ee + 2 * m + 1) as nat)) <= v
}

/// The parts behind a ball `r` holding `j^−t = exp(−t·ln j)` for every `t`
/// of `s`: a ball `lj` holding `ln j` (as [`elementary::ln_result`] states
/// at the exact point `j`), a ball `p` holding `−t·λ` for every `t` of `s`
/// and every `λ` of `lj`, and `r` holding the exponential of every point of
/// `p` as [`elementary::exp_encloses`] states.
pub open spec fn pow_neg_parts(
    j: nat,
    s: Ball,
    r: Ball,
    jb: Ball,
    lj: Ball,
    p: Ball,
    k: nat,
    n: nat,
    tl: real,
) -> bool {
    &&& jb.mid_val() == j as real
    &&& jb.rad_val() == 0real
    &&& elementary::ln_result(jb, lj)
    &&& elementary::exp_encloses(p, r, k, n, tl)
    &&& forall|t: real, lam: real|
        #![trigger s.contains_real(t), lj.contains_real(lam)]
        s.contains_real(t) && lj.contains_real(lam) ==> p.contains_real((-t) * lam)
}

/// `r` holds `j^−t` for every point `t` of the exponent ball `s`, not only
/// for its midpoint: see [`pow_neg_parts`].
pub open spec fn pow_neg_encloses(j: nat, s: Ball, r: Ball) -> bool {
    exists|jb: Ball, lj: Ball, p: Ball, k: nat, n: nat, tl: real|
        #[trigger] pow_neg_parts(j, s, r, jb, lj, p, k, n, tl)
}

/// `j^−s` at `wp` bits: exact powering for an integer exponent `e`,
/// `exp(−s·ln j)` otherwise.
fn j_pow_neg_s(j: u64, s: &Ball, int_s: Option<u64>, wp: u32) -> (r: Ball)
    requires
        j >= 1,
        s.small(),
        2 <= wp <= ELEM_PREC_MAX,
    ensures
        r.wf(),
        int_s matches Some(e) ==> r.is_whole() || r.contains_real(1real / rpow(j as real, e as nat)),
        int_s is None ==> r.is_whole() || pow_neg_encloses(j as nat, *s, r),
{
    match int_s {
        Some(e) => {
            let ghost jr = j as real;
            let mut acc = Ball::from_u64(1);
            let mut base = Ball::from_u64(j);
            let mut n = e;
            let ghost mut ae: nat = 0;
            let ghost mut be: nat = 1;
            proof {
                assert(rpow(jr, 0) == 1real);
                assert(rpow(jr, 1) == jr * rpow(jr, 0));
                assert(acc.contains_real(rpow(jr, 0)));
                assert(base.contains_real(rpow(jr, 1)));
            }
            while n > 0
                invariant
                    acc.small(),
                    base.small(),
                    2 <= wp,
                    acc.contains_real(rpow(jr, ae)),
                    base.contains_real(rpow(jr, be)),
                    ae + be * n == e,
                decreases n,
            {
                let ghost n0 = n;
                let ghost a0 = ae;
                if n % 2 == 1 {
                    let a2 = acc.mul(&base, wp);
                    if !a2.is_small() {
                        return Ball::whole();
                    }
                    proof {
                        lemma_rpow_add(jr, ae, be);
                        assert(a2.contains_real(rpow(jr, ae) * rpow(jr, be)));
                        ae = ae + be;
                    }
                    acc = a2;
                }
                proof {
                    assert(ae == a0 + be * (n0 % 2)) by (nonlinear_arith)
                        requires
                            n0 % 2 == 1 ==> ae == a0 + be,
                            n0 % 2 != 1 ==> ae == a0,
                            n0 % 2 == 0 || n0 % 2 == 1,
                    ;
                }
                if n / 2 > 0 {
                    let b2 = base.mul(&base, wp);
                    if !b2.is_small() {
                        return Ball::whole();
                    }
                    proof {
                        lemma_rpow_add(jr, be, be);
                        assert(b2.contains_real(rpow(jr, be) * rpow(jr, be)));
                        be = be + be;
                    }
                    base = b2;
                    proof {
                        assert(a0 + (be / 2) * n0 == e);
                        assert(ae + be * (n0 / 2) == e) by (nonlinear_arith)
                            requires
                                ae == a0 + (be / 2) * (n0 % 2),
                                a0 + (be / 2) * n0 == e,
                                be == 2 * (be / 2),
                                n0 == 2 * (n0 / 2) + n0 % 2,
                        ;
                    }
                } else {
                    proof {
                        assert(ae + be * (n0 / 2) == e) by (nonlinear_arith)
                            requires
                                ae == a0 + be * (n0 % 2),
                                a0 + be * n0 == e,
                                n0 / 2 == 0,
                                n0 == 2 * (n0 / 2) + n0 % 2,
                        ;
                    }
                }
                n = n / 2;
            }
            if acc.contains_zero() {
                return Ball::whole();
            }
            let one = Ball::from_i64(1);
            let r = one.div(&acc, wp);
            proof {
                assert(ae == e);
                assert(one.contains_real(1real));
            }
            r
        },
        None => {
            let jb = Ball::from_u64(j);
            proof {
                crate::fp::lemma_real_cast_order(0, j as int);
            }
            let lnj = elementary::ln(&jb, wp);
            let ns = s.neg();
            if !lnj.is_small() || !ns.is_small() {
                return Ball::whole();
            }
            let p = ns.mul(&lnj, wp);
            if !p.is_small() || !elementary::arg_in_range(&p) {
                return Ball::whole();
            }
            let r = elementary::exp(&p, wp);
            proof {
                if !r.is_whole() {
                    let (k, n, tl) = choose|k: nat, n: nat, tl: real|
                        #[trigger] elementary::exp_encloses(p, r, k, n, tl);
                    assert forall|t: real, lam: real|
                        #![trigger s.contains_real(t), lnj.contains_real(lam)]
                        s.contains_real(t) && lnj.contains_real(lam) implies p.contains_real(
                        (-t) * lam,
                    ) by {
                        assert(ns.contains_real(-t));
                    }
                    assert(pow_neg_parts(j as nat, *s, r, jb, lnj, p, k, n, tl));
                }
            }
            r
        },
    }
}

/// `n!` as an exact float.
fn factorial_float(n: u64) -> (r: Float)
    requires
        n <= 0x10_0000,
    ensures
        r.small(),
        r.val() == factorial(n as nat) as real,
{
    let mut acc = Int::from_u64(1);
    let mut m: u64 = 2;
    proof {
        assert(factorial(1) == 1 * factorial(0));
    }
    while m <= n
        invariant
            2 <= m <= n + 2,
            m <= n + 1 || (n == 0 && m == 2),
            n <= 0x10_0000,
            acc.wf(),
            acc.nlimbs() <= m,
            acc.value() == factorial((m - 1) as nat),
        decreases n + 1 - m,
    {
        acc = acc.mul_u64(m);
        proof {
            assert(factorial(m as nat) == m * factorial((m - 1) as nat));
        }
        m = m + 1;
    }
    proof {
        assert(factorial(0) == 1);
        assert(acc.value() == factorial(n as nat));
    }
    acc.to_float()
}

/// The first omitted Euler–Maclaurin term `|B_2k|·(s)_{2k−1}/((2k)!·N^(s+2k−1))`
/// bounded above at 64 bits, for `k = m + 1`, given `b_abs >= |B_2k|`.
fn zeta_remainder(s: &Ball, n: u64, m: usize, b_abs: &Float) -> (r: Option<Mag>)
    requires
        s.small(),
        b_abs.small(),
        !b_abs.sign(),
        1 <= m <= 0x4_0000,
        2 <= n <= 0x4_0000,
    ensures
        r matches Some(v) ==> v.within(BALL_EXP as int) && forall|e: nat|
            #[trigger] is_exact_int(*s, e) ==> b_abs.val() * rising(e as real, (2 * m + 1) as nat) / (
            factorial((2 * m + 2) as nat) as real * rpow(n as real, (e + 2 * m + 1) as nat)) <= v.val(),
        r is Some ==> exists|ee: nat| #[trigger] rem_bounds(*s, n as nat, m as nat, b_abs.val(), r->0.val(), ee),
{
    let k = (m + 1) as u64;
    let s_up = s.abs_upper();
    if !s_up.is_within(EXP_SMALL) {
        return None;
    }
    let ghost su = s_up.val();
    let mut rise_up = Float::from_i64(1);
    let mut i: u64 = 0;
    proof {
        lemma_nonneg_unsigned(rise_up);
        s_up.lemma_val_sign();
        assert(rising(su, 0) == 1real);
    }
    while i < 2 * k - 1
        invariant
            2 <= k <= 0x4_0001,
            i <= 2 * k - 1,
            s_up.small(),
            !s_up.sign(),
            su == s_up.val(),
            su >= 0real,
            rise_up.small(),
            !rise_up.sign(),
            rising(su, i as nat) <= rise_up.val(),
        decreases 2 * k - 1 - i,
    {
        let fi = Float::from_u64(i);
        let (f, _) = s_up.add(&fi, 64, Round::Up);
        proof {
            s_up.lemma_val_abs();
            fi.lemma_val_abs();
            lemma_lin_directed(s_up, s_up.neg, fi, fi.neg, 64, Round::Up);
            crate::fp::lemma_real_cast_order(0, i as int);
            assert(su + i as real <= f.val());
        }
        if !f.is_within(EXP_SMALL) {
            return None;
        }
        proof {
            lemma_nonneg_unsigned(f);
        }
        let (r2, _) = rise_up.mul(&f, 64, Round::Up);
        proof {
            lemma_mul_directed(rise_up, f, 64, Round::Up);
            lemma_rising_nonneg(su, i as nat);
            let a = rising(su, i as nat);
            let c = su + i as real;
            assert(rising(su, (i + 1) as nat) == a * c);
            assert(a * c <= rise_up.val() * f.val()) by (nonlinear_arith)
                requires
                    0real <= a <= rise_up.val(),
                    0real <= c <= f.val(),
            ;
        }
        if !r2.is_within(EXP_SMALL) {
            return None;
        }
        proof {
            lemma_nonneg_unsigned(r2);
        }
        rise_up = r2;
        i = i + 1;
    }
    let s_low = s.lower_bound();
    let tl = trunc_int(&s_low);
    let ex: u64 = (2 * k - 1) + (if tl > 0 {
        tl as u64
    } else {
        0
    });
    let n_f = Float::from_u64(n);
    let npow_dn = match pow_down(&n_f, ex) {
        Some(v) => v,
        None => {
            return None;
        },
    };
    let (t, _) = b_abs.mul(&rise_up, 64, Round::Up);
    proof {
        lemma_mul_directed(*b_abs, rise_up, 64, Round::Up);
    }
    let fd = match factorial_down(2 * k) {
        Some(v) => v,
        None => {
            return None;
        },
    };
    if !t.is_within(EXP_SMALL) || fd.is_zero() || npow_dn.is_zero() {
        return None;
    }
    proof {
        lemma_nonneg_unsigned(t);
        lemma_nonneg_unsigned(fd);
        npow_dn.lemma_val_sign();
        npow_dn.lemma_val_zero();
        fd.lemma_val_sign();
        fd.lemma_val_zero();
    }
    let t2 = match div_up(&t, &fd) {
        Some(v) => v,
        None => {
            return None;
        },
    };
    let t3 = match div_up(&t2, &npow_dn) {
        Some(v) => v,
        None => {
            return None;
        },
    };
    let mg = Mag::from_float_upper(&t3);
    if !mg.is_within(BALL_EXP) {
        return None;
    }
    proof {
        t3.lemma_val_abs();
        assert forall|e: nat| #[trigger] is_exact_int(*s, e) implies b_abs.val() * rising(
            e as real,
            (2 * m + 1) as nat,
        ) / (factorial((2 * m + 2) as nat) as real * rpow(n as real, (e + 2 * m + 1) as nat))
            <= mg.val() by {
            let er = e as real;
            crate::fp::lemma_real_cast_order(0, e as int);
            assert(s.contains_real(er));
            assert(abs_real(er) <= su);
            lemma_rising_mono(er, su, (2 * m + 1) as nat);
            lemma_rising_nonneg(er, (2 * m + 1) as nat);
            let rr = rising(er, (2 * m + 1) as nat);
            // the exponent used is at most e + 2k − 1
            if tl > 0 {
                crate::fp::lemma_real_cast_order(tl as int, e as int);
            }
            assert(ex <= e + 2 * m + 1);
            let nr = n as real;
            crate::fp::lemma_real_cast_order(1, n as int);
            lemma_rpow_exp_mono(nr, ex as nat, (e + 2 * m + 1) as nat);
            let pw = rpow(nr, (e + 2 * m + 1) as nat);
            lemma_rpow_pos(nr, (e + 2 * m + 1) as nat);
            lemma_factorial_pos((2 * m + 2) as nat);
            let fr = factorial((2 * m + 2) as nat) as real;
            crate::fp::lemma_real_cast_order(1, factorial((2 * m + 2) as nat) as int);
            assert(2 * k == 2 * m + 2);
            b_abs.lemma_val_sign();
            let bv = b_abs.val();
            let fdv = fd.val();
            let npv = npow_dn.val();
            fd.lemma_val_sign();
            npow_dn.lemma_val_sign();
            fd.lemma_val_zero();
            npow_dn.lemma_val_zero();
            assert(bv >= 0real);
            assert(bv * rr >= 0real) by (nonlinear_arith)
                requires
                    bv >= 0real,
                    rr >= 0real,
            ;
            assert(bv * rr <= t.val()) by (nonlinear_arith)
                requires
                    bv >= 0real,
                    0real <= rr <= rise_up.val(),
                    bv * rise_up.val() <= t.val(),
            ;
            assert(bv * rr / (fr * pw) <= t.val() / fdv / npv) by (nonlinear_arith)
                requires
                    0real <= bv * rr <= t.val(),
                    0real < fdv <= fr,
                    0real < npv <= pw,
            ;
            assert(t.val() / fdv / npv <= t2.val() / npv) by (nonlinear_arith)
                requires
                    t.val() / fdv <= t2.val(),
                    npv > 0real,
            ;
        }
        let ee: nat = if tl > 0 {
            tl as nat
        } else {
            0
        };
        assert(ex == ee + 2 * m + 1);
        assert forall|x: real| #[trigger] s.contains_real(x) && x > 0real implies ee as real <= x by {
            if tl > 0 {
                assert(s_low.val() <= x);
            }
        }
        assert forall|x: real| #[trigger] s.contains_real(x) && x >= 0real implies b_abs.val() * rising(
            x,
            (2 * m + 1) as nat,
        ) / (factorial((2 * m + 2) as nat) as real * rpow(n as real, (ee + 2 * m + 1) as nat))
            <= mg.val() by {
            assert(abs_real(x) <= su);
            lemma_rising_mono(x, su, (2 * m + 1) as nat);
            lemma_rising_nonneg(x, (2 * m + 1) as nat);
            let rr = rising(x, (2 * m + 1) as nat);
            let nr = n as real;
            crate::fp::lemma_real_cast_order(1, n as int);
            let pw = rpow(nr, (ee + 2 * m + 1) as nat);
            lemma_rpow_exp_mono(nr, ex as nat, (ee + 2 * m + 1) as nat);
            lemma_rpow_pos(nr, (ee + 2 * m + 1) as nat);
            lemma_factorial_pos((2 * m + 2) as nat);
            let fr = factorial((2 * m + 2) as nat) as real;
            crate::fp::lemma_real_cast_order(1, factorial((2 * m + 2) as nat) as int);
            assert(2 * k == 2 * m + 2);
            b_abs.lemma_val_sign();
            let bv = b_abs.val();
            let fdv = fd.val();
            let npv = npow_dn.val();
            fd.lemma_val_sign();
            npow_dn.lemma_val_sign();
            fd.lemma_val_zero();
            npow_dn.lemma_val_zero();
            assert(bv * rr >= 0real) by (nonlinear_arith)
                requires
                    bv >= 0real,
                    rr >= 0real,
            ;
            assert(bv * rr <= t.val()) by (nonlinear_arith)
                requires
                    bv >= 0real,
                    0real <= rr <= rise_up.val(),
                    bv * rise_up.val() <= t.val(),
            ;
            assert(bv * rr / (fr * pw) <= t.val() / fdv / npv) by (nonlinear_arith)
                requires
                    0real <= bv * rr <= t.val(),
                    0real < fdv <= fr,
                    0real < npv <= pw,
            ;
            assert(t.val() / fdv / npv <= t2.val() / npv) by (nonlinear_arith)
                requires
                    t.val() / fdv <= t2.val(),
                    npv > 0real,
            ;
        }
        assert(rem_bounds(*s, n as nat, m as nat, b_abs.val(), mg.val(), ee));
        assert(exists|e2: nat| #[trigger] rem_bounds(*s, n as nat, m as nat, b_abs.val(), mg.val(), e2));
    }
    let res: Option<Mag> = Some(mg);
    assert(res->0 == mg);
    assert(exists|e2: nat| #[trigger] rem_bounds(*s, n as nat, m as nat, b_abs.val(), res->0.val(), e2));
    res
}

/// The first omitted correction is at most the bound computed from an
/// upper bound `b >= |B_2(m+1)|`.
/// The first omitted correction at a real `t >= 0` is at most the bound
/// computed from an upper bound `b >= |B_2(n+1)|`.
proof fn lemma_omitted_real_le(t: real, n: nat, ee: nat, b: real, v: real)
    requires
        n >= 1,
        t >= 0real,
        abs_real(bernoulli_value(n + 1)) <= b,
        b * rising(t, (2 * n + 1) as nat) / (factorial((2 * n + 2) as nat) as real * rpow(
            n as real,
            (ee + 2 * n + 1) as nat,
        )) <= v,
    ensures
        em_omitted_real(t, n, n, ee) <= v,
{
    let rv = rising(t, (2 * n + 1) as nat);
    lemma_rising_nonneg(t, (2 * n + 1) as nat);
    lemma_factorial_pos((2 * n + 2) as nat);
    crate::fp::lemma_real_cast_order(1, factorial((2 * n + 2) as nat) as int);
    crate::fp::lemma_real_cast_order(1, n as int);
    lemma_rpow_pos(n as real, (ee + 2 * n + 1) as nat);
    let f = factorial((2 * n + 2) as nat) as real;
    let p = rpow(n as real, (ee + 2 * n + 1) as nat);
    assert(f * p > 0real) by (nonlinear_arith)
        requires
            f >= 1real,
            p > 0real,
    ;
    let bv = abs_real(bernoulli_value(n + 1));
    assert(bv * rv / (f * p) <= b * rv / (f * p)) by (nonlinear_arith)
        requires
            bv <= b,
            rv >= 0real,
            f * p > 0real,
    ;
}

proof fn lemma_omitted_le(e: nat, n: nat, b: real, v: real)
    requires
        n >= 1,
        abs_real(bernoulli_value(n + 1)) <= b,
        b * rising(e as real, (2 * n + 1) as nat) / (factorial((2 * n + 2) as nat) as real * rpow(
            n as real,
            (e + 2 * n + 1) as nat,
        )) <= v,
    ensures
        em_omitted(e, n, n) <= v,
{
    let rv = rising(e as real, (2 * n + 1) as nat);
    crate::fp::lemma_real_cast_order(0, e as int);
    lemma_rising_nonneg(e as real, (2 * n + 1) as nat);
    lemma_factorial_pos((2 * n + 2) as nat);
    crate::fp::lemma_real_cast_order(1, factorial((2 * n + 2) as nat) as int);
    crate::fp::lemma_real_cast_order(1, n as int);
    lemma_rpow_pos(n as real, (e + 2 * n + 1) as nat);
    let f = factorial((2 * n + 2) as nat) as real;
    let p = rpow(n as real, (e + 2 * n + 1) as nat);
    assert(f * p > 0real) by (nonlinear_arith)
        requires
            f >= 1real,
            p > 0real,
    ;
    let bv = abs_real(bernoulli_value(n + 1));
    assert(bv * rv / (f * p) <= b * rv / (f * p)) by (nonlinear_arith)
        requires
            bv <= b,
            rv >= 0real,
            f * p > 0real,
    ;
}

/// `Σ_{k=1}^{N} B_2k/(2k)!·(s)_{2k−1}·N^(−s−2k+1)` at `wp` bits from a ball
/// `wb` holding `N^−s`: for every `t` of `s` and `v` of `wb` the result holds
/// the corrections at `t` with `v` for `N^−t`; for an exact integer
/// exponent `e` (`isint`), the exact corrections `em_sum(e, N, N)`.
fn em_corrections(
    s: &Ball,
    wb: &Ball,
    tan: &Vec<Int>,
    n: u64,
    wp: u32,
    Ghost(ge): Ghost<nat>, Ghost(isint): Ghost<bool>) -> (r: Ball)
    requires
        s.small(),
        wb.small(),
        2 <= n <= 0x2_0000,
        2 <= wp <= ELEM_PREC_MAX,
        tan@.len() == n + 1,
        forall|i: int|
            0 <= i < n + 1 ==> (#[trigger] tan@[i]).wf() && tan@[i].value() == tangent((i + 1) as nat)
                && tan@[i].nlimbs() <= 6 * (n + 1) + 3,
        isint ==> is_exact_int(*s, ge) && s.contains_real(ge as real) && 2 <= ge < 0x4000_0000_0000_0000,
        isint ==> wb.contains_real(1real / rpow(n as real, ge)),
    ensures
        r.wf(),
        r.small() && isint ==> r.contains_real(em_sum(ge, n as nat, n as nat)),
        r.small() && !isint ==> forall|x: real, v: real|
            #![trigger s.contains_real(x), wb.contains_real(v)]
            s.contains_real(x) && wb.contains_real(v) ==> r.contains_real(em_sum_real(x, v, n as nat, n as nat)),
{
    let m = n as usize;
    let ghost nr: real = n as real;
    let ghost ger: real = ge as real;
    let ghost p0: real = 1real / rpow(nr, ge);
    let one = Ball::from_i64(1);
    proof {
        assert(4 <= n * n <= 0x4_0000_0000) by (nonlinear_arith)
            requires
                2 <= n <= 0x2_0000,
        ;
    }
    let inv_n2 = one.div_u64(n * n, wp);
    let mut rise = s.copy();
    let mut npow = wb.div_u64(n, wp);
    if !inv_n2.is_small() || !npow.is_small() {
        return Ball::whole();
    }
    proof {
        crate::fp::lemma_real_cast_order(2, n as int);
        assert(one.contains_real(1real));
        assert(inv_n2.contains_real(1real / ((n * n) as u64) as real));
        crate::dyadic::lemma_nat_mul_real(n as nat, n as nat);
        assert(inv_n2.contains_real(1real / (nr * nr)));
        if isint {
            assert(rising(ger, 0) == 1real);
            assert(rising(ger, 1) == rising(ger, 0) * (ger + 0real));
            assert(rise.contains_real(ger));
            lemma_rpow_pos(nr, ge);
            assert(rpow(nr, ge + 1) == nr * rpow(nr, ge));
            let a = rpow(nr, ge);
            assert((1real / a) / nr == 1real / (nr * a)) by (nonlinear_arith)
                requires
                    a > 0real,
                    nr > 0real,
            ;
            assert(npow.contains_real(p0 / nr));
            assert((ge + 2 * 1 - 1) as nat == ge + 1);
        } else {
            assert forall|x: real| #[trigger] s.contains_real(x) implies rise.contains_real(rising(x, 1)) by {
                assert(rising(x, 0) == 1real);
                assert(rising(x, 1) == rising(x, 0) * (x + 0real));
            }
            assert forall|w: real| #[trigger] wb.contains_real(w) implies npow.contains_real(
                w / rpow(nr, 1),
            ) by {
                assert(rpow(nr, 1) == nr * rpow(nr, 0));
                assert(rpow(nr, 0) == 1real);
            }
        }
    }
    let mut sum = Ball::zero();
    let mut k: usize = 1;
    while k <= m
        invariant
            1 <= k <= m + 1,
            m <= 0x2_0000,
            m == n,
            2 <= n,
            nr == n as real,
            ger == ge as real,
            tan@.len() == m + 1,
            forall|i: int|
                0 <= i < m + 1 ==> (#[trigger] tan@[i]).wf() && tan@[i].value() == tangent((i + 1) as nat)
                    && tan@[i].nlimbs() <= 6 * (m + 1) + 3,
            rise.small(),
            npow.small(),
            sum.small(),
            inv_n2.small(),
            s.small(),
            2 <= wp <= ELEM_PREC_MAX,
            isint ==> is_exact_int(*s, ge) && s.contains_real(ger) && ge >= 2,
            inv_n2.contains_real(1real / (nr * nr)),
            isint && k <= m ==> rise.contains_real(rising(ger, (2 * (k as nat) - 1) as nat)),
            isint && k <= m ==> npow.contains_real(1real / rpow(nr, (ge + 2 * (k as nat) - 1) as nat)),
            isint ==> sum.contains_real(em_sum(ge, n as nat, (k - 1) as nat)),
            !isint && k <= m ==> forall|x: real|
                #[trigger] s.contains_real(x) ==> rise.contains_real(rising(x, (2 * (k as nat) - 1) as nat)),
            !isint && k <= m ==> forall|w: real|
                #[trigger] wb.contains_real(w) ==> npow.contains_real(
                    w / rpow(nr, (2 * (k as nat) - 1) as nat),
                ),
            !isint ==> forall|x: real, w: real|
                #![trigger s.contains_real(x), wb.contains_real(w)]
                s.contains_real(x) && wb.contains_real(w) ==> sum.contains_real(
                    em_sum_real(x, w, n as nat, (k - 1) as nat),
                ),
        decreases m + 1 - k,
    {
        let b = bernoulli_from(&tan[k - 1], k, wp * 2 + 64);
        if !b.is_small() {
            return Ball::whole();
        }
        let t1 = b.mul(&rise, wp);
        if !t1.is_small() {
            return Ball::whole();
        }
        let t2 = t1.mul(&npow, wp);
        let fk = Ball::exact(factorial_float(2 * k as u64));
        if !t2.is_small() || !fk.is_small() || fk.contains_zero() {
            return Ball::whole();
        }
        let t = t2.div(&fk, wp);
        if !t.is_small() {
            return Ball::whole();
        }
        let s2 = sum.add(&t, wp);
        if !s2.is_small() {
            return Ball::whole();
        }
        proof {
            if isint {
                let kn = k as nat;
                let bv = bernoulli_value(kn);
                let rv = rising(ger, (2 * kn - 1) as nat);
                let pv = 1real / rpow(nr, (ge + 2 * kn - 1) as nat);
                let fv = factorial(2 * kn) as real;
                assert(b.contains_real(bv));
                assert(t1.contains_real(bv * rv));
                assert(t2.contains_real((bv * rv) * pv));
                assert(fk.contains_real(fv));
                assert(t.contains_real(((bv * rv) * pv) / fv));
                assert(em_term(ge, n as nat, kn) == ((bv * rv) * pv) / fv);
                assert(em_sum(ge, n as nat, kn) == em_sum(ge, n as nat, (kn - 1) as nat) + em_term(
                    ge,
                    n as nat,
                    kn,
                ));
            } else {
                let kn = k as nat;
                let bv = bernoulli_value(kn);
                let fv = factorial(2 * kn) as real;
                assert(b.contains_real(bv));
                assert(fk.contains_real(fv));
                assert forall|x: real, w: real|
                    #![trigger s.contains_real(x), wb.contains_real(w)]
                    s.contains_real(x) && wb.contains_real(w) implies s2.contains_real(
                    em_sum_real(x, w, n as nat, kn),
                ) by {
                    let rv = rising(x, (2 * kn - 1) as nat);
                    let pv = w / rpow(nr, (2 * kn - 1) as nat);
                    assert(rise.contains_real(rv));
                    assert(npow.contains_real(pv));
                    assert(t1.contains_real(bv * rv));
                    assert(t2.contains_real((bv * rv) * pv));
                    assert(t.contains_real(((bv * rv) * pv) / fv));
                    assert(em_term_real(x, w, n as nat, kn) == ((bv * rv) * pv) / fv);
                    assert(sum.contains_real(em_sum_real(x, w, n as nat, (kn - 1) as nat)));
                    assert(em_sum_real(x, w, n as nat, kn) == em_sum_real(x, w, n as nat, (kn - 1) as nat)
                        + em_term_real(x, w, n as nat, kn));
                }
            }
        }
        sum = s2;
        if k < m {
            let a1 = s.add(&Ball::from_u64(2 * k as u64 - 1), wp);
            let a2 = s.add(&Ball::from_u64(2 * k as u64), wp);
            if !a1.is_small() || !a2.is_small() {
                return Ball::whole();
            }
            let r1 = rise.mul(&a1, wp);
            if !r1.is_small() {
                return Ball::whole();
            }
            let r2 = r1.mul(&a2, wp);
            let np = npow.mul(&inv_n2, wp);
            if !r2.is_small() || !np.is_small() {
                return Ball::whole();
            }
            proof {
                if isint {
                    let kn = k as nat;
                    let l = (2 * kn - 1) as nat;
                    let rv = rising(ger, l);
                    assert(a1.contains_real(ger + (2 * k as u64 - 1) as real));
                    assert(a2.contains_real(ger + (2 * k as u64) as real));
                    assert(rising(ger, l + 1) == rv * (ger + l as real));
                    assert(rising(ger, l + 2) == rising(ger, l + 1) * (ger + (l + 1) as real));
                    assert(r2.contains_real(rising(ger, l + 2)));
                    assert((2 * (kn + 1) - 1) as nat == l + 2);
                    let ex = (ge + 2 * kn - 1) as nat;
                    lemma_rpow_pos(nr, ex);
                    let a = rpow(nr, ex);
                    assert(rpow(nr, ex + 2) == nr * rpow(nr, ex + 1));
                    assert(rpow(nr, ex + 1) == nr * a);
                    assert((1real / a) * (1real / (nr * nr)) == 1real / (nr * (nr * a))) by (
                    nonlinear_arith)
                        requires
                            a > 0real,
                            nr > 0real,
                    ;
                    assert(np.contains_real(1real / rpow(nr, ex + 2)));
                    assert((ge + 2 * (kn + 1) - 1) as nat == ex + 2);
                } else {
                    let kn = k as nat;
                    let l = (2 * kn - 1) as nat;
                    assert forall|x: real| #[trigger] s.contains_real(x) implies r2.contains_real(
                        rising(x, l + 2),
                    ) by {
                        let rv = rising(x, l);
                        assert(rise.contains_real(rv));
                        assert(a1.contains_real(x + (2 * k as u64 - 1) as real));
                        assert(a2.contains_real(x + (2 * k as u64) as real));
                        assert(rising(x, l + 1) == rv * (x + l as real));
                        assert(rising(x, l + 2) == rising(x, l + 1) * (x + (l + 1) as real));
                    }
                    assert forall|w: real| #[trigger] wb.contains_real(w) implies np.contains_real(
                        w / rpow(nr, l + 2),
                    ) by {
                        lemma_rpow_pos(nr, l);
                        let a = rpow(nr, l);
                        assert(npow.contains_real(w / a));
                        assert(rpow(nr, l + 2) == nr * rpow(nr, l + 1));
                        assert(rpow(nr, l + 1) == nr * a);
                        assert((w / a) * (1real / (nr * nr)) == w / (nr * (nr * a))) by (nonlinear_arith)
                            requires
                                a > 0real,
                                nr > 0real,
                        ;
                    }
                    assert((2 * (kn + 1) - 1) as nat == l + 2);
                }
            }
            rise = r2;
            npow = np;
        }
        k = k + 1;
    }
    sum
}

/// One Euler–Maclaurin evaluation at `wp` bits with `N = M = ⌈0.17·wp⌉ + 10`.
/// For an exact integer `s = e >= 2` the sums are exact rationals, and the
/// result holds their value widened by the first omitted correction.
#[verifier::spinoff_prover]
#[verifier::rlimit(100)]
fn zeta_em(s: &Ball, wp: u32) -> (r: Ball)
    requires
        s.small(),
        2 <= wp <= ELEM_PREC_MAX,
    ensures
        r.wf(),
        forall|e: nat|
            #[trigger] is_exact_int(*s, e) && 2 <= e < 0x4000_0000_0000_0000 ==> r.is_whole()
                || zeta_encloses(r, e, em_terms(wp as nat)),
        !small_int(*s) ==> r.is_whole() || exists|ts: Seq<Ball>, ee: nat|
            #[trigger] zeta_em_encloses(r, *s, em_terms(wp as nat), ts, ee),
{
    let int_s = as_small_int(s);
    let ghost isint: bool = int_s is Some;
    let ghost ge: nat = match int_s {
        Some(e) => e as nat,
        None => 0,
    };
    let ghost ger: real = ge as real;
    let nm: u64 = (17 * wp as u64 + 99) / 100 + 10;
    proof {
        assert(nm <= 0x2_0000);
        assert(nm * nm <= 0x4_0000_0000) by (nonlinear_arith)
            requires
                10 <= nm <= 0x2_0000,
        ;
        assert(nm * nm >= 100) by (nonlinear_arith)
            requires
                10 <= nm,
        ;
        assert(nm == em_terms(wp as nat));
        if isint {
            assert(is_exact_int(*s, ge));
            assert(s.contains_real(ger));
            crate::fp::lemma_real_cast_order(2, ge as int);
        }
    }
    let n = nm;
    let m = nm as usize;
    let ghost nr: real = n as real;
    let mut direct = Ball::from_i64(1);
    let mut j: u64 = 2;
    proof {
        lemma_rpow_one(ge);
        assert(zeta_direct(ge, 1) == 0real);
        assert(zeta_direct(ge, 2) == zeta_direct(ge, 1) + 1real / rpow(1real, ge));
        assert(1real / 1real == 1real);
    }
    let ghost mut ts: Seq<Ball> = seq![direct, direct];
    proof {
        assert forall|v: Seq<real>| #[trigger] picks(ts, v, j as nat) implies direct.contains_real(
            1real + sum_from_two(v, j as nat),
        ) by {
            assert(sum_from_two(v, 2) == 0real);
            assert(direct.contains_real(1real));
        }
    }
    while j < n
        invariant
            2 <= j <= n,
            n <= 0x2_0000,
            direct.small(),
            s.small(),
            2 <= wp <= ELEM_PREC_MAX,
            isint <==> int_s is Some,
            isint ==> ge < 0x4000_0000_0000_0000 && int_s == Some(ge as u64),
            isint ==> direct.contains_real(zeta_direct(ge, j as nat)),
            ts.len() == j,
            !isint ==> forall|i: int| 2 <= i < j ==> pow_neg_encloses(i as nat, *s, #[trigger] ts[i]),
            forall|v: Seq<real>| #[trigger]
                picks(ts, v, j as nat) ==> direct.contains_real(1real + sum_from_two(v, j as nat)),
        decreases n - j,
    {
        let t = j_pow_neg_s(j, s, int_s, wp);
        if !t.is_small() {
            return Ball::whole();
        }
        let d2 = direct.add(&t, wp);
        if !d2.is_small() {
            return Ball::whole();
        }
        proof {
            if isint {
                assert(!t.is_whole());
                assert(t.contains_real(1real / rpow(j as real, ge)));
                assert(zeta_direct(ge, (j + 1) as nat) == zeta_direct(ge, j as nat) + 1real / rpow(
                    j as real,
                    ge,
                ));
            } else {
                assert(!t.is_whole());
                assert(pow_neg_encloses(j as nat, *s, t));
            }
        }
        let ghost ts0 = ts;
        let ghost dir0 = direct;
        let ghost j0 = j;
        direct = d2;
        j = j + 1;
        proof {
            ts = ts.push(t);
            assert(j as int == j0 as int + 1);
            assert forall|v: Seq<real>| #[trigger] picks(ts, v, j as nat) implies direct.contains_real(
                1real + sum_from_two(v, j as nat),
            ) by {
                assert forall|i: int| 2 <= i < j0 implies #[trigger] ts0[i].contains_real(v[i]) by {
                    assert(ts[i] == ts0[i]);
                }
                assert(picks(ts0, v, j0 as nat));
                assert(ts[j0 as int] == t);
                assert(t.contains_real(v[j0 as int]));
                assert(sum_from_two(v, j as nat) == sum_from_two(v, j0 as nat) + v[j0 as int]);
                assert(dir0.contains_real(1real + sum_from_two(v, j0 as nat)));
                assert(d2.contains_real((1real + sum_from_two(v, j0 as nat)) + v[j0 as int]));
            }
            assert forall|i: int| 2 <= i < j && !isint implies pow_neg_encloses(i as nat, *s, #[trigger] ts[i]) by {
                if i < j0 {
                    assert(ts[i] == ts0[i]);
                }
            }
        }
    }
    let n_neg_s = j_pow_neg_s(n, s, int_s, wp);
    if !n_neg_s.is_small() {
        return Ball::whole();
    }
    let ghost ts2 = ts.push(n_neg_s);
    proof {
        assert forall|i: int| 2 <= i <= n && !isint implies pow_neg_encloses(i as nat, *s, #[trigger] ts2[i]) by {
            if i < n {
                assert(ts2[i] == ts[i]);
            } else {
                assert(!n_neg_s.is_whole());
            }
        }
    }
    let ghost p0: real = 1real / rpow(nr, ge);
    let n_ball = Ball::from_u64(n);
    let n_1ms = n_neg_s.mul(&n_ball, wp);
    let one = Ball::from_i64(1);
    let s_m1 = s.sub(&one, wp);
    if !n_1ms.is_small() || !s_m1.is_small() || s_m1.contains_zero() {
        return Ball::whole();
    }
    let half = n_neg_s.mul_2exp(-1);
    let q = n_1ms.div(&s_m1, wp);
    if !half.is_small() || !q.is_small() {
        return Ball::whole();
    }
    let head = half.add(&q, wp);
    proof {
        if isint {
            assert(n_neg_s.contains_real(p0));
            assert(n_ball.contains_real(nr));
            assert(n_1ms.contains_real(p0 * nr));
            assert(one.contains_real(1real));
            assert(s_m1.contains_real(ger - 1real));
            assert(half.contains_real(p0 * pow2r(-1)));
            assert(q.contains_real((p0 * nr) / (ger - 1real)));
            assert(head.contains_real(em_head(ge, n as nat)));
        } else {
            assert forall|x: real, w: real|
                #![trigger s.contains_real(x), n_neg_s.contains_real(w)]
                s.contains_real(x) && n_neg_s.contains_real(w) implies head.contains_real(
                em_head_real(x, w, n as nat),
            ) by {
                assert(n_ball.contains_real(nr));
                assert(n_1ms.contains_real(w * nr));
                assert(one.contains_real(1real));
                assert(s_m1.contains_real(x - 1real));
                assert(half.contains_real(w * pow2r(-1)));
                assert(q.contains_real((w * nr) / (x - 1real)));
            }
        }
    }
    let tan = tangent_numbers(m + 1);
    let sum = em_corrections(s, &n_neg_s, &tan, n, wp, Ghost(ge), Ghost(isint));
    if !sum.is_small() {
        return Ball::whole();
    }
    let bn = bernoulli_from(&tan[m], m + 1, 192);
    if !bn.is_small() {
        return Ball::whole();
    }
    let b_abs = bn.abs_upper();
    if !b_abs.is_within(EXP_SMALL) {
        return Ball::whole();
    }
    let rem = match zeta_remainder(s, n, m, &b_abs) {
        Some(v) => v,
        None => {
            return Ball::whole();
        },
    };
    if !head.is_small() {
        return Ball::whole();
    }
    let d1 = direct.add(&head, wp);
    if !d1.is_small() {
        return Ball::whole();
    }
    let d2 = d1.add(&sum, wp);
    if !d2.is_small() {
        return Ball::whole();
    }
    let r = d2.add_error(&rem);
    proof {
        assert forall|e: nat| #[trigger]
            is_exact_int(*s, e) && 2 <= e < 0x4000_0000_0000_0000 implies r.is_whole() || zeta_encloses(
            r,
            e,
            em_terms(wp as nat),
        ) by {
            assert(int_s == Some(e as u64));
            assert(ge == e);
            let nn = n as nat;
            assert(d1.contains_real(zeta_direct(e, nn) + em_head(e, nn)));
            assert(d2.contains_real(em_approx(e, nn, nn)));
            assert(bn.contains_real(bernoulli_value(nn + 1)));
            lemma_omitted_le(e, nn, b_abs.val(), rem.val());
            lemma_widen(d2, r, em_approx(e, nn, nn), rem.val());
        }
        if !small_int(*s) {
            assert(!isint) by {
                if isint {
                    assert(is_exact_int(*s, ge) && 2 <= ge < 0x4000_0000_0000_0000);
                }
            }
            let nn = n as nat;
            assert(m as nat == nn);
            let ee = choose|ee: nat| #[trigger] rem_bounds(*s, nn, nn, b_abs.val(), rem.val(), ee);
            assert(rem_bounds(*s, nn, nn, b_abs.val(), rem.val(), ee));
            assert(bn.contains_real(bernoulli_value(nn + 1)));
            assert(ts2.len() == nn + 1);
            assert forall|x: real, v: Seq<real>, eps: real|
                #![trigger s.contains_real(x), picks(ts2, v, nn + 1), abs_real(eps)]
                s.contains_real(x) && x > 0real && picks(ts2, v, nn + 1) && abs_real(eps) <= em_omitted_real(
                    x,
                    nn,
                    nn,
                    ee,
                ) implies r.contains_real(em_approx_real(x, v, nn) + eps) by {
                assert forall|i: int| 2 <= i < nn implies #[trigger] ts[i].contains_real(v[i]) by {
                    assert(ts2[i] == ts[i]);
                    assert(ts2[i].contains_real(v[i]));
                }
                assert(picks(ts, v, nn));
                let dv = 1real + sum_from_two(v, nn);
                assert(direct.contains_real(dv));
                let wv = v[nn as int];
                assert(ts2[nn as int] == n_neg_s);
                assert(ts2[nn as int].contains_real(wv));
                assert(head.contains_real(em_head_real(x, wv, nn)));
                assert(d1.contains_real(dv + em_head_real(x, wv, nn)));
                assert(sum.contains_real(em_sum_real(x, wv, nn, nn)));
                assert(d2.contains_real(em_approx_real(x, v, nn)));
                lemma_omitted_real_le(x, nn, ee, b_abs.val(), rem.val());
                lemma_widen(d2, r, em_approx_real(x, v, nn), rem.val());
            }
            assert(zeta_em_encloses(r, *s, em_terms(wp as nat), ts2, ee));
        }
    }
    r
}

/// Working precision of attempt `a` at target precision `prec`.
pub open spec fn zeta_wp(prec: nat, a: nat) -> nat {
    prec + 64 + prec / 2 * a
}

/// `b` is the whole ball, or holds the Euler–Maclaurin approximation of
/// `ζ(e)` at the working precision of some attempt for target `prec`.
pub open spec fn zeta_result(b: Ball, e: nat, prec: nat) -> bool {
    b.is_whole() || exists|a: nat|
        a <= ZETA_ATTEMPTS && #[trigger] zeta_encloses(b, e, em_terms(zeta_wp(prec, a)))
}

/// `b` is the whole ball, or holds ζ at every positive point of `s` as
/// [`zeta_em_encloses`] states, at the working precision of some attempt
/// for target `prec`.
pub open spec fn zeta_real_result(b: Ball, s: Ball, prec: nat) -> bool {
    b.is_whole() || exists|a: nat, ts: Seq<Ball>, ee: nat|
        a <= ZETA_ATTEMPTS && #[trigger] zeta_em_encloses(b, s, em_terms(zeta_wp(prec, a)), ts, ee)
}

/// The midpoint's digits lie within 2^28 binary places of one and number
/// at most 2^30: then whether the ball holds one is decided exactly.
pub open spec fn digits_near_one(m: Float) -> bool {
    m.nlimbs() <= 0x100_0000 && -0x1000_0000 <= m.ex() <= 0x1000_0000
}

/// ζ(s), or `None` when the ball reaches down to zero or below, or may
/// hold one: exactly when it holds one if its exponents are within 2^32 of
/// one's, else when `s − 1` computed as a ball holds zero. For an exact
/// integer `s = e >= 2` the result holds the Euler–Maclaurin approximation
/// at the working precision of some attempt, widened by its first omitted
/// correction; for any other `s` it holds that approximation at every
/// positive point `t` of `s`, with each `j^−t` a point of a ball holding
/// `exp(−t·ln j)` for all of `s` ([`zeta_real_result`]).
#[verifier::spinoff_prover]
pub fn try_zeta(s: &Ball, prec: u32) -> (r: Option<Ball>)
    requires
        s.small(),
        2 <= prec <= ZETA_PREC_MAX,
    ensures
        s.mid_val() - s.rad_val() <= 0real || s.contains_real(1real) ==> r is None,
        r is None && digits_near_one(s.mid_f()) ==> s.mid_val() - s.rad_val() <= 0real || s.contains_real(1real),
        r matches Some(b) ==> b.wf(),
        forall|e: nat|
            #[trigger] is_exact_int(*s, e) && 2 <= e < 0x4000_0000_0000_0000 ==> (r matches Some(b)
                && zeta_result(b, e, prec as nat)),
        !small_int(*s) && r is Some ==> zeta_real_result(r->0, *s, prec as nat),
{
    let l = s.lower_bound();
    if l.signum() <= 0 {
        proof {
            assert forall|e: nat| #[trigger]
                is_exact_int(*s, e) && 2 <= e < 0x4000_0000_0000_0000 implies false by {
                crate::fp::lemma_real_cast_order(2, e as int);
            }
        }
        return None;
    }
    if as_small_int(s).is_none() {
        let one = Float::from_u64(1);
        proof {
            reveal_with_fuel(crate::dyadic::nbits, 2);
            assert(one.ex() == 1);
        }
        if span_ok(&one, s.mid()) {
            if s.contains(&one) {
                return None;
            }
        } else {
            let b1 = Ball::from_i64(1);
            let d = s.sub(&b1, 64);
            proof {
                assert(b1.contains_real(1real));
            }
            if !d.is_small() || d.contains_zero() {
                return None;
            }
            proof {
                if s.contains_real(1real) {
                    assert(d.contains_real(1real - 1real));
                }
            }
        }
    }
    proof {
        if s.contains_real(1real) {
            assert forall|e: nat| #[trigger]
                is_exact_int(*s, e) && 2 <= e < 0x4000_0000_0000_0000 implies false by {
                crate::fp::lemma_real_cast_order(2, e as int);
                assert(abs_real(1real - s.mid_val()) <= s.rad_val());
            }
        }
    }
    let mut attempt: u32 = 0;
    while attempt < ZETA_ATTEMPTS
        invariant
            s.small(),
            2 <= prec <= ZETA_PREC_MAX,
            attempt <= ZETA_ATTEMPTS,
            s.mid_val() - s.rad_val() > 0real,
            !s.contains_real(1real),
        decreases ZETA_ATTEMPTS - attempt,
    {
        proof {
            assert(prec / 2 * attempt <= prec / 2 * 3) by (nonlinear_arith)
                requires
                    attempt <= 3,
            ;
        }
        let extra = 64 + prec / 2 * attempt;
        let r = zeta_em(s, prec + extra);
        if !r.is_small() {
            return Some(Ball::whole());
        }
        if r.rel_accuracy_bits() >= prec as i64 {
            let rr = r.round(prec);
            proof {
                lemma_round_encloses(r, rr, *s, prec as nat, attempt as nat);
                assert(zeta_wp(prec as nat, attempt as nat) == (prec + extra) as nat);
                lemma_round_encloses_real(r, rr, *s, prec as nat, attempt as nat);
            }
            return Some(rr);
        }
        attempt = attempt + 1;
    }
    let extra = 64 + prec / 2 * ZETA_ATTEMPTS;
    let r = zeta_em(s, prec + extra);
    if !r.is_small() {
        return Some(Ball::whole());
    }
    let rr = r.round(prec);
    proof {
        lemma_round_encloses(r, rr, *s, prec as nat, ZETA_ATTEMPTS as nat);
        assert(zeta_wp(prec as nat, ZETA_ATTEMPTS as nat) == (prec + extra) as nat);
        lemma_round_encloses_real(r, rr, *s, prec as nat, ZETA_ATTEMPTS as nat);
    }
    Some(rr)
}

/// A rounded copy of a ball holding ζ at the points of `s` at attempt `a`
/// holds it too.
proof fn lemma_round_encloses_real(r: Ball, rr: Ball, s: Ball, prec: nat, a: nat)
    requires
        r.small(),
        a <= ZETA_ATTEMPTS,
        forall|x: real| r.contains_real(x) ==> #[trigger] rr.contains_real(x),
        !small_int(s) ==> r.is_whole() || exists|ts: Seq<Ball>, ee: nat|
            #[trigger] zeta_em_encloses(r, s, em_terms(zeta_wp(prec, a)), ts, ee),
    ensures
        !small_int(s) ==> zeta_real_result(rr, s, prec),
{
    if !small_int(s) {
        let nn = em_terms(zeta_wp(prec, a));
        assert(!r.is_whole());
        let (ts, ee) = choose|ts: Seq<Ball>, ee: nat| #[trigger] zeta_em_encloses(r, s, nn, ts, ee);
        assert forall|t: real, v: Seq<real>, eps: real|
            #![trigger s.contains_real(t), picks(ts, v, nn + 1), abs_real(eps)]
            s.contains_real(t) && t > 0real && picks(ts, v, nn + 1) && abs_real(eps) <= em_omitted_real(
                t,
                nn,
                nn,
                ee,
            ) implies rr.contains_real(em_approx_real(t, v, nn) + eps) by {
            assert(r.contains_real(em_approx_real(t, v, nn) + eps));
        }
        assert(zeta_em_encloses(rr, s, nn, ts, ee));
    }
}

/// A rounded copy of a ball holding the approximation at attempt `a` holds
/// it too.
proof fn lemma_round_encloses(r: Ball, rr: Ball, s: Ball, prec: nat, a: nat)
    requires
        r.small(),
        a <= ZETA_ATTEMPTS,
        forall|x: real| r.contains_real(x) ==> #[trigger] rr.contains_real(x),
        forall|e: nat|
            #[trigger] is_exact_int(s, e) && 2 <= e < 0x4000_0000_0000_0000 ==> r.is_whole()
                || zeta_encloses(r, e, em_terms(zeta_wp(prec, a))),
    ensures
        forall|e: nat|
            #[trigger] is_exact_int(s, e) && 2 <= e < 0x4000_0000_0000_0000 ==> zeta_result(rr, e, prec),
{
    assert forall|e: nat| #[trigger]
        is_exact_int(s, e) && 2 <= e < 0x4000_0000_0000_0000 implies zeta_result(rr, e, prec) by {
        let nn = em_terms(zeta_wp(prec, a));
        assert(!r.is_whole());
        assert(zeta_encloses(r, e, nn));
        assert forall|eps: real| #[trigger] abs_real(eps) <= em_omitted(e, nn, nn) implies rr.contains_real(
            em_approx(e, nn, nn) + eps,
        ) by {
            assert(r.contains_real(em_approx(e, nn, nn) + eps));
        }
        assert(zeta_encloses(rr, e, nn));
    }
}

/// ζ(s) for a ball wholly above zero that does not hold one; the whole ball
/// where [`try_zeta`] gives `None`. An exact integer `s = e >= 2` gets a
/// ball holding the Euler–Maclaurin approximation of some attempt, widened
/// by its first omitted correction, or the whole ball; any other `s` gets
/// the whole ball or one holding that approximation at every point of `s`
/// ([`zeta_real_result`]).
pub fn zeta(s: &Ball, prec: u32) -> (r: Ball)
    requires
        s.small(),
        2 <= prec <= ZETA_PREC_MAX,
        s.mid_val() - s.rad_val() > 0real,
        !s.contains_real(1real),
    ensures
        r.wf(),
        forall|e: nat|
            #[trigger] is_exact_int(*s, e) && 2 <= e < 0x4000_0000_0000_0000 ==> zeta_result(
                r,
                e,
                prec as nat,
            ),
        !small_int(*s) ==> zeta_real_result(r, *s, prec as nat),
{
    match try_zeta(s, prec) {
        Some(b) => b,
        None => Ball::whole(),
    }
}

} // verus!
