//! The fundamental constants π, ln 2 and e as balls.
//!
//! Each is computed with headroom (`prec + prec/4 + 64` bits) by binary
//! splitting and rounded to the caller's precision; rounding a ball keeps
//! every point it held.
use crate::ball::{is_root, Ball};
use crate::elementary;
use crate::dyadic::pow2r;
use crate::binsplit::{
    chud_terms, chud_tail, e_binsplit, encloses_e, exp_one_tail, ln2_binsplit, ln2_tail, ln2_terms, near,
    pi_chudnovsky, series_sum, Series, CONST_PREC_MAX,
};
use vstd::prelude::*;

verus! {

/// Largest precision the constants are served at: 2^23 bits.
pub const PREC_MAX: u32 = 0x80_0000;

/// The working precision a constant is computed at for `prec` bits.
pub open spec fn headroom(prec: nat) -> nat {
    prec + prec / 4 + 64
}

/// π as a ball with about `prec` certified bits: see
/// [`pi_chudnovsky`], run at `headroom(prec)` bits, rounded to `prec`.
pub fn pi(prec: u32) -> (r: Ball)
    requires
        2 <= prec <= PREC_MAX,
    ensures
        r.wf(),
        forall|sigma: real, root: real|
            #![trigger near(sigma, series_sum(Series::Chudnovsky, 0, chud_terms(headroom(prec as nat))), chud_tail(chud_terms(headroom(prec as nat)))), is_root(root, 10005real)]
            near(
                sigma,
                series_sum(Series::Chudnovsky, 0, chud_terms(headroom(prec as nat))),
                chud_tail(chud_terms(headroom(prec as nat))),
            ) && is_root(root, 10005real) ==> sigma != 0real && r.contains_real(root * 426880real / sigma),
{
    let cp = prec + prec / 4 + 64;
    let b = pi_chudnovsky(cp);
    b.round(prec)
}

/// ln 2 as a ball with about `prec` certified bits: see
/// [`ln2_binsplit`], run at `headroom(prec)` bits, rounded to `prec`.
pub fn ln2(prec: u32) -> (r: Ball)
    requires
        2 <= prec <= PREC_MAX,
    ensures
        r.wf(),
        forall|sigma: real|
            #[trigger] near(
                sigma,
                series_sum(Series::AtanhThird, 0, ln2_terms(headroom(prec as nat))),
                ln2_tail(ln2_terms(headroom(prec as nat))),
            ) ==> r.contains_real(sigma * 2real / 3real),
{
    let cp = prec + prec / 4 + 64;
    let b = ln2_binsplit(cp);
    b.round(prec)
}

/// e as a ball with about `prec` certified bits: see [`e_binsplit`], run at
/// `headroom(prec)` bits, rounded to `prec`.
pub fn e(prec: u32) -> (r: Ball)
    requires
        2 <= prec <= PREC_MAX,
    ensures
        r.wf(),
        r.rel_accuracy() >= prec,
        exists|n: nat| #[trigger] encloses_e(r, n),
{
    let cp = prec + prec / 4 + 64;
    let b = e_binsplit(cp);
    let r = b.round(prec);
    proof {
        let n = choose|n: nat| #[trigger] encloses_e(b, n);
        assert forall|sigma: real|
            #[trigger] near(sigma, series_sum(Series::ExpOne, 0, n), exp_one_tail(n)) implies r.contains_real(
            sigma) by {
            assert(b.contains_real(sigma));
        }
        assert(encloses_e(r, n));
    }
    r
}

/// The constants a [`ConstCache`] serves.
#[derive(Clone, Copy, Debug, PartialEq, Eq, Structural)]
pub enum Constant {
    Pi,
    Ln2,
    E,
}

/// What a ball computed at `cp` bits holds of the constant `c`: π through
/// the Chudnovsky series (see [`pi_chudnovsky`]), ln 2 through
/// `2·atanh(1/3)` (see [`ln2_binsplit`]), e through `Σ 1/k!` (see
/// [`e_binsplit`]).
pub open spec fn holds_constant(c: Constant, b: Ball, cp: nat) -> bool {
    match c {
        Constant::Pi => forall|sigma: real, root: real|
            #![trigger near(sigma, series_sum(Series::Chudnovsky, 0, chud_terms(cp)), chud_tail(chud_terms(cp))), is_root(root, 10005real)]
            near(sigma, series_sum(Series::Chudnovsky, 0, chud_terms(cp)), chud_tail(chud_terms(cp)))
                && is_root(root, 10005real) ==> sigma != 0real && b.contains_real(root * 426880real / sigma),
        Constant::Ln2 => forall|sigma: real|
            #[trigger] near(sigma, series_sum(Series::AtanhThird, 0, ln2_terms(cp)), ln2_tail(ln2_terms(cp)))
                ==> b.contains_real(sigma * 2real / 3real),
        Constant::E => exists|n: nat| #[trigger] encloses_e(b, n),
    }
}

/// A ball that holds every point `b` holds holds what `b` holds of `c`.
proof fn lemma_holds_widen(c: Constant, b: Ball, r: Ball, cp: nat)
    requires
        holds_constant(c, b, cp),
        forall|x: real| b.contains_real(x) ==> #[trigger] r.contains_real(x),
    ensures
        holds_constant(c, r, cp),
{
    match c {
        Constant::Pi => {
            assert forall|sigma: real, root: real|
                #![trigger near(sigma, series_sum(Series::Chudnovsky, 0, chud_terms(cp)), chud_tail(chud_terms(cp))), is_root(root, 10005real)]
                near(sigma, series_sum(Series::Chudnovsky, 0, chud_terms(cp)), chud_tail(chud_terms(cp)))
                    && is_root(root, 10005real) implies sigma != 0real && r.contains_real(root * 426880real / sigma) by {
                assert(b.contains_real(root * 426880real / sigma));
            }
        },
        Constant::Ln2 => {
            assert forall|sigma: real|
                #[trigger] near(sigma, series_sum(Series::AtanhThird, 0, ln2_terms(cp)), ln2_tail(ln2_terms(cp)))
                    implies r.contains_real(sigma * 2real / 3real) by {
                assert(b.contains_real(sigma * 2real / 3real));
            }
        },
        Constant::E => {
            let n = choose|n: nat| #[trigger] encloses_e(b, n);
            assert forall|sigma: real|
                #[trigger] near(sigma, series_sum(Series::ExpOne, 0, n), exp_one_tail(n)) implies r.contains_real(
                sigma) by {
                assert(b.contains_real(sigma));
            }
            assert(encloses_e(r, n));
        },
    }
}

/// The constant `c` at `cp` bits by binary splitting.
fn compute_constant(c: Constant, cp: u32) -> (r: Ball)
    requires
        2 <= cp <= CONST_PREC_MAX,
    ensures
        r.wf(),
        r.small(),
        holds_constant(c, r, cp as nat),
{
    match c {
        Constant::Pi => pi_chudnovsky(cp),
        Constant::Ln2 => ln2_binsplit(cp),
        Constant::E => e_binsplit(cp),
    }
}

/// A constant computed once at the highest precision asked of it so far
/// (with the headroom of [`headroom`]) and served rounded to each caller's
/// precision; rounding a ball keeps every point it held.
#[derive(Debug)]
pub struct ConstCache {
    pub(crate) which: Constant,
    pub(crate) slot: Option<(u32, Ball)>,
}

impl ConstCache {
    /// The constant this cache serves.
    pub open(crate) spec fn constant(&self) -> Constant {
        self.which
    }

    /// The precision the cached ball was computed at, if any.
    pub open(crate) spec fn filled_at(&self) -> Option<nat> {
        match self.slot {
            Some((cp, _)) => Some(cp as nat),
            None => None,
        }
    }

    /// A cached ball is small and holds the constant at its precision.
    pub open(crate) spec fn wf(&self) -> bool {
        match self.slot {
            Some((cp, b)) => 2 <= cp <= CONST_PREC_MAX && b.small() && holds_constant(self.which, b, cp as nat),
            None => true,
        }
    }

    /// An empty cache for `which`.
    pub fn new(which: Constant) -> (r: Self)
        ensures
            r.wf(),
            r.constant() == which,
            r.filled_at() is None,
    {
        ConstCache { which, slot: None }
    }

    /// The constant with about `prec` certified bits: the cached ball
    /// rounded to `prec` when it was computed at `prec` bits or more,
    /// else a fresh one computed at `headroom(prec)` bits, which the cache
    /// then keeps.
    pub fn get(&mut self, prec: u32) -> (r: Ball)
        requires
            old(self).wf(),
            2 <= prec <= PREC_MAX,
        ensures
            final(self).wf(),
            final(self).constant() == old(self).constant(),
            r.wf(),
            (old(self).filled_at() matches Some(cp) && cp >= prec) ==> *final(self) == *old(self),
            !(old(self).filled_at() matches Some(cp) && cp >= prec) ==> final(self).filled_at() == Some(
                headroom(prec as nat),
            ),
            exists|cp: nat| cp >= prec && #[trigger] holds_constant(old(self).constant(), r, cp),
    {
        if let Some((p, b)) = &self.slot {
            if *p >= prec {
                let r = b.round(prec);
                proof {
                    lemma_holds_widen(self.which, *b, r, *p as nat);
                    assert(holds_constant(self.which, r, *p as nat));
                }
                return r;
            }
        }
        let cp = prec + prec / 4 + 64;
        let b = compute_constant(self.which, cp);
        let r = b.round(prec);
        proof {
            lemma_holds_widen(self.which, b, r, cp as nat);
            assert(holds_constant(self.which, r, cp as nat));
        }
        self.slot = Some((cp, b));
        r
    }
}

/// `r` holds `16·u − 4·v` for every `u` of `a5` and `v` of `a239`, where
/// `f5` holds 1/5 and `f239` holds 1/239, and `a5`, `a239` are atan balls
/// at them: holding atan as [`elementary::atan_result`] states wherever
/// the argument's radius is within atan's range.
pub open spec fn machin_encloses(r: Ball, f5: Ball, a5: Ball, f239: Ball, a239: Ball) -> bool {
    &&& f5.contains_real(1real / 5real)
    &&& f239.contains_real(1real / 239real)
    &&& !a5.is_whole()
    &&& !a239.is_whole()
    &&& f5.rad_m().ex() <= elementary::MAX_ARG_EXP ==> elementary::atan_result(f5, a5)
    &&& f239.rad_m().ex() <= elementary::MAX_ARG_EXP ==> elementary::atan_result(f239, a239)
    &&& forall|u: real, v: real|
        #![trigger a5.contains_real(u), a239.contains_real(v)]
        a5.contains_real(u) && a239.contains_real(v) ==> r.contains_real(u * 16real - v * 4real)
}

/// Machin's formula `π = 16·atan(1/5) − 4·atan(1/239)`, an independent
/// check of [`pi`]: both arguments are below one, so the atan path needs
/// no π.
pub fn compute_pi_machin(wp: u32) -> (r: Ball)
    requires
        2 <= wp <= elementary::ELEM_PREC_MAX - 32,
    ensures
        r.wf(),
        r.is_whole() || exists|f5: Ball, a5: Ball, f239: Ball, a239: Ball|
            #[trigger] machin_encloses(r, f5, a5, f239, a239),
{
    let wp = wp + 32;
    let one = Ball::from_i64(1);
    let f5 = one.div_u64(5, wp);
    let f239 = one.div_u64(239, wp);
    if !f5.is_small() || !f239.is_small() {
        return Ball::whole();
    }
    let a5 = elementary::atan(&f5, wp);
    let a239 = elementary::atan(&f239, wp);
    if !a5.is_small() || !a239.is_small() {
        return Ball::whole();
    }
    let x = a5.mul_2exp(4);
    let y = a239.mul_2exp(2);
    if !x.is_small() || !y.is_small() {
        return Ball::whole();
    }
    let r = x.sub(&y, wp);
    proof {
        assert(one.contains_real(1real));
        assert(f5.contains_real(1real / 5u64 as real));
        assert(f239.contains_real(1real / 239u64 as real));
        vstd::arithmetic::power2::lemma2_to64();
        assert(pow2r(4) == 16real);
        assert(pow2r(2) == 4real);
        assert forall|u: real, v: real|
            #![trigger a5.contains_real(u), a239.contains_real(v)]
            a5.contains_real(u) && a239.contains_real(v) implies r.contains_real(u * 16real - v * 4real) by {
            assert(x.contains_real(u * pow2r(4)));
            assert(y.contains_real(v * pow2r(2)));
        }
        assert(machin_encloses(r, f5, a5, f239, a239));
    }
    r
}

} // verus!
