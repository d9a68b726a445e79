//! Arbitrary-precision binary floating point with directed rounding.
//!
//! A nonzero [`Float`] denotes `(−1)^neg · 0.L · 2^exp`, where `L` is its limb
//! vector read as a binary fraction; equivalently `±value_of(L) · 2^low` with
//! `low = exp − 64·len`. For nonzero values the top bit of the top limb is
//! set and the lowest limb is nonzero, so the representation is unique.
//! Precision is an argument of each operation; a `Float` is always an exact
//! dyadic rational. Every rounding goes through one routine
//! (`from_window`), which rounds a limb window — plus, when `sticky` is set,
//! a positive amount below one unit of the window — to `prec` bits.
use crate::dyadic::{
    max_int, min_int,
    lemma_int_mul_real, lemma_nat_mul_real, lemma_nbits_bounds, lemma_nbits_mono, lemma_nbits_scale,
    lemma_nbits_unique, lemma_pow2_increases_le, lemma_pow2r_add, lemma_pow2r_le, lemma_pow2r_nat,
    lemma_pow2r_pos, lemma_rescale, lemma_rescale_int, lemma_round_sticky, nbits,
    isqrt_spec, lemma_isqrt, lemma_isqrt_unique, pow2r, round_digits,
    round_inexact, round_shift, round_up_needed, MagRound,
};
use crate::limb_spec::{
    is_normalized, lemma_pow2_64, lemma_value_all_zero, lemma_value_bound, lemma_value_lower,
    lemma_value_push, lemma_value_single, lemma_value_split, lemma_value_take_all,
    lemma_value_take_step, lemma_value_zero_limbs, lemma_value_zeros_above, lemma_weight_add,
    lemma_weight_pos, lemma_weight_succ, limb_base, limb_weight, value_of,
};
use crate::mpn::{self, Limb};
use crate::window;
use vstd::arithmetic::div_mod::*;
use vstd::arithmetic::mul::*;
use vstd::arithmetic::power2::*;
use vstd::prelude::*;
use core::cmp::Ordering;

verus! {

/// Rounding mode for [`Float`] operations.
#[derive(Clone, Copy, Debug, PartialEq, Eq, Structural)]
pub enum Round {
    /// Toward -infinity.
    Floor,
    /// Toward +infinity.
    Ceil,
    /// Toward zero (truncate).
    Down,
    /// Away from zero.
    Up,
    /// To nearest, ties to even.
    Nearest,
}

impl Round {
    /// The magnitude-space direction for a value of the given sign.
    pub open spec fn mag_spec(self, neg: bool) -> MagRound {
        match self {
            Round::Nearest => MagRound::Nearest,
            Round::Down => MagRound::Down,
            Round::Up => MagRound::Up,
            Round::Floor => if neg {
                MagRound::Up
            } else {
                MagRound::Down
            },
            Round::Ceil => if neg {
                MagRound::Down
            } else {
                MagRound::Up
            },
        }
    }

    fn mag(self, neg: bool) -> (r: MagRound)
        ensures
            r == self.mag_spec(neg),
    {
        match self {
            Round::Nearest => MagRound::Nearest,
            Round::Down => MagRound::Down,
            Round::Up => MagRound::Up,
            Round::Floor => if neg {
                MagRound::Up
            } else {
                MagRound::Down
            },
            Round::Ceil => if neg {
                MagRound::Down
            } else {
                MagRound::Up
            },
        }
    }
}

/// Largest exponent magnitude a [`Float`] carries: 2^62.
pub const EXP_MAX: i64 = 0x4000_0000_0000_0000;

/// Exponent bound for the operands of arithmetic: 2^60.
pub const EXP_SMALL: i64 = 0x1000_0000_0000_0000;

/// An arbitrary-precision binary floating-point number (a dyadic rational).
#[derive(Clone, Debug, PartialEq, Eq)]
pub struct Float {
    pub(crate) neg: bool,
    /// Exponent of the value: a nonzero value lies in `[2^(exp-1), 2^exp)`.
    pub(crate) exp: i64,
    /// Little-endian fraction limbs; empty means zero.
    pub(crate) limbs: Vec<Limb>,
}

/// Canonical limbs: top bit of the top limb set, lowest limb nonzero.
pub open spec fn canonical_limbs(s: Seq<u64>) -> bool {
    s.len() > 0 && s.last() >= 0x8000_0000_0000_0000u64 && s[0] != 0
}

/// `x` with the sign `neg`.
pub open spec fn signed(neg: bool, x: real) -> real {
    if neg {
        -x
    } else {
        x
    }
}

/// The value of rounding the window `w · 2^bot` (plus a positive amount below
/// `2^bot` when `sticky`) to `prec` bits in direction `mode`, with sign `neg`.
pub open spec fn window_val(
    neg: bool,
    w: nat,
    bot: int,
    sticky: bool,
    prec: nat,
    mode: MagRound,
) -> real {
    signed(neg, round_digits(w, sticky, prec, mode) as real * pow2r(bot + round_shift(w, prec)))
}

/// Correct rounding of the exact dyadic `m · 2^e` to `prec` bits.
pub open spec fn rounded(m: int, e: int, prec: nat, rnd: Round) -> real {
    window_val(m < 0, abs_int(m), e, false, prec, rnd.mag_spec(m < 0))
}

pub open spec fn abs_int(a: int) -> nat {
    if a < 0 {
        (-a) as nat
    } else {
        a as nat
    }
}

/// Exponent at which the signed sum `±ma·2^la ± mb·2^lb` is an integer:
/// the lower of the two, ignoring a zero operand.
pub open spec fn lin_low(ma: nat, la: int, mb: nat, lb: int) -> int {
    if ma == 0 {
        lb
    } else if mb == 0 {
        la
    } else if la <= lb {
        la
    } else {
        lb
    }
}

/// The signed sum `±ma·2^la ± mb·2^lb` as a multiple of `2^lin_low(..)`.
pub open spec fn lin_mant(ma: nat, la: int, na: bool, mb: nat, lb: int, nb: bool) -> int {
    let lo = lin_low(ma, la, mb, lb);
    signed_int(na, (ma * pow2((la - lo) as nat)) as int) + signed_int(nb, (mb * pow2((lb - lo) as nat)) as int)
}

/// `x` with the sign `neg`.
pub open spec fn signed_int(neg: bool, x: int) -> int {
    if neg {
        -x
    } else {
        x
    }
}

/// Limbs of zeros put below the dividend so that the quotient has at least
/// `ceil(prec/64) + 2` limbs.
pub open spec fn div_shift(na: nat, nb: nat, prec: nat) -> nat {
    let qn = (prec + 63) / 64 + 2;
    if qn + nb > na {
        (qn + nb - na) as nat
    } else {
        0
    }
}

/// The integer quotient that division rounds: `⌊|a| · 2^(64 s) / |b|⌋` in units.
pub open spec fn div_quo(a: Float, b: Float, prec: nat) -> nat {
    (a.mant() * limb_weight(div_shift(a.nlimbs(), b.nlimbs(), prec))) / b.mant()
}

/// Whether that quotient leaves a remainder.
pub open spec fn div_sticky(a: Float, b: Float, prec: nat) -> bool {
    (a.mant() * limb_weight(div_shift(a.nlimbs(), b.nlimbs(), prec))) % b.mant() != 0
}

/// The exponent of the quotient's unit.
pub open spec fn div_bot(a: Float, b: Float, prec: nat) -> int {
    a.low() - b.low() - 64 * div_shift(a.nlimbs(), b.nlimbs(), prec)
}

/// Limbs of zero pairs put below the radicand so that its root has more
/// than `prec` digits.
pub open spec fn sqrt_t(na: nat, prec: nat) -> nat {
    let v = (prec + 63) / 64 + 2 - na / 2;
    (if v > 0 {
        v
    } else {
        0
    }) as nat + 1
}

/// Whether the unit exponent is odd (one more digit moves into the radicand).
pub open spec fn sqrt_odd(a: Float) -> bool {
    a.low() % 2 == 1
}

/// The integer whose square root is rounded: `|a|` scaled to an even unit exponent.
pub open spec fn sqrt_radicand(a: Float, prec: nat) -> nat {
    a.mant() * limb_weight(2 * sqrt_t(a.nlimbs(), prec)) * (if sqrt_odd(a) {
        2nat
    } else {
        1nat
    })
}

/// The exponent of the root's unit.
pub open spec fn sqrt_bot(a: Float, prec: nat) -> int {
    (a.low() - (if sqrt_odd(a) {
        1int
    } else {
        0int
    })) / 2 - 64 * sqrt_t(a.nlimbs(), prec)
}

impl Float {
    /// Magnitude of the mantissa as an integer.
    pub open(crate) spec fn mant(&self) -> nat {
        value_of(self.limbs@)
    }

    /// Exponent of the mantissa's unit: the value is `±mant · 2^low`.
    pub open(crate) spec fn low(&self) -> int {
        self.exp - 64 * self.limbs@.len()
    }

    /// Signed mantissa.
    pub open(crate) spec fn sm(&self) -> int {
        if self.neg {
            -(self.mant() as int)
        } else {
            self.mant() as int
        }
    }

    /// Same sign, exponent and limbs.
    pub open(crate) spec fn model_eq(&self, o: &Float) -> bool {
        self.neg == o.neg && self.exp == o.exp && self.limbs@ == o.limbs@
    }

    /// The sign flag.
    pub open(crate) spec fn sign(&self) -> bool {
        self.neg
    }

    /// The exponent field.
    pub open(crate) spec fn ex(&self) -> int {
        self.exp as int
    }

    /// Number of limbs.
    pub open(crate) spec fn nlimbs(&self) -> nat {
        self.limbs@.len()
    }

    /// The lowest limb.
    pub open(crate) spec fn limb0(&self) -> u64 {
        self.limbs@[0]
    }

    /// The magnitude `|value|`.
    pub open(crate) spec fn mag(&self) -> real {
        self.mant() as real * pow2r(self.low())
    }

    /// The real number this float denotes.
    pub open(crate) spec fn val(&self) -> real {
        self.sm() as real * pow2r(self.low())
    }

    /// Well-formedness: canonical limbs, zero is `+0` with exponent 0, and
    /// every digit lies within `[2^−EXP_MAX, 2^EXP_MAX)`.
    pub open(crate) spec fn wf(&self) -> bool {
        &&& -EXP_MAX <= self.low()
        &&& self.exp <= EXP_MAX
        &&& self.limbs@.len() <= 0x400_0000
        &&& (self.limbs@.len() == 0 ==> !self.neg && self.exp == 0)
        &&& (self.limbs@.len() > 0 ==> canonical_limbs(self.limbs@))
    }

    /// Operands of arithmetic: well formed, with every digit within
    /// `[2^−EXP_SMALL, 2^EXP_SMALL)`, so that results stay representable.
    pub open(crate) spec fn small(&self) -> bool {
        &&& self.wf()
        &&& -EXP_SMALL <= self.low()
        &&& self.exp <= EXP_SMALL
    }

    /// Well formed, with every digit within `[2^−b, 2^b)`.
    pub open(crate) spec fn within(&self, b: int) -> bool {
        &&& self.wf()
        &&& -b <= self.low()
        &&& self.exp <= b
    }

    /// A copy with the same model.
    pub fn copy(&self) -> (r: Float)
        ensures
            r.model_eq(self),
    {
        Float { neg: self.neg, exp: self.exp, limbs: mpn::copy_limbs(self.limbs.as_slice()) }
    }

    pub fn zero() -> (r: Self)
        ensures
            r.wf(),
            r.small(),
            r.mant() == 0,
            r.nlimbs() == 0,
            r.val() == 0real,
    {
        let r = Float { neg: false, exp: 0, limbs: Vec::new() };
        proof {
            lemma_value_all_zero(r.limbs@);
            r.lemma_val_zero();
        }
        r
    }

    pub fn is_zero(&self) -> (r: bool)
        requires
            self.wf(),
        ensures
            r <==> self.mant() == 0,
            r <==> self.val() == 0real,
    {
        proof {
            self.lemma_mant_bounds();
            self.lemma_val_zero();
        }
        self.limbs.len() == 0
    }

    pub fn is_neg(&self) -> (r: bool)
        requires
            self.wf(),
        ensures
            r == self.sign(),
            r <==> self.val() < 0real,
    {
        proof {
            self.lemma_mant_bounds();
            self.lemma_val_sign();
        }
        self.neg
    }

    /// Bounds of a well-formed mantissa.
    pub(crate) proof fn lemma_mant_bounds(&self)
        requires
            self.wf(),
        ensures
            self.limbs@.len() == 0 <==> self.mant() == 0,
            self.limbs@.len() > 0 ==> limb_weight((self.limbs@.len() - 1) as nat)
                * 0x8000_0000_0000_0000 <= self.mant(),
            self.mant() < limb_weight(self.limbs@.len()),
            self.mant() == 0 ==> !self.neg && self.exp == 0,
    {
        let s = self.limbs@;
        lemma_value_bound(s);
        if s.len() == 0 {
            assert(s =~= Seq::<u64>::empty());
        } else {
            let n = (s.len() - 1) as nat;
            lemma_value_split(s, n as int);
            assert(s.skip(n as int) =~= seq![s.last()]);
            lemma_value_single(s.last());
            lemma_mul_inequality(0x8000_0000_0000_0000int, s.last() as int, limb_weight(n) as int);
            lemma_mul_is_commutative(0x8000_0000_0000_0000int, limb_weight(n) as int);
            lemma_mul_is_commutative(s.last() as int, limb_weight(n) as int);
            lemma_weight_pos(n);
        }
    }

    /// The value is zero exactly for the zero mantissa.
    pub(crate) proof fn lemma_val_zero(&self)
        ensures
            self.val() == 0real <==> self.mant() == 0,
    {
        lemma_pow2r_pos(self.low());
        let p = pow2r(self.low());
        let x = self.sm() as real;
        assert(x * p == 0real <==> x == 0real) by (nonlinear_arith)
            requires
                p > 0real,
        ;
    }

    /// The sign of the value is the sign flag (for nonzero values).
    pub(crate) proof fn lemma_val_sign(&self)
        requires
            self.wf(),
        ensures
            self.val() < 0real <==> self.neg,
            self.val() > 0real <==> !self.neg && self.mant() > 0,
    {
        self.lemma_mant_bounds();
        lemma_pow2r_pos(self.low());
        let p = pow2r(self.low());
        let x = self.sm() as real;
        assert(x * p < 0real <==> x < 0real) by (nonlinear_arith)
            requires
                p > 0real,
        ;
        assert(x * p > 0real <==> x > 0real) by (nonlinear_arith)
            requires
                p > 0real,
        ;
    }

    /// `|value| = mant · 2^low`.
    pub(crate) proof fn lemma_val_abs(&self)
        ensures
            self.val() == signed(self.neg, self.mant() as real * pow2r(self.low())),
    {
        let p = pow2r(self.low());
        let m = self.mant() as real;
        assert((-m) * p == -(m * p)) by (nonlinear_arith);
    }

    /// Whether every digit lies within `[2^−b, 2^b)`.
    pub(crate) fn is_within(&self, b: i64) -> (r: bool)
        requires
            self.wf(),
            b >= 0,
        ensures
            r == self.within(b as int),
    {
        let low = self.exp - 64 * (self.limbs.len() as i64);
        self.exp <= b && low >= -b
    }

    /// Exponent `e` with `|x| ∈ [2^(e-1), 2^e)`; `None` for zero.
    pub fn exponent(&self) -> (r: Option<i64>)
        requires
            self.wf(),
        ensures
            r == (if self.mant() == 0 {
                None
            } else {
                Some(self.ex() as i64)
            }),
            r is Some ==> pow2r(r->0 - 1) <= self.mant() as real * pow2r(self.low()),
            r is Some ==> self.mant() as real * pow2r(self.low()) < pow2r(r->0 as int),
    {
        proof {
            self.lemma_mant_bounds();
        }
        if self.limbs.len() == 0 {
            None
        } else {
            proof {
                self.lemma_exponent_bounds();
            }
            Some(self.exp)
        }
    }

    /// A nonzero value lies in `[2^(exp−1), 2^exp)`.
    pub(crate) proof fn lemma_exponent_bounds(&self)
        requires
            self.wf(),
            self.mant() > 0,
        ensures
            pow2r(self.exp - 1) <= self.mant() as real * pow2r(self.low()),
            self.mant() as real * pow2r(self.low()) < pow2r(self.exp as int),
    {
        self.lemma_mant_bounds();
        let n = self.limbs@.len();
        let m = self.mant();
        lemma_pow2_adds(64 * (n - 1) as nat, 63);
        lemma2_to64_rest();
        lemma2_to64();
        assert(64 * (n - 1) as nat + 63 == (64 * n - 1) as nat);
        lemma_mul_is_commutative(limb_weight((n - 1) as nat) as int, 0x8000_0000_0000_0000int);
        let lo = pow2((64 * n - 1) as nat);
        let hi = pow2((64 * n) as nat);
        assert(lo <= m);
        assert(m < hi);
        lemma_rescale(lo, self.low(), 1, self.exp - 1, (64 * n - 1) as nat);
        lemma_rescale(hi, self.low(), 1, self.exp as int, (64 * n) as nat);
        lemma_pow2r_pos(self.low());
        let p = pow2r(self.low());
        assert((lo as real) * p <= (m as real) * p) by (nonlinear_arith)
            requires
                lo <= m,
                p > 0real,
        ;
        assert((m as real) * p < (hi as real) * p) by (nonlinear_arith)
            requires
                m < hi,
                p > 0real,
        ;
    }

    /// Number of significant bits in the fraction (0 for zero).
    pub fn bit_len(&self) -> (r: u64)
        requires
            self.wf(),
        ensures
            r == 0 <==> self.mant() == 0,
            r <= 64 * self.nlimbs(),
            self.mant() > 0 ==> r == 64 * self.nlimbs() - vstd::std_specs::bits::u64_trailing_zeros(
                self.limb0(),
            ),
    {
        proof {
            self.lemma_mant_bounds();
        }
        if self.limbs.len() == 0 {
            return 0;
        }
        let n = self.limbs.len() as u64;
        let tz = self.limbs[0].trailing_zeros() as u64;
        proof {
            vstd::std_specs::bits::axiom_u64_trailing_zeros(self.limbs@[0]);
        }
        n * 64 - tz
    }

    /// Exact construction of `±value(m) · 2^e_unit`.
    pub(crate) fn from_mantissa(neg: bool, m: &[Limb], e_unit: i128) -> (r: Float)
        requires
            m@.len() <= 0x100_0000_0000_0000,
            nbits(value_of(m@)) <= 0x1_0000_0000,
            value_of(m@) > 0 ==> -EXP_MAX + 64 <= e_unit && e_unit + nbits(value_of(m@))
                <= EXP_MAX,
        ensures
            r.wf(),
            r.val() == signed(neg, value_of(m@) as real * pow2r(e_unit as int)),
            value_of(m@) == 0 ==> r.mant() == 0,
            value_of(m@) > 0 ==> r.mant() > 0 && r.neg == neg && r.exp == e_unit + nbits(
                value_of(m@),
            ),
            r.limbs@.len() <= m@.len(),
            r.limbs@.len() <= (nbits(value_of(m@)) + 63) / 64,
            value_of(m@) > 0 ==> r.low() >= e_unit - 63,
            !neg ==> !r.neg,
    {
        let ghost v = value_of(m@);
        let l = mpn::bit_len(m);
        proof {
            lemma_value_bound(m@);
            lemma_nbits_bounds(v);
        }
        if l == 0 {
            let r = Float::zero();
            proof {
                lemma_nbits_bounds(0);
                lemma_pow2r_pos(e_unit as int);
                assert(0real * pow2r(e_unit as int) == 0real) by (nonlinear_arith);
            }
            return r;
        }
        proof {
            lemma_nbits_unique(v, l as nat);
            // l <= 64·len
            if (l as int) > 64 * m@.len() {
                lemma_pow2_increases_le((64 * m@.len()) as nat, (l - 1) as nat);
            }
        }
        assert(64 * ((l + 63) / 64) >= l && 64 * ((l + 63) / 64) <= l + 63) by (nonlinear_arith);
        assert((l + 63) / 64 <= m@.len()) by (nonlinear_arith)
            requires
                l <= 64 * m@.len(),
        ;
        let nl64 = (l + 63) / 64;
        let mlen = m.len();
        assert(nl64 <= mlen);
        let nl = nl64 as usize;
        assert(nl as u64 == nl64);
        let sh = nl64 * 64 - l;
        proof {
            lemma_nbits_scale(v, sh as nat);
            lemma_nbits_bounds(v * pow2(sh as nat));
        }
        let t = shift_left_small(m, sh as u32, nl);
        proof {
            lemma_nbits_bounds(value_of(t@));
            assert(nbits(value_of(t@)) == 64 * nl);
            lemma_top_limbs(t@, nl as nat);
        }
        let mut z: usize = 0;
        while t[z] == 0
            invariant
                z < nl,
                nl <= t@.len(),
                t@[nl - 1] != 0,
                forall|k: int| 0 <= k < z ==> t@[k] == 0,
            decreases nl - z,
        {
            z = z + 1;
        }
        let limbs = mpn::copy_limbs(&t[z..nl]);
        let exp = (e_unit + l as i128) as i64;
        let r = Float { neg, exp, limbs };
        proof {
            let tt = t@.take(nl as int);
            assert(limbs@ =~= tt.skip(z as int));
            lemma_value_split(tt, z as int);
            assert(tt.take(z as int) =~= t@.take(z as int));
            lemma_value_all_zero(t@.take(z as int));
            assert(limbs@.last() == t@[nl - 1]);
            assert(limbs@[0] == t@[z as int]);
            // value(limbs) · 2^(64 z) = v · 2^sh
            let lv = value_of(limbs@);
            assert(lv * limb_weight(z as nat) == v * pow2(sh as nat)) by {
                lemma_mul_is_commutative(lv as int, limb_weight(z as nat) as int);
            }
            lemma_rescale(v * pow2(sh as nat), e_unit - sh, v, e_unit as int, sh as nat);
            lemma_rescale(lv * limb_weight(z as nat), e_unit - sh, lv, r.low(), (64 * z) as nat);
            if neg {
                let p = pow2r(r.low());
                assert(((-(lv as int)) as real) * p == -((lv as real) * p)) by (nonlinear_arith);
            }
            lemma_weight_pos(z as nat);
            lemma_pow2_pos(sh as nat);
            assert(lv > 0) by (nonlinear_arith)
                requires
                    lv * limb_weight(z as nat) == v * pow2(sh as nat),
                    v > 0,
                    pow2(sh as nat) > 0,
            ;
            lemma_pow2_pos(sh as nat);
        }
        r
    }

    /// Round `self` to `prec` bits.
    pub fn round(&self, prec: u32, rnd: Round) -> (res: (Float, bool))
        requires
            self.small(),
            prec >= 2,
        ensures
            res.0.wf(),
            res.0.nlimbs() <= (prec + 64) / 64,
            res.0.val() == rounded(self.sm(), self.low(), prec as nat, rnd),
            res.1 == round_inexact(self.mant(), false, prec as nat),
            res.0.mant() > 0 ==> res.0.low() >= self.low() - 63 && res.0.ex() <= self.ex() + 1,
    {
        self.round_signed(self.neg, prec, rnd)
    }

    /// Rounds `±mant · 2^low`, with the sign `neg` in place of the own sign.
    fn round_signed(&self, neg: bool, prec: u32, rnd: Round) -> (res: (Float, bool))
        requires
            self.small(),
            prec >= 2,
        ensures
            res.0.wf(),
            res.0.nlimbs() <= (prec + 64) / 64,
            res.0.val() == rounded(
                if neg {
                    -(self.mant() as int)
                } else {
                    self.mant() as int
                },
                self.low(),
                prec as nat,
                rnd,
            ),
            res.1 == round_inexact(self.mant(), false, prec as nat),
            res.0.mant() > 0 ==> res.0.low() >= self.low() - 63 && res.0.ex() <= self.ex() + 1,
    {
        proof {
            self.lemma_mant_bounds();
            self.lemma_nbits_mant();
            lemma_window_zero(neg, self.mant(), self.low(), prec as nat, rnd);
        }
        let low = self.exp as i128 - 64 * (self.limbs.len() as i128);
        Float::from_window(neg, self.limbs.as_slice(), low, false, prec, rnd)
    }

    /// A nonzero mantissa has exactly `64·len` digits.
    pub(crate) proof fn lemma_nbits_mant(&self)
        requires
            self.wf(),
        ensures
            nbits(self.mant()) <= 64 * self.limbs@.len(),
            self.mant() > 0 ==> nbits(self.mant()) == 64 * self.limbs@.len(),
            self.mant() > 0 ==> self.low() + nbits(self.mant()) == self.exp,
    {
        self.lemma_mant_bounds();
        let n = self.limbs@.len();
        let m = self.mant();
        lemma_nbits_bounds(m);
        if nbits(m) > 64 * n {
            lemma_pow2_increases_le(64 * n, (nbits(m) - 1) as nat);
        }
        if m > 0 {
            lemma_pow2_adds(64 * (n - 1) as nat, 63);
            lemma2_to64_rest();
            lemma2_to64();
            assert(64 * (n - 1) as nat + 63 == (64 * n - 1) as nat);
            lemma_mul_is_commutative(limb_weight((n - 1) as nat) as int, 0x8000_0000_0000_0000int);
            lemma_nbits_unique(m, 64 * n);
        }
    }

    /// `self + other`, rounded to `prec` bits. Returns (result, inexact).
    pub fn add(&self, other: &Float, prec: u32, rnd: Round) -> (res: (Float, bool))
        requires
            self.small(),
            other.small(),
            prec >= 2,
        ensures
            res.0.wf(),
            res.0.nlimbs() <= (prec + 64) / 64,
            res.0.val() == rounded(
                lin_mant(self.mant(), self.low(), self.sign(), other.mant(), other.low(), other.sign()),
                lin_low(self.mant(), self.low(), other.mant(), other.low()),
                prec as nat,
                rnd,
            ),
            res.1 == round_inexact(
                abs_int(
                    lin_mant(self.mant(), self.low(), self.sign(), other.mant(), other.low(), other.sign()),
                ),
                false,
                prec as nat,
            ),
            res.0.mant() > 0 ==> res.0.low() >= min_int(self.low(), other.low()) - 63 && res.0.ex()
                <= max_int(self.ex(), other.ex()) + 2,
    {
        Float::add_signed(self, self.neg, other, other.neg, prec, rnd)
    }

    /// `self - other`, rounded to `prec` bits. Returns (result, inexact).
    pub fn sub(&self, other: &Float, prec: u32, rnd: Round) -> (res: (Float, bool))
        requires
            self.small(),
            other.small(),
            prec >= 2,
        ensures
            res.0.wf(),
            res.0.nlimbs() <= (prec + 64) / 64,
            res.0.val() == rounded(
                lin_mant(self.mant(), self.low(), self.sign(), other.mant(), other.low(), !other.sign()),
                lin_low(self.mant(), self.low(), other.mant(), other.low()),
                prec as nat,
                rnd,
            ),
            res.1 == round_inexact(
                abs_int(
                    lin_mant(self.mant(), self.low(), self.sign(), other.mant(), other.low(), !other.sign()),
                ),
                false,
                prec as nat,
            ),
            res.0.mant() > 0 ==> res.0.low() >= min_int(self.low(), other.low()) - 63 && res.0.ex()
                <= max_int(self.ex(), other.ex()) + 2,
    {
        Float::add_signed(self, self.neg, other, !other.neg, prec, rnd)
    }

    /// `±|a| ± |b|` with the signs `an`, `bn`, rounded to `prec` bits.
    fn add_signed(a: &Float, an: bool, b: &Float, bn: bool, prec: u32, rnd: Round) -> (res: (
        Float,
        bool,
    ))
        requires
            a.small(),
            b.small(),
            prec >= 2,
        ensures
            res.0.wf(),
            res.0.nlimbs() <= (prec + 64) / 64,
            res.0.val() == rounded(
                lin_mant(a.mant(), a.low(), an, b.mant(), b.low(), bn),
                lin_low(a.mant(), a.low(), b.mant(), b.low()),
                prec as nat,
                rnd,
            ),
            res.1 == round_inexact(
                abs_int(lin_mant(a.mant(), a.low(), an, b.mant(), b.low(), bn)),
                false,
                prec as nat,
            ),
            res.0.mant() > 0 ==> res.0.low() >= min_int(a.low(), b.low()) - 63 && res.0.ex()
                <= max_int(a.ex(), b.ex()) + 2,
    {
        proof {
            a.lemma_mant_bounds();
            b.lemma_mant_bounds();
            lemma_pow2_pos((a.low() - lin_low(a.mant(), a.low(), b.mant(), b.low())) as nat);
        }
        if a.limbs.len() == 0 {
            proof {
                lemma2_to64();
                assert(a.mant() * pow2((a.low() - b.low()) as nat) == 0) by {
                    lemma_mul_basics(pow2((a.low() - b.low()) as nat) as int);
                }
                assert(b.mant() * pow2(0) == b.mant());
                assert(lin_mant(a.mant(), a.low(), an, b.mant(), b.low(), bn) == if bn {
                    -(b.mant() as int)
                } else {
                    b.mant() as int
                });
            }
            return b.round_signed(bn, prec, rnd);
        }
        if b.limbs.len() == 0 {
            proof {
                lemma2_to64();
                assert(b.mant() * pow2((b.low() - a.low()) as nat) == 0) by {
                    lemma_mul_basics(pow2((b.low() - a.low()) as nat) as int);
                }
                assert(a.mant() * pow2(0) == a.mant());
                assert(lin_mant(a.mant(), a.low(), an, b.mant(), b.low(), bn) == if an {
                    -(a.mant() as int)
                } else {
                    a.mant() as int
                });
            }
            return a.round_signed(an, prec, rnd);
        }
        if a.exp >= b.exp {
            Float::add_core(a, an, b, bn, prec, rnd)
        } else {
            proof {
                assert(lin_low(a.mant(), a.low(), b.mant(), b.low()) == lin_low(
                    b.mant(),
                    b.low(),
                    a.mant(),
                    a.low(),
                ));
                assert(lin_mant(a.mant(), a.low(), an, b.mant(), b.low(), bn) == lin_mant(
                    b.mant(),
                    b.low(),
                    bn,
                    a.mant(),
                    a.low(),
                    an,
                ));
            }
            Float::add_core(b, bn, a, an, prec, rnd)
        }
    }

    /// `±|a| ± |b|` for nonzero operands with `a.exp >= b.exp`.
    fn add_core(a: &Float, an: bool, b: &Float, bn: bool, prec: u32, rnd: Round) -> (res: (
        Float,
        bool,
    ))
        requires
            a.small(),
            b.small(),
            prec >= 2,
            a.mant() > 0,
            b.mant() > 0,
            a.exp >= b.exp,
        ensures
            res.0.wf(),
            res.0.nlimbs() <= (prec + 64) / 64,
            res.0.val() == rounded(
                lin_mant(a.mant(), a.low(), an, b.mant(), b.low(), bn),
                lin_low(a.mant(), a.low(), b.mant(), b.low()),
                prec as nat,
                rnd,
            ),
            res.1 == round_inexact(
                abs_int(lin_mant(a.mant(), a.low(), an, b.mant(), b.low(), bn)),
                false,
                prec as nat,
            ),
            res.0.mant() > 0 ==> res.0.low() >= min_int(a.low(), b.low()) - 63 && res.0.ex()
                <= max_int(a.ex(), b.ex()) + 2,
    {
        let la: i128 = a.exp as i128 - 64 * (a.limbs.len() as i128);
        let ea = a.exp as i128;
        let eb = b.exp as i128;
        let top = ea - prec as i128 - 2;
        let far_bot = if la < top {
            la
        } else {
            top
        };
        if eb <= far_bot {
            Float::add_far(a, an, b, bn, far_bot, prec, rnd)
        } else {
            Float::add_near(a, an, b, bn, prec, rnd)
        }
    }

    /// `±|a| ± |b|` when `b` lies wholly below `2^bot`, and `a` has at least
    /// `prec + 2` digits above it: `b` only decides the sticky flag.
    fn add_far(a: &Float, an: bool, b: &Float, bn: bool, bot: i128, prec: u32, rnd: Round) -> (res: (
        Float,
        bool,
    ))
        requires
            a.small(),
            b.small(),
            prec >= 2,
            a.mant() > 0,
            b.mant() > 0,
            b.exp <= bot <= a.low(),
            bot <= a.exp - prec - 2,
            a.low() - bot <= prec + 2,
        ensures
            res.0.wf(),
            res.0.nlimbs() <= (prec + 64) / 64,
            res.0.val() == rounded(
                lin_mant(a.mant(), a.low(), an, b.mant(), b.low(), bn),
                lin_low(a.mant(), a.low(), b.mant(), b.low()),
                prec as nat,
                rnd,
            ),
            res.1 == round_inexact(
                abs_int(lin_mant(a.mant(), a.low(), an, b.mant(), b.low(), bn)),
                false,
                prec as nat,
            ),
            res.0.mant() > 0 ==> res.0.low() >= min_int(a.low(), b.low()) - 63 && res.0.ex()
                <= max_int(a.ex(), b.ex()) + 2,
    {
        let la: i128 = a.exp as i128 - 64 * (a.limbs.len() as i128);
        let d = (la - bot) as u64;
        let aw = window::shl_bits(a.limbs.as_slice(), d);
        let ghost ma = a.mant();
        let ghost mb = b.mant();
        let ghost big_a = value_of(aw@);
        let ghost k = (bot - b.low()) as nat;
        let ghost mode = rnd.mag_spec(an);
        proof {
            a.lemma_mant_bounds();
            b.lemma_mant_bounds();
            a.lemma_nbits_mant();
            b.lemma_nbits_mant();
            lemma_nbits_scale(ma, d as nat);
            assert(nbits(big_a) == a.exp - bot);
            lemma_nbits_bounds(big_a);
            // b < 2^(eb − lb) <= 2^k
            assert(limb_weight(b.limbs@.len()) == pow2((b.exp - b.low()) as nat));
            lemma_pow2_increases_le((b.exp - b.low()) as nat, k);
            assert(mb < pow2(k));
            // the exact sum at the lower exponent
            assert(lin_low(ma, a.low(), mb, b.low()) == b.low());
            lemma_pow2_adds(d as nat, k);
            assert((a.low() - b.low()) as nat == d as nat + k);
            assert(ma * pow2((a.low() - b.low()) as nat) == big_a * pow2(k)) by {
                lemma_mul_is_associative(ma as int, pow2(d as nat) as int, pow2(k) as int);
            }
            assert(pow2((b.low() - b.low()) as nat) == 1) by {
                lemma2_to64();
            }
            lemma_pow2_pos(k);
        }
        if an == bn {
            proof {
                let big = big_a * pow2(k) + mb;
                lemma_round_sticky(big_a, k, mb, prec as nat, mode);
                assert(lin_mant(ma, a.low(), an, mb, b.low(), bn) == if an {
                    -(big as int)
                } else {
                    big as int
                });
                lemma_window_zero(an, big, b.low(), prec as nat, rnd);
                assert(b.low() + round_shift(big, prec as nat) == bot + round_shift(big_a, prec as nat));
            }
            Float::from_window(an, aw.as_slice(), bot, true, prec, rnd)
        } else {
            let mut w = mpn::zeros(aw.len());
            let borrow = mpn::sub_1(&mut w, aw.as_slice(), 1);
            proof {
                lemma_pow2_increases_le((prec + 1) as nat, (nbits(big_a) - 1) as nat);
                lemma_value_bound(w@);
                assert(value_of(w@) == big_a - 1) by {
                    lemma_weight_pos(aw@.len());
                    if borrow != 0 {
                        assert(value_of(w@) >= limb_weight(aw@.len())) by (nonlinear_arith)
                            requires
                                value_of(w@) as int - borrow as int * limb_weight(aw@.len())
                                    == big_a as int - 1,
                                borrow >= 1,
                                big_a >= 1,
                        ;
                    }
                }
                let wv = (big_a - 1) as nat;
                lemma_nbits_bounds(wv);
                lemma_pow2_adds(prec as nat, 1);
                lemma2_to64();
                if nbits(wv) <= prec {
                    lemma_pow2_increases_le(nbits(wv), prec as nat);
                }
                lemma_nbits_mono(wv, big_a);
                let r = (pow2(k) - mb) as nat;
                let big = wv * pow2(k) + r;
                lemma_round_sticky(wv, k, r, prec as nat, mode);
                assert(big == big_a * pow2(k) - mb) by {
                    lemma_mul_is_distributive_sub_other_way(pow2(k) as int, big_a as int, 1);
                }
                assert(lin_mant(ma, a.low(), an, mb, b.low(), bn) == if an {
                    -(big as int)
                } else {
                    big as int
                });
                lemma_window_zero(an, big, b.low(), prec as nat, rnd);
                assert(b.low() + round_shift(big, prec as nat) == bot + round_shift(wv, prec as nat));
            }
            Float::from_window(an, w.as_slice(), bot, true, prec, rnd)
        }
    }

    /// `±|a| ± |b|` computed exactly at the lower of the two exponents, then
    /// rounded; used when the operands overlap or nearly do.
    #[verifier::rlimit(60)]
    fn add_near(a: &Float, an: bool, b: &Float, bn: bool, prec: u32, rnd: Round) -> (res: (
        Float,
        bool,
    ))
        requires
            a.small(),
            b.small(),
            prec >= 2,
            a.mant() > 0,
            b.mant() > 0,
            a.exp >= b.exp,
            b.exp > a.low() || b.exp > a.exp - prec - 2,
        ensures
            res.0.wf(),
            res.0.nlimbs() <= (prec + 64) / 64,
            res.0.val() == rounded(
                lin_mant(a.mant(), a.low(), an, b.mant(), b.low(), bn),
                lin_low(a.mant(), a.low(), b.mant(), b.low()),
                prec as nat,
                rnd,
            ),
            res.1 == round_inexact(
                abs_int(lin_mant(a.mant(), a.low(), an, b.mant(), b.low(), bn)),
                false,
                prec as nat,
            ),
            res.0.mant() > 0 ==> res.0.low() >= min_int(a.low(), b.low()) - 63 && res.0.ex()
                <= max_int(a.ex(), b.ex()) + 2,
    {
        let la: i128 = a.exp as i128 - 64 * (a.limbs.len() as i128);
        let lb: i128 = b.exp as i128 - 64 * (b.limbs.len() as i128);
        let lo = if la <= lb {
            la
        } else {
            lb
        };
        let ghost ma = a.mant();
        let ghost mb = b.mant();
        let ghost ea = a.exp as int;
        proof {
            a.lemma_mant_bounds();
            b.lemma_mant_bounds();
            a.lemma_nbits_mant();
            b.lemma_nbits_mant();
        }
        let mut aw = window::shl_bits(a.limbs.as_slice(), (la - lo) as u64);
        let mut bw = window::shl_bits(b.limbs.as_slice(), (lb - lo) as u64);
        let ghost big_a = value_of(aw@);
        let ghost big_b = value_of(bw@);
        let n = if aw.len() >= bw.len() {
            aw.len()
        } else {
            bw.len()
        } + 1;
        proof {
            lemma_value_bound(aw@);
            lemma_value_bound(bw@);
            lemma_weight_mono_le(aw@.len(), (n - 1) as nat);
            lemma_weight_mono_le(bw@.len(), (n - 1) as nat);
            lemma_weight_succ((n - 1) as nat);
            // both parts lie below 2^(ea − lo)
            lemma_nbits_scale(ma, (la - lo) as nat);
            lemma_nbits_scale(mb, (lb - lo) as nat);
            lemma_nbits_bounds(big_a);
            lemma_nbits_bounds(big_b);
            lemma_pow2_increases_le(nbits(big_b), nbits(big_a));
            assert(nbits(big_a) == ea - lo);
            assert(lin_low(ma, a.low(), mb, b.low()) == lo);
            assert(lin_mant(ma, a.low(), an, mb, b.low(), bn) == signed_int(an, big_a as int)
                + signed_int(bn, big_b as int));
            lemma_pow2_adds(nbits(big_a), 1);
            lemma2_to64();
        }
        extend(&mut aw, n);
        extend(&mut bw, n);
        let mut w = mpn::zeros(n);
        if an == bn {
            let c = mpn::add(&mut w, aw.as_slice(), bw.as_slice());
            proof {
                let wv = value_of(w@);
                assert(c == 0) by {
                    if c != 0 {
                        lemma_weight_pos((n - 1) as nat);
                        assert(value_of(w@) + c as nat * limb_weight(n as nat) >= limb_weight(
                            n as nat,
                        )) by (nonlinear_arith)
                            requires
                                c >= 1,
                        ;
                    }
                }
                assert(wv == big_a + big_b);
                lemma_fit_sum(wv, nbits(big_a), lo as int);
                lemma_window_zero(an, wv, lo as int, prec as nat, rnd);
            }
            Float::from_window(an, w.as_slice(), lo, false, prec, rnd)
        } else {
            let borrow = mpn::sub(&mut w, aw.as_slice(), bw.as_slice());
            if borrow == 0 {
                proof {
                    let wv = value_of(w@);
                    assert(wv == big_a - big_b);
                    lemma_fit_sum(wv, nbits(big_a), lo as int);
                    lemma_window_zero(an, wv, lo as int, prec as nat, rnd);
                    if wv == 0 {
                        assert(lin_mant(ma, a.low(), an, mb, b.low(), bn) == 0);
                    }
                }
                Float::from_window(an, w.as_slice(), lo, false, prec, rnd)
            } else {
                let mut w2 = mpn::zeros(n);
                let _ = mpn::sub(&mut w2, bw.as_slice(), aw.as_slice());
                proof {
                    let wv = value_of(w2@);
                    assert(wv == big_b - big_a) by {
                        lemma_weight_pos(n as nat);
                    }
                    lemma_fit_sum(wv, nbits(big_a), lo as int);
                    lemma_window_zero(bn, wv, lo as int, prec as nat, rnd);
                }
                Float::from_window(bn, w2.as_slice(), lo, false, prec, rnd)
            }
        }
    }

    pub fn from_u64(v: u64) -> (r: Float)
        ensures
            r.small(),
            r.val() == v as real,
            r.nlimbs() <= 1,
            !r.sign(),
            v > 0 ==> r.ex() == nbits(v as nat) && r.low() >= -63 && r.mant() > 0,
            r.within(64),
    {
        let mut m: Vec<Limb> = Vec::new();
        m.push(v);
        proof {
            assert(m@ =~= seq![v]);
            lemma_value_single(v);
            lemma_nbits_bounds(v as nat);
            lemma2_to64_rest();
            lemma_pow2_64();
            if nbits(v as nat) > 64 {
                lemma_pow2_increases_le(64, (nbits(v as nat) - 1) as nat);
            }
            lemma_pow2r_nat(0);
            lemma2_to64();
        }
        let r = Float::from_mantissa(false, m.as_slice(), 0);
        proof {
            assert((v as nat) as real * 1real == v as real);
        }
        r
    }

    pub fn from_i64(v: i64) -> (r: Float)
        ensures
            r.small(),
            r.within(64),
            r.val() == v as real,
    {
        let m: u64 = if v < 0 {
            (-(v as i128)) as u64
        } else {
            v as u64
        };
        let f = Float::from_u64(m);
        if v < 0 {
            proof {
                f.lemma_val_sign();
                f.lemma_val_abs();
            }
            let r = Float { neg: true, exp: f.exp, limbs: f.limbs };
            proof {
                r.lemma_val_abs();
                assert(f.mant() > 0) by {
                    f.lemma_val_zero();
                }
            }
            r
        } else {
            f
        }
    }

    /// Exact conversion of a nonnegative limb integer.
    pub fn from_limbs(a: &[Limb]) -> (r: Float)
        requires
            a@.len() <= 0x400_0000,
        ensures
            r.small(),
            r.val() == value_of(a@) as real,
            r.within((64 * a@.len() + 64) as int),
    {
        proof {
            lemma_value_bound(a@);
            lemma_nbits_bounds(value_of(a@));
            if nbits(value_of(a@)) > 64 * a@.len() {
                lemma_pow2_increases_le(64 * a@.len(), (nbits(value_of(a@)) - 1) as nat);
            }
            lemma_pow2r_nat(0);
            lemma2_to64();
        }
        let r = Float::from_mantissa(false, a, 0);
        proof {
            assert(value_of(a@) as real * 1real == value_of(a@) as real);
            r.lemma_mant_bounds();
        }
        r
    }

    pub fn neg_assign(&mut self)
        requires
            old(self).wf(),
        ensures
            final(self).wf(),
            final(self).val() == -old(self).val(),
            final(self).mant() == old(self).mant(),
            final(self).low() == old(self).low(),
            final(self).ex() == old(self).ex(),
            final(self).mant() > 0 ==> final(self).sign() == !old(self).sign(),
    {
        proof {
            self.lemma_mant_bounds();
            self.lemma_val_abs();
            self.lemma_val_zero();
        }
        if self.limbs.len() != 0 {
            self.neg = !self.neg;
        }
        proof {
            self.lemma_val_abs();
        }
    }

    pub fn neg(&self) -> (r: Float)
        requires
            self.wf(),
        ensures
            r.wf(),
            r.val() == -self.val(),
            r.mant() == self.mant(),
            r.low() == self.low(),
            r.ex() == self.ex(),
            r.mant() > 0 ==> r.sign() == !self.sign(),
            self.small() ==> r.small(),
    {
        let mut r = self.copy();
        r.neg_assign();
        r
    }

    pub fn abs(&self) -> (r: Float)
        requires
            self.wf(),
        ensures
            r.wf(),
            r.val() == (if self.val() < 0real {
                -self.val()
            } else {
                self.val()
            }),
            !r.sign(),
            r.mant() == self.mant(),
            r.low() == self.low(),
            r.ex() == self.ex(),
            self.small() ==> r.small(),
    {
        proof {
            self.lemma_val_abs();
            self.lemma_val_sign();
        }
        let r = Float { neg: false, exp: self.exp, limbs: mpn::copy_limbs(self.limbs.as_slice()) };
        proof {
            r.lemma_val_abs();
        }
        r
    }

    /// Exact scaling by a power of two.
    pub fn mul_2exp(&self, k: i64) -> (r: Float)
        requires
            self.wf(),
            self.mant() > 0 ==> -EXP_MAX <= self.low() + k && self.ex() + k <= EXP_MAX,
        ensures
            r.wf(),
            r.val() == self.val() * pow2r(k as int),
            r.mant() == self.mant(),
            r.sign() == self.sign(),
            r.nlimbs() == self.nlimbs(),
            self.mant() > 0 ==> r.low() == self.low() + k && r.ex() == self.ex() + k,
            self.mant() == 0 ==> r.val() == 0real,
    {
        proof {
            self.lemma_mant_bounds();
            self.lemma_val_zero();
        }
        if self.limbs.len() == 0 {
            proof {
                assert(self.val() * pow2r(k as int) == 0real);
            }
            return self.copy();
        }
        let r = Float { neg: self.neg, exp: self.exp + k, limbs: mpn::copy_limbs(self.limbs.as_slice()) };
        proof {
            lemma_pow2r_add(self.low(), k as int);
            let x = self.sm() as real;
            assert(x * pow2r(self.low() + k) == x * pow2r(self.low()) * pow2r(k as int)) by (nonlinear_arith)
                requires
                    pow2r(self.low() + k) == pow2r(self.low()) * pow2r(k as int),
            ;
        }
        r
    }

    /// Sign as -1 / 0 / +1.
    pub fn signum(&self) -> (r: i32)
        requires
            self.wf(),
        ensures
            r == 0 <==> self.val() == 0real,
            r == -1 <==> self.val() < 0real,
            r == 1 <==> self.val() > 0real,
    {
        proof {
            self.lemma_val_zero();
            self.lemma_val_sign();
            self.lemma_mant_bounds();
        }
        if self.limbs.len() == 0 {
            0
        } else if self.neg {
            -1
        } else {
            1
        }
    }

    /// Exponent of one unit in the last place for a `prec`-bit rounding of
    /// this number: `ulp = 2^(exponent - prec)`.
    pub fn ulp_exp(&self, prec: u32) -> (r: Option<i64>)
        requires
            self.wf(),
        ensures
            r == (if self.mant() == 0 {
                None
            } else {
                Some((self.ex() - prec) as i64)
            }),
    {
        match self.exponent() {
            None => None,
            Some(e) => Some(e - prec as i64),
        }
    }

    /// Top `n` fraction bits (1 ≤ n ≤ 64) as an integer in `[2^(n-1), 2^n)`;
    /// zero for a zero value.
    pub fn top_bits(&self, n: u32) -> (r: u64)
        requires
            self.wf(),
            1 <= n <= 64,
        ensures
            self.mant() == 0 ==> r == 0,
            self.mant() > 0 ==> r == self.mant() / pow2((64 * self.nlimbs() - n) as nat),
            self.mant() > 0 ==> pow2((n - 1) as nat) <= r < pow2(n as nat),
    {
        proof {
            self.lemma_mant_bounds();
        }
        if self.limbs.len() == 0 {
            return 0;
        }
        let top = self.limbs[self.limbs.len() - 1];
        let r = top >> (64 - n);
        proof {
            let s = self.limbs@;
            let k = (s.len() - 1) as nat;
            lemma_value_split(s, k as int);
            assert(s.skip(k as int) =~= seq![top]);
            lemma_value_single(top);
            lemma_value_bound(s.take(k as int));
            // mant / 2^(64 k) = top
            lemma_pow2_pos(64 * k);
            assert(self.mant() == value_of(s.take(k as int)) + pow2(64 * k) * top);
            lemma_fundamental_div_mod_converse(
                self.mant() as int,
                pow2(64 * k) as int,
                top as int,
                value_of(s.take(k as int)) as int,
            );
            lemma_pow2_pos((64 - n) as nat);
            lemma_div_denominator(self.mant() as int, pow2(64 * k) as int, pow2((64 - n) as nat) as int);
            lemma_pow2_adds(64 * k, (64 - n) as nat);
            assert(64 * k + (64 - n) as nat == (64 * self.nlimbs() - n) as nat);
            assert(r == (top as nat) / pow2((64 - n) as nat)) by {
                vstd::bits::lemma_u64_shr_is_div(top, (64 - n) as u64);
            }
            assert(top >= 0x8000_0000_0000_0000u64);
            lemma2_to64();
            lemma2_to64_rest();
            assert(pow2((n - 1) as nat) <= r < pow2(n as nat)) by {
                lemma_top_bits_range(top, n);
            }
        }
        r
    }

    /// `self * other`, rounded to `prec` bits. Returns (result, inexact).
    pub fn mul(&self, other: &Float, prec: u32, rnd: Round) -> (res: (Float, bool))
        requires
            self.small(),
            other.small(),
            prec >= 2,
        ensures
            res.0.wf(),
            res.0.nlimbs() <= (prec + 64) / 64,
            res.0.val() == rounded(self.sm() * other.sm(), self.low() + other.low(), prec as nat, rnd),
            res.1 == round_inexact(self.mant() * other.mant(), false, prec as nat),
            res.0.mant() > 0 ==> res.0.low() >= self.low() + other.low() - 63 && res.0.ex() <= self.ex()
                + other.ex() + 1,
    {
        proof {
            self.lemma_mant_bounds();
            other.lemma_mant_bounds();
            self.lemma_nbits_mant();
            other.lemma_nbits_mant();
        }
        if self.limbs.len() == 0 || other.limbs.len() == 0 {
            proof {
                assert(self.sm() * other.sm() == 0) by (nonlinear_arith)
                    requires
                        self.mant() == 0 || other.mant() == 0,
                        self.sm() == 0 <==> self.mant() == 0,
                        other.sm() == 0 <==> other.mant() == 0,
                ;
                assert(self.mant() * other.mant() == 0) by (nonlinear_arith)
                    requires
                        self.mant() == 0 || other.mant() == 0,
                ;
                lemma_window_zero(false, 0, self.low() + other.low(), prec as nat, rnd);
                lemma_nbits_bounds(0);
                lemma2_to64();
                lemma_small_mod(0, 1);
            }
            return (Float::zero(), false);
        }
        let neg = self.neg != other.neg;
        let na = self.limbs.len();
        let nb = other.limbs.len();
        let mut w = mpn::zeros(na + nb);
        mpn::mul(&mut w, self.limbs.as_slice(), other.limbs.as_slice());
        let la = self.exp as i128 - 64 * (na as i128);
        let lb = other.exp as i128 - 64 * (nb as i128);
        proof {
            let ma = self.mant();
            let mb = other.mant();
            lemma_nbits_bounds(ma);
            lemma_nbits_bounds(mb);
            lemma_pow2_adds(nbits(ma), nbits(mb));
            assert(ma * mb < pow2(nbits(ma)) * pow2(nbits(mb))) by {
                lemma_mul_strict_inequality(ma as int, pow2(nbits(ma)) as int, mb as int);
                lemma_mul_strict_inequality(mb as int, pow2(nbits(mb)) as int, pow2(nbits(ma)) as int);
                lemma_mul_is_commutative(mb as int, pow2(nbits(ma)) as int);
            }
            lemma_nbits_bounds(ma * mb);
            if nbits(ma * mb) > nbits(ma) + nbits(mb) {
                lemma_pow2_increases_le(nbits(ma) + nbits(mb), (nbits(ma * mb) - 1) as nat);
            }
            assert(ma * mb > 0) by (nonlinear_arith)
                requires
                    ma > 0,
                    mb > 0,
            ;
            assert(self.sm() * other.sm() < 0 <==> neg) by (nonlinear_arith)
                requires
                    self.sm() == (if self.neg {
                        -(ma as int)
                    } else {
                        ma as int
                    }),
                    other.sm() == (if other.neg {
                        -(mb as int)
                    } else {
                        mb as int
                    }),
                    ma > 0,
                    mb > 0,
                    neg == (self.neg != other.neg),
            ;
            assert(abs_int(self.sm() * other.sm()) == ma * mb) by (nonlinear_arith)
                requires
                    self.sm() == (if self.neg {
                        -(ma as int)
                    } else {
                        ma as int
                    }),
                    other.sm() == (if other.neg {
                        -(mb as int)
                    } else {
                        mb as int
                    }),
            ;
        }
        Float::from_window(neg, w.as_slice(), la + lb, false, prec, rnd)
    }

    /// `self * m` for a small unsigned integer, rounded to `prec` bits.
    pub fn mul_u64(&self, m: u64, prec: u32, rnd: Round) -> (res: (Float, bool))
        requires
            self.small(),
            prec >= 2,
        ensures
            res.0.wf(),
            res.0.nlimbs() <= (prec + 64) / 64,
            res.0.val() == rounded(self.sm() * m, self.low(), prec as nat, rnd),
            res.1 == round_inexact(self.mant() * (m as nat), false, prec as nat),
            res.0.mant() > 0 ==> res.0.low() >= self.low() - 127 && res.0.ex() <= self.ex() + 65,
    {
        let f = Float::from_u64(m);
        let res = self.mul(&f, prec, rnd);
        proof {
            let x = self.sm();
            let y = f.sm();
            lemma_int_mul_real(x, y);
            lemma_int_mul_real(x, m as int);
            lemma_pow2r_add(self.low(), f.low());
            let p = pow2r(self.low());
            let q = pow2r(f.low());
            assert((x * y) as real * pow2r(self.low() + f.low()) == (x * m) as real * p) by (nonlinear_arith)
                requires
                    (x * y) as real == x as real * y as real,
                    (x * m) as real == x as real * m as real,
                    pow2r(self.low() + f.low()) == p * q,
                    y as real * q == m as real,
            ;
            lemma_rounded_value(x * y, self.low() + f.low(), x * m, self.low(), prec as nat, rnd);
            assert(abs_int(x * y) == self.mant() * f.mant()) by (nonlinear_arith)
                requires
                    x == (if self.neg {
                        -(self.mant() as int)
                    } else {
                        self.mant() as int
                    }),
                    y == f.mant(),
            ;
            assert(abs_int(x * m) == self.mant() * (m as nat)) by (nonlinear_arith)
                requires
                    x == (if self.neg {
                        -(self.mant() as int)
                    } else {
                        self.mant() as int
                    }),
            ;
        }
        res
    }

    /// `self / other`, rounded to `prec` bits.
    #[verifier::rlimit(40)]
    pub fn div(&self, other: &Float, prec: u32, rnd: Round) -> (res: (Float, bool))
        requires
            self.small(),
            other.small(),
            prec >= 2,
            other.mant() > 0,
        ensures
            res.0.wf(),
            res.0.nlimbs() <= (prec + 64) / 64,
            res.0.val() == window_val(
                self.sign() != other.sign(),
                div_quo(*self, *other, prec as nat),
                div_bot(*self, *other, prec as nat),
                div_sticky(*self, *other, prec as nat),
                prec as nat,
                rnd.mag_spec(self.sign() != other.sign()),
            ),
            res.1 == round_inexact(
                div_quo(*self, *other, prec as nat),
                div_sticky(*self, *other, prec as nat),
                prec as nat,
            ),
            res.0.mant() > 0 ==> res.0.low() >= div_bot(*self, *other, prec as nat) - 63 && res.0.ex()
                <= self.ex() - other.ex() + 2,
            div_sticky(*self, *other, prec as nat) ==> nbits(div_quo(*self, *other, prec as nat)) > prec,
    {
        let ghost sh = div_shift(self.nlimbs(), other.nlimbs(), prec as nat);
        proof {
            self.lemma_mant_bounds();
            other.lemma_mant_bounds();
            lemma_weight_pos(sh);
        }
        if self.limbs.len() == 0 {
            proof {
                lemma_mul_basics(limb_weight(sh) as int);
                lemma2_to64();
                lemma_small_mod(0, 1);
                assert(self.mant() * limb_weight(sh) == 0);
                lemma_basic_div_specific_divisor(other.mant() as int);
                lemma_small_mod(0, other.mant());
                lemma_window_zero(
                    self.sign() != other.sign(),
                    0,
                    div_bot(*self, *other, prec as nat),
                    prec as nat,
                    rnd,
                );
                lemma_nbits_bounds(0);
            }
            return (Float::zero(), false);
        }
        let neg = self.neg != other.neg;
        let na = self.limbs.len();
        let nb = other.limbs.len();
        let nl = ((prec as u64 + 63) / 64) as usize;
        let qn = nl + 2;
        let s = if qn + nb > na {
            qn + nb - na
        } else {
            0
        };
        assert(s == sh);
        let mut num = mpn::zeros(s);
        let ghost z = num@;
        let mut i: usize = 0;
        while i < na
            invariant
                i <= na,
                na == self.limbs@.len(),
                z.len() == s,
                num@ =~= z + self.limbs@.take(i as int),
            decreases na - i,
        {
            num.push(self.limbs[i]);
            i = i + 1;
            proof {
                assert(self.limbs@.take(i as int) =~= self.limbs@.take(i - 1).push(self.limbs@[i - 1]));
            }
        }
        proof {
            assert(self.limbs@.take(na as int) =~= self.limbs@);
            crate::limb_spec::lemma_value_concat(z, self.limbs@);
            lemma_value_all_zero(z);
            assert(value_of(num@) == self.mant() * limb_weight(sh)) by {
                lemma_mul_is_commutative(self.mant() as int, limb_weight(sh) as int);
            }
        }
        let (q, r) = mpn::divrem(num.as_slice(), other.limbs.as_slice());
        let la = self.exp as i128 - 64 * (na as i128);
        let lb = other.exp as i128 - 64 * (nb as i128);
        let bot = la - lb - 64 * (s as i128);
        let sticky = r.len() != 0;
        proof {
            let big_n = value_of(num@);
            let mb = other.mant();
            let qv = value_of(q@);
            lemma_fundamental_div_mod_converse(
                big_n as int,
                mb as int,
                qv as int,
                value_of(r@) as int,
            );
            assert(qv == div_quo(*self, *other, prec as nat));
            if r@.len() > 0 {
                lemma_value_lower(r@);
                lemma_weight_pos((r@.len() - 1) as nat);
            } else {
                assert(r@ =~= Seq::<u64>::empty());
            }
            assert(sticky == div_sticky(*self, *other, prec as nat));
            // digit count of the quotient
            lemma_div_digits(self.mant(), na as nat, mb, nb as nat, sh, nl as nat);
            lemma_nbits_bounds(qv);
            lemma_pow2_increases_le(nbits(qv), 64 * (na as nat + sh + 1));
            lemma_normalized_len_bound(q@, na as nat + sh + 1);
        }
        Float::from_window(neg, q.as_slice(), bot, sticky, prec, rnd)
    }

    /// `sqrt(self)`, rounded to `prec` bits.
    #[verifier::spinoff_prover]
    #[verifier::rlimit(40)]
    pub fn sqrt(&self, prec: u32, rnd: Round) -> (res: (Float, bool))
        requires
            self.small(),
            prec >= 2,
            !self.sign(),
        ensures
            res.0.wf(),
            res.0.nlimbs() <= (prec + 64) / 64,
            res.0.val() == window_val(
                false,
                isqrt_spec(sqrt_radicand(*self, prec as nat)),
                sqrt_bot(*self, prec as nat),
                isqrt_spec(sqrt_radicand(*self, prec as nat)) * isqrt_spec(
                    sqrt_radicand(*self, prec as nat),
                ) != sqrt_radicand(*self, prec as nat),
                prec as nat,
                rnd.mag_spec(false),
            ),
            res.1 == round_inexact(
                isqrt_spec(sqrt_radicand(*self, prec as nat)),
                isqrt_spec(sqrt_radicand(*self, prec as nat)) * isqrt_spec(
                    sqrt_radicand(*self, prec as nat),
                ) != sqrt_radicand(*self, prec as nat),
                prec as nat,
            ),
            res.0.mant() > 0 ==> res.0.low() >= sqrt_bot(*self, prec as nat) - 63 && res.0.ex()
                <= self.ex() / 2 + 3,
            self.mant() > 0 ==> nbits(isqrt_spec(sqrt_radicand(*self, prec as nat))) > prec,
            res.0.val() >= 0real,
            rnd == Round::Floor || rnd == Round::Down ==> res.0.val() * res.0.val() <= self.val(),
            rnd == Round::Ceil || rnd == Round::Up ==> res.0.val() * res.0.val() >= self.val(),
            !res.1 ==> res.0.val() * res.0.val() == self.val(),
            res.1 ==> res.0.val() * res.0.val() != self.val(),
    {
        let ghost t_s = sqrt_t(self.nlimbs(), prec as nat);
        let ghost big_x = sqrt_radicand(*self, prec as nat);
        proof {
            self.lemma_mant_bounds();
            self.lemma_nbits_mant();
            lemma_weight_pos(2 * t_s);
        }
        if self.limbs.len() == 0 {
            proof {
                lemma_mul_basics(limb_weight(2 * t_s) as int);
                assert(big_x == 0);
                assert(isqrt_spec(0) == 0);
                lemma2_to64();
                lemma_small_mod(0, 1);
                lemma_window_zero(false, 0, sqrt_bot(*self, prec as nat), prec as nat, rnd);
                lemma_nbits_bounds(0);
            }
            return (Float::zero(), false);
        }
        let na = self.limbs.len();
        let nl = ((prec as u64 + 63) / 64) as i64;
        let mut e: i128 = self.exp as i128 - 64 * (na as i128);
        let v = nl + 2 - (na as i64) / 2;
        let t = (if v > 0 {
            v
        } else {
            0
        }) as usize + 1;
        assert(t == t_s);
        let odd = e % 2 != 0;
        let mut scaled = mpn::zeros(2 * t);
        let ghost z = scaled@;
        let mut i: usize = 0;
        while i < na
            invariant
                i <= na,
                na == self.limbs@.len(),
                z.len() == 2 * t,
                scaled@ =~= z + self.limbs@.take(i as int),
            decreases na - i,
        {
            scaled.push(self.limbs[i]);
            i = i + 1;
            proof {
                assert(self.limbs@.take(i as int) =~= self.limbs@.take(i - 1).push(self.limbs@[i - 1]));
            }
        }
        proof {
            assert(self.limbs@.take(na as int) =~= self.limbs@);
            crate::limb_spec::lemma_value_concat(z, self.limbs@);
            lemma_value_all_zero(z);
            assert(value_of(scaled@) == self.mant() * limb_weight(2 * t_s)) by {
                lemma_mul_is_commutative(self.mant() as int, limb_weight(2 * t_s) as int);
            }
            assert(odd == sqrt_odd(*self));
        }
        if odd {
            let src = mpn::copy_limbs(scaled.as_slice());
            let carry = mpn::lshift(&mut scaled, src.as_slice(), 1);
            let ghost before = scaled@;
            if carry != 0 {
                scaled.push(carry);
            }
            proof {
                lemma2_to64();
                if carry != 0 {
                    lemma_value_push(before, carry);
                } else {
                    assert(scaled@ == before);
                }
                assert(value_of(scaled@) == big_x);
            }
            e = e - 1;
        } else {
            proof {
                assert(value_of(scaled@) == big_x);
            }
        }
        let (s, exact) = isqrt(scaled.as_slice());
        let bot = e / 2 - 64 * (t as i128);
        proof {
            assert(bot == sqrt_bot(*self, prec as nat));
            lemma_sqrt_digits(self.mant(), na as nat, t_s, nl as nat, big_x, sqrt_odd(*self));
            lemma_isqrt(big_x);
            let sv = isqrt_spec(big_x);
            lemma_nbits_bounds(sv);
            lemma_pow2_increases_le(nbits(sv), 64 * (32 * na as nat + 64 * t_s + 1));
            lemma_normalized_len_bound(s@, 32 * na as nat + 64 * t_s + 1);
        }
        let res = Float::from_window(false, s.as_slice(), bot, !exact, prec, rnd);
        proof {
            lemma_sqrt_directed(*self, prec as nat, rnd, res.0.val(), res.1);
            lemma_sqrt_inexact(*self, prec as nat, rnd, res.0.val(), res.1);
        }
        res
    }

    /// Three-way comparison of magnitudes: −1, 0 or 1.
    fn compare_abs(&self, other: &Float) -> (r: i8)
        requires
            self.wf(),
            other.wf(),
        ensures
            r == -1 <==> self.mag() < other.mag(),
            r == 0 <==> self.mag() == other.mag(),
            r == 1 <==> self.mag() > other.mag(),
    {
        proof {
            self.lemma_mant_bounds();
            other.lemma_mant_bounds();
            lemma_pow2r_pos(self.low());
            lemma_pow2r_pos(other.low());
            lemma_mag_zero(self.mant(), self.low());
            lemma_mag_zero(other.mant(), other.low());
        }
        let za = self.limbs.len() == 0;
        let zb = other.limbs.len() == 0;
        if za && zb {
            return 0;
        }
        if za {
            return -1;
        }
        if zb {
            return 1;
        }
        if self.exp != other.exp {
            proof {
                self.lemma_exponent_bounds();
                other.lemma_exponent_bounds();
                if self.exp < other.exp {
                    lemma_pow2r_le(self.exp as int, other.exp - 1);
                } else {
                    lemma_pow2r_le(other.exp as int, self.exp - 1);
                }
            }
            return if self.exp < other.exp {
                -1
            } else {
                1
            };
        }
        let la: i128 = self.exp as i128 - 64 * (self.limbs.len() as i128);
        let lb: i128 = other.exp as i128 - 64 * (other.limbs.len() as i128);
        let lo = if la <= lb {
            la
        } else {
            lb
        };
        let mut aw = window::shl_bits(self.limbs.as_slice(), (la - lo) as u64);
        let mut bw = window::shl_bits(other.limbs.as_slice(), (lb - lo) as u64);
        proof {
            lemma_rescale(value_of(aw@), lo as int, self.mant(), self.low(), (la - lo) as nat);
            lemma_rescale(value_of(bw@), lo as int, other.mant(), other.low(), (lb - lo) as nat);
        }
        mpn::normalize_vec(&mut aw);
        mpn::normalize_vec(&mut bw);
        let r = mpn::compare(aw.as_slice(), bw.as_slice());
        proof {
            lemma_pow2r_pos(lo as int);
            let p = pow2r(lo as int);
            let x = value_of(aw@) as real;
            let y = value_of(bw@) as real;
            assert(x * p < y * p <==> x < y) by (nonlinear_arith)
                requires
                    p > 0real,
            ;
            assert(x * p == y * p <==> x == y) by (nonlinear_arith)
                requires
                    p > 0real,
            ;
            lemma_real_cast_order(value_of(aw@) as int, value_of(bw@) as int);
        }
        r
    }

    /// Compare by magnitude.
    pub fn cmp_abs(&self, other: &Float) -> (ord: Ordering)
        requires
            self.wf(),
            other.wf(),
        ensures
            ord == Ordering::Less <==> self.mag() < other.mag(),
            ord == Ordering::Equal <==> self.mag() == other.mag(),
            ord == Ordering::Greater <==> self.mag() > other.mag(),
    {
        let r = self.compare_abs(other);
        if r < 0 {
            Ordering::Less
        } else if r == 0 {
            Ordering::Equal
        } else {
            Ordering::Greater
        }
    }

    /// Three-way comparison of values: −1, 0 or 1.
    pub(crate) fn compare_val(&self, other: &Float) -> (r: i8)
        requires
            self.wf(),
            other.wf(),
        ensures
            r == -1 <==> self.val() < other.val(),
            r == 0 <==> self.val() == other.val(),
            r == 1 <==> self.val() > other.val(),
    {
        proof {
            self.lemma_val_abs();
            other.lemma_val_abs();
            self.lemma_val_sign();
            other.lemma_val_sign();
            self.lemma_val_zero();
            other.lemma_val_zero();
            self.lemma_mant_bounds();
            other.lemma_mant_bounds();
        }
        let za = self.limbs.len() == 0;
        let zb = other.limbs.len() == 0;
        if za && zb {
            return 0;
        }
        if za {
            return if other.neg {
                1
            } else {
                -1
            };
        }
        if zb {
            return if self.neg {
                -1
            } else {
                1
            };
        }
        if !self.neg && other.neg {
            1
        } else if self.neg && !other.neg {
            -1
        } else if !self.neg {
            self.compare_abs(other)
        } else {
            other.compare_abs(self)
        }
    }

    /// Total order (-inf .. +inf).
    pub fn cmp(&self, other: &Float) -> (ord: Ordering)
        requires
            self.wf(),
            other.wf(),
        ensures
            ord == Ordering::Less <==> self.val() < other.val(),
            ord == Ordering::Equal <==> self.val() == other.val(),
            ord == Ordering::Greater <==> self.val() > other.val(),
    {
        let r = self.compare_val(other);
        if r < 0 {
            Ordering::Less
        } else if r == 0 {
            Ordering::Equal
        } else {
            Ordering::Greater
        }
    }

    /// Rounds the window `value(w) · 2^bot` — plus, when `sticky`, a positive
    /// amount below `2^bot` — to `prec` bits. This is the only place where a
    /// result loses digits.
    fn from_window(neg: bool, w: &[Limb], bot: i128, sticky: bool, prec: u32, rnd: Round) -> (res: (
        Float,
        bool,
    ))
        requires
            prec >= 2,
            w@.len() < 0x100_0000_0000_0000,
            sticky ==> nbits(value_of(w@)) > prec,
            value_of(w@) > 0 ==> -EXP_MAX + 64 <= bot && bot + nbits(value_of(w@)) + 1 <= EXP_MAX,
            value_of(w@) > 0 && !sticky && nbits(value_of(w@)) <= prec ==> bot + nbits(
                value_of(w@),
            ) <= EXP_MAX,
        ensures
            res.0.wf(),
            res.0.val() == window_val(neg, value_of(w@), bot as int, sticky, prec as nat, rnd.mag_spec(neg)),
            res.1 == round_inexact(value_of(w@), sticky, prec as nat),
            value_of(w@) == 0 ==> res.0.mant() == 0,
            value_of(w@) > 0 ==> res.0.mant() > 0 && res.0.neg == neg && res.0.exp == bot
                + round_shift(value_of(w@), prec as nat) + nbits(
                round_digits(value_of(w@), sticky, prec as nat, rnd.mag_spec(neg)),
            ),
            res.0.limbs@.len() <= (prec + 64) / 64,
            value_of(w@) > 0 ==> res.0.low() >= bot - 63 && res.0.exp <= bot + nbits(value_of(w@)) + 1,
    {
        let ghost big_w = value_of(w@);
        let ghost mode = rnd.mag_spec(neg);
        let mode_x = rnd.mag(neg);
        let l = mpn::bit_len(w);
        proof {
            lemma2_to64();
            lemma_nbits_bounds(big_w);
            if l > 0 {
                lemma_nbits_unique(big_w, l as nat);
            } else {
                assert(big_w == 0);
            }
        }
        if l <= prec as u64 {
            // Exact: nothing below the kept digits.
            proof {
                assert(round_shift(big_w, prec as nat) == 0);
                assert(big_w / 1 == big_w);
                assert(big_w % 1 == 0);
                assert(round_digits(big_w, sticky, prec as nat, mode) == big_w);
                assert((prec + 63) / 64 <= (prec + 64) / 64);
            }
            let r = Float::from_mantissa(neg, w, bot);
            return (r, false);
        }
        let s = l - prec as u64;
        let (q1, low_bits) = window::shr_bits(w, s - 1);
        let (q, round_bit) = window::shr_bits(&q1, 1);
        let odd = q.len() > 0 && q[0] & 1 == 1;
        let ghost r1 = big_w % pow2((s - 1) as nat);
        let ghost qv = value_of(q@);
        proof {
            lemma_pow2_pos((s - 1) as nat);
            lemma_fundamental_div_mod(big_w as int, pow2((s - 1) as nat) as int);
            lemma_mod_bound(big_w as int, pow2((s - 1) as nat) as int);
            let q1v = value_of(q1@);
            lemma_fundamental_div_mod(q1v as int, 2);
            assert(pow2(1) == 2) by {
                lemma2_to64();
            }
            window::lemma_split_divmod(r1, q1v, qv, q1v % 2, (s - 1) as nat, 1);
            assert(big_w == r1 + pow2((s - 1) as nat) * q1v) by {
                lemma_mul_is_commutative(q1v as int, pow2((s - 1) as nat) as int);
            }
            assert((s - 1) as nat + 1 == s as nat);
            lemma_parity(q@);
            lemma_nbits_bounds(big_w);
        }
        let inc = match mode_x {
            MagRound::Down => false,
            MagRound::Up => round_bit || low_bits || sticky,
            MagRound::Nearest => round_bit && (low_bits || sticky || odd),
        };
        let inexact = round_bit || low_bits || sticky;
        proof {
            let half = pow2((s - 1) as nat);
            let rem = big_w % pow2(s as nat);
            assert(rem == (value_of(q1@) % 2) * half + r1);
            assert(round_bit == (value_of(q1@) % 2 != 0));
            assert(round_shift(big_w, prec as nat) == s);
            assert(qv == big_w / pow2(s as nat));
            assert(rem > half <==> round_bit && low_bits);
            assert(rem == half <==> round_bit && !low_bits);
            assert(rem > 0 <==> round_bit || low_bits);
            assert(round_up_needed(big_w, sticky, prec as nat, mode) == inc);
            // the kept digits fit in prec bits
            lemma_pow2_adds(prec as nat, s as nat);
            assert(l == s + prec);
            assert(big_w < pow2(s as nat) * pow2(prec as nat)) by {
                lemma_mul_is_commutative(pow2(s as nat) as int, pow2(prec as nat) as int);
            }
            mpn::lemma_div_strictly_bounded(big_w as int, pow2(s as nat) as int, pow2(prec as nat) as int);
            // at least one kept digit
            lemma_fundamental_div_mod(big_w as int, pow2(s as nat) as int);
            lemma_mod_bound(big_w as int, pow2(s as nat) as int);
            lemma_pow2_increases_le(s as nat, (l - 1) as nat);
            if qv == 0 {
                assert(big_w == big_w % pow2(s as nat)) by {
                    lemma_mul_basics(pow2(s as nat) as int);
                }
            }
            assert(qv > 0);
        }
        if inc {
            let mut t = mpn::zeros(q.len());
            let c = mpn::add_1(&mut t, &q, 1);
            let ghost t0 = t@;
            t.push(c);
            proof {
                lemma_value_push(t0, c);
                assert(value_of(t@) == qv + 1);
                lemma_nbits_bounds(qv + 1);
                if nbits(qv + 1) > prec + 1 {
                    lemma_pow2_increases_le((prec + 1) as nat, (nbits(qv + 1) - 1) as nat);
                    lemma_pow2_adds(prec as nat, 1);
                }
                assert(nbits((qv + 1) as nat) <= prec + 1);
                assert(round_digits(big_w, sticky, prec as nat, mode) == qv + 1);
            }
            let r = Float::from_mantissa(neg, &t, bot + s as i128);
            proof {
                assert((prec + 1 + 63) / 64 <= (prec + 64) / 64);
            }
            (r, inexact)
        } else {
            proof {
                lemma_nbits_bounds(qv);
                if nbits(qv) > prec {
                    lemma_pow2_increases_le(prec as nat, (nbits(qv) - 1) as nat);
                }
                assert((prec + 63) / 64 <= (prec + 64) / 64);
                assert(round_digits(big_w, sticky, prec as nat, mode) == qv);
            }
            let r = Float::from_mantissa(neg, &q, bot + s as i128);
            (r, inexact)
        }
    }
}

/// Rounding zero gives zero, whatever the sign.
pub proof fn lemma_window_zero(neg: bool, m: nat, bot: int, prec: nat, rnd: Round)
    ensures
        m == 0 ==> window_val(neg, m, bot, false, prec, rnd.mag_spec(neg)) == 0real,
        m == 0 ==> rounded(0, bot, prec, rnd) == 0real,
        m > 0 ==> rounded(
            if neg {
                -(m as int)
            } else {
                m as int
            },
            bot,
            prec,
            rnd,
        ) == window_val(neg, m, bot, false, prec, rnd.mag_spec(neg)),
{
    if m == 0 {
        lemma_nbits_bounds(0);
        lemma2_to64();
        assert(round_shift(0, prec) == 0);
        assert(round_digits(0, false, prec, rnd.mag_spec(neg)) == 0);
        assert(round_digits(0, false, prec, rnd.mag_spec(false)) == 0);
        let p = pow2r(bot + 0);
        assert(0real * p == 0real) by (nonlinear_arith);
    }
}

/// Rounding depends on the value only: shifting digits into the exponent
/// changes nothing.
pub proof fn lemma_window_scale(neg: bool, w: nat, k: nat, e: int, prec: nat, mode: MagRound)
    requires
        prec >= 1,
    ensures
        window_val(neg, w * pow2(k), e - k, false, prec, mode) == window_val(neg, w, e, false, prec, mode),
        round_inexact(w * pow2(k), false, prec) == round_inexact(w, false, prec),
{
    lemma_pow2_pos(k);
    lemma2_to64();
    let wk = w * pow2(k);
    if w == 0 {
        assert(wk == 0);
        return;
    }
    let n = nbits(w);
    lemma_nbits_scale(w, k);
    lemma_nbits_bounds(w);
    if n > prec {
        let s = (n - prec) as nat;
        lemma_pow2_pos(s);
        let q = w / pow2(s);
        let rem = w % pow2(s);
        lemma_fundamental_div_mod(w as int, pow2(s) as int);
        lemma_mod_bound(w as int, pow2(s) as int);
        assert(w == q * pow2(s) + rem) by {
            lemma_mul_is_commutative(q as int, pow2(s) as int);
        }
        crate::window::lemma_split_divmod(0, w, q, rem, k, s);
        assert(wk == 0 + pow2(k) * w) by {
            lemma_mul_is_commutative(w as int, pow2(k) as int);
        }
        assert(k + s == s + k);
        assert(round_shift(wk, prec) == s + k);
        let half = pow2((s - 1) as nat);
        lemma_pow2_adds((s - 1) as nat, k);
        assert((s - 1) as nat + k == (s + k - 1) as nat);
        let pk = pow2(k) as int;
        assert(rem * pk > half * pk <==> rem > half) by (nonlinear_arith)
            requires
                pk > 0,
        ;
        assert(rem * pk == half * pk <==> rem == half) by (nonlinear_arith)
            requires
                pk > 0,
        ;
        assert(rem * pk > 0 <==> rem > 0) by (nonlinear_arith)
            requires
                pk > 0,
        ;
        assert(round_digits(wk, false, prec, mode) == round_digits(w, false, prec, mode));
        assert(e - k + (s + k) == e + s);
    } else if n + k > prec {
        // the shifted digits are dropped again, exactly
        let s2 = (n + k - prec) as nat;
        let j = (k - s2) as nat;
        lemma_pow2_adds(j, s2);
        assert(wk == (w * pow2(j)) * pow2(s2)) by {
            lemma_mul_is_associative(w as int, pow2(j) as int, pow2(s2) as int);
        }
        lemma_pow2_pos(s2);
        lemma_div_multiples_vanish((w * pow2(j)) as int, pow2(s2) as int);
        lemma_mod_multiples_basic((w * pow2(j)) as int, pow2(s2) as int);
        assert(wk / pow2(s2) == w * pow2(j)) by {
            lemma_mul_is_commutative((w * pow2(j)) as int, pow2(s2) as int);
        }
        assert(wk % pow2(s2) == 0);
        assert(round_shift(wk, prec) == s2);
        lemma_pow2_pos((s2 - 1) as nat);
        assert(round_digits(wk, false, prec, mode) == w * pow2(j));
        assert(round_shift(w, prec) == 0);
        lemma_div_basics(w as int);
        lemma_small_mod(0, 1);
        assert(round_digits(w, false, prec, mode) == w);
        lemma_rescale(w * pow2(j), e - k + s2, w, e, j);
        assert(e - k + s2 + j == e);
    } else {
        assert(round_shift(wk, prec) == 0);
        lemma_div_basics(w as int);
        lemma_div_basics(wk as int);
        assert(round_digits(wk, false, prec, mode) == wk);
        assert(round_digits(w, false, prec, mode) == w);
        lemma_rescale(wk, e - k, w, e, k);
    }
}

/// Correct rounding depends on the exact value only, not on how it is
/// written as `m · 2^e`.
pub proof fn lemma_rounded_value(m1: int, e1: int, m2: int, e2: int, prec: nat, rnd: Round)
    requires
        prec >= 1,
        m1 as real * pow2r(e1) == m2 as real * pow2r(e2),
    ensures
        rounded(m1, e1, prec, rnd) == rounded(m2, e2, prec, rnd),
        round_inexact(abs_int(m1), false, prec) == round_inexact(abs_int(m2), false, prec),
    decreases (if e1 <= e2 {
        0int
    } else {
        1int
    }),
{
    if e1 > e2 {
        lemma_rounded_value(m2, e2, m1, e1, prec, rnd);
        return;
    }
    let k = (e2 - e1) as nat;
    lemma_pow2r_add(e1, k as int);
    lemma_pow2r_nat(k);
    lemma_pow2r_pos(e1);
    lemma_pow2_pos(k);
    let p1 = pow2r(e1);
    let q = pow2(k) as real;
    // m1 = m2 · 2^k
    assert(m1 as real == m2 as real * q) by (nonlinear_arith)
        requires
            m1 as real * p1 == m2 as real * (p1 * q),
            p1 > 0real,
    ;
    lemma_int_mul_real(m2, pow2(k) as int);
    assert(m1 == m2 * pow2(k)) by (nonlinear_arith)
        requires
            m1 as real == (m2 * pow2(k)) as real,
    ;
    let a2 = abs_int(m2);
    assert(abs_int(m1) == a2 * pow2(k)) by (nonlinear_arith)
        requires
            m1 == m2 * pow2(k),
            pow2(k) > 0,
            a2 == abs_int(m2),
    ;
    assert(m1 < 0 <==> m2 < 0) by (nonlinear_arith)
        requires
            m1 == m2 * pow2(k),
            pow2(k) > 0,
    ;
    lemma_window_scale(m2 < 0, a2, k, e2, prec, rnd.mag_spec(m2 < 0));
    assert(e2 - k == e1);
}

/// The top `n` bits of a limb with its top bit set.
proof fn lemma_top_bits_range(top: u64, n: u32)
    requires
        1 <= n <= 64,
        top >= 0x8000_0000_0000_0000u64,
    ensures
        pow2((n - 1) as nat) <= (top as nat) / pow2((64 - n) as nat) < pow2(n as nat),
{
    lemma_pow2_adds((n - 1) as nat, (64 - n) as nat);
    lemma_pow2_adds(n as nat, (64 - n) as nat);
    lemma2_to64();
    lemma2_to64_rest();
    assert((n - 1) as nat + (64 - n) as nat == 63);
    assert(n as nat + (64 - n) as nat == 64);
    lemma_pow2_pos((64 - n) as nat);
    let d = pow2((64 - n) as nat) as int;
    let t = top as int;
    let lo = pow2((n - 1) as nat) as int;
    let hi = pow2(n as nat) as int;
    lemma_fundamental_div_mod(t, d);
    lemma_mod_bound(t, d);
    assert(lo <= t / d < hi) by (nonlinear_arith)
        requires
            t == d * (t / d) + t % d,
            0 <= t % d < d,
            lo * d == 0x8000_0000_0000_0000,
            hi * d == 0x1_0000_0000_0000_0000,
            0x8000_0000_0000_0000 <= t < 0x1_0000_0000_0000_0000,
            d > 0,
    ;
}

/// The quotient `⌊ma · 2^(64 s) / mb⌋` of canonical mantissas has between
/// `64(na + s − nb)` and `64(na + s − nb) + 1` digits.
proof fn lemma_div_digits(ma: nat, na: nat, mb: nat, nb: nat, s: nat, nl: nat)
    requires
        na >= 1,
        nb >= 1,
        limb_weight((na - 1) as nat) * 0x8000_0000_0000_0000 <= ma < limb_weight(na),
        limb_weight((nb - 1) as nat) * 0x8000_0000_0000_0000 <= mb < limb_weight(nb),
        na + s >= nl + 2 + nb,
    ensures
        nbits((ma * limb_weight(s)) / mb) >= 64 * (nl + 2),
        nbits((ma * limb_weight(s)) / mb) <= 64 * (na + s - nb) + 1,
{
    let t = (64 * (na + s - nb)) as nat;
    lemma_weight_pos((nb - 1) as nat);
    assert(mb > 0) by (nonlinear_arith)
        requires
            limb_weight((nb - 1) as nat) * 0x8000_0000_0000_0000 <= mb,
            limb_weight((nb - 1) as nat) > 0,
    ;
    lemma2_to64();
    lemma2_to64_rest();
    lemma_pow2_adds(64 * (na - 1) as nat, 63);
    lemma_pow2_adds(64 * (nb - 1) as nat, 63);
    assert(64 * (na - 1) as nat + 63 == (64 * na - 1) as nat);
    assert(64 * (nb - 1) as nat + 63 == (64 * nb - 1) as nat);
    lemma_mul_is_commutative(limb_weight((na - 1) as nat) as int, 0x8000_0000_0000_0000int);
    lemma_mul_is_commutative(limb_weight((nb - 1) as nat) as int, 0x8000_0000_0000_0000int);
    let big_n = ma * limb_weight(s);
    lemma_weight_pos(s);
    lemma_pow2_adds((64 * na - 1) as nat, 64 * s);
    lemma_pow2_adds(64 * na, 64 * s);
    // 2^(64(na+s) − 1) <= N < 2^(64(na+s))
    let lo_n = pow2((64 * na - 1 + 64 * s) as nat);
    let hi_n = pow2((64 * na + 64 * s) as nat);
    assert(lo_n <= big_n) by {
        lemma_mul_inequality(pow2((64 * na - 1) as nat) as int, ma as int, pow2(64 * s) as int);
    }
    assert(big_n < hi_n) by {
        lemma_mul_strict_inequality(ma as int, pow2(64 * na) as int, pow2(64 * s) as int);
    }
    // lower bound: N >= 2^(t−1) · 2^(64 nb) > 2^(t−1) · mb
    lemma_pow2_adds((t - 1) as nat, 64 * nb);
    assert((t - 1) as nat + 64 * nb == (64 * na - 1 + 64 * s) as nat);
    let lo_q = pow2((t - 1) as nat);
    lemma_pow2_pos(64 * nb);
    assert(lo_q * mb <= big_n) by {
        lemma_mul_inequality(mb as int, pow2(64 * nb) as int, lo_q as int);
        lemma_mul_is_commutative(mb as int, lo_q as int);
        lemma_mul_is_commutative(pow2(64 * nb) as int, lo_q as int);
    }
    lemma_div_is_ordered((lo_q * mb) as int, big_n as int, mb as int);
    lemma_div_multiples_vanish(lo_q as int, mb as int);
    assert((mb * lo_q) as int / mb as int == lo_q);
    lemma_mul_is_commutative(mb as int, lo_q as int);
    let q = big_n / mb;
    assert(q >= lo_q);
    // upper bound: N < 2^(t+1) · 2^(64 nb − 1) <= 2^(t+1) · mb
    lemma_pow2_adds(t + 1, (64 * nb - 1) as nat);
    assert(t + 1 + (64 * nb - 1) as nat == (64 * na + 64 * s) as nat);
    let hi_q = pow2(t + 1);
    assert(big_n < hi_q * mb) by {
        lemma_mul_inequality(pow2((64 * nb - 1) as nat) as int, mb as int, hi_q as int);
        lemma_mul_is_commutative(pow2((64 * nb - 1) as nat) as int, hi_q as int);
        lemma_mul_is_commutative(mb as int, hi_q as int);
    }
    lemma_pow2_pos(t + 1);
    mpn::lemma_div_strictly_bounded(big_n as int, mb as int, hi_q as int);
    lemma_mul_is_commutative(mb as int, hi_q as int);
    lemma_nbits_bounds(q);
    if nbits(q) > t + 1 {
        lemma_pow2_increases_le(t + 1, (nbits(q) - 1) as nat);
    }
    if nbits(q) < 64 * (nl + 2) {
        lemma_pow2_increases_le(nbits(q), (t - 1) as nat);
    }
}

/// A normalized limb vector below `2^(64 k)` has at most `k` limbs.
proof fn lemma_normalized_len_bound(s: Seq<u64>, k: nat)
    requires
        is_normalized(s),
        value_of(s) < pow2(64 * k),
    ensures
        s.len() <= k,
{
    if s.len() > k {
        lemma_value_lower(s);
        lemma_weight_mono_le(k, (s.len() - 1) as nat);
    }
}

/// The root of the scaled radicand has more than `64 nl` digits and at most
/// `32 na + 64 t + 1`.
proof fn lemma_sqrt_digits(ma: nat, na: nat, t: nat, nl: nat, x: nat, odd: bool)
    requires
        na >= 1,
        limb_weight((na - 1) as nat) * 0x8000_0000_0000_0000 <= ma < limb_weight(na),
        t >= nl + 3 - na / 2,
        x == ma * limb_weight(2 * t) * (if odd {
            2nat
        } else {
            1nat
        }),
    ensures
        nbits(isqrt_spec(x)) > 64 * nl,
        nbits(isqrt_spec(x)) <= 32 * na + 64 * t + 1,
{
    lemma2_to64();
    lemma2_to64_rest();
    lemma_pow2_adds(64 * (na - 1) as nat, 63);
    assert(64 * (na - 1) as nat + 63 == (64 * na - 1) as nat);
    lemma_mul_is_commutative(limb_weight((na - 1) as nat) as int, 0x8000_0000_0000_0000int);
    let w2t = limb_weight(2 * t);
    lemma_weight_pos(2 * t);
    lemma_pow2_adds((64 * na - 1) as nat, 128 * t);
    lemma_pow2_adds(64 * na, 128 * t);
    lemma_pow2_adds(64 * na + 128 * t, 1);
    assert(64 * (2 * t) == 128 * t);
    let lo = pow2((64 * na - 1 + 128 * t) as nat);
    let hi = pow2((64 * na + 128 * t + 1) as nat);
    assert(lo <= x) by {
        lemma_mul_inequality(pow2((64 * na - 1) as nat) as int, ma as int, w2t as int);
        assert(ma * w2t <= x) by (nonlinear_arith)
            requires
                x == ma * w2t * (if odd {
                    2nat
                } else {
                    1nat
                }),
        ;
    }
    assert(x < hi) by {
        lemma_mul_strict_inequality(ma as int, pow2(64 * na) as int, w2t as int);
        assert(x <= ma * w2t * 2) by (nonlinear_arith)
            requires
                x == ma * w2t * (if odd {
                    2nat
                } else {
                    1nat
                }),
        ;
    }
    lemma_isqrt(x);
    let s = isqrt_spec(x);
    lemma_nbits_bounds(s);
    // lower: s < 2^(64 nl) would give x < 2^(128 nl) <= lo
    if nbits(s) <= 64 * nl {
        lemma_pow2_increases_le(nbits(s), 64 * nl);
        let p = pow2(64 * nl);
        assert((s + 1) * (s + 1) <= p * p) by (nonlinear_arith)
            requires
                s < p,
        ;
        lemma_pow2_adds(64 * nl, 64 * nl);
        assert(128 * nl <= 64 * na - 1 + 128 * t) by (nonlinear_arith)
            requires
                t >= nl + 3 - na / 2,
                na >= 1,
        ;
        lemma_pow2_increases_le(64 * nl + 64 * nl, (64 * na - 1 + 128 * t) as nat);
    }
    // upper: s >= 2^K would give x >= 2^(2K) >= hi
    let k = 32 * na + 64 * t + 1;
    if nbits(s) > k {
        lemma_pow2_increases_le(k, (nbits(s) - 1) as nat);
        let p = pow2(k);
        assert(p * p <= s * s) by (nonlinear_arith)
            requires
                p <= s,
        ;
        lemma_pow2_adds(k, k);
        lemma_pow2_increases_le((64 * na + 128 * t + 1) as nat, k + k);
    }
}

/// A magnitude `m · 2^e` is zero exactly when `m` is.
pub proof fn lemma_mag_zero_pub(m: nat, e: int)
    ensures
        m == 0 <==> m as real * pow2r(e) == 0real,
        m > 0 ==> m as real * pow2r(e) > 0real,
{
    lemma_mag_zero(m, e);
}

proof fn lemma_mag_zero(m: nat, e: int)
    ensures
        m == 0 <==> m as real * pow2r(e) == 0real,
        m > 0 ==> m as real * pow2r(e) > 0real,
{
    lemma_pow2r_pos(e);
    let p = pow2r(e);
    assert(m == 0 <==> m as real * p == 0real) by (nonlinear_arith)
        requires
            p > 0real,
    ;
    assert(m > 0 ==> m as real * p > 0real) by (nonlinear_arith)
        requires
            p > 0real,
    ;
}

/// Casting integers to reals keeps their order.
pub proof fn lemma_real_cast_order(a: int, b: int)
    ensures
        (a as real) < (b as real) <==> a < b,
        (a as real) == (b as real) <==> a == b,
        (a as real) <= (b as real) <==> a <= b,
{
    assert((a as real) < (b as real) <==> a < b) by (nonlinear_arith);
    assert((a as real) == (b as real) <==> a == b) by (nonlinear_arith);
    assert((a as real) <= (b as real) <==> a <= b) by (nonlinear_arith);
}

/// How far the rounded window lies from the true magnitude
/// `t = (w + delta) · 2^bot`, in units `U = 2^(bot + round_shift)` of the
/// last kept digit: directed modes stay on their side within one unit,
/// nearest within half a unit, and an exact rounding changes nothing.
pub proof fn lemma_window_error(
    w: nat,
    bot: int,
    sticky: bool,
    delta: real,
    prec: nat,
    mode: MagRound,
)
    requires
        prec >= 1,
        0real <= delta < 1real,
        sticky <==> delta > 0real,
        sticky ==> nbits(w) > prec,
    ensures
        ({
            let t = (w as real + delta) * pow2r(bot);
            let r = window_val(false, w, bot, sticky, prec, mode);
            let u = pow2r(bot + round_shift(w, prec));
            &&& mode == MagRound::Down ==> r <= t && t - r < u
            &&& mode == MagRound::Up ==> t <= r && r - t < u
            &&& mode == MagRound::Nearest ==> r - t <= u / 2real && t - r <= u / 2real
            &&& !round_inexact(w, sticky, prec) ==> r == t
            &&& round_inexact(w, sticky, prec) ==> round_shift(w, prec) >= 1
        }),
{
    let s = round_shift(w, prec);
    let t = (w as real + delta) * pow2r(bot);
    let r = window_val(false, w, bot, sticky, prec, mode);
    let u = pow2r(bot + s);
    lemma_pow2_pos(s);
    lemma_pow2r_pos(bot);
    lemma_pow2r_add(bot, s as int);
    lemma_pow2r_nat(s);
    let p = pow2r(bot);
    let big_s = pow2(s);
    let q = w / big_s;
    let rem = w % big_s;
    lemma_fundamental_div_mod(w as int, big_s as int);
    lemma_mod_bound(w as int, big_s as int);
    let sr = big_s as real;
    lemma_pos_real_local(big_s as int);
    // t = (q + phi) · u with phi = (rem + delta) / 2^s
    let phi = (rem as real + delta) / sr;
    lemma_nat_mul_real(q, big_s);
    assert(w as real == q as real * sr + rem as real) by {
        assert(w == q * big_s + rem) by {
            lemma_mul_is_commutative(q as int, big_s as int);
        }
        crate::dyadic::lemma_nat_mul_real(q, big_s);
        assert((q * big_s + rem) as real == (q * big_s) as real + rem as real) by (nonlinear_arith);
    }
    assert(t == (q as real + phi) * u) by (nonlinear_arith)
        requires
            t == (w as real + delta) * p,
            w as real == q as real * sr + rem as real,
            phi == (rem as real + delta) / sr,
            u == p * sr,
            sr > 0real,
    ;
    lemma_real_cast_order(rem as int, big_s as int);
    lemma_real_cast_order(0, rem as int);
    assert(0real <= phi < 1real) by (nonlinear_arith)
        requires
            phi == (rem as real + delta) / sr,
            0real <= rem as real,
            (rem as real) + 1real <= sr,
            0real <= delta < 1real,
            sr > 0real,
    ;
    assert((rem as real) + 1real <= sr) by {
        lemma_real_cast_order((rem + 1) as int, big_s as int);
        assert((rem + 1) as real == rem as real + 1real) by (nonlinear_arith);
    }
    let inc = round_up_needed(w, sticky, prec, mode);
    let d = round_digits(w, sticky, prec, mode);
    assert(r == d as real * u);
    lemma2_to64();
    if s == 0 {
        // exact: nothing below the kept digits
        assert(!sticky) by {
            if sticky {
                assert(nbits(w) > prec);
            }
        }
        assert(rem == 0) by {
            lemma_small_mod(0, 1);
            assert(big_s == 1);
        }
        assert(phi == 0real) by (nonlinear_arith)
            requires
                phi == (rem as real + delta) / sr,
                rem == 0,
                delta == 0real,
                sr > 0real,
        ;
        assert(d == q);
        assert(!round_inexact(w, sticky, prec));
        return;
    }
    let half = pow2((s - 1) as nat);
    lemma_pow2_adds((s - 1) as nat, 1);
    assert(big_s == half * 2);
    let hr = half as real;
    assert(sr == hr * 2real) by {
        lemma_nat_mul_real(half, 2);
    }
    lemma_real_cast_order(rem as int, half as int);
    lemma_real_cast_order((half + 1) as int, rem as int);
    assert((half + 1) as real == hr + 1real) by (nonlinear_arith)
        requires
            hr == half as real,
    ;
    // phi against one half
    assert(phi * 2real == (rem as real + delta) / hr) by (nonlinear_arith)
        requires
            phi == (rem as real + delta) / sr,
            sr == hr * 2real,
            hr > 0real,
    ;
    assert(hr > 0real) by {
        lemma_pow2_pos((s - 1) as nat);
        lemma_real_cast_order(0, half as int);
    }
    if rem > half {
        assert(phi > 1real / 2real) by (nonlinear_arith)
            requires
                phi == (rem as real + delta) / sr,
                sr == hr * 2real,
                rem as real >= hr + 1real,
                delta >= 0real,
                hr > 0real,
        ;
    } else if rem == half {
        assert(delta > 0real ==> phi > 1real / 2real) by (nonlinear_arith)
            requires
                phi == (rem as real + delta) / sr,
                sr == hr * 2real,
                rem as real == hr,
                hr > 0real,
        ;
        assert(delta == 0real ==> phi == 1real / 2real) by (nonlinear_arith)
            requires
                phi == (rem as real + delta) / sr,
                sr == hr * 2real,
                rem as real == hr,
                hr > 0real,
        ;
    } else {
        assert(phi < 1real / 2real) by (nonlinear_arith)
            requires
                phi == (rem as real + delta) / sr,
                sr == hr * 2real,
                rem as real + 1real <= hr,
                delta < 1real,
                hr > 0real,
        ;
    }
    assert(phi == 0real <==> (rem == 0 && !sticky)) by (nonlinear_arith)
        requires
            phi == (rem as real + delta) / sr,
            sr > 0real,
            0real <= rem as real,
            delta >= 0real,
            sticky <==> delta > 0real,
            rem == 0 <==> rem as real == 0real,
    ;
    assert(rem == 0 <==> rem as real == 0real) by {
        lemma_real_cast_order(rem as int, 0);
    }
    assert(u > 0real) by {
        lemma_pow2r_pos(bot + s);
    }
    if inc {
        assert(d == q + 1);
        assert(r == (q as real + 1real) * u) by {
            assert((q + 1) as real == q as real + 1real) by (nonlinear_arith);
        }
    } else {
        assert(d == q);
    }
    assert(mode == MagRound::Down ==> r <= t && t - r < u) by (nonlinear_arith)
        requires
            mode == MagRound::Down ==> !inc,
            !inc ==> r == q as real * u,
            t == (q as real + phi) * u,
            0real <= phi < 1real,
            u > 0real,
    ;
    assert(mode == MagRound::Up ==> t <= r && r - t < u) by (nonlinear_arith)
        requires
            mode == MagRound::Up ==> (inc <==> phi > 0real),
            inc ==> r == (q as real + 1real) * u,
            !inc ==> r == q as real * u,
            t == (q as real + phi) * u,
            0real <= phi < 1real,
            u > 0real,
    ;
    assert(mode == MagRound::Nearest ==> r - t <= u / 2real && t - r <= u / 2real) by (nonlinear_arith)
        requires
            mode == MagRound::Nearest ==> (inc ==> phi >= 1real / 2real),
            mode == MagRound::Nearest ==> (!inc ==> phi <= 1real / 2real),
            inc ==> r == (q as real + 1real) * u,
            !inc ==> r == q as real * u,
            t == (q as real + phi) * u,
            0real <= phi < 1real,
            u > 0real,
    ;
    assert(!round_inexact(w, sticky, prec) ==> r == t) by (nonlinear_arith)
        requires
            !round_inexact(w, sticky, prec) ==> phi == 0real && !inc,
            !inc ==> r == q as real * u,
            t == (q as real + phi) * u,
    ;
}

proof fn lemma_pos_real_local(x: int)
    requires
        x > 0,
    ensures
        x as real > 0real,
{
    crate::dyadic::lemma_pos_real(x);
}

/// Correct rounding of an exact dyadic `v = m · 2^e`: `Floor` and `Down`
/// never exceed `v` in the direction they round, `Ceil` and `Up` never fall
/// short of it, every mode stays within one unit `U` of the last kept digit
/// (nearest within half a unit), and an exact rounding returns `v` itself.
pub proof fn lemma_rounded_error(m: int, e: int, prec: nat, rnd: Round)
    requires
        prec >= 1,
    ensures
        ({
            let v = m as real * pow2r(e);
            let r = rounded(m, e, prec, rnd);
            let u = pow2r(e + round_shift(abs_int(m), prec));
            &&& rnd == Round::Floor ==> r <= v && v - r < u
            &&& rnd == Round::Ceil ==> v <= r && r - v < u
            &&& rnd == Round::Nearest ==> r - v <= u / 2real && v - r <= u / 2real
            &&& rnd == Round::Down ==> (if m >= 0 {
                r <= v && v - r < u
            } else {
                v <= r && r - v < u
            })
            &&& rnd == Round::Up ==> (if m >= 0 {
                v <= r && r - v < u
            } else {
                r <= v && v - r < u
            })
            &&& !round_inexact(abs_int(m), false, prec) ==> r == v
            &&& round_inexact(abs_int(m), false, prec) ==> round_shift(abs_int(m), prec) >= 1
            &&& (m >= 0 ==> r >= 0real)
            &&& (m <= 0 ==> r <= 0real)
            &&& (m > 0 ==> r > 0real)
            &&& (m < 0 ==> r < 0real)
        }),
{
    let neg = m < 0;
    let w = abs_int(m);
    let mode = rnd.mag_spec(neg);
    lemma_window_error(w, e, false, 0real, prec, mode);
    let t = (w as real + 0real) * pow2r(e);
    let r0 = window_val(false, w, e, false, prec, mode);
    let v = m as real * pow2r(e);
    lemma_pow2r_pos(e);
    assert(v == (if neg {
        -t
    } else {
        t
    })) by (nonlinear_arith)
        requires
            t == (w as real + 0real) * pow2r(e),
            v == m as real * pow2r(e),
            w == abs_int(m),
            neg == (m < 0),
            (w as int) == (if neg {
                -m
            } else {
                m
            }),
    ;
    assert(rounded(m, e, prec, rnd) == (if neg {
        -r0
    } else {
        r0
    }));
    lemma_window_nonneg(w, e, false, prec, mode);
    let r = rounded(m, e, prec, rnd);
    let u = pow2r(e + round_shift(w, prec));
    lemma_real_cast_order(0, w as int);
    assert(t >= 0real) by (nonlinear_arith)
        requires
            t == (w as real + 0real) * pow2r(e),
            w as real >= 0real,
            pow2r(e) > 0real,
    ;
    if rnd == Round::Floor {
        assert(r <= v && v - r < u);
    }
    if rnd == Round::Ceil {
        assert(v <= r && r - v < u);
    }
    if rnd == Round::Down {
        assert(if m >= 0 {
            r <= v && v - r < u
        } else {
            v <= r && r - v < u
        });
    }
    if rnd == Round::Up {
        assert(if m >= 0 {
            v <= r && r - v < u
        } else {
            r <= v && v - r < u
        });
    }
    if rnd == Round::Nearest {
        assert(r - v <= u / 2real && v - r <= u / 2real);
    }
    assert(!round_inexact(w, false, prec) ==> r == v);
    assert(m >= 0 ==> r >= 0real);
    if m == 0 {
        lemma_window_zero(false, 0, e, prec, rnd);
        assert(r0 == 0real);
    }
    assert(m <= 0 ==> r <= 0real);
    if m != 0 {
        lemma_window_pos(w, e, false, prec, mode);
    }
}

/// Rounding a positive window gives a positive value.
pub proof fn lemma_window_pos(w: nat, bot: int, sticky: bool, prec: nat, mode: MagRound)
    requires
        w > 0,
        prec >= 1,
    ensures
        window_val(false, w, bot, sticky, prec, mode) > 0real,
{
    let s = round_shift(w, prec);
    let d = round_digits(w, sticky, prec, mode);
    lemma_pow2_pos(s);
    lemma_nbits_bounds(w);
    if s == 0 {
        lemma2_to64();
        lemma_div_basics(w as int);
        assert(d >= w);
    } else {
        lemma_pow2_adds((prec - 1) as nat, s);
        assert((prec - 1) as nat + s == (nbits(w) - 1) as nat);
        lemma_div_is_ordered((pow2((prec - 1) as nat) * pow2(s)) as int, w as int, pow2(s) as int);
        lemma_div_multiples_vanish(pow2((prec - 1) as nat) as int, pow2(s) as int);
        lemma_mul_is_commutative(pow2((prec - 1) as nat) as int, pow2(s) as int);
        lemma_pow2_pos((prec - 1) as nat);
        assert(d >= 1);
    }
    lemma_pow2r_pos(bot + s);
    lemma_real_cast_order(1, d as int);
    let p = pow2r(bot + s);
    assert(d as real * p > 0real) by (nonlinear_arith)
        requires
            d as real >= 1real,
            p > 0real,
    ;
}

/// The unsigned window value is nonnegative.
proof fn lemma_window_nonneg(w: nat, bot: int, sticky: bool, prec: nat, mode: MagRound)
    ensures
        window_val(false, w, bot, sticky, prec, mode) >= 0real,
{
    lemma_pow2r_pos(bot + round_shift(w, prec));
    let d = round_digits(w, sticky, prec, mode);
    lemma_real_cast_order(0, d as int);
    let p = pow2r(bot + round_shift(w, prec));
    assert(d as real * p >= 0real) by (nonlinear_arith)
        requires
            d as real >= 0real,
            p > 0real,
    ;
}

/// A rounding that loses digits returns a nonzero float whose exponent
/// is at least `bot + round_shift + prec`: the dropped unit is at most
/// `2^(exponent − prec)`.
pub proof fn lemma_window_exp(
    res: Float,
    neg: bool,
    w: nat,
    bot: int,
    sticky: bool,
    prec: nat,
    mode: MagRound,
)
    requires
        res.wf(),
        res.val() == window_val(neg, w, bot, sticky, prec, mode),
        nbits(w) > prec,
        prec >= 1,
    ensures
        res.mant() > 0,
        bot + round_shift(w, prec) + prec <= res.ex(),
        res.mag() == window_val(false, w, bot, sticky, prec, mode),
{
    let s = round_shift(w, prec);
    let d = round_digits(w, sticky, prec, mode);
    lemma_nbits_bounds(w);
    lemma_pow2_pos(s);
    // d >= w / 2^s >= 2^(prec − 1)
    lemma_pow2_adds((prec - 1) as nat, s);
    assert((prec - 1) as nat + s == (nbits(w) - 1) as nat);
    lemma_div_is_ordered((pow2((prec - 1) as nat) * pow2(s)) as int, w as int, pow2(s) as int);
    lemma_div_multiples_vanish(pow2((prec - 1) as nat) as int, pow2(s) as int);
    lemma_mul_is_commutative(pow2((prec - 1) as nat) as int, pow2(s) as int);
    assert(d >= pow2((prec - 1) as nat));
    let u = pow2r(bot + s);
    lemma_pow2r_pos(bot + s);
    lemma_real_cast_order(pow2((prec - 1) as nat) as int, d as int);
    lemma_pow2r_add((prec - 1) as int, bot + s);
    lemma_pow2r_nat((prec - 1) as nat);
    let lowr = pow2r(prec - 1 + bot + s);
    assert(lowr <= d as real * u) by (nonlinear_arith)
        requires
            lowr == pow2((prec - 1) as nat) as real * u,
            pow2((prec - 1) as nat) as real <= d as real,
            u > 0real,
    ;
    lemma_pow2r_pos(prec - 1 + bot + s);
    res.lemma_val_abs();
    lemma_mag_nonneg_pub(&res);
    let mv = d as real * u;
    assert(res.mag() == mv) by (nonlinear_arith)
        requires
            res.val() == (if neg {
                -mv
            } else {
                mv
            }),
            res.val() == (if res.neg {
                -res.mag()
            } else {
                res.mag()
            }),
            res.mag() >= 0real,
            mv > 0real,
    ;
    assert(res.mag() >= 0real) by {
        crate::fp::lemma_mag_nonneg_pub(&res);
    }
    lemma_mag_zero(res.mant(), res.low());
    res.lemma_mant_bounds();
    res.lemma_exponent_bounds();
    if prec - 1 + bot + s >= res.ex() {
        lemma_pow2r_le(res.ex(), prec - 1 + bot + s);
    }
}

/// A magnitude is nonnegative.
pub proof fn lemma_mag_nonneg_pub(f: &Float)
    ensures
        f.mag() >= 0real,
{
    lemma_pow2r_pos(f.low());
    lemma_real_cast_order(0, f.mant() as int);
    let p = pow2r(f.low());
    let m = f.mant() as real;
    assert(m * p >= 0real) by (nonlinear_arith)
        requires
            m >= 0real,
            p > 0real,
    ;
}

/// The exact sum written by `lin_mant` and `lin_low`.
pub proof fn lemma_lin_exact(a: Float, an: bool, b: Float, bn: bool)
    ensures
        lin_mant(a.mant(), a.low(), an, b.mant(), b.low(), bn) as real * pow2r(
            lin_low(a.mant(), a.low(), b.mant(), b.low()),
        ) == signed(an, a.mag()) + signed(bn, b.mag()),
{
    let lo = lin_low(a.mant(), a.low(), b.mant(), b.low());
    let ka = (a.low() - lo) as nat;
    let kb = (b.low() - lo) as nat;
    let ta = a.mant() * pow2(ka);
    let tb = b.mant() * pow2(kb);
    let p = pow2r(lo);
    if a.mant() > 0 {
        lemma_rescale(ta, lo, a.mant(), a.low(), ka);
        assert(ta as real * p == a.mag());
    } else {
        lemma_mul_basics(pow2(ka) as int);
        assert(ta == 0);
        assert(ta as real * p == a.mag()) by (nonlinear_arith)
            requires
                a.mant() == 0,
                ta == 0,
                a.mag() == a.mant() as real * pow2r(a.low()),
        ;
    }
    if b.mant() > 0 {
        lemma_rescale(tb, lo, b.mant(), b.low(), kb);
        assert(tb as real * p == b.mag());
    } else {
        lemma_mul_basics(pow2(kb) as int);
        assert(tb == 0);
        assert(tb as real * p == b.mag()) by (nonlinear_arith)
            requires
                b.mant() == 0,
                tb == 0,
                b.mag() == b.mant() as real * pow2r(b.low()),
        ;
    }
    assert(lin_mant(a.mant(), a.low(), an, b.mant(), b.low(), bn) as real * p == signed(
        an,
        ta as real * p,
    ) + signed(bn, tb as real * p)) by (nonlinear_arith)
        requires
            lin_mant(a.mant(), a.low(), an, b.mant(), b.low(), bn) == signed_int(an, ta as int)
                + signed_int(bn, tb as int),
    ;
}

/// The true quotient `|a| / |b|` is `(quo + rem/|b|) · 2^bot` for the
/// integer quotient and remainder that division rounds.
pub proof fn lemma_div_value(a: Float, b: Float, prec: nat)
    requires
        b.mant() > 0,
    ensures
        ({
            let s = div_shift(a.nlimbs(), b.nlimbs(), prec);
            let n = a.mant() * limb_weight(s);
            let delta = (n % b.mant()) as real / b.mant() as real;
            &&& 0real <= delta < 1real
            &&& (delta > 0real <==> div_sticky(a, b, prec))
            &&& a.mag() / b.mag() == (div_quo(a, b, prec) as real + delta) * pow2r(
                div_bot(a, b, prec),
            )
        }),
{
    let s = div_shift(a.nlimbs(), b.nlimbs(), prec);
    let ws = limb_weight(s);
    let n = a.mant() * ws;
    let mb = b.mant();
    let q = n / mb;
    let r = n % mb;
    lemma_fundamental_div_mod(n as int, mb as int);
    lemma_mod_bound(n as int, mb as int);
    let mbr = mb as real;
    lemma_pos_real_local(mb as int);
    let delta = r as real / mbr;
    lemma_real_cast_order(r as int, mb as int);
    lemma_real_cast_order(0, r as int);
    assert(0real <= delta < 1real) by (nonlinear_arith)
        requires
            delta == r as real / mbr,
            0real <= (r as real),
            (r as real) < mbr,
            mbr > 0real,
    ;
    assert(delta > 0real <==> r != 0) by (nonlinear_arith)
        requires
            delta == r as real / mbr,
            mbr > 0real,
            r != 0 <==> (r as real) != 0real,
            0real <= (r as real),
    ;
    assert(r != 0 <==> (r as real) != 0real) by {
        lemma_real_cast_order(r as int, 0);
    }
    // |a| / |b| = n · 2^(la − 64 s) / (mb · 2^lb)
    lemma_weight_pos(s);
    lemma_rescale(n, a.low() - 64 * s, a.mant(), a.low(), 64 * s);
    let bot = div_bot(a, b, prec);
    lemma_pow2r_add(bot, b.low());
    lemma_pow2r_pos(b.low());
    lemma_pow2r_pos(bot);
    lemma_nat_mul_real(q, mb);
    assert(n as real == q as real * mbr + r as real) by {
        assert(n == q * mb + r) by {
            lemma_mul_is_commutative(q as int, mb as int);
        }
        assert((q * mb + r) as real == (q * mb) as real + r as real) by (nonlinear_arith);
    }
    let pb = pow2r(b.low());
    let pt = pow2r(bot);
    assert(a.mag() == n as real * (pt * pb));
    assert(b.mag() == mbr * pb);
    assert(a.mag() / b.mag() == (q as real + delta) * pt) by (nonlinear_arith)
        requires
            a.mag() == n as real * (pt * pb),
            b.mag() == mbr * pb,
            n as real == q as real * mbr + r as real,
            delta == r as real / mbr,
            mbr > 0real,
            pb > 0real,
    ;
}

/// The exact signed sum of two floats has at most `max(exp) − lin_low + 1`
/// digits.
pub proof fn lemma_lin_nbits(a: Float, an: bool, b: Float, bn: bool)
    requires
        a.wf(),
        b.wf(),
    ensures
        nbits(abs_int(lin_mant(a.mant(), a.low(), an, b.mant(), b.low(), bn))) <= max_int(
            a.ex(),
            b.ex(),
        ) - lin_low(a.mant(), a.low(), b.mant(), b.low()) + 1,
        max_int(a.ex(), b.ex()) - lin_low(a.mant(), a.low(), b.mant(), b.low()) <= abs_int(
            a.ex() - b.ex(),
        ) + 64 * (a.nlimbs() + b.nlimbs()),
{
    a.lemma_mant_bounds();
    b.lemma_mant_bounds();
    a.lemma_nbits_mant();
    b.lemma_nbits_mant();
    let lo = lin_low(a.mant(), a.low(), b.mant(), b.low());
    let hi = max_int(a.ex(), b.ex());
    let ka = (a.low() - lo) as nat;
    let kb = (b.low() - lo) as nat;
    let ta = a.mant() * pow2(ka);
    let tb = b.mant() * pow2(kb);
    lemma_pow2_pos(ka);
    lemma_pow2_pos(kb);
    if a.mant() == 0 {
        assert(ta == 0) by {
            lemma_mul_basics(pow2(ka) as int);
        }
    }
    if b.mant() == 0 {
        assert(tb == 0) by {
            lemma_mul_basics(pow2(kb) as int);
        }
    }
    // each part is below 2^(hi − lo)
    if a.mant() > 0 {
        lemma_nbits_scale(a.mant(), ka);
        lemma_nbits_bounds(ta);
        lemma_pow2_increases_le(nbits(ta), (hi - lo) as nat);
    }
    if b.mant() > 0 {
        lemma_nbits_scale(b.mant(), kb);
        lemma_nbits_bounds(tb);
        lemma_pow2_increases_le(nbits(tb), (hi - lo) as nat);
    }
    lemma_pow2_pos((hi - lo) as nat);
    let w = abs_int(lin_mant(a.mant(), a.low(), an, b.mant(), b.low(), bn));
    assert(w <= ta + tb);
    lemma_fit_sum(w, (hi - lo) as nat, lo);
}

/// Rounding toward zero never exceeds the window itself.
pub proof fn lemma_window_down_le(w: nat, bot: int, sticky: bool, prec: nat)
    ensures
        window_val(false, w, bot, sticky, prec, MagRound::Down) <= w as real * pow2r(bot),
{
    let s = round_shift(w, prec);
    lemma_pow2_pos(s);
    let q = w / pow2(s);
    lemma_fundamental_div_mod(w as int, pow2(s) as int);
    lemma_mod_bound(w as int, pow2(s) as int);
    assert(q * pow2(s) <= w) by {
        lemma_mul_is_commutative(q as int, pow2(s) as int);
    }
    lemma_rescale(q * pow2(s), bot, q, bot + s, s);
    lemma_real_cast_order((q * pow2(s)) as int, w as int);
    lemma_pow2r_pos(bot);
    let p = pow2r(bot);
    assert((q * pow2(s)) as real * p <= w as real * p) by (nonlinear_arith)
        requires
            ((q * pow2(s)) as real) <= (w as real),
            p > 0real,
    ;
}

/// The radicand scaled back: `x · 2^(2 bot) = a`.
/// The square root rounded down squares to at most the radicand, rounded
/// up to at least it, and an exact root squares to it.
proof fn lemma_sqrt_directed(a: Float, prec: nat, rnd: Round, r: real, inexact: bool)
    requires
        a.wf(),
        !a.sign(),
        prec >= 2,
        a.mant() > 0 ==> nbits(isqrt_spec(sqrt_radicand(a, prec))) > prec,
        r == window_val(
            false,
            isqrt_spec(sqrt_radicand(a, prec)),
            sqrt_bot(a, prec),
            isqrt_spec(sqrt_radicand(a, prec)) * isqrt_spec(sqrt_radicand(a, prec)) != sqrt_radicand(a, prec),
            prec,
            rnd.mag_spec(false),
        ),
        inexact == round_inexact(
            isqrt_spec(sqrt_radicand(a, prec)),
            isqrt_spec(sqrt_radicand(a, prec)) * isqrt_spec(sqrt_radicand(a, prec)) != sqrt_radicand(a, prec),
            prec,
        ),
    ensures
        r >= 0real,
        rnd == Round::Floor || rnd == Round::Down ==> r * r <= a.val(),
        rnd == Round::Ceil || rnd == Round::Up ==> r * r >= a.val(),
        !inexact ==> r * r == a.val(),
{
    let x = sqrt_radicand(a, prec);
    let sr = isqrt_spec(x);
    let bot = sqrt_bot(a, prec);
    let sticky = sr * sr != x;
    let mode = rnd.mag_spec(false);
    let p = pow2r(bot);
    lemma_sqrt_radicand(a, prec);
    lemma_isqrt(x);
    lemma_pow2r_pos(bot);
    let s = sr as real;
    let xr = x as real;
    lemma_nat_mul_real(sr, sr);
    lemma_nat_mul_real((sr + 1) as nat, (sr + 1) as nat);
    lemma_real_cast_order((sr * sr) as int, x as int);
    lemma_real_cast_order(x as int, ((sr + 1) * (sr + 1)) as int);
    assert((sr + 1) as real == s + 1real);
    assert(s * s <= xr);
    assert(xr < (s + 1real) * (s + 1real));
    assert(a.val() == xr * (p * p)) by (nonlinear_arith)
        requires
            xr * p * p == a.val(),
    ;
    if sr == 0 {
        lemma_window_zero(false, 0, bot, prec, rnd);
        assert(!sticky ==> x == 0);
    } else {
        lemma_window_pos(sr, bot, sticky, prec, mode);
    }
    assert(sr > 0 && sticky ==> nbits(sr) > prec) by {
        if sr > 0 && sticky {
            assert(x > 0);
            if a.mant() == 0 {
                assert(x == 0);
            }
        }
    }
    assert(s >= 0real);
    if mode == MagRound::Down {
        lemma_window_down_le(sr, bot, sticky, prec);
        assert(r * r <= a.val()) by (nonlinear_arith)
            requires
                0real <= r <= s * p,
                s * s <= xr,
                a.val() == xr * (p * p),
                p > 0real,
                s >= 0real,
        ;
    }
    if mode == MagRound::Up {
        if sticky {
            assert(sr > 0);
            lemma_window_error(sr, bot, sticky, 1real / 2real, prec, mode);
            let d = (r / p - s + 1real) / 2real;
            if r < (s + 1real) * p {
                assert(r / p >= s + 1real / 2real) by (nonlinear_arith)
                    requires
                        (s + 1real / 2real) * p <= r,
                        p > 0real,
                ;
                assert(r / p < s + 1real) by (nonlinear_arith)
                    requires
                        r < (s + 1real) * p,
                        p > 0real,
                ;
                lemma_window_error(sr, bot, sticky, d, prec, mode);
                assert(false) by (nonlinear_arith)
                    requires
                        (s + d) * p <= r,
                        d == (r / p - s + 1real) / 2real,
                        r / p < s + 1real,
                        p > 0real,
                ;
            }
            assert(r * r >= a.val()) by (nonlinear_arith)
                requires
                    r >= (s + 1real) * p,
                    xr < (s + 1real) * (s + 1real),
                    a.val() == xr * (p * p),
                    p > 0real,
                    s >= 0real,
            ;
        } else {
            lemma_window_error(sr, bot, sticky, 0real, prec, mode);
            assert(r * r >= a.val()) by (nonlinear_arith)
                requires
                    r >= (s + 0real) * p,
                    xr == s * s,
                    a.val() == xr * (p * p),
                    p > 0real,
                    s >= 0real,
            ;
        }
    }
    if !inexact {
        assert(!sticky);
        assert(xr == s * s);
        if sr > 0 {
            lemma_window_error(sr, bot, sticky, 0real, prec, mode);
        }
        assert(r == s * p);
        assert(r * r == a.val()) by (nonlinear_arith)
            requires
                r == s * p,
                xr == s * s,
                a.val() == xr * (p * p),
        ;
    }
}

/// The flag of a rounded root is set exactly when its square misses the
/// radicand: a square that hits it is an integer root of the scaled
/// radicand, which the truncated root then already is.
proof fn lemma_sqrt_inexact(a: Float, prec: nat, rnd: Round, r: real, inexact: bool)
    requires
        a.wf(),
        !a.sign(),
        prec >= 2,
        r == window_val(
            false,
            isqrt_spec(sqrt_radicand(a, prec)),
            sqrt_bot(a, prec),
            isqrt_spec(sqrt_radicand(a, prec)) * isqrt_spec(sqrt_radicand(a, prec)) != sqrt_radicand(a, prec),
            prec,
            rnd.mag_spec(false),
        ),
        inexact == round_inexact(
            isqrt_spec(sqrt_radicand(a, prec)),
            isqrt_spec(sqrt_radicand(a, prec)) * isqrt_spec(sqrt_radicand(a, prec)) != sqrt_radicand(a, prec),
            prec,
        ),
    ensures
        inexact ==> r * r != a.val(),
{
    let x = sqrt_radicand(a, prec);
    let sr = isqrt_spec(x);
    let bot = sqrt_bot(a, prec);
    let sticky = sr * sr != x;
    let mode = rnd.mag_spec(false);
    let sh = round_shift(sr, prec);
    let rd = round_digits(sr, sticky, prec, mode);
    let q: nat = rd * pow2(sh);
    let p = pow2r(bot);
    lemma_sqrt_radicand(a, prec);
    lemma_isqrt(x);
    lemma_pow2r_pos(bot);
    lemma_pow2r_add(bot, sh as int);
    lemma_pow2r_nat(sh);
    lemma_nat_mul_real(rd, pow2(sh));
    assert(r == (q as real) * p) by (nonlinear_arith)
        requires
            r == (rd as real) * pow2r(bot + sh),
            pow2r(bot + sh) == p * pow2r(sh as int),
            pow2r(sh as int) == pow2(sh) as real,
            (q as real) == (rd as real) * (pow2(sh) as real),
    ;
    if inexact && r * r == a.val() {
        let qr = q as real;
        let xr = x as real;
        assert(qr * qr == xr) by (nonlinear_arith)
            requires
                r == qr * p,
                r * r == a.val(),
                a.val() == xr * p * p,
                p > 0real,
        ;
        lemma_nat_mul_real(q, q);
        assert(q * q == x);
        if sticky {
            if q <= sr {
                assert(q * q <= sr * sr) by (nonlinear_arith)
                    requires
                        q <= sr,
                ;
            } else {
                assert((sr + 1) * (sr + 1) <= q * q) by (nonlinear_arith)
                    requires
                        sr + 1 <= q,
                ;
            }
        } else {
            assert(q == sr) by (nonlinear_arith)
                requires
                    q * q == sr * sr,
            ;
            vstd::arithmetic::power2::lemma_pow2_pos(sh);
            vstd::arithmetic::div_mod::lemma_mod_multiples_basic(rd as int, pow2(sh) as int);
            assert(sr % pow2(sh) == 0);
        }
    }
}

pub proof fn lemma_sqrt_radicand(a: Float, prec: nat)
    requires
        a.wf(),
        !a.sign(),
    ensures
        (sqrt_radicand(a, prec) as real) * pow2r(sqrt_bot(a, prec)) * pow2r(sqrt_bot(a, prec))
            == a.val(),
        a.mant() > 0 ==> sqrt_radicand(a, prec) > 0,
{
    let x = sqrt_radicand(a, prec);
    let bot = sqrt_bot(a, prec);
    let t = sqrt_t(a.nlimbs(), prec);
    let odd = sqrt_odd(a);
    let o: nat = if odd {
        1
    } else {
        0
    };
    assert(2 * bot + o + 128 * t == a.low()) by {
        lemma_fundamental_div_mod(a.low() - o, 2);
        assert((a.low() - o) % 2 == 0);
    }
    lemma_pow2_adds(128 * t, o);
    lemma2_to64();
    assert(x == a.mant() * pow2(128 * t + o)) by {
        assert(limb_weight(2 * t) == pow2(128 * t));
        assert(pow2(o) == (if odd {
            2nat
        } else {
            1nat
        }));
        lemma_mul_is_associative(a.mant() as int, pow2(128 * t) as int, pow2(o) as int);
    }
    lemma_rescale(x, 2 * bot, a.mant(), a.low(), 128 * t + o);
    lemma_pow2r_add(bot, bot);
    a.lemma_val_abs();
    let p = pow2r(bot);
    assert(a.val() == a.mag());
    assert(pow2r(bot + bot) == pow2r(2 * bot));
    assert((x as real) * p * p == a.val()) by (nonlinear_arith)
        requires
            (x as real) * pow2r(2 * bot) == a.val(),
            pow2r(2 * bot) == p * p,
    ;
    lemma_pow2_pos(128 * t + o);
    if a.mant() > 0 {
        assert(x > 0) by (nonlinear_arith)
            requires
                x == a.mant() * pow2(128 * t + o),
                a.mant() > 0,
                pow2(128 * t + o) > 0,
        ;
    }
}

/// A sum of two parts below `2^t` has at most `t + 1` digits.
proof fn lemma_fit_sum(w: nat, t: nat, lo: int)
    requires
        w < pow2(t) * 2,
    ensures
        nbits(w) <= t + 1,
{
    lemma_nbits_bounds(w);
    lemma_pow2_adds(t, 1);
    lemma2_to64();
    if nbits(w) > t + 1 {
        lemma_pow2_increases_le(t + 1, (nbits(w) - 1) as nat);
    }
}

/// Pads `v` with high zero limbs up to length `n`.
fn extend(v: &mut Vec<Limb>, n: usize)
    requires
        old(v)@.len() <= n,
    ensures
        final(v)@.len() == n,
        value_of(final(v)@) == value_of(old(v)@),
{
    let ghost v0 = v@;
    while v.len() < n
        invariant
            v@.len() <= n,
            value_of(v@) == value_of(v0),
        decreases n - v@.len(),
    {
        let ghost prev = v@;
        v.push(0);
        proof {
            lemma_value_push(prev, 0);
        }
    }
}

/// The lowest bit of a limb vector is the lowest bit of its first limb.
proof fn lemma_parity(q: Seq<u64>)
    ensures
        q.len() == 0 ==> value_of(q) % 2 == 0,
        q.len() > 0 ==> (value_of(q) % 2 == 1 <==> q[0] & 1 == 1),
{
    if q.len() == 0 {
        assert(q =~= Seq::<u64>::empty());
    } else {
        lemma_value_split(q, 1);
        assert(q.take(1) =~= seq![q[0]]);
        lemma_value_single(q[0]);
        lemma_weight_succ(0);
        lemma_pow2_64();
        let x = q[0];
        let rest = value_of(q.skip(1));
        assert((x as nat + limb_base() * rest) % 2 == (x as nat) % 2) by (nonlinear_arith)
            requires
                limb_base() == 0x1_0000_0000_0000_0000nat,
        ;
        assert((x & 1 == 1) <==> (x % 2 == 1)) by (bit_vector);
    }
}
/// One Newton step `x ↦ ⌊(x + ⌊a/x⌋)/2⌋` from above never drops below
/// `⌊√a⌋`, and strictly decreases until it reaches it.
pub proof fn lemma_newton_step(a: nat, x: nat, q: nat)
    requires
        x > 0,
        q == a / x,
        x >= isqrt_spec(a),
    ensures
        (x + q) / 2 >= isqrt_spec(a),
        x > isqrt_spec(a) ==> (x + q) / 2 < x,
{
    lemma_isqrt(a);
    let s = isqrt_spec(a);
    lemma_fundamental_div_mod(a as int, x as int);
    lemma_mod_bound(a as int, x as int);
    let r = a % x;
    assert(a == x * q + r);
    assert((x + q) / 2 >= s) by (nonlinear_arith)
        requires
            a == x * q + r,
            0 <= r < x,
            s * s <= a,
            x > 0,
            q >= 0,
    ;
    if x > s {
        assert((x + q) / 2 < x) by (nonlinear_arith)
            requires
                a == x * q + r,
                0 <= r < x,
                a < (s + 1) * (s + 1),
                x >= s + 1,
                q >= 0,
        ;
    }
}

/// Integer square root of a `u128` with `bits` significant bits.
fn isqrt_u128(v: u128, bits: u64) -> (r: u128)
    requires
        bits == nbits(v as nat),
    ensures
        r == isqrt_spec(v as nat),
{
    if v == 0 {
        return 0;
    }
    proof {
        lemma_isqrt(v as nat);
        lemma_nbits_bounds(v as nat);
        if bits > 128 {
            lemma_pow2_increases_le(128, (bits - 1) as nat);
        }
        assert(pow2(128) == 0x1_0000_0000_0000_0000_0000_0000_0000_0000) by {
            lemma_pow2_adds(64, 64);
            lemma2_to64_rest();
        }
    }
    let k = (bits - 1) / 2 + 1;
    proof {
        assert(k - 1 < 64);
    }
    let half = 1u64 << (k - 1);
    let mut x: u128 = (half as u128) * 2;
    let ghost s = isqrt_spec(v as nat);
    proof {
        assert(x == pow2(k as nat)) by {
            lemma_pow2_pos((k - 1) as nat);
            lemma_pow2_strictly_increases((k - 1) as nat, 64);
            lemma_pow2_64();
            vstd::bits::lemma_u64_shl_is_mul(1, (k - 1) as u64);
            lemma_pow2_adds((k - 1) as nat, 1);
            lemma2_to64();
        }
        // x² = 2^(2k) >= 2^bits > v >= s²
        lemma_pow2_adds(k as nat, k as nat);
        lemma_pow2_increases_le(bits as nat, 2 * k as nat);
        assert(x >= s) by (nonlinear_arith)
            requires
                s * s <= v,
                v < x * x,
        ;
        lemma_pow2_increases_le(k as nat, 64);
        lemma2_to64_rest();
        assert(s < 0x1_0000_0000_0000_0000) by (nonlinear_arith)
            requires
                s * s <= v,
                v < 0x1_0000_0000_0000_0000_0000_0000_0000_0000,
        ;
        assert(s >= 1) by (nonlinear_arith)
            requires
                v < (s + 1) * (s + 1),
                v >= 1,
        ;
    }
    loop
        invariant
            s == isqrt_spec(v as nat),
            s * s <= v < (s + 1) * (s + 1),
            1 <= s < 0x1_0000_0000_0000_0000,
            s <= x <= 0x1_0000_0000_0000_0000,
        decreases x,
    {
        let q = v / x;
        proof {
            lemma_newton_step(v as nat, x as nat, q as nat);
            assert(q <= s + 2) by (nonlinear_arith)
                requires
                    q == v / x,
                    x >= s,
                    s >= 1,
                    v < (s + 1) * (s + 1),
            ;
        }
        let y = (x + q) / 2;
        if y >= x {
            return x;
        }
        x = y;
    }
}

/// Integer square root of a limb vector: `(⌊√a⌋, whether it is exact)`.
pub fn isqrt(a: &[Limb]) -> (res: (Vec<Limb>, bool))
    requires
        a@.len() <= 0x1000_0000,
    ensures
        value_of(res.0@) == isqrt_spec(value_of(a@)),
        res.1 == (isqrt_spec(value_of(a@)) * isqrt_spec(value_of(a@)) == value_of(a@)),
        is_normalized(res.0@),
{
    let an = mpn::normalized_len(a);
    let a = &a[0..an];
    let ghost av = value_of(a@);
    proof {
        lemma_isqrt(av);
    }
    if an == 0 {
        proof {
            assert(a@ =~= Seq::<u64>::empty());
            assert(isqrt_spec(0) == 0);
        }
        return (Vec::new(), true);
    }
    proof {
        lemma_value_lower(a@);
        lemma_weight_pos((an - 1) as nat);
        lemma_value_bound(a@);
    }
    let bits = mpn::bit_len(a);
    proof {
        lemma_nbits_unique(av, bits as nat);
        if bits > 64 * an {
            lemma_pow2_increases_le(64 * an as nat, (bits - 1) as nat);
        }
    }
    if an <= 2 {
        let v: u128 = if an == 1 {
            a[0] as u128
        } else {
            a[0] as u128 | (a[1] as u128) << 64u128
        };
        proof {
            lemma_pow2_64();
            if an == 1 {
                assert(a@ =~= seq![a@[0]]);
                lemma_value_single(a@[0]);
            } else {
                assert(a@ =~= seq![a@[0], a@[1]]);
                crate::limb_spec::lemma_value_pair(a@[0], a@[1]);
                let lo = a@[0];
                let hi = a@[1];
                assert((lo as u128 | (hi as u128) << 64u128) == lo as u128 + (hi as u128) * 0x1_0000_0000_0000_0000u128) by (bit_vector);
            }
        }
        let s = isqrt_u128(v, bits);
        proof {
            lemma_isqrt(v as nat);
            assert(s < 0x1_0000_0000_0000_0000) by (nonlinear_arith)
                requires
                    s * s <= v,
                    v < 0x1_0000_0000_0000_0000_0000_0000_0000_0000,
            ;
        }
        let exact = s * s == v;
        let mut out: Vec<Limb> = Vec::new();
        out.push(s as Limb);
        out.push((s >> 64u128) as Limb);
        proof {
            assert(out@ =~= seq![s as u64, (s >> 64u128) as u64]);
            crate::limb_spec::lemma_value_pair(s as u64, (s >> 64u128) as u64);
            assert((s >> 64u128) == 0) by (bit_vector)
                requires
                    s < 0x1_0000_0000_0000_0000u128,
            ;
            assert(s as u64 == s);
        }
        mpn::normalize_vec(&mut out);
        return (out, exact);
    }
    // Newton from above, starting at 2^(⌈bits/2⌉ + 1).
    let gb = (bits + 1) / 2 + 1;
    let top = (gb / 64) as usize;
    let mut x = mpn::zeros(top + 1);
    let ghost z = x@;
    let lead = 1u64 << (gb % 64);
    x.set(top, lead);
    let ghost s = isqrt_spec(av);
    proof {
        assert(lead == pow2((gb % 64) as nat)) by {
            lemma_pow2_pos((gb % 64) as nat);
            lemma_pow2_strictly_increases((gb % 64) as nat, 64);
            lemma_pow2_64();
            vstd::bits::lemma_u64_shl_is_mul(1, gb % 64);
        }
        crate::limb_spec::lemma_value_update(z, top as int, lead);
        assert(x@ =~= z.update(top as int, lead));
        lemma_pow2_adds((gb % 64) as nat, 64 * top as nat);
        assert((gb % 64) as nat + 64 * top as nat == gb as nat);
        assert(value_of(x@) == pow2(gb as nat)) by {
            lemma_mul_is_commutative(lead as int, limb_weight(top as nat) as int);
        }
        // x² = 2^(2 gb) > 2^bits > av >= s²
        lemma_nbits_bounds(av);
        lemma_pow2_adds(gb as nat, gb as nat);
        lemma_pow2_increases_le(bits as nat, 2 * gb as nat);
        let xv = value_of(x@);
        assert(xv >= s) by (nonlinear_arith)
            requires
                s * s <= av,
                av < xv * xv,
        ;
        assert(s >= 1) by (nonlinear_arith)
            requires
                av < (s + 1) * (s + 1),
                av >= 1,
        ;
        lemma_pow2_pos(gb as nat);
        lemma_value_bound(a@);
    }
    loop
        invariant
            s == isqrt_spec(av),
            s * s <= av < (s + 1) * (s + 1),
            av == value_of(a@),
            av < limb_weight(an as nat),
            an == a@.len(),
            an <= 0x1000_0000,
            s >= 1,
            value_of(x@) >= s,
            is_normalized(x@),
            x@.len() <= 0x1000_0000,
        ensures
            value_of(x@) == s,
            is_normalized(x@),
            x@.len() <= 0x1000_0000,
        decreases value_of(x@),
    {
        let ghost xv = value_of(x@);
        let (q, _r) = mpn::divrem(a, x.as_slice());
        let ghost qv = value_of(q@);
        proof {
            lemma_fundamental_div_mod_converse(av as int, xv as int, qv as int, value_of(_r@) as int);
            lemma_newton_step(av, xv, qv);
            // q <= a, so it has at most an limbs
            assert(qv <= av) by (nonlinear_arith)
                requires
                    qv * xv + value_of(_r@) == av,
                    xv >= 1,
            ;
            lemma_normalized_len_bound(q@, an as nat);
        }
        let xl = x.len();
        let n = if xl >= q.len() {
            xl
        } else {
            q.len()
        } + 1;
        let mut y = mpn::copy_limbs(x.as_slice());
        extend(&mut y, n);
        let c = mpn::add_in_place(&mut y, q.as_slice());
        proof {
            lemma_value_bound(x@);
            lemma_value_bound(q@);
            lemma_weight_mono_le(x@.len(), (n - 1) as nat);
            lemma_weight_mono_le(q@.len(), (n - 1) as nat);
            lemma_weight_succ((n - 1) as nat);
            lemma_weight_pos((n - 1) as nat);
            assert(c == 0) by {
                if c != 0 {
                    assert(value_of(y@) + c as nat * limb_weight(n as nat) >= limb_weight(n as nat))
                        by (nonlinear_arith)
                        requires
                            c >= 1,
                    ;
                }
            }
        }
        let mut h = mpn::zeros(n);
        let out = mpn::rshift(&mut h, y.as_slice(), 1);
        proof {
            lemma_pow2_64();
            crate::window::lemma_rshift_divmod(value_of(y@), value_of(h@), out as nat, 1);
            assert(pow2(1) == 2) by {
                lemma2_to64();
            }
        }
        mpn::normalize_vec(&mut h);
        let ghost hv = value_of(h@);
        assert(hv == (xv + qv) / 2);
        if mpn::compare(h.as_slice(), x.as_slice()) >= 0 {
            break;
        }
        proof {
            lemma_normalized_len_bound(h@, x@.len());
        }
        x = h;
    }
    let mut sq = mpn::zeros(2 * x.len());
    mpn::sqr(&mut sq, x.as_slice());
    mpn::normalize_vec(&mut sq);
    let exact = mpn::compare(sq.as_slice(), a) == 0;
    proof {
        assert(a@ =~= a@.take(an as int));
    }
    (x, exact)
}

/// `value(a) · 2^sh` in `a.len()` limbs, when it fits in `nl <= a.len()` limbs.
fn shift_left_small(a: &[Limb], sh: u32, nl: usize) -> (t: Vec<Limb>)
    requires
        sh < 64,
        nl <= a@.len(),
        value_of(a@) * pow2(sh as nat) < limb_weight(nl as nat),
    ensures
        value_of(t@) == value_of(a@) * pow2(sh as nat),
        t@.len() == a@.len(),
{
    if sh == 0 {
        proof {
            lemma2_to64();
        }
        mpn::copy_limbs(a)
    } else {
        let mut t = mpn::zeros(a.len());
        let out = mpn::lshift(&mut t, a, sh);
        proof {
            lemma_weight_mono_le(nl as nat, a@.len());
            lemma_weight_pos(a@.len());
            let w = limb_weight(a@.len()) as int;
            assert(out == 0) by (nonlinear_arith)
                requires
                    value_of(t@) + out * w < w,
                    w > 0,
            ;
        }
        t
    }
}

/// After a left shift that puts the top bit at `64 nl − 1`, the first `nl`
/// limbs hold the whole value and the limb `nl − 1` has its top bit set.
proof fn lemma_top_limbs(t: Seq<u64>, nl: nat)
    requires
        1 <= nl <= t.len(),
        pow2((64 * nl - 1) as nat) <= value_of(t) < pow2(64 * nl),
    ensures
        forall|i: int| nl <= i < t.len() ==> t[i] == 0,
        value_of(t) == value_of(t.take(nl as int)),
        t[nl - 1] >= 0x8000_0000_0000_0000u64,
{
    assert forall|i: int| nl <= i < t.len() implies t[i] == 0 by {
        if t[i] != 0 {
            lemma_value_ge_limb(t, i);
            lemma_weight_mono_le(nl, i as nat);
            assert((t[i] as nat) * limb_weight(i as nat) >= limb_weight(i as nat)) by (nonlinear_arith)
                requires
                    t[i] >= 1,
            ;
        }
    }
    crate::limb_spec::lemma_value_zeros_above(t, nl as int);
    let tt = t.take(nl as int);
    let k = (nl - 1) as nat;
    lemma_value_split(tt, k as int);
    assert(tt.skip(k as int) =~= seq![t[k as int]]);
    lemma_value_single(t[k as int]);
    lemma_value_bound(tt.take(k as int));
    assert(tt.take(k as int).len() == k);
    lemma_pow2_adds(64 * k, 63);
    lemma2_to64();
    lemma2_to64_rest();
    assert(64 * k + 63 == (64 * nl - 1) as nat);
    lemma_weight_pos(k);
    let w = limb_weight(k) as int;
    let top = t[k as int] as int;
    assert(top >= 0x8000_0000_0000_0000) by (nonlinear_arith)
        requires
            w > 0,
            w * 0x8000_0000_0000_0000 <= value_of(tt.take(k as int)) + w * top,
            value_of(tt.take(k as int)) < w,
    ;
}

/// A number is at least any of its weighted limbs.
pub proof fn lemma_value_ge_limb(s: Seq<u64>, j: int)
    requires
        0 <= j < s.len(),
    ensures
        value_of(s) >= (s[j] as nat) * limb_weight(j as nat),
{
    lemma_value_split(s, j);
    let r = s.skip(j);
    lemma_value_split(r, 1);
    assert(r.take(1) =~= seq![s[j]]);
    lemma_value_single(s[j]);
    lemma_weight_pos(j as nat);
    assert(limb_weight(j as nat) * value_of(r) >= (s[j] as nat) * limb_weight(j as nat)) by (nonlinear_arith)
        requires
            value_of(r) >= s[j] as nat,
    ;
}

pub proof fn lemma_weight_mono_le(i: nat, j: nat)
    requires
        i <= j,
    ensures
        limb_weight(i) <= limb_weight(j),
{
    lemma_pow2_increases_le(64 * i, 64 * j);
}

} // verus!
