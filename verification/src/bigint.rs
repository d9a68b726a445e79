//! Signed arbitrary-precision integers over the limb kernels.
//!
//! Exactly the operations binary splitting and the Bernoulli recurrence
//! need; every result is exact.
use crate::dyadic::nbits;
use crate::fp::Float;
use crate::limb_spec::{
    is_normalized, lemma_value_bound, lemma_value_lower, lemma_value_push, lemma_value_single,
    lemma_weight_pos, lemma_weight_succ, limb_weight, value_of,
};
use crate::mpn::{self, Limb};
use vstd::arithmetic::div_mod::*;
use vstd::arithmetic::mul::*;
use vstd::arithmetic::power2::*;
use vstd::prelude::*;
use core::cmp::Ordering;

verus! {

/// Largest number of limbs an [`Int`] holds: 2^26 (2^32 bits).
pub const INT_LIMBS_MAX: usize = 0x400_0000;

/// A signed big integer: sign and normalized magnitude; zero is `+0`.
#[derive(Clone, Debug, PartialEq, Eq)]
pub struct Int {
    pub(crate) neg: bool,
    pub(crate) mag: Vec<Limb>,
}

/// `x` with the sign `neg`.
pub open spec fn with_sign(neg: bool, x: nat) -> int {
    if neg {
        -(x as int)
    } else {
        x as int
    }
}

impl Int {
    /// The integer this value denotes.
    pub open(crate) spec fn value(&self) -> int {
        with_sign(self.neg, value_of(self.mag@))
    }

    /// The sign flag.
    pub open(crate) spec fn sign(&self) -> bool {
        self.neg
    }

    /// `|self|`.
    pub open(crate) spec fn abs_value(&self) -> nat {
        value_of(self.mag@)
    }

    /// Number of magnitude limbs.
    pub open(crate) spec fn nlimbs(&self) -> nat {
        self.mag@.len()
    }

    /// Normalized magnitude, `+0` for zero, at most `INT_LIMBS_MAX` limbs.
    pub open(crate) spec fn wf(&self) -> bool {
        &&& is_normalized(self.mag@)
        &&& (self.mag@.len() == 0 ==> !self.neg)
        &&& self.mag@.len() <= INT_LIMBS_MAX
    }

    /// The magnitude is zero exactly for the empty limb vector.
    pub(crate) proof fn lemma_zero(&self)
        requires
            self.wf(),
        ensures
            self.mag@.len() == 0 <==> value_of(self.mag@) == 0,
            self.mag@.len() == 0 <==> self.value() == 0,
            self.value() < 0 <==> self.neg,
    {
        if self.mag@.len() > 0 {
            lemma_value_lower(self.mag@);
            lemma_weight_pos((self.mag@.len() - 1) as nat);
        } else {
            assert(self.mag@ =~= Seq::<u64>::empty());
        }
    }

    pub fn zero() -> (r: Self)
        ensures
            r.wf(),
            r.value() == 0,
            r.nlimbs() == 0,
    {
        let r = Int { neg: false, mag: Vec::new() };
        proof {
            assert(r.mag@ =~= Seq::<u64>::empty());
        }
        r
    }

    pub fn from_u64(v: u64) -> (r: Self)
        ensures
            r.wf(),
            r.value() == v,
            r.nlimbs() <= 1,
    {
        let mut mag = Vec::new();
        if v != 0 {
            mag.push(v);
        }
        let r = Int { neg: false, mag };
        proof {
            if v != 0 {
                assert(r.mag@ =~= seq![v]);
                lemma_value_single(v);
            } else {
                assert(r.mag@ =~= Seq::<u64>::empty());
            }
        }
        r
    }

    pub fn from_i64(v: i64) -> (r: Self)
        ensures
            r.wf(),
            r.value() == v,
            r.nlimbs() <= 1,
    {
        let m: u64 = if v < 0 {
            (-(v as i128)) as u64
        } else {
            v as u64
        };
        let mut mag = Vec::new();
        if v != 0 {
            mag.push(m);
        }
        let r = Int { neg: v < 0, mag };
        proof {
            if v != 0 {
                assert(r.mag@ =~= seq![m]);
                lemma_value_single(m);
            } else {
                assert(r.mag@ =~= Seq::<u64>::empty());
            }
        }
        r
    }

    pub fn is_zero(&self) -> (r: bool)
        requires
            self.wf(),
        ensures
            r <==> self.value() == 0,
    {
        proof {
            self.lemma_zero();
        }
        self.mag.len() == 0
    }

    pub fn is_neg(&self) -> (r: bool)
        requires
            self.wf(),
        ensures
            r <==> self.value() < 0,
    {
        proof {
            self.lemma_zero();
        }
        self.neg
    }

    /// Number of binary digits of `|self|`.
    pub fn bit_len(&self) -> (r: u64)
        requires
            self.wf(),
        ensures
            r == nbits(self.abs_value()),
    {
        let r = mpn::bit_len(self.mag.as_slice());
        proof {
            crate::dyadic::lemma_nbits_bounds(value_of(self.mag@));
            if r > 0 {
                crate::dyadic::lemma_nbits_unique(value_of(self.mag@), r as nat);
            }
        }
        r
    }

    pub fn neg(&self) -> (r: Int)
        requires
            self.wf(),
        ensures
            r.wf(),
            r.value() == -self.value(),
            r.nlimbs() == self.nlimbs(),
    {
        proof {
            self.lemma_zero();
        }
        if self.mag.len() == 0 {
            Int { neg: false, mag: Vec::new() }
        } else {
            Int { neg: !self.neg, mag: mpn::copy_limbs(self.mag.as_slice()) }
        }
    }
    /// A copy with the same model.
    pub(crate) fn copy(&self) -> (r: Int)
        ensures
            r.neg == self.neg,
            r.mag@ == self.mag@,
    {
        Int { neg: self.neg, mag: mpn::copy_limbs(self.mag.as_slice()) }
    }

    pub fn add(&self, other: &Int) -> (r: Int)
        requires
            self.wf(),
            other.wf(),
            self.nlimbs() < INT_LIMBS_MAX,
            other.nlimbs() < INT_LIMBS_MAX,
        ensures
            r.wf(),
            r.value() == self.value() + other.value(),
            r.nlimbs() <= crate::dyadic::max_int(self.nlimbs() as int, other.nlimbs() as int) + 1,
    {
        proof {
            self.lemma_zero();
            other.lemma_zero();
        }
        if self.mag.len() == 0 {
            return other.copy();
        }
        if other.mag.len() == 0 {
            return self.copy();
        }
        if self.neg == other.neg {
            Int { neg: self.neg, mag: mag_add(self.mag.as_slice(), other.mag.as_slice()) }
        } else {
            let c = mpn::compare(self.mag.as_slice(), other.mag.as_slice());
            if c == 0 {
                Int::zero()
            } else if c > 0 {
                Int { neg: self.neg, mag: mag_sub(self.mag.as_slice(), other.mag.as_slice()) }
            } else {
                Int { neg: other.neg, mag: mag_sub(other.mag.as_slice(), self.mag.as_slice()) }
            }
        }
    }

    pub fn sub(&self, other: &Int) -> (r: Int)
        requires
            self.wf(),
            other.wf(),
            self.nlimbs() < INT_LIMBS_MAX,
            other.nlimbs() < INT_LIMBS_MAX,
        ensures
            r.wf(),
            r.value() == self.value() - other.value(),
            r.nlimbs() <= crate::dyadic::max_int(self.nlimbs() as int, other.nlimbs() as int) + 1,
    {
        self.add(&other.neg())
    }

    pub fn mul(&self, other: &Int) -> (r: Int)
        requires
            self.wf(),
            other.wf(),
            self.nlimbs() + other.nlimbs() <= INT_LIMBS_MAX,
        ensures
            r.wf(),
            r.value() == self.value() * other.value(),
            r.nlimbs() <= self.nlimbs() + other.nlimbs(),
    {
        proof {
            self.lemma_zero();
            other.lemma_zero();
        }
        if self.mag.len() == 0 || other.mag.len() == 0 {
            proof {
                assert(self.value() * other.value() == 0) by (nonlinear_arith)
                    requires
                        self.value() == 0 || other.value() == 0,
                ;
            }
            return Int::zero();
        }
        let mut r = mpn::zeros(self.mag.len() + other.mag.len());
        mpn::mul(&mut r, self.mag.as_slice(), other.mag.as_slice());
        let ghost r0 = r@;
        mpn::normalize_vec(&mut r);
        let res = Int { neg: self.neg != other.neg, mag: r };
        proof {
            let a = value_of(self.mag@);
            let b = value_of(other.mag@);
            assert(a * b > 0) by (nonlinear_arith)
                requires
                    a > 0,
                    b > 0,
            ;
            res.lemma_zero();
            assert(res.value() == self.value() * other.value()) by (nonlinear_arith)
                requires
                    res.value() == with_sign(self.neg != other.neg, a * b),
                    self.value() == with_sign(self.neg, a),
                    other.value() == with_sign(other.neg, b),
            ;
        }
        res
    }

    pub fn mul_u64(&self, v: u64) -> (r: Int)
        requires
            self.wf(),
            self.nlimbs() < INT_LIMBS_MAX,
        ensures
            r.wf(),
            r.value() == self.value() * v,
            r.nlimbs() <= self.nlimbs() + 1,
    {
        proof {
            self.lemma_zero();
        }
        if self.mag.len() == 0 || v == 0 {
            proof {
                assert(self.value() * v == 0) by (nonlinear_arith)
                    requires
                        self.value() == 0 || v == 0,
                ;
            }
            return Int::zero();
        }
        let n = self.mag.len();
        let mut r = mpn::zeros(n);
        let c = mpn::mul_1(&mut r, self.mag.as_slice(), v);
        let ghost r0 = r@;
        r.push(c);
        proof {
            lemma_value_push(r0, c);
        }
        mpn::normalize_vec(&mut r);
        let res = Int { neg: self.neg, mag: r };
        proof {
            let a = value_of(self.mag@);
            assert(a * v > 0) by (nonlinear_arith)
                requires
                    a > 0,
                    v > 0,
            ;
            res.lemma_zero();
            assert(res.value() == self.value() * v) by (nonlinear_arith)
                requires
                    res.value() == with_sign(self.neg, a * (v as nat)),
                    self.value() == with_sign(self.neg, a),
            ;
        }
        res
    }

    pub fn mul_i64(&self, v: i64) -> (r: Int)
        requires
            self.wf(),
            self.nlimbs() < INT_LIMBS_MAX,
        ensures
            r.wf(),
            r.value() == self.value() * v,
            r.nlimbs() <= self.nlimbs() + 1,
    {
        let m: u64 = if v < 0 {
            (-(v as i128)) as u64
        } else {
            v as u64
        };
        let r = self.mul_u64(m);
        if v < 0 {
            let n = r.neg();
            proof {
                assert(n.value() == self.value() * v) by (nonlinear_arith)
                    requires
                        n.value() == -(self.value() * m),
                        m == -v,
                ;
            }
            n
        } else {
            r
        }
    }

    /// Exact quotient and remainder, rounding the quotient toward zero.
    pub fn divrem(&self, other: &Int) -> (res: (Int, Int))
        requires
            self.wf(),
            other.wf(),
            other.value() != 0,
        ensures
            res.0.wf(),
            res.1.wf(),
            res.0.value() == with_sign(
                self.sign() != other.sign(),
                self.abs_value() / other.abs_value(),
            ),
            res.1.value() == with_sign(self.sign(), self.abs_value() % other.abs_value()),
            res.0.value() * other.value() + res.1.value() == self.value(),
    {
        proof {
            self.lemma_zero();
            other.lemma_zero();
        }
        let (q, r) = mpn::divrem(self.mag.as_slice(), other.mag.as_slice());
        let qn = q.len() != 0;
        let rn = r.len() != 0;
        let qi = Int { neg: self.neg != other.neg && qn, mag: q };
        let ri = Int { neg: self.neg && rn, mag: r };
        proof {
            let a = value_of(self.mag@);
            let b = value_of(other.mag@);
            lemma_fundamental_div_mod_converse(a as int, b as int, value_of(qi.mag@) as int, value_of(ri.mag@) as int);
            lemma_normalized_len(qi.mag@);
            lemma_normalized_len(ri.mag@);
            lemma_normalized_len(self.mag@);
            lemma_normalized_len(other.mag@);
            lemma_value_bound(qi.mag@);
            // q <= a keeps the length bound
            assert(value_of(qi.mag@) <= a) by (nonlinear_arith)
                requires
                    value_of(qi.mag@) * b + value_of(ri.mag@) == a,
                    b >= 1,
            ;
            lemma_len_mono(qi.mag@, self.mag@);
            lemma_len_mono(ri.mag@, other.mag@);
            let qv = value_of(qi.mag@);
            let rv = value_of(ri.mag@);
            assert(with_sign(self.neg != other.neg, qv) * with_sign(other.neg, b) + with_sign(self.neg, rv)
                == with_sign(self.neg, a)) by (nonlinear_arith)
                requires
                    qv * b + rv == a,
            ;
        }
        (qi, ri)
    }

    /// Exact conversion to [`Float`].
    pub fn to_float(&self) -> (r: Float)
        requires
            self.wf(),
        ensures
            r.small(),
            r.val() == self.value() as real,
            r.within((64 * self.nlimbs() + 64) as int),
    {
        proof {
            self.lemma_zero();
        }
        let f = Float::from_limbs(self.mag.as_slice());
        if self.neg {
            let r = f.neg();
            proof {
                assert(-(value_of(self.mag@) as real) == (-(value_of(self.mag@) as int)) as real) by (nonlinear_arith);
            }
            r
        } else {
            f
        }
    }

    /// Three-way comparison of values: −1, 0 or 1.
    fn compare_int(&self, other: &Int) -> (r: i8)
        requires
            self.wf(),
            other.wf(),
        ensures
            r == -1 <==> self.value() < other.value(),
            r == 0 <==> self.value() == other.value(),
            r == 1 <==> self.value() > other.value(),
    {
        proof {
            self.lemma_zero();
            other.lemma_zero();
        }
        let za = self.mag.len() == 0;
        let zb = other.mag.len() == 0;
        if za && zb {
            return 0;
        }
        if za {
            return if other.neg {
                1
            } else {
                -1
            };
        }
        if zb {
            return if self.neg {
                -1
            } else {
                1
            };
        }
        if !self.neg && other.neg {
            1
        } else if self.neg && !other.neg {
            -1
        } else if !self.neg {
            mpn::compare(self.mag.as_slice(), other.mag.as_slice())
        } else {
            mpn::compare(other.mag.as_slice(), self.mag.as_slice())
        }
    }

    pub fn cmp(&self, other: &Int) -> (ord: Ordering)
        requires
            self.wf(),
            other.wf(),
        ensures
            ord == Ordering::Less <==> self.value() < other.value(),
            ord == Ordering::Equal <==> self.value() == other.value(),
            ord == Ordering::Greater <==> self.value() > other.value(),
    {
        let r = self.compare_int(other);
        if r < 0 {
            Ordering::Less
        } else if r == 0 {
            Ordering::Equal
        } else {
            Ordering::Greater
        }
    }
}

/// |a| + |b| as a normalized vector.
fn mag_add(a: &[Limb], b: &[Limb]) -> (r: Vec<Limb>)
    requires
        is_normalized(a@),
        is_normalized(b@),
        a@.len() < INT_LIMBS_MAX,
        b@.len() < INT_LIMBS_MAX,
    ensures
        value_of(r@) == value_of(a@) + value_of(b@),
        is_normalized(r@),
        r@.len() <= crate::dyadic::max_int(a@.len() as int, b@.len() as int) + 1,
{
    let (a, b) = if a.len() >= b.len() {
        (a, b)
    } else {
        (b, a)
    };
    let n = a.len();
    let mut r = mpn::zeros(n);
    let carry = mpn::add(&mut r, a, b);
    let ghost r0 = r@;
    r.push(carry);
    proof {
        lemma_value_push(r0, carry);
    }
    mpn::normalize_vec(&mut r);
    r
}

/// |a| − |b| for |a| > |b|, as a normalized vector.
fn mag_sub(a: &[Limb], b: &[Limb]) -> (r: Vec<Limb>)
    requires
        is_normalized(a@),
        is_normalized(b@),
        value_of(a@) > value_of(b@),
    ensures
        value_of(r@) == value_of(a@) - value_of(b@),
        is_normalized(r@),
        r@.len() <= a@.len(),
{
    proof {
        if a@.len() < b@.len() {
            crate::limb_spec::lemma_value_len_lt(a@, b@);
        }
    }
    let mut r = mpn::zeros(a.len());
    let borrow = mpn::sub(&mut r, a, b);
    proof {
        lemma_weight_pos(a@.len());
    }
    mpn::normalize_vec(&mut r);
    r
}

/// A normalized vector is empty exactly for the value zero.
proof fn lemma_normalized_len(s: Seq<u64>)
    requires
        is_normalized(s),
    ensures
        s.len() == 0 <==> value_of(s) == 0,
{
    if s.len() > 0 {
        lemma_value_lower(s);
        lemma_weight_pos((s.len() - 1) as nat);
    } else {
        assert(s =~= Seq::<u64>::empty());
    }
}

/// A smaller normalized number has no more limbs.
proof fn lemma_len_mono(s: Seq<u64>, t: Seq<u64>)
    requires
        is_normalized(s),
        is_normalized(t),
        value_of(s) <= value_of(t),
    ensures
        s.len() <= t.len(),
{
    if s.len() > t.len() {
        lemma_value_lower(s);
        lemma_value_bound(t);
        crate::fp::lemma_weight_mono_le(t.len(), (s.len() - 1) as nat);
    }
}

} // verus!
