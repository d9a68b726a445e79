//! Decimal output: limb integers and floats as digit strings.
use crate::limb_spec::{
    is_normalized, lemma_value_all_zero, lemma_value_bound, lemma_value_lower, lemma_value_single,
    lemma_weight_pos, limb_weight, value_of,
};
use crate::ball::Ball;
use crate::fp::Float;
use crate::mag::Mag;
use crate::mpn::{self, Limb};
use crate::window;
use vstd::arithmetic::div_mod::*;
use vstd::arithmetic::mul::*;
use vstd::arithmetic::power2::*;
use vstd::prelude::*;
use vstd::string::*;

verus! {

/// The character of a decimal digit.
pub open spec fn digit_char(d: nat) -> char {
    if d == 0 {
        '0'
    } else if d == 1 {
        '1'
    } else if d == 2 {
        '2'
    } else if d == 3 {
        '3'
    } else if d == 4 {
        '4'
    } else if d == 5 {
        '5'
    } else if d == 6 {
        '6'
    } else if d == 7 {
        '7'
    } else if d == 8 {
        '8'
    } else {
        '9'
    }
}

/// The last `k` decimal digits of `v`, zero padded, most significant first.
pub open spec fn dec_pad(v: nat, k: nat) -> Seq<char>
    decreases k,
{
    if k == 0 {
        Seq::empty()
    } else {
        dec_pad(v / 10, (k - 1) as nat).push(digit_char(v % 10))
    }
}

/// Number of decimal digits of `v` (1 for 0).
pub open spec fn dec_len(v: nat) -> nat
    decreases v,
{
    if v < 10 {
        1
    } else {
        1 + dec_len(v / 10)
    }
}

/// The decimal representation of `v`, without leading zeros ("0" for 0).
pub open spec fn dec_str(v: nat) -> Seq<char> {
    dec_pad(v, dec_len(v))
}

/// `10^k`.
pub open spec fn pow10(k: nat) -> nat
    decreases k,
{
    if k == 0 {
        1
    } else {
        10 * pow10((k - 1) as nat)
    }
}

/// Digit values stored most significant first, as characters.
pub open spec fn fwd_chars(s: Seq<u8>) -> Seq<char>
    decreases s.len(),
{
    if s.len() == 0 {
        Seq::empty()
    } else {
        fwd_chars(s.drop_last()).push(digit_char(s.last() as nat))
    }
}

/// Digit values stored least significant first, as characters (most
/// significant first).
pub open spec fn rev_chars(s: Seq<u8>) -> Seq<char>
    decreases s.len(),
{
    if s.len() == 0 {
        Seq::empty()
    } else {
        rev_chars(s.drop_first()).push(digit_char(s[0] as nat))
    }
}

/// The number denoted by digit values stored least significant first.
pub open spec fn rev_num(s: Seq<u8>) -> nat
    decreases s.len(),
{
    if s.len() == 0 {
        0
    } else {
        s[0] as nat + 10 * rev_num(s.drop_first())
    }
}

/// Every entry is a decimal digit.
pub open spec fn all_digits(s: Seq<u8>) -> bool {
    forall|i: int| 0 <= i < s.len() ==> s[i] < 10
}

/// `s` without its trailing `'0'` characters.
pub open spec fn trim_zeros(s: Seq<char>) -> Seq<char>
    decreases s.len(),
{
    if s.len() > 0 && s.last() == '0' {
        trim_zeros(s.drop_last())
    } else {
        s
    }
}

pub proof fn lemma_pow10_pos(k: nat)
    ensures
        pow10(k) >= 1,
    decreases k,
{
    if k > 0 {
        lemma_pow10_pos((k - 1) as nat);
    }
}

pub proof fn lemma_pow10_add(a: nat, b: nat)
    ensures
        pow10(a + b) == pow10(a) * pow10(b),
    decreases b,
{
    if b > 0 {
        lemma_pow10_add(a, (b - 1) as nat);
        assert(pow10(a + b) == 10 * pow10((a + b - 1) as nat));
        assert((a + b - 1) as nat == a + (b - 1) as nat);
        let x = pow10(a);
        let y = pow10((b - 1) as nat);
        assert(pow10(b) == 10 * y);
        assert(10 * (x * y) == x * (10 * y)) by (nonlinear_arith);
    } else {
        assert(pow10(0) == 1);
        assert(a + b == a);
        assert(pow10(a) * 1 == pow10(a));
    }
}

/// `10^19`, the largest power of ten below `2^64`.
pub proof fn lemma_pow10_19()
    ensures
        pow10(19) == 10_000_000_000_000_000_000nat,
{
    reveal_with_fuel(pow10, 20);
}

pub proof fn lemma_dec_pad_len(v: nat, k: nat)
    ensures
        dec_pad(v, k).len() == k,
    decreases k,
{
    if k > 0 {
        lemma_dec_pad_len(v / 10, (k - 1) as nat);
    }
}

/// Padded digits of `q·10^k + r` split into those of `q` and of `r`.
pub proof fn lemma_dec_pad_split(q: nat, r: nat, l: nat, k: nat)
    requires
        r < pow10(k),
    ensures
        dec_pad(q * pow10(k) + r, l + k) == dec_pad(q, l) + dec_pad(r, k),
    decreases k,
{
    if k == 0 {
        assert(r == 0);
        assert(q * 1 == q);
        assert(dec_pad(q, l) + dec_pad(r, 0) =~= dec_pad(q, l));
    } else {
        let p = pow10((k - 1) as nat);
        let x = q * pow10(k) + r;
        lemma_pow10_pos((k - 1) as nat);
        assert(x == 10 * (q * p + r / 10) + r % 10) by (nonlinear_arith)
            requires
                x == q * (10 * p) + r,
                r == 10 * (r / 10) + r % 10,
        ;
        assert(r / 10 < p) by (nonlinear_arith)
            requires
                r < 10 * p,
                r == 10 * (r / 10) + r % 10,
                0 <= r % 10,
        ;
        assert(x / 10 == q * p + r / 10 && x % 10 == r % 10) by (nonlinear_arith)
            requires
                x == 10 * (q * p + r / 10) + r % 10,
                0 <= r % 10 < 10,
                q * p + r / 10 >= 0,
        ;
        lemma_dec_pad_split(q, r / 10, l, (k - 1) as nat);
        assert((l + k - 1) as nat == l + (k - 1) as nat);
        assert(dec_pad(x, l + k) == dec_pad(x / 10, (l + k - 1) as nat).push(digit_char(x % 10)));
        assert(dec_pad(r, k) == dec_pad(r / 10, (k - 1) as nat).push(digit_char(r % 10)));
        assert((dec_pad(q, l) + dec_pad(r / 10, (k - 1) as nat)).push(digit_char(r % 10))
            =~= dec_pad(q, l) + dec_pad(r / 10, (k - 1) as nat).push(digit_char(r % 10)));
    }
}

/// Least-significant-first digits with a nonzero top digit spell the decimal
/// representation of their number.
pub proof fn lemma_rev_chars_dec(s: Seq<u8>)
    requires
        s.len() > 0,
        s.last() != 0,
        all_digits(s),
    ensures
        rev_chars(s) == dec_str(rev_num(s)),
        rev_num(s) > 0,
    decreases s.len(),
{
    let t = s.drop_first();
    let d = s[0] as nat;
    if s.len() == 1 {
        assert(t.len() == 0);
        assert(rev_num(s) == d);
        assert(d == s.last());
        assert(dec_len(d) == 1);
        assert(rev_chars(t) =~= Seq::<char>::empty());
        assert(dec_pad(d / 10, 0) =~= Seq::<char>::empty());
        assert(d % 10 == d);
        assert(dec_pad(d, 1) == dec_pad(d / 10, 0).push(digit_char(d % 10)));
        assert(rev_chars(s) == rev_chars(t).push(digit_char(d)));
        assert(rev_chars(s) =~= dec_pad(d, 1));
    } else {
        assert(t.last() == s.last());
        assert(all_digits(t));
        lemma_rev_chars_dec(t);
        let nt = rev_num(t);
        let n = rev_num(s);
        assert(n == d + 10 * nt);
        assert(n / 10 == nt && n % 10 == d) by (nonlinear_arith)
            requires
                n == d + 10 * nt,
                d < 10,
        ;
        assert(dec_len(n) == 1 + dec_len(nt));
        assert(dec_pad(n, 1 + dec_len(nt)) == dec_pad(nt, dec_len(nt)).push(digit_char(d)));
    }
}

pub proof fn lemma_rev_chars_len(s: Seq<u8>)
    ensures
        rev_chars(s).len() == s.len(),
    decreases s.len(),
{
    if s.len() > 0 {
        lemma_rev_chars_len(s.drop_first());
    }
}

/// Appending a digit at the top.
pub proof fn lemma_rev_num_push(s: Seq<u8>, d: u8)
    ensures
        rev_num(s.push(d)) == rev_num(s) + pow10(s.len()) * d,
    decreases s.len(),
{
    if s.len() == 0 {
        assert(s.push(d).drop_first() =~= Seq::<u8>::empty());
        assert(s.push(d)[0] == d);
        assert(rev_num(s.push(d).drop_first()) == 0);
        assert(pow10(0) == 1);
    } else {
        let t = s.drop_first();
        assert(s.push(d).drop_first() =~= t.push(d));
        assert(s.push(d)[0] == s[0]);
        lemma_rev_num_push(t, d);
        let p = pow10(t.len());
        assert(pow10(s.len()) == 10 * p);
        let rt = rev_num(t);
        assert(10 * (rt + p * d) == 10 * rt + (10 * p) * d) by (nonlinear_arith);
    }
}

/// Appends the digit `d`.
/// Appends the digit `d`.
fn push_digit(s: &mut String, d: u8)
    requires
        d < 10,
    ensures
        final(s)@ == old(s)@.push(digit_char(d as nat)),
{
    let t = if d == 0 {
        "0"
    } else if d == 1 {
        "1"
    } else if d == 2 {
        "2"
    } else if d == 3 {
        "3"
    } else if d == 4 {
        "4"
    } else if d == 5 {
        "5"
    } else if d == 6 {
        "6"
    } else if d == 7 {
        "7"
    } else if d == 8 {
        "8"
    } else {
        "9"
    };
    proof {
        reveal_strlit("0");
        reveal_strlit("1");
        reveal_strlit("2");
        reveal_strlit("3");
        reveal_strlit("4");
        reveal_strlit("5");
        reveal_strlit("6");
        reveal_strlit("7");
        reveal_strlit("8");
        reveal_strlit("9");
    }
    s.append(t);
    proof {
        assert(t@ =~= seq![digit_char(d as nat)]);
    }
}

/// Appends the `k` low decimal digits of `c` (zero padded), most
/// significant first.
fn push_pad_fwd(ds: &mut Vec<u8>, c: u64, k: u32)
    requires
        all_digits(old(ds)@),
    ensures
        all_digits(final(ds)@),
        final(ds)@.len() == old(ds)@.len() + k,
        fwd_chars(final(ds)@) == fwd_chars(old(ds)@) + dec_pad(c as nat, k as nat),
    decreases k,
{
    if k == 0 {
        assert(fwd_chars(ds@) + dec_pad(c as nat, 0) =~= fwd_chars(ds@));
    } else {
        push_pad_fwd(ds, c / 10, k - 1);
        let ghost mid = ds@;
        let d = (c % 10) as u8;
        ds.push(d);
        proof {
            assert(ds@.drop_last() =~= mid);
            assert(fwd_chars(ds@) == fwd_chars(mid).push(digit_char(d as nat)));
            assert(dec_pad(c as nat, k as nat) == dec_pad((c / 10) as nat, (k - 1) as nat).push(
                digit_char((c % 10) as nat),
            ));
            assert((fwd_chars(old(ds)@) + dec_pad((c / 10) as nat, (k - 1) as nat)).push(
                digit_char(d as nat),
            ) =~= fwd_chars(old(ds)@) + dec_pad((c / 10) as nat, (k - 1) as nat).push(
                digit_char(d as nat),
            ));
        }
    }
}

/// Appends all 19 decimal digits of `c`, least significant first.
fn push_chunk_full(rd: &mut Vec<u8>, c: u64)
    requires
        all_digits(old(rd)@),
        c < 10_000_000_000_000_000_000u64,
    ensures
        all_digits(final(rd)@),
        final(rd)@.len() == old(rd)@.len() + 19,
        rev_num(final(rd)@) == rev_num(old(rd)@) + pow10(old(rd)@.len()) * c,
{
    let mut x = c;
    let mut j: u32 = 0;
    proof {
        lemma_pow10_19();
    }
    while j < 19
        invariant
            j <= 19,
            all_digits(rd@),
            rd@.len() == old(rd)@.len() + j,
            x < pow10((19 - j) as nat),
            rev_num(rd@) + pow10(rd@.len()) * x == rev_num(old(rd)@) + pow10(old(rd)@.len()) * c,
        decreases 19 - j,
    {
        let d = (x % 10) as u8;
        let ghost r0 = rd@;
        rd.push(d);
        proof {
            lemma_rev_num_push(r0, d);
            let p = pow10(r0.len());
            assert(pow10(rd@.len()) == 10 * p);
            assert(pow10((19 - j) as nat) == 10 * pow10((19 - (j + 1)) as nat));
            assert(p * d + (10 * p) * (x / 10) == p * x) by (nonlinear_arith)
                requires
                    d == x % 10,
                    x == 10 * (x / 10) + x % 10,
            ;
            assert(x / 10 < pow10((19 - (j + 1)) as nat)) by (nonlinear_arith)
                requires
                    x < 10 * pow10((19 - (j + 1)) as nat),
                    x == 10 * (x / 10) + x % 10,
                    0 <= x % 10,
            ;
        }
        x = x / 10;
        j = j + 1;
    }
    proof {
        assert(x == 0);
    }
}

/// Appends the decimal digits of `c > 0`, least significant first, ending
/// with its nonzero top digit.
fn push_chunk_top(rd: &mut Vec<u8>, c: u64)
    requires
        all_digits(old(rd)@),
        c > 0,
    ensures
        all_digits(final(rd)@),
        final(rd)@.len() > old(rd)@.len(),
        final(rd)@.last() != 0,
        rev_num(final(rd)@) == rev_num(old(rd)@) + pow10(old(rd)@.len()) * c,
{
    let mut x = c;
    while x > 0
        invariant
            all_digits(rd@),
            rd@.len() >= old(rd)@.len(),
            rd@.len() > old(rd)@.len() || x > 0,
            rd@.len() > old(rd)@.len() && x == 0 ==> rd@.last() != 0,
            rev_num(rd@) + pow10(rd@.len()) * x == rev_num(old(rd)@) + pow10(old(rd)@.len()) * c,
        decreases x,
    {
        let d = (x % 10) as u8;
        let ghost r0 = rd@;
        rd.push(d);
        proof {
            lemma_rev_num_push(r0, d);
            let p = pow10(r0.len());
            assert(pow10(rd@.len()) == 10 * p);
            assert(p * d + (10 * p) * (x / 10) == p * x) by (nonlinear_arith)
                requires
                    d == x % 10,
                    x == 10 * (x / 10) + x % 10,
            ;
        }
        x = x / 10;
    }
}

/// Appends the decimal representation of the limb integer `a`; returns the
/// number of significant digits (0 for zero, which is written `"0"`).
fn limbs_to_decimal(out: &mut String, a: &[Limb]) -> (n: usize)
    ensures
        final(out)@ == old(out)@ + dec_str(value_of(a@)),
        n == (if value_of(a@) == 0 {
            0
        } else {
            dec_len(value_of(a@))
        }),
{
    let mut v = mpn::copy_limbs(a);
    mpn::normalize_vec(&mut v);
    if v.len() == 0 {
        proof {
            lemma_value_all_zero(v@);
            reveal_strlit("0");
            assert(dec_len(0) == 1);
            assert(dec_pad(0, 0) =~= Seq::<char>::empty());
            assert(dec_pad(0, 1) == dec_pad(0, 0).push(digit_char(0)));
            assert(dec_str(0) =~= seq!['0']);
        }
        out.append("0");
        return 0;
    }
    proof {
        lemma_value_lower(v@);
        lemma_weight_pos((v@.len() - 1) as nat);
    }
    let mut rd: Vec<u8> = Vec::new();
    proof {
        assert(rev_num(rd@) == 0);
        assert(pow10(0) == 1);
    }
    while v.len() > 0
        invariant
            all_digits(rd@),
            is_normalized(v@),
            value_of(a@) > 0,
            rev_num(rd@) + pow10(rd@.len()) * value_of(v@) == value_of(a@),
            rd@.len() == 0 ==> value_of(v@) == value_of(a@),
            rd@.len() > 0 ==> rd@.last() != 0 || value_of(v@) > 0,
        decreases value_of(v@),
    {
        proof {
            lemma_value_lower(v@);
            lemma_weight_pos((v@.len() - 1) as nat);
        }
        let mut q = mpn::zeros(v.len());
        let r = mpn::divrem_1(&mut q, &v, 10_000_000_000_000_000_000u64);
        mpn::normalize_vec(&mut q);
        let ghost r0 = rd@;
        let ghost vv = value_of(v@);
        let ghost qv = value_of(q@);
        proof {
            lemma_pow10_19();
            lemma_pow10_add(r0.len(), 19);
            assert(qv < vv) by (nonlinear_arith)
                requires
                    qv * 10_000_000_000_000_000_000 + r == vv,
                    vv > 0,
                    qv >= 0,
            ;
        }
        if q.len() > 0 {
            push_chunk_full(&mut rd, r);
            proof {
                let p = pow10(r0.len());
                assert(p * r + (p * 10_000_000_000_000_000_000) * qv == p * vv) by (nonlinear_arith)
                    requires
                        qv * 10_000_000_000_000_000_000 + r == vv,
                ;
                lemma_value_lower(q@);
                lemma_weight_pos((q@.len() - 1) as nat);
            }
        } else {
            proof {
                lemma_value_all_zero(q@);
                assert(r as nat == vv);
            }
            push_chunk_top(&mut rd, r);
        }
        v = q;
    }
    proof {
        lemma_value_all_zero(v@);
        assert(rd@.len() > 0);
        lemma_rev_chars_dec(rd@);
        lemma_rev_chars_len(rd@);
        lemma_dec_pad_len(value_of(a@), dec_len(value_of(a@)));
        assert(rd@.skip(rd@.len() as int) =~= Seq::<u8>::empty());
        assert(old(out)@ + Seq::<char>::empty() =~= old(out)@);
    }
    let mut i = rd.len();
    while i > 0
        invariant
            i <= rd@.len(),
            all_digits(rd@),
            out@ == old(out)@ + rev_chars(rd@.skip(i as int)),
        decreases i,
    {
        i = i - 1;
        push_digit(out, rd[i]);
        proof {
            assert(rd@.skip(i as int).drop_first() =~= rd@.skip(i + 1));
            assert(old(out)@ + rev_chars(rd@.skip(i + 1)).push(digit_char(rd@[i as int] as nat))
                =~= (old(out)@ + rev_chars(rd@.skip(i + 1))).push(digit_char(rd@[i as int] as nat)));
        }
    }
    proof {
        assert(rd@.skip(0) =~= rd@);
    }
    rd.len()
}

/// `floor(m · 2^l)`.
pub open spec fn int_part(m: nat, l: int) -> nat {
    if l >= 0 {
        m * pow2(l as nat)
    } else {
        m / pow2((-l) as nat)
    }
}

/// For `l < 0`: the first `k` decimal digits after the point of
/// `m · 2^l`, as the integer `floor(frac(m · 2^l) · 10^k)`.
pub open spec fn frac_digits(m: nat, l: int, k: nat) -> nat {
    (m % pow2((-l) as nat)) * pow10(k) / pow2((-l) as nat)
}

/// Number of significant decimal digits (0 for 0).
pub open spec fn sig_digits(v: nat) -> nat {
    if v == 0 {
        0
    } else {
        dec_len(v)
    }
}

/// The text of `±m · 2^l` (sign `neg`) with `digits` significant digits:
/// the integer part in full, then as many fraction digits as make up
/// `digits` in all, truncated, with trailing zeros (and a bare point)
/// dropped; an integral value (`l >= 0`) gets no point.
pub open spec fn decimal_text(neg: bool, m: nat, l: int, digits: nat) -> Seq<char> {
    if m == 0 {
        seq!['0']
    } else {
        let ip = int_part(m, l);
        let head = (if neg {
            seq!['-']
        } else {
            Seq::empty()
        }) + dec_str(ip);
        let nd = sig_digits(ip);
        if nd >= digits || l >= 0 {
            head
        } else {
            let fd = (digits - nd) as nat;
            let t = trim_zeros(dec_pad(frac_digits(m, l, fd), fd));
            if t.len() == 0 {
                head
            } else {
                head + seq!['.'] + t
            }
        }
    }
}

/// The fraction bits of `m · 2^-s`, moved to the top of a window of
/// `s + t` bits.
proof fn lemma_frac_window(m: nat, s: nat, t: nat)
    ensures
        (m * pow2(t)) % pow2(s + t) == (m % pow2(s)) * pow2(t),
        (m % pow2(s)) * pow2(t) < pow2(s + t),
{
    lemma_pow2_pos(s);
    lemma_pow2_pos(t);
    lemma_pow2_adds(t, s);
    lemma_fundamental_div_mod(m as int, pow2(s) as int);
    window::lemma_split_divmod(0, m, m / pow2(s), m % pow2(s), t, s);
    assert(m * pow2(t) == 0 + pow2(t) * m) by (nonlinear_arith);
    lemma_pow2_adds(s, t);
    lemma_mod_bound(m as int, pow2(s) as int);
    lemma_mul_strict_inequality((m % pow2(s)) as int, pow2(s) as int, pow2(t) as int);
    assert(t + s == s + t);
}

/// Scaling numerator and denominator by `2^t` leaves a quotient unchanged.
proof fn lemma_frac_scale(x: nat, y: nat, s: nat, t: nat)
    ensures
        (x * pow2(t)) * y / pow2(s + t) == x * y / pow2(s),
{
    lemma_pow2_pos(s);
    lemma_pow2_pos(t);
    lemma_pow2_adds(s, t);
    let p = x * y;
    let ps = pow2(s) as int;
    let pt = pow2(t) as int;
    lemma_fundamental_div_mod(p as int, ps);
    let q = p / pow2(s);
    let r = p % pow2(s);
    assert((x * pt) * y == q * (ps * pt) + r * pt) by (nonlinear_arith)
        requires
            p == x * y,
            p == ps * q + r,
    ;
    assert(r * pt < ps * pt) by (nonlinear_arith)
        requires
            r < ps,
            pt > 0,
    ;
    lemma_fundamental_div_mod_converse((x * pt) * y, ps * pt, q as int, r * pt);
}

/// One step of digit generation: multiplying the fraction window by `10^c`
/// produces the next `c` digits as the carry out of the window.
proof fn lemma_frac_step(f0: nat, w: nat, k: nat, c: nat, carry: nat, r1: nat)
    requires
        w > 0,
        r1 < w,
        r1 + carry * w == ((f0 * pow10(k)) % w) * pow10(c),
    ensures
        (f0 * pow10(k + c)) / w == (f0 * pow10(k)) / w * pow10(c) + carry,
        (f0 * pow10(k + c)) % w == r1,
        carry < pow10(c),
{
    lemma_pow10_add(k, c);
    lemma_pow10_pos(c);
    let x = f0 * pow10(k);
    lemma_fundamental_div_mod(x as int, w as int);
    let a = x / w;
    let r = x % w;
    let pc = pow10(c);
    assert(f0 * pow10(k + c) == x * pc) by (nonlinear_arith)
        requires
            pow10(k + c) == pow10(k) * pc,
            x == f0 * pow10(k),
    ;
    assert(x * pc == (a * pc + carry) * w + r1) by (nonlinear_arith)
        requires
            x == w * a + r,
            r1 + carry * w == r * pc,
    ;
    lemma_mod_bound(x as int, w as int);
    lemma_mul_strict_inequality(r as int, w as int, pc as int);
    if carry >= pc {
        lemma_mul_inequality(pc as int, carry as int, w as int);
        assert(w * pc == pc * w) by (nonlinear_arith);
        assert(false);
    }
    lemma_fundamental_div_mod_converse((x * pc) as int, w as int, (a * pc + carry) as int, r1 as int);
}

/// `10^c` for `c <= 19`.
fn pow10_u64(c: u32) -> (m: u64)
    requires
        c <= 19,
    ensures
        m as nat == pow10(c as nat),
{
    let mut m: u64 = 1;
    let mut i: u32 = 0;
    proof {
        lemma_pow10_19();
    }
    while i < c
        invariant
            i <= c <= 19,
            m as nat == pow10(i as nat),
        decreases c - i,
    {
        proof {
            lemma_pow10_add(i as nat, (19 - i) as nat);
            assert(i + (19 - i) == 19);
            assert(pow10((19 - i) as nat) == 10 * pow10((18 - i) as nat));
            lemma_pow10_pos((18 - i) as nat);
            assert(pow10((i + 1) as nat) == 10 * pow10(i as nat));
            assert(pow10(i as nat) * 10 <= pow10(i as nat) * pow10((19 - i) as nat)) by (
            nonlinear_arith)
                requires
                    i < 19,
                    pow10((19 - i) as nat) >= 10,
            ;
            assert(pow10(i as nat) * pow10((19 - i) as nat) == pow10(19));
            lemma_pow10_19();
            assert(m * 10 <= 10_000_000_000_000_000_000nat) by (nonlinear_arith)
                requires
                    m as nat == pow10(i as nat),
                    pow10(i as nat) * 10 <= pow10(i as nat) * pow10((19 - i) as nat),
                    pow10(i as nat) * pow10((19 - i) as nat) == 10_000_000_000_000_000_000nat,
            ;
        }
        m = m * 10;
        i = i + 1;
    }
    m
}

impl Float {
    /// Decimal text with `digits` significant digits. The digits are
    /// truncated, not rounded: the integer part is written in full, then as
    /// many digits after the point as make up `digits` in all, with trailing
    /// zeros dropped.
    pub fn to_decimal(&self, digits: usize) -> (s: String)
        requires
            self.wf(),
            self.low() > 0 ==> self.nlimbs() + self.low() / 64 + 1 <= usize::MAX,
            self.low() < 0 ==> (-self.low()) / 64 + 1 < usize::MAX,
        ensures
            s@ == decimal_text(self.sign(), self.mant(), self.low(), digits as nat),
    {
        if self.is_zero() {
            proof {
                reveal_strlit("0");
            }
            let z = String::from_str("0");
            proof {
                assert(z@ =~= seq!['0']);
            }
            return z;
        }
        let mut out = String::new();
        if self.neg {
            proof {
                reveal_strlit("-");
            }
            out.append("-");
        }
        let ghost head0 = out@;
        proof {
            assert(head0 =~= (if self.neg {
                seq!['-']
            } else {
                Seq::<char>::empty()
            }));
        }
        let n = self.limbs.len();
        let low: i64 = self.exp - 64 * (n as i64);
        let ip: Vec<Limb> = if low >= 0 {
            window::shl_bits(self.limbs.as_slice(), low as u64)
        } else {
            window::shr_bits(self.limbs.as_slice(), (-low) as u64).0
        };
        let nd = limbs_to_decimal(&mut out, ip.as_slice());
        let ghost ipv = int_part(self.mant(), self.low());
        proof {
            assert(value_of(ip@) == ipv);
        }
        if nd >= digits || low >= 0 {
            return out;
        }
        let fd = digits - nd;
        let sh: u64 = (-low) as u64;
        let fl: usize = ((sh + 63) / 64) as usize;
        let t: u64 = 64 * (fl as u64) - sh;
        let g = window::shl_bits(self.limbs.as_slice(), t);
        let mut f: Vec<Limb> = Vec::new();
        let mut i: usize = 0;
        while i < fl
            invariant
                i <= fl,
                f@.len() == i,
                forall|j: int| 0 <= j < i ==> f@[j] == (if j < g@.len() {
                    g@[j]
                } else {
                    0u64
                }),
            decreases fl - i,
        {
            let x = if i < g.len() {
                g[i]
            } else {
                0
            };
            f.push(x);
            i = i + 1;
        }
        let ghost w = limb_weight(fl as nat);
        let ghost f0 = value_of(f@);
        proof {
            let sn = sh as nat;
            let tn = t as nat;
            assert(64 * (fl as nat) == sn + tn);
            lemma_weight_pos(fl as nat);
            if g@.len() >= fl {
                assert(f@ =~= g@.take(fl as int));
                crate::limb_spec::lemma_value_split(g@, fl as int);
                lemma_value_bound(f@);
                let sk = value_of(g@.skip(fl as int));
                assert(value_of(g@) == sk * w + f0) by (nonlinear_arith)
                    requires
                        value_of(g@) == f0 + w * sk,
                ;
                lemma_fundamental_div_mod_converse(
                    value_of(g@) as int,
                    w as int,
                    value_of(g@.skip(fl as int)) as int,
                    f0 as int,
                );
            } else {
                assert(f@.take(g@.len() as int) =~= g@);
                crate::limb_spec::lemma_value_zeros_above(f@, g@.len() as int);
                lemma_value_bound(g@);
                crate::limb_spec::lemma_weight_mono(g@.len(), fl as nat);
                lemma_small_mod(value_of(g@), w);
            }
            lemma_frac_window(self.mant(), sn, tn);
            assert(f0 == (self.mant() % pow2(sn)) * pow2(tn));
            assert(f0 < w);
            lemma_small_mod(f0, w);
            assert(pow10(0) == 1);
            assert(f0 * pow10(0) == f0) by (nonlinear_arith)
                requires
                    pow10(0) == 1,
            ;
            assert(dec_pad((f0 * pow10(0)) / w, 0) =~= fwd_chars(Seq::<u8>::empty()));
        }
        let mut ds: Vec<u8> = Vec::new();
        let mut rem = fd;
        while rem > 0
            invariant
                rem <= fd,
                f@.len() == fl,
                w > 0,
                all_digits(ds@),
                ds@.len() == fd - rem,
                fwd_chars(ds@) == dec_pad((f0 * pow10(ds@.len())) / w, ds@.len()),
                value_of(f@) == (f0 * pow10(ds@.len())) % w,
                w == limb_weight(fl as nat),
            decreases rem,
        {
            let c: u32 = if rem < 19 {
                rem as u32
            } else {
                19
            };
            let m = pow10_u64(c);
            let src = mpn::copy_limbs(f.as_slice());
            let ghost k = ds@.len();
            let carry = mpn::mul_1(&mut f, src.as_slice(), m);
            proof {
                lemma_value_bound(f@);
                lemma_frac_step(f0, w, k, c as nat, carry as nat, value_of(f@));
                lemma_dec_pad_split((f0 * pow10(k)) / w, carry as nat, k, c as nat);
            }
            push_pad_fwd(&mut ds, carry, c);
            rem = rem - c as usize;
        }
        let ghost digs = dec_pad(frac_digits(self.mant(), self.low(), fd as nat), fd as nat);
        proof {
            lemma_frac_scale(self.mant() % pow2(sh as nat), pow10(fd as nat), sh as nat, t as nat);
            assert(64 * (fl as nat) == sh as nat + t as nat);
            assert(fwd_chars(ds@) == digs);
            assert(ds@.take(ds@.len() as int) =~= ds@);
        }
        let mut j = ds.len();
        while j > 0 && ds[j - 1] == 0
            invariant
                j <= ds@.len(),
                all_digits(ds@),
                trim_zeros(fwd_chars(ds@)) == trim_zeros(fwd_chars(ds@.take(j as int))),
            decreases j,
        {
            proof {
                let sj = ds@.take(j as int);
                assert(sj.drop_last() =~= ds@.take(j - 1));
                assert(fwd_chars(sj) == fwd_chars(ds@.take(j - 1)).push(digit_char(0)));
                assert(fwd_chars(sj).drop_last() =~= fwd_chars(ds@.take(j - 1)));
            }
            j = j - 1;
        }
        proof {
            if j == 0 {
                assert(ds@.take(0) =~= Seq::<u8>::empty());
                assert(fwd_chars(Seq::<u8>::empty()) =~= Seq::<char>::empty());
            } else {
                let sj = ds@.take(j as int);
                assert(sj.drop_last() =~= ds@.take(j - 1));
                assert(fwd_chars(sj).last() == digit_char(ds@[j - 1] as nat));
            }
        }
        if j > 0 {
            proof {
                reveal_strlit(".");
            }
            out.append(".");
            let ghost head1 = out@;
            let mut k: usize = 0;
            proof {
                assert(ds@.take(0) =~= Seq::<u8>::empty());
                assert(head1 + fwd_chars(Seq::<u8>::empty()) =~= head1);
            }
            while k < j
                invariant
                    k <= j <= ds@.len(),
                    all_digits(ds@),
                    out@ == head1 + fwd_chars(ds@.take(k as int)),
                decreases j - k,
            {
                push_digit(&mut out, ds[k]);
                proof {
                    assert(ds@.take(k + 1).drop_last() =~= ds@.take(k as int));
                    assert(head1 + fwd_chars(ds@.take(k as int)).push(digit_char(ds@[k as int] as nat))
                        =~= (head1 + fwd_chars(ds@.take(k as int))).push(digit_char(ds@[k as int] as nat)));
                }
                k = k + 1;
            }
            proof {
                assert(head1 =~= head0 + dec_str(ipv) + seq!['.']);
            }
        }
        out
    }
}

/// The decimal text of an integer: a minus sign for negatives, then the
/// digits of its absolute value.
pub open spec fn int_text(v: int) -> Seq<char> {
    if v < 0 {
        seq!['-'] + dec_str((-v) as nat)
    } else {
        dec_str(v as nat)
    }
}

/// The text of a radius bound: `0`, or the power of two above it.
pub open spec fn mag_text(man: nat, e: int) -> Seq<char> {
    if man == 0 {
        seq!['0']
    } else {
        seq!['2', '^'] + int_text(e)
    }
}

/// The text of a ball: midpoint digits and radius in brackets.
pub open spec fn ball_text(mid: Float, rad: Mag, digits: nat) -> Seq<char> {
    seq!['['] + decimal_text(mid.sign(), mid.mant(), mid.low(), digits) + seq![' ', '±', ' ']
        + mag_text(rad.mn(), rad.ex()) + seq![']']
}

/// Appends the decimal text of `v`.
fn push_i64(out: &mut String, v: i64)
    ensures
        final(out)@ == old(out)@ + int_text(v as int),
{
    let a: u64 = if v < 0 {
        proof {
            reveal_strlit("-");
        }
        out.append("-");
        (-(v as i128)) as u64
    } else {
        v as u64
    };
    let ghost mid = out@;
    let digits = vec![a];
    proof {
        lemma_value_single(a);
        assert(digits@ =~= seq![a]);
    }
    limbs_to_decimal(out, digits.as_slice());
    proof {
        if v < 0 {
            assert(final(out)@ =~= old(out)@ + (seq!['-'] + dec_str((-v) as nat)));
        }
    }
}

impl Ball {
    /// Printable form: the midpoint with `max_digits` significant digits
    /// (see [`Float::to_decimal`]), and the radius as a power of two.
    pub fn to_string_digits(&self, max_digits: usize) -> (s: String)
        requires
            self.wf(),
            self.mid_f().low() > 0 ==> self.mid_f().nlimbs() + self.mid_f().low() / 64 + 1
                <= usize::MAX,
            self.mid_f().low() < 0 ==> (-self.mid_f().low()) / 64 + 1 < usize::MAX,
        ensures
            s@ == ball_text(self.mid_f(), self.rad_m(), max_digits as nat),
    {
        proof {
            reveal_strlit("[");
            reveal_strlit(" ± ");
            reveal_strlit("]");
            reveal_strlit("0");
            reveal_strlit("2^");
        }
        let mut out = String::from_str("[");
        let m = self.mid.to_decimal(max_digits);
        out.append(m.as_str());
        out.append(" ± ");
        if self.rad.man == 0 {
            out.append("0");
        } else {
            out.append("2^");
            push_i64(&mut out, self.rad.exp);
        }
        out.append("]");
        proof {
            assert(out@ =~= ball_text(self.mid_f(), self.rad_m(), max_digits as nat));
        }
        out
    }
}

} // verus!
