//! High-precision signed decimals: a sign, little-endian digits, and a scale.
//! A value `d` denotes the rational `d.num / 10^d.scale`. The bisection
//! engine tracks bounds, midpoints and errors in this form so that halving
//! an interval is exact.

use vstd::prelude::*;

use crate::digits::digits_wf;
use crate::digits::pow10;
use crate::digits::val;
use crate::digits::ucmp;
use crate::digits::uadd;
use crate::digits::usub;
use crate::digits::umul5;
use crate::digits::ushl;
use crate::digits::udivrem;
use crate::digits::uis_zero;
use crate::digits::Cmp;
use crate::digits::lemma_pow10_pos;
use crate::digits::lemma_pow10_add;
use crate::digits::lemma_val_snoc;

verus! {

/// A high-precision decimal number.
pub struct Dec {
    /// Whether the value is strictly negative.
    pub neg: bool,
    /// Little-endian base-ten digits of the magnitude.
    pub digits: Vec<u8>,
    /// Number of fractional digits.
    pub scale: usize,
}

/// The mathematical content of a [`Dec`]: a scaled integer denoting
/// `num / 10^scale`.
pub ghost struct DecV {
    pub num: int,
    pub scale: nat,
}

/// Absolute value on integers.
pub open spec fn iabs(x: int) -> int {
    if x < 0 {
        -x
    } else {
        x
    }
}

/// `a < b` as rationals: cross-multiplied by the two scale factors.
pub open spec fn d_lt(a: DecV, b: DecV) -> bool {
    a.num * pow10(b.scale) < b.num * pow10(a.scale)
}

/// `a <= b` as rationals.
pub open spec fn d_le(a: DecV, b: DecV) -> bool {
    a.num * pow10(b.scale) <= b.num * pow10(a.scale)
}

impl Dec {
    /// Digits are digits, the scale lies inside the digit vector, and a
    /// negative number has a nonzero magnitude.
    pub open spec fn wf(self) -> bool {
        &&& digits_wf(self.digits@)
        &&& self.scale < self.digits@.len()
        &&& (self.neg ==> val(self.digits@) > 0)
    }

    /// The signed scaled integer this decimal denotes.
    pub open spec fn num(self) -> int {
        if self.neg {
            -(val(self.digits@) as int)
        } else {
            val(self.digits@) as int
        }
    }
}

impl View for Dec {
    type V = DecV;

    open spec fn view(&self) -> DecV {
        DecV { num: self.num(), scale: self.scale as nat }
    }
}

/// Pushes high zeros until the digit vector is longer than `s`.
pub(crate) fn pad_digits(d: &mut Vec<u8>, s: usize)
    requires
        digits_wf(old(d)@),
    ensures
        digits_wf(final(d)@),
        val(final(d)@) == val(old(d)@),
        final(d)@.len() > s,
        final(d)@.len() >= old(d)@.len(),
{
    while d.len() <= s
        invariant
            digits_wf(d@),
            val(d@) == val(old(d)@),
            d@.len() >= old(d)@.len(),
        decreases s + 1 - d@.len(),
    {
        proof {
            lemma_val_snoc(d@, 0);
        }
        d.push(0);
    }
}

/// Same value at a larger scale: multiplies the scaled integer by the
/// matching power of ten.
pub fn rescale(d: &Dec, s: usize) -> (r: Dec)
    requires
        d.wf(),
        s >= d.scale,
    ensures
        r.wf(),
        r@.scale == s,
        r@.num == d@.num * pow10((s - d@.scale) as nat),
{
    let k = s - d.scale;
    let digits = ushl(&d.digits, k);
    proof {
        lemma_pow10_pos(k as nat);
        let p = pow10(k as nat);
        let v = val(d.digits@);
        if d.neg {
            assert(p * v > 0) by (nonlinear_arith)
                requires
                    p >= 1,
                    v > 0,
            ;
            assert(-((p * v) as int) == (-(v as int)) * p) by (nonlinear_arith);
        } else {
            assert((p * v) as int == (v as int) * p) by (nonlinear_arith);
        }
    }
    Dec { neg: d.neg, digits, scale: s }
}

/// Half the sum of two equally scaled decimals, expressed exactly one scale
/// deeper: `(l + u) / 2 == 5 * (l.num + u.num) / 10^(scale + 1)`.
pub fn midpoint(l: &Dec, u: &Dec) -> (r: Dec)
    requires
        l.wf(),
        u.wf(),
        l@.scale == u@.scale,
    ensures
        r.wf(),
        r@.scale == l@.scale + 1,
        r@.num == 5 * (l@.num + u@.num),
{
    let (sneg, mag): (bool, Vec<u8>) = if l.neg == u.neg {
        (l.neg, uadd(&l.digits, &u.digits))
    } else {
        let c = ucmp(&l.digits, &u.digits);
        if c == Cmp::Eq {
            (false, Vec::new())
        } else if c == Cmp::Gt {
            (l.neg, usub(&l.digits, &u.digits))
        } else {
            (u.neg, usub(&u.digits, &l.digits))
        }
    };
    proof {
        assert(val(mag@) == iabs(l@.num + u@.num));
        assert(sneg ==> l@.num + u@.num < 0);
        assert(!sneg && val(mag@) > 0 ==> l@.num + u@.num > 0);
    }
    let mut m5 = umul5(&mag);
    let n = l.digits.len();
    assert(l.scale < n);
    let s1 = l.scale + 1;
    pad_digits(&mut m5, s1);
    proof {
        if sneg {
            assert(-((5 * val(mag@)) as int) == 5 * (l@.num + u@.num));
        } else {
            assert((5 * val(mag@)) as int == 5 * (l@.num + u@.num));
        }
    }
    Dec { neg: sneg, digits: m5, scale: s1 }
}

/// The absolute difference of two equally scaled decimals.
pub fn abs_diff(a: &Dec, b: &Dec) -> (r: Dec)
    requires
        a.wf(),
        b.wf(),
        a@.scale == b@.scale,
    ensures
        r.wf(),
        r@.scale == a@.scale,
        r@.num == iabs(a@.num - b@.num),
        !r.neg,
{
    let mag: Vec<u8> = if a.neg == b.neg {
        let c = ucmp(&a.digits, &b.digits);
        if c == Cmp::Lt {
            usub(&b.digits, &a.digits)
        } else {
            usub(&a.digits, &b.digits)
        }
    } else {
        uadd(&a.digits, &b.digits)
    };
    proof {
        assert(val(mag@) == iabs(a@.num - b@.num));
    }
    let mut dd = mag;
    pad_digits(&mut dd, a.scale);
    Dec { neg: false, digits: dd, scale: a.scale }
}

/// Whether the decimal denotes zero.
pub fn dec_is_zero(d: &Dec) -> (r: bool)
    requires
        d.wf(),
    ensures
        r == (d@.num == 0),
{
    uis_zero(&d.digits)
}

/// Strict multiplication cancellation: multiplying both sides of an order
/// by a positive factor preserves and reflects it.
proof fn lemma_mul_lt_cancel(x: int, y: int, c: int)
    requires
        c >= 1,
    ensures
        (x < y) <==> (x * c < y * c),
{
    assert((x < y) <==> (x * c < y * c)) by (nonlinear_arith)
        requires
            c >= 1,
    ;
}

/// Comparison of two decimals agrees with comparing their scaled integers
/// once both are brought to a common scale.
proof fn lemma_cross_scale(a: DecV, b: DecV, s: nat)
    requires
        s >= a.scale,
        s >= b.scale,
    ensures
        d_lt(a, b) <==> a.num * pow10((s - a.scale) as nat) < b.num * pow10((s - b.scale) as nat),
{
    let ka = (s - a.scale) as nat;
    let kb = (s - b.scale) as nat;
    let na: int = a.num;
    let nb: int = b.num;
    let pa: int = pow10(a.scale) as int;
    let pb: int = pow10(b.scale) as int;
    let qa: int = pow10(ka) as int;
    let qb: int = pow10(kb) as int;
    lemma_pow10_pos(a.scale);
    lemma_pow10_pos(b.scale);
    lemma_pow10_pos(ka);
    lemma_pow10_pos(kb);
    lemma_pow10_add(ka, a.scale);
    lemma_pow10_add(kb, b.scale);
    assert(qa * pa == pow10(s)) by (nonlinear_arith)
        requires
            pow10(ka) * pow10(a.scale) == pow10(s),
            qa == pow10(ka),
            pa == pow10(a.scale),
    ;
    assert(qb * pb == pow10(s)) by (nonlinear_arith)
        requires
            pow10(kb) * pow10(b.scale) == pow10(s),
            qb == pow10(kb),
            pb == pow10(b.scale),
    ;
    assert(qa * qb >= 1) by (nonlinear_arith)
        requires
            qa >= 1,
            qb >= 1,
    ;
    assert(pa * pb >= 1) by (nonlinear_arith)
        requires
            pa >= 1,
            pb >= 1,
    ;
    assert(pa * qa >= 1) by (nonlinear_arith)
        requires
            pa >= 1,
            qa >= 1,
    ;
    assert(pb * qb == pa * qa) by (nonlinear_arith)
        requires
            qa * pa == pow10(s),
            qb * pb == pow10(s),
    ;
    lemma_mul_lt_cancel(na * pb, nb * pa, qa * qb);
    assert((na * pb) * (qa * qb) == (na * qa) * (pb * qb)) by (nonlinear_arith);
    assert((nb * pa) * (qa * qb) == (nb * qb) * (pa * qa)) by (nonlinear_arith);
    assert((na * qa) * (pb * qb) == (na * qa) * (pa * qa)) by (nonlinear_arith)
        requires
            pb * qb == pa * qa,
    ;
    lemma_mul_lt_cancel(na * qa, nb * qb, pa * qa);
}

/// Whether `a` denotes a strictly smaller value than `b`.
pub fn dec_lt(a: &Dec, b: &Dec) -> (r: bool)
    requires
        a.wf(),
        b.wf(),
    ensures
        r == d_lt(a@, b@),
{
    let s = if a.scale > b.scale {
        a.scale
    } else {
        b.scale
    };
    let ra = rescale(a, s);
    let rb = rescale(b, s);
    proof {
        lemma_cross_scale(a@, b@, s as nat);
    }
    let r = if ra.neg && !rb.neg {
        proof {
            lemma_pow10_pos((s - a@.scale) as nat);
            let v = val(ra.digits@);
            assert(ra@.num < 0);
            assert(rb@.num >= 0);
        }
        true
    } else if !ra.neg && rb.neg {
        false
    } else if !ra.neg && !rb.neg {
        let c = ucmp(&ra.digits, &rb.digits);
        c == Cmp::Lt
    } else {
        let c = ucmp(&ra.digits, &rb.digits);
        c == Cmp::Gt
    };
    r
}

/// Truncating division at scale `p`: the floor of `|a| / |b|` carried to `p`
/// fractional digits. Both arguments share a scale, so the ratio of the
/// values is the ratio of the scaled integers.
pub fn div_trunc(a: &Dec, b: &Dec, p: usize) -> (r: Dec)
    requires
        a.wf(),
        b.wf(),
        !a.neg,
        a@.scale == b@.scale,
        b@.num != 0,
    ensures
        r.wf(),
        r@.scale == p,
        r@.num == (a@.num * pow10(p as nat)) / iabs(b@.num),
        !r.neg,
{
    let sh = ushl(&a.digits, p);
    let (q, rem) = udivrem(&sh, &b.digits);
    proof {
        let va = val(a.digits@) as int;
        let vb = val(b.digits@) as int;
        let vq = val(q@) as int;
        let vr = val(rem@) as int;
        assert(vb >= 1);
        assert(val(sh@) == pow10(p as nat) * val(a.digits@));
        assert(va * pow10(p as nat) == pow10(p as nat) * va) by (nonlinear_arith);
        vstd::arithmetic::div_mod::lemma_fundamental_div_mod_converse_div(
            val(sh@) as int,
            vb,
            vq,
            vr,
        );
        assert(iabs(b@.num) == vb);
        assert(a@.num == va);
    }
    Dec { neg: false, digits: q, scale: p }
}

/// A fresh decimal with the same value and scale.
pub fn dec_copy(d: &Dec) -> (r: Dec)
    requires
        d.wf(),
    ensures
        r.wf(),
        r@ == d@,
{
    let r = rescale(d, d.scale);
    proof {
        lemma_pow10_pos(0);
        assert(d@.num * pow10(0) == d@.num) by (nonlinear_arith)
            requires
                pow10(0) == 1,
        ;
        assert(r@ =~= d@);
    }
    r
}

} // verus!
