//! Arbitrary-precision unsigned arithmetic on little-endian base-ten digit
//! vectors. These magnitudes underlie the high-precision decimals that the
//! bisection engine tracks its midpoints and errors with.

use vstd::prelude::*;

verus! {

/// Every entry is a single decimal digit.
pub open spec fn digits_wf(s: Seq<u8>) -> bool {
    forall|i: int| 0 <= i < s.len() ==> s[i] < 10
}

/// Base-ten power.
pub open spec fn pow10(n: nat) -> nat
    decreases n,
{
    if n == 0 {
        1
    } else {
        10 * pow10((n - 1) as nat)
    }
}

/// The number a little-endian digit vector denotes.
pub open spec fn val(s: Seq<u8>) -> nat
    decreases s.len(),
{
    if s.len() == 0 {
        0
    } else {
        (s[0] + 10 * val(s.drop_first())) as nat
    }
}

/// The digit at position `i`, zero beyond the vector's end.
pub open spec fn dig(s: Seq<u8>, i: int) -> u8 {
    if 0 <= i < s.len() {
        s[i]
    } else {
        0
    }
}

pub proof fn lemma_pow10_pos(n: nat)
    ensures
        pow10(n) >= 1,
    decreases n,
{
    if n > 0 {
        lemma_pow10_pos((n - 1) as nat);
    }
}

pub proof fn lemma_pow10_add(a: nat, b: nat)
    ensures
        pow10(a + b) == pow10(a) * pow10(b),
    decreases a,
{
    if a == 0 {
        assert(pow10(a + b) == pow10(b));
        assert(pow10(a) == 1);
        assert(pow10(a + b) == pow10(a) * pow10(b));
    } else {
        lemma_pow10_add((a - 1) as nat, b);
        let p = pow10((a - 1) as nat);
        let q = pow10(b);
        assert(pow10(a + b) == 10 * pow10((a + b - 1) as nat));
        assert(pow10((a + b - 1) as nat) == pow10((a - 1) as nat + b));
        assert(pow10(a) == 10 * p);
        assert(pow10(a + b) == pow10(a) * pow10(b)) by (nonlinear_arith)
            requires
                pow10(a + b) == 10 * (p * q),
                pow10(a) == 10 * p,
                pow10(b) == q,
        ;
    }
}

/// Appending a digit at the high end adds it scaled by the vector's length.
pub proof fn lemma_val_snoc(s: Seq<u8>, d: u8)
    ensures
        val(s.push(d)) == val(s) + d * pow10(s.len()),
    decreases s.len(),
{
    if s.len() == 0 {
        assert(s.push(d).len() == 1);
        assert(s.push(d)[0] == d);
        assert(val(s.push(d).drop_first()) == 0);
        assert(pow10(s.len()) == 1);
        assert(val(s) + d * pow10(s.len()) == d) by (nonlinear_arith)
            requires
                val(s) == 0,
                pow10(s.len()) == 1,
        ;
    } else {
        assert(s.push(d).drop_first() =~= s.drop_first().push(d));
        lemma_val_snoc(s.drop_first(), d);
        assert(s.push(d)[0] == s[0]);
        let v = val(s.drop_first());
        let p = pow10((s.len() - 1) as nat);
        assert(val(s.push(d)) == s[0] + 10 * (v + d * p));
        assert(val(s.push(d)) == val(s) + d * pow10(s.len())) by (nonlinear_arith)
            requires
                val(s.push(d)) == s[0] + 10 * (v + d * p),
                pow10(s.len()) == 10 * p,
                val(s) == s[0] + 10 * v,
        ;
    }
}

pub proof fn lemma_val_take_succ(s: Seq<u8>, i: int)
    requires
        0 <= i < s.len(),
    ensures
        val(s.take(i + 1)) == val(s.take(i)) + s[i] * pow10(i as nat),
{
    assert(s.take(i + 1) =~= s.take(i).push(s[i]));
    lemma_val_snoc(s.take(i), s[i]);
}

/// A digit vector denotes less than the power of ten at its length.
pub proof fn lemma_val_bound(s: Seq<u8>)
    requires
        digits_wf(s),
    ensures
        val(s) < pow10(s.len()),
    decreases s.len(),
{
    if s.len() == 0 {
    } else {
        lemma_val_bound(s.drop_first());
        let v = val(s.drop_first());
        let p = pow10((s.len() - 1) as nat);
        assert(v + 1 <= p);
        assert(10 * (v + 1) <= 10 * p) by (nonlinear_arith)
            requires
                v + 1 <= p,
        ;
        assert(val(s) == s[0] + 10 * v);
        assert(pow10(s.len()) == 10 * p);
    }
}

/// Splitting a digit vector splits its value at the matching power of ten.
pub proof fn lemma_val_split(s: Seq<u8>, i: int)
    requires
        0 <= i <= s.len(),
    ensures
        val(s) == val(s.take(i)) + pow10(i as nat) * val(s.skip(i)),
    decreases i,
{
    if i == 0 {
        assert(s.take(0) =~= Seq::<u8>::empty());
        assert(s.skip(0) =~= s);
        assert(val(s.take(0)) + pow10(0) * val(s.skip(0)) == val(s)) by (nonlinear_arith)
            requires
                val(s.take(0)) == 0,
                pow10(0) == 1,
                val(s.skip(0)) == val(s),
        ;
    } else {
        lemma_val_split(s, i - 1);
        lemma_val_take_succ(s, i - 1);
        assert(s.skip(i - 1).len() > 0);
        assert(s.skip(i - 1)[0] == s[i - 1]);
        assert(s.skip(i - 1).drop_first() =~= s.skip(i));
        let d = s[i - 1];
        let w = val(s.skip(i));
        let p = pow10((i - 1) as nat);
        assert(val(s.skip(i - 1)) == d + 10 * w);
        assert(val(s) == val(s.take(i - 1)) + p * (d + 10 * w));
        assert(val(s) == val(s.take(i)) + pow10(i as nat) * val(s.skip(i))) by (nonlinear_arith)
            requires
                val(s) == val(s.take(i - 1)) + p * (d + 10 * w),
                pow10(i as nat) == 10 * p,
                val(s.take(i)) == val(s.take(i - 1)) + d * p,
                val(s.skip(i)) == w,
        ;
    }
}

/// Zeros at the high end do not change the value.
pub proof fn lemma_val_pad(s: Seq<u8>, t: Seq<u8>)
    requires
        forall|i: int| 0 <= i < t.len() ==> t[i] == 0,
    ensures
        val(s + t) == val(s),
    decreases t.len(),
{
    if t.len() == 0 {
        assert(s + t =~= s);
    } else {
        assert(s + t =~= (s.push(t[0])) + t.drop_first());
        lemma_val_snoc(s, t[0]);
        lemma_val_pad(s.push(t[0]), t.drop_first());
    }
}

/// The padded view of a digit vector at length `n`.
pub open spec fn padded(s: Seq<u8>, n: nat) -> Seq<u8> {
    Seq::new(n, |i: int| dig(s, i))
}

pub proof fn lemma_val_padded(s: Seq<u8>, n: nat)
    requires
        n >= s.len(),
    ensures
        val(padded(s, n)) == val(s),
{
    assert(padded(s, n) =~= s + Seq::new((n - s.len()) as nat, |i: int| 0u8));
    lemma_val_pad(s, Seq::new((n - s.len()) as nat, |i: int| 0u8));
}

} // verus!

verus! {

/// Result of comparing two magnitudes.
#[derive(Clone, Copy, PartialEq, Eq, Structural, Debug)]
pub enum Cmp {
    Lt,
    Eq,
    Gt,
}

/// A value is zero exactly when every digit is zero.
pub proof fn lemma_val_zero(s: Seq<u8>)
    ensures
        (val(s) == 0) <==> (forall|i: int| 0 <= i < s.len() ==> s[i] == 0),
    decreases s.len(),
{
    if s.len() > 0 {
        lemma_val_zero(s.drop_first());
        if val(s) == 0 {
            assert(s[0] == 0);
            assert(val(s.drop_first()) == 0);
            assert forall|i: int| 0 <= i < s.len() implies s[i] == 0 by {
                if i > 0 {
                    assert(s[i] == s.drop_first()[i - 1]);
                }
            }
        } else {
            if forall|i: int| 0 <= i < s.len() ==> s[i] == 0 {
                assert forall|i: int| 0 <= i < s.drop_first().len() implies s.drop_first()[i]
                    == 0 by {
                    assert(s.drop_first()[i] == s[i + 1]);
                }
                assert(val(s.drop_first()) == 0);
                assert(val(s) == 0);
            }
        }
    }
}

/// Two equally long digit vectors that agree above position `i` are ordered
/// as their digits at `i` when those differ.
proof fn lemma_cmp_at(pa: Seq<u8>, pb: Seq<u8>, i: int)
    requires
        pa.len() == pb.len(),
        0 <= i < pa.len(),
        digits_wf(pa),
        digits_wf(pb),
        forall|j: int| i < j < pa.len() ==> pa[j] == pb[j],
        pa[i] < pb[i],
    ensures
        val(pa) < val(pb),
{
    lemma_val_split(pa, i);
    lemma_val_split(pb, i);
    assert(pa.skip(i).len() > 0);
    assert(pa.skip(i)[0] == pa[i]);
    assert(pa.skip(i).drop_first() =~= pa.skip(i + 1));
    assert(pb.skip(i)[0] == pb[i]);
    assert(pb.skip(i).drop_first() =~= pb.skip(i + 1));
    assert(pa.skip(i + 1) =~= pb.skip(i + 1));
    assert(digits_wf(pa.take(i)));
    lemma_val_bound(pa.take(i));
    lemma_pow10_pos(i as nat);
    let p = pow10(i as nat);
    let w = val(pa.skip(i + 1));
    let vta = val(pa.take(i));
    let vtb = val(pb.take(i));
    assert(val(pa.skip(i)) == pa[i] + 10 * w);
    assert(val(pb.skip(i)) == pb[i] + 10 * w);
    assert(val(pa) < val(pb)) by (nonlinear_arith)
        requires
            val(pa) == vta + p * (pa[i] + 10 * w),
            val(pb) == vtb + p * (pb[i] + 10 * w),
            vta < p,
            vtb >= 0,
            pa[i] + 1 <= pb[i],
            p >= 1,
            w >= 0,
    ;
}

/// Compares the numbers that two digit vectors denote.
pub fn ucmp(a: &Vec<u8>, b: &Vec<u8>) -> (r: Cmp)
    requires
        digits_wf(a@),
        digits_wf(b@),
    ensures
        (r == Cmp::Lt) <==> val(a@) < val(b@),
        (r == Cmp::Eq) <==> val(a@) == val(b@),
        (r == Cmp::Gt) <==> val(a@) > val(b@),
{
    let n = if a.len() > b.len() {
        a.len()
    } else {
        b.len()
    };
    let ghost pa = padded(a@, n as nat);
    let ghost pb = padded(b@, n as nat);
    proof {
        lemma_val_padded(a@, n as nat);
        lemma_val_padded(b@, n as nat);
    }
    let mut i: usize = n;
    while i > 0
        invariant
            i <= n,
            n >= a.len(),
            n >= b.len(),
            digits_wf(a@),
            digits_wf(b@),
            pa == padded(a@, n as nat),
            pb == padded(b@, n as nat),
            val(pa) == val(a@),
            val(pb) == val(b@),
            forall|j: int| i <= j < n ==> pa[j] == pb[j],
        decreases i,
    {
        i = i - 1;
        let da = if i < a.len() {
            a[i]
        } else {
            0
        };
        let db = if i < b.len() {
            b[i]
        } else {
            0
        };
        if da < db {
            proof {
                lemma_cmp_at(pa, pb, i as int);
            }
            return Cmp::Lt;
        }
        if db < da {
            proof {
                lemma_cmp_at(pb, pa, i as int);
            }
            return Cmp::Gt;
        }
    }
    proof {
        assert(pa =~= pb);
    }
    Cmp::Eq
}

/// Adds two magnitudes digit by digit with carry.
pub fn uadd(a: &Vec<u8>, b: &Vec<u8>) -> (r: Vec<u8>)
    requires
        digits_wf(a@),
        digits_wf(b@),
    ensures
        digits_wf(r@),
        val(r@) == val(a@) + val(b@),
        r@.len() >= a@.len(),
        r@.len() >= b@.len(),
{
    let n = if a.len() > b.len() {
        a.len()
    } else {
        b.len()
    };
    let ghost pa = padded(a@, n as nat);
    let ghost pb = padded(b@, n as nat);
    proof {
        lemma_val_padded(a@, n as nat);
        lemma_val_padded(b@, n as nat);
    }
    let mut r: Vec<u8> = Vec::new();
    let mut carry: u8 = 0;
    let mut i: usize = 0;
    while i < n
        invariant
            i <= n,
            n >= a.len(),
            n >= b.len(),
            digits_wf(a@),
            digits_wf(b@),
            pa == padded(a@, n as nat),
            pb == padded(b@, n as nat),
            val(pa) == val(a@),
            val(pb) == val(b@),
            r@.len() == i,
            carry <= 1,
            digits_wf(r@),
            val(r@) + carry * pow10(i as nat) == val(pa.take(i as int)) + val(pb.take(i as int)),
        decreases n - i,
    {
        let da = if i < a.len() {
            a[i]
        } else {
            0
        };
        let db = if i < b.len() {
            b[i]
        } else {
            0
        };
        assert(da < 10 && db < 10);
        let s = da + db + carry;
        let d = s % 10;
        let c = s / 10;
        proof {
            lemma_val_take_succ(pa, i as int);
            lemma_val_take_succ(pb, i as int);
            lemma_val_snoc(r@, d);
            let p = pow10(i as nat);
            assert(val(r@.push(d)) + c * pow10((i + 1) as nat) == val(pa.take(i + 1)) + val(
                pb.take(i + 1),
            )) by (nonlinear_arith)
                requires
                    val(r@.push(d)) == val(r@) + d * p,
                    pow10((i + 1) as nat) == 10 * p,
                    val(r@) + carry * p == val(pa.take(i as int)) + val(pb.take(i as int)),
                    val(pa.take(i + 1)) == val(pa.take(i as int)) + pa[i as int] * p,
                    val(pb.take(i + 1)) == val(pb.take(i as int)) + pb[i as int] * p,
                    d + 10 * c == pa[i as int] + pb[i as int] + carry,
            ;
        }
        r.push(d);
        carry = c;
        i = i + 1;
    }
    proof {
        assert(pa.take(n as int) =~= pa);
        assert(pb.take(n as int) =~= pb);
    }
    if carry > 0 {
        proof {
            lemma_val_snoc(r@, carry);
        }
        r.push(carry);
    }
    r
}

/// Subtracts the smaller magnitude from the larger, digit by digit with borrow.
pub fn usub(a: &Vec<u8>, b: &Vec<u8>) -> (r: Vec<u8>)
    requires
        digits_wf(a@),
        digits_wf(b@),
        val(b@) <= val(a@),
    ensures
        digits_wf(r@),
        val(r@) == val(a@) - val(b@),
        r@.len() >= a@.len(),
{
    let n = if a.len() > b.len() {
        a.len()
    } else {
        b.len()
    };
    let ghost pa = padded(a@, n as nat);
    let ghost pb = padded(b@, n as nat);
    proof {
        lemma_val_padded(a@, n as nat);
        lemma_val_padded(b@, n as nat);
    }
    let mut r: Vec<u8> = Vec::new();
    let mut borrow: u8 = 0;
    let mut i: usize = 0;
    while i < n
        invariant
            i <= n,
            n >= a.len(),
            n >= b.len(),
            digits_wf(a@),
            digits_wf(b@),
            pa == padded(a@, n as nat),
            pb == padded(b@, n as nat),
            val(pa) == val(a@),
            val(pb) == val(b@),
            r@.len() == i,
            borrow <= 1,
            digits_wf(r@),
            val(r@) == val(pa.take(i as int)) - val(pb.take(i as int)) + borrow * pow10(i as nat),
        decreases n - i,
    {
        let da = if i < a.len() {
            a[i]
        } else {
            0
        };
        let db = if i < b.len() {
            b[i]
        } else {
            0
        };
        assert(da < 10 && db < 10);
        let need = db + borrow;
        let (d, nb): (u8, u8) = if da >= need {
            (da - need, 0)
        } else {
            (da + 10 - need, 1)
        };
        proof {
            lemma_val_take_succ(pa, i as int);
            lemma_val_take_succ(pb, i as int);
            lemma_val_snoc(r@, d);
            let p = pow10(i as nat);
            assert(val(r@.push(d)) == val(pa.take(i + 1)) - val(pb.take(i + 1)) + nb * pow10(
                (i + 1) as nat,
            )) by (nonlinear_arith)
                requires
                    val(r@.push(d)) == val(r@) + d * p,
                    pow10((i + 1) as nat) == 10 * p,
                    val(r@) == val(pa.take(i as int)) - val(pb.take(i as int)) + borrow * p,
                    val(pa.take(i + 1)) == val(pa.take(i as int)) + pa[i as int] * p,
                    val(pb.take(i + 1)) == val(pb.take(i as int)) + pb[i as int] * p,
                    d == pa[i as int] + 10 * nb - pb[i as int] - borrow,
            ;
        }
        r.push(d);
        borrow = nb;
        i = i + 1;
    }
    proof {
        assert(pa.take(n as int) =~= pa);
        assert(pb.take(n as int) =~= pb);
        lemma_val_bound(r@);
        lemma_pow10_pos(n as nat);
        if borrow == 1 {
            assert(val(r@) == val(a@) - val(b@) + pow10(n as nat));
            assert(false);
        }
    }
    r
}

/// Multiplies a magnitude by five, digit by digit with carry.
pub fn umul5(a: &Vec<u8>) -> (r: Vec<u8>)
    requires
        digits_wf(a@),
    ensures
        digits_wf(r@),
        val(r@) == 5 * val(a@),
        r@.len() >= a@.len(),
{
    let mut r: Vec<u8> = Vec::new();
    let mut carry: u8 = 0;
    let mut i: usize = 0;
    while i < a.len()
        invariant
            i <= a.len(),
            digits_wf(a@),
            r@.len() == i,
            carry <= 4,
            digits_wf(r@),
            val(r@) + carry * pow10(i as nat) == 5 * val(a@.take(i as int)),
        decreases a.len() - i,
    {
        let da = a[i];
        assert(da < 10);
        let s = 5 * da + carry;
        let d = s % 10;
        let c = s / 10;
        proof {
            lemma_val_take_succ(a@, i as int);
            lemma_val_snoc(r@, d);
            let p = pow10(i as nat);
            assert(val(r@.push(d)) + c * pow10((i + 1) as nat) == 5 * val(a@.take(i + 1)))
                by (nonlinear_arith)
                requires
                    val(r@.push(d)) == val(r@) + d * p,
                    pow10((i + 1) as nat) == 10 * p,
                    val(r@) + carry * p == 5 * val(a@.take(i as int)),
                    val(a@.take(i + 1)) == val(a@.take(i as int)) + a@[i as int] * p,
                    d + 10 * c == 5 * a@[i as int] + carry,
            ;
        }
        r.push(d);
        carry = c;
        i = i + 1;
    }
    proof {
        assert(a@.take(a@.len() as int) =~= a@);
    }
    if carry > 0 {
        proof {
            lemma_val_snoc(r@, carry);
        }
        r.push(carry);
    }
    r
}

/// Multiplies a magnitude by the given power of ten by shifting in low zeros.
pub fn ushl(a: &Vec<u8>, k: usize) -> (r: Vec<u8>)
    requires
        digits_wf(a@),
    ensures
        digits_wf(r@),
        r@.len() == a@.len() + k,
        val(r@) == pow10(k as nat) * val(a@),
{
    let mut r: Vec<u8> = Vec::new();
    let mut i: usize = 0;
    while i < a.len()
        invariant
            i <= a.len(),
            digits_wf(a@),
            r@ == a@.take(i as int),
        decreases a.len() - i,
    {
        let ghost prev = r@;
        r.push(a[i]);
        proof {
            assert(r@ =~= a@.take(i + 1));
        }
        i = i + 1;
    }
    proof {
        assert(r@ =~= a@);
        lemma_pow10_pos(0);
        assert(pow10(0) * val(a@) == val(a@)) by (nonlinear_arith)
            requires
                pow10(0) == 1,
        ;
    }
    let mut j: usize = 0;
    while j < k
        invariant
            j <= k,
            digits_wf(r@),
            r@.len() == a@.len() + j,
            val(r@) == pow10(j as nat) * val(a@),
        decreases k - j,
    {
        proof {
            let s = r@.insert(0, 0u8);
            assert(s.drop_first() =~= r@);
            assert(s[0] == 0);
            assert(val(s) == 10 * val(r@));
            assert(10 * (pow10(j as nat) * val(a@)) == pow10((j + 1) as nat) * val(a@))
                by (nonlinear_arith)
                requires
                    pow10((j + 1) as nat) == 10 * pow10(j as nat),
            ;
        }
        r.insert(0, 0);
        j = j + 1;
    }
    r
}

/// Floor division with remainder, long division from the dividend's high end.
pub fn udivrem(a: &Vec<u8>, b: &Vec<u8>) -> (qr: (Vec<u8>, Vec<u8>))
    requires
        digits_wf(a@),
        digits_wf(b@),
        val(b@) >= 1,
    ensures
        digits_wf(qr.0@),
        digits_wf(qr.1@),
        val(a@) == val(qr.0@) * val(b@) + val(qr.1@),
        val(qr.1@) < val(b@),
        qr.0@.len() == a@.len(),
{
    let mut q: Vec<u8> = Vec::new();
    let mut r: Vec<u8> = Vec::new();
    let mut i: usize = a.len();
    proof {
        assert(a@.skip(a@.len() as int) =~= Seq::<u8>::empty());
        assert(val(q@) * val(b@) == 0) by (nonlinear_arith)
            requires
                val(q@) == 0,
        ;
    }
    while i > 0
        invariant
            i <= a.len(),
            digits_wf(a@),
            digits_wf(b@),
            val(b@) >= 1,
            digits_wf(q@),
            digits_wf(r@),
            q@.len() + i == a@.len(),
            val(a@.skip(i as int)) == val(q@) * val(b@) + val(r@),
            val(r@) < val(b@),
        decreases i,
    {
        i = i - 1;
        let ghost vq = val(q@);
        let ghost vr = val(r@);
        let ghost vb = val(b@);
        proof {
            assert(a@.skip(i as int).len() > 0);
            assert(a@.skip(i as int)[0] == a@[i as int]);
            assert(a@.skip(i as int).drop_first() =~= a@.skip(i + 1));
            let s = r@.insert(0, a@[i as int]);
            assert(s.drop_first() =~= r@);
            assert(s[0] == a@[i as int]);
            assert(val(s) == a@[i as int] + 10 * vr);
        }
        r.insert(0, a[i]);
        proof {
            assert(val(a@.skip(i as int)) == (10 * vq) * vb + val(r@)) by (nonlinear_arith)
                requires
                    val(a@.skip(i as int)) == a@[i as int] + 10 * (vq * vb + vr),
                    val(r@) == a@[i as int] + 10 * vr,
            ;
            assert(val(r@) < 10 * vb);
        }
        let ghost r0 = val(r@);
        let mut qd: u8 = 0;
        loop
            invariant_except_break
                digits_wf(b@),
                digits_wf(r@),
                val(b@) == vb,
                vb >= 1,
                qd <= 9,
                val(r@) == r0 - qd * vb,
                r0 < 10 * vb,
            ensures
                digits_wf(r@),
                qd <= 9,
                val(r@) == r0 - qd * vb,
                val(r@) < vb,
                val(b@) == vb,
            decreases val(r@),
        {
            let c = ucmp(&r, b);
            if c == Cmp::Lt {
                break ;
            }
            proof {
                assert(qd + 1 <= 9) by (nonlinear_arith)
                    requires
                        r0 - qd * vb >= vb,
                        r0 < 10 * vb,
                        vb >= 1,
                        qd >= 0,
                ;
                assert((qd + 1) * vb == qd * vb + vb) by (nonlinear_arith);
            }
            let r2 = usub(&r, b);
            r = r2;
            qd = qd + 1;
        }
        proof {
            let s = q@.insert(0, qd);
            assert(s.drop_first() =~= q@);
            assert(s[0] == qd);
            assert(val(s) == qd + 10 * vq);
            assert(val(a@.skip(i as int)) == (qd + 10 * vq) * vb + val(r@)) by (nonlinear_arith)
                requires
                    val(a@.skip(i as int)) == (10 * vq) * vb + r0,
                    val(r@) == r0 - qd * vb,
            ;
        }
        q.insert(0, qd);
    }
    proof {
        assert(a@.skip(0) =~= a@);
    }
    (q, r)
}

/// Whether a magnitude denotes zero.
pub fn uis_zero(a: &Vec<u8>) -> (r: bool)
    requires
        digits_wf(a@),
    ensures
        r == (val(a@) == 0),
{
    let mut i: usize = 0;
    let mut all0 = true;
    while i < a.len()
        invariant
            i <= a.len(),
            all0 == (forall|j: int| 0 <= j < i ==> a@[j] == 0),
        decreases a.len() - i,
    {
        if a[i] != 0 {
            all0 = false;
        }
        i = i + 1;
    }
    proof {
        lemma_val_zero(a@);
    }
    all0
}

} // verus!
