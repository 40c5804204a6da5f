//! The bisection engine. It parses the expression, validates the bracketing
//! interval, iterates the bisection update rule under the chosen error
//! metric, and returns a terminal message with the full iteration trace.
//!
//! The whole run is specified by the state machine below: `spec_step` is one
//! loop pass, `spec_iters` its iteration, and `spec_bisection` the complete
//! behaviour, so the executable engine is pinned to one result for every
//! input. Documented policies where the method leaves a choice open:
//! a relative error with a zero midpoint falls back to the absolute error;
//! the relative error is truncated toward zero at `REL_PREC` fraction
//! digits; a non-finite product of function values carries no sign, so the
//! interval is never declared inadequate by overflow; bounds or tolerances
//! whose double has no plain decimal rendering (NaN, an infinity) are
//! rejected as invalid input.

use vstd::prelude::*;

use crate::dec::Dec;
use crate::dec::DecV;
use crate::dec::iabs;
use crate::dec::d_lt;
use crate::dec::rescale;
use crate::dec::midpoint;
use crate::dec::abs_diff;
use crate::dec::dec_lt;
use crate::dec::dec_is_zero;
use crate::dec::dec_copy;
use crate::dec::div_trunc;
use crate::digits::pow10;
use crate::digits::val;
use crate::digits::lemma_val_snoc;
use crate::evaluator::expr_ok;
use crate::evaluator::eval_bits;
use crate::evaluator::shortest_str;
use crate::evaluator::mul_of;
use crate::evaluator::tol_str;
use crate::evaluator::eval_expr;
use crate::evaluator::mul_sign;
use crate::evaluator::tolerance_of;
use crate::floats::fbits_is_zero;
use crate::floats::fbits_le_zero;
use crate::floats::fbits_gt_zero;
use crate::floats::is_zero_bits;
use crate::floats::le_zero_bits;
use crate::floats::gt_zero_bits;
use crate::text::dec_str;
use crate::text::nat_digits;
use crate::text::valid_decimal;
use crate::text::dec_of_lit;
use crate::text::parse_dec;
use crate::text::dec_to_string;
use crate::text::push_int_part;

verus! {

/// Fraction digits kept by the truncating division of the relative error.
pub const REL_PREC: usize = 30;

/// Why a request was rejected before any iteration ran.
#[derive(Clone, Copy, PartialEq, Eq, Structural, Debug)]
pub enum BisectionError {
    /// The expression does not parse, or names a variable other than `x`.
    InvalidExpression,
    /// A bound's double has no plain decimal rendering (NaN or infinite).
    InvalidBound,
    /// The tolerance threshold has no plain decimal rendering.
    InvalidTolerance,
}

/// The terminal result: a message and four index-aligned trace columns.
pub struct BisectionResponse {
    pub message: String,
    pub x_vals: Vec<Dec>,
    pub f_vals: Vec<String>,
    pub errors: Vec<Dec>,
    pub iterations: Vec<usize>,
}

/// The mathematical content of a response.
pub ghost struct RespV {
    pub message: Seq<char>,
    pub xs: Seq<DecV>,
    pub fs: Seq<Seq<char>>,
    pub errs: Seq<DecV>,
}

/// Whether a response carries exactly the given content, with the iteration
/// column counting its rows from zero.
pub open spec fn resp_matches(r: BisectionResponse, v: RespV) -> bool {
    &&& r.message@ == v.message
    &&& r.x_vals@.len() == v.xs.len()
    &&& (forall|i: int| 0 <= i < v.xs.len() ==> r.x_vals@[i]@ == v.xs[i])
    &&& (forall|i: int| 0 <= i < v.xs.len() ==> (#[trigger] r.x_vals@[i]).wf())
    &&& r.f_vals@.len() == v.fs.len()
    &&& (forall|i: int| 0 <= i < v.fs.len() ==> r.f_vals@[i]@ == v.fs[i])
    &&& r.errors@.len() == v.errs.len()
    &&& (forall|i: int| 0 <= i < v.errs.len() ==> r.errors@[i]@ == v.errs[i])
    &&& (forall|i: int| 0 <= i < v.errs.len() ==> (#[trigger] r.errors@[i]).wf())
    &&& r.iterations@.len() == v.xs.len()
    &&& (forall|i: int| 0 <= i < v.xs.len() ==> r.iterations@[i] == i)
}

/// Same value at a larger scale.
pub open spec fn d_rescale(d: DecV, s: nat) -> DecV {
    DecV { num: d.num * pow10((s - d.scale) as nat), scale: s }
}

/// The engine's state between iterations: the bracket, the midpoint with its
/// function value, the previous midpoint, the trace columns, and whether the
/// run converged.
pub ghost struct St {
    pub l: DecV,
    pub u: DecV,
    pub m: DecV,
    pub fm: u64,
    pub prev: DecV,
    pub xs: Seq<DecV>,
    pub fs: Seq<Seq<char>>,
    pub errs: Seq<DecV>,
    pub done: bool,
}

/// One pass of the loop: re-evaluate at the lower bound, keep the half with
/// the sign change, take the new midpoint, record the error against the
/// previous midpoint, and stop once the error is below the tolerance.
pub open spec fn spec_step(e: Seq<char>, et: u8, tol: DecV, st: St) -> St {
    if st.done {
        st
    } else {
        let flo = eval_bits(e, dec_str(st.l));
        let prod = mul_of(shortest_str(flo), shortest_str(st.fm));
        let keep_low = fbits_le_zero(prod);
        let l1 = if keep_low {
            d_rescale(st.l, st.m.scale)
        } else {
            st.m
        };
        let u1 = if keep_low {
            st.m
        } else {
            d_rescale(st.u, st.m.scale)
        };
        let m1 = DecV { num: 5 * (l1.num + u1.num), scale: st.m.scale + 1 };
        let fm1 = eval_bits(e, dec_str(m1));
        let prev1 = d_rescale(st.prev, m1.scale);
        let ea = DecV { num: iabs(m1.num - prev1.num), scale: m1.scale };
        let err = if et == 1 {
            ea
        } else if m1.num == 0 {
            ea
        } else {
            DecV { num: (ea.num * pow10(REL_PREC as nat)) / iabs(m1.num), scale: REL_PREC as nat }
        };
        St {
            l: l1,
            u: u1,
            m: m1,
            fm: fm1,
            prev: m1,
            xs: st.xs.push(m1),
            fs: st.fs.push(shortest_str(fm1)),
            errs: st.errs.push(err),
            done: d_lt(err, tol),
        }
    }
}

/// `k` passes of the loop.
pub open spec fn spec_iters(e: Seq<char>, et: u8, tol: DecV, st: St, k: nat) -> St
    decreases k,
{
    if k == 0 {
        st
    } else {
        spec_step(e, et, tol, spec_iters(e, et, tol, st, (k - 1) as nat))
    }
}

/// The state before the first pass: both bounds at a common scale, the seed
/// midpoint as row zero with the sentinel error of one hundred.
pub open spec fn init_st(e: Seq<char>, lb: DecV, ub: DecV) -> St {
    let s0 = if lb.scale > ub.scale {
        lb.scale
    } else {
        ub.scale
    };
    let l0 = d_rescale(lb, s0);
    let u0 = d_rescale(ub, s0);
    let m0 = DecV { num: 5 * (l0.num + u0.num), scale: s0 + 1 };
    let fm0 = eval_bits(e, dec_str(m0));
    St {
        l: l0,
        u: u0,
        m: m0,
        fm: fm0,
        prev: m0,
        xs: seq![m0],
        fs: seq![shortest_str(fm0)],
        errs: seq![DecV { num: 100, scale: 0 }],
        done: false,
    }
}

/// The terminal message: the midpoint as an exact root, the approximate
/// solution under the tolerance, or the failure after the iteration budget.
pub open spec fn final_msg(fin: St, tol: DecV, maxit: nat) -> Seq<char> {
    if fbits_is_zero(fin.fm) {
        dec_str(fin.m) + " is a root of f(x)"@
    } else if fin.xs.len() > 1 && d_lt(fin.errs.last(), tol) {
        "The approximate solution is: "@ + dec_str(fin.m) + ", with a tolerance = "@ + dec_str(
            tol,
        )
    } else {
        "Failed in "@ + nat_digits(maxit) + " iterations"@
    }
}

/// The engine's whole behaviour: the expression gate, the three pre-checks
/// with their empty traces, the input checks on the decimal renderings, and
/// the iterated loop with its terminal message.
pub open spec fn spec_bisection(
    e: Seq<char>,
    lb: Seq<char>,
    ub: Seq<char>,
    et: u8,
    tv: Seq<char>,
    maxit: nat,
) -> Result<RespV, BisectionError> {
    if !expr_ok(e) {
        Err(BisectionError::InvalidExpression)
    } else {
        let fl = eval_bits(e, lb);
        let fu = eval_bits(e, ub);
        if fbits_is_zero(fl) {
            Ok(
                RespV {
                    message: lb + " is a root of f(x)"@,
                    xs: Seq::empty(),
                    fs: Seq::empty(),
                    errs: Seq::empty(),
                },
            )
        } else if fbits_is_zero(fu) {
            Ok(
                RespV {
                    message: ub + " is a root of f(x)"@,
                    xs: Seq::empty(),
                    fs: Seq::empty(),
                    errs: Seq::empty(),
                },
            )
        } else if fbits_gt_zero(mul_of(shortest_str(fl), shortest_str(fu))) {
            Ok(
                RespV {
                    message: "The interval is inadequate"@,
                    xs: Seq::empty(),
                    fs: Seq::empty(),
                    errs: Seq::empty(),
                },
            )
        } else if !valid_decimal(tol_str(tv)) {
            Err(BisectionError::InvalidTolerance)
        } else if !valid_decimal(lb) || !valid_decimal(ub) {
            Err(BisectionError::InvalidBound)
        } else {
            let tol = dec_of_lit(tol_str(tv));
            let fin = spec_iters(e, et, tol, init_st(e, dec_of_lit(lb), dec_of_lit(ub)), maxit);
            Ok(
                RespV {
                    message: final_msg(fin, tol, maxit),
                    xs: fin.xs,
                    fs: fin.fs,
                    errs: fin.errs,
                },
            )
        }
    }
}

/// A finished state stays as it is under further passes.
pub proof fn lemma_iters_done(e: Seq<char>, et: u8, tol: DecV, st: St, k: nat)
    requires
        st.done,
    ensures
        spec_iters(e, et, tol, st, k) == st,
    decreases k,
{
    if k > 0 {
        lemma_iters_done(e, et, tol, st, (k - 1) as nat);
    }
}

/// Passes compose: `a` passes and then `b` passes are `a + b` passes.
pub proof fn lemma_iters_add(e: Seq<char>, et: u8, tol: DecV, st: St, a: nat, b: nat)
    ensures
        spec_iters(e, et, tol, st, a + b) == spec_iters(e, et, tol, spec_iters(e, et, tol, st, a), b),
    decreases b,
{
    if b > 0 {
        lemma_iters_add(e, et, tol, st, a, (b - 1) as nat);
        assert(a + b == (a + (b - 1) as nat) + 1);
    }
}

/// The decimal one hundred, the sentinel error of the seed row.
fn dec_hundred() -> (r: Dec)
    ensures
        r.wf(),
        r@ == (DecV { num: 100, scale: 0 }),
{
    let mut digits: Vec<u8> = Vec::new();
    proof {
        lemma_val_snoc(digits@, 0);
    }
    digits.push(0);
    proof {
        lemma_val_snoc(digits@, 0);
    }
    digits.push(0);
    proof {
        lemma_val_snoc(digits@, 1);
        assert(pow10(1) == 10 * pow10(0));
        assert(pow10(2) == 10 * pow10(1));
    }
    digits.push(1);
    proof {
        assert(val(digits@) == 100);
    }
    Dec { neg: false, digits, scale: 0 }
}

/// The digits of a machine integer.
fn usize_to_string(n: usize) -> (r: String)
    ensures
        r@ == nat_digits(n as nat),
{
    let mut digits: Vec<u8> = Vec::new();
    let mut rem = n;
    proof {
        assert(val(digits@) == 0);
        assert(rem * pow10(0) == rem) by (nonlinear_arith)
            requires
                pow10(0) == 1,
        ;
    }
    while rem > 0
        invariant
            crate::digits::digits_wf(digits@),
            val(digits@) + rem * pow10(digits@.len()) == n,
        decreases rem,
    {
        let d = (rem % 10) as u8;
        proof {
            lemma_val_snoc(digits@, d);
            let p = pow10(digits@.len());
            assert(val(digits@.push(d)) + (rem / 10) * pow10(digits@.len() + 1) == n)
                by (nonlinear_arith)
                requires
                    val(digits@.push(d)) == val(digits@) + d * p,
                    pow10(digits@.len() + 1) == 10 * p,
                    val(digits@) + rem * p == n,
                    d == rem % 10,
                    rem >= 0,
                    d + 10 * (rem / 10) == rem,
            ;
        }
        digits.push(d);
        rem = rem / 10;
    }
    let mut out = String::new();
    push_int_part(&mut out, &digits, 0);
    proof {
        assert(digits@.skip(0) =~= digits@);
        assert(rem * pow10(digits@.len()) == 0) by (nonlinear_arith)
            requires
                rem == 0,
        ;
    }
    out
}

} // verus!

verus! {

/// A request as the engine takes it: each double already rendered as its
/// shortest decimal literal.
pub struct BisectionRequest {
    pub function_expression: String,
    pub lower_bound: String,
    pub upper_bound: String,
    pub error_type: u8,
    pub tolerance_value: String,
    pub max_iterations: usize,
}

/// An empty-trace response around a message.
fn empty_response(message: String) -> (r: BisectionResponse)
    ensures
        resp_matches(
            r,
            RespV {
                message: message@,
                xs: Seq::empty(),
                fs: Seq::empty(),
                errs: Seq::empty(),
            },
        ),
{
    BisectionResponse {
        message,
        x_vals: Vec::new(),
        f_vals: Vec::new(),
        errors: Vec::new(),
        iterations: Vec::new(),
    }
}

/// The correspondence between the engine's runtime state after `count`
/// passes and the specification state, together with the bookkeeping the
/// terminal message needs.
spec fn corr(
    e: Seq<char>,
    et: u8,
    tolv: DecV,
    st0: St,
    count: nat,
    l: Dec,
    u: Dec,
    m: Dec,
    fm: u64,
    fm_s: Seq<char>,
    prev: Dec,
    xs: Seq<Dec>,
    fs: Seq<String>,
    errs: Seq<Dec>,
    its: Seq<usize>,
    done: bool,
) -> bool {
    let sti = spec_iters(e, et, tolv, st0, count);
    &&& l.wf() && u.wf() && m.wf() && prev.wf()
    &&& l@.scale == u@.scale && m@.scale == l@.scale + 1 && prev@.scale == m@.scale
    &&& l@ == sti.l && u@ == sti.u && m@ == sti.m
    &&& fm == sti.fm && fm_s == shortest_str(sti.fm)
    &&& prev@ == sti.prev
    &&& done == sti.done
    &&& sti.done == (sti.xs.len() > 1 && d_lt(sti.errs.last(), tolv))
    &&& sti.xs.len() == count + 1
    &&& sti.xs.len() >= 1 && sti.errs.len() == sti.xs.len() && sti.fs.len() == sti.xs.len()
    &&& xs.len() == sti.xs.len() && errs.len() == sti.xs.len() && fs.len() == sti.xs.len()
        && its.len() == sti.xs.len()
    &&& (forall|i: int| 0 <= i < xs.len() ==> (#[trigger] xs[i])@ == sti.xs[i])
    &&& (forall|i: int| 0 <= i < xs.len() ==> (#[trigger] xs[i]).wf())
    &&& (forall|i: int| 0 <= i < fs.len() ==> (#[trigger] fs[i])@ == sti.fs[i])
    &&& (forall|i: int| 0 <= i < errs.len() ==> (#[trigger] errs[i])@ == sti.errs[i])
    &&& (forall|i: int| 0 <= i < errs.len() ==> (#[trigger] errs[i]).wf())
    &&& (forall|i: int| 0 <= i < its.len() ==> (#[trigger] its[i]) == i)
}

/// Runs the bisection method on a textual expression in `x` over the
/// bracket `[lower_bound, upper_bound]`, with `error_type` one for the
/// absolute metric and any other value for the relative one, the tolerance
/// threshold `0.5 * 10^(-tolerance_value)`, and at most `max_iterations`
/// passes. The whole observable behaviour equals `spec_bisection`.
pub fn bisection(
    function_expression: &str,
    lower_bound: &str,
    upper_bound: &str,
    error_type: u8,
    tolerance_value: &str,
    max_iterations: usize,
) -> (r: Result<BisectionResponse, BisectionError>)
    ensures
        (r is Ok) == (spec_bisection(
            function_expression@,
            lower_bound@,
            upper_bound@,
            error_type,
            tolerance_value@,
            max_iterations as nat,
        ) is Ok),
        r matches Ok(resp) ==> resp_matches(
            resp,
            spec_bisection(
                function_expression@,
                lower_bound@,
                upper_bound@,
                error_type,
                tolerance_value@,
                max_iterations as nat,
            )->Ok_0,
        ),
        r matches Err(er) ==> er == spec_bisection(
            function_expression@,
            lower_bound@,
            upper_bound@,
            error_type,
            tolerance_value@,
            max_iterations as nat,
        )->Err_0,
{
    let ghost e = function_expression@;
    let evl = eval_expr(function_expression, lower_bound);
    let (flb, flb_s) = match evl {
        Some(p) => p,
        None => {
            return Err(BisectionError::InvalidExpression);
        },
    };
    let evu = eval_expr(function_expression, upper_bound);
    let (fub, fub_s) = evu.unwrap();
    if is_zero_bits(flb) {
        let mut msg = lower_bound.to_owned();
        msg.append(" is a root of f(x)");
        return Ok(empty_response(msg));
    }
    if is_zero_bits(fub) {
        let mut msg = upper_bound.to_owned();
        msg.append(" is a root of f(x)");
        return Ok(empty_response(msg));
    }
    let prod = mul_sign(flb_s.as_str(), fub_s.as_str());
    if gt_zero_bits(prod) {
        let msg = "The interval is inadequate".to_owned();
        return Ok(empty_response(msg));
    }
    let tol_string = tolerance_of(tolerance_value);
    let tol = match parse_dec(tol_string.as_str()) {
        Some(d) => d,
        None => {
            return Err(BisectionError::InvalidTolerance);
        },
    };
    let lbd = match parse_dec(lower_bound) {
        Some(d) => d,
        None => {
            return Err(BisectionError::InvalidBound);
        },
    };
    let ubd = match parse_dec(upper_bound) {
        Some(d) => d,
        None => {
            return Err(BisectionError::InvalidBound);
        },
    };
    let s0 = if lbd.scale > ubd.scale {
        lbd.scale
    } else {
        ubd.scale
    };
    let mut l = rescale(&lbd, s0);
    let mut u = rescale(&ubd, s0);
    let mut m = midpoint(&l, &u);
    let ms = dec_to_string(&m);
    let evm = eval_expr(function_expression, ms.as_str());
    let (fm0, fm_s0) = evm.unwrap();
    let mut fm = fm0;
    let mut fm_s = fm_s0;
    let mut prev = dec_copy(&m);
    let ghost tolv = tol@;
    let ghost st0 = init_st(e, dec_of_lit(lower_bound@), dec_of_lit(upper_bound@));
    let mut x_vals: Vec<Dec> = Vec::new();
    let mut f_vals: Vec<String> = Vec::new();
    let mut errors: Vec<Dec> = Vec::new();
    let mut iterations: Vec<usize> = Vec::new();
    x_vals.push(dec_copy(&m));
    f_vals.push(fm_s.clone());
    errors.push(dec_hundred());
    iterations.push(0);
    let mut count: usize = 0;
    let mut done = false;
    proof {
        assert(spec_iters(e, error_type, tolv, st0, 0) == st0);
        assert(st0.xs.len() == 1);
        assert(st0.errs.len() == 1);
        assert(st0.fs.len() == 1);
        assert(l@ == st0.l);
        assert(u@ == st0.u);
        assert(m@ == st0.m);
        assert(fm == st0.fm);
    }
    while count < max_iterations && !done
        invariant
            expr_ok(e),
            e == function_expression@,
            tol.wf(),
            tolv == tol@,
            count <= max_iterations,
            corr(
                e,
                error_type,
                tolv,
                st0,
                count as nat,
                l,
                u,
                m,
                fm,
                fm_s@,
                prev,
                x_vals@,
                f_vals@,
                errors@,
                iterations@,
                done,
            ),
        decreases max_iterations - count,
    {
        let ghost stold = spec_iters(e, error_type, tolv, st0, count as nat);
        let ghost lold = l@;
        let ghost uold = u@;
        let ghost mold = m@;
        let ghost fmold = fm;
        let ghost fmsold = fm_s@;
        let ghost prevold = prev@;
        count = count + 1;
        proof {
            assert(spec_iters(e, error_type, tolv, st0, count as nat) == spec_step(
                e,
                error_type,
                tolv,
                stold,
            ));
        }
        let ls = dec_to_string(&l);
        let evlo = eval_expr(function_expression, ls.as_str());
        let (_flo, flo_s) = evlo.unwrap();
        let prod2 = mul_sign(flo_s.as_str(), fm_s.as_str());
        if le_zero_bits(prod2) {
            let unew = dec_copy(&m);
            l = rescale(&l, unew.scale);
            u = unew;
        } else {
            let lnew = dec_copy(&m);
            u = rescale(&u, lnew.scale);
            l = lnew;
        }
        let m1 = midpoint(&l, &u);
        let prev_r = rescale(&prev, m1.scale);
        let ea = abs_diff(&m1, &prev_r);
        let err: Dec = if error_type == 1 {
            ea
        } else if dec_is_zero(&m1) {
            ea
        } else {
            div_trunc(&ea, &m1, REL_PREC)
        };
        prev = dec_copy(&m1);
        m = m1;
        let ms2 = dec_to_string(&m);
        let evm2 = eval_expr(function_expression, ms2.as_str());
        let (fmn, fmn_s) = evm2.unwrap();
        fm = fmn;
        fm_s = fmn_s;
        x_vals.push(dec_copy(&m));
        f_vals.push(fm_s.clone());
        iterations.push(count);
        let below = dec_lt(&err, &tol);
        proof {
            assert(err.wf());
        }
        errors.push(err);
        if below {
            done = true;
        }
        proof {
            let sti = spec_iters(e, error_type, tolv, st0, count as nat);
            assert(sti == spec_step(e, error_type, tolv, stold));
            assert(!stold.done);
            assert(ls@ == dec_str(stold.l));
            let flo = eval_bits(e, dec_str(stold.l));
            assert(flo_s@ == shortest_str(flo));
            assert(prod2 == mul_of(shortest_str(flo), shortest_str(stold.fm)));
            let keep_low = fbits_le_zero(prod2);
            if keep_low {
                assert(u@ == stold.m);
                assert(l@ == d_rescale(stold.l, stold.m.scale));
            } else {
                assert(l@ == stold.m);
                assert(u@ == d_rescale(stold.u, stold.m.scale));
            }
            assert(l@ == sti.l);
            assert(u@ == sti.u);
            assert(m@ == sti.m);
            assert(ms2@ == dec_str(sti.m));
            assert(fm == sti.fm);
            assert(fm_s@ == shortest_str(sti.fm));
            assert(prev@ == sti.prev);
            assert(err@ == sti.errs.last());
            assert(done == sti.done);
            assert(x_vals@.len() == sti.xs.len());
            assert(errors@.len() == sti.errs.len());
            assert(f_vals@.len() == sti.fs.len());
            assert(iterations@.len() == sti.xs.len());
            assert forall|i: int| 0 <= i < x_vals@.len() implies (#[trigger] x_vals@[i])@
                == sti.xs[i] by {}
            assert forall|i: int| 0 <= i < f_vals@.len() implies (#[trigger] f_vals@[i])@
                == sti.fs[i] by {}
            assert forall|i: int| 0 <= i < errors@.len() implies (#[trigger] errors@[i])@
                == sti.errs[i] by {}
            assert forall|i: int| 0 <= i < iterations@.len() implies (#[trigger] iterations@[i])
                == i by {}
        }
    }
    proof {
        let sti = spec_iters(e, error_type, tolv, st0, count as nat);
        lemma_iters_add(
            e,
            error_type,
            tolv,
            st0,
            count as nat,
            (max_iterations - count) as nat,
        );
        if done {
            lemma_iters_done(e, error_type, tolv, sti, (max_iterations - count) as nat);
        }
        assert(spec_iters(e, error_type, tolv, st0, max_iterations as nat) == sti);
    }
    let message: String = if is_zero_bits(fm) {
        let mut msg = dec_to_string(&m);
        msg.append(" is a root of f(x)");
        msg
    } else if done {
        let mut msg = "The approximate solution is: ".to_owned();
        let mids = dec_to_string(&m);
        msg.append(mids.as_str());
        msg.append(", with a tolerance = ");
        let tols = dec_to_string(&tol);
        msg.append(tols.as_str());
        msg
    } else {
        let mut msg = "Failed in ".to_owned();
        let ns = usize_to_string(max_iterations);
        msg.append(ns.as_str());
        msg.append(" iterations");
        msg
    };
    Ok(BisectionResponse { message, x_vals, f_vals, errors, iterations })
}

} // verus!

verus! {

impl BisectionRequest {
    /// Runs the engine on this request.
    pub fn run(&self) -> (r: Result<BisectionResponse, BisectionError>)
        ensures
            (r is Ok) == (spec_bisection(
                self.function_expression@,
                self.lower_bound@,
                self.upper_bound@,
                self.error_type,
                self.tolerance_value@,
                self.max_iterations as nat,
            ) is Ok),
            r matches Ok(resp) ==> resp_matches(
                resp,
                spec_bisection(
                    self.function_expression@,
                    self.lower_bound@,
                    self.upper_bound@,
                    self.error_type,
                    self.tolerance_value@,
                    self.max_iterations as nat,
                )->Ok_0,
            ),
            r matches Err(er) ==> er == spec_bisection(
                self.function_expression@,
                self.lower_bound@,
                self.upper_bound@,
                self.error_type,
                self.tolerance_value@,
                self.max_iterations as nat,
            )->Err_0,
    {
        bisection(
            self.function_expression.as_str(),
            self.lower_bound.as_str(),
            self.upper_bound.as_str(),
            self.error_type,
            self.tolerance_value.as_str(),
            self.max_iterations,
        )
    }
}

} // verus!
