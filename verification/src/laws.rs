//! Laws of the engine, proved over its specification. Every executable run
//! is pinned to `spec_bisection`, so each statement here holds of the
//! executable engine as well.

use vstd::prelude::*;

use crate::dec::DecV;
use crate::dec::d_le;
use crate::digits::pow10;
use crate::digits::lemma_pow10_pos;
use crate::digits::lemma_pow10_add;
use crate::evaluator::expr_ok;
use crate::evaluator::eval_bits;
use crate::evaluator::shortest_str;
use crate::evaluator::mul_of;
use crate::evaluator::tol_str;
use crate::floats::fbits_is_zero;
use crate::floats::fbits_gt_zero;
use crate::floats::fbits_le_zero;
use crate::text::valid_decimal;
use crate::text::dec_of_lit;
use crate::engine::BisectionResponse;
use crate::engine::RespV;
use crate::engine::resp_matches;
use crate::engine::spec_bisection;
use crate::engine::spec_step;
use crate::engine::spec_iters;
use crate::engine::init_st;
use crate::engine::St;
use crate::engine::d_rescale;

verus! {

/// A zero of the function at the lower bound short-circuits the run: the
/// message names the lower bound as the root and the trace is empty. The
/// upper bound behaves the same once the lower bound is not a root.
pub proof fn lemma_root_at_bound(e: Seq<char>, lb: Seq<char>, ub: Seq<char>, et: u8, tv: Seq<char>, maxit: nat)
    requires
        expr_ok(e),
        fbits_is_zero(eval_bits(e, lb)) || fbits_is_zero(eval_bits(e, ub)),
    ensures
        spec_bisection(e, lb, ub, et, tv, maxit) is Ok,
        fbits_is_zero(eval_bits(e, lb)) ==> spec_bisection(e, lb, ub, et, tv, maxit)->Ok_0
            == (RespV {
            message: lb + " is a root of f(x)"@,
            xs: Seq::empty(),
            fs: Seq::empty(),
            errs: Seq::empty(),
        }),
        !fbits_is_zero(eval_bits(e, lb)) && fbits_is_zero(eval_bits(e, ub)) ==> spec_bisection(
            e,
            lb,
            ub,
            et,
            tv,
            maxit,
        )->Ok_0 == (RespV {
            message: ub + " is a root of f(x)"@,
            xs: Seq::empty(),
            fs: Seq::empty(),
            errs: Seq::empty(),
        }),
{
}

/// Without a sign change across the bracket the message is exactly
/// "The interval is inadequate" and the trace is empty.
pub proof fn lemma_inadequate_interval(
    e: Seq<char>,
    lb: Seq<char>,
    ub: Seq<char>,
    et: u8,
    tv: Seq<char>,
    maxit: nat,
)
    requires
        expr_ok(e),
        !fbits_is_zero(eval_bits(e, lb)),
        !fbits_is_zero(eval_bits(e, ub)),
        fbits_gt_zero(mul_of(shortest_str(eval_bits(e, lb)), shortest_str(eval_bits(e, ub)))),
    ensures
        spec_bisection(e, lb, ub, et, tv, maxit) is Ok,
        spec_bisection(e, lb, ub, et, tv, maxit)->Ok_0 == (RespV {
            message: "The interval is inadequate"@,
            xs: Seq::empty(),
            fs: Seq::empty(),
            errs: Seq::empty(),
        }),
{
}

/// Re-running the same request yields an identical result: any two responses
/// that meet the engine's contract for the same inputs agree on the message
/// and on every trace column, row by row.
pub proof fn lemma_rerun_identical(
    r1: BisectionResponse,
    r2: BisectionResponse,
    e: Seq<char>,
    lb: Seq<char>,
    ub: Seq<char>,
    et: u8,
    tv: Seq<char>,
    maxit: nat,
)
    requires
        spec_bisection(e, lb, ub, et, tv, maxit) is Ok,
        resp_matches(r1, spec_bisection(e, lb, ub, et, tv, maxit)->Ok_0),
        resp_matches(r2, spec_bisection(e, lb, ub, et, tv, maxit)->Ok_0),
    ensures
        r1.message@ == r2.message@,
        r1.x_vals@.len() == r2.x_vals@.len(),
        forall|i: int|
            0 <= i < r1.x_vals@.len() ==> (#[trigger] r1.x_vals@[i])@ == r2.x_vals@[i]@,
        r1.f_vals@.len() == r2.f_vals@.len(),
        forall|i: int|
            0 <= i < r1.f_vals@.len() ==> (#[trigger] r1.f_vals@[i])@ == r2.f_vals@[i]@,
        r1.errors@.len() == r2.errors@.len(),
        forall|i: int|
            0 <= i < r1.errors@.len() ==> (#[trigger] r1.errors@[i])@ == r2.errors@[i]@,
        r1.iterations@ == r2.iterations@,
{
    let v = spec_bisection(e, lb, ub, et, tv, maxit)->Ok_0;
    assert forall|i: int| 0 <= i < r1.x_vals@.len() implies (#[trigger] r1.x_vals@[i])@
        == r2.x_vals@[i]@ by {
        assert(r1.x_vals@[i]@ == v.xs[i]);
        assert(r2.x_vals@[i]@ == v.xs[i]);
    }
    assert forall|i: int| 0 <= i < r1.f_vals@.len() implies (#[trigger] r1.f_vals@[i])@
        == r2.f_vals@[i]@ by {
        assert(r1.f_vals@[i]@ == v.fs[i]);
        assert(r2.f_vals@[i]@ == v.fs[i]);
    }
    assert forall|i: int| 0 <= i < r1.errors@.len() implies (#[trigger] r1.errors@[i])@
        == r2.errors@[i]@ by {
        assert(r1.errors@[i]@ == v.errs[i]);
        assert(r2.errors@[i]@ == v.errs[i]);
    }
    assert(r1.iterations@ =~= r2.iterations@);
}

/// A zero iteration budget with a seed midpoint that is no root yields a
/// single-row trace and the failure message.
pub proof fn lemma_zero_budget(e: Seq<char>, lb: Seq<char>, ub: Seq<char>, et: u8, tv: Seq<char>)
    requires
        expr_ok(e),
        !fbits_is_zero(eval_bits(e, lb)),
        !fbits_is_zero(eval_bits(e, ub)),
        !fbits_gt_zero(mul_of(shortest_str(eval_bits(e, lb)), shortest_str(eval_bits(e, ub)))),
        valid_decimal(tol_str(tv)),
        valid_decimal(lb),
        valid_decimal(ub),
        !fbits_is_zero(init_st(e, dec_of_lit(lb), dec_of_lit(ub)).fm),
    ensures
        spec_bisection(e, lb, ub, et, tv, 0) is Ok,
        spec_bisection(e, lb, ub, et, tv, 0)->Ok_0.xs.len() == 1,
        spec_bisection(e, lb, ub, et, tv, 0)->Ok_0.message == "Failed in "@ + crate::text::nat_digits(0)
            + " iterations"@,
{
    let st0 = init_st(e, dec_of_lit(lb), dec_of_lit(ub));
    let tol = dec_of_lit(tol_str(tv));
    assert(spec_iters(e, et, tol, st0, 0) == st0);
    assert(st0.xs.len() == 1);
}

} // verus!

verus! {

/// Twice a decimal.
pub open spec fn dbl(d: DecV) -> DecV {
    DecV { num: 2 * d.num, scale: d.scale }
}

proof fn lemma_mul_le_cancel(x: int, y: int, c: int)
    requires
        c >= 1,
    ensures
        (x <= y) <==> (x * c <= y * c),
{
    assert((x <= y) <==> (x * c <= y * c)) by (nonlinear_arith)
        requires
            c >= 1,
    ;
}

/// The order of decimals is transitive.
pub proof fn lemma_d_le_trans(a: DecV, b: DecV, c: DecV)
    requires
        d_le(a, b),
        d_le(b, c),
    ensures
        d_le(a, c),
{
    let pa: int = pow10(a.scale) as int;
    let pb: int = pow10(b.scale) as int;
    let pc: int = pow10(c.scale) as int;
    lemma_pow10_pos(a.scale);
    lemma_pow10_pos(b.scale);
    lemma_pow10_pos(c.scale);
    lemma_mul_le_cancel(a.num * pb, b.num * pa, pc);
    lemma_mul_le_cancel(b.num * pc, c.num * pb, pa);
    assert((b.num * pa) * pc == (b.num * pc) * pa) by (nonlinear_arith);
    assert((a.num * pb) * pc == (a.num * pc) * pb) by (nonlinear_arith);
    assert((c.num * pb) * pa == (c.num * pa) * pb) by (nonlinear_arith);
    lemma_mul_le_cancel(a.num * pc, c.num * pa, pb);
}

/// Rescaling keeps the value: the rescaled decimal compares equal.
pub proof fn lemma_rescale_eq(d: DecV, s: nat)
    requires
        s >= d.scale,
    ensures
        d_le(d, d_rescale(d, s)),
        d_le(d_rescale(d, s), d),
{
    let r = d_rescale(d, s);
    lemma_pow10_add((s - d.scale) as nat, d.scale);
    assert(r.num * pow10(d.scale) == d.num * pow10(s)) by (nonlinear_arith)
        requires
            r.num == d.num * pow10((s - d.scale) as nat),
            pow10((s - d.scale) as nat) * pow10(d.scale) == pow10(s),
    ;
}

/// At one scale, the order of decimals is the order of their scaled integers.
pub proof fn lemma_d_le_same_scale(a: DecV, b: DecV)
    requires
        a.scale == b.scale,
    ensures
        d_le(a, b) <==> a.num <= b.num,
{
    lemma_pow10_pos(a.scale);
    lemma_mul_le_cancel(a.num, b.num, pow10(a.scale) as int);
}

/// The midpoint lies between two ordered, equally scaled decimals.
proof fn lemma_mid_between(l: DecV, u: DecV, m: DecV)
    requires
        l.scale == u.scale,
        l.num <= u.num,
        m == (DecV { num: 5 * (l.num + u.num), scale: (l.scale + 1) as nat }),
    ensures
        d_le(l, m),
        d_le(m, u),
{
    lemma_pow10_pos(l.scale);
    let p: int = pow10(l.scale) as int;
    assert(pow10(m.scale) == 10 * pow10(l.scale));
    assert(l.num * (10 * p) <= (5 * (l.num + u.num)) * p) by (nonlinear_arith)
        requires
            l.num <= u.num,
            p >= 1,
    ;
    assert((5 * (l.num + u.num)) * p <= u.num * (10 * p)) by (nonlinear_arith)
        requires
            l.num <= u.num,
            p >= 1,
    ;
}

/// The invariant the bisection loop maintains over a valid bracket: the
/// current bounds share a scale and stay inside the original bracket, the
/// midpoint is their exact half sum, every recorded midpoint lies inside the
/// original bracket, and, under the absolute metric, the last recorded error
/// is half the current bracket width and each error from the second is at
/// most half the one before it.
pub open spec fn bracket_inv(st: St, l0: DecV, u0: DecV, et: u8) -> bool {
    &&& st.l.scale == st.u.scale
    &&& st.m.scale == st.l.scale + 1
    &&& st.prev == st.m
    &&& st.l.num <= st.u.num
    &&& d_le(l0, st.l)
    &&& d_le(st.u, u0)
    &&& st.m.num == 5 * (st.l.num + st.u.num)
    &&& st.errs.len() == st.xs.len()
    &&& st.xs.len() >= 1
    &&& (forall|i: int|
        0 <= i < st.xs.len() ==> d_le(l0, #[trigger] st.xs[i]) && d_le(st.xs[i], u0))
    &&& (et == 1 && st.xs.len() >= 2 ==> st.errs.last() == (DecV {
        num: 5 * (st.u.num - st.l.num),
        scale: (st.u.scale + 1) as nat,
    }))
    &&& (et == 1 ==> (forall|k: int|
        2 <= k < st.errs.len() ==> d_le(dbl(#[trigger] st.errs[k]), st.errs[k - 1])))
}

/// One pass preserves the bracket invariant.
proof fn lemma_step_inv(e: Seq<char>, et: u8, tol: DecV, st: St, l0: DecV, u0: DecV)
    requires
        bracket_inv(st, l0, u0, et),
    ensures
        bracket_inv(spec_step(e, et, tol, st), l0, u0, et),
        spec_step(e, et, tol, st).xs.len() <= st.xs.len() + 1,
{
    if !st.done {
        let st1 = spec_step(e, et, tol, st);
        let s = st.l.scale;
        assert(pow10(1) == 10 * pow10(0));
        assert(pow10(0) == 1);
        lemma_rescale_eq(st.l, st.m.scale);
        lemma_rescale_eq(st.u, st.m.scale);
        lemma_mid_between(st.l, st.u, st.m);
        assert(d_rescale(st.l, st.m.scale).num == st.l.num * 10);
        assert(d_rescale(st.u, st.m.scale).num == st.u.num * 10);
        lemma_d_le_same_scale(d_rescale(st.l, st.m.scale), st.m);
        lemma_d_le_same_scale(st.m, d_rescale(st.u, st.m.scale));
        assert(st.l.num * 10 <= 5 * (st.l.num + st.u.num));
        assert(5 * (st.l.num + st.u.num) <= st.u.num * 10);
        assert(st1.l.num <= st1.u.num);
        if fbits_le_zero(mul_of(shortest_str(eval_bits(e, crate::text::dec_str(st.l))), shortest_str(st.fm))) {
            lemma_d_le_trans(l0, st.l, d_rescale(st.l, st.m.scale));
            lemma_d_le_trans(st.m, st.u, u0);
        } else {
            lemma_d_le_trans(l0, st.l, st.m);
            lemma_d_le_trans(d_rescale(st.u, st.m.scale), st.u, u0);
        }
        lemma_mid_between(st1.l, st1.u, st1.m);
        lemma_d_le_trans(l0, st1.l, st1.m);
        lemma_d_le_trans(st1.m, st1.u, u0);
        assert forall|i: int| 0 <= i < st1.xs.len() implies d_le(l0, #[trigger] st1.xs[i])
            && d_le(st1.xs[i], u0) by {
            if i < st.xs.len() {
                assert(st1.xs[i] == st.xs[i]);
            } else {
                assert(st1.xs[i] == st1.m);
            }
        }
        if et == 1 {
            let w = st.u.num - st.l.num;
            let prev1 = d_rescale(st.prev, st1.m.scale);
            assert(prev1.num == st.m.num * 10);
            assert(st1.u.num - st1.l.num == 5 * w);
            assert(st1.errs.last().num == 5 * (st1.u.num - st1.l.num));
            if st.xs.len() >= 2 {
                let eo = st.errs[st.errs.len() - 1];
                let en = st1.errs.last();
                assert(eo == (DecV { num: 5 * w, scale: (st.u.scale + 1) as nat }));
                assert(en == (DecV { num: 25 * w, scale: (st.u.scale + 2) as nat }));
                assert(pow10(st.u.scale + 2) == 10 * pow10(st.u.scale + 1));
                assert(d_le(dbl(en), eo)) by {
                    let p1: int = pow10((st.u.scale + 1) as nat) as int;
                    lemma_pow10_pos((st.u.scale + 1) as nat);
                    assert((2 * (25 * w)) * p1 <= (5 * w) * (10 * p1)) by (nonlinear_arith)
                        requires
                            w >= 0,
                            p1 >= 1,
                    ;
                }
            }
            assert forall|k: int| 2 <= k < st1.errs.len() implies d_le(
                dbl(#[trigger] st1.errs[k]),
                st1.errs[k - 1],
            ) by {
                if k < st.errs.len() {
                    assert(st1.errs[k] == st.errs[k]);
                    assert(st1.errs[k - 1] == st.errs[k - 1]);
                } else {
                    assert(st1.errs[k] == st1.errs.last());
                    assert(st1.errs[k - 1] == st.errs[st.errs.len() - 1]);
                }
            }
        }
    }
}

/// Every number of passes preserves the bracket invariant, and the trace can
/// grow by at most one row per pass.
proof fn lemma_iters_inv(e: Seq<char>, et: u8, tol: DecV, st: St, l0: DecV, u0: DecV, k: nat)
    requires
        bracket_inv(st, l0, u0, et),
    ensures
        bracket_inv(spec_iters(e, et, tol, st, k), l0, u0, et),
        spec_iters(e, et, tol, st, k).xs.len() <= st.xs.len() + k,
    decreases k,
{
    if k > 0 {
        lemma_iters_inv(e, et, tol, st, l0, u0, (k - 1) as nat);
        lemma_step_inv(e, et, tol, spec_iters(e, et, tol, st, (k - 1) as nat), l0, u0);
    }
}

/// The initial state of a valid bracket satisfies the loop's invariant.
proof fn lemma_init_inv(e: Seq<char>, lbv: DecV, ubv: DecV, et: u8)
    requires
        d_le(lbv, ubv),
    ensures
        bracket_inv(init_st(e, lbv, ubv), lbv, ubv, et),
{
    let st0 = init_st(e, lbv, ubv);
    lemma_rescale_eq(lbv, st0.l.scale);
    lemma_rescale_eq(ubv, st0.u.scale);
    lemma_d_le_trans(d_rescale(lbv, st0.l.scale), lbv, ubv);
    lemma_d_le_trans(d_rescale(lbv, st0.l.scale), ubv, d_rescale(ubv, st0.u.scale));
    lemma_d_le_same_scale(st0.l, st0.u);
    lemma_mid_between(st0.l, st0.u, st0.m);
    lemma_d_le_trans(lbv, st0.l, st0.m);
    lemma_d_le_trans(st0.m, st0.u, ubv);
    assert forall|i: int| 0 <= i < st0.xs.len() implies d_le(lbv, #[trigger] st0.xs[i]) && d_le(
        st0.xs[i],
        ubv,
    ) by {
        assert(st0.xs[i] == st0.m);
    }
}

/// Over a valid bracket with a genuine sign change the engine returns a
/// result, takes at most `maxit` passes beyond the seed row, and every
/// recorded midpoint lies inside the original bracket.
pub proof fn lemma_trace_within_bracket(
    e: Seq<char>,
    lb: Seq<char>,
    ub: Seq<char>,
    et: u8,
    tv: Seq<char>,
    maxit: nat,
)
    requires
        expr_ok(e),
        !fbits_is_zero(eval_bits(e, lb)),
        !fbits_is_zero(eval_bits(e, ub)),
        !fbits_gt_zero(mul_of(shortest_str(eval_bits(e, lb)), shortest_str(eval_bits(e, ub)))),
        valid_decimal(tol_str(tv)),
        valid_decimal(lb),
        valid_decimal(ub),
        d_le(dec_of_lit(lb), dec_of_lit(ub)),
    ensures
        spec_bisection(e, lb, ub, et, tv, maxit) is Ok,
        spec_bisection(e, lb, ub, et, tv, maxit)->Ok_0.xs.len() <= maxit + 1,
        forall|i: int|
            0 <= i < spec_bisection(e, lb, ub, et, tv, maxit)->Ok_0.xs.len() ==> d_le(
                dec_of_lit(lb),
                #[trigger] spec_bisection(e, lb, ub, et, tv, maxit)->Ok_0.xs[i],
            ) && d_le(spec_bisection(e, lb, ub, et, tv, maxit)->Ok_0.xs[i], dec_of_lit(ub)),
{
    let lbv = dec_of_lit(lb);
    let ubv = dec_of_lit(ub);
    let tol = dec_of_lit(tol_str(tv));
    let st0 = init_st(e, lbv, ubv);
    lemma_init_inv(e, lbv, ubv, et);
    lemma_iters_inv(e, et, tol, st0, lbv, ubv, maxit);
}

/// Under the absolute metric, from the second recorded error on, each error
/// is at most half the error of the iteration before it.
pub proof fn lemma_errors_halve(
    e: Seq<char>,
    lb: Seq<char>,
    ub: Seq<char>,
    tv: Seq<char>,
    maxit: nat,
)
    requires
        expr_ok(e),
        !fbits_is_zero(eval_bits(e, lb)),
        !fbits_is_zero(eval_bits(e, ub)),
        !fbits_gt_zero(mul_of(shortest_str(eval_bits(e, lb)), shortest_str(eval_bits(e, ub)))),
        valid_decimal(tol_str(tv)),
        valid_decimal(lb),
        valid_decimal(ub),
        d_le(dec_of_lit(lb), dec_of_lit(ub)),
    ensures
        spec_bisection(e, lb, ub, 1, tv, maxit) is Ok,
        forall|k: int|
            2 <= k < spec_bisection(e, lb, ub, 1, tv, maxit)->Ok_0.errs.len() ==> d_le(
                dbl(#[trigger] spec_bisection(e, lb, ub, 1, tv, maxit)->Ok_0.errs[k]),
                spec_bisection(e, lb, ub, 1, tv, maxit)->Ok_0.errs[k - 1],
            ),
{
    let lbv = dec_of_lit(lb);
    let ubv = dec_of_lit(ub);
    let tol = dec_of_lit(tol_str(tv));
    let st0 = init_st(e, lbv, ubv);
    lemma_init_inv(e, lbv, ubv, 1);
    lemma_iters_inv(e, 1, tol, st0, lbv, ubv, maxit);
}

} // verus!
