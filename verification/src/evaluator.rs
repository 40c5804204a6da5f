//! The double-precision side of the engine, delegated to the `meval` crate.
//! Double values cross this boundary as plain decimal strings (`meval` reads
//! them with the standard, correctly rounded conversion) and come back as
//! IEEE 754 binary64 bit patterns together with their shortest decimal
//! rendering. All float arithmetic lives behind these wrappers; the sign
//! tests on the returned bits are decided in verified code.

use vstd::prelude::*;

verus! {

/// Whether the text parses as an expression whose only free variable is `x`.
pub uninterp spec fn expr_ok(e: Seq<char>) -> bool;

/// The bits the parsed expression yields at the point the literal denotes.
pub uninterp spec fn eval_bits(e: Seq<char>, x: Seq<char>) -> u64;

/// The characters `Display` prints for the encoded double.
pub uninterp spec fn shortest_str(b: u64) -> Seq<char>;

/// The bits of the IEEE product of the doubles two literals denote.
pub uninterp spec fn mul_of(a: Seq<char>, b: Seq<char>) -> u64;

/// The rendering of the tolerance threshold `0.5 * 10^(-t)` computed in
/// double precision from the literal `t`.
pub uninterp spec fn tol_str(t: Seq<char>) -> Seq<char>;

/// Relies on `meval::Expr::from_str` and `Expr::bind`: parsing succeeds or
/// fails deterministically in the expression text, binding `x` rejects any
/// other free variable, and the bound closure is a pure map over doubles.
/// Relies on `meval::eval_str` reading a number literal with `f64::from_str`
/// (correctly rounded; a point that is no literal becomes NaN), and on
/// `Display` for `f64` printing the shortest round-tripping decimal.
#[verifier::external_body]
pub(crate) fn eval_expr(e: &str, x: &str) -> (r: Option<(u64, String)>)
    ensures
        (r is Some) == expr_ok(e@),
        r is Some ==> r.unwrap().0 == eval_bits(e@, x@),
        r is Some ==> r.unwrap().1@ == shortest_str(eval_bits(e@, x@)),
{
    let parsed: meval::Expr = match e.parse() {
        Ok(p) => p,
        Err(_) => return None,
    };
    let f = match parsed.bind("x") {
        Ok(f) => f,
        Err(_) => return None,
    };
    let xv = match meval::eval_str(x) {
        Ok(v) => v,
        Err(_) => meval::eval_str("0/0").unwrap(),
    };
    let y = f(xv);
    Some((y.to_bits(), y.to_string()))
}

/// Relies on `meval::eval_str`: the product expression of two number
/// literals is evaluated with IEEE double multiplication, a pure function of
/// the two texts. A pair that does not form a product expression (a NaN or
/// infinite rendering among them) becomes NaN, the documented policy for
/// non-finite values.
#[verifier::external_body]
pub(crate) fn mul_sign(a: &str, b: &str) -> (r: u64)
    ensures
        r == mul_of(a@, b@),
{
    let prod = format!("({})*({})", a, b);
    let v = match meval::eval_str(prod.as_str()) {
        Ok(v) => v,
        Err(_) => meval::eval_str("0/0").unwrap(),
    };
    v.to_bits()
}

/// Relies on `meval::eval_str`: `0.5/10^t` is evaluated as IEEE double
/// division and `powf`, a pure function of the text of `t`, and rendered by
/// `Display` for `f64`. A `t` that is no number literal yields "NaN".
#[verifier::external_body]
pub(crate) fn tolerance_of(t: &str) -> (r: String)
    ensures
        r@ == tol_str(t@),
{
    let e = format!("0.5/10^({})", t);
    match meval::eval_str(e.as_str()) {
        Ok(v) => v.to_string(),
        Err(_) => {
            let mut s = String::new();
            s.push_str("NaN");
            s
        },
    }
}

} // verus!
