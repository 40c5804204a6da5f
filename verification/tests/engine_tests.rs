//! End-to-end tests of the bisection engine against the real expression
//! evaluator and double arithmetic.

use bisector::bisection;
use bisector::BisectionError;
use bisector::dec::Dec;
use bisector::text::dec_to_string;
use bisector::text::parse_dec;

fn dec_strings(v: &[Dec]) -> Vec<String> {
    v.iter().map(dec_to_string).collect()
}

#[test]
fn quadratic_converges_to_two() {
    // x^2 - 4 on [0, 3], absolute error, threshold 0.5 * 10^-4 = 0.00005.
    let r = bisection("x^2 - 4", "0", "3", 1, "4", 50).unwrap();
    assert!(r.message.starts_with("The approximate solution is: "), "{}", r.message);
    assert!(r.message.ends_with(", with a tolerance = 0.00005"), "{}", r.message);
    let last = dec_to_string(r.x_vals.last().unwrap());
    let x: f64 = last.parse().unwrap();
    assert!((x - 2.0).abs() < 1e-3, "{}", x);
    assert!(r.x_vals.len() <= 51);
    assert_eq!(r.x_vals.len(), r.f_vals.len());
    assert_eq!(r.x_vals.len(), r.errors.len());
    assert_eq!(r.x_vals.len(), r.iterations.len());
    for (i, it) in r.iterations.iter().enumerate() {
        assert_eq!(*it, i);
    }
}

#[test]
fn no_sign_change_is_inadequate() {
    // f(-1) = 2 and f(1) = 2: no sign change.
    let r = bisection("x^2 + 1", "-1", "1", 1, "4", 50).unwrap();
    assert_eq!(r.message, "The interval is inadequate");
    assert!(r.x_vals.is_empty());
    assert!(r.f_vals.is_empty());
    assert!(r.errors.is_empty());
    assert!(r.iterations.is_empty());
}

#[test]
fn root_at_lower_bound() {
    let r = bisection("x^2 - 4", "2", "5", 1, "4", 50).unwrap();
    assert_eq!(r.message, "2 is a root of f(x)");
    assert!(r.x_vals.is_empty());
}

#[test]
fn root_at_upper_bound() {
    let r = bisection("x^2 - 4", "0", "2", 1, "4", 50).unwrap();
    assert_eq!(r.message, "2 is a root of f(x)");
    assert!(r.x_vals.is_empty());
}

#[test]
fn root_at_seed_midpoint() {
    // Seed midpoint of [-1, 1] is 0 and f(0) = 0 exactly; the root check on
    // the midpoint runs after the loop, so a zero budget reports it.
    let r = bisection("x", "-1", "1", 1, "4", 0).unwrap();
    // The midpoint carries one fraction digit from the exact halving.
    assert_eq!(r.message, "0.0 is a root of f(x)");
    assert_eq!(r.x_vals.len(), 1);
    assert_eq!(dec_to_string(&r.x_vals[0]), "0.0");
}

#[test]
fn zero_budget_fails_with_single_row() {
    let r = bisection("x^2 - 4", "0", "3", 1, "4", 0).unwrap();
    assert_eq!(r.message, "Failed in 0 iterations");
    assert_eq!(r.x_vals.len(), 1);
    assert_eq!(dec_to_string(&r.x_vals[0]), "1.5");
    assert_eq!(dec_to_string(&r.errors[0]), "100");
    assert_eq!(r.iterations, vec![0]);
}

#[test]
fn budget_exhausted_reports_failure() {
    // Threshold 0.5 * 10^-12 cannot be met in three halvings of width 3.
    let r = bisection("x^2 - 4", "0", "3", 1, "12", 3).unwrap();
    assert_eq!(r.message, "Failed in 3 iterations");
    assert_eq!(r.x_vals.len(), 4);
}

#[test]
fn exact_trace_of_identity_function() {
    // f(x) = x on [-1, 2]: seed midpoint 0.5, then f(-1) * f(0.5) < 0 keeps
    // the lower half, so the next midpoint is -0.25 with error 0.75.
    let r = bisection("x", "-1", "2", 1, "4", 2).unwrap();
    let xs = dec_strings(&r.x_vals);
    assert_eq!(xs[0], "0.5");
    assert_eq!(xs[1], "-0.25");
    let es = dec_strings(&r.errors);
    assert_eq!(es[0], "100");
    assert_eq!(es[1], "0.75");
    assert_eq!(r.f_vals[0], "0.5");
    assert_eq!(r.f_vals[1], "-0.25");
}

#[test]
fn relative_error_is_quotient() {
    // Second midpoint -0.25: |(-0.25) - 0.5| / |-0.25| = 3, truncated to
    // thirty fraction digits.
    let r = bisection("x", "-1", "2", 0, "4", 1).unwrap();
    let es = dec_strings(&r.errors);
    assert_eq!(es[1], "3.000000000000000000000000000000");
}

#[test]
fn errors_halve_under_absolute_metric() {
    let r = bisection("x^2 - 4", "0", "3", 1, "10", 20).unwrap();
    let es: Vec<f64> = dec_strings(&r.errors).iter().map(|s| s.parse().unwrap()).collect();
    for k in 2..es.len() {
        assert!(2.0 * es[k] <= es[k - 1] + 1e-12, "{} {}", es[k], es[k - 1]);
    }
}

#[test]
fn midpoints_stay_within_bracket() {
    let r = bisection("x^2 - 4", "0", "3", 1, "6", 40).unwrap();
    for d in &r.x_vals {
        let x: f64 = dec_to_string(d).parse().unwrap();
        assert!((0.0..=3.0).contains(&x), "{}", x);
    }
}

#[test]
fn rerun_is_identical() {
    let a = bisection("x^3 - x - 2", "1", "2", 1, "6", 60).unwrap();
    let b = bisection("x^3 - x - 2", "1", "2", 1, "6", 60).unwrap();
    assert_eq!(a.message, b.message);
    assert_eq!(dec_strings(&a.x_vals), dec_strings(&b.x_vals));
    assert_eq!(a.f_vals, b.f_vals);
    assert_eq!(dec_strings(&a.errors), dec_strings(&b.errors));
    assert_eq!(a.iterations, b.iterations);
}

#[test]
fn malformed_expression_is_rejected() {
    assert!(matches!(bisection("x +* 2", "0", "3", 1, "4", 10), Err(BisectionError::InvalidExpression)));
    assert!(matches!(bisection("y + 1", "0", "3", 1, "4", 10), Err(BisectionError::InvalidExpression)));
}

#[test]
fn non_finite_bound_is_rejected() {
    assert!(matches!(bisection("x - 0.5", "NaN", "3", 1, "4", 10), Err(BisectionError::InvalidBound)));
}

#[test]
fn non_finite_tolerance_is_rejected() {
    // 0.5 / 10^(-400) overflows to infinity.
    assert!(matches!(bisection("x - 0.5", "0", "3", 1, "-400", 10), Err(BisectionError::InvalidTolerance)));
}

#[test]
fn decimal_text_round_trip() {
    let d = parse_dec("12.50").unwrap();
    assert_eq!(dec_to_string(&d), "12.50");
    let d = parse_dec("-0.0625").unwrap();
    assert_eq!(dec_to_string(&d), "-0.0625");
    let d = parse_dec("-0").unwrap();
    assert_eq!(dec_to_string(&d), "0");
    let d = parse_dec("007").unwrap();
    assert_eq!(dec_to_string(&d), "7");
    assert!(parse_dec("").is_none());
    assert!(parse_dec("-").is_none());
    assert!(parse_dec(".5").is_none());
    assert!(parse_dec("3.").is_none());
    assert!(parse_dec("1.2.3").is_none());
    assert!(parse_dec("1e5").is_none());
}

#[test]
fn transcendental_expression_converges() {
    // cos(x) - x has its root near 0.739085.
    let r = bisection("cos(x) - x", "0", "1", 1, "6", 60).unwrap();
    assert!(r.message.starts_with("The approximate solution is: "), "{}", r.message);
    let x: f64 = dec_to_string(r.x_vals.last().unwrap()).parse().unwrap();
    assert!((x - 0.739085).abs() < 1e-4, "{}", x);
}

#[test]
fn request_runner_matches_direct_call() {
    let q = bisector::BisectionRequest {
        function_expression: "x^2 - 4".to_string(),
        lower_bound: "0".to_string(),
        upper_bound: "3".to_string(),
        error_type: 1,
        tolerance_value: "4".to_string(),
        max_iterations: 50,
    };
    let a = q.run().unwrap();
    let b = bisection("x^2 - 4", "0", "3", 1, "4", 50).unwrap();
    assert_eq!(a.message, b.message);
    assert_eq!(dec_strings(&a.x_vals), dec_strings(&b.x_vals));
}

#[test]
fn degenerate_equal_bounds_is_inadequate() {
    // f(2) * f(2) = 25 > 0: no sign change over the empty bracket.
    let r = bisection("x + 3", "2", "2", 1, "4", 10).unwrap();
    assert_eq!(r.message, "The interval is inadequate");
    assert!(r.x_vals.is_empty());
}

#[test]
fn negative_bracket_converges() {
    // x^2 - 4 has the root -2 inside [-3, 0].
    let r = bisection("x^2 - 4", "-3", "0", 1, "6", 60).unwrap();
    assert!(r.message.starts_with("The approximate solution is: "), "{}", r.message);
    let x: f64 = dec_to_string(r.x_vals.last().unwrap()).parse().unwrap();
    assert!((x + 2.0).abs() < 1e-4, "{}", x);
}
