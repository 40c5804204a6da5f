//! Decimal text: rendering a [`Dec`] as a plain decimal literal and parsing
//! such a literal back. The engine renders midpoints both for messages and
//! for handing them to the double-precision evaluator, and parses the
//! decimal renderings of the request's bounds and tolerance.

use vstd::prelude::*;

use crate::digits::digits_wf;
use crate::digits::pow10;
use crate::digits::val;
use crate::digits::uis_zero;
use crate::digits::lemma_val_zero;
use crate::digits::lemma_val_split;
use crate::digits::lemma_val_bound;
use crate::digits::lemma_val_pad;
use crate::digits::lemma_pow10_pos;
use crate::dec::Dec;
use crate::dec::DecV;
use crate::dec::iabs;

verus! {

/// The character for a single decimal digit.
pub open spec fn digit_char(d: nat) -> char {
    if d == 0 {
        '0'
    } else if d == 1 {
        '1'
    } else if d == 2 {
        '2'
    } else if d == 3 {
        '3'
    } else if d == 4 {
        '4'
    } else if d == 5 {
        '5'
    } else if d == 6 {
        '6'
    } else if d == 7 {
        '7'
    } else if d == 8 {
        '8'
    } else {
        '9'
    }
}

pub open spec fn is_digit_char(c: char) -> bool {
    c == '0' || c == '1' || c == '2' || c == '3' || c == '4' || c == '5' || c == '6' || c == '7'
        || c == '8' || c == '9'
}

/// The digit a character denotes; only meaningful on digit characters.
pub open spec fn char_digit(c: char) -> nat {
    if c == '0' {
        0
    } else if c == '1' {
        1
    } else if c == '2' {
        2
    } else if c == '3' {
        3
    } else if c == '4' {
        4
    } else if c == '5' {
        5
    } else if c == '6' {
        6
    } else if c == '7' {
        7
    } else if c == '8' {
        8
    } else {
        9
    }
}

/// The usual base-ten rendering of a natural number, most significant digit
/// first, with no leading zeros.
pub open spec fn nat_digits(n: nat) -> Seq<char>
    decreases n,
{
    if n < 10 {
        seq![digit_char(n)]
    } else {
        nat_digits(n / 10).push(digit_char(n % 10))
    }
}

/// The low `k` digits of a number, zero-padded to exactly `k` characters,
/// most significant first.
pub open spec fn frac_digits(n: nat, k: nat) -> Seq<char>
    decreases k,
{
    if k == 0 {
        Seq::empty()
    } else {
        frac_digits(n / 10, (k - 1) as nat).push(digit_char(n % 10))
    }
}

/// The decimal literal a [`DecV`] renders as: an optional minus sign, the
/// integer part without leading zeros, and, for a positive scale, a dot and
/// exactly `scale` fraction digits.
pub open spec fn dec_str(d: DecV) -> Seq<char> {
    let mag = iabs(d.num) as nat;
    let sign: Seq<char> = if d.num < 0 {
        seq!['-']
    } else {
        Seq::empty()
    };
    if d.scale == 0 {
        sign + nat_digits(mag)
    } else {
        sign + nat_digits(mag / pow10(d.scale)) + seq!['.'] + frac_digits(
            mag % pow10(d.scale),
            d.scale,
        )
    }
}

/// Appends one digit character.
fn push_digit(out: &mut String, d: u8)
    requires
        d < 10,
    ensures
        final(out)@ == old(out)@.push(digit_char(d as nat)),
{
    if d == 0 {
        proof {
            reveal_strlit("0");
        }
        out.append("0");
    } else if d == 1 {
        proof {
            reveal_strlit("1");
        }
        out.append("1");
    } else if d == 2 {
        proof {
            reveal_strlit("2");
        }
        out.append("2");
    } else if d == 3 {
        proof {
            reveal_strlit("3");
        }
        out.append("3");
    } else if d == 4 {
        proof {
            reveal_strlit("4");
        }
        out.append("4");
    } else if d == 5 {
        proof {
            reveal_strlit("5");
        }
        out.append("5");
    } else if d == 6 {
        proof {
            reveal_strlit("6");
        }
        out.append("6");
    } else if d == 7 {
        proof {
            reveal_strlit("7");
        }
        out.append("7");
    } else if d == 8 {
        proof {
            reveal_strlit("8");
        }
        out.append("8");
    } else {
        proof {
            reveal_strlit("9");
        }
        out.append("9");
    }
    proof {
        assert(out@ =~= old(out)@.push(digit_char(d as nat)));
    }
}

/// Appends the digits of the number held in positions `lo..` of a digit
/// vector, most significant first, without leading zeros.
pub(crate) fn push_int_part(out: &mut String, v: &Vec<u8>, lo: usize)
    requires
        digits_wf(v@),
        lo <= v@.len(),
    ensures
        final(out)@ == old(out)@ + nat_digits(val(v@.skip(lo as int))),
{
    let mut h = v.len();
    while h > lo && v[h - 1] == 0
        invariant
            lo <= h <= v@.len(),
            digits_wf(v@),
            forall|k: int| h <= k < v@.len() ==> v@[k] == 0,
        decreases h,
    {
        h = h - 1;
    }
    proof {
        assert(v@.skip(lo as int) =~= v@.subrange(lo as int, h as int) + v@.subrange(
            h as int,
            v@.len() as int,
        ));
        lemma_val_pad(v@.subrange(lo as int, h as int), v@.subrange(h as int, v@.len() as int));
    }
    if h == lo {
        proof {
            assert(v@.subrange(lo as int, h as int) =~= Seq::<u8>::empty());
        }
        push_digit(out, 0);
        proof {
            assert(out@ =~= old(out)@ + nat_digits(0));
        }
        return ;
    }
    let ghost base = out@;
    let mut i = h - 1;
    push_digit(out, v[i]);
    proof {
        let ghost sing = v@.subrange(i as int, h as int);
        assert(sing.len() == 1);
        assert(sing[0] == v@[i as int]);
        assert(sing.drop_first() =~= Seq::<u8>::empty());
        assert(val(Seq::<u8>::empty()) == 0);
        assert(val(sing) == sing[0] + 10 * val(sing.drop_first()));
        assert(val(sing) == v@[i as int]);
        assert(out@ =~= base + nat_digits(val(v@.subrange(i as int, h as int))));
    }
    while i > lo
        invariant
            lo <= i < h <= v@.len(),
            digits_wf(v@),
            v@[h - 1] != 0,
            out@ == base + nat_digits(val(v@.subrange(i as int, h as int))),
        decreases i,
    {
        i = i - 1;
        let ghost upper = v@.subrange(i + 1, h as int);
        let ghost whole = v@.subrange(i as int, h as int);
        proof {
            assert(whole.len() > 0);
            assert(whole[0] == v@[i as int]);
            assert(whole.drop_first() =~= upper);
            assert(val(whole) == v@[i as int] + 10 * val(upper));
            lemma_val_zero(upper);
            assert(upper[h - 1 - (i + 1)] == v@[h - 1]);
            assert(val(upper) > 0);
            assert(val(whole) >= 10);
            assert(val(whole) % 10 == v@[i as int]);
            assert(val(whole) / 10 == val(upper));
        }
        push_digit(out, v[i]);
        proof {
            assert(nat_digits(val(whole)) =~= nat_digits(val(upper)).push(
                digit_char(v@[i as int] as nat),
            ));
            assert(out@ =~= base + nat_digits(val(whole)));
        }
    }
}

/// Appends the low `k` positions of a digit vector, most significant first,
/// zero-padded to exactly `k` characters.
fn push_frac_part(out: &mut String, v: &Vec<u8>, k: usize)
    requires
        digits_wf(v@),
        k <= v@.len(),
    ensures
        final(out)@ == old(out)@ + frac_digits(val(v@.take(k as int)), k as nat),
{
    let ghost base = out@;
    let mut i = k;
    proof {
        assert(v@.subrange(k as int, k as int) =~= Seq::<u8>::empty());
        assert(out@ =~= base + frac_digits(val(v@.subrange(k as int, k as int)), 0));
    }
    while i > 0
        invariant
            0 <= i <= k <= v@.len(),
            digits_wf(v@),
            out@ == base + frac_digits(val(v@.subrange(i as int, k as int)), (k - i) as nat),
        decreases i,
    {
        i = i - 1;
        let ghost upper = v@.subrange(i + 1, k as int);
        let ghost whole = v@.subrange(i as int, k as int);
        proof {
            assert(whole.len() > 0);
            assert(whole[0] == v@[i as int]);
            assert(whole.drop_first() =~= upper);
            assert(val(whole) == v@[i as int] + 10 * val(upper));
            assert(val(whole) % 10 == v@[i as int]);
            assert(val(whole) / 10 == val(upper));
        }
        push_digit(out, v[i]);
        proof {
            assert(frac_digits(val(whole), (k - i) as nat) =~= frac_digits(
                val(upper),
                (k - i - 1) as nat,
            ).push(digit_char(v@[i as int] as nat)));
            assert(out@ =~= base + frac_digits(val(whole), (k - i) as nat));
        }
    }
}

/// Renders a decimal as its literal.
pub fn dec_to_string(d: &Dec) -> (r: String)
    requires
        d.wf(),
    ensures
        r@ == dec_str(d@),
{
    let mut out = String::new();
    if d.neg {
        proof {
            reveal_strlit("-");
        }
        out.append("-");
    }
    let ghost sign_part = out@;
    push_int_part(&mut out, &d.digits, d.scale);
    proof {
        lemma_val_split(d.digits@, d.scale as int);
        assert(digits_wf(d.digits@.take(d.scale as int)));
        lemma_val_bound(d.digits@.take(d.scale as int));
        lemma_pow10_pos(d@.scale);
        let q = val(d.digits@.skip(d.scale as int)) as int;
        let rr = val(d.digits@.take(d.scale as int)) as int;
        let p = pow10(d@.scale) as int;
        assert(val(d.digits@) == rr + p * q);
        assert(val(d.digits@) as int == q * p + rr) by (nonlinear_arith)
            requires
                val(d.digits@) == rr + p * q,
        ;
        vstd::arithmetic::div_mod::lemma_fundamental_div_mod_converse_div(
            val(d.digits@) as int,
            p,
            q,
            rr,
        );
        vstd::arithmetic::div_mod::lemma_fundamental_div_mod_converse_mod(
            val(d.digits@) as int,
            p,
            q,
            rr,
        );
        assert(iabs(d@.num) == val(d.digits@));
    }
    if d.scale > 0 {
        proof {
            reveal_strlit(".");
        }
        let ghost int_part = out@;
        out.append(".");
        proof {
            assert(out@ =~= int_part + seq!['.']);
        }
        push_frac_part(&mut out, &d.digits, d.scale);
        proof {
            assert(out@ =~= dec_str(d@));
        }
    } else {
        proof {
            assert(d.digits@.skip(0) =~= d.digits@);
            assert(out@ =~= dec_str(d@));
        }
    }
    out
}

} // verus!

verus! {

/// Parses a nonempty all-digit tail as the fraction part, extending the
/// accumulated magnitude and counting the fraction digits.
pub open spec fn parse_frac(s: Seq<char>, acc: nat) -> Option<(nat, nat)>
    decreases s.len(),
{
    if s.len() == 0 {
        Some((acc, 0))
    } else if is_digit_char(s[0]) {
        match parse_frac(s.drop_first(), acc * 10 + char_digit(s[0])) {
            Some(mk) => Some((mk.0, (mk.1 + 1) as nat)),
            None => None,
        }
    } else {
        None
    }
}

/// Parses digits, then optionally a dot followed by at least one more digit.
/// Yields the magnitude read from all digits and the number of fraction
/// digits.
pub open spec fn parse_int(s: Seq<char>, acc: nat, seen: bool) -> Option<(nat, nat)>
    decreases s.len(),
{
    if s.len() == 0 {
        if seen {
            Some((acc, 0))
        } else {
            None
        }
    } else if is_digit_char(s[0]) {
        parse_int(s.drop_first(), acc * 10 + char_digit(s[0]), true)
    } else if s[0] == '.' && seen && s.len() > 1 {
        parse_frac(s.drop_first(), acc)
    } else {
        None
    }
}

/// Parses an optional minus sign and then a plain decimal literal.
pub open spec fn parse_lit(s: Seq<char>) -> Option<(bool, nat, nat)> {
    let negp = s.len() > 0 && s[0] == '-';
    let t = if negp {
        s.drop_first()
    } else {
        s
    };
    match parse_int(t, 0, false) {
        Some(mk) => Some((negp, mk.0, mk.1)),
        None => None,
    }
}

/// Whether the characters form a plain decimal literal:
/// `['-'] digits ['.' digits]` with both digit runs nonempty.
pub open spec fn valid_decimal(s: Seq<char>) -> bool {
    parse_lit(s) is Some
}

/// The decimal a valid literal denotes; a negative zero collapses to zero.
pub open spec fn dec_of_lit(s: Seq<char>) -> DecV {
    match parse_lit(s) {
        Some(t3) => DecV {
            num: if t3.0 && t3.1 > 0 {
                -(t3.1 as int)
            } else {
                t3.1 as int
            },
            scale: t3.2,
        },
        None => DecV { num: 0, scale: 0 },
    }
}

/// The digit a character stands for, if any.
fn char_to_digit(c: char) -> (r: Option<u8>)
    ensures
        (r is Some) == is_digit_char(c),
        r is Some ==> r.unwrap() < 10 && r.unwrap() as nat == char_digit(c),
{
    match c {
        '0' => Some(0),
        '1' => Some(1),
        '2' => Some(2),
        '3' => Some(3),
        '4' => Some(4),
        '5' => Some(5),
        '6' => Some(6),
        '7' => Some(7),
        '8' => Some(8),
        '9' => Some(9),
        _ => None,
    }
}

/// Parses a plain decimal literal into a [`Dec`].
pub fn parse_dec(s: &str) -> (r: Option<Dec>)
    ensures
        (r is Some) == valid_decimal(s@),
        r matches Some(d) ==> d.wf() && d@ == dec_of_lit(s@),
{
    let n = s.unicode_len();
    let neg = if n > 0 {
        s.get_char(0) == '-'
    } else {
        false
    };
    let start: usize = if neg {
        1
    } else {
        0
    };
    let ghost t = s@.skip(start as int);
    proof {
        if neg {
            assert(t =~= s@.drop_first());
        } else {
            assert(t =~= s@);
        }
    }
    let mut digits: Vec<u8> = Vec::new();
    let mut i: usize = start;
    proof {
        assert(t.skip(0) =~= t);
        assert(val(Seq::<u8>::empty()) == 0);
    }
    while i < n
        invariant
            start <= i <= n,
            n == s@.len(),
            start <= 1,
            start == 1 <==> (s@.len() > 0 && s@[0] == '-'),
            neg == (start == 1),
            t == s@.skip(start as int),
            digits_wf(digits@),
            digits@.len() == i - start,
            parse_int(t, 0, false) == parse_int(
                t.skip((i - start) as int),
                val(digits@),
                i > start,
            ),
        decreases n - i,
    {
        let c = s.get_char(i);
        let ghost rest = t.skip((i - start) as int);
        proof {
            assert(rest.len() == n - i);
            assert(rest[0] == s@[i as int]);
            assert(rest.drop_first() =~= t.skip((i + 1 - start) as int));
        }
        if c == '.' {
            if i == start || i + 1 == n {
                proof {
                    assert(parse_int(rest, val(digits@), i > start) is None);
                    assert(parse_int(t, 0, false) is None);
                    if start == 1 {
                        assert(t =~= s@.drop_first());
                    } else {
                        assert(s@.skip(0) =~= s@);
                        assert(t =~= s@);
                    }
                    assert(parse_lit(s@) is None);
                    assert(!valid_decimal(s@));
                }
                return None;
            }
            proof {
                let pf = parse_frac(t.skip((i + 1 - start) as int), val(digits@));
                assert(parse_int(rest, val(digits@), i > start) == pf);
                if pf is Some {
                    let mk = pf.unwrap();
                    assert(Some((mk.0, (mk.1 + 0) as nat)) == Some(mk));
                }
            }
            let mut j = i + 1;
            while j < n
                invariant
                    i + 1 <= j <= n,
                    n == s@.len(),
                    start <= i,
                    i < n,
                    start <= 1,
                    start == 1 <==> (s@.len() > 0 && s@[0] == '-'),
                    neg == (start == 1),
                    t == s@.skip(start as int),
                    digits_wf(digits@),
                    parse_int(t, 0, false) == (match parse_frac(
                        t.skip((j - start) as int),
                        val(digits@),
                    ) {
                        Some(mk) => Some((mk.0, (mk.1 + (j - i - 1)) as nat)),
                        None => None::<(nat, nat)>,
                    }),
                decreases n - j,
            {
                let c2 = s.get_char(j);
                let ghost frest = t.skip((j - start) as int);
                proof {
                    assert(frest.len() == n - j);
                    assert(frest[0] == s@[j as int]);
                    assert(frest.drop_first() =~= t.skip((j + 1 - start) as int));
                }
                match char_to_digit(c2) {
                    None => {
                        proof {
                            assert(parse_frac(frest, val(digits@)) is None);
                            assert(parse_int(t, 0, false) is None);
                            if start == 1 {
                                assert(t =~= s@.drop_first());
                            } else {
                                assert(s@.skip(0) =~= s@);
                                assert(t =~= s@);
                            }
                            assert(parse_lit(s@) is None);
                            assert(!valid_decimal(s@));
                        }
                        return None;
                    },
                    Some(d) => {
                        proof {
                            let s2 = digits@.insert(0, d);
                            assert(s2.drop_first() =~= digits@);
                            assert(s2[0] == d);
                            assert(val(s2) == d + 10 * val(digits@));
                        }
                        digits.insert(0, d);
                    },
                }
                j = j + 1;
            }
            proof {
                assert(t.skip((n - start) as int) =~= Seq::<char>::empty());
                assert(parse_frac(t.skip((n - start) as int), val(digits@)) == Some(
                    (val(digits@), 0nat),
                ));
            }
            let scale = n - i - 1;
            let isz = uis_zero(&digits);
            let mut dd = digits;
            crate::dec::pad_digits(&mut dd, scale);
            proof {
                lemma_val_zero(dd@);
            }
            proof {
                if start == 1 {
                    assert(t =~= s@.drop_first());
                } else {
                    assert(s@.skip(0) =~= s@);
                    assert(t =~= s@);
                }
                assert(parse_int(t, 0, false) == Some((val(dd@), (n - i - 1) as nat)));
                assert(valid_decimal(s@));
            }
            return Some(Dec { neg: neg && !isz, digits: dd, scale });
        }
        match char_to_digit(c) {
            None => {
                proof {
                    assert(s@[i as int] != '.');
                    assert(parse_int(rest, val(digits@), i > start) is None);
                    assert(parse_int(t, 0, false) is None);
                    if start == 1 {
                        assert(t =~= s@.drop_first());
                    } else {
                        assert(s@.skip(0) =~= s@);
                        assert(t =~= s@);
                    }
                    assert(parse_lit(s@) is None);
                    assert(!valid_decimal(s@));
                }
                return None;
            },
            Some(d) => {
                proof {
                    let s2 = digits@.insert(0, d);
                    assert(s2.drop_first() =~= digits@);
                    assert(s2[0] == d);
                    assert(val(s2) == d + 10 * val(digits@));
                }
                digits.insert(0, d);
            },
        }
        i = i + 1;
    }
    if i == start {
        proof {
            assert(t.skip(0) =~= t);
            assert(t.len() == 0);
        }
        return None;
    }
    proof {
        assert(t.skip((n - start) as int) =~= Seq::<char>::empty());
        assert(parse_int(t.skip((n - start) as int), val(digits@), i > start) == Some(
            (val(digits@), 0nat),
        ));
    }
    let isz = uis_zero(&digits);
    let mut dd = digits;
    crate::dec::pad_digits(&mut dd, 0);
    proof {
        lemma_val_zero(dd@);
    }
    Some(Dec { neg: neg && !isz, digits: dd, scale: 0 })
}

} // verus!
