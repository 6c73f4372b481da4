//! Recognisers for numeric literals.
use vstd::prelude::*;
use crate::text::{chars_of, string_of};

verus! {

/// Whether the regular expression `pattern` matches somewhere in `haystack`,
/// or `None` when the regex crate refuses the pattern.
pub uninterp spec fn regex_search(pattern: Seq<char>, haystack: Seq<char>) -> Option<bool>;

/// Relies on `regex::Regex::new`, which compiles `pattern` or refuses it, and
/// `regex::Regex::is_match`, which tells whether the compiled expression
/// matches anywhere in `haystack`. Both depend on their arguments alone.
#[verifier::external_body]
fn regex_find(pattern: &str, haystack: &str) -> (r: Option<bool>)
    ensures
        r == regex_search(pattern@, haystack@),
{
    match regex::Regex::new(pattern) {
        Ok(re) => Some(re.is_match(haystack)),
        Err(_) => None,
    }
}

/// An optional sign, then one or more decimal digits.
pub const INT_PATTERN: &'static str = "^[+-]?[0-9]+$";

/// An optional sign, digits, a decimal point, digits.
pub const FLOAT_PATTERN: &'static str = "^[+-]?[0-9]*\\.[0-9]*$";

/// `s` is an integer literal.
pub open spec fn int_literal(s: Seq<char>) -> bool {
    regex_search(INT_PATTERN@, s) == Some(true)
}

pub open spec fn is_exp(c: char) -> bool {
    c == 'e' || c == 'E'
}

/// Number of exponent marks (`e` or `E`) in `s`.
pub open spec fn exp_count(s: Seq<char>) -> nat
    decreases s.len(),
{
    if s.len() == 0 {
        0
    } else {
        exp_count(s.drop_last()) + if is_exp(s.last()) { 1nat } else { 0nat }
    }
}

/// Index of the first exponent mark at or after `i`.
pub open spec fn exp_from(s: Seq<char>, i: int) -> int
    decreases s.len() - i,
{
    if i < 0 || i >= s.len() {
        s.len() as int
    } else if is_exp(s[i]) {
        i
    } else {
        exp_from(s, i + 1)
    }
}

/// Whether `s` reads as a float, given whether it reads as a decimal with a
/// point, and, around its only `e` or `E`, whether the mantissa is a float
/// or an integer and whether the exponent is an integer.
pub open spec fn float_with(s: Seq<char>, decimal: bool, mantissa: bool, exponent: bool) -> bool {
    s.len() > 1 && (decimal || (exp_count(s) == 1 && mantissa && exponent))
}

/// `s` is a floating-point literal: longer than one character, and either a
/// decimal with a point, or a mantissa (float or integer) and an integer
/// exponent around its only `e` or `E`.
pub open spec fn float_literal(s: Seq<char>) -> bool
    decreases s.len(),
{
    let k = exp_from(s, 0);
    let split = exp_count(s) == 1 && 0 <= k < s.len();
    float_with(
        s,
        regex_search(FLOAT_PATTERN@, s) == Some(true),
        split && (float_literal(s.take(k)) || int_literal(s.take(k))),
        split && int_literal(s.skip(k + 1)),
    )
}

/// Whether `value` is an integer literal.
pub fn is_int(value: &str) -> (r: bool)
    ensures
        r == int_literal(value@),
{
    match regex_find(INT_PATTERN, value) {
        Some(b) => b,
        None => false,
    }
}

/// The number of exponent marks in `v`, and the index of the first one
/// (the length of `v` when there is none).
fn exp_split(v: &Vec<char>) -> (r: (usize, usize))
    ensures
        r.0 == exp_count(v@),
        r.0 > 0 ==> r.1 == exp_from(v@, 0) && r.1 < v@.len(),
{
    let mut count: usize = 0;
    let mut first: usize = v.len();
    let mut i: usize = 0;
    while i < v.len()
        invariant
            i <= v@.len(),
            count <= i,
            count == exp_count(v@.take(i as int)),
            count > 0 ==> first == exp_from(v@, 0),
            count == 0 ==> exp_from(v@, 0) == exp_from(v@, i as int),
            count > 0 ==> first < v@.len(),
        decreases v@.len() - i,
    {
        proof {
            assert(v@.take(i + 1).drop_last() =~= v@.take(i as int));
        }
        if v[i] == 'e' || v[i] == 'E' {
            if count == 0 {
                first = i;
            }
            count = count + 1;
        }
        i = i + 1;
    }
    proof {
        assert(v@.take(i as int) =~= v@);
    }
    (count, first)
}

/// Whether `value` reads as a float, given whether it reads as a decimal with
/// a point, and, around its only `e` or `E`, whether the mantissa is a float
/// or an integer and whether the exponent is an integer.
pub fn float_given(value: &str, decimal: bool, mantissa: bool, exponent: bool) -> (r: bool)
    ensures
        r == float_with(value@, decimal, mantissa, exponent),
{
    let v = chars_of(value);
    if v.len() <= 1 {
        return false;
    }
    if decimal {
        return true;
    }
    let (count, _) = exp_split(&v);
    count == 1 && mantissa && exponent
}

/// Whether `value` is a floating-point literal.
pub fn is_float(value: &str) -> (r: bool)
    ensures
        r == float_literal(value@),
    decreases value@.len(),
{
    let v = chars_of(value);
    let decimal = match regex_find(FLOAT_PATTERN, value) {
        Some(b) => b,
        None => false,
    };
    let (count, first) = exp_split(&v);
    if count != 1 {
        return float_given(value, decimal, false, false);
    }
    let mantissa = string_of(&v, 0, first);
    let exponent = string_of(&v, first + 1, v.len());
    proof {
        assert(mantissa@ =~= v@.take(first as int));
        assert(exponent@ =~= v@.skip(first + 1));
    }
    let m = is_float(mantissa.as_str()) || is_int(mantissa.as_str());
    let e = is_int(exponent.as_str());
    float_given(value, decimal, m, e)
}

} // verus!
