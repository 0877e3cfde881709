//! The literal grammar: a mixed number `[+-]W_N/D`, a fraction
//! `[+-]N/[+-]D` or a whole number `[+-]W`, each read into a `Fraction`.

use vstd::prelude::*;
use vstd::string::*;
use crate::error::{outcome, CalcError, Fault};
use vstd::arithmetic::div_mod::lemma_fundamental_div_mod;
use crate::fraction::{display_spec, lemma_wf_reduced, mixed_numerator, reduced, Fraction};
use crate::math::{abs_spec, lemma_gcd_of_multiple};
use crate::text::{
    all_digits,
    chars_of,
    check_digits,
    check_signed,
    digits,
    digits_value,
    find_char,
    fits_i32,
    int_str,
    lemma_digits,
    lemma_int_str,
    lemma_signed_digits_lack,
    lemma_unsigned_value,
    parse_int,
    signed_digits,
    signed_value,
};

verus! {

/// `s` is a fraction literal whose `/` stands at `j`.
pub open spec fn fraction_at(s: Seq<char>, j: int) -> bool {
    &&& 0 <= j < s.len()
    &&& s[j] == '/'
    &&& signed_digits(s.subrange(0, j))
    &&& signed_digits(s.subrange(j + 1, s.len() as int))
}

/// `s` is a mixed-number literal whose `_` stands at `k` and `/` at `j`.
pub open spec fn mixed_at(s: Seq<char>, k: int, j: int) -> bool {
    &&& 0 <= k < j < s.len()
    &&& s[k] == '_'
    &&& s[j] == '/'
    &&& signed_digits(s.subrange(0, k))
    &&& all_digits(s.subrange(k + 1, j))
    &&& all_digits(s.subrange(j + 1, s.len() as int))
}

pub open spec fn is_fraction_literal(s: Seq<char>) -> bool {
    exists|j: int| fraction_at(s, j)
}

pub open spec fn is_mixed_literal(s: Seq<char>) -> bool {
    exists|k: int, j: int| mixed_at(s, k, j)
}

/// The value of a fraction literal split at `j`.
pub open spec fn fraction_value(s: Seq<char>, j: int) -> Result<Fraction, Fault> {
    let n = signed_value(s.subrange(0, j));
    let d = signed_value(s.subrange(j + 1, s.len() as int));
    if fits_i32(n) && fits_i32(d) {
        reduced(n, d)
    } else {
        Err(Fault::Overflow)
    }
}

/// The value of a mixed-number literal split at `k` and `j`.
pub open spec fn mixed_value(s: Seq<char>, k: int, j: int) -> Result<Fraction, Fault> {
    let w = signed_value(s.subrange(0, k));
    let n = digits_value(s.subrange(k + 1, j)) as int;
    let d = digits_value(s.subrange(j + 1, s.len() as int)) as int;
    if fits_i32(w) && fits_i32(n) && fits_i32(d) {
        reduced(mixed_numerator(w, n, d), d)
    } else {
        Err(Fault::Overflow)
    }
}

/// The value of a whole-number literal.
pub open spec fn whole_value(s: Seq<char>) -> Result<Fraction, Fault> {
    let w = signed_value(s);
    if fits_i32(w) {
        reduced(w, 1)
    } else {
        Err(Fault::Overflow)
    }
}

/// What `Fraction::parse_fraction` gives for `s`.
pub open spec fn fraction_literal(s: Seq<char>) -> Result<Fraction, Fault> {
    if is_fraction_literal(s) {
        fraction_value(s, choose|j: int| fraction_at(s, j))
    } else {
        Err(Fault::UnparseableLiteral(s))
    }
}

/// What `parse_mixed_number` gives for `s`: the forms are tried as mixed
/// number, fraction, then whole number.
pub open spec fn literal(s: Seq<char>) -> Result<Fraction, Fault> {
    if is_mixed_literal(s) {
        let (k, j) = choose|k: int, j: int| mixed_at(s, k, j);
        mixed_value(s, k, j)
    } else if is_fraction_literal(s) {
        fraction_value(s, choose|j: int| fraction_at(s, j))
    } else if signed_digits(s) {
        whole_value(s)
    } else {
        Err(Fault::UnparseableLiteral(s))
    }
}

/// A fraction literal has one place for its `/`: the first one.
proof fn lemma_fraction_at_first(s: Seq<char>, j: int)
    requires
        fraction_at(s, j),
    ensures
        forall|i: int| 0 <= i < j ==> s[i] != '/',
{
    lemma_signed_digits_lack(s.subrange(0, j), '/');
    assert forall|i: int| 0 <= i < j implies s[i] != '/' by {
        assert(s[i] == s.subrange(0, j)[i]);
    }
}

/// A mixed literal has one place for its `_` and its `/`: the first ones.
proof fn lemma_mixed_at_first(s: Seq<char>, k: int, j: int)
    requires
        mixed_at(s, k, j),
    ensures
        forall|i: int| 0 <= i < k ==> s[i] != '_',
        forall|i: int| k < i < j ==> s[i] != '/',
{
    lemma_signed_digits_lack(s.subrange(0, k), '_');
    assert forall|i: int| 0 <= i < k implies s[i] != '_' by {
        assert(s[i] == s.subrange(0, k)[i]);
    }
    lemma_unsigned_value(s.subrange(k + 1, j));
    lemma_signed_digits_lack(s.subrange(k + 1, j), '/');
    assert forall|i: int| k < i < j implies s[i] != '/' by {
        assert(s[i] == s.subrange(k + 1, j)[i - k - 1]);
    }
}

proof fn lemma_fraction_at_unique(s: Seq<char>, j1: int, j2: int)
    requires
        fraction_at(s, j1),
        fraction_at(s, j2),
    ensures
        j1 == j2,
{
    lemma_fraction_at_first(s, j1);
    lemma_fraction_at_first(s, j2);
}

proof fn lemma_mixed_at_unique(s: Seq<char>, k1: int, j1: int, k2: int, j2: int)
    requires
        mixed_at(s, k1, j1),
        mixed_at(s, k2, j2),
    ensures
        k1 == k2,
        j1 == j2,
{
    lemma_mixed_at_first(s, k1, j1);
    lemma_mixed_at_first(s, k2, j2);
}

/// Where the `/` of a fraction literal stands, if `v` is one.
fn fraction_split(v: &Vec<char>) -> (r: Option<usize>)
    ensures
        r matches Some(j) ==> fraction_at(v@, j as int),
        r is None ==> !is_fraction_literal(v@),
{
    let n = v.len();
    let j = find_char(v, 0, '/');
    if j < n && check_signed(v, 0, j) && check_signed(v, j + 1, n) {
        return Some(j);
    }
    proof {
        if is_fraction_literal(v@) {
            let j2 = choose|j2: int| fraction_at(v@, j2);
            lemma_fraction_at_first(v@, j2);
        }
    }
    None
}

/// Where the `_` and `/` of a mixed-number literal stand, if `v` is one.
fn mixed_split(v: &Vec<char>) -> (r: Option<(usize, usize)>)
    ensures
        r matches Some((k, j)) ==> mixed_at(v@, k as int, j as int),
        r is None ==> !is_mixed_literal(v@),
{
    let n = v.len();
    let k = find_char(v, 0, '_');
    if k < n {
        let j = find_char(v, k + 1, '/');
        if j < n && check_signed(v, 0, k) && check_digits(v, k + 1, j) && check_digits(
            v,
            j + 1,
            n,
        ) {
            return Some((k, j));
        }
    }
    proof {
        if is_mixed_literal(v@) {
            let (k2, j2) = choose|k2: int, j2: int| mixed_at(v@, k2, j2);
            lemma_mixed_at_first(v@, k2, j2);
        }
    }
    None
}

/// The value of the fraction literal `v`, split at `j`.
fn read_fraction(v: &Vec<char>, j: usize) -> (r: Result<Fraction, CalcError>)
    requires
        fraction_at(v@, j as int),
    ensures
        outcome(r) == fraction_value(v@, j as int),
        r matches Ok(f) ==> f.wf(),
{
    assert(j < v.len());
    let numerator = parse_int(v, 0, j);
    let denominator = parse_int(v, j + 1, v.len());
    match (numerator, denominator) {
        (Some(n), Some(d)) => Fraction::new(n, d),
        _ => Err(CalcError::Overflow),
    }
}

impl Fraction {
    /// Whether the text is a fraction literal `[+-]N/[+-]D`.
    pub fn is_fraction(fraction_exp: &str) -> (r: bool)
        ensures
            r == is_fraction_literal(fraction_exp@),
    {
        let v = chars_of(fraction_exp);
        fraction_split(&v).is_some()
    }

    /// Reads a fraction literal `[+-]N/[+-]D` into a reduced fraction.
    pub fn parse_fraction(fraction_exp: &str) -> (r: Result<Fraction, CalcError>)
        ensures
            outcome(r) == fraction_literal(fraction_exp@),
            r matches Ok(f) ==> f.wf(),
    {
        let v = chars_of(fraction_exp);
        match fraction_split(&v) {
            Some(j) => {
                proof {
                    lemma_fraction_at_unique(v@, j as int, choose|j2: int| fraction_at(v@, j2));
                }
                read_fraction(&v, j)
            },
            None => Err(CalcError::UnparseableLiteral(String::from_str(fraction_exp))),
        }
    }
}

/// Reads a mixed number, a fraction or a whole number into a reduced fraction.
pub fn parse_mixed_number(mixed_number_exp: &str) -> (r: Result<Fraction, CalcError>)
    ensures
        outcome(r) == literal(mixed_number_exp@),
        r matches Ok(f) ==> f.wf(),
{
    let v = chars_of(mixed_number_exp);
    let n = v.len();
    if let Some((k, j)) = mixed_split(&v) {
        proof {
            let (k2, j2) = choose|k2: int, j2: int| mixed_at(v@, k2, j2);
            lemma_mixed_at_unique(v@, k as int, j as int, k2, j2);
            lemma_unsigned_value(v@.subrange(k + 1, j as int));
            lemma_unsigned_value(v@.subrange(j + 1, n as int));
        }
        let whole = parse_int(&v, 0, k);
        let numerator = parse_int(&v, k + 1, j);
        let denominator = parse_int(&v, j + 1, n);
        return match (whole, numerator, denominator) {
            (Some(w), Some(a), Some(b)) => Fraction::new_mixed(w, a, b),
            _ => Err(CalcError::Overflow),
        };
    }
    if let Some(j) = fraction_split(&v) {
        proof {
            lemma_fraction_at_unique(v@, j as int, choose|j2: int| fraction_at(v@, j2));
        }
        return read_fraction(&v, j);
    }
    if check_signed(&v, 0, n) {
        proof {
            assert(v@.subrange(0, n as int) =~= v@);
        }
        return match parse_int(&v, 0, n) {
            Some(w) => Fraction::new_whole(w),
            None => Err(CalcError::Overflow),
        };
    }
    proof {
        assert(v@.subrange(0, n as int) =~= v@);
    }
    Err(CalcError::UnparseableLiteral(String::from_str(mixed_number_exp)))
}

/// Reading back how a fraction is displayed gives the same fraction.
pub proof fn lemma_display_round_trip(x: Fraction)
    requires
        x.wf(),
    ensures
        literal(display_spec(x.num(), x.den())) == Ok::<Fraction, Fault>(x),
{
    let n = x.num();
    let d = x.den();
    let a = abs_spec(n);
    let w = if n < 0 {
        -(a / d)
    } else {
        a / d
    };
    let s = display_spec(n, d);
    lemma_wf_reduced(x);
    lemma_fundamental_div_mod(a, d);
    lemma_int_str(n);
    lemma_int_str(w);
    lemma_digits(d as nat);
    lemma_unsigned_value(digits(d as nat));
    lemma_signed_digits_lack(int_str(n), '_');
    lemma_signed_digits_lack(int_str(w), '_');
    lemma_signed_digits_lack(int_str(w), '/');
    lemma_signed_digits_lack(digits(d as nat), '_');
    if a % d == 0 {
        lemma_gcd_of_multiple(a as nat, d as nat);
        assert(d == 1);
        assert(s == int_str(n));
        lemma_signed_digits_lack(s, '/');
        assert(!is_mixed_literal(s));
        assert(!is_fraction_literal(s));
    } else if a < d {
        let j = int_str(n).len() as int;
        assert(s.subrange(0, j) =~= int_str(n));
        assert(s.subrange(j + 1, s.len() as int) =~= digits(d as nat));
        assert(fraction_at(s, j));
        lemma_fraction_at_unique(s, j, choose|j2: int| fraction_at(s, j2));
        assert forall|i: int| 0 <= i < s.len() implies s[i] != '_' by {
            if i > j {
                assert(s[i] == digits(d as nat)[i - j - 1]);
            }
        }
        assert(!is_mixed_literal(s));
    } else {
        let r = a % d;
        lemma_digits(r as nat);
        let k = int_str(w).len() as int;
        let j = k + 1 + digits(r as nat).len();
        assert(s.subrange(0, k) =~= int_str(w));
        assert(s.subrange(k + 1, j) =~= digits(r as nat));
        assert(s.subrange(j + 1, s.len() as int) =~= digits(d as nat));
        assert(mixed_at(s, k, j));
        let (k2, j2) = choose|k2: int, j2: int| mixed_at(s, k2, j2);
        lemma_mixed_at_unique(s, k, j, k2, j2);
        assert(a / d >= 1) by (nonlinear_arith)
            requires
                a >= d,
                d > 0,
                a == d * (a / d) + a % d,
                0 <= a % d < d,
        ;
        assert(abs_spec(w) * d + r == a) by (nonlinear_arith)
            requires
                abs_spec(w) == a / d,
                a == d * (a / d) + r,
        ;
        assert(mixed_numerator(w, r, d) == n);
    }
}

} // verus!
