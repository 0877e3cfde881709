//! The normalized rational value type and its exact arithmetic.

use vstd::prelude::*;
use vstd::arithmetic::div_mod::{
    lemma_div_by_self,
    lemma_div_multiples_vanish,
    lemma_fundamental_div_mod,
};
use vstd::string::*;
use crate::error::{outcome, CalcError, Fault};
use crate::math::{
    abs,
    abs_spec,
    gcd_spec,
    gcd_u64,
    lemma_gcd_divides,
    lemma_gcd_reduced,
    lemma_gcd_zero_left,
};
use crate::text::{append_digits, append_int, digits, int_str};

verus! {

/// A fraction `numerator / denominator`, kept in lowest terms with the sign
/// on the numerator.
#[derive(Debug, Clone, Copy, PartialEq, Eq, Structural)]
pub struct Fraction {
    pub numerator: i32,
    pub denominator: i32,
}

/// The range of the integers a fraction is made of: that of `i32`, without
/// `i32::MIN`, so that every value can be negated.
pub open spec fn in_range(x: int) -> bool {
    i32::MIN < x <= i32::MAX
}

/// `n / d` with the sign moved to the numerator and both divided by their gcd.
pub open spec fn normalize(n: int, d: int) -> (int, int) {
    let g = gcd_spec(abs_spec(n) as nat, abs_spec(d) as nat) as int;
    if d < 0 {
        (-n / g, -d / g)
    } else {
        (n / g, d / g)
    }
}

/// The fraction `n / d`, or why there is none.
pub open spec fn reduced(n: int, d: int) -> Result<Fraction, Fault> {
    if d == 0 {
        Err(Fault::DivisionByZero)
    } else {
        let (p, q) = normalize(n, d);
        if in_range(p) && in_range(q) {
            Ok(Fraction { numerator: p as i32, denominator: q as i32 })
        } else {
            Err(Fault::Overflow)
        }
    }
}

/// The numerator of the improper fraction equal to the mixed number
/// `whole_n/d`: the sign of `whole` applies to the whole of it.
pub open spec fn mixed_numerator(whole: int, n: int, d: int) -> int {
    if whole < 0 {
        -(abs_spec(whole) * d + n)
    } else {
        abs_spec(whole) * d + n
    }
}

/// How a fraction is written: a whole number when the denominator divides the
/// numerator, `n/d` when it is proper, and `W_R/d` otherwise, with the sign on
/// `W` alone.
pub open spec fn display_spec(n: int, d: int) -> Seq<char> {
    let a = abs_spec(n);
    let w = if n < 0 {
        -(a / d)
    } else {
        a / d
    };
    if a % d == 0 {
        int_str(w)
    } else if a < d {
        int_str(n) + seq!['/'] + digits(d as nat)
    } else {
        int_str(w) + seq!['_'] + digits((a % d) as nat) + seq!['/'] + digits(d as nat)
    }
}

/// `a + b`, reduced.
pub open spec fn sum(a: Fraction, b: Fraction) -> Result<Fraction, Fault> {
    reduced(a.num() * b.den() + a.den() * b.num(), a.den() * b.den())
}

/// `a - b`, reduced.
pub open spec fn difference(a: Fraction, b: Fraction) -> Result<Fraction, Fault> {
    reduced(a.num() * b.den() - a.den() * b.num(), a.den() * b.den())
}

/// `a * b`, reduced.
pub open spec fn product(a: Fraction, b: Fraction) -> Result<Fraction, Fault> {
    reduced(a.num() * b.num(), a.den() * b.den())
}

/// `a / b`, reduced; there is none when `b` is zero.
pub open spec fn quotient(a: Fraction, b: Fraction) -> Result<Fraction, Fault> {
    if b.num() == 0 {
        Err(Fault::DivisionByZero)
    } else {
        reduced(a.num() * b.den(), a.den() * b.num())
    }
}

impl Fraction {
    /// Positive denominator, numerator in range, lowest terms.
    pub open spec fn wf(self) -> bool {
        &&& in_range(self.numerator as int)
        &&& self.denominator > 0
        &&& gcd_spec(abs_spec(self.numerator as int) as nat, self.denominator as nat) == 1
    }

    pub open spec fn num(self) -> int {
        self.numerator as int
    }

    pub open spec fn den(self) -> int {
        self.denominator as int
    }
}

/// What `normalize` computes, by the absolute values divided by their gcd:
/// the denominator is positive, the numerator takes the sign of the quotient,
/// and the two are coprime.
pub proof fn lemma_normalize(n: int, d: int)
    requires
        d != 0,
    ensures
        ({
            let g = gcd_spec(abs_spec(n) as nat, abs_spec(d) as nat) as int;
            let ka = abs_spec(n) / g;
            let kd = abs_spec(d) / g;
            &&& g > 0
            &&& ka >= 0
            &&& kd > 0
            &&& normalize(n, d).1 == kd
            &&& normalize(n, d).0 == (if (n < 0) != (d < 0) {
                -ka
            } else {
                ka
            })
            &&& gcd_spec(ka as nat, kd as nat) == 1
        }),
{
    let an = abs_spec(n);
    let ad = abs_spec(d);
    lemma_gcd_divides(an as nat, ad as nat);
    lemma_gcd_reduced(an as nat, ad as nat);
    let g = gcd_spec(an as nat, ad as nat) as int;
    lemma_fundamental_div_mod(an, g);
    lemma_fundamental_div_mod(ad, g);
    let ka = an / g;
    let kd = ad / g;
    assert(an == g * ka && ad == g * kd);
    assert(ka >= 0 && kd > 0) by (nonlinear_arith)
        requires
            an == g * ka,
            ad == g * kd,
            an >= 0,
            ad > 0,
            g > 0,
    ;
    let sn = if d < 0 {
        -n
    } else {
        n
    };
    let sd = if d < 0 {
        -d
    } else {
        d
    };
    if sn < 0 {
        assert(sn == g * (-ka)) by (nonlinear_arith)
            requires
                sn == -an,
                an == g * ka,
        ;
        lemma_div_multiples_vanish(-ka, g);
    } else {
        assert(sn == g * ka);
        lemma_div_multiples_vanish(ka, g);
    }
    assert(sd == g * kd);
    lemma_div_multiples_vanish(kd, g);
}

/// A fraction that `reduced` gives is well formed.
pub proof fn lemma_reduced_wf(n: int, d: int)
    requires
        d != 0,
    ensures
        reduced(n, d) matches Ok(f) ==> f.wf(),
{
    lemma_normalize(n, d);
}

/// Builds `n / d` in lowest terms, or reports a zero denominator or a result
/// outside the range.
fn reduce(n: i64, d: i64) -> (r: Result<Fraction, CalcError>)
    requires
        n > i64::MIN,
        d > i64::MIN,
    ensures
        outcome(r) == reduced(n as int, d as int),
        r matches Ok(f) ==> f.wf(),
{
    if d == 0 {
        return Err(CalcError::DivisionByZero);
    }
    proof {
        lemma_reduced_wf(n as int, d as int);
    }
    let (sn, sd) = if d < 0 {
        (-n, -d)
    } else {
        (n, d)
    };
    let an: u64 = if sn < 0 {
        (-sn) as u64
    } else {
        sn as u64
    };
    let g = gcd_u64(an, sd as u64);
    proof {
        lemma_normalize(n as int, d as int);
        assert(an as int == abs_spec(n as int));
        assert(sd as int == abs_spec(d as int));
    }
    let p_abs = an / g;
    let q = (sd as u64) / g;
    if p_abs > i32::MAX as u64 || q > i32::MAX as u64 {
        return Err(CalcError::Overflow);
    }
    let p: i32 = if sn < 0 {
        -(p_abs as i32)
    } else {
        p_abs as i32
    };
    Ok(Fraction { numerator: p, denominator: q as i32 })
}

impl Fraction {
    /// Builds a fraction in lowest terms with a positive denominator; fails on
    /// a zero denominator, and when the reduced fraction leaves the range.
    pub fn new(numerator: i32, denominator: i32) -> (r: Result<Fraction, CalcError>)
        ensures
            outcome(r) == reduced(numerator as int, denominator as int),
            r matches Ok(f) ==> f.wf(),
    {
        reduce(numerator as i64, denominator as i64)
    }

    /// The improper fraction equal to the mixed number `whole_numerator/denominator`.
    pub fn new_mixed(whole: i32, numerator: i32, denominator: i32) -> (r: Result<Fraction, CalcError>)
        ensures
            outcome(r) == reduced(
                mixed_numerator(whole as int, numerator as int, denominator as int),
                denominator as int,
            ),
            r matches Ok(f) ==> f.wf(),
    {
        let whole_abs: i64 = if whole < 0 {
            -(whole as i64)
        } else {
            whole as i64
        };
        proof {
            assert(-0x8000_0000 * 0x8000_0000 <= whole_abs * denominator <= 0x8000_0000
                * 0x8000_0000) by (nonlinear_arith)
                requires
                    0 <= whole_abs <= 0x8000_0000,
                    -0x8000_0000 <= denominator < 0x8000_0000,
            ;
        }
        let magnitude = whole_abs * (denominator as i64) + (numerator as i64);
        if whole < 0 {
            reduce(-magnitude, denominator as i64)
        } else {
            reduce(magnitude, denominator as i64)
        }
    }

    /// The whole number `whole` as a fraction.
    pub fn new_whole(whole: i32) -> (r: Result<Fraction, CalcError>)
        ensures
            outcome(r) == reduced(whole as int, 1),
            r matches Ok(f) ==> f.wf(),
    {
        reduce(whole as i64, 1)
    }
}

/// A product of two numbers of the fraction range stays well inside `i64`.
proof fn lemma_product_bound(x: int, y: int)
    requires
        in_range(x),
        in_range(y),
    ensures
        -0x4000_0000_0000_0000 < x * y < 0x4000_0000_0000_0000,
{
    assert(-0x4000_0000_0000_0000 < x * y < 0x4000_0000_0000_0000) by (nonlinear_arith)
        requires
            -0x8000_0000 < x < 0x8000_0000,
            -0x8000_0000 < y < 0x8000_0000,
    ;
}

impl Fraction {
    /// The sum of two fractions, reduced.
    pub fn add(&self, fraction: &Fraction) -> (r: Result<Fraction, CalcError>)
        requires
            self.wf(),
            fraction.wf(),
        ensures
            outcome(r) == sum(*self, *fraction),
            r matches Ok(f) ==> f.wf(),
    {
        proof {
            lemma_product_bound(self.num(), fraction.den());
            lemma_product_bound(self.den(), fraction.num());
            lemma_product_bound(self.den(), fraction.den());
        }
        let numerator = (self.numerator as i64) * (fraction.denominator as i64) + (
        self.denominator as i64) * (fraction.numerator as i64);
        let denominator = (self.denominator as i64) * (fraction.denominator as i64);
        reduce(numerator, denominator)
    }

    /// The difference of two fractions: the sum with the negated second one.
    pub fn substract(&self, fraction: &Fraction) -> (r: Result<Fraction, CalcError>)
        requires
            self.wf(),
            fraction.wf(),
        ensures
            outcome(r) == difference(*self, *fraction),
            r matches Ok(f) ==> f.wf(),
    {
        let negative_fraction = Fraction {
            numerator: -fraction.numerator,
            denominator: fraction.denominator,
        };
        proof {
            assert(abs_spec(negative_fraction.num()) == abs_spec(fraction.num()));
            assert(self.den() * negative_fraction.num() == -(self.den() * fraction.num()))
                by (nonlinear_arith)
                requires
                    negative_fraction.num() == -fraction.num(),
            ;
        }
        self.add(&negative_fraction)
    }

    /// The product of two fractions, reduced.
    pub fn multiply(&self, fraction: &Fraction) -> (r: Result<Fraction, CalcError>)
        requires
            self.wf(),
            fraction.wf(),
        ensures
            outcome(r) == product(*self, *fraction),
            r matches Ok(f) ==> f.wf(),
    {
        proof {
            lemma_product_bound(self.num(), fraction.num());
            lemma_product_bound(self.den(), fraction.den());
        }
        let numerator = (self.numerator as i64) * (fraction.numerator as i64);
        let denominator = (self.denominator as i64) * (fraction.denominator as i64);
        reduce(numerator, denominator)
    }

    /// The quotient of two fractions; dividing by zero fails.
    pub fn divide(&self, fraction: &Fraction) -> (r: Result<Fraction, CalcError>)
        requires
            self.wf(),
            fraction.wf(),
        ensures
            outcome(r) == quotient(*self, *fraction),
            r matches Ok(f) ==> f.wf(),
    {
        if fraction.is_zero() {
            return Err(CalcError::DivisionByZero);
        }
        proof {
            lemma_product_bound(self.num(), fraction.den());
            lemma_product_bound(self.den(), fraction.num());
        }
        let numerator = (self.numerator as i64) * (fraction.denominator as i64);
        let denominator = (self.denominator as i64) * (fraction.numerator as i64);
        reduce(numerator, denominator)
    }

    fn is_zero(&self) -> (r: bool)
        ensures
            r == (self.num() == 0),
    {
        self.numerator == 0
    }

    /// The fraction as a whole number, a proper fraction or a mixed number.
    pub fn to_display_string(&self) -> (r: String)
        requires
            self.wf(),
        ensures
            r@ == display_spec(self.num(), self.den()),
    {
        let numerator = abs(self.numerator);
        let whole = numerator / self.denominator;
        let rest = numerator % self.denominator;
        let signed_whole = if self.numerator < 0 {
            -whole
        } else {
            whole
        };
        proof {
            reveal_strlit("/");
            reveal_strlit("_");
        }
        let mut s = String::new();
        if rest == 0 {
            append_int(&mut s, signed_whole);
        } else if numerator < self.denominator {
            append_int(&mut s, self.numerator);
            s.append("/");
            append_digits(&mut s, self.denominator as u32);
        } else {
            append_int(&mut s, signed_whole);
            s.append("_");
            append_digits(&mut s, rest as u32);
            s.append("/");
            append_digits(&mut s, self.denominator as u32);
        }
        assert(s@ =~= display_spec(self.num(), self.den()));
        s
    }
}

/// A well-formed fraction is already reduced.
pub proof fn lemma_wf_reduced(x: Fraction)
    requires
        x.wf(),
    ensures
        reduced(x.num(), x.den()) == Ok::<Fraction, Fault>(x),
{
    lemma_normalize(x.num(), x.den());
}

/// Normalizing is idempotent: a fraction that `new` built is in lowest terms
/// with a positive denominator, and building one again from its numerator and
/// denominator gives it back.
pub proof fn lemma_new_idempotent(n: i32, d: i32)
    requires
        d != 0,
    ensures
        reduced(n as int, d as int) matches Ok(f) ==> (f.wf() && reduced(f.num(), f.den()) == Ok::<
            Fraction,
            Fault,
        >(f)),
{
    lemma_reduced_wf(n as int, d as int);
    if let Ok(f) = reduced(n as int, d as int) {
        lemma_wf_reduced(f);
    }
}

/// Negating both numerator and denominator gives the same fraction.
pub proof fn lemma_new_sign(n: i32, d: i32)
    requires
        n > i32::MIN,
        d > i32::MIN,
        d != 0,
    ensures
        reduced(-n, -d) == reduced(n as int, d as int),
{
    assert(abs_spec(-n) == abs_spec(n as int));
    assert(abs_spec(-d) == abs_spec(d as int));
}

/// A zero denominator is refused, and so is a division by zero.
pub proof fn lemma_division_by_zero(n: i32, x: Fraction)
    requires
        x.wf(),
    ensures
        reduced(n as int, 0) == Err::<Fraction, Fault>(Fault::DivisionByZero),
        quotient(x, Fraction { numerator: 0, denominator: 1 }) == Err::<Fraction, Fault>(
            Fault::DivisionByZero,
        ),
{
}

/// Zero is neutral for addition, one for multiplication, and a fraction minus
/// itself is zero; `new_whole(0)` and `new_whole(1)` give that zero and one.
pub proof fn lemma_identities(x: Fraction)
    requires
        x.wf(),
    ensures
        reduced(0, 1) == Ok::<Fraction, Fault>(Fraction { numerator: 0, denominator: 1 }),
        reduced(1, 1) == Ok::<Fraction, Fault>(Fraction { numerator: 1, denominator: 1 }),
        sum(x, Fraction { numerator: 0, denominator: 1 }) == Ok::<Fraction, Fault>(x),
        product(x, Fraction { numerator: 1, denominator: 1 }) == Ok::<Fraction, Fault>(x),
        difference(x, x) == Ok::<Fraction, Fault>(Fraction { numerator: 0, denominator: 1 }),
{
    let zero = Fraction { numerator: 0, denominator: 1 };
    let one = Fraction { numerator: 1, denominator: 1 };
    lemma_gcd_zero_left(1);
    lemma_wf_reduced(zero);
    lemma_wf_reduced(one);
    lemma_wf_reduced(x);
    assert(x.num() * 1 + x.den() * 0 == x.num() && x.den() * 1 == x.den());
    let dd = x.den() * x.den();
    assert(x.num() * x.den() - x.den() * x.num() == 0 && dd > 0) by (nonlinear_arith)
        requires
            x.den() > 0,
            dd == x.den() * x.den(),
    ;
    lemma_gcd_zero_left(dd as nat);
    lemma_div_by_self(dd);
    assert(normalize(0, dd) == (0int, 1int));
}

} // verus!
