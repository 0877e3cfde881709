//! Two-operand expressions `<left> <operator> <right>`: their grammar, and
//! their evaluation by the fraction arithmetic.

use vstd::prelude::*;
use vstd::string::*;
use crate::error::{outcome, CalcError, Fault};
use crate::fraction::{difference, product, quotient, sum, Fraction};
use crate::mixed_number::{literal, parse_mixed_number};
use crate::text::{chars_of, is_white, is_white_char};

verus! {

pub open spec fn is_operator(c: char) -> bool {
    c == '+' || c == '-' || c == '*' || c == '/'
}

/// `s[lo..hi]` is blank throughout (`white`), or holds no blank (`!white`).
pub open spec fn uniform(s: Seq<char>, lo: int, hi: int, white: bool) -> bool {
    forall|i: int| lo <= i < hi ==> is_white(#[trigger] s[i]) == white
}

/// `s` is blanks, the left operand `s[a..i]`, blanks, the operator `s[j]`,
/// blanks, the right operand `s[k..m]`, and blanks; operands and the blanks
/// around the operator are not empty.
pub open spec fn operation_at(s: Seq<char>, a: int, i: int, j: int, k: int, m: int) -> bool {
    &&& 0 <= a < i < j
    &&& j + 1 < k < m <= s.len()
    &&& uniform(s, 0, a, true)
    &&& uniform(s, a, i, false)
    &&& uniform(s, i, j, true)
    &&& is_operator(s[j])
    &&& uniform(s, j + 1, k, true)
    &&& uniform(s, k, m, false)
    &&& uniform(s, m, s.len() as int, true)
}

pub open spec fn is_operation(s: Seq<char>) -> bool {
    exists|a: int, i: int, j: int, k: int, m: int| operation_at(s, a, i, j, k, m)
}

/// What `Operation::parse_operation` gives for `s`: the two operands read as
/// literals, left first, and the operator.
pub open spec fn operation_spec(s: Seq<char>) -> Result<(Fraction, Seq<char>, Fraction), Fault> {
    if is_operation(s) {
        let (a, i, j, k, m) = choose|a: int, i: int, j: int, k: int, m: int|
            operation_at(s, a, i, j, k, m);
        match literal(s.subrange(a, i)) {
            Err(e) => Err(e),
            Ok(x) => match literal(s.subrange(k, m)) {
                Err(e) => Err(e),
                Ok(y) => Ok((x, seq![s[j]], y)),
            },
        }
    } else {
        Err(Fault::UnparseableOperation)
    }
}

/// The result of applying an operator to two fractions.
pub open spec fn apply(x: Fraction, op: char, y: Fraction) -> Result<Fraction, Fault> {
    if op == '+' {
        sum(x, y)
    } else if op == '-' {
        difference(x, y)
    } else if op == '*' {
        product(x, y)
    } else {
        quotient(x, y)
    }
}

/// A parsed operation: two operands and one of `+ - * /`.
pub struct Operation {
    pub left_operand: Fraction,
    pub operator: String,
    pub right_operand: Fraction,
}

/// A parse result seen through views.
pub open spec fn parsed(r: Result<Operation, CalcError>) -> Result<
    (Fraction, Seq<char>, Fraction),
    Fault,
> {
    match r {
        Ok(op) => Ok((op.left_operand, op.operator@, op.right_operand)),
        Err(e) => Err(e@),
    }
}

/// `s[from..r]` is a maximal run of blanks (`white`) or of non-blanks.
pub open spec fn run_end(s: Seq<char>, from: int, r: int, white: bool) -> bool {
    &&& from <= r <= s.len()
    &&& uniform(s, from, r, white)
    &&& r < s.len() ==> is_white(s[r]) != white
}

proof fn lemma_run_end_unique(s: Seq<char>, from: int, r1: int, r2: int, white: bool)
    requires
        run_end(s, from, r1, white),
        run_end(s, from, r2, white),
    ensures
        r1 == r2,
{
    if r1 < r2 {
        assert(is_white(s[r1]) == white);
    }
    if r2 < r1 {
        assert(is_white(s[r2]) == white);
    }
}

/// The places of an operation are the ends of its runs.
proof fn lemma_operation_runs(s: Seq<char>, a: int, i: int, j: int, k: int, m: int)
    requires
        operation_at(s, a, i, j, k, m),
    ensures
        run_end(s, 0, a, true),
        run_end(s, a, i, false),
        run_end(s, i, j, true),
        run_end(s, j + 1, k, true),
        run_end(s, k, m, false),
        run_end(s, m, s.len() as int, true),
{
    assert(!is_white(s[a]));
    assert(is_white(s[i]));
    assert(!is_white(s[j]));
    assert(!is_white(s[k]));
    if m < s.len() {
        assert(is_white(s[m]));
    }
}

/// The end of the run of blanks (`white`) or non-blanks that starts at `from`.
fn skip_run(v: &Vec<char>, from: usize, white: bool) -> (r: usize)
    requires
        from <= v.len(),
    ensures
        run_end(v@, from as int, r as int, white),
{
    let mut i = from;
    while i < v.len() && is_white_char(v[i]) == white
        invariant
            from <= i <= v.len(),
            uniform(v@, from as int, i as int, white),
        decreases v.len() - i,
    {
        i += 1;
    }
    i
}

/// The places of the operands and the operator, if `v` is an operation.
fn operation_split(v: &Vec<char>) -> (r: Option<(usize, usize, usize, usize, usize)>)
    ensures
        r matches Some((a, i, j, k, m)) ==> operation_at(
            v@,
            a as int,
            i as int,
            j as int,
            k as int,
            m as int,
        ),
        r is None ==> !is_operation(v@),
{
    let n = v.len();
    let a = skip_run(v, 0, true);
    let i = skip_run(v, a, false);
    let j = skip_run(v, i, true);
    if !(a < i && i < j && j < n && (v[j] == '+' || v[j] == '-' || v[j] == '*' || v[j] == '/')) {
        proof {
            if is_operation(v@) {
                let (a2, i2, j2, k2, m2) = choose|a2: int, i2: int, j2: int, k2: int, m2: int|
                    operation_at(v@, a2, i2, j2, k2, m2);
                lemma_operation_runs(v@, a2, i2, j2, k2, m2);
                lemma_run_end_unique(v@, 0, a as int, a2, true);
                lemma_run_end_unique(v@, a2, i as int, i2, false);
                lemma_run_end_unique(v@, i2, j as int, j2, true);
            }
        }
        return None;
    }
    let k = skip_run(v, j + 1, true);
    let m = skip_run(v, k, false);
    let e = skip_run(v, m, true);
    if !(j + 1 < k && k < m && e == n) {
        proof {
            if is_operation(v@) {
                let (a2, i2, j2, k2, m2) = choose|a2: int, i2: int, j2: int, k2: int, m2: int|
                    operation_at(v@, a2, i2, j2, k2, m2);
                lemma_operation_runs(v@, a2, i2, j2, k2, m2);
                lemma_run_end_unique(v@, 0, a as int, a2, true);
                lemma_run_end_unique(v@, a2, i as int, i2, false);
                lemma_run_end_unique(v@, i2, j as int, j2, true);
                lemma_run_end_unique(v@, j2 + 1, k as int, k2, true);
                lemma_run_end_unique(v@, k2, m as int, m2, false);
                lemma_run_end_unique(v@, m2, e as int, n as int, true);
            }
        }
        return None;
    }
    Some((a, i, j, k, m))
}

impl Operation {
    /// Operands well formed, operator one of `+ - * /`.
    pub open spec fn wf(&self) -> bool {
        &&& self.left_operand.wf()
        &&& self.right_operand.wf()
        &&& self.operator@.len() == 1
        &&& is_operator(self.operator@[0])
    }

    /// Reads `<left> <operator> <right>`, with blanks around the operator
    /// and around the whole; each operand is a literal.
    pub fn parse_operation(operation_expression: &str) -> (r: Result<Operation, CalcError>)
        ensures
            parsed(r) == operation_spec(operation_expression@),
            r matches Ok(op) ==> op.wf(),
    {
        let v = chars_of(operation_expression);
        let (a, i, j, k, m) = match operation_split(&v) {
            Some(places) => places,
            None => {
                return Err(CalcError::UnparseableOperation);
            },
        };
        proof {
            let (a2, i2, j2, k2, m2) = choose|a2: int, i2: int, j2: int, k2: int, m2: int|
                operation_at(v@, a2, i2, j2, k2, m2);
            lemma_operation_runs(v@, a2, i2, j2, k2, m2);
            lemma_operation_runs(v@, a as int, i as int, j as int, k as int, m as int);
            lemma_run_end_unique(v@, 0, a as int, a2, true);
            lemma_run_end_unique(v@, a2, i as int, i2, false);
            lemma_run_end_unique(v@, i2, j as int, j2, true);
            lemma_run_end_unique(v@, j2 + 1, k as int, k2, true);
            lemma_run_end_unique(v@, k2, m as int, m2, false);
        }
        let left_operand = match parse_mixed_number(operation_expression.substring_char(a, i)) {
            Ok(f) => f,
            Err(e) => {
                return Err(e);
            },
        };
        let operator = String::from_str(operation_expression.substring_char(j, j + 1));
        let right_operand = match parse_mixed_number(operation_expression.substring_char(k, m)) {
            Ok(f) => f,
            Err(e) => {
                return Err(e);
            },
        };
        assert(operator@ =~= seq![operation_expression@[j as int]]);
        Ok(Operation { left_operand, operator, right_operand })
    }

    /// Applies the operator to the operands.
    pub fn compute(&self) -> (r: Result<Fraction, CalcError>)
        requires
            self.wf(),
        ensures
            outcome(r) == apply(self.left_operand, self.operator@[0], self.right_operand),
            r matches Ok(f) ==> f.wf(),
    {
        let op = self.operator.as_str().get_char(0);
        if op == '+' {
            self.left_operand.add(&self.right_operand)
        } else if op == '-' {
            self.left_operand.substract(&self.right_operand)
        } else if op == '*' {
            self.left_operand.multiply(&self.right_operand)
        } else {
            self.left_operand.divide(&self.right_operand)
        }
    }
}

} // verus!
