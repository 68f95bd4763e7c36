//! Exact evaluation of expression trees over fractions.
use vstd::prelude::*;
use crate::expr::Expr;
use vstd::arithmetic::div_mod::{lemma_div_multiples_vanish, lemma_fundamental_div_mod};

verus! {

/// A fraction in lowest terms with a positive denominator.
#[derive(Clone, Copy, Debug, PartialEq, Eq, Structural)]
pub struct Ratio {
    pub num: i64,
    pub den: i64,
}

/// Why a tree has no value.
#[derive(Clone, Copy, Debug, PartialEq, Eq, Structural)]
pub enum EvalError {
    /// An operand that is not a decimal digit.
    UndefinedAtom(char),
    /// An operator outside `+ - * /`.
    UnknownOperator(char),
    /// A right operand of `/` whose value is zero.
    DivisionByZero,
    /// A value whose lowest-terms numerator or denominator leaves `i64`.
    Overflow,
}

pub open spec fn abs(x: int) -> nat {
    if x < 0 {
        (-x) as nat
    } else {
        x as nat
    }
}

/// Greatest common divisor, by Euclid's rule.
pub open spec fn gcd(a: nat, b: nat) -> nat
    decreases b,
{
    if b == 0 {
        a
    } else {
        gcd(b, a % b)
    }
}

/// `n / d` in lowest terms with the sign carried by the numerator; `d` is not zero.
pub open spec fn reduce(n: int, d: int) -> (int, int) {
    let g = gcd(abs(n), abs(d));
    let m = abs(n) / g;
    (if (n < 0) != (d < 0) {
        -m
    } else {
        m as int
    }, (abs(d) / g) as int)
}

/// The fraction `n / d` in lowest terms, if both parts fit in `i64`.
pub open spec fn make(n: int, d: int) -> Result<Ratio, EvalError> {
    let (a, b) = reduce(n, d);
    if i64::MIN <= a <= i64::MAX && b <= i64::MAX {
        Ok(Ratio { num: a as i64, den: b as i64 })
    } else {
        Err(EvalError::Overflow)
    }
}

/// One arithmetic step on two fractions.
pub open spec fn apply(op: char, x: Ratio, y: Ratio) -> Result<Ratio, EvalError> {
    if op == '+' {
        make(x.num * y.den + y.num * x.den, x.den * y.den)
    } else if op == '-' {
        make(x.num * y.den - y.num * x.den, x.den * y.den)
    } else if op == '*' {
        make(x.num * y.num, x.den * y.den)
    } else if op == '/' {
        if y.num == 0 {
            Err(EvalError::DivisionByZero)
        } else {
            make(x.num * y.den, x.den * y.num)
        }
    } else {
        Err(EvalError::UnknownOperator(op))
    }
}

pub open spec fn is_digit(c: char) -> bool {
    '0' <= c <= '9'
}

/// The value of a digit character.
pub open spec fn digit_value(c: char) -> int {
    c as int - '0' as int
}

/// The value of a tree: left operand first, then right, then the operator.
pub open spec fn value(e: Expr) -> Result<Ratio, EvalError>
    decreases e,
{
    match e {
        Expr::Atom(c) => if is_digit(c) {
            Ok(Ratio { num: digit_value(c) as i64, den: 1 })
        } else {
            Err(EvalError::UndefinedAtom(c))
        },
        Expr::BinaryOp(op, l, r) => match value(*l) {
            Err(err) => Err(err),
            Ok(x) => match value(*r) {
                Err(err) => Err(err),
                Ok(y) => apply(op, x, y),
            },
        },
    }
}

proof fn lemma_gcd_bounds(a: nat, b: nat)
    requires
        b > 0,
    ensures
        0 < gcd(a, b) <= b,
    decreases b,
{
    assert(a % b < b);
    if a % b != 0 {
        lemma_gcd_bounds(b, a % b);
    } else {
        assert(gcd(b, 0) == b);
    }
}

proof fn lemma_multiple_div(k: int, g: int)
    requires
        g > 0,
    ensures
        (k * g) / g == k,
{
    lemma_div_multiples_vanish(k, g);
    assert(g * k == k * g) by (nonlinear_arith);
}

/// The greatest common divisor divides both arguments.
proof fn lemma_gcd_divides(a: nat, b: nat)
    requires
        b > 0,
    ensures
        a == (a / gcd(a, b)) * gcd(a, b),
        b == (b / gcd(a, b)) * gcd(a, b),
    decreases b,
{
    lemma_gcd_bounds(a, b);
    let g = gcd(a, b) as int;
    lemma_fundamental_div_mod(a as int, b as int);
    if a % b == 0 {
        assert(gcd(b, 0) == b);
        lemma_multiple_div(1, b as int);
        let q = a as int / b as int;
        assert(a == q * b) by (nonlinear_arith)
            requires
                a == b * q + 0,
        ;
        lemma_multiple_div(q, b as int);
    } else {
        lemma_gcd_divides(b, a % b);
        let bg = b as int / g;
        let rg = (a % b) as int / g;
        let q = a as int / b as int;
        let k = bg * q + rg;
        assert(a == k * g) by (nonlinear_arith)
            requires
                a == b * q + (a % b),
                b == bg * g,
                (a % b) == rg * g,
                k == bg * q + rg,
        ;
        lemma_multiple_div(k, g);
    }
}

/// Reducing a fraction keeps its value and gives a positive denominator:
/// `make(n, d)`, when it succeeds, equals `n / d` as a rational number.
pub proof fn lemma_make_exact(n: int, d: int)
    requires
        d != 0,
    ensures
        make(n, d) matches Ok(r) ==> r.den > 0 && r.num * d == n * r.den,
{
    lemma_make_wf(n, d);
    lemma_gcd_bounds(abs(n), abs(d));
    lemma_gcd_divides(abs(n), abs(d));
    let g = gcd(abs(n), abs(d)) as int;
    let m = (abs(n) / gcd(abs(n), abs(d))) as int;
    let q = (abs(d) / gcd(abs(n), abs(d))) as int;
    let (a, b) = reduce(n, d);
    assert(a * d == n * b) by (nonlinear_arith)
        requires
            abs(n) == m * g,
            abs(d) == q * g,
            b == q,
            a == (if (n < 0) != (d < 0) { -m } else { m }),
            abs(n) == (if n < 0 { -n } else { n }),
            abs(d) == (if d < 0 { -d } else { d }),
    ;
}

/// Each step is exact: the fraction that `apply` gives equals the true sum,
/// difference, product or quotient of its operands.
pub proof fn lemma_apply_exact(op: char, x: Ratio, y: Ratio)
    requires
        x.wf(),
        y.wf(),
    ensures
        apply(op, x, y) matches Ok(z) ==> {
            &&& z.wf()
            &&& op == '+' ==> z.num * (x.den * y.den) == (x.num * y.den + y.num * x.den) * z.den
            &&& op == '-' ==> z.num * (x.den * y.den) == (x.num * y.den - y.num * x.den) * z.den
            &&& op == '*' ==> z.num * (x.den * y.den) == (x.num * y.num) * z.den
            &&& op == '/' ==> y.num != 0 && z.num * (x.den * y.num) == (x.num * y.den) * z.den
        },
{
    assert(x.den * y.den != 0) by (nonlinear_arith)
        requires
            x.den > 0,
            y.den > 0,
    ;
    assert(y.num != 0 ==> x.den * y.num != 0) by (nonlinear_arith)
        requires
            x.den > 0,
    ;
    lemma_make_exact(x.num * y.den + y.num * x.den, x.den * y.den);
    lemma_make_exact(x.num * y.den - y.num * x.den, x.den * y.den);
    lemma_make_exact(x.num * y.num, x.den * y.den);
    if y.num != 0 {
        lemma_make_exact(x.num * y.den, x.den * y.num);
    }
}

fn gcd_u128(a: u128, b: u128) -> (g: u128)
    ensures
        g == gcd(a as nat, b as nat),
{
    let mut x = a;
    let mut y = b;
    while y != 0
        invariant
            gcd(x as nat, y as nat) == gcd(a as nat, b as nat),
        decreases y,
    {
        let t = x % y;
        x = y;
        y = t;
    }
    x
}

/// Computes `make(n, d)`.
fn make_exec(n: i128, d: i128) -> (r: Result<Ratio, EvalError>)
    requires
        d != 0,
        n > i128::MIN,
        d > i128::MIN,
    ensures
        r == make(n as int, d as int),
{
    let an: u128 = if n < 0 { (-n) as u128 } else { n as u128 };
    let ad: u128 = if d < 0 { (-d) as u128 } else { d as u128 };
    let g = gcd_u128(an, ad);
    proof {
        lemma_gcd_bounds(an as nat, ad as nat);
    }
    let m = an / g;
    let q = ad / g;
    let neg = (n < 0) != (d < 0);
    if q > i64::MAX as u128 {
        return Err(EvalError::Overflow);
    }
    if neg {
        if m > 9223372036854775808u128 {
            return Err(EvalError::Overflow);
        }
        let num: i128 = -(m as i128);
        Ok(Ratio { num: num as i64, den: q as i64 })
    } else {
        if m > i64::MAX as u128 {
            return Err(EvalError::Overflow);
        }
        Ok(Ratio { num: m as i64, den: q as i64 })
    }
}

impl Ratio {
    pub open spec fn wf(self) -> bool {
        self.den > 0
    }

    /// The whole number `n`.
    pub fn from_integer(n: i64) -> (r: Ratio)
        ensures
            r == (Ratio { num: n, den: 1 }),
    {
        Ratio { num: n, den: 1 }
    }
}

proof fn lemma_make_wf(n: int, d: int)
    requires
        d != 0,
    ensures
        make(n, d) matches Ok(r) ==> r.wf(),
{
    lemma_gcd_bounds(abs(n), abs(d));
    let g = gcd(abs(n), abs(d));
    assert(abs(d) / g >= 1) by (nonlinear_arith)
        requires
            0 < g <= abs(d),
    ;
}

proof fn lemma_value_wf(e: Expr)
    ensures
        value(e) matches Ok(r) ==> r.wf(),
    decreases e,
{
    if let Expr::BinaryOp(op, l, r) = e {
        lemma_value_wf(*l);
        lemma_value_wf(*r);
        if let Ok(x) = value(*l) {
            if let Ok(y) = value(*r) {
                assert(x.den * y.den != 0) by (nonlinear_arith)
                    requires
                        x.den > 0,
                        y.den > 0,
                ;
                assert(y.num != 0 ==> x.den * y.num != 0) by (nonlinear_arith)
                    requires
                        x.den > 0,
                ;
                lemma_make_wf(x.num * y.den + y.num * x.den, x.den * y.den);
                lemma_make_wf(x.num * y.den - y.num * x.den, x.den * y.den);
                lemma_make_wf(x.num * y.num, x.den * y.den);
                if y.num != 0 {
                    lemma_make_wf(x.num * y.den, x.den * y.num);
                }
            }
        }
    }
}

/// Applies one operator to two well-formed fractions.
fn apply_exec(op: char, x: Ratio, y: Ratio) -> (r: Result<Ratio, EvalError>)
    requires
        x.wf(),
        y.wf(),
    ensures
        r == apply(op, x, y),
{
    let xn = x.num as i128;
    let xd = x.den as i128;
    let yn = y.num as i128;
    let yd = y.den as i128;
    proof {
        let b: int = 0x8000_0000_0000_0000;
        assert(-b * b < xn * yd < b * b) by (nonlinear_arith)
            requires -b <= xn < b, 0 < yd < b;
        assert(-b * b < yn * xd < b * b) by (nonlinear_arith)
            requires -b <= yn < b, 0 < xd < b;
        assert(0 < xd * yd < b * b) by (nonlinear_arith)
            requires 0 < xd < b, 0 < yd < b;
        assert(-b * b <= xn * yn <= b * b) by (nonlinear_arith)
            requires -b <= xn < b, -b <= yn < b;
        assert(yn != 0 ==> -b * b < xd * yn < b * b && xd * yn != 0) by (nonlinear_arith)
            requires -b <= yn < b, 0 < xd < b;
    }
    if op == '+' {
        make_exec(xn * yd + yn * xd, xd * yd)
    } else if op == '-' {
        make_exec(xn * yd - yn * xd, xd * yd)
    } else if op == '*' {
        make_exec(xn * yn, xd * yd)
    } else if op == '/' {
        if yn == 0 {
            Err(EvalError::DivisionByZero)
        } else {
            make_exec(xn * yd, xd * yn)
        }
    } else {
        Err(EvalError::UnknownOperator(op))
    }
}

impl Expr {
    /// The exact value of the tree, as a fraction in lowest terms.
    pub fn eval(&self) -> (r: Result<Ratio, EvalError>)
        ensures
            r == value(*self),
            r matches Ok(v) ==> v.wf(),
        decreases self,
    {
        proof {
            lemma_value_wf(*self);
        }
        match self {
            Expr::Atom(c) => {
                if '0' <= *c && *c <= '9' {
                    Ok(Ratio { num: (*c as u32 - '0' as u32) as i64, den: 1 })
                } else {
                    Err(EvalError::UndefinedAtom(*c))
                }
            },
            Expr::BinaryOp(op, l, r) => {
                let x = match l.eval() {
                    Ok(x) => x,
                    Err(err) => {
                        return Err(err);
                    },
                };
                let y = match r.eval() {
                    Ok(y) => y,
                    Err(err) => {
                        return Err(err);
                    },
                };
                apply_exec(*op, x, y)
            },
        }
    }
}

} // verus!
