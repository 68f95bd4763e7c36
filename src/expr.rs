//! Expression trees, the precedence-climbing parser and prefix rendering.
use vstd::prelude::*;
use crate::lexer::{is_atom_char, lex, Lexer, Token};

verus! {

/// A parsed expression.
#[derive(Debug, PartialEq, Eq)]
pub enum Expr {
    /// A single operand character.
    Atom(char),
    /// An operator applied to a left and a right operand.
    BinaryOp(char, Box<Expr>, Box<Expr>),
}

/// Why a line does not parse.
#[derive(Clone, Copy, Debug, PartialEq, Eq, Structural)]
pub enum ParseError {
    /// An operand was expected and this token came instead.
    MalformedStart(Token),
    /// An operator or the end was expected and this token came instead.
    UnexpectedToken(Token),
    /// An operator character outside `+ - * /`.
    UnknownOperator(char),
}

/// The four operators that have a binding power.
pub open spec fn is_known_op(c: char) -> bool {
    c == '+' || c == '-' || c == '*' || c == '/'
}

/// Precedence tier: additive operators bind looser than multiplicative ones.
pub open spec fn tier(c: char) -> nat {
    if c == '*' || c == '/' {
        2
    } else {
        1
    }
}

/// Left binding power of a known operator.
pub open spec fn left_bp(c: char) -> nat {
    10 * tier(c)
}

/// Right binding power of a known operator: one above its left power, which
/// makes operators of one tier associate to the left.
pub open spec fn right_bp(c: char) -> nat {
    10 * tier(c) + 1
}

/// The tokens that a tree was read from, left to right.
pub open spec fn tokens_of(e: Expr) -> Seq<Token>
    decreases e,
{
    match e {
        Expr::Atom(c) => seq![Token::Atom(c)],
        Expr::BinaryOp(op, l, r) => tokens_of(*l) + seq![Token::Op(op)] + tokens_of(*r),
    }
}

/// A tree that respects precedence and left associativity: a left operand
/// rooted at an operator has a tier at least as high as its parent's, a right
/// one a strictly higher tier.
pub open spec fn well_nested(e: Expr) -> bool
    decreases e,
{
    match e {
        Expr::Atom(c) => is_atom_char(c),
        Expr::BinaryOp(op, l, r) => {
            &&& is_known_op(op)
            &&& well_nested(*l)
            &&& well_nested(*r)
            &&& (*l matches Expr::BinaryOp(lop, _, _) ==> tier(lop) >= tier(op))
            &&& (*r matches Expr::BinaryOp(rop, _, _) ==> tier(rop) > tier(op))
        },
    }
}

/// The first error met when reading `ts` from index `i`, where an operand is due.
pub open spec fn first_error(ts: Seq<Token>, i: int) -> Option<ParseError>
    decreases ts.len() - i, 1int,
{
    if i < 0 || i >= ts.len() {
        Some(ParseError::MalformedStart(Token::EndOfInput))
    } else if ts[i] is Atom {
        error_after_operand(ts, i + 1)
    } else {
        Some(ParseError::MalformedStart(ts[i]))
    }
}

/// The first error met when reading `ts` from index `i`, where an operator or
/// the end is due.
pub open spec fn error_after_operand(ts: Seq<Token>, i: int) -> Option<ParseError>
    decreases ts.len() - i, 0int,
{
    if i < 0 || i >= ts.len() {
        None
    } else {
        match ts[i] {
            Token::Op(c) => if is_known_op(c) {
                first_error(ts, i + 1)
            } else {
                Some(ParseError::UnknownOperator(c))
            },
            t => Some(ParseError::UnexpectedToken(t)),
        }
    }
}

/// `e` is what `line` parses to: the line reads without error, and `e` is
/// a well-nested tree over exactly its tokens.
pub open spec fn parses_to(line: Seq<char>, e: Expr) -> bool {
    &&& first_error(lex(line), 0) is None
    &&& tokens_of(e) == lex(line)
    &&& well_nested(e)
}

/// A known operator standing at index `p` of `ts` has a left binding power
/// below `bound`.
pub open spec fn next_op_below(ts: Seq<Token>, p: int, bound: nat) -> bool {
    0 <= p < ts.len() ==> match ts[p] {
        Token::Op(c) => is_known_op(c) ==> left_bp(c) < bound,
        _ => true,
    }
}

/// Fully parenthesised prefix form: `(op left right)`.
pub open spec fn rendered(e: Expr) -> Seq<char>
    decreases e,
{
    match e {
        Expr::Atom(c) => seq![c],
        Expr::BinaryOp(op, l, r) => seq!['(', op, ' '] + rendered(*l) + seq![' '] + rendered(*r)
            + seq![')'],
    }
}

/// Relies on `String::push`: appends one character.
#[verifier::external_body]
fn push_char(s: &mut String, c: char)
    ensures
        final(s)@ == old(s)@.push(c),
{
    s.push(c)
}

impl Expr {
    /// Parses one line.
    pub fn from_str(input: &str) -> (r: Result<Expr, ParseError>)
        ensures
            r is Ok <==> first_error(lex(input@), 0) is None,
            r matches Ok(e) ==> parses_to(input@, e),
            r matches Err(err) ==> first_error(lex(input@), 0) == Some(err),
    {
        let mut lexer = Lexer::new(input);
        let r = Expr::parse_expr(&mut lexer, 0);
        proof {
            let ts = lex(input@);
            assert(ts.subrange(0, ts.len() as int) == ts);
        }
        r
    }

    /// The binding powers of an operator, left then right.
    pub fn infix_binding_power(op: char) -> (r: Result<(u8, u8), ParseError>)
        ensures
            is_known_op(op) ==> r == Ok::<(u8, u8), ParseError>(
                (left_bp(op) as u8, right_bp(op) as u8),
            ),
            !is_known_op(op) ==> r == Err::<(u8, u8), ParseError>(
                ParseError::UnknownOperator(op),
            ),
    {
        if op == '+' || op == '-' {
            Ok((10, 11))
        } else if op == '*' || op == '/' {
            Ok((20, 21))
        } else {
            Err(ParseError::UnknownOperator(op))
        }
    }

    /// Reads an operand, then every following operator whose left binding
    /// power reaches `min_bp`, each with the right operand that its own right
    /// binding power admits.
    pub fn parse_expr(lexer: &mut Lexer, min_bp: u8) -> (r: Result<Expr, ParseError>)
        requires
            old(lexer).wf(),
        ensures
            final(lexer).wf(),
            final(lexer).all() == old(lexer).all(),
            old(lexer).pos() <= final(lexer).pos() <= old(lexer).all().len(),
            r matches Err(err) ==> first_error(old(lexer).all(), old(lexer).pos() as int) == Some(
                err,
            ),
            r matches Ok(e) ==> {
                let ts = old(lexer).all();
                let p = final(lexer).pos() as int;
                &&& first_error(ts, old(lexer).pos() as int) == error_after_operand(ts, p)
                &&& tokens_of(e) == ts.subrange(old(lexer).pos() as int, p)
                &&& well_nested(e)
                &&& (e matches Expr::BinaryOp(op, _, _) ==> left_bp(op) >= min_bp)
                &&& (p == ts.len() || (ts[p] matches Token::Op(c) && is_known_op(c) && left_bp(c)
                    < min_bp))
            },
        decreases old(lexer).all().len() - old(lexer).pos(),
    {
        let ghost ts = lexer.all();
        let ghost p0 = lexer.pos() as int;
        let mut lhs = match lexer.next() {
            Token::Atom(c) => Expr::Atom(c),
            t => {
                return Err(ParseError::MalformedStart(t));
            },
        };
        proof {
            assert(ts.subrange(p0, p0 + 1) == seq![ts[p0]]);
        }
        loop
            invariant
                lexer.wf(),
                lexer.all() == ts,
                ts == old(lexer).all(),
                p0 == old(lexer).pos(),
                p0 < lexer.pos() <= ts.len(),
                first_error(ts, p0) == error_after_operand(ts, lexer.pos() as int),
                tokens_of(lhs) == ts.subrange(p0, lexer.pos() as int),
                well_nested(lhs),
                lhs matches Expr::BinaryOp(op, _, _) ==> left_bp(op) >= min_bp,
                lhs matches Expr::BinaryOp(o, _, _) ==> next_op_below(ts, lexer.pos() as int, right_bp(o)),
            ensures
                lexer.pos() == ts.len() || (ts[lexer.pos() as int] matches Token::Op(c)
                    && is_known_op(c) && left_bp(c) < min_bp),
            decreases ts.len() - lexer.pos(),
        {
            let op = match lexer.peek() {
                Token::EndOfInput => break,
                Token::Op(op) => op,
                t => {
                    return Err(ParseError::UnexpectedToken(t));
                },
            };
            let (l_bp, r_bp) = match Self::infix_binding_power(op) {
                Ok(bp) => bp,
                Err(err) => {
                    return Err(err);
                },
            };
            if l_bp < min_bp {
                break;
            }
            let ghost p = lexer.pos() as int;
            lexer.next();
            let rhs = match Self::parse_expr(lexer, r_bp) {
                Ok(rhs) => rhs,
                Err(err) => {
                    return Err(err);
                },
            };
            proof {
                let q = lexer.pos() as int;
                assert(ts.subrange(p0, q) == ts.subrange(p0, p) + seq![Token::Op(op)]
                    + ts.subrange(p + 1, q));
            }
            lhs = Expr::BinaryOp(op, Box::new(lhs), Box::new(rhs));
        }
        Ok(lhs)
    }

    /// The fully parenthesised prefix form of the tree.
    pub fn render(&self) -> (s: String)
        ensures
            s@ == rendered(*self),
    {
        let mut s = String::new();
        self.render_into(&mut s);
        s
    }

    fn render_into(&self, out: &mut String)
        ensures
            final(out)@ == old(out)@ + rendered(*self),
        decreases self,
    {
        match self {
            Expr::Atom(c) => {
                push_char(out, *c);
            },
            Expr::BinaryOp(op, l, r) => {
                push_char(out, '(');
                push_char(out, *op);
                push_char(out, ' ');
                l.render_into(out);
                push_char(out, ' ');
                r.render_into(out);
                push_char(out, ')');
            },
        }
    }
}

} // verus!
