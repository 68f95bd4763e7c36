use pratt_calc::eval::{EvalError, Ratio};
use pratt_calc::expr::{Expr, ParseError};
use pratt_calc::lexer::{Lexer, Token};

fn atom(c: char) -> Box<Expr> {
    Box::new(Expr::Atom(c))
}

fn bin(op: char, l: Box<Expr>, r: Box<Expr>) -> Box<Expr> {
    Box::new(Expr::BinaryOp(op, l, r))
}

fn parse(line: &str) -> Expr {
    Expr::from_str(line).expect("line should parse")
}

fn ratio(num: i64, den: i64) -> Ratio {
    Ratio { num, den }
}

#[test]
fn single_digits() {
    for (i, d) in "0123456789".chars().enumerate() {
        let e = parse(&d.to_string());
        assert_eq!(e, Expr::Atom(d));
        assert_eq!(e.render(), d.to_string());
        assert_eq!(e.eval(), Ok(Ratio::from_integer(i as i64)));
    }
}

#[test]
fn subtraction_is_left_associative() {
    let e = parse("1-2-3");
    assert_eq!(e, *bin('-', bin('-', atom('1'), atom('2')), atom('3')));
    assert_eq!(e.render(), "(- (- 1 2) 3)");
    assert_eq!(e.eval(), Ok(ratio(-4, 1)));
}

#[test]
fn multiplication_binds_tighter() {
    let e = parse("1+2*3");
    assert_eq!(e.render(), "(+ 1 (* 2 3))");
    assert_eq!(e.eval(), Ok(ratio(7, 1)));
    let e = parse("1*2+3");
    assert_eq!(e.render(), "(+ (* 1 2) 3)");
    assert_eq!(e.eval(), Ok(ratio(5, 1)));
}

#[test]
fn division_is_left_associative() {
    let e = parse("8/4/2");
    assert_eq!(e.render(), "(/ (/ 8 4) 2)");
    assert_eq!(e.eval(), Ok(ratio(1, 1)));
}

#[test]
fn whitespace_is_ignored() {
    let spaced = parse("1 + 2");
    let tight = parse("1+2");
    assert_eq!(spaced, tight);
    assert_eq!(spaced.eval(), Ok(ratio(3, 1)));
    assert_eq!(tight.eval(), Ok(ratio(3, 1)));
}

#[test]
fn render_is_canonical_whatever_the_spacing() {
    let a = parse(" 1-\t2 * 3 +4\r\n");
    let b = parse("1-2*3+4");
    assert_eq!(a.render(), "(+ (- 1 (* 2 3)) 4)");
    assert_eq!(a.render(), b.render());
    assert_eq!(a.eval(), Ok(ratio(-1, 1)));
}

#[test]
fn empty_line_is_malformed_start() {
    assert_eq!(Expr::from_str(""), Err(ParseError::MalformedStart(Token::EndOfInput)));
    assert_eq!(Expr::from_str("  \t"), Err(ParseError::MalformedStart(Token::EndOfInput)));
}

#[test]
fn missing_right_operand_is_malformed_start() {
    assert_eq!(Expr::from_str("1+"), Err(ParseError::MalformedStart(Token::EndOfInput)));
}

#[test]
fn unknown_operator() {
    assert_eq!(Expr::from_str("1#2"), Err(ParseError::UnknownOperator('#')));
    assert_eq!(Expr::from_str("1+2(3"), Err(ParseError::UnknownOperator('(')));
}

#[test]
fn leading_operator_is_malformed_start() {
    assert_eq!(Expr::from_str("+1"), Err(ParseError::MalformedStart(Token::Op('+'))));
    assert_eq!(Expr::from_str("1**2"), Err(ParseError::MalformedStart(Token::Op('*'))));
}

#[test]
fn operand_after_operand_is_unexpected() {
    assert_eq!(Expr::from_str("12"), Err(ParseError::UnexpectedToken(Token::Atom('2'))));
    assert_eq!(Expr::from_str("1+2 3"), Err(ParseError::UnexpectedToken(Token::Atom('3'))));
}

#[test]
fn letters_parse_but_do_not_evaluate() {
    let e = parse("a+1");
    assert_eq!(e.render(), "(+ a 1)");
    assert_eq!(e.eval(), Err(EvalError::UndefinedAtom('a')));
    assert_eq!(parse("1*Z").eval(), Err(EvalError::UndefinedAtom('Z')));
}

#[test]
fn division_by_zero() {
    assert_eq!(parse("1/0").eval(), Err(EvalError::DivisionByZero));
    assert_eq!(parse("4/2-2").eval(), Ok(ratio(0, 1)));
    assert_eq!(parse("3/5*0/0").eval(), Err(EvalError::DivisionByZero));
}

#[test]
fn fractions_are_exact_and_reduced() {
    assert_eq!(parse("1/2").eval(), Ok(ratio(1, 2)));
    assert_eq!(parse("2/4").eval(), Ok(ratio(1, 2)));
    assert_eq!(parse("1-3/6").eval(), Ok(ratio(1, 2)));
    assert_eq!(parse("2*3/4").eval(), Ok(ratio(3, 2)));
    assert_eq!(parse("0-9/6").eval(), Ok(ratio(-3, 2)));
    assert_eq!(parse("1/3+1/6").eval(), Ok(ratio(1, 2)));
    assert_eq!(parse("0/5").eval(), Ok(ratio(0, 1)));
    assert_eq!(parse("1/3*3").eval(), Ok(ratio(1, 1)));
}

#[test]
fn overflow_is_reported() {
    let nineteen = vec!["9"; 19].join("*");
    assert_eq!(parse(&nineteen).eval(), Ok(ratio(1350851717672992089, 1)));
    let twenty = vec!["9"; 20].join("*");
    assert_eq!(parse(&twenty).eval(), Err(EvalError::Overflow));
    let tiny = format!("1/{}", vec!["9"; 20].join("/"));
    assert_eq!(parse(&tiny).eval(), Err(EvalError::Overflow));
}

#[test]
fn unknown_operator_in_built_tree() {
    let e = Expr::BinaryOp('%', atom('1'), atom('2'));
    assert_eq!(e.eval(), Err(EvalError::UnknownOperator('%')));
    assert_eq!(e.render(), "(% 1 2)");
}

#[test]
fn binding_powers() {
    assert_eq!(Expr::infix_binding_power('+'), Ok((10, 11)));
    assert_eq!(Expr::infix_binding_power('-'), Ok((10, 11)));
    assert_eq!(Expr::infix_binding_power('*'), Ok((20, 21)));
    assert_eq!(Expr::infix_binding_power('/'), Ok((20, 21)));
    assert_eq!(Expr::infix_binding_power('^'), Err(ParseError::UnknownOperator('^')));
}

#[test]
fn lexer_classifies_and_skips_whitespace() {
    let mut lx = Lexer::new(" 1 +a\tZ_ ");
    assert_eq!(lx.peek(), Token::Atom('1'));
    assert_eq!(lx.next(), Token::Atom('1'));
    assert_eq!(lx.next(), Token::Op('+'));
    assert_eq!(lx.next(), Token::Atom('a'));
    assert_eq!(lx.peek(), Token::Atom('Z'));
    assert_eq!(lx.next(), Token::Atom('Z'));
    assert_eq!(lx.next(), Token::Op('_'));
    assert_eq!(lx.peek(), Token::EndOfInput);
    assert_eq!(lx.next(), Token::EndOfInput);
    assert_eq!(lx.next(), Token::EndOfInput);
}

#[test]
fn lexer_on_empty_line() {
    let mut lx = Lexer::new("");
    assert_eq!(lx.peek(), Token::EndOfInput);
    assert_eq!(lx.next(), Token::EndOfInput);
}

#[test]
fn parse_expr_stops_below_its_threshold() {
    let mut lx = Lexer::new("1*2+3");
    let e = Expr::parse_expr(&mut lx, 11).expect("prefix should parse");
    assert_eq!(e.render(), "(* 1 2)");
    assert_eq!(lx.next(), Token::Op('+'));
}
