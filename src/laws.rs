//! Properties that relate lexing, parsing, rendering and evaluation.
use vstd::prelude::*;
use crate::eval::{digit_value, is_digit, value, Ratio};
use crate::expr::{first_error, parses_to, rendered, tier, tokens_of, well_nested, Expr};
use crate::lexer::{classify, is_space, lex, Token};

verus! {

/// The characters of a line other than whitespace, in order.
pub open spec fn without_space(s: Seq<char>) -> Seq<char>
    decreases s.len(),
{
    if s.len() == 0 {
        Seq::empty()
    } else if is_space(s.last()) {
        without_space(s.drop_last())
    } else {
        without_space(s.drop_last()).push(s.last())
    }
}

/// The tier of the operator at the root, above every tier for an operand.
pub open spec fn top_tier(e: Expr) -> nat {
    match e {
        Expr::Atom(_) => 3,
        Expr::BinaryOp(op, _, _) => tier(op),
    }
}

proof fn lemma_tokens_nonempty(e: Expr)
    ensures
        tokens_of(e).len() >= 1,
        e is BinaryOp ==> tokens_of(e).len() >= 3,
    decreases e,
{
    if let Expr::BinaryOp(_, l, r) = e {
        lemma_tokens_nonempty(*l);
        lemma_tokens_nonempty(*r);
    }
}

/// Every operator in a well-nested tree has at least the tier of its root.
proof fn lemma_ops_at_least_root(e: Expr)
    requires
        well_nested(e),
    ensures
        forall|j: int|
            0 <= j < tokens_of(e).len() ==> (#[trigger] tokens_of(e)[j] matches Token::Op(c)
                ==> tier(c) >= top_tier(e)),
    decreases e,
{
    if let Expr::BinaryOp(op, l, r) = e {
        lemma_ops_at_least_root(*l);
        lemma_ops_at_least_root(*r);
        let tl = tokens_of(*l);
        let tr = tokens_of(*r);
        assert forall|j: int| 0 <= j < tokens_of(e).len() implies (#[trigger] tokens_of(e)[j] matches Token::Op(c)
            ==> tier(c) >= top_tier(e)) by {
            if j < tl.len() {
                assert(tokens_of(e)[j] == tl[j]);
            } else if j > tl.len() {
                assert(tokens_of(e)[j] == tr[j - tl.len() - 1]);
            }
        }
    }
}

/// In two well-nested trees over the same tokens, the root of the first does
/// not stand left of the root of the second.
proof fn lemma_root_not_left(e1: Expr, e2: Expr)
    requires
        well_nested(e1),
        well_nested(e2),
        tokens_of(e1) == tokens_of(e2),
        e1 is BinaryOp,
        e2 is BinaryOp,
    ensures
        tokens_of(*e1->BinaryOp_1).len() >= tokens_of(*e2->BinaryOp_1).len(),
{
    let (o1, l1, r1) = (e1->BinaryOp_0, e1->BinaryOp_1, e1->BinaryOp_2);
    let (o2, l2, r2) = (e2->BinaryOp_0, e2->BinaryOp_1, e2->BinaryOp_2);
    let k1 = tokens_of(*l1).len() as int;
    let k2 = tokens_of(*l2).len() as int;
    let ts = tokens_of(e1);
    if k1 < k2 {
        lemma_ops_at_least_root(*l2);
        lemma_ops_at_least_root(*r1);
        assert(ts[k1] == Token::Op(o1));
        assert(tokens_of(e2)[k1] == tokens_of(*l2)[k1]);
        assert(tokens_of(*l2)[k1] == Token::Op(o1));
        assert(tier(o1) >= top_tier(*l2));
        assert(tokens_of(e2).len() == k2 + 1 + tokens_of(*r2).len());
        assert(tokens_of(e2)[k2] == Token::Op(o2));
        assert(ts.len() == k1 + 1 + tokens_of(*r1).len());
        assert(ts[k2] == tokens_of(*r1)[k2 - k1 - 1]);
        assert(tier(o2) >= top_tier(*r1));
        assert(*l2 is BinaryOp);
        assert(*r1 is BinaryOp);
    }
}

/// A sequence of tokens has at most one well-nested tree over it.
pub proof fn lemma_unique_tree(e1: Expr, e2: Expr)
    requires
        well_nested(e1),
        well_nested(e2),
        tokens_of(e1) == tokens_of(e2),
    ensures
        e1 == e2,
    decreases e1,
{
    lemma_tokens_nonempty(e1);
    lemma_tokens_nonempty(e2);
    match (e1, e2) {
        (Expr::Atom(c1), Expr::Atom(c2)) => {
            assert(tokens_of(e1)[0] == Token::Atom(c1));
            assert(tokens_of(e2)[0] == Token::Atom(c2));
        },
        (Expr::BinaryOp(o1, l1, r1), Expr::BinaryOp(o2, l2, r2)) => {
            lemma_root_not_left(e1, e2);
            lemma_root_not_left(e2, e1);
            let ts = tokens_of(e1);
            let k = tokens_of(*l1).len() as int;
            assert(tokens_of(*l1) == ts.subrange(0, k));
            assert(tokens_of(*l2) == ts.subrange(0, k));
            assert(tokens_of(*r1) == ts.subrange(k + 1, ts.len() as int));
            assert(tokens_of(*r2) == ts.subrange(k + 1, ts.len() as int));
            assert(ts[k] == Token::Op(o1));
            assert(tokens_of(e2)[k] == Token::Op(o2));
            lemma_unique_tree(*l1, *l2);
            lemma_unique_tree(*r1, *r2);
        },
        _ => {},
    }
}

proof fn lemma_lex_without_space(s: Seq<char>)
    ensures
        lex(s) == without_space(s).map_values(|c: char| classify(c)),
    decreases s.len(),
{
    if s.len() > 0 {
        lemma_lex_without_space(s.drop_last());
        assert(without_space(s.drop_last()).push(s.last()).map_values(|c: char| classify(c))
            == without_space(s.drop_last()).map_values(|c: char| classify(c)).push(classify(s.last())));
    } else {
        assert(without_space(s).map_values(|c: char| classify(c)) == Seq::<Token>::empty());
    }
}

/// Whitespace does not matter: two lines with the same non-whitespace
/// characters fail with the same error or parse to the same tree, which then
/// renders to the same parenthesised form.
pub proof fn lemma_whitespace_insensitive(a: Seq<char>, b: Seq<char>, e1: Expr, e2: Expr)
    requires
        without_space(a) == without_space(b),
    ensures
        lex(a) == lex(b),
        first_error(lex(a), 0) == first_error(lex(b), 0),
        parses_to(a, e1) && parses_to(b, e2) ==> e1 == e2 && rendered(e1) == rendered(e2),
{
    lemma_lex_without_space(a);
    lemma_lex_without_space(b);
    if parses_to(a, e1) && parses_to(b, e2) {
        lemma_unique_tree(e1, e2);
    }
}

/// A line of one digit parses to that digit, renders as it, and has its value.
pub proof fn lemma_single_digit(d: char, e: Expr)
    requires
        is_digit(d),
    ensures
        first_error(lex(seq![d]), 0) is None,
        parses_to(seq![d], e) ==> {
            &&& e == Expr::Atom(d)
            &&& rendered(e) == seq![d]
            &&& value(e) == Ok::<Ratio, crate::eval::EvalError>(
                Ratio { num: digit_value(d) as i64, den: 1 },
            )
        },
{
    let s = seq![d];
    assert(s.drop_last() == Seq::<char>::empty());
    assert(lex(Seq::<char>::empty()) == Seq::<Token>::empty());
    assert(s.last() == d);
    assert(lex(s) == Seq::<Token>::empty().push(Token::Atom(d)));
    assert(lex(s) == seq![Token::Atom(d)]);
    if parses_to(s, e) {
        assert(tokens_of(Expr::Atom(d)) == lex(s));
        lemma_unique_tree(e, Expr::Atom(d));
    }
}

} // verus!
