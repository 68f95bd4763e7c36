//! Turns a line of text into tokens, dropping whitespace.
use vstd::prelude::*;

verus! {

/// One lexical unit of an expression line.
#[derive(Clone, Copy, Debug, PartialEq, Eq, Structural)]
pub enum Token {
    /// An operand character: an ASCII digit or letter.
    Atom(char),
    /// Any other non-whitespace character.
    Op(char),
    /// Reported once the tokens are used up; never stored.
    EndOfInput,
}

/// ASCII whitespace: space, tab, line feed, form feed and carriage return.
pub open spec fn is_space(c: char) -> bool {
    c == ' ' || c == '\t' || c == '\n' || c == '\x0C' || c == '\r'
}

/// Characters that form operands.
pub open spec fn is_atom_char(c: char) -> bool {
    ('0' <= c <= '9') || ('a' <= c <= 'z') || ('A' <= c <= 'Z')
}

/// The token that a non-whitespace character becomes.
pub open spec fn classify(c: char) -> Token {
    if is_atom_char(c) {
        Token::Atom(c)
    } else {
        Token::Op(c)
    }
}

/// The tokens of a line, in order, with whitespace dropped.
pub open spec fn lex(s: Seq<char>) -> Seq<Token>
    decreases s.len(),
{
    if s.len() == 0 {
        Seq::empty()
    } else if is_space(s.last()) {
        lex(s.drop_last())
    } else {
        lex(s.drop_last()).push(classify(s.last()))
    }
}

/// Tokens as the lexer makes them: operands hold operand characters, and
/// no stored token is the end marker.
pub open spec fn tokens_ok(ts: Seq<Token>) -> bool {
    forall|i: int|
        0 <= i < ts.len() ==> match #[trigger] ts[i] {
            Token::Atom(c) => is_atom_char(c),
            Token::Op(_) => true,
            Token::EndOfInput => false,
        }
}

fn char_is_space(c: char) -> (r: bool)
    ensures
        r == is_space(c),
{
    c == ' ' || c == '\t' || c == '\n' || c == '\x0C' || c == '\r'
}

fn classify_char(c: char) -> (t: Token)
    ensures
        t == classify(c),
{
    if ('0' <= c && c <= '9') || ('a' <= c && c <= 'z') || ('A' <= c && c <= 'Z') {
        Token::Atom(c)
    } else {
        Token::Op(c)
    }
}

/// A cursor over the tokens of one line.
pub struct Lexer {
    tokens: Vec<Token>,
    pos: usize,
}

impl Lexer {
    /// Every token of the line, consumed or not.
    pub closed spec fn all(&self) -> Seq<Token> {
        self.tokens@
    }

    /// How many tokens have been consumed.
    pub closed spec fn pos(&self) -> nat {
        self.pos as nat
    }

    pub open spec fn wf(&self) -> bool {
        &&& self.pos() <= self.all().len()
        &&& tokens_ok(self.all())
    }

    /// Tokenizes `input`; the cursor stands before the first token.
    pub fn new(input: &str) -> (r: Self)
        ensures
            r.wf(),
            r.all() == lex(input@),
            r.pos() == 0,
    {
        let mut tokens: Vec<Token> = Vec::new();
        let ghost s = input@;
        for c in it: input.chars()
            invariant
                it.seq() == s,
                tokens@ == lex(s.take(it.index() as int)),
                tokens_ok(tokens@),
        {
            let ghost i = it.index() as int;
            proof {
                assert(s.take(i + 1).drop_last() == s.take(i));
                assert(s.take(i + 1).last() == c);
            }
            if !char_is_space(c) {
                tokens.push(classify_char(c));
            }
        }
        proof {
            assert(s.take(s.len() as int) == s);
        }
        Lexer { tokens, pos: 0 }
    }

    /// Consumes the next token, or reports the end marker once all are used.
    pub fn next(&mut self) -> (t: Token)
        requires
            old(self).wf(),
        ensures
            final(self).wf(),
            final(self).all() == old(self).all(),
            old(self).pos() < old(self).all().len() ==> t == old(self).all()[old(self).pos() as int]
                && final(self).pos() == old(self).pos() + 1,
            old(self).pos() >= old(self).all().len() ==> t is EndOfInput && final(self).pos()
                == old(self).pos(),
    {
        if self.pos < self.tokens.len() {
            let t = self.tokens[self.pos];
            self.pos = self.pos + 1;
            t
        } else {
            Token::EndOfInput
        }
    }

    /// The next token, without consuming it.
    pub fn peek(&self) -> (t: Token)
        requires
            self.wf(),
        ensures
            self.pos() < self.all().len() ==> t == self.all()[self.pos() as int],
            self.pos() >= self.all().len() ==> t is EndOfInput,
    {
        if self.pos < self.tokens.len() {
            self.tokens[self.pos]
        } else {
            Token::EndOfInput
        }
    }
}

} // verus!
