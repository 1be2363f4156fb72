//! A small calculator core: text is scanned into tokens, tokens are parsed
//! into an expression tree (prefix or simple infix), and the tree is
//! evaluated to an exact rational number.
use vstd::prelude::*;

use crate::ast::ExprView;
use crate::eval::{eval_expr, EvalErrorView};
use crate::lexer::{lemma_token_lens, lex, lex_from, numeral_len, run, CharClass, LexError, TokenView};
use crate::number::Number;
use crate::parser::{numeral_value, parse_tokens, ParseErrorView};

pub mod ast;
pub mod eval;
pub mod lexer;
pub mod number;
pub mod parser;

verus! {

/// A numeral standing alone (`-?[0-9]+(\.[0-9]+)?`, in range) scans to a single
/// number token, that token parses to the numeral's exact value, and that
/// value evaluates to itself.
pub proof fn lemma_numeral_alone(s: Seq<char>)
    requires
        s.len() > 0,
        numeral_len(s, 0) == s.len(),
        numeral_value(s) is Some,
    ensures
        lex(s) == Ok::<Seq<TokenView>, LexError>(seq![TokenView::Number(s)]),
        parse_tokens(seq![TokenView::Number(s)]) == Ok::<ExprView, ParseErrorView>(
            ExprView::Number(numeral_value(s)->Some_0),
        ),
        eval_expr(ExprView::Number(numeral_value(s)->Some_0)) == Ok::<Number, EvalErrorView>(
            numeral_value(s)->Some_0,
        ),
{
    lemma_token_lens(s, 0);
    if s[0] == '(' || s[0] == ')' {
        assert(run(s, 0, CharClass::Digit) == 0);
    }
    assert(lex_from(s, s.len() as int) == Ok::<Seq<TokenView>, LexError>(seq![]));
    assert(s.subrange(0, s.len() as int) == s);
    assert(seq![TokenView::Number(s)] + Seq::<TokenView>::empty() == seq![TokenView::Number(s)]);
}

} // verus!
