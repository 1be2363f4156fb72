//! The expression tree shared by the parser and the evaluator.
use crate::number::Number;
use vstd::prelude::*;

verus! {

/// A number, a bare symbol, or a parenthesised list whose first element, by
/// convention, names the operator.
#[derive(Debug, PartialEq)]
pub enum Expr {
    Number(Number),
    Symbol(String),
    List(Vec<Expr>),
}

/// The mathematical content of an [`Expr`].
pub enum ExprView {
    Number(Number),
    Symbol(Seq<char>),
    List(Seq<ExprView>),
}

impl View for Expr {
    type V = ExprView;

    open spec fn view(&self) -> ExprView
        decreases self,
    {
        match self {
            Expr::Number(n) => ExprView::Number(*n),
            Expr::Symbol(s) => ExprView::Symbol(s@),
            Expr::List(v) => ExprView::List(views_of(v@)),
        }
    }
}

/// The views of a sequence of expressions, element by element.
pub open spec fn views_of(s: Seq<Expr>) -> Seq<ExprView>
    decreases s,
{
    if s.len() == 0 {
        Seq::empty()
    } else {
        views_of(s.drop_last()).push(s.last().view())
    }
}

pub proof fn lemma_views_of(s: Seq<Expr>)
    ensures
        views_of(s).len() == s.len(),
        forall|i: int| 0 <= i < s.len() ==> #[trigger] views_of(s)[i] == s[i]@,
    decreases s.len(),
{
    if s.len() > 0 {
        lemma_views_of(s.drop_last());
        assert(views_of(s) == views_of(s.drop_last()).push(s.last().view()));
        assert forall|i: int| 0 <= i < s.len() implies #[trigger] views_of(s)[i] == s[i]@ by {
            if i < s.len() - 1 {
                assert(s.drop_last()[i] == s[i]);
            }
        }
    }
}

pub proof fn lemma_views_of_push(s: Seq<Expr>, e: Expr)
    ensures
        views_of(s.push(e)) == views_of(s).push(e@),
{
    assert(s.push(e).drop_last() == s);
}

} // verus!
