//! Evaluation of an expression tree to a number.
use crate::ast::{lemma_views_of, Expr, ExprView};
use crate::lexer::chars_of;
use crate::number::{
    add_num, div_num, mul_num, neg_num, spec_add, spec_div, spec_mul, spec_neg, spec_sub, sub_num,
    Number,
};
use vstd::prelude::*;

verus! {

/// The result of an evaluation.
#[derive(Clone, Copy, Debug, PartialEq, Eq, Structural)]
pub enum Value {
    Number(Number),
}

/// Why an expression has no value.
#[derive(Debug, PartialEq)]
pub enum EvalError {
    /// A symbol outside the head of a list.
    UnboundSymbol(String),
    /// The list `()`.
    EmptyList,
    /// A list whose first element is no symbol.
    NotAnOperator,
    /// A list headed by a symbol that names no operator.
    UnknownOperator(String),
    /// `+`, `-` or `/` applied to no operands.
    MissingOperand(String),
    /// A divisor equal to zero.
    DivisionByZero,
    /// A result outside the range of the number representation.
    Overflow,
}

pub enum EvalErrorView {
    UnboundSymbol(Seq<char>),
    EmptyList,
    NotAnOperator,
    UnknownOperator(Seq<char>),
    MissingOperand(Seq<char>),
    DivisionByZero,
    Overflow,
}

impl View for EvalError {
    type V = EvalErrorView;

    open spec fn view(&self) -> EvalErrorView {
        match self {
            EvalError::UnboundSymbol(s) => EvalErrorView::UnboundSymbol(s@),
            EvalError::EmptyList => EvalErrorView::EmptyList,
            EvalError::NotAnOperator => EvalErrorView::NotAnOperator,
            EvalError::UnknownOperator(s) => EvalErrorView::UnknownOperator(s@),
            EvalError::MissingOperand(s) => EvalErrorView::MissingOperand(s@),
            EvalError::DivisionByZero => EvalErrorView::DivisionByZero,
            EvalError::Overflow => EvalErrorView::Overflow,
        }
    }
}

/// The operators that a list may apply.
#[derive(Clone, Copy, Debug, PartialEq, Eq, Structural)]
pub enum Operator {
    Add,
    Sub,
    Mul,
    Div,
}

pub open spec fn operator_named(name: Seq<char>) -> Option<Operator> {
    if name == seq!['+'] {
        Some(Operator::Add)
    } else if name == seq!['-'] {
        Some(Operator::Sub)
    } else if name == seq!['*'] {
        Some(Operator::Mul)
    } else if name == seq!['/'] {
        Some(Operator::Div)
    } else {
        None
    }
}

pub open spec fn lift(o: Option<Number>) -> Result<Number, EvalErrorView> {
    match o {
        Some(v) => Ok(v),
        None => Err(EvalErrorView::Overflow),
    }
}

/// The running sum of `s`, left to right (`s` non-empty).
pub open spec fn sum_of(s: Seq<Number>) -> Option<Number>
    decreases s.len(),
{
    if s.len() <= 1 {
        Some(s[0])
    } else {
        match sum_of(s.drop_last()) {
            Some(a) => spec_add(a, s.last()),
            None => None,
        }
    }
}

/// The running product of `s`, left to right, starting from one.
pub open spec fn product_of(s: Seq<Number>) -> Option<Number>
    decreases s.len(),
{
    if s.len() == 0 {
        Some(Number::spec_one())
    } else {
        match product_of(s.drop_last()) {
            Some(a) => spec_mul(a, s.last()),
            None => None,
        }
    }
}

/// The first element of `s` divided by each later one in turn; a zero
/// divisor fails before its division.
pub open spec fn quotient_of(s: Seq<Number>) -> Result<Number, EvalErrorView>
    decreases s.len(),
{
    if s.len() <= 1 {
        Ok(s[0])
    } else {
        match quotient_of(s.drop_last()) {
            Ok(a) => if s.last().num == 0 {
                Err(EvalErrorView::DivisionByZero)
            } else {
                lift(spec_div(a, s.last()))
            },
            Err(e) => Err(e),
        }
    }
}

/// The operator named `name` applied to the operands `args`.
pub open spec fn apply(op: Operator, name: Seq<char>, args: Seq<Number>) -> Result<Number, EvalErrorView> {
    match op {
        Operator::Add => if args.len() == 0 {
            Err(EvalErrorView::MissingOperand(name))
        } else {
            lift(sum_of(args))
        },
        Operator::Sub => if args.len() == 0 {
            Err(EvalErrorView::MissingOperand(name))
        } else if args.len() == 1 {
            lift(spec_neg(args[0]))
        } else {
            match sum_of(args.subrange(1, args.len() as int)) {
                Some(rest) => lift(spec_sub(args[0], rest)),
                None => Err(EvalErrorView::Overflow),
            }
        },
        Operator::Mul => lift(product_of(args)),
        Operator::Div => if args.len() == 0 {
            Err(EvalErrorView::MissingOperand(name))
        } else if args.len() == 1 {
            if args[0].num == 0 {
                Err(EvalErrorView::DivisionByZero)
            } else {
                lift(spec_div(Number::spec_one(), args[0]))
            }
        } else {
            quotient_of(args)
        },
    }
}

/// The value of an expression: a number is itself; a list `(op a1 ... an)`
/// whose head names an operator applies it to the values of `a1 ... an`,
/// evaluated left to right up to the first failure.
pub open spec fn eval_expr(e: ExprView) -> Result<Number, EvalErrorView>
    decreases e,
{
    match e {
        ExprView::Number(v) => Ok(v),
        ExprView::Symbol(s) => Err(EvalErrorView::UnboundSymbol(s)),
        ExprView::List(items) => if items.len() == 0 {
            Err(EvalErrorView::EmptyList)
        } else {
            match items[0] {
                ExprView::Symbol(name) => match operator_named(name) {
                    None => Err(EvalErrorView::UnknownOperator(name)),
                    Some(op) => match eval_all(items.subrange(1, items.len() as int)) {
                        Ok(args) => apply(op, name, args),
                        Err(err) => Err(err),
                    },
                },
                _ => Err(EvalErrorView::NotAnOperator),
            }
        },
    }
}

/// The values of `items`, or the first failure among them.
pub open spec fn eval_all(items: Seq<ExprView>) -> Result<Seq<Number>, EvalErrorView>
    decreases items,
{
    if items.len() == 0 {
        Ok(seq![])
    } else {
        match eval_all(items.drop_last()) {
            Ok(vs) => match eval_expr(items.last()) {
                Ok(v) => Ok(vs.push(v)),
                Err(err) => Err(err),
            },
            Err(err) => Err(err),
        }
    }
}

proof fn lemma_eval_all_failed_prefix(s: Seq<ExprView>, k: int)
    requires
        0 <= k <= s.len(),
        eval_all(s.subrange(0, k)) is Err,
    ensures
        eval_all(s) == eval_all(s.subrange(0, k)),
    decreases s.len(),
{
    if k == s.len() {
        assert(s.subrange(0, k) == s);
    } else {
        assert(s.drop_last().subrange(0, k) == s.subrange(0, k));
        lemma_eval_all_failed_prefix(s.drop_last(), k);
    }
}

/// The operator that `name` spells, if any.
pub fn operator_of(name: &String) -> (r: Option<Operator>)
    ensures
        r == operator_named(name@),
{
    let cs = chars_of(name.as_str());
    if cs.len() != 1 {
        proof {
            assert(seq!['+'].len() == 1 && seq!['-'].len() == 1 && seq!['*'].len() == 1 && seq!['/'].len() == 1);
        }
        return None;
    }
    let c = cs[0];
    proof {
        assert(name@ =~= seq![c]);
        assert(seq![c] == seq!['+'] ==> c == '+') by { assert(seq![c][0] == c); }
        assert(seq![c] == seq!['-'] ==> c == '-') by { assert(seq![c][0] == c); }
        assert(seq![c] == seq!['*'] ==> c == '*') by { assert(seq![c][0] == c); }
        assert(seq![c] == seq!['/'] ==> c == '/') by { assert(seq![c][0] == c); }
    }
    if c == '+' {
        Some(Operator::Add)
    } else if c == '-' {
        Some(Operator::Sub)
    } else if c == '*' {
        Some(Operator::Mul)
    } else if c == '/' {
        Some(Operator::Div)
    } else {
        None
    }
}

fn lift_overflow(o: Option<Number>) -> (r: Result<Number, EvalError>)
    ensures
        match lift(o) {
            Ok(v) => r is Ok && r->Ok_0 == v,
            Err(e) => r is Err && r->Err_0@ == e,
        },
{
    match o {
        Some(v) => Ok(v),
        None => Err(EvalError::Overflow),
    }
}

/// The running sum of `args[from..]`.
fn sum_from(args: &Vec<Number>, from: usize) -> (r: Option<Number>)
    requires
        from < args.len(),
    ensures
        r == sum_of(args@.subrange(from as int, args.len() as int)),
{
    let mut acc: Option<Number> = Some(args[from]);
    let mut i: usize = from + 1;
    while i < args.len()
        invariant
            from < i <= args.len(),
            acc == sum_of(args@.subrange(from as int, i as int)),
        decreases args.len() - i,
    {
        proof {
            assert(args@.subrange(from as int, i + 1).drop_last() == args@.subrange(from as int, i as int));
        }
        acc = match acc {
            Some(a) => add_num(a, args[i]),
            None => None,
        };
        i += 1;
    }
    acc
}

/// The running product of `args`, from one.
fn product(args: &Vec<Number>) -> (r: Option<Number>)
    ensures
        r == product_of(args@),
{
    let mut acc: Option<Number> = Some(Number::one());
    let mut i: usize = 0;
    while i < args.len()
        invariant
            i <= args.len(),
            acc == product_of(args@.subrange(0, i as int)),
        decreases args.len() - i,
    {
        proof {
            assert(args@.subrange(0, i + 1).drop_last() == args@.subrange(0, i as int));
        }
        acc = match acc {
            Some(a) => mul_num(a, args[i]),
            None => None,
        };
        i += 1;
    }
    assert(args@.subrange(0, args.len() as int) == args@);
    acc
}

/// `args[0]` divided by each later operand in turn.
fn quotient(args: &Vec<Number>) -> (r: Result<Number, EvalError>)
    requires
        args.len() >= 1,
    ensures
        match quotient_of(args@) {
            Ok(v) => r is Ok && r->Ok_0 == v,
            Err(e) => r is Err && r->Err_0@ == e,
        },
{
    let mut acc: Result<Number, EvalError> = Ok(args[0]);
    let mut i: usize = 1;
    while i < args.len()
        invariant
            1 <= i <= args.len(),
            match quotient_of(args@.subrange(0, i as int)) {
                Ok(v) => acc is Ok && acc->Ok_0 == v,
                Err(e) => acc is Err && acc->Err_0@ == e,
            },
        decreases args.len() - i,
    {
        proof {
            assert(args@.subrange(0, i + 1).drop_last() == args@.subrange(0, i as int));
        }
        if let Ok(a) = acc {
            let d = args[i];
            if d.is_zero() {
                acc = Err(EvalError::DivisionByZero);
            } else {
                acc = lift_overflow(div_num(a, d));
            }
        }
        i += 1;
    }
    assert(args@.subrange(0, args.len() as int) == args@);
    acc
}

/// Applies the operator `op`, spelled `name`, to `args`.
fn apply_operator(op: Operator, name: &String, args: &Vec<Number>) -> (r: Result<Number, EvalError>)
    ensures
        match apply(op, name@, args@) {
            Ok(v) => r is Ok && r->Ok_0 == v,
            Err(e) => r is Err && r->Err_0@ == e,
        },
{
    match op {
        Operator::Add => {
            if args.len() == 0 {
                return Err(EvalError::MissingOperand(name.clone()));
            }
            assert(args@.subrange(0, args.len() as int) == args@);
            lift_overflow(sum_from(args, 0))
        },
        Operator::Sub => {
            if args.len() == 0 {
                Err(EvalError::MissingOperand(name.clone()))
            } else if args.len() == 1 {
                lift_overflow(neg_num(args[0]))
            } else {
                match sum_from(args, 1) {
                    Some(rest) => lift_overflow(sub_num(args[0], rest)),
                    None => Err(EvalError::Overflow),
                }
            }
        },
        Operator::Mul => lift_overflow(product(args)),
        Operator::Div => {
            if args.len() == 0 {
                Err(EvalError::MissingOperand(name.clone()))
            } else if args.len() == 1 {
                if args[0].is_zero() {
                    Err(EvalError::DivisionByZero)
                } else {
                    lift_overflow(div_num(Number::one(), args[0]))
                }
            } else {
                quotient(args)
            }
        },
    }
}

/// Evaluates an expression tree.
pub fn eval(expr: &Expr) -> (r: Result<Value, EvalError>)
    ensures
        match eval_expr(expr@) {
            Ok(v) => r is Ok && r->Ok_0 == Value::Number(v),
            Err(e) => r is Err && r->Err_0@ == e,
        },
    decreases expr@,
{
    match expr {
        Expr::Number(n) => Ok(Value::Number(*n)),
        Expr::Symbol(s) => Err(EvalError::UnboundSymbol(s.clone())),
        Expr::List(list) => {
            let ghost items = expr@->List_0;
            proof {
                lemma_views_of(list@);
            }
            if list.len() == 0 {
                return Err(EvalError::EmptyList);
            }
            let name = match &list[0] {
                Expr::Symbol(name) => name,
                _ => return Err(EvalError::NotAnOperator),
            };
            let op = match operator_of(name) {
                Some(op) => op,
                None => return Err(EvalError::UnknownOperator(name.clone())),
            };
            let mut args: Vec<Number> = Vec::new();
            let mut i: usize = 1;
            proof {
                assert(items.subrange(1, 1) == Seq::<ExprView>::empty());
            }
            while i < list.len()
                invariant
                    1 <= i <= list.len(),
                    expr@ is List,
                    items == expr@->List_0,
                    items.len() == list.len(),
                    items[0] == ExprView::Symbol(name@),
                    operator_named(name@) == Some(op),
                    forall|j: int| 0 <= j < list.len() ==> #[trigger] items[j] == list[j]@,
                    eval_all(items.subrange(1, i as int)) == Ok::<Seq<Number>, EvalErrorView>(args@),
                decreases list.len() - i,
            {
                proof {
                    assert(decreases_to!(items => items[i as int]));
                    assert(decreases_to!(expr@ => items));
                    assert(items.subrange(1, i + 1).drop_last() == items.subrange(1, i as int));
                    assert(items.subrange(1, i + 1).last() == list[i as int]@);
                }
                match eval(&list[i]) {
                    Ok(Value::Number(n)) => args.push(n),
                    Err(e) => {
                        proof {
                            let s = items.subrange(1, items.len() as int);
                            assert(eval_expr(list[i as int]@) == Err::<Number, EvalErrorView>(e@));
                            assert(eval_all(items.subrange(1, i + 1)) == Err::<Seq<Number>, EvalErrorView>(e@));
                            assert(s.subrange(0, i as int) == items.subrange(1, i + 1));
                            lemma_eval_all_failed_prefix(s, i as int);
                        }
                        return Err(e);
                    },
                }
                i += 1;
            }
            match apply_operator(op, name, &args) {
                Ok(v) => Ok(Value::Number(v)),
                Err(e) => Err(e),
            }
        },
    }
}

} // verus!
