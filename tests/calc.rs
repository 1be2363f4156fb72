use yelra::ast::Expr;
use yelra::eval::{eval, operator_of, EvalError, Operator, Value};
use yelra::lexer::{tokenize, LexError, Token};
use yelra::number::{add_num, div_num, mul_num, neg_num, sub_num, Number};
use yelra::parser::{numeral_to_number, parse, ParseError, Parser};

fn num(n: i128, d: i128) -> Number {
    Number { num: n, den: d }
}

fn as_f64(v: Value) -> f64 {
    match v {
        Value::Number(n) => n.num as f64 / n.den as f64,
    }
}

fn parse_str(input: &str) -> Result<Expr, ParseError> {
    parse(tokenize(input).expect("lexes"))
}

fn eval_str(input: &str) -> Result<Value, EvalError> {
    eval(&parse_str(input).expect("parses"))
}

fn sym(s: &str) -> Token {
    Token::Symbol(s.to_string())
}

fn numeral(s: &str) -> Token {
    Token::Number(s.to_string())
}

#[test]
fn numeral_alone_round_trips() {
    for (text, n, d) in [("42", 42, 1), ("-3.25", -325, 100), ("0.5", 5, 10), ("-7", -7, 1)] {
        let tokens = tokenize(text).unwrap();
        assert_eq!(tokens, vec![numeral(text)]);
        let expr = parse(tokens).unwrap();
        assert_eq!(expr, Expr::Number(num(n, d)));
        assert_eq!(eval(&expr).unwrap(), Value::Number(num(n, d)));
        assert_eq!(as_f64(eval(&expr).unwrap()), text.parse::<f64>().unwrap());
    }
}

#[test]
fn infix_chain_matches_prefix_form() {
    let prefix = parse_str("(+ 1 2 3)").unwrap();
    let infix = parse_str("1 + 2 + 3").unwrap();
    assert_eq!(prefix, infix);
    assert_eq!(as_f64(eval(&prefix).unwrap()), 6.0);
    assert_eq!(as_f64(eval(&infix).unwrap()), 6.0);
}

#[test]
fn subtraction_chain_is_first_minus_sum_of_rest() {
    assert_eq!(eval_str("1 - 2 - 3").unwrap(), Value::Number(num(-4, 1)));
    assert_eq!(as_f64(eval_str("(- 10 1 2 3)").unwrap()), 4.0);
}

#[test]
fn mixed_infix_needs_parentheses() {
    assert_eq!(parse_str("1 + 2 * 3"), Err(ParseError::MixedOperators));
    assert_eq!(as_f64(eval_str("(+ 1 (* 2 3))").unwrap()), 7.0);
}

#[test]
fn division_by_zero_fails_anywhere() {
    assert_eq!(eval_str("(/ 10 0)"), Err(EvalError::DivisionByZero));
    assert_eq!(eval_str("(/ 10 2 0)"), Err(EvalError::DivisionByZero));
    assert_eq!(eval_str("(/ 0)"), Err(EvalError::DivisionByZero));
    assert_eq!(as_f64(eval_str("(/ 5)").unwrap()), 0.2);
    assert_eq!(as_f64(eval_str("(/ 10 2 5)").unwrap()), 1.0);
}

#[test]
fn empty_list_parses_but_does_not_evaluate() {
    let e = parse_str("()").unwrap();
    assert_eq!(e, Expr::List(vec![]));
    assert_eq!(eval(&e), Err(EvalError::EmptyList));
}

#[test]
fn unknown_operator_is_named() {
    assert_eq!(eval_str("(foo 1 2)"), Err(EvalError::UnknownOperator("foo".to_string())));
}

#[test]
fn unbalanced_and_trailing_tokens() {
    assert_eq!(parse_str("(+ 1 2"), Err(ParseError::UnclosedParen));
    assert_eq!(parse_str("1 2"), Err(ParseError::ExtraTokens(1)));
    assert_eq!(parse_str(")"), Err(ParseError::UnexpectedCloseParen));
    assert_eq!(parse_str(""), Err(ParseError::UnexpectedEnd));
    assert_eq!(parse_str("1 +"), Err(ParseError::UnexpectedEnd));
}

#[test]
fn unary_and_nullary_forms() {
    assert_eq!(eval_str("(- 5)").unwrap(), Value::Number(num(-5, 1)));
    assert_eq!(as_f64(eval_str("(/ 4)").unwrap()), 0.25);
    assert_eq!(eval_str("(* )").unwrap(), Value::Number(num(1, 1)));
    assert_eq!(eval_str("(+ 9)").unwrap(), Value::Number(num(9, 1)));
    assert_eq!(eval_str("(* 9)").unwrap(), Value::Number(num(9, 1)));
}

#[test]
fn missing_operands() {
    assert_eq!(eval_str("(+)"), Err(EvalError::MissingOperand("+".to_string())));
    assert_eq!(eval_str("(-)"), Err(EvalError::MissingOperand("-".to_string())));
    assert_eq!(eval_str("(/)"), Err(EvalError::MissingOperand("/".to_string())));
}

#[test]
fn bare_symbols_and_bad_heads() {
    assert_eq!(eval_str("x"), Err(EvalError::UnboundSymbol("x".to_string())));
    assert_eq!(parse_str("(+ 1 y)"), Err(ParseError::UnexpectedCloseParen));
    assert_eq!(eval_str("(+ y 1)"), Err(EvalError::UnboundSymbol("y".to_string())));
    assert_eq!(eval_str("(1 2)"), Err(EvalError::NotAnOperator));
    assert_eq!(eval_str("(+ 1 (foo))"), Err(EvalError::UnknownOperator("foo".to_string())));
}

#[test]
fn lexer_longest_match() {
    assert_eq!(
        tokenize("(+ 1 -2.5)").unwrap(),
        vec![Token::LParen, sym("+"), numeral("1"), numeral("-2.5"), Token::RParen]
    );
    assert_eq!(tokenize("--5").unwrap(), vec![sym("--5")]);
    assert_eq!(tokenize("-5x").unwrap(), vec![sym("-5x")]);
    assert_eq!(tokenize("5x").unwrap(), vec![numeral("5"), sym("x")]);
    assert_eq!(tokenize(">= a_1\t\r\n").unwrap(), vec![sym(">="), sym("a_1")]);
    assert_eq!(tokenize("1.").unwrap_err(), LexError { start: 1, end: 2 });
    assert_eq!(tokenize("").unwrap(), vec![]);
}

#[test]
fn lexer_reports_the_bad_character() {
    assert_eq!(tokenize("1 # 2"), Err(LexError { start: 2, end: 3 }));
    assert_eq!(tokenize("é"), Err(LexError { start: 0, end: 2 }));
    assert_eq!(tokenize("(1 €"), Err(LexError { start: 3, end: 6 }));
}

#[test]
fn numerals_convert_exactly() {
    assert_eq!(numeral_to_number(&"-3.25".to_string()), Some(num(-325, 100)));
    assert_eq!(numeral_to_number(&"007".to_string()), Some(num(7, 1)));
    assert_eq!(numeral_to_number(&"1.2.3".to_string()), None);
    assert_eq!(numeral_to_number(&"abc".to_string()), None);
    let huge = format!("1{}", "0".repeat(40));
    assert_eq!(numeral_to_number(&huge), None);
    assert_eq!(
        parse(vec![numeral("1.2.3")]),
        Err(ParseError::InvalidNumber("1.2.3".to_string()))
    );
}

#[test]
fn arithmetic_on_fractions() {
    assert_eq!(add_num(num(1, 2), num(1, 3)), Some(num(5, 6)));
    assert_eq!(sub_num(num(1, 2), num(1, 3)), Some(num(1, 6)));
    assert_eq!(mul_num(num(2, 3), num(3, 4)), Some(num(6, 12)));
    assert_eq!(div_num(num(1, 2), num(-1, 4)), Some(num(-4, 2)));
    assert_eq!(neg_num(num(3, 7)), Some(num(-3, 7)));
    assert_eq!(neg_num(num(i128::MIN, 1)), None);
    assert_eq!(mul_num(num(i128::MAX, 1), num(2, 1)), None);
    let v = eval_str("(+ 0.1 0.2)").unwrap();
    match v {
        Value::Number(n) => assert_eq!(n.num * 10, n.den * 3),
    }
}

#[test]
fn overflow_is_reported() {
    let big = format!("1{}", "0".repeat(20));
    let line = format!("(* {} {})", big, big);
    assert_eq!(eval_str(&line), Err(EvalError::Overflow));
}

#[test]
fn operators_by_name() {
    assert_eq!(operator_of(&"+".to_string()), Some(Operator::Add));
    assert_eq!(operator_of(&"-".to_string()), Some(Operator::Sub));
    assert_eq!(operator_of(&"*".to_string()), Some(Operator::Mul));
    assert_eq!(operator_of(&"/".to_string()), Some(Operator::Div));
    assert_eq!(operator_of(&"++".to_string()), None);
    assert_eq!(operator_of(&"".to_string()), None);
}

#[test]
fn parser_reads_one_expression_at_a_time() {
    let mut p = Parser::new(tokenize("(* 2 3) 4").unwrap());
    let first = p.parse_expr().unwrap();
    assert_eq!(eval(&first).unwrap(), Value::Number(num(6, 1)));
    let second = p.parse_expr().unwrap();
    assert_eq!(second, Expr::Number(num(4, 1)));
    assert_eq!(p.parse_expr(), Err(ParseError::UnexpectedEnd));
}

#[test]
fn infix_with_lists_and_symbol_first() {
    assert_eq!(as_f64(eval_str("(* 2 3) + 1").unwrap()), 7.0);
    assert_eq!(parse_str("+ 1 2"), Err(ParseError::ExtraTokens(1)));
    assert_eq!(
        parse_str("2 * 3 * 4").unwrap(),
        Expr::List(vec![
            Expr::Symbol("*".to_string()),
            Expr::Number(num(2, 1)),
            Expr::Number(num(3, 1)),
            Expr::Number(num(4, 1)),
        ])
    );
}
