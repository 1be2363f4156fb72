//! Recursive-descent parsing of tokens into an expression tree.
use crate::ast::{lemma_views_of, lemma_views_of_push, views_of, Expr, ExprView};
use crate::lexer::{
    chars_of, lemma_run_members, numeral_len, numeral_len_at, run, run_len, token_views, CharClass,
    Token, TokenView,
};
use crate::number::Number;
use vstd::prelude::*;

verus! {

/// Why a token sequence is not one expression.
#[derive(Debug, PartialEq)]
pub enum ParseError {
    /// The input ended inside a list.
    UnclosedParen,
    /// A `)` stood where an expression was expected.
    UnexpectedCloseParen,
    /// The input ended where an expression was expected.
    UnexpectedEnd,
    /// A number token whose text is no numeral, or one out of range.
    InvalidNumber(String),
    /// An infix chain used more than one operator.
    MixedOperators,
    /// Tokens were left after the expression, from this index on.
    ExtraTokens(usize),
}

pub enum ParseErrorView {
    UnclosedParen,
    UnexpectedCloseParen,
    UnexpectedEnd,
    InvalidNumber(Seq<char>),
    MixedOperators,
    ExtraTokens(usize),
}

impl View for ParseError {
    type V = ParseErrorView;

    open spec fn view(&self) -> ParseErrorView {
        match self {
            ParseError::UnclosedParen => ParseErrorView::UnclosedParen,
            ParseError::UnexpectedCloseParen => ParseErrorView::UnexpectedCloseParen,
            ParseError::UnexpectedEnd => ParseErrorView::UnexpectedEnd,
            ParseError::InvalidNumber(s) => ParseErrorView::InvalidNumber(s@),
            ParseError::MixedOperators => ParseErrorView::MixedOperators,
            ParseError::ExtraTokens(i) => ParseErrorView::ExtraTokens(*i),
        }
    }
}

/// The decimal value of a run of digits, or `None` past `i128::MAX`.
pub open spec fn digits_value(ds: Seq<char>) -> Option<int>
    decreases ds.len(),
{
    if ds.len() == 0 {
        Some(0)
    } else {
        match digits_value(ds.drop_last()) {
            Some(v) => {
                let w = v * 10 + (ds.last() as int - '0' as int);
                if 0 <= w <= i128::MAX {
                    Some(w)
                } else {
                    None
                }
            },
            None => None,
        }
    }
}

/// `10^k`, or `None` past `i128::MAX`.
pub open spec fn pow10(k: nat) -> Option<int>
    decreases k,
{
    if k == 0 {
        Some(1)
    } else {
        match pow10((k - 1) as nat) {
            Some(v) => if v * 10 <= i128::MAX {
                Some(v * 10)
            } else {
                None
            },
            None => None,
        }
    }
}

/// The whole digits of a numeral, its sign skipped.
pub open spec fn numeral_int_part(t: Seq<char>) -> Seq<char> {
    let j = if t[0] == '-' { 1int } else { 0int };
    t.subrange(j, j + run(t, j, CharClass::Digit))
}

/// The digits after the point of a numeral (none if it has no point).
pub open spec fn numeral_frac_part(t: Seq<char>) -> Seq<char> {
    let j = if t[0] == '-' { 1int } else { 0int };
    let k = j + run(t, j, CharClass::Digit);
    if k < t.len() {
        t.subrange(k + 1, t.len() as int)
    } else {
        seq![]
    }
}

/// The exact value of the numeral `t` (`-?[0-9]+(\.[0-9]+)?`, the whole text):
/// all its digits over `10^(digits after the point)`, negated after a minus.
/// `None` where `t` is no numeral or a part leaves the range of `i128`.
pub open spec fn numeral_value(t: Seq<char>) -> Option<Number> {
    if t.len() == 0 || numeral_len(t, 0) != t.len() {
        None
    } else {
        let frac = numeral_frac_part(t);
        match (digits_value(numeral_int_part(t) + frac), pow10(frac.len())) {
            (Some(m), Some(p)) => Some(
                Number { num: (if t[0] == '-' { -m } else { m }) as i128, den: p as i128 },
            ),
            _ => None,
        }
    }
}

proof fn lemma_digits_value_none(a: Seq<char>, b: Seq<char>)
    requires
        digits_value(a) is None,
    ensures
        digits_value(a + b) is None,
    decreases b.len(),
{
    if b.len() > 0 {
        lemma_digits_value_none(a, b.drop_last());
        assert((a + b).drop_last() == a + b.drop_last());
    } else {
        assert(a + b == a);
    }
}

proof fn lemma_pow10_none(k: nat, l: nat)
    requires
        pow10(k) is None,
        k <= l,
    ensures
        pow10(l) is None,
    decreases l,
{
    if l > k {
        lemma_pow10_none(k, (l - 1) as nat);
    }
}

proof fn lemma_pow10_pos(k: nat)
    ensures
        pow10(k) matches Some(v) ==> 1 <= v <= i128::MAX,
    decreases k,
{
    if k > 0 {
        lemma_pow10_pos((k - 1) as nat);
    }
}

/// Reads the numeral `text` as an exact number.
pub fn numeral_to_number(text: &String) -> (r: Option<Number>)
    ensures
        r == numeral_value(text@),
        r matches Some(v) ==> v.wf(),
{
    let chars = chars_of(text.as_str());
    let ghost t = text@;
    let n = chars.len();
    if n == 0 || numeral_len_at(&chars, 0) != n {
        return None;
    }
    let j: usize = if chars[0] == '-' { 1 } else { 0 };
    let d = run_len(&chars, j, CharClass::Digit);
    let k = j + d;
    let ghost ip = numeral_int_part(t);
    let ghost fp = numeral_frac_part(t);
    let mut acc: i128 = 0;
    let mut q: usize = j;
    while q < k
        invariant
            chars@ == t,
            t == text@,
            n == t.len(),
            j <= q <= k <= n,
            k == j + run(t, j as int, CharClass::Digit),
            j == (if t[0] == '-' { 1int } else { 0int }),
            ip == t.subrange(j as int, k as int),
            ip == numeral_int_part(t),
            fp == numeral_frac_part(t),
            numeral_len(t, 0) == n,
            n > 0,
            digits_value(t.subrange(j as int, q as int)) == Some(acc as int),
        decreases k - q,
    {
        proof {
            lemma_run_members(t, j as int, CharClass::Digit, q as int);
            assert(t.subrange(j as int, q + 1).drop_last() == t.subrange(j as int, q as int));
        }
        let dig = (chars[q] as u32 - '0' as u32) as i128;
        let next = match acc.checked_mul(10) {
            Some(x) => x.checked_add(dig),
            None => None,
        };
        match next {
            Some(y) => acc = y,
            None => {
                proof {
                    let pre = t.subrange(j as int, q + 1);
                    assert(digits_value(pre) is None);
                    lemma_digits_value_none(pre, t.subrange(q + 1, k as int) + fp);
                    assert(pre + (t.subrange(q + 1, k as int) + fp) == ip + fp);
                }
                return None;
            },
        }
        q += 1;
    }
    assert(t.subrange(j as int, k as int) == ip);
    let mut pw: i128 = 1;
    if k < n {
        proof {
            lemma_run_members(t, k + 1, CharClass::Digit, k + 1);
        }
        let mut q2: usize = k + 1;
        while q2 < n
            invariant
                chars@ == t,
                t == text@,
                n == t.len(),
                k < n,
                k + 1 <= q2 <= n,
                n == k + 1 + run(t, k + 1, CharClass::Digit),
                fp == t.subrange(k + 1, n as int),
                ip == numeral_int_part(t),
                fp == numeral_frac_part(t),
                numeral_len(t, 0) == n,
                digits_value(ip + t.subrange(k + 1, q2 as int)) == Some(acc as int),
                pow10((q2 - k - 1) as nat) == Some(pw as int),
            decreases n - q2,
        {
            proof {
                lemma_run_members(t, k + 1, CharClass::Digit, q2 as int);
                assert((ip + t.subrange(k + 1, q2 + 1)).drop_last() == ip + t.subrange(k + 1, q2 as int));
            }
            let dig = (chars[q2] as u32 - '0' as u32) as i128;
            let next = match acc.checked_mul(10) {
                Some(x) => x.checked_add(dig),
                None => None,
            };
            match next {
                Some(y) => acc = y,
                None => {
                    proof {
                        let pre = ip + t.subrange(k + 1, q2 + 1);
                        assert(digits_value(pre) is None);
                        lemma_digits_value_none(pre, t.subrange(q2 + 1, n as int));
                        assert(pre + t.subrange(q2 + 1, n as int) == ip + fp);
                    }
                    return None;
                },
            }
            match pw.checked_mul(10) {
                Some(x) => pw = x,
                None => {
                    proof {
                        lemma_pow10_pos((q2 - k - 1) as nat);
                        assert(pow10((q2 + 1 - k - 1) as nat) is None);
                        lemma_pow10_none((q2 + 1 - k - 1) as nat, fp.len());
                    }
                    return None;
                },
            }
            q2 += 1;
        }
        assert(t.subrange(k + 1, n as int) == fp);
    } else {
        assert(fp == Seq::<char>::empty());
        assert(ip + fp == ip);
    }
    proof {
        lemma_pow10_pos(fp.len());
    }
    let num = if chars[0] == '-' { -acc } else { acc };
    Some(Number { num, den: pw })
}

/// An infix chain: no operator leaves the first operand as it is; one or more
/// copies of a single operator make the list `(op operand0 operand1 ...)`.
pub open spec fn combine(operands: Seq<ExprView>, ops: Seq<Seq<char>>) -> Result<ExprView, ParseErrorView> {
    if ops.len() == 0 {
        Ok(operands[0])
    } else if forall|i: int| 0 <= i < ops.len() ==> #[trigger] ops[i] == ops[0] {
        Ok(ExprView::List(seq![ExprView::Symbol(ops[0])] + operands))
    } else {
        Err(ParseErrorView::MixedOperators)
    }
}

/// One primary expression at `p`: a number, a symbol or a parenthesised list,
/// with the position after it.
pub open spec fn primary(t: Seq<TokenView>, p: int) -> Result<(ExprView, int), ParseErrorView>
    decreases t.len() - p, 0int,
{
    if p < 0 || p >= t.len() {
        Err(ParseErrorView::UnexpectedEnd)
    } else {
        match t[p] {
            TokenView::Number(s) => match numeral_value(s) {
                Some(v) => Ok((ExprView::Number(v), p + 1)),
                None => Err(ParseErrorView::InvalidNumber(s)),
            },
            TokenView::Symbol(s) => Ok((ExprView::Symbol(s), p + 1)),
            TokenView::RParen => Err(ParseErrorView::UnexpectedCloseParen),
            TokenView::LParen => list_rest(t, p + 1, seq![]),
        }
    }
}

/// The rest of a list from `p`, after the items `acc`, up to and past its `)`.
/// (Here and below, an expression always ends past where it began; the
/// checks `p < q` only let the definitions terminate and never fail.)
pub open spec fn list_rest(t: Seq<TokenView>, p: int, acc: Seq<ExprView>) -> Result<(ExprView, int), ParseErrorView>
    decreases t.len() - p, 2int,
{
    if p < 0 || p >= t.len() {
        Err(ParseErrorView::UnclosedParen)
    } else if t[p] is RParen {
        Ok((ExprView::List(acc), p + 1))
    } else {
        match expr_at(t, p) {
            Err(e) => Err(e),
            Ok((e, q)) => if p < q <= t.len() {
                list_rest(t, q, acc.push(e))
            } else {
                Err(ParseErrorView::UnclosedParen)
            },
        }
    }
}

/// One expression at `p`: a primary expression, followed, unless it is a bare
/// symbol, by any number of `symbol primary` pairs of an infix chain.
pub open spec fn expr_at(t: Seq<TokenView>, p: int) -> Result<(ExprView, int), ParseErrorView>
    decreases t.len() - p, 1int,
{
    if p < 0 || p >= t.len() {
        Err(ParseErrorView::UnexpectedEnd)
    } else {
        match primary(t, p) {
            Err(e) => Err(e),
            Ok((first, q)) => if first is Symbol {
                Ok((first, q))
            } else if p < q <= t.len() {
                infix_rest(t, q, seq![first], seq![])
            } else {
                Err(ParseErrorView::UnexpectedEnd)
            },
        }
    }
}

/// The rest of an infix chain from `p`, after the operands and operators seen.
pub open spec fn infix_rest(t: Seq<TokenView>, p: int, operands: Seq<ExprView>, ops: Seq<Seq<char>>) -> Result<(ExprView, int), ParseErrorView>
    decreases t.len() - p, 3int,
{
    if 0 <= p < t.len() && t[p] is Symbol {
        match primary(t, p + 1) {
            Err(e) => Err(e),
            Ok((rhs, q)) => if p < q <= t.len() {
                infix_rest(t, q, operands.push(rhs), ops.push(t[p]->Symbol_0))
            } else {
                Err(ParseErrorView::UnexpectedEnd)
            },
        }
    } else {
        match combine(operands, ops) {
            Ok(e) => Ok((e, p)),
            Err(e) => Err(e),
        }
    }
}

/// The one expression that the whole of `t` makes.
pub open spec fn parse_tokens(t: Seq<TokenView>) -> Result<ExprView, ParseErrorView> {
    match expr_at(t, 0) {
        Err(e) => Err(e),
        Ok((e, q)) => if q < t.len() {
            Err(ParseErrorView::ExtraTokens(q as usize))
        } else {
            Ok(e)
        },
    }
}

/// A forward-only cursor over a token sequence.
pub struct Parser {
    tokens: Vec<Token>,
    pos: usize,
}

impl Parser {
    /// The tokens being parsed.
    pub closed spec fn token_seq(&self) -> Seq<TokenView> {
        token_views(self.tokens@)
    }

    /// The index of the next token to read.
    pub closed spec fn position(&self) -> int {
        self.pos as int
    }

    pub fn new(tokens: Vec<Token>) -> (r: Parser)
        ensures
            r.token_seq() == token_views(tokens@),
            r.position() == 0,
    {
        Parser { tokens, pos: 0 }
    }

    fn peek(&self) -> (r: Option<&Token>)
        ensures
            self.pos < self.tokens.len() ==> r == Some(&self.tokens[self.pos as int]),
            self.pos >= self.tokens.len() ==> r is None,
    {
        if self.pos < self.tokens.len() {
            Some(&self.tokens[self.pos])
        } else {
            None
        }
    }

    fn next(&mut self) -> (r: Option<Token>)
        ensures
            final(self).tokens == old(self).tokens,
            old(self).pos < old(self).tokens.len() ==> r is Some && r->Some_0@
                == old(self).tokens[old(self).pos as int]@ && final(self).pos == old(self).pos + 1,
            old(self).pos >= old(self).tokens.len() ==> r is None && final(self).pos == old(self).pos,
    {
        if self.pos < self.tokens.len() {
            let t = self.tokens[self.pos].duplicate();
            self.pos += 1;
            Some(t)
        } else {
            None
        }
    }

    fn parse_primary(&mut self) -> (r: Result<Expr, ParseError>)
        requires
            old(self).pos <= old(self).tokens.len(),
        ensures
            final(self).token_seq() == old(self).token_seq(),
            final(self).pos <= final(self).tokens.len(),
            match primary(old(self).token_seq(), old(self).pos as int) {
                Ok((e, q)) => r is Ok && r->Ok_0@ == e && final(self).pos == q && q > old(self).pos,
                Err(err) => r is Err && r->Err_0@ == err,
            },
        decreases old(self).token_seq().len() - old(self).position(), 0int,
    {
        let ghost t = self.token_seq();
        let ghost start = self.pos as int;
        let tok = self.next();
        match tok {
            None => Err(ParseError::UnexpectedEnd),
            Some(Token::Number(s)) => match numeral_to_number(&s) {
                Some(v) => Ok(Expr::Number(v)),
                None => Err(ParseError::InvalidNumber(s)),
            },
            Some(Token::Symbol(s)) => Ok(Expr::Symbol(s)),
            Some(Token::RParen) => Err(ParseError::UnexpectedCloseParen),
            Some(Token::LParen) => {
                let mut exprs: Vec<Expr> = Vec::new();
                proof {
                    assert(views_of(exprs@) == Seq::<ExprView>::empty());
                }
                while self.pos < self.tokens.len()
                    invariant
                        t == old(self).token_seq(),
                        t == self.token_seq(),
                        t.len() == self.tokens.len(),
                        start == old(self).pos,
                        start < self.pos <= self.tokens.len(),
                        primary(t, start) == list_rest(t, self.pos as int, views_of(exprs@)),
                    decreases self.tokens.len() - self.pos,
                {
                    if let Some(Token::RParen) = self.peek() {
                        self.next();
                        return Ok(Expr::List(exprs));
                    }
                    let e = self.parse_expr()?;
                    proof {
                        lemma_views_of_push(exprs@, e);
                    }
                    exprs.push(e);
                }
                Err(ParseError::UnclosedParen)
            },
        }
    }

    /// Parses one expression from the current position, with an infix chain
    /// after a number or a list turned into prefix form.
    pub fn parse_expr(&mut self) -> (r: Result<Expr, ParseError>)
        requires
            old(self).position() <= old(self).token_seq().len(),
        ensures
            final(self).token_seq() == old(self).token_seq(),
            final(self).position() <= final(self).token_seq().len(),
            match expr_at(old(self).token_seq(), old(self).position()) {
                Ok((e, q)) => r is Ok && r->Ok_0@ == e && final(self).position() == q && q
                    > old(self).position(),
                Err(err) => r is Err && r->Err_0@ == err,
            },
        decreases old(self).token_seq().len() - old(self).position(), 1int,
    {
        let ghost t = self.token_seq();
        let ghost start = self.pos as int;
        if self.pos >= self.tokens.len() {
            return Err(ParseError::UnexpectedEnd);
        }
        let first = self.parse_primary()?;
        if let Expr::Symbol(_) = first {
            return Ok(first);
        }
        let mut operands: Vec<Expr> = Vec::new();
        let mut ops: Vec<String> = Vec::new();
        proof {
            lemma_views_of_push(operands@, first);
        }
        operands.push(first);
        proof {
            assert(views_of(operands@) == seq![first@]) by {
                lemma_views_of_push(Seq::<Expr>::empty(), first);
                assert(Seq::<Expr>::empty().push(first) == operands@);
            }
            assert(op_views(ops@) == Seq::<Seq<char>>::empty());
        }
        while self.pos < self.tokens.len() && self.tokens[self.pos].is_symbol()
            invariant
                t == old(self).token_seq(),
                t == self.token_seq(),
                t.len() == self.tokens.len(),
                start == old(self).pos,
                start < self.pos <= self.tokens.len(),
                operands.len() == ops.len() + 1,
                expr_at(t, start) == infix_rest(t, self.pos as int, views_of(operands@), op_views(ops@)),
            decreases self.tokens.len() - self.pos,
        {
            let op = match self.next() {
                Some(Token::Symbol(s)) => s,
                _ => return Err(ParseError::UnexpectedEnd),
            };
            let rhs = self.parse_primary()?;
            proof {
                lemma_views_of_push(operands@, rhs);
                assert(op_views(ops@.push(op)) == op_views(ops@).push(op@));
            }
            operands.push(rhs);
            ops.push(op);
        }
        combine_chain(operands, ops)
    }
}

pub open spec fn op_views(ops: Seq<String>) -> Seq<Seq<char>> {
    ops.map_values(|s: String| s@)
}

fn combine_chain(operands: Vec<Expr>, ops: Vec<String>) -> (r: Result<Expr, ParseError>)
    requires
        operands.len() == ops.len() + 1,
    ensures
        match combine(views_of(operands@), op_views(ops@)) {
            Ok(e) => r is Ok && r->Ok_0@ == e,
            Err(err) => r is Err && r->Err_0@ == err,
        },
{
    proof {
        lemma_views_of(operands@);
    }
    let mut operands = operands;
    if ops.len() == 0 {
        return Ok(operands.remove(0));
    }
    let mut i: usize = 1;
    while i < ops.len()
        invariant
            1 <= i <= ops.len(),
            forall|k: int| 0 <= k < i ==> #[trigger] op_views(ops@)[k] == op_views(ops@)[0],
        decreases ops.len() - i,
    {
        if !(ops[i] == ops[0]) {
            proof {
                assert(op_views(ops@)[i as int] != op_views(ops@)[0]);
            }
            return Err(ParseError::MixedOperators);
        }
        i += 1;
    }
    let ghost items = operands@;
    let mut list: Vec<Expr> = Vec::new();
    list.push(Expr::Symbol(ops[0].clone()));
    list.append(&mut operands);
    proof {
        lemma_views_of(list@);
        assert(views_of(list@) =~= seq![ExprView::Symbol(op_views(ops@)[0])] + views_of(items));
    }
    Ok(Expr::List(list))
}

/// Parses the tokens as exactly one expression.
pub fn parse(tokens: Vec<Token>) -> (r: Result<Expr, ParseError>)
    ensures
        match parse_tokens(token_views(tokens@)) {
            Ok(e) => r is Ok && r->Ok_0@ == e,
            Err(err) => r is Err && r->Err_0@ == err,
        },
{
    let mut p = Parser::new(tokens);
    let expr = p.parse_expr()?;
    if p.peek().is_some() {
        return Err(ParseError::ExtraTokens(p.pos));
    }
    Ok(expr)
}

} // verus!
