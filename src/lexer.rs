//! Scanning text into tokens.
use vstd::prelude::*;

verus! {

/// One lexical unit. Numbers keep their numeral text; conversion happens in
/// the parser.
#[derive(Debug, PartialEq)]
pub enum Token {
    LParen,
    RParen,
    Number(String),
    Symbol(String),
}

/// The mathematical content of a [`Token`].
pub enum TokenView {
    LParen,
    RParen,
    Number(Seq<char>),
    Symbol(Seq<char>),
}

impl View for Token {
    type V = TokenView;

    open spec fn view(&self) -> TokenView {
        match self {
            Token::LParen => TokenView::LParen,
            Token::RParen => TokenView::RParen,
            Token::Number(s) => TokenView::Number(s@),
            Token::Symbol(s) => TokenView::Symbol(s@),
        }
    }
}

impl Token {
    pub fn is_symbol(&self) -> (r: bool)
        ensures
            r == (self@ is Symbol),
    {
        match self {
            Token::Symbol(_) => true,
            _ => false,
        }
    }

    /// A copy that keeps the token's content.
    pub fn duplicate(&self) -> (r: Token)
        ensures
            r@ == self@,
    {
        match self {
            Token::LParen => Token::LParen,
            Token::RParen => Token::RParen,
            Token::Number(s) => Token::Number(s.clone()),
            Token::Symbol(s) => Token::Symbol(s.clone()),
        }
    }
}

pub open spec fn token_views(ts: Seq<Token>) -> Seq<TokenView> {
    ts.map_values(|t: Token| t@)
}

/// An input character that starts no token, as the byte offsets
/// `start..end` of that character in the text.
#[derive(Clone, Copy, Debug, PartialEq, Eq, Structural)]
pub struct LexError {
    pub start: usize,
    pub end: usize,
}

/// The classes of characters that tokens are made of.
pub enum CharClass {
    Digit,
    SymbolChar,
    Space,
}

pub open spec fn is_digit(c: char) -> bool {
    '0' <= c <= '9'
}

pub open spec fn is_letter(c: char) -> bool {
    ('a' <= c <= 'z') || ('A' <= c <= 'Z')
}

pub open spec fn is_operator_char(c: char) -> bool {
    c == '+' || c == '-' || c == '*' || c == '/' || c == '=' || c == '<' || c == '>' || c == '!'
}

/// A character that may begin a symbol.
pub open spec fn is_symbol_start(c: char) -> bool {
    is_letter(c) || c == '_' || is_operator_char(c)
}

pub open spec fn is_space(c: char) -> bool {
    c == ' ' || c == '\t' || c == '\r' || c == '\n'
}

pub open spec fn in_class(c: char, k: CharClass) -> bool {
    match k {
        CharClass::Digit => is_digit(c),
        CharClass::SymbolChar => is_symbol_start(c) || is_digit(c),
        CharClass::Space => is_space(c),
    }
}

fn class_contains(c: char, k: &CharClass) -> (r: bool)
    ensures
        r == in_class(c, *k),
{
    let digit = '0' <= c && c <= '9';
    match k {
        CharClass::Digit => digit,
        CharClass::SymbolChar => digit || ('a' <= c && c <= 'z') || ('A' <= c && c <= 'Z') || c == '_'
            || c == '+' || c == '-' || c == '*' || c == '/' || c == '=' || c == '<' || c == '>'
            || c == '!',
        CharClass::Space => c == ' ' || c == '\t' || c == '\r' || c == '\n',
    }
}

/// The number of characters of class `k` that stand in a row from `i`.
pub open spec fn run(s: Seq<char>, i: int, k: CharClass) -> int
    decreases s.len() - i,
{
    if 0 <= i < s.len() && in_class(s[i], k) {
        1 + run(s, i + 1, k)
    } else {
        0
    }
}

/// The length of the longest numeral `-?[0-9]+(\.[0-9]+)?` at `i` (0 if none).
pub open spec fn numeral_len(s: Seq<char>, i: int) -> int {
    let j = if 0 <= i < s.len() && s[i] == '-' { i + 1 } else { i };
    let d = run(s, j, CharClass::Digit);
    if d == 0 {
        0
    } else {
        let k = j + d;
        let f = run(s, k + 1, CharClass::Digit);
        if k < s.len() && s[k] == '.' && f > 0 {
            k + 1 + f - i
        } else {
            k - i
        }
    }
}

/// The length of the longest symbol at `i` (0 if none).
pub open spec fn symbol_len(s: Seq<char>, i: int) -> int {
    if 0 <= i < s.len() && is_symbol_start(s[i]) {
        run(s, i, CharClass::SymbolChar)
    } else {
        0
    }
}

/// How many bytes UTF-8 takes for `c`.
pub open spec fn utf8_width(c: char) -> int {
    if (c as u32) < 0x80 {
        1
    } else if (c as u32) < 0x800 {
        2
    } else if (c as u32) < 0x10000 {
        3
    } else {
        4
    }
}

pub open spec fn saturating_end(start: int, width: int) -> usize {
    if start + width <= usize::MAX {
        (start + width) as usize
    } else {
        usize::MAX
    }
}

pub open spec fn prepend(t: TokenView, r: Result<Seq<TokenView>, LexError>) -> Result<Seq<TokenView>, LexError> {
    match r {
        Ok(ts) => Ok(seq![t] + ts),
        Err(e) => Err(e),
    }
}

/// The tokens of `s` from position `i` on, taking at each position the
/// longest match (a numeral over a symbol of the same length) and dropping
/// whitespace; or the first character that starts no token, as its index
/// and the index plus its UTF-8 width. Every character before it is ASCII
/// (`lemma_lex_error_after_ascii`), so these are byte offsets in the text.
pub open spec fn lex_from(s: Seq<char>, i: int) -> Result<Seq<TokenView>, LexError>
    decreases s.len() - i,
    via lex_from_decreases
{
    if i < 0 || i >= s.len() {
        Ok(seq![])
    } else if s[i] == '(' {
        prepend(TokenView::LParen, lex_from(s, i + 1))
    } else if s[i] == ')' {
        prepend(TokenView::RParen, lex_from(s, i + 1))
    } else if numeral_len(s, i) > 0 && numeral_len(s, i) >= symbol_len(s, i) {
        let n = numeral_len(s, i);
        prepend(TokenView::Number(s.subrange(i, i + n)), lex_from(s, i + n))
    } else if symbol_len(s, i) > 0 {
        let n = symbol_len(s, i);
        prepend(TokenView::Symbol(s.subrange(i, i + n)), lex_from(s, i + n))
    } else if run(s, i, CharClass::Space) > 0 {
        lex_from(s, i + run(s, i, CharClass::Space))
    } else {
        Err(LexError { start: i as usize, end: saturating_end(i, utf8_width(s[i])) })
    }
}

#[via_fn]
proof fn lex_from_decreases(s: Seq<char>, i: int) {
    if 0 <= i < s.len() {
        lemma_token_lens(s, i);
        lemma_run_bounds(s, i, CharClass::Space);
    }
}

pub open spec fn is_ascii_char(c: char) -> bool {
    (c as u32) < 128
}

/// Every character before the one that a scan fails on is ASCII, so the
/// failing character's index in `s` is also its byte offset in the text.
pub proof fn lemma_lex_error_after_ascii(s: Seq<char>, i: int)
    requires
        0 <= i <= s.len(),
        s.len() <= usize::MAX,
    ensures
        lex_from(s, i) matches Err(e) ==> i <= e.start < s.len() && forall|k: int|
            i <= k < e.start ==> is_ascii_char(#[trigger] s[k]),
    decreases s.len() - i,
{
    if i < s.len() {
        lemma_token_lens(s, i);
        lemma_run_bounds(s, i, CharClass::Space);
        let w: int = if s[i] == '(' || s[i] == ')' {
            1
        } else if numeral_len(s, i) > 0 && numeral_len(s, i) >= symbol_len(s, i) {
            let n = numeral_len(s, i);
            let j = if s[i] == '-' { i + 1 } else { i };
            let d = run(s, j, CharClass::Digit);
            assert forall|k: int| i <= k < i + n implies is_ascii_char(#[trigger] s[k]) by {
                if j <= k < j + d {
                    lemma_run_members(s, j, CharClass::Digit, k);
                } else if k > j + d {
                    lemma_run_members(s, j + d + 1, CharClass::Digit, k);
                }
            }
            n
        } else if symbol_len(s, i) > 0 {
            let n = symbol_len(s, i);
            assert forall|k: int| i <= k < i + n implies is_ascii_char(#[trigger] s[k]) by {
                lemma_run_members(s, i, CharClass::SymbolChar, k);
            }
            n
        } else if run(s, i, CharClass::Space) > 0 {
            let n = run(s, i, CharClass::Space);
            assert forall|k: int| i <= k < i + n implies is_ascii_char(#[trigger] s[k]) by {
                lemma_run_members(s, i, CharClass::Space, k);
            }
            n
        } else {
            0
        };
        if w > 0 {
            lemma_lex_error_after_ascii(s, i + w);
        }
    }
}

pub open spec fn lex(s: Seq<char>) -> Result<Seq<TokenView>, LexError> {
    lex_from(s, 0)
}

pub proof fn lemma_run_bounds(s: Seq<char>, i: int, k: CharClass)
    requires
        0 <= i <= s.len(),
    ensures
        0 <= run(s, i, k) <= s.len() - i,
    decreases s.len() - i,
{
    if i < s.len() && in_class(s[i], k) {
        lemma_run_bounds(s, i + 1, k);
    }
}

pub proof fn lemma_token_lens(s: Seq<char>, i: int)
    requires
        0 <= i < s.len(),
    ensures
        0 <= numeral_len(s, i) <= s.len() - i,
        0 <= symbol_len(s, i) <= s.len() - i,
{
    let j = if s[i] == '-' { i + 1 } else { i };
    lemma_run_bounds(s, j, CharClass::Digit);
    let k = j + run(s, j, CharClass::Digit);
    if k + 1 <= s.len() {
        lemma_run_bounds(s, k + 1, CharClass::Digit);
    }
    lemma_run_bounds(s, i, CharClass::SymbolChar);
}

/// `run(chars, i, k)`, computed.
pub(crate) fn run_len(chars: &Vec<char>, i: usize, k: CharClass) -> (r: usize)
    requires
        i <= chars.len(),
    ensures
        r == run(chars@, i as int, k),
        i + r <= chars.len(),
{
    let mut j: usize = i;
    while j < chars.len() && class_contains(chars[j], &k)
        invariant
            i <= j <= chars.len(),
            run(chars@, i as int, k) == (j - i) + run(chars@, j as int, k),
        decreases chars.len() - j,
    {
        j += 1;
    }
    j - i
}

pub(crate) fn numeral_len_at(chars: &Vec<char>, i: usize) -> (r: usize)
    requires
        i < chars.len(),
    ensures
        r == numeral_len(chars@, i as int),
{
    proof { lemma_token_lens(chars@, i as int); }
    let j: usize = if chars[i] == '-' { i + 1 } else { i };
    let d = run_len(chars, j, CharClass::Digit);
    if d == 0 {
        return 0;
    }
    let k = j + d;
    if k < chars.len() && chars[k] == '.' {
        let f = run_len(chars, k + 1, CharClass::Digit);
        if f > 0 {
            return k + 1 + f - i;
        }
    }
    k - i
}

fn symbol_len_at(chars: &Vec<char>, i: usize) -> (r: usize)
    requires
        i < chars.len(),
    ensures
        r == symbol_len(chars@, i as int),
{
    let c = chars[i];
    let start = ('a' <= c && c <= 'z') || ('A' <= c && c <= 'Z') || c == '_' || c == '+' || c
        == '-' || c == '*' || c == '/' || c == '=' || c == '<' || c == '>' || c == '!';
    if start {
        run_len(chars, i, CharClass::SymbolChar)
    } else {
        0
    }
}

fn utf8_width_of(c: char) -> (r: usize)
    ensures
        r == utf8_width(c),
{
    let u = c as u32;
    if u < 0x80 {
        1
    } else if u < 0x800 {
        2
    } else if u < 0x10000 {
        3
    } else {
        4
    }
}

/// The characters of `s`, in order.
pub(crate) fn chars_of(s: &str) -> (r: Vec<char>)
    ensures
        r@ == s@,
{
    let n = s.unicode_len();
    let mut chars: Vec<char> = Vec::new();
    let mut m: usize = 0;
    while m < n
        invariant
            m <= n,
            n == s@.len(),
            chars@ == s@.subrange(0, m as int),
        decreases n - m,
    {
        chars.push(s.get_char(m));
        m += 1;
    }
    assert(chars@ == s@);
    chars
}

/// Every character counted by `run(s, i, k)` is of class `k`.
pub proof fn lemma_run_members(s: Seq<char>, i: int, k: CharClass, m: int)
    requires
        0 <= i <= m < i + run(s, i, k),
    ensures
        m < s.len(),
        in_class(s[m], k),
    decreases m - i,
{
    if m > i {
        lemma_run_members(s, i + 1, k, m);
    }
}

/// Scans `input` into tokens, or reports the first character that no token
/// rule accepts.
pub fn tokenize(input: &str) -> (r: Result<Vec<Token>, LexError>)
    ensures
        match lex(input@) {
            Ok(ts) => r is Ok && token_views(r->Ok_0@) == ts,
            Err(e) => r == Err::<Vec<Token>, LexError>(e),
        },
{
    let n = input.unicode_len();
    let chars = chars_of(input);
    let ghost s = input@;
    let mut tokens: Vec<Token> = Vec::new();
    let mut i: usize = 0;
    while i < n
        invariant
            i <= n,
            n == s.len(),
            chars@ == s,
            s == input@,
            lex(s) == prepend_all(token_views(tokens@), lex_from(s, i as int)),
        decreases n - i,
    {
        proof { lemma_token_lens(s, i as int); }
        let c = chars[i];
        let nl = numeral_len_at(&chars, i);
        let sl = symbol_len_at(&chars, i);
        let tok: Token;
        let next: usize;
        if c == '(' {
            tok = Token::LParen;
            next = i + 1;
        } else if c == ')' {
            tok = Token::RParen;
            next = i + 1;
        } else if nl > 0 && nl >= sl {
            tok = Token::Number(input.substring_char(i, i + nl).to_owned());
            next = i + nl;
        } else if sl > 0 {
            tok = Token::Symbol(input.substring_char(i, i + sl).to_owned());
            next = i + sl;
        } else {
            let w = run_len(&chars, i, CharClass::Space);
            if w > 0 {
                i = i + w;
                continue;
            }
            let width = utf8_width_of(c);
            let end = if width <= usize::MAX - i { i + width } else { usize::MAX };
            return Err(LexError { start: i, end });
        }
        proof {
            assert(token_views(tokens@.push(tok)) == token_views(tokens@).push(tok@));
            assert(seq![tok@] + lex_from(s, next as int)->Ok_0 == seq![tok@].add(lex_from(s, next as int)->Ok_0));
            assert(token_views(tokens@).push(tok@) + lex_from(s, next as int)->Ok_0 =~= token_views(tokens@) + (seq![tok@] + lex_from(s, next as int)->Ok_0));
        }
        tokens.push(tok);
        i = next;
    }
    proof {
        assert(token_views(tokens@) + seq![] =~= token_views(tokens@));
    }
    Ok(tokens)
}

/// `r` with the tokens `pre` in front of what it holds.
pub open spec fn prepend_all(pre: Seq<TokenView>, r: Result<Seq<TokenView>, LexError>) -> Result<Seq<TokenView>, LexError> {
    match r {
        Ok(ts) => Ok(pre + ts),
        Err(e) => Err(e),
    }
}

} // verus!
