use std::collections::VecDeque;
use vstd::prelude::*;

verus! {

/// A lexical unit of an arithmetic expression.
#[derive(Debug, PartialEq, Eq, Clone, Copy, Structural)]
pub enum Token {
    Add,
    Sub,
    Mul,
    Div,
    Number(usize),
    Lparen,
    Rparen,
}

/// Why an input is not a well-formed expression.
#[derive(Debug, PartialEq, Eq, Clone, Copy, Structural)]
pub enum ParseError {
    /// A character that is neither whitespace, a digit, nor one of `+ - * / ( )`.
    UnexpectedChar(char),
    /// A digit run whose value does not fit in a `usize`.
    NumberOverflow,
    /// A number or `(` was required and something else (or the end) came.
    MissingOperand,
    /// An opening parenthesis without its matching `)`.
    UnbalancedParen,
    /// A complete expression is followed by further tokens.
    TrailingInput,
}

/// The token named by a single operator or parenthesis character.
pub open spec fn symbol_token(c: char) -> Option<Token> {
    if c == '+' {
        Some(Token::Add)
    } else if c == '-' {
        Some(Token::Sub)
    } else if c == '*' {
        Some(Token::Mul)
    } else if c == '/' {
        Some(Token::Div)
    } else if c == '(' {
        Some(Token::Lparen)
    } else if c == ')' {
        Some(Token::Rparen)
    } else {
        None
    }
}

/// Unicode's `White_Space` property.
pub open spec fn is_white(c: char) -> bool {
    ('\u{9}' <= c && c <= '\u{d}') || c == ' ' || c == '\u{85}' || c == '\u{a0}' || c
        == '\u{1680}' || ('\u{2000}' <= c && c <= '\u{200a}') || c == '\u{2028}' || c
        == '\u{2029}' || c == '\u{202f}' || c == '\u{205f}' || c == '\u{3000}'
}

pub open spec fn is_digit(c: char) -> bool {
    '0' <= c && c <= '9'
}

pub open spec fn digit_value(c: char) -> nat {
    (c as int - '0' as int) as nat
}

/// The base-10 value of a sequence of digits, most significant first.
pub open spec fn digits_value(s: Seq<char>) -> nat
    decreases s.len(),
{
    if s.len() == 0 {
        0
    } else {
        digits_value(s.drop_last()) * 10 + digit_value(s.last())
    }
}

/// The length of the run of digits that `s` starts with.
pub open spec fn digit_run(s: Seq<char>) -> nat
    decreases s.len(),
{
    if s.len() > 0 && is_digit(s[0]) {
        1 + digit_run(s.drop_first())
    } else {
        0
    }
}

/// `s` without its leading whitespace.
pub open spec fn skip_ws(s: Seq<char>) -> Seq<char>
    decreases s.len(),
{
    if s.len() > 0 && is_white(s[0]) {
        skip_ws(s.drop_first())
    } else {
        s
    }
}

/// The first token of `s`: `Ok(None)` when only whitespace is left.
pub open spec fn next_token(s: Seq<char>) -> Result<Option<Token>, ParseError> {
    let t = skip_ws(s);
    if t.len() == 0 {
        Ok(None)
    } else if symbol_token(t[0]) is Some {
        Ok(symbol_token(t[0]))
    } else if is_digit(t[0]) {
        let v = digits_value(t.take(digit_run(t) as int));
        if v <= usize::MAX {
            Ok(Some(Token::Number(v as usize)))
        } else {
            Err(ParseError::NumberOverflow)
        }
    } else {
        Err(ParseError::UnexpectedChar(t[0]))
    }
}

/// What remains of `s` once its first token has been read.
pub open spec fn after_token(s: Seq<char>) -> Seq<char> {
    let t = skip_ws(s);
    if t.len() == 0 {
        t
    } else if is_digit(t[0]) {
        t.skip(digit_run(t) as int)
    } else {
        t.drop_first()
    }
}

pub proof fn lemma_skip_ws_suffix(s: Seq<char>)
    ensures
        skip_ws(s).len() <= s.len(),
        skip_ws(s) == s.skip(s.len() - skip_ws(s).len()),
    decreases s.len(),
{
    if s.len() > 0 && is_white(s[0]) {
        lemma_skip_ws_suffix(s.drop_first());
        assert(s.drop_first().skip(s.drop_first().len() - skip_ws(s).len()) =~= s.skip(
            s.len() - skip_ws(s).len(),
        ));
    } else {
        assert(s.skip(0) =~= s);
    }
}

pub proof fn lemma_digit_run(s: Seq<char>)
    ensures
        digit_run(s) <= s.len(),
        forall|i: int| 0 <= i < digit_run(s) ==> is_digit(#[trigger] s[i]),
        digit_run(s) < s.len() ==> !is_digit(s[digit_run(s) as int]),
    decreases s.len(),
{
    if s.len() > 0 && is_digit(s[0]) {
        lemma_digit_run(s.drop_first());
        assert forall|i: int| 0 <= i < digit_run(s) implies is_digit(#[trigger] s[i]) by {
            if i > 0 {
                assert(s[i] == s.drop_first()[i - 1]);
            }
        }
    }
}

/// A run of `k` digits that ends at a non-digit or at the end is the whole run.
pub proof fn lemma_digit_run_exact(s: Seq<char>, k: int)
    requires
        0 <= k <= s.len(),
        forall|i: int| 0 <= i < k ==> is_digit(#[trigger] s[i]),
        k == s.len() || !is_digit(s[k]),
    ensures
        digit_run(s) == k,
    decreases k,
{
    if k > 0 {
        assert(is_digit(s[0]));
        assert forall|i: int| 0 <= i < k - 1 implies is_digit(#[trigger] s.drop_first()[i]) by {
            assert(s.drop_first()[i] == s[i + 1]);
        }
        if k < s.len() {
            assert(s.drop_first()[k - 1] == s[k]);
        }
        lemma_digit_run_exact(s.drop_first(), k - 1);
    }
}

/// A longer prefix of digits never has a smaller value.
pub proof fn lemma_digits_value_grows(s: Seq<char>, k: int, n: int)
    requires
        0 <= k <= n <= s.len(),
    ensures
        digits_value(s.take(k)) <= digits_value(s.take(n)),
    decreases n - k,
{
    if k < n {
        lemma_digits_value_grows(s, k, n - 1);
        assert(s.take(n).drop_last() =~= s.take(n - 1));
    }
}

pub proof fn lemma_after_token_shorter(s: Seq<char>)
    requires
        next_token(s) is Ok,
        next_token(s)->Ok_0 is Some,
    ensures
        after_token(s).len() < s.len(),
{
    lemma_skip_ws_suffix(s);
    let t = skip_ws(s);
    if is_digit(t[0]) {
        lemma_digit_run(t);
        assert(digit_run(t) >= 1) by {
            reveal_with_fuel(digit_run, 2);
        }
    }
}

/// Every token of `s` in order, or the first lexical error met.
pub open spec fn lex_all(s: Seq<char>) -> Result<Seq<Token>, ParseError>
    decreases s.len(),
{
    match next_token(s) {
        Err(e) => Err(e),
        Ok(None) => Ok(Seq::empty()),
        Ok(Some(t)) => {
            if after_token(s).len() < s.len() {
                match lex_all(after_token(s)) {
                    Ok(ts) => Ok(seq![t] + ts),
                    Err(e) => Err(e),
                }
            } else {
                Ok(seq![t])
            }
        },
    }
}

/// A digit run followed by a non-digit, or by the end, is read as exactly one
/// number token holding the run's base-10 value, or as an overflow error when
/// that value does not fit in a `usize`.
pub proof fn lemma_digit_run_token(digits: Seq<char>, rest: Seq<char>)
    requires
        digits.len() > 0,
        forall|i: int| 0 <= i < digits.len() ==> is_digit(#[trigger] digits[i]),
        rest.len() == 0 || !is_digit(rest[0]),
    ensures
        digits_value(digits) <= usize::MAX ==> next_token(digits + rest) == Ok::<
            Option<Token>,
            ParseError,
        >(Some(Token::Number(digits_value(digits) as usize))) && after_token(digits + rest)
            == rest,
        digits_value(digits) > usize::MAX ==> next_token(digits + rest) == Err::<
            Option<Token>,
            ParseError,
        >(ParseError::NumberOverflow),
{
    let s = digits + rest;
    assert(s[0] == digits[0]);
    assert(skip_ws(s) == s);
    let n = digits.len() as int;
    assert forall|i: int| 0 <= i < n implies is_digit(#[trigger] s[i]) by {
        assert(s[i] == digits[i]);
    }
    if n < s.len() {
        assert(s[n] == rest[0]);
    }
    lemma_digit_run_exact(s, n);
    assert(s.take(n) =~= digits);
    assert(s.skip(n) =~= rest);
}

/// Whether `c` has Unicode's `White_Space` property.
pub fn is_whitespace(c: char) -> (r: bool)
    ensures
        r == is_white(c),
{
    ('\u{9}' <= c && c <= '\u{d}') || c == ' ' || c == '\u{85}' || c == '\u{a0}' || c
        == '\u{1680}' || ('\u{2000}' <= c && c <= '\u{200a}') || c == '\u{2028}' || c
        == '\u{2029}' || c == '\u{202f}' || c == '\u{205f}' || c == '\u{3000}'
}

fn symbol(c: char) -> (r: Option<Token>)
    ensures
        r == symbol_token(c),
{
    match c {
        '+' => Some(Token::Add),
        '-' => Some(Token::Sub),
        '*' => Some(Token::Mul),
        '/' => Some(Token::Div),
        '(' => Some(Token::Lparen),
        ')' => Some(Token::Rparen),
        _ => None,
    }
}

fn digit_of(c: char) -> (r: usize)
    requires
        is_digit(c),
    ensures
        r == digit_value(c),
{
    (c as u32 - '0' as u32) as usize
}

/// Lexer state: the characters not yet read and the current lookahead token.
#[derive(Debug, PartialEq)]
pub struct Parser {
    pub chars: VecDeque<char>,
    pub look: Option<Token>,
}

impl Parser {
    /// A lexer over all characters of `text`, with no token read yet.
    pub fn new(text: &str) -> (r: Self)
        ensures
            r.chars@ == text@,
            r.look is None,
    {
        let n = text.unicode_len();
        let mut chars: VecDeque<char> = VecDeque::new();
        let mut i: usize = 0;
        while i < n
            invariant
                n == text@.len(),
                i <= n,
                chars@ == text@.take(i as int),
            decreases n - i,
        {
            chars.push_back(text.get_char(i));
            i += 1;
            assert(chars@ =~= text@.take(i as int));
        }
        assert(text@.take(n as int) =~= text@);
        Parser { chars, look: None }
    }

    /// Consumes leading whitespace and then the first other character, if any.
    fn next_without_whitespace(&mut self) -> (r: Option<char>)
        ensures
            final(self).look == old(self).look,
            skip_ws(old(self).chars@).len() == 0 ==> r is None && final(self).chars@.len() == 0,
            skip_ws(old(self).chars@).len() > 0 ==> r == Some(skip_ws(old(self).chars@)[0])
                && final(self).chars@ == skip_ws(old(self).chars@).drop_first(),
    {
        loop
            invariant
                self.look == old(self).look,
                skip_ws(self.chars@) == skip_ws(old(self).chars@),
            decreases self.chars@.len(),
        {
            let ghost before = self.chars@;
            match self.chars.pop_front() {
                None => {
                    return None;
                },
                Some(c) => {
                    assert(before.drop_first() == self.chars@);
                    if !is_whitespace(c) {
                        return Some(c);
                    }
                },
            }
        }
    }

    /// Reads the next token from the remaining characters.
    fn next(&mut self) -> (r: Result<Option<Token>, ParseError>)
        ensures
            final(self).look == old(self).look,
            r == next_token(old(self).chars@),
            r is Ok ==> final(self).chars@ == after_token(old(self).chars@),
    {
        let ghost t = skip_ws(self.chars@);
        let first = self.next_without_whitespace();
        let c = match first {
            None => {
                return Ok(None);
            },
            Some(c) => c,
        };
        if let Some(tok) = symbol(c) {
            return Ok(Some(tok));
        }
        if !('0' <= c && c <= '9') {
            return Err(ParseError::UnexpectedChar(c));
        }
        let mut value: usize = digit_of(c);
        let ghost mut k: int = 1;
        proof {
            assert(t.take(1).drop_last() =~= t.take(0));
            assert(t.take(1).last() == c);
            assert(digits_value(t.take(0)) == 0);
            assert(self.chars@ =~= t.skip(1));
        }
        loop
            invariant
                self.look == old(self).look,
                t == skip_ws(old(self).chars@),
                1 <= k <= t.len(),
                forall|i: int| 0 <= i < k ==> is_digit(#[trigger] t[i]),
                self.chars@ == t.skip(k),
                value == digits_value(t.take(k)),
            decreases self.chars@.len(),
        {
            if self.chars.len() == 0 || !('0' <= self.chars[0] && self.chars[0] <= '9') {
                proof {
                    if k < t.len() {
                        assert(t[k] == self.chars@[0]);
                    }
                    lemma_digit_run_exact(t, k);
                }
                return Ok(Some(Token::Number(value)));
            }
            let ghost before = self.chars@;
            let d = digit_of(self.chars[0]);
            self.chars.pop_front();
            proof {
                assert(t[k] == before[0]);
                assert(t.take(k + 1).drop_last() =~= t.take(k));
                assert(self.chars@ =~= t.skip(k + 1));
            }
            if value > (usize::MAX - d) / 10 {
                proof {
                    assert(value * 10 + d > usize::MAX) by (nonlinear_arith)
                        requires
                            value > (usize::MAX - d) / 10,
                            d <= 9,
                    ;
                    lemma_digit_run(t);
                    assert forall|i: int| 0 <= i < k + 1 implies is_digit(#[trigger] t[i]) by {}
                    if digit_run(t) < k + 1 {
                        assert(is_digit(t[digit_run(t) as int]));
                    }
                    lemma_digits_value_grows(t, k + 1, digit_run(t) as int);
                }
                return Err(ParseError::NumberOverflow);
            }
            assert(value * 10 + d <= usize::MAX) by (nonlinear_arith)
                requires
                    value <= (usize::MAX - d) / 10,
                    d <= 9,
            ;
            value = value * 10 + d;
            proof {
                k = k + 1;
            }
        }
    }

    /// Advances the lookahead to the next token and returns it; `Ok(None)`
    /// once only whitespace is left.
    pub fn scan(&mut self) -> (r: Result<Option<Token>, ParseError>)
        ensures
            r == next_token(old(self).chars@),
            r is Ok ==> final(self).look == r->Ok_0 && final(self).chars@ == after_token(
                old(self).chars@,
            ),
            r is Err ==> final(self).look is None,
    {
        match self.next() {
            Ok(t) => {
                self.look = t;
                Ok(t)
            },
            Err(e) => {
                self.look = None;
                Err(e)
            },
        }
    }
}

} // verus!
