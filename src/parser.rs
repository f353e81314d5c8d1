use crate::ast::{Node, Operator};
use crate::lexer::{
    lemma_after_token_shorter, lex_all, next_token, skip_ws, ParseError, Parser, Token,
};
use vstd::prelude::*;

verus! {

/// The operator of a `+` or `-` token.
pub open spec fn additive(t: Token) -> Option<Operator> {
    match t {
        Token::Add => Some(Operator::Add),
        Token::Sub => Some(Operator::Sub),
        _ => None,
    }
}

/// The operator of a `*` or `/` token.
pub open spec fn multiplicative(t: Token) -> Option<Operator> {
    match t {
        Token::Mul => Some(Operator::Mul),
        Token::Div => Some(Operator::Div),
        _ => None,
    }
}

/// `factor -> number | '(' expr ')'`, read from position `i` of `ts`: the tree
/// and the position after it.
pub open spec fn spec_factor(ts: Seq<Token>, i: int) -> Result<(Node, int), ParseError>
    decreases ts.len() - i, 0int,
{
    if i < 0 || i >= ts.len() {
        Err(ParseError::MissingOperand)
    } else {
        match ts[i] {
            Token::Number(v) => Ok((Node::Leaf(v), i + 1)),
            Token::Lparen => match spec_expr(ts, i + 1) {
                Err(e) => Err(e),
                Ok((n, j)) => {
                    if 0 <= j < ts.len() && ts[j] == Token::Rparen {
                        Ok((n, j + 1))
                    } else {
                        Err(ParseError::UnbalancedParen)
                    }
                },
            },
            _ => Err(ParseError::MissingOperand),
        }
    }
}

/// The `(('*'|'/') factor)*` tail of a term whose operands so far make `left`,
/// read from position `j`.
pub open spec fn term_rest(ts: Seq<Token>, left: Node, j: int) -> Result<(Node, int), ParseError>
    decreases ts.len() - j, 1int,
{
    if 0 <= j < ts.len() && multiplicative(ts[j]) is Some {
        match spec_factor(ts, j + 1) {
            Err(e) => Err(e),
            Ok((right, k)) => {
                let n = Node::Binary(multiplicative(ts[j])->0, Box::new(left), Box::new(right));
                if j < k <= ts.len() {
                    term_rest(ts, n, k)
                } else {
                    Ok((n, k))
                }
            },
        }
    } else {
        Ok((left, j))
    }
}

/// `term -> factor (('*'|'/') factor)*`, read from position `i`.
pub open spec fn spec_term(ts: Seq<Token>, i: int) -> Result<(Node, int), ParseError>
    decreases ts.len() - i, 2int,
{
    match spec_factor(ts, i) {
        Err(e) => Err(e),
        Ok((n, j)) => {
            if 0 <= i < j <= ts.len() {
                term_rest(ts, n, j)
            } else {
                Ok((n, j))
            }
        },
    }
}

/// The `(('+'|'-') term)*` tail of an expression whose operands so far make
/// `left`, read from position `j`.
pub open spec fn expr_rest(ts: Seq<Token>, left: Node, j: int) -> Result<(Node, int), ParseError>
    decreases ts.len() - j, 3int,
{
    if 0 <= j < ts.len() && additive(ts[j]) is Some {
        match spec_term(ts, j + 1) {
            Err(e) => Err(e),
            Ok((right, k)) => {
                let n = Node::Binary(additive(ts[j])->0, Box::new(left), Box::new(right));
                if j < k <= ts.len() {
                    expr_rest(ts, n, k)
                } else {
                    Ok((n, k))
                }
            },
        }
    } else {
        Ok((left, j))
    }
}

/// `expr -> term (('+'|'-') term)*`, read from position `i`.
pub open spec fn spec_expr(ts: Seq<Token>, i: int) -> Result<(Node, int), ParseError>
    decreases ts.len() - i, 4int,
{
    match spec_term(ts, i) {
        Err(e) => Err(e),
        Ok((n, j)) => {
            if 0 <= i < j <= ts.len() {
                expr_rest(ts, n, j)
            } else {
                Ok((n, j))
            }
        },
    }
}

/// The tree of a whole token sequence: `None` for no tokens, an error when
/// the tokens do not form one expression.
pub open spec fn parse_tokens(ts: Seq<Token>) -> Result<Option<Node>, ParseError> {
    if ts.len() == 0 {
        Ok(None)
    } else {
        match spec_expr(ts, 0) {
            Err(e) => Err(e),
            Ok((n, j)) => {
                if j == ts.len() {
                    Ok(Some(n))
                } else {
                    Err(ParseError::TrailingInput)
                }
            },
        }
    }
}

/// The tree of a whole input text; lexical errors come first.
pub open spec fn parse_text(s: Seq<char>) -> Result<Option<Node>, ParseError> {
    match lex_all(s) {
        Err(e) => Err(e),
        Ok(ts) => parse_tokens(ts),
    }
}

/// The values of the leaves of `n`, left to right.
pub open spec fn leaves(n: Node) -> Seq<usize>
    decreases n,
{
    match n {
        Node::Leaf(v) => seq![v],
        Node::Binary(_, l, r) => leaves(*l) + leaves(*r),
    }
}

/// The values of the number tokens of `ts`, in order.
pub open spec fn numbers(ts: Seq<Token>) -> Seq<usize>
    decreases ts.len(),
{
    if ts.len() == 0 {
        Seq::empty()
    } else {
        let head = match ts[0] {
            Token::Number(v) => seq![v],
            _ => Seq::empty(),
        };
        head + numbers(ts.drop_first())
    }
}

proof fn lemma_numbers_concat(a: Seq<Token>, b: Seq<Token>)
    ensures
        numbers(a + b) == numbers(a) + numbers(b),
    decreases a.len(),
{
    if a.len() == 0 {
        assert(a + b =~= b);
        assert(numbers(a) + numbers(b) =~= numbers(b));
    } else {
        lemma_numbers_concat(a.drop_first(), b);
        assert((a + b).drop_first() =~= a.drop_first() + b);
        assert((a + b)[0] == a[0]);
        let head = match a[0] {
            Token::Number(v) => seq![v],
            _ => Seq::<usize>::empty(),
        };
        assert(head + (numbers(a.drop_first()) + numbers(b)) =~= (head + numbers(a.drop_first()))
            + numbers(b));
    }
}

proof fn lemma_numbers_split(ts: Seq<Token>, a: int, b: int, c: int)
    requires
        0 <= a <= b <= c <= ts.len(),
    ensures
        numbers(ts.subrange(a, c)) == numbers(ts.subrange(a, b)) + numbers(ts.subrange(b, c)),
{
    assert(ts.subrange(a, c) =~= ts.subrange(a, b) + ts.subrange(b, c));
    lemma_numbers_concat(ts.subrange(a, b), ts.subrange(b, c));
}

proof fn lemma_numbers_one(ts: Seq<Token>, j: int)
    requires
        0 <= j < ts.len(),
    ensures
        numbers(ts.subrange(j, j + 1)) == (match ts[j] {
            Token::Number(v) => seq![v],
            _ => Seq::<usize>::empty(),
        }),
{
    let x = ts.subrange(j, j + 1);
    assert(x[0] == ts[j]);
    assert(numbers(x.drop_first()) == Seq::<usize>::empty());
    assert(numbers(x) =~= (match ts[j] {
        Token::Number(v) => seq![v],
        _ => Seq::<usize>::empty(),
    }));
}

proof fn lemma_numbers_empty(ts: Seq<Token>, j: int)
    requires
        0 <= j <= ts.len(),
    ensures
        numbers(ts.subrange(j, j)) == Seq::<usize>::empty(),
{
    assert(ts.subrange(j, j).len() == 0);
}

proof fn lemma_factor_leaves(ts: Seq<Token>, i: int)
    requires
        0 <= i <= ts.len(),
    ensures
        spec_factor(ts, i) is Ok ==> ({
            let (n, j) = spec_factor(ts, i)->Ok_0;
            i < j <= ts.len() && leaves(n) == numbers(ts.subrange(i, j))
        }),
    decreases ts.len() - i, 0int,
{
    if i < ts.len() {
        match ts[i] {
            Token::Number(v) => {
                lemma_numbers_one(ts, i);
            },
            Token::Lparen => {
                lemma_expr_leaves(ts, i + 1);
                if let Ok((n, j)) = spec_expr(ts, i + 1) {
                    if j < ts.len() && ts[j] == Token::Rparen {
                        lemma_numbers_split(ts, i, i + 1, j + 1);
                        lemma_numbers_split(ts, i + 1, j, j + 1);
                        lemma_numbers_one(ts, i);
                        lemma_numbers_one(ts, j);
                        assert(numbers(ts.subrange(i, j + 1)) =~= numbers(ts.subrange(i + 1, j)));
                    }
                }
            },
            _ => {},
        }
    }
}

proof fn lemma_term_rest_leaves(ts: Seq<Token>, left: Node, j: int)
    requires
        0 <= j <= ts.len(),
    ensures
        term_rest(ts, left, j) is Ok ==> ({
            let (n, k) = term_rest(ts, left, j)->Ok_0;
            j <= k <= ts.len() && leaves(n) == leaves(left) + numbers(ts.subrange(j, k))
        }),
    decreases ts.len() - j, 1int,
{
    if j < ts.len() && multiplicative(ts[j]) is Some {
        lemma_factor_leaves(ts, j + 1);
        if let Ok((right, k)) = spec_factor(ts, j + 1) {
            let n = Node::Binary(multiplicative(ts[j])->0, Box::new(left), Box::new(right));
            lemma_term_rest_leaves(ts, n, k);
            if let Ok((m, e)) = term_rest(ts, n, k) {
                lemma_numbers_split(ts, j, j + 1, e);
                lemma_numbers_split(ts, j + 1, k, e);
                lemma_numbers_one(ts, j);
                assert(leaves(m) =~= leaves(left) + numbers(ts.subrange(j, e)));
            }
        }
    } else {
        lemma_numbers_empty(ts, j);
        assert(leaves(left) + Seq::<usize>::empty() =~= leaves(left));
    }
}

proof fn lemma_term_leaves(ts: Seq<Token>, i: int)
    requires
        0 <= i <= ts.len(),
    ensures
        spec_term(ts, i) is Ok ==> ({
            let (n, j) = spec_term(ts, i)->Ok_0;
            i < j <= ts.len() && leaves(n) == numbers(ts.subrange(i, j))
        }),
    decreases ts.len() - i, 2int,
{
    lemma_factor_leaves(ts, i);
    if let Ok((n, j)) = spec_factor(ts, i) {
        lemma_term_rest_leaves(ts, n, j);
        if let Ok((m, k)) = term_rest(ts, n, j) {
            lemma_numbers_split(ts, i, j, k);
        }
    }
}

proof fn lemma_expr_rest_leaves(ts: Seq<Token>, left: Node, j: int)
    requires
        0 <= j <= ts.len(),
    ensures
        expr_rest(ts, left, j) is Ok ==> ({
            let (n, k) = expr_rest(ts, left, j)->Ok_0;
            j <= k <= ts.len() && leaves(n) == leaves(left) + numbers(ts.subrange(j, k))
        }),
    decreases ts.len() - j, 3int,
{
    if j < ts.len() && additive(ts[j]) is Some {
        lemma_term_leaves(ts, j + 1);
        if let Ok((right, k)) = spec_term(ts, j + 1) {
            let n = Node::Binary(additive(ts[j])->0, Box::new(left), Box::new(right));
            lemma_expr_rest_leaves(ts, n, k);
            if let Ok((m, e)) = expr_rest(ts, n, k) {
                lemma_numbers_split(ts, j, j + 1, e);
                lemma_numbers_split(ts, j + 1, k, e);
                lemma_numbers_one(ts, j);
                assert(leaves(m) =~= leaves(left) + numbers(ts.subrange(j, e)));
            }
        }
    } else {
        lemma_numbers_empty(ts, j);
        assert(leaves(left) + Seq::<usize>::empty() =~= leaves(left));
    }
}

proof fn lemma_expr_leaves(ts: Seq<Token>, i: int)
    requires
        0 <= i <= ts.len(),
    ensures
        spec_expr(ts, i) is Ok ==> ({
            let (n, j) = spec_expr(ts, i)->Ok_0;
            i < j <= ts.len() && leaves(n) == numbers(ts.subrange(i, j))
        }),
    decreases ts.len() - i, 4int,
{
    lemma_term_leaves(ts, i);
    if let Ok((n, j)) = spec_term(ts, i) {
        lemma_expr_rest_leaves(ts, n, j);
        if let Ok((m, k)) = expr_rest(ts, n, j) {
            lemma_numbers_split(ts, i, j, k);
        }
    }
}

/// A tree parsed from a text holds, left to right, exactly the numbers written
/// in that text: the same values in the same order, and so the same multiset.
pub proof fn lemma_parse_keeps_numbers(s: Seq<char>)
    requires
        parse_text(s) is Ok,
        parse_text(s)->Ok_0 is Some,
    ensures
        lex_all(s) is Ok,
        leaves(parse_text(s)->Ok_0->Some_0) == numbers(lex_all(s)->Ok_0),
        leaves(parse_text(s)->Ok_0->Some_0).to_multiset() == numbers(
            lex_all(s)->Ok_0,
        ).to_multiset(),
{
    let ts = lex_all(s)->Ok_0;
    lemma_expr_leaves(ts, 0);
    assert(ts.subrange(0, ts.len() as int) =~= ts);
}

/// Input that is empty or only whitespace parses to no tree and no error; any
/// other input parses to a tree or to an error.
pub proof fn lemma_blank_input(s: Seq<char>)
    ensures
        parse_text(s) == Ok::<Option<Node>, ParseError>(None) <==> skip_ws(s).len() == 0,
{
    if skip_ws(s).len() > 0 {
        if next_token(s) is Ok {
            lemma_after_token_shorter(s);
        }
    }
}

/// The token of an operator.
pub open spec fn op_token(op: Operator) -> Token {
    match op {
        Operator::Add => Token::Add,
        Operator::Sub => Token::Sub,
        Operator::Mul => Token::Mul,
        Operator::Div => Token::Div,
    }
}

/// `n` written out as tokens with every operator node in parentheses.
pub open spec fn parenthesized(n: Node) -> Seq<Token>
    decreases n,
{
    match n {
        Node::Leaf(v) => seq![Token::Number(v)],
        Node::Binary(op, l, r) => seq![Token::Lparen] + parenthesized(*l) + seq![op_token(op)]
            + parenthesized(*r) + seq![Token::Rparen],
    }
}

proof fn lemma_parenthesized_nonempty(n: Node)
    ensures
        parenthesized(n).len() >= 1,
    decreases n,
{
}

/// A factor written out in full at position `i` is read back whole.
proof fn lemma_factor_parenthesized(ts: Seq<Token>, i: int, n: Node)
    requires
        0 <= i,
        i + parenthesized(n).len() <= ts.len(),
        ts.subrange(i, i + parenthesized(n).len()) == parenthesized(n),
    ensures
        spec_factor(ts, i) == Ok::<(Node, int), ParseError>((n, i + parenthesized(n).len())),
    decreases n,
{
    let p = parenthesized(n);
    assert(ts[i] == p[0]);
    match n {
        Node::Leaf(v) => {},
        Node::Binary(op, lb, rb) => {
            let l = *lb;
            let r = *rb;
            let pl = parenthesized(l);
            let pr = parenthesized(r);
            let a = i + 1;
            let opos = a + pl.len();
            let b = opos + 1;
            let cpos = b + pr.len();
            assert(p.len() == pl.len() + pr.len() + 3);
            assert(ts.subrange(a, opos) =~= pl) by {
                assert forall|k: int| 0 <= k < pl.len() implies ts.subrange(a, opos)[k] == pl[k] by {
                    assert(ts[a + k] == p[1 + k]);
                }
            }
            assert(ts.subrange(b, cpos) =~= pr) by {
                assert forall|k: int| 0 <= k < pr.len() implies ts.subrange(b, cpos)[k] == pr[k] by {
                    assert(ts[b + k] == p[2 + pl.len() + k]);
                }
            }
            assert(ts[opos] == p[opos - i]);
            assert(ts[cpos] == p[cpos - i]);
            assert(ts[opos] == op_token(op));
            assert(ts[cpos] == Token::Rparen);
            lemma_factor_parenthesized(ts, a, l);
            lemma_factor_parenthesized(ts, b, r);
            lemma_parenthesized_nonempty(l);
            lemma_parenthesized_nonempty(r);
            let whole = Node::Binary(op, Box::new(l), Box::new(r));
            assert(whole == n);
            assert(term_rest(ts, r, cpos) == Ok::<(Node, int), ParseError>((r, cpos)));
            assert(spec_term(ts, b) == Ok::<(Node, int), ParseError>((r, cpos)));
            assert(term_rest(ts, whole, cpos) == Ok::<(Node, int), ParseError>((whole, cpos)));
            assert(expr_rest(ts, whole, cpos) == Ok::<(Node, int), ParseError>((whole, cpos)));
            if multiplicative(op_token(op)) is Some {
                assert(term_rest(ts, l, opos) == Ok::<(Node, int), ParseError>((whole, cpos)));
            } else {
                assert(term_rest(ts, l, opos) == Ok::<(Node, int), ParseError>((l, opos)));
                assert(expr_rest(ts, l, opos) == Ok::<(Node, int), ParseError>((whole, cpos)));
            }
            assert(spec_expr(ts, a) == Ok::<(Node, int), ParseError>((whole, cpos)));
        },
    }
}

/// Every tree is read back from its fully parenthesised token sequence, and
/// from any text that lexes to it: the parse does not fail and gives the same
/// tree.
pub proof fn lemma_parenthesized_round_trip(n: Node)
    ensures
        parse_tokens(parenthesized(n)) == Ok::<Option<Node>, ParseError>(Some(n)),
        forall|s: Seq<char>|
            lex_all(s) == Ok::<Seq<Token>, ParseError>(parenthesized(n)) ==> #[trigger] parse_text(
                s,
            ) == Ok::<Option<Node>, ParseError>(Some(n)),
{
    let ts = parenthesized(n);
    let len = ts.len() as int;
    lemma_parenthesized_nonempty(n);
    assert(ts.subrange(0, len) =~= ts);
    lemma_factor_parenthesized(ts, 0, n);
    assert(term_rest(ts, n, len) == Ok::<(Node, int), ParseError>((n, len)));
    assert(expr_rest(ts, n, len) == Ok::<(Node, int), ParseError>((n, len)));
}

/// A parse result with its position as a mathematical integer.
pub open spec fn at_int(r: Result<(Node, usize), ParseError>) -> Result<(Node, int), ParseError> {
    match r {
        Ok((n, j)) => Ok((n, j as int)),
        Err(e) => Err(e),
    }
}

fn additive_op(t: Token) -> (r: Option<Operator>)
    ensures
        r == additive(t),
{
    match t {
        Token::Add => Some(Operator::Add),
        Token::Sub => Some(Operator::Sub),
        _ => None,
    }
}

fn multiplicative_op(t: Token) -> (r: Option<Operator>)
    ensures
        r == multiplicative(t),
{
    match t {
        Token::Mul => Some(Operator::Mul),
        Token::Div => Some(Operator::Div),
        _ => None,
    }
}

impl Node {
    /// Parses an expression starting at position `i` of `ts`.
    pub fn expr(ts: &Vec<Token>, i: usize) -> (r: Result<(Node, usize), ParseError>)
        requires
            i <= ts.len(),
        ensures
            at_int(r) == spec_expr(ts@, i as int),
            r is Ok ==> i < r->Ok_0.1 <= ts.len(),
        decreases ts.len() - i, 4int,
    {
        let (mut left, mut j) = match Node::term(ts, i) {
            Ok(p) => p,
            Err(e) => {
                return Err(e);
            },
        };
        loop
            invariant
                i < j <= ts.len(),
                expr_rest(ts@, left, j as int) == spec_expr(ts@, i as int),
            decreases ts.len() - j,
        {
            if j < ts.len() {
                if let Some(op) = additive_op(ts[j]) {
                    match Node::term(ts, j + 1) {
                        Err(e) => {
                            return Err(e);
                        },
                        Ok((right, k)) => {
                            left = Node::add_children(op, left, right);
                            j = k;
                        },
                    }
                    continue ;
                }
            }
            return Ok((left, j));
        }
    }

    /// Parses a term starting at position `i` of `ts`.
    pub fn term(ts: &Vec<Token>, i: usize) -> (r: Result<(Node, usize), ParseError>)
        requires
            i <= ts.len(),
        ensures
            at_int(r) == spec_term(ts@, i as int),
            r is Ok ==> i < r->Ok_0.1 <= ts.len(),
        decreases ts.len() - i, 2int,
    {
        let (mut left, mut j) = match Node::factor(ts, i) {
            Ok(p) => p,
            Err(e) => {
                return Err(e);
            },
        };
        loop
            invariant
                i < j <= ts.len(),
                term_rest(ts@, left, j as int) == spec_term(ts@, i as int),
            decreases ts.len() - j,
        {
            if j < ts.len() {
                if let Some(op) = multiplicative_op(ts[j]) {
                    match Node::factor(ts, j + 1) {
                        Err(e) => {
                            return Err(e);
                        },
                        Ok((right, k)) => {
                            left = Node::add_children(op, left, right);
                            j = k;
                        },
                    }
                    continue ;
                }
            }
            return Ok((left, j));
        }
    }

    /// Parses a factor (a number or a parenthesised expression) starting at
    /// position `i` of `ts`.
    pub fn factor(ts: &Vec<Token>, i: usize) -> (r: Result<(Node, usize), ParseError>)
        requires
            i <= ts.len(),
        ensures
            at_int(r) == spec_factor(ts@, i as int),
            r is Ok ==> i < r->Ok_0.1 <= ts.len(),
        decreases ts.len() - i, 0int,
    {
        if i >= ts.len() {
            return Err(ParseError::MissingOperand);
        }
        match ts[i] {
            Token::Number(v) => Ok((Node::create_node(v), i + 1)),
            Token::Lparen => {
                let (node, j) = match Node::expr(ts, i + 1) {
                    Ok(p) => p,
                    Err(e) => {
                        return Err(e);
                    },
                };
                if j < ts.len() && ts[j] == Token::Rparen {
                    Ok((node, j + 1))
                } else {
                    Err(ParseError::UnbalancedParen)
                }
            },
            _ => Err(ParseError::MissingOperand),
        }
    }
}

/// Every token of `text`, in order, or the first lexical error.
pub fn tokenize(text: &str) -> (r: Result<Vec<Token>, ParseError>)
    ensures
        r is Ok <==> lex_all(text@) is Ok,
        r is Ok ==> r->Ok_0@ == lex_all(text@)->Ok_0,
        r is Err ==> lex_all(text@) == Err::<Seq<Token>, ParseError>(r->Err_0),
{
    let mut p = Parser::new(text);
    let mut ts: Vec<Token> = Vec::new();
    loop
        invariant
            lex_all(text@) == (match lex_all(p.chars@) {
                Ok(rest) => Ok(ts@ + rest),
                Err(e) => Err(e),
            }),
        decreases p.chars@.len(),
    {
        let ghost before = p.chars@;
        match p.scan() {
            Err(e) => {
                return Err(e);
            },
            Ok(None) => {
                assert(ts@ + Seq::<Token>::empty() =~= ts@);
                return Ok(ts);
            },
            Ok(Some(t)) => {
                proof {
                    lemma_after_token_shorter(before);
                    match lex_all(p.chars@) {
                        Ok(rest) => {
                            assert(ts@.push(t) + rest =~= ts@ + (seq![t] + rest));
                        },
                        Err(e) => {},
                    }
                }
                ts.push(t);
            },
        }
    }
}

/// Parses a whole expression. `Ok(None)` when the text holds only whitespace.
pub fn parse(text: &str) -> (r: Result<Option<Node>, ParseError>)
    ensures
        r == parse_text(text@),
{
    let ts = match tokenize(text) {
        Ok(ts) => ts,
        Err(e) => {
            return Err(e);
        },
    };
    if ts.len() == 0 {
        return Ok(None);
    }
    match Node::expr(&ts, 0) {
        Err(e) => Err(e),
        Ok((n, j)) => {
            if j == ts.len() {
                Ok(Some(n))
            } else {
                Err(ParseError::TrailingInput)
            }
        },
    }
}

} // verus!
