use arith_parser::ast::{Node, Operator};
use arith_parser::lexer::{ParseError, Token};
use arith_parser::parser::{parse, tokenize};

fn leaf(v: usize) -> Node {
    Node::Leaf(v)
}

fn bin(op: Operator, l: Node, r: Node) -> Node {
    Node::Binary(op, Box::new(l), Box::new(r))
}

#[test]
fn tree_node_one_add_test() {
    let node = parse("1+2").unwrap().unwrap();
    assert_eq!(bin(Operator::Add, leaf(1), leaf(2)), node);
}

#[test]
fn tree_node_one_multiple_test() {
    let node = parse("1*2").unwrap().unwrap();
    assert_eq!(bin(Operator::Mul, leaf(1), leaf(2)), node);
}

#[test]
fn tree_node_one_divisor_test() {
    let node = parse("1/2").unwrap().unwrap();
    assert_eq!(bin(Operator::Div, leaf(1), leaf(2)), node);
}

#[test]
fn tree_node_add_and_multiple_test() {
    let node = parse("(1+2)*3").unwrap().unwrap();
    assert_eq!(
        bin(Operator::Mul, bin(Operator::Add, leaf(1), leaf(2)), leaf(3)),
        node
    );
}

#[test]
fn tree_node_add_deep_test() {
    let node = parse("1+2+3+4").unwrap().unwrap();
    assert_eq!(
        bin(
            Operator::Add,
            bin(Operator::Add, bin(Operator::Add, leaf(1), leaf(2)), leaf(3)),
            leaf(4)
        ),
        node
    );
}

#[test]
fn tree_node_add_and_parens_test() {
    let node = parse("(1+2)+(3+4)").unwrap().unwrap();
    assert_eq!(
        bin(
            Operator::Add,
            bin(Operator::Add, leaf(1), leaf(2)),
            bin(Operator::Add, leaf(3), leaf(4))
        ),
        node
    );
}

#[test]
fn next_without_whitespace_test_1() {
    let node = parse("   1").unwrap().unwrap();
    assert_eq!(leaf(1), node);
}

#[test]
fn next_without_whitespace_test_2() {
    let node = parse("  2  ").unwrap().unwrap();
    assert_eq!(leaf(2), node);
}

#[test]
fn next_without_whitespace_test_3() {
    let node = parse("    ");
    assert!(node.unwrap().is_none());
}

#[test]
fn skip_whitespace_test() {
    let node = parse(" 1 + 2  ").unwrap().unwrap();
    assert_eq!(bin(Operator::Add, leaf(1), leaf(2)), node);
}

#[test]
fn nums_test() {
    let node = parse("11").unwrap().unwrap();
    assert_eq!(leaf(11), node);
}

#[test]
fn precedence_mul_binds_tighter() {
    let node = parse("1+2*3").unwrap().unwrap();
    assert_eq!(
        bin(Operator::Add, leaf(1), bin(Operator::Mul, leaf(2), leaf(3))),
        node
    );
}

#[test]
fn subtraction_and_division_are_left_associative() {
    let node = parse("8-4-2").unwrap().unwrap();
    assert_eq!(
        bin(Operator::Sub, bin(Operator::Sub, leaf(8), leaf(4)), leaf(2)),
        node
    );
    let node = parse("8/4/2").unwrap().unwrap();
    assert_eq!(
        bin(Operator::Div, bin(Operator::Div, leaf(8), leaf(4)), leaf(2)),
        node
    );
}

#[test]
fn whitespace_does_not_change_tree() {
    assert_eq!(parse(" 1 + 2 "), parse("1+2"));
    assert!(parse("1+2").unwrap().is_some());
}

#[test]
fn empty_input_gives_no_tree() {
    assert_eq!(parse(""), Ok(None));
    assert_eq!(parse(" \t\n "), Ok(None));
}

#[test]
fn malformed_inputs_are_errors() {
    assert_eq!(parse("("), Err(ParseError::MissingOperand));
    assert_eq!(parse("1+"), Err(ParseError::MissingOperand));
    assert_eq!(parse(")1"), Err(ParseError::MissingOperand));
    assert_eq!(parse("1@2"), Err(ParseError::UnexpectedChar('@')));
}

#[test]
fn unbalanced_paren_error() {
    assert_eq!(parse("(1+2"), Err(ParseError::UnbalancedParen));
    assert_eq!(parse("(1 2)"), Err(ParseError::UnbalancedParen));
}

#[test]
fn trailing_input_error() {
    assert_eq!(parse("1+2)"), Err(ParseError::TrailingInput));
    assert_eq!(parse("1 2"), Err(ParseError::TrailingInput));
}

#[test]
fn overflow_error() {
    assert_eq!(parse("1+99999999999999999999"), Err(ParseError::NumberOverflow));
}

#[test]
fn lexical_error_reported_before_syntax_error() {
    assert_eq!(parse(")#"), Err(ParseError::UnexpectedChar('#')));
}

#[test]
fn tokenize_lists_tokens() {
    assert_eq!(
        tokenize(" 12*(3-45) "),
        Ok(vec![
            Token::Number(12),
            Token::Mul,
            Token::Lparen,
            Token::Number(3),
            Token::Sub,
            Token::Number(45),
            Token::Rparen
        ])
    );
    assert_eq!(tokenize("  "), Ok(vec![]));
}

#[test]
fn node_builders() {
    assert_eq!(Node::create_node(9), leaf(9));
    assert_eq!(
        Node::add_children(Operator::Sub, leaf(1), leaf(2)),
        bin(Operator::Sub, leaf(1), leaf(2))
    );
}

#[test]
fn expr_term_factor_positions() {
    let ts = tokenize("2*3+4").unwrap();
    assert_eq!(
        Node::expr(&ts, 0),
        Ok((bin(Operator::Add, bin(Operator::Mul, leaf(2), leaf(3)), leaf(4)), 5))
    );
    assert_eq!(Node::term(&ts, 0), Ok((bin(Operator::Mul, leaf(2), leaf(3)), 3)));
    assert_eq!(Node::factor(&ts, 4), Ok((leaf(4), 5)));
    assert_eq!(Node::factor(&ts, 5), Err(ParseError::MissingOperand));
}

#[test]
fn render_operator_tree() {
    let node = parse("(1+2)*30").unwrap().unwrap();
    assert_eq!(node.render(), "(Mul(Add  1  2)  30)");
}

#[test]
fn render_deep_left_chain() {
    let node = parse("1+2+3+4").unwrap().unwrap();
    assert_eq!(node.render(), "(Add(Add(Add  1  2)  3)  4)");
}

#[test]
fn render_lone_leaf() {
    assert_eq!(Node::Leaf(1234567890).render(), "(Number(1234567890))");
    assert_eq!(Node::Leaf(0).render(), "(Number(0))");
}

#[test]
fn render_twice_is_identical() {
    let node = parse("7 / (8 - 9) * 10").unwrap().unwrap();
    let first = node.render();
    let second = node.render();
    assert_eq!(first.as_bytes(), second.as_bytes());
    assert_eq!(first, "(Mul(Div  7(Sub  8  9))  10)");
}

#[test]
fn tree_keeps_numbers_in_order() {
    fn collect(n: &Node, out: &mut Vec<usize>) {
        match n {
            Node::Leaf(v) => out.push(*v),
            Node::Binary(_, l, r) => {
                collect(l, out);
                collect(r, out);
            }
        }
    }
    let node = parse("(12 + 3) * 45 - 6 / (78 + 9)").unwrap().unwrap();
    let mut vals = Vec::new();
    collect(&node, &mut vals);
    assert_eq!(vals, vec![12, 3, 45, 6, 78, 9]);
}
