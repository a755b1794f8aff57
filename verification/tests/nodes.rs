use alc_lisp::lexer::{Token, TokenPosition, TokenType};
use alc_lisp::node::Node;

fn tok(value: &str, token_type: TokenType) -> Token {
    Token {
        value: value.to_string(),
        token_type,
        start: TokenPosition { line: 0, col: 0 },
        end: TokenPosition { line: 0, col: 0 },
    }
}

fn word(value: &str) -> Node {
    Node::Word(tok(value, TokenType::Word))
}

fn number(value: &str) -> Node {
    Node::NumberLiteral(tok(value, TokenType::NumberLiteral))
}

fn boolean(value: &str) -> Node {
    Node::BooleanLiteral(tok(value, TokenType::Word))
}

#[test]
fn build_fn() {
    let some_fn = Node::FunctionLiteral {
        token: tok("fn", TokenType::Word),
        arguments: vec![word("hello")],
        body: Box::new(Node::Expression(vec![word("+"), number("1"), number("2")])),
    };

    let expected_fn = Node::FunctionLiteral {
        token: tok("fn", TokenType::Word),
        arguments: vec![word("hello")],
        body: Box::new(Node::Expression(vec![word("+"), number("1"), number("2")])),
    };

    assert!(
        some_fn.equals(&expected_fn),
        "node resulted from the macro is not the same as the expected result"
    );
}

#[test]
fn build_expr() {
    let some_expr = Node::Expression(vec![
        Node::Expression(vec![word("+"), number("1"), number("1")]),
        Node::Expression(vec![word("=="), boolean("true"), boolean("false")]),
    ]);

    let expected_expr = Node::Expression(vec![
        Node::Expression(vec![word("+"), number("1"), number("1")]),
        Node::Expression(vec![word("=="), boolean("true"), boolean("false")]),
    ]);

    assert!(
        some_expr.equals(&expected_expr),
        "node resulted from the macro is not the same as the expected result"
    );
}
