use alc_lisp::ast::{ParseError, AST};
use alc_lisp::lexer::{Lexer, Token};
use alc_lisp::node::{Node, NodeAtError};

fn lex(src: &str) -> Vec<Token> {
    let mut lexer = Lexer::from_string(src.to_string());
    lexer.parse().expect("lexing failed");
    lexer.tokens()
}

fn parse(src: &str) -> Node {
    let mut ast = AST::with_tokens(lex(src));
    ast.parse().expect("parsing failed")
}

#[test]
fn parses_simple_call() {
    let root = parse("(+ 1 2)");
    let children = match &root {
        Node::Expression(v) => v,
        other => panic!("root should be an expression, got {:?}", other),
    };
    assert_eq!(children.len(), 1);
    let call = match &children[0] {
        Node::Expression(v) => v,
        other => panic!("expected a call expression, got {:?}", other),
    };
    assert_eq!(call.len(), 3);
    match (&call[0], &call[1], &call[2]) {
        (Node::Word(w), Node::NumberLiteral(a), Node::NumberLiteral(b)) => {
            assert_eq!(w.value, "+");
            assert_eq!(a.value, "1");
            assert_eq!(b.value, "2");
        }
        other => panic!("unexpected children {:?}", other),
    }
}

#[test]
fn unterminated_expression_fails() {
    let mut ast = AST::with_tokens(lex("(+ 1"));
    match ast.parse() {
        Err(ParseError::UnterminatedExpression(p)) => {
            assert_eq!(p.line, 1);
            assert_eq!(p.col, 4);
        }
        other => panic!("expected an unterminated expression error, got {:?}", other),
    }
}

#[test]
fn unterminated_list_fails() {
    let mut ast = AST::with_tokens(lex("[1 2"));
    assert!(matches!(ast.parse(), Err(ParseError::UnterminatedList(_))));
}

#[test]
fn stray_closers_fail() {
    let mut ast = AST::with_tokens(lex(")"));
    assert!(matches!(ast.parse(), Err(ParseError::UnexpectedRParen(_))));
    let mut ast2 = AST::with_tokens(lex("]"));
    assert!(matches!(ast2.parse(), Err(ParseError::UnexpectedRSquare(_))));
}

#[test]
fn fn_literal_parses_with_word_arguments() {
    let root = parse("(fn [a b] (+ a b))");
    let children = match &root {
        Node::Expression(v) => v,
        other => panic!("root should be an expression, got {:?}", other),
    };
    let wrapped = match &children[0] {
        Node::Expression(v) => v,
        other => panic!("the parenthesized form should wrap, got {:?}", other),
    };
    match &wrapped[0] {
        Node::FunctionLiteral {
            token,
            arguments,
            body,
        } => {
            assert_eq!(token.value, "fn");
            assert_eq!(arguments.len(), 2);
            assert!(matches!(**body, Node::Expression(_)));
        }
        other => panic!("expected a fn literal, got {:?}", other),
    }
}

#[test]
fn fn_literal_body_is_wrapped_into_expression() {
    let root = parse("(fn [x] x)");
    let children = match &root {
        Node::Expression(v) => v,
        other => panic!("root should be an expression, got {:?}", other),
    };
    let wrapped = match &children[0] {
        Node::Expression(v) => v,
        other => panic!("the parenthesized form should wrap, got {:?}", other),
    };
    match &wrapped[0] {
        Node::FunctionLiteral { body, .. } => match &**body {
            Node::Expression(inner) => {
                assert_eq!(inner.len(), 1);
                assert!(matches!(inner[0], Node::Word(_)));
            }
            other => panic!("body should be an expression, got {:?}", other),
        },
        other => panic!("expected a fn literal, got {:?}", other),
    }
}

#[test]
fn fn_literal_rejects_bad_argument_forms() {
    let mut ast = AST::with_tokens(lex("(fn 1 x)"));
    assert!(matches!(
        ast.parse(),
        Err(ParseError::InvalidFunctionArguments)
    ));
    let mut ast2 = AST::with_tokens(lex("(fn [1] x)"));
    assert!(matches!(ast2.parse(), Err(ParseError::ArgumentsNotWords)));
}

#[test]
fn comments_are_skipped_between_expressions() {
    let root = parse("; leading\n(+ 1 ; inner\n 2)");
    match &root {
        Node::Expression(v) => assert_eq!(v.len(), 1),
        other => panic!("root should be an expression, got {:?}", other),
    }
}

#[test]
fn invalid_token_is_recorded_and_resolvable() {
    let mut ast = AST::with_tokens(lex("(@)"));
    let root = ast.parse().expect("parse should recover");
    assert!(ast.has_errors());
    let errors = ast.errors().clone();
    assert_eq!(errors.len(), 1);
    assert_eq!(errors[0], vec![0usize, 0usize]);
    let node = root.node_at(&errors[0]).expect("position should resolve");
    assert!(matches!(node, Node::Invalid(_)));
}

#[test]
fn second_invalid_after_first_keeps_correct_path() {
    let mut ast = AST::with_tokens(lex("(+ 1 2) @"));
    let root = ast.parse().expect("parse should recover");
    let errors = ast.errors().clone();
    assert_eq!(errors.len(), 1);
    assert_eq!(errors[0], vec![1usize]);
    let node = root.node_at(&errors[0]).expect("position should resolve");
    assert!(matches!(node, Node::Invalid(_)));
}

#[test]
fn node_at_reports_bad_paths() {
    let root = parse("(+ 1 2)");
    assert!(matches!(
        root.node_at(&vec![5usize]),
        Err(NodeAtError::InvalidIndex)
    ));
    assert!(matches!(
        root.node_at(&vec![0usize, 0usize, 0usize]),
        Err(NodeAtError::NotIndexable)
    ));
}

#[test]
fn first_and_last_char_walk_the_tree() {
    let root = parse("(+ 1 2)");
    let first = root.first_char();
    let last = root.last_char();
    assert_eq!(first.line, 1);
    assert_eq!(first.col, 2);
    assert_eq!(last.line, 1);
    assert_eq!(last.col, 6);
}

#[test]
fn type_of_names_node_kinds() {
    let root = parse("(x [1] \"s\" 2 true)");
    match &root {
        Node::Expression(v) => match &v[0] {
            Node::Expression(call) => {
                assert_eq!(call[0].type_of(), "word");
                assert_eq!(call[1].type_of(), "list");
                assert_eq!(call[2].type_of(), "string");
                assert_eq!(call[3].type_of(), "number");
                assert_eq!(call[4].type_of(), "boolean");
            }
            other => panic!("expected a call, got {:?}", other),
        },
        other => panic!("root should be an expression, got {:?}", other),
    }
}
