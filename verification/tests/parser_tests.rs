use tinylang::ast::{Expression, Statement};
use tinylang::lexer::Lexer;
use tinylang::parser::{ParseError, Parser};
use tinylang::token::TokenType;

fn parse_source(source: &str) -> Result<Statement, ParseError> {
    let mut lexer = Lexer::new(source);
    let tokens = lexer.tokenize().unwrap();
    let mut parser = Parser::new(tokens);
    parser.parse()
}

fn only_expression(source: &str) -> Expression {
    match parse_source(source).unwrap() {
        Statement::Program(p) => {
            let mut body = p.body;
            assert_eq!(body.len(), 1);
            match body.remove(0) {
                Statement::Expression(e) => e,
                other => panic!("expected an expression statement, got {:?}", other),
            }
        }
        other => panic!("expected a program, got {:?}", other),
    }
}

fn collect_ops(e: &Expression, out: &mut Vec<String>) {
    match e {
        Expression::Assignment(a) => {
            collect_ops(&a.assinge, out);
            out.push("=".to_string());
            collect_ops(&a.value, out);
        }
        Expression::Binary(b) => {
            collect_ops(&b.left, out);
            out.push(b.operator.clone());
            collect_ops(&b.right, out);
        }
        _ => {}
    }
}

#[test]
fn mod_test() {
    let mut lexer = Lexer::new("(1 + foo) * 1");
    let tokens = lexer.tokenize().unwrap();
    let mut parser = Parser::new(tokens);
    let ast = parser.parse().unwrap();
    println!("{:?}", ast);
}

#[test]
fn test_assignment_expression() {
    let mut lexer = Lexer::new("a = b + c");
    let tokens = lexer.tokenize().unwrap();
    let mut parser = Parser::new(tokens);
    let ast = parser.parse().unwrap();
    println!("{:?}", ast);
}

#[test]
fn test_multiplicative_binds_tighter() {
    // "1 + 2 * 3" is +(1, *(2, 3)), not *(+(1, 2), 3)
    let e = only_expression("1 + 2 * 3");
    match e {
        Expression::Binary(add) => {
            assert_eq!(add.operator, "+");
            match add.left {
                Expression::NumbericLiteral(n) => assert_eq!(n.value, 1),
                other => panic!("expected literal 1, got {:?}", other),
            }
            match add.right {
                Expression::Binary(mul) => {
                    assert_eq!(mul.operator, "*");
                    match (mul.left, mul.right) {
                        (Expression::NumbericLiteral(l), Expression::NumbericLiteral(r)) => {
                            assert_eq!(l.value, 2);
                            assert_eq!(r.value, 3);
                        }
                        other => panic!("expected literals, got {:?}", other),
                    }
                }
                other => panic!("expected a multiplication on the right, got {:?}", other),
            }
        }
        other => panic!("expected an addition at the root, got {:?}", other),
    }
}

#[test]
fn test_parentheses_override_precedence() {
    // "(1 + 2) * 3" is *(+(1, 2), 3)
    let e = only_expression("(1 + 2) * 3");
    match e {
        Expression::Binary(mul) => {
            assert_eq!(mul.operator, "*");
            match mul.left {
                Expression::Binary(add) => {
                    assert_eq!(add.operator, "+");
                }
                other => panic!("expected grouped addition on the left, got {:?}", other),
            }
            match mul.right {
                Expression::NumbericLiteral(n) => assert_eq!(n.value, 3),
                other => panic!("expected literal 3, got {:?}", other),
            }
        }
        other => panic!("expected a multiplication at the root, got {:?}", other),
    }
}

#[test]
fn test_assignment_is_right_associative() {
    // "a = b = c" is Assignment(a, Assignment(b, c))
    let e = only_expression("a = b = c");
    match e {
        Expression::Assignment(outer) => {
            match outer.assinge {
                Expression::Identifier(i) => assert_eq!(i.symbol, "a"),
                other => panic!("expected identifier a, got {:?}", other),
            }
            match outer.value {
                Expression::Assignment(inner) => {
                    match inner.assinge {
                        Expression::Identifier(i) => assert_eq!(i.symbol, "b"),
                        other => panic!("expected identifier b, got {:?}", other),
                    }
                    match inner.value {
                        Expression::Identifier(i) => assert_eq!(i.symbol, "c"),
                        other => panic!("expected identifier c, got {:?}", other),
                    }
                }
                other => panic!("expected a nested assignment, got {:?}", other),
            }
        }
        other => panic!("expected an assignment at the root, got {:?}", other),
    }
}

#[test]
fn test_additive_is_left_associative() {
    // "1 - 2 - 3" is -(-(1, 2), 3)
    let e = only_expression("1 - 2 - 3");
    match e {
        Expression::Binary(outer) => {
            assert_eq!(outer.operator, "-");
            match outer.left {
                Expression::Binary(inner) => assert_eq!(inner.operator, "-"),
                other => panic!("expected nested subtraction on the left, got {:?}", other),
            }
            match outer.right {
                Expression::NumbericLiteral(n) => assert_eq!(n.value, 3),
                other => panic!("expected literal 3, got {:?}", other),
            }
        }
        other => panic!("expected a subtraction at the root, got {:?}", other),
    }
}

#[test]
fn test_unterminated_group_is_an_error() {
    let r = parse_source("(1 + 2");
    match r {
        Err(ParseError::MissingExpectedToken { expected, found, .. }) => {
            assert_eq!(expected, TokenType::CloseParen);
            assert_eq!(found, TokenType::EOF);
        }
        other => panic!("expected a missing-close-parenthesis error, got {:?}", other),
    }
}

#[test]
fn test_unexpected_token_is_an_error() {
    let r = parse_source(";");
    match r {
        Err(ParseError::UnexpectedToken { kind, .. }) => {
            assert_eq!(kind, TokenType::Semicolon);
        }
        other => panic!("expected an unexpected-token error, got {:?}", other),
    }
}

#[test]
fn test_unimplemented_statements_are_rejected() {
    for (source, kind) in [
        ("let a = 10;", TokenType::Let),
        ("const a = 10;", TokenType::Const),
        ("fn a", TokenType::Fn),
    ] {
        match parse_source(source) {
            Err(ParseError::UnsupportedStatement { kind: k, .. }) => assert_eq!(k, kind),
            other => panic!("expected an unsupported-statement error, got {:?}", other),
        }
    }
}

#[test]
fn test_number_literal_values() {
    match only_expression("007") {
        Expression::NumbericLiteral(n) => {
            assert_eq!(n.value, 7);
            assert_eq!((n.start, n.end), (0, 3));
        }
        other => panic!("expected a literal, got {:?}", other),
    }
    match only_expression("9223372036854775807") {
        Expression::NumbericLiteral(n) => assert_eq!(n.value, i64::MAX),
        other => panic!("expected a literal, got {:?}", other),
    }
}

#[test]
fn test_number_too_large_is_an_error() {
    let r = parse_source("9223372036854775808");
    match r {
        Err(ParseError::InvalidNumber { start, end }) => {
            assert_eq!((start, end), (0, 19));
        }
        other => panic!("expected an invalid-number error, got {:?}", other),
    }
}

#[test]
fn test_tree_spans_cover_sub_tokens() {
    let e = only_expression("1 + 23");
    match e {
        Expression::Binary(b) => {
            assert_eq!((b.start, b.end), (0, 6));
        }
        other => panic!("expected an addition, got {:?}", other),
    }
}

#[test]
fn test_operator_round_trip() {
    // re-serializing the tree's operators in source order reproduces the
    // operator tokens of the input
    let source = "a = 1 + 2 * (3 - b) % c / 4";
    let e = only_expression(source);
    let mut ops: Vec<String> = Vec::new();
    collect_ops(&e, &mut ops);
    let expected: Vec<String> = Lexer::new(source)
        .tokenize()
        .unwrap()
        .into_iter()
        .filter(|t| t.kind == TokenType::BinaryOperator || t.kind == TokenType::Equals)
        .map(|t| t.value)
        .collect();
    assert_eq!(ops, expected);
    assert_eq!(ops, vec!["=", "+", "*", "-", "%", "/"]);
}

#[test]
fn test_empty_and_whitespace_programs() {
    match parse_source("").unwrap() {
        Statement::Program(p) => assert_eq!(p.body.len(), 0),
        other => panic!("expected a program, got {:?}", other),
    }
    match parse_source("  \t\n").unwrap() {
        Statement::Program(p) => assert_eq!(p.body.len(), 0),
        other => panic!("expected a program, got {:?}", other),
    }
}

#[test]
fn test_successive_expression_statements() {
    match parse_source("a b").unwrap() {
        Statement::Program(p) => assert_eq!(p.body.len(), 2),
        other => panic!("expected a program, got {:?}", other),
    }
}
