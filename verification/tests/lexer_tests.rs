use tinylang::lexer::{LexError, Lexer};
use tinylang::token::{Token, TokenType};

fn kinds_and_values(tokens: &[Token]) -> Vec<(TokenType, String)> {
    tokens.iter().map(|t| (t.kind, t.value.clone())).collect()
}

#[test]
fn test_let() {
    let mut lexer = Lexer::new("let");
    let tokens = lexer.tokenize().unwrap();
    assert_eq!(tokens.len(), 2);
    assert_eq!(tokens[0].kind, TokenType::Let);
}

#[test]
fn test_const() {
    let mut lexer = Lexer::new("const");
    let tokens = lexer.tokenize().unwrap();
    assert_eq!(tokens.len(), 2);
    assert_eq!(tokens[0].kind, TokenType::Const);
}

#[test]
fn test_fn() {
    let mut lexer = Lexer::new("fn");
    let tokens = lexer.tokenize().unwrap();
    assert_eq!(tokens.len(), 2);
    assert_eq!(tokens[0].kind, TokenType::Fn)
}

#[test]
fn test_if() {
    let mut lexer = Lexer::new("if");
    let tokens = lexer.tokenize().unwrap();
    assert_eq!(tokens.len(), 2);
    assert_eq!(tokens[0].kind, TokenType::If);
}

#[test]
fn test_for() {
    let mut lexer = Lexer::new("for");
    let tokens = lexer.tokenize().unwrap();
    assert_eq!(tokens.len(), 2);
    assert_eq!(tokens[0].kind, TokenType::For);
}

#[test]
fn test_while() {
    let mut lexer = Lexer::new("while");
    let tokens = lexer.tokenize().unwrap();
    assert_eq!(tokens.len(), 2);
    assert_eq!(tokens[0].kind, TokenType::While);
}

#[test]
fn test() {
    let mut lexer = Lexer::new("let a = 10;");
    let tokens = lexer.tokenize().unwrap();
    println!("{:?}", tokens);
}

#[test]
fn test_keyword_lookup_is_case_sensitive() {
    let tokens = Lexer::new("let").tokenize().unwrap();
    assert_eq!(tokens[0].kind, TokenType::Let);
    let tokens = Lexer::new("Let").tokenize().unwrap();
    assert_eq!(tokens[0].kind, TokenType::Identifier);
    assert_eq!(tokens[0].value, "Let");
    let tokens = Lexer::new("LET").tokenize().unwrap();
    assert_eq!(tokens[0].kind, TokenType::Identifier);
    assert_eq!(tokens[0].value, "LET");
}

#[test]
fn test_whitespace_emits_no_tokens() {
    let spaced = Lexer::new(" 1 \t+\n2 \r").tokenize().unwrap();
    let dense = Lexer::new("1+2").tokenize().unwrap();
    assert_eq!(kinds_and_values(&spaced), kinds_and_values(&dense));
    let only_ws = Lexer::new(" \t\r\n").tokenize().unwrap();
    assert_eq!(only_ws.len(), 1);
    assert_eq!(only_ws[0].kind, TokenType::EOF);
}

#[test]
fn test_eof_marker_is_last_and_empty() {
    let tokens = Lexer::new("a ").tokenize().unwrap();
    assert_eq!(tokens.len(), 2);
    let eof = &tokens[1];
    assert_eq!(eof.kind, TokenType::EOF);
    assert_eq!(eof.value, "EOF");
    assert_eq!((eof.start, eof.end), (2, 2));
    // the marker is the only token with an empty span at the source length
    assert!(tokens[0].start < tokens[0].end);

    let empty = Lexer::new("").tokenize().unwrap();
    assert_eq!(empty.len(), 1);
    assert_eq!(empty[0].kind, TokenType::EOF);
    assert_eq!((empty[0].start, empty[0].end), (0, 0));
}

#[test]
fn test_unrecognized_character_is_an_error() {
    let r = Lexer::new("#").tokenize();
    assert_eq!(r, Err(LexError::UnrecognizedCharacter { ch: '#', offset: 0 }));
    let r = Lexer::new("a # b").tokenize();
    assert_eq!(r, Err(LexError::UnrecognizedCharacter { ch: '#', offset: 2 }));
}

#[test]
fn test_close_brace_has_no_rule() {
    // `}` sits in the token-kind enumeration but the scanner deliberately
    // never produces it
    let r = Lexer::new("}").tokenize();
    assert_eq!(r, Err(LexError::UnrecognizedCharacter { ch: '}', offset: 0 }));
}

#[test]
fn test_punctuation_kinds() {
    let tokens = Lexer::new("()[]{+-*/%=;,:.").tokenize().unwrap();
    let kinds: Vec<TokenType> = tokens.iter().map(|t| t.kind).collect();
    assert_eq!(
        kinds,
        vec![
            TokenType::OpenParen,
            TokenType::CloseParen,
            TokenType::OpenBracket,
            TokenType::CloseBracket,
            TokenType::OpenBrace,
            TokenType::BinaryOperator,
            TokenType::BinaryOperator,
            TokenType::BinaryOperator,
            TokenType::BinaryOperator,
            TokenType::BinaryOperator,
            TokenType::Equals,
            TokenType::Semicolon,
            TokenType::Commoa,
            TokenType::Colon,
            TokenType::Dot,
            TokenType::EOF,
        ]
    );
    assert_eq!(tokens[5].value, "+");
    assert_eq!(tokens[9].value, "%");
}

#[test]
fn test_number_run_and_spans() {
    let tokens = Lexer::new("007 42").tokenize().unwrap();
    assert_eq!(tokens[0].kind, TokenType::Number);
    assert_eq!(tokens[0].value, "007");
    assert_eq!((tokens[0].start, tokens[0].end), (0, 3));
    assert_eq!(tokens[1].kind, TokenType::Number);
    assert_eq!(tokens[1].value, "42");
    // the span covers exactly the lexeme; skipped whitespace belongs to no token
    assert_eq!((tokens[1].start, tokens[1].end), (4, 6));
}

#[test]
fn test_span_is_exactly_the_lexeme() {
    let source = " +";
    let tokens = Lexer::new(source).tokenize().unwrap();
    assert_eq!(tokens[0].kind, TokenType::BinaryOperator);
    assert_eq!(tokens[0].value, "+");
    assert_eq!((tokens[0].start, tokens[0].end), (1, 2));
    for t in &tokens {
        if t.kind != TokenType::EOF {
            assert_eq!(&source[t.start..t.end], t.value);
        }
    }
}

#[test]
fn test_cased_unicode_identifier() {
    // the identifier test accepts any character whose two case mappings
    // differ, not only ASCII letters
    let tokens = Lexer::new("caf\u{e9}").tokenize().unwrap();
    assert_eq!(tokens.len(), 2);
    assert_eq!(tokens[0].kind, TokenType::Identifier);
    assert_eq!(tokens[0].value, "caf\u{e9}");
    // an underscore has no case, so it starts no identifier
    let r = Lexer::new("_x").tokenize();
    assert_eq!(r, Err(LexError::UnrecognizedCharacter { ch: '_', offset: 0 }));
}
