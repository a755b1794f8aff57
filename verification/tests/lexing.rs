use alc_lisp::lexer::{LexError, Lexer, TokenType};

fn lex(src: &str) -> Vec<alc_lisp::lexer::Token> {
    let mut lexer = Lexer::from_string(src.to_string());
    lexer.parse().expect("lexing failed");
    lexer.tokens()
}

#[test]
fn lexes_simple_call() {
    let tokens = lex("(+ 1 2)");
    let kinds: Vec<TokenType> = tokens.iter().map(|t| t.token_type).collect();
    assert_eq!(
        kinds,
        vec![
            TokenType::LParen,
            TokenType::Word,
            TokenType::NumberLiteral,
            TokenType::NumberLiteral,
            TokenType::RParen,
        ]
    );
    let values: Vec<&str> = tokens.iter().map(|t| t.value.as_str()).collect();
    assert_eq!(values, vec!["(", "+", "1", "2", ")"]);
}

#[test]
fn positions_monotonically_non_decreasing() {
    let tokens = lex("(+ 1 2)\n(define x 5)");
    for t in tokens.iter() {
        assert!(
            t.start.line < t.end.line || (t.start.line == t.end.line && t.start.col <= t.end.col)
        );
    }
    for w in tokens.windows(2) {
        let a = &w[0].end;
        let b = &w[1].start;
        assert!(a.line < b.line || (a.line == b.line && a.col <= b.col));
    }
}

#[test]
fn lexes_all_token_kinds() {
    let tokens = lex("[x] 'quoted \"s\" ; note");
    let kinds: Vec<TokenType> = tokens.iter().map(|t| t.token_type).collect();
    assert_eq!(
        kinds,
        vec![
            TokenType::LSquare,
            TokenType::Word,
            TokenType::RSquare,
            TokenType::SingleQuote,
            TokenType::Word,
            TokenType::StringLiteral,
            TokenType::Comment,
        ]
    );
    assert_eq!(tokens[5].value, "\"s\"");
    assert_eq!(tokens[6].value, "; note");
}

#[test]
fn unknown_character_becomes_unknown_token() {
    let tokens = lex("@");
    assert_eq!(tokens.len(), 1);
    assert!(matches!(tokens[0].token_type, TokenType::Unknown));
    assert_eq!(tokens[0].value, "@");
}

#[test]
fn unterminated_string_fails_with_position() {
    let mut lexer = Lexer::from_string("(\"abc".to_string());
    match lexer.parse() {
        Err(LexError::UnterminatedString { line, col }) => {
            assert_eq!(line, 1);
            assert_eq!(col, 5);
        }
        other => panic!("expected an unterminated string error, got {:?}", other),
    }
}

#[test]
fn negative_and_malformed_number_literals() {
    let tokens = lex("-12 +3 12ab -x");
    assert!(matches!(tokens[0].token_type, TokenType::NumberLiteral));
    assert_eq!(tokens[0].value, "-12");
    assert!(matches!(tokens[1].token_type, TokenType::NumberLiteral));
    assert_eq!(tokens[1].value, "+3");
    assert!(matches!(tokens[2].token_type, TokenType::NumberLiteral));
    assert_eq!(tokens[2].value, "12ab");
    assert!(matches!(tokens[3].token_type, TokenType::Word));
    assert_eq!(tokens[3].value, "-x");
}

#[test]
fn word_symbols_and_alphanumerics_form_one_word() {
    let tokens = lex("abc123 <=? x2");
    assert_eq!(tokens.len(), 3);
    for t in tokens.iter() {
        assert!(matches!(t.token_type, TokenType::Word));
    }
    assert_eq!(tokens[0].value, "abc123");
    assert_eq!(tokens[1].value, "<=?");
    assert_eq!(tokens[2].value, "x2");
}

#[test]
fn newline_resets_column() {
    let tokens = lex("x\ny");
    assert_eq!(tokens[0].start.line, 1);
    assert_eq!(tokens[1].start.line, 2);
    assert_eq!(tokens[1].start.col, 1);
}

#[test]
fn from_char_classifies_single_tokens() {
    assert!(matches!(TokenType::from_char('('), Ok(TokenType::LParen)));
    assert!(matches!(TokenType::from_char(')'), Ok(TokenType::RParen)));
    assert!(matches!(TokenType::from_char('['), Ok(TokenType::LSquare)));
    assert!(matches!(TokenType::from_char(']'), Ok(TokenType::RSquare)));
    assert!(matches!(
        TokenType::from_char('\''),
        Ok(TokenType::SingleQuote)
    ));
    assert!(TokenType::from_char('x').is_err());
}
