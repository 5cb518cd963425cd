use lexer::tokens::{lookup_keyword, LexError, Token, TokenKind, Value};
use lexer::Lexer;

fn all_tokens(input: &str) -> Vec<Token> {
    let mut lexer = Lexer::new(input);
    let mut out = Vec::new();
    loop {
        let token = lexer.next_token().expect("scan failed");
        if token.kind == TokenKind::EOF {
            return out;
        }
        out.push(token);
    }
}

#[test]
fn punctuation_and_whitespace() {
    let tokens = all_tokens(" + ;\t( )\n# ");
    let kinds: Vec<&TokenKind> = tokens.iter().map(|t| &t.kind).collect();
    assert_eq!(
        kinds,
        vec![
            &TokenKind::Add,
            &TokenKind::Semicolon,
            &TokenKind::LeftParen,
            &TokenKind::RightParen,
            &TokenKind::Pound
        ]
    );
    let locations: Vec<usize> = tokens.iter().map(|t| t.location).collect();
    assert_eq!(locations, vec![1, 3, 5, 7, 9]);
}

#[test]
fn adjacent_punctuation_is_not_reported_twice() {
    let tokens = all_tokens("++#");
    assert_eq!(tokens.len(), 3);
    assert_eq!(tokens[0], Token { location: 0, kind: TokenKind::Add });
    assert_eq!(tokens[1], Token { location: 1, kind: TokenKind::Add });
    assert_eq!(tokens[2], Token { location: 2, kind: TokenKind::Pound });
}

#[test]
fn empty_input_yields_eof_again_and_again() {
    let mut lexer = Lexer::new("");
    for _ in 0..3 {
        assert_eq!(lexer.next_token(), Ok(Token { location: 0, kind: TokenKind::EOF }));
    }
}

#[test]
fn eof_after_trailing_whitespace_is_at_the_end() {
    let mut lexer = Lexer::new("+  \n");
    assert_eq!(lexer.next_token(), Ok(Token { location: 0, kind: TokenKind::Add }));
    assert_eq!(lexer.next_token(), Ok(Token { location: 4, kind: TokenKind::EOF }));
    assert_eq!(lexer.next_token(), Ok(Token { location: 4, kind: TokenKind::EOF }));
}

#[test]
fn integer_literal() {
    let mut lexer = Lexer::new("42");
    assert_eq!(
        lexer.next_token(),
        Ok(Token { location: 0, kind: TokenKind::Value(Value::Int(42)) })
    );
    assert_eq!(lexer.next_token(), Ok(Token { location: 2, kind: TokenKind::EOF }));
}

#[test]
fn float_literal() {
    let mut lexer = Lexer::new("3.14");
    let token = lexer.next_token().unwrap();
    assert_eq!(token.location, 0);
    match &token.kind {
        TokenKind::Value(Value::Float(text)) => {
            assert_eq!(text, "3.14");
            assert_eq!(text.parse::<f32>().unwrap(), 3.14f32);
        }
        other => panic!("expected a float, got {:?}", other),
    }
    assert_eq!(lexer.next_token(), Ok(Token { location: 4, kind: TokenKind::EOF }));
}

#[test]
fn float_without_fraction_digits() {
    let tokens = all_tokens("1.");
    assert_eq!(tokens, vec![Token { location: 0, kind: TokenKind::Value(Value::Float("1.".to_string())) }]);
}

#[test]
fn keyword_and_longer_identifier() {
    assert_eq!(all_tokens("out"), vec![Token { location: 0, kind: TokenKind::Out }]);
    assert_eq!(all_tokens("fmt"), vec![Token { location: 0, kind: TokenKind::Fmt }]);
    assert_eq!(
        all_tokens("outx"),
        vec![Token { location: 0, kind: TokenKind::Ident("outx".to_string()) }]
    );
}

#[test]
fn identifier_with_digits_and_underscore() {
    assert_eq!(
        all_tokens("  a_1b out"),
        vec![
            Token { location: 2, kind: TokenKind::Ident("a_1b".to_string()) },
            Token { location: 7, kind: TokenKind::Out },
        ]
    );
}

#[test]
fn number_then_identifier() {
    assert_eq!(
        all_tokens("12ab"),
        vec![
            Token { location: 0, kind: TokenKind::Value(Value::Int(12)) },
            Token { location: 2, kind: TokenKind::Ident("ab".to_string()) },
        ]
    );
}

#[test]
fn largest_integer_is_accepted() {
    assert_eq!(
        all_tokens("2147483647"),
        vec![Token { location: 0, kind: TokenKind::Value(Value::Int(2147483647)) }]
    );
}

#[test]
fn integer_just_past_the_range_is_malformed() {
    let mut lexer = Lexer::new("2147483648");
    assert_eq!(
        lexer.next_token(),
        Err(LexError::MalformedNumber { text: "2147483648".to_string(), location: 0 })
    );
}

#[test]
fn integer_overflow_is_malformed() {
    let mut lexer = Lexer::new("+ 99999999999");
    assert_eq!(lexer.next_token(), Ok(Token { location: 0, kind: TokenKind::Add }));
    assert_eq!(
        lexer.next_token(),
        Err(LexError::MalformedNumber { text: "99999999999".to_string(), location: 2 })
    );
}

#[test]
fn long_number_with_fraction_is_a_float() {
    assert_eq!(
        all_tokens("99999999999.5"),
        vec![Token { location: 0, kind: TokenKind::Value(Value::Float("99999999999.5".to_string())) }]
    );
}

#[test]
fn illegal_byte_then_scanning_continues() {
    let mut lexer = Lexer::new("@ +");
    assert_eq!(lexer.next_token(), Ok(Token { location: 0, kind: TokenKind::ILLEGAL }));
    assert_eq!(lexer.next_token(), Ok(Token { location: 2, kind: TokenKind::Add }));
    assert_eq!(lexer.next_token(), Ok(Token { location: 3, kind: TokenKind::EOF }));
}

#[test]
fn lone_point_and_vertical_tab_are_illegal() {
    assert_eq!(
        all_tokens(".\u{0b}"),
        vec![
            Token { location: 0, kind: TokenKind::ILLEGAL },
            Token { location: 1, kind: TokenKind::ILLEGAL },
        ]
    );
}

#[test]
fn all_ascii_whitespace_is_skipped() {
    assert_eq!(all_tokens(" \t\n\r\u{0c};"), vec![Token { location: 5, kind: TokenKind::Semicolon }]);
}

#[test]
fn zero_byte_ends_the_input() {
    let mut lexer = Lexer::new("a\0b");
    assert_eq!(
        lexer.next_token(),
        Ok(Token { location: 0, kind: TokenKind::Ident("a".to_string()) })
    );
    assert_eq!(lexer.next_token(), Ok(Token { location: 1, kind: TokenKind::EOF }));
    assert_eq!(lexer.next_token(), Ok(Token { location: 1, kind: TokenKind::EOF }));
}

#[test]
fn consumed_spans_rebuild_the_input() {
    let input = " ab 12 + 3.5\t(x_1)#;@ fmt\n";
    let mut lexer = Lexer::new(input);
    let mut rebuilt = String::new();
    let mut total = 0;
    let mut calls = 0;
    loop {
        let before = lexer.position();
        let token = lexer.next_token().unwrap();
        let after = lexer.position();
        rebuilt.push_str(&input[before..after]);
        total += after - before;
        calls += 1;
        if token.kind == TokenKind::EOF {
            break;
        }
    }
    assert_eq!(rebuilt, input);
    assert_eq!(total, input.len());
    assert_eq!(calls, 12);
}

#[test]
fn peek_and_read_move_through_the_bytes() {
    let mut lexer = Lexer::new("xy");
    assert_eq!(lexer.position(), 0);
    assert_eq!(lexer.peek_char(), b'y');
    lexer.read_char();
    assert_eq!(lexer.position(), 1);
    assert_eq!(lexer.peek_char(), 0);
    lexer.read_char();
    assert_eq!(lexer.position(), 2);
    assert_eq!(lexer.next_token(), Ok(Token { location: 2, kind: TokenKind::EOF }));
}

#[test]
fn keyword_table() {
    assert_eq!(lookup_keyword(TokenKind::Ident("out".to_string())), Some(TokenKind::Out));
    assert_eq!(lookup_keyword(TokenKind::Ident("fmt".to_string())), Some(TokenKind::Fmt));
    assert_eq!(lookup_keyword(TokenKind::Ident("Out".to_string())), None);
    assert_eq!(lookup_keyword(TokenKind::Ident("x".to_string())), None);
}
