use rust_jq::tokenizer::{tokenize, Token, TokenError, Tokenizer};

/// A token with its number read as a float.
#[derive(Debug, PartialEq)]
enum Lexeme {
    BraceOpen,
    BraceClose,
    BracketOpen,
    BracketClose,
    Colon,
    Comma,
    String(String),
    Number(f64),
    True,
    False,
    Null,
}

fn lexeme(token: &Token) -> Lexeme {
    match token {
        Token::BraceOpen => Lexeme::BraceOpen,
        Token::BraceClose => Lexeme::BraceClose,
        Token::BracketOpen => Lexeme::BracketOpen,
        Token::BracketClose => Lexeme::BracketClose,
        Token::Colon => Lexeme::Colon,
        Token::Comma => Lexeme::Comma,
        Token::String(s) => Lexeme::String(s.clone()),
        Token::Number(n) => Lexeme::Number(n.parse().unwrap()),
        Token::True => Lexeme::True,
        Token::False => Lexeme::False,
        Token::Null => Lexeme::Null,
    }
}

fn must_parse_tokens(contents: &str) -> Vec<Lexeme> {
    let tokenizer = Tokenizer::new(contents);
    let tokens = tokenizer.try_collect().expect("Failed to collect tokens");
    tokens.iter().map(lexeme).collect()
}

fn must_parse_with_error(contents: &str) -> TokenError {
    let tokenizer = Tokenizer::new(contents);
    tokenizer.try_collect().expect_err("Expected error")
}

fn simple_json_lexemes() -> Vec<Lexeme> {
    vec![
        Lexeme::BraceOpen,
        Lexeme::String("key".to_string()),
        Lexeme::Colon,
        Lexeme::String("value".to_string()),
        Lexeme::Comma,
        Lexeme::String("number".to_string()),
        Lexeme::Colon,
        Lexeme::Number(42.0),
        Lexeme::Comma,
        Lexeme::String("bool".to_string()),
        Lexeme::Colon,
        Lexeme::True,
        Lexeme::Comma,
        Lexeme::String("null".to_string()),
        Lexeme::Colon,
        Lexeme::Null,
        Lexeme::Comma,
        Lexeme::String("array".to_string()),
        Lexeme::Colon,
        Lexeme::BracketOpen,
        Lexeme::Number(1.0),
        Lexeme::Comma,
        Lexeme::Number(2.0),
        Lexeme::Comma,
        Lexeme::Number(3.0),
        Lexeme::BracketClose,
        Lexeme::BraceClose,
    ]
}

#[test]
fn test_simple_json() {
    let contents = r#"
            {
                "key": "value",
                "number": 42,
                "bool": true,
                "null": null,
                "array": [1, 2, 3]
            }
        "#;

    let mut tokenizer = Tokenizer::new(contents);
    let mut tokens: Vec<Lexeme> = Vec::new();
    while let Some(token) = tokenizer.next_token() {
        tokens.push(lexeme(&token));
    }
    assert_eq!(tokens, simple_json_lexemes());
}

#[test]
fn test_tokenize_simple_json() {
    let contents = r#"
            {
                "key": "value",
                "number": 42,
                "bool": true,
                "null": null,
                "array": [1, 2, 3]
            }
        "#;
    let tokens = must_parse_tokens(contents);
    assert_eq!(tokens, simple_json_lexemes());
}

#[test]
fn test_valid_tokens_invalid_json() {
    let contents = r#"
            {
                "key", "value", [], {, 123 true
            }
        "#;
    let tokens = must_parse_tokens(contents);
    assert_eq!(
        tokens,
        vec![
            Lexeme::BraceOpen,
            Lexeme::String("key".to_string()),
            Lexeme::Comma,
            Lexeme::String("value".to_string()),
            Lexeme::Comma,
            Lexeme::BracketOpen,
            Lexeme::BracketClose,
            Lexeme::Comma,
            Lexeme::BraceOpen,
            Lexeme::Comma,
            Lexeme::Number(123.0),
            Lexeme::True,
            Lexeme::BraceClose,
        ]
    );
}

#[test]
fn test_invalid_token_in_json() {
    let contents = r#"
            {
                "key": "value",
                "number": 42,
                "bool": true,
                "null": null,
                "array": [1, 2, 3],
                extra
            }
        "#;
    let err = must_parse_with_error(contents);
    assert_eq!(err.start_pos, contents.find("extra").unwrap());
}

#[test]
fn test_invalid_bool() {
    let contents = "tru";
    let err = must_parse_with_error(contents);
    assert_eq!(err.start_pos, 0);

    let contents = "fals";
    let err = must_parse_with_error(contents);
    assert_eq!(err.start_pos, 0);
}

#[test]
fn test_invalid_str() {
    let contents = r#""abc"#;
    let err = must_parse_with_error(contents);
    assert_eq!(err.start_pos, 0);

    let contents = r#""abc
        ""#;
    let err = must_parse_with_error(contents);
    assert_eq!(err.start_pos, 0);
}

#[test]
fn test_invalid_number() {
    let contents = "1.";
    let err = must_parse_with_error(contents);
    assert_eq!(err.start_pos, 0);

    let contents = "1.1e";
    let err = must_parse_with_error(contents);
    assert_eq!(err.start_pos, 0);

    let contents = "01";
    let err = must_parse_with_error(contents);
    assert_eq!(err.start_pos, 0);
}

// Lexemes as the lexer hands them out.

#[test]
fn number_token_keeps_its_lexeme() {
    assert_eq!(tokenize("42"), Ok(vec![Token::Number("42".to_string())]));
    assert_eq!(tokenize("-0"), Ok(vec![Token::Number("-0".to_string())]));
    assert_eq!(tokenize("0"), Ok(vec![Token::Number("0".to_string())]));
    assert_eq!(tokenize("0.5"), Ok(vec![Token::Number("0.5".to_string())]));
    assert_eq!(tokenize(" 1.25e+10 "), Ok(vec![Token::Number("1.25e+10".to_string())]));
    assert_eq!(tokenize("0E5"), Ok(vec![Token::Number("0E5".to_string())]));
    assert_eq!(tokenize("12e-3"), Ok(vec![Token::Number("12e-3".to_string())]));
}

#[test]
fn number_boundaries() {
    assert_eq!(tokenize("01"), Err(TokenError { start_pos: 0 }));
    assert!(tokenize("0").is_ok());
    assert!(tokenize("0.5").is_ok());
    assert_eq!(tokenize("1."), Err(TokenError { start_pos: 0 }));
    assert_eq!(tokenize("1.1e"), Err(TokenError { start_pos: 0 }));
    assert!(tokenize("-0").is_ok());
}

#[test]
fn numbers_outside_the_grammar() {
    let texts = [
        "-", "--1", "-01", "00", "-.5", "1.e5", "0.e1", "1e", "1e+", "1e+-2", "1-2", "1.2.3", "1ee2",
        "1+",
    ];
    for text in texts {
        assert_eq!(tokenize(text), Err(TokenError { start_pos: 0 }), "{}", text);
    }
    assert_eq!(tokenize(" [ 1, 02 ]"), Err(TokenError { start_pos: 6 }));
}

#[test]
fn number_ends_at_first_other_character() {
    assert_eq!(
        tokenize("12]"),
        Ok(vec![Token::Number("12".to_string()), Token::BracketClose])
    );
    assert_eq!(tokenize("12x"), Err(TokenError { start_pos: 2 }));
    assert_eq!(tokenize(".5"), Err(TokenError { start_pos: 0 }));
    assert_eq!(tokenize("+1"), Err(TokenError { start_pos: 0 }));
}

#[test]
fn string_boundaries() {
    assert_eq!(tokenize("\"abc"), Err(TokenError { start_pos: 0 }));
    assert_eq!(tokenize("  \"abc\n\""), Err(TokenError { start_pos: 2 }));
    assert_eq!(tokenize("[\"abc\r\"]"), Err(TokenError { start_pos: 1 }));
    assert_eq!(tokenize("\"\""), Ok(vec![Token::String(String::new())]));
    assert_eq!(tokenize("\"a\tb\""), Ok(vec![Token::String("a\tb".to_string())]));
}

#[test]
fn backslash_is_an_ordinary_character() {
    assert_eq!(tokenize(r#""a\nb""#), Ok(vec![Token::String("a\\nb".to_string())]));
    // The quote after the backslash ends the string; `b` starts no token.
    assert_eq!(tokenize(r#""a\"b""#), Err(TokenError { start_pos: 4 }));
}

#[test]
fn string_content_is_copied_verbatim() {
    assert_eq!(
        tokenize("\"h\u{e9}llo, w\u{f8}rld {}[]:\""),
        Ok(vec![Token::String("h\u{e9}llo, w\u{f8}rld {}[]:".to_string())])
    );
}

#[test]
fn literals() {
    assert_eq!(
        tokenize("true false null"),
        Ok(vec![Token::True, Token::False, Token::Null])
    );
    assert_eq!(tokenize("truefalse"), Ok(vec![Token::True, Token::False]));
    assert_eq!(tokenize("nul"), Err(TokenError { start_pos: 0 }));
    assert_eq!(tokenize("nulL"), Err(TokenError { start_pos: 0 }));
    assert_eq!(tokenize(" trxe"), Err(TokenError { start_pos: 1 }));
    assert_eq!(tokenize("[falsy]"), Err(TokenError { start_pos: 1 }));
    assert_eq!(tokenize("t"), Err(TokenError { start_pos: 0 }));
}

#[test]
fn punctuation() {
    assert_eq!(
        tokenize("{}[]:,"),
        Ok(vec![
            Token::BraceOpen,
            Token::BraceClose,
            Token::BracketOpen,
            Token::BracketClose,
            Token::Colon,
            Token::Comma,
        ])
    );
}

#[test]
fn empty_and_blank_texts_have_no_tokens() {
    assert_eq!(tokenize(""), Ok(vec![]));
    assert_eq!(tokenize(" \t\r\n"), Ok(vec![]));
}

#[test]
fn layout_is_whitespace_and_control_characters() {
    // NEL, no-break space, en quad, line separator, ideographic space.
    assert_eq!(
        tokenize("\u{85}1\u{a0}2\u{2000}3\u{2028}4\u{3000}"),
        Ok(vec![
            Token::Number("1".to_string()),
            Token::Number("2".to_string()),
            Token::Number("3".to_string()),
            Token::Number("4".to_string()),
        ])
    );
    // NUL, escape, delete and a C1 control.
    assert_eq!(
        tokenize("\u{0}true\u{1b}\u{7f}\u{9f}null"),
        Ok(vec![Token::True, Token::Null])
    );
    // The zero width space is neither.
    assert_eq!(tokenize("1 \u{200b}"), Err(TokenError { start_pos: 2 }));
    assert_eq!(tokenize("\u{feff}1"), Err(TokenError { start_pos: 0 }));
}

#[test]
fn layout_agrees_with_the_standard_library() {
    let mut code: u32 = 0;
    while code <= 0x10ffff {
        if let Some(c) = char::from_u32(code) {
            assert_eq!(rust_jq::chars::char_is_whitespace(c), c.is_whitespace(), "{:x}", code);
            assert_eq!(rust_jq::chars::char_is_control(c), c.is_control(), "{:x}", code);
            assert_eq!(
                rust_jq::chars::char_is_layout(c),
                c.is_whitespace() || c.is_control(),
                "{:x}",
                code
            );
        }
        code += 1;
    }
}

#[test]
fn positions_count_characters() {
    // Two characters of two and three bytes stand before the defect.
    assert_eq!(tokenize("\"\u{e9}\u{20ac}\" x"), Err(TokenError { start_pos: 5 }));
}

#[test]
fn unknown_character_is_an_error_at_its_position() {
    assert_eq!(tokenize("  @"), Err(TokenError { start_pos: 2 }));
    assert_eq!(tokenize("{\"a\": 'b'}"), Err(TokenError { start_pos: 6 }));
}

#[test]
fn first_error_wins() {
    assert_eq!(tokenize("[1, tru, 01, \"x"), Err(TokenError { start_pos: 4 }));
}

#[test]
fn tokenizer_steps() {
    let mut lexer = Tokenizer::new(" [7");
    assert_eq!(lexer.peek_char(), Some(' '));
    assert_eq!(lexer.peek_nth_char(1), Some('['));
    assert_eq!(lexer.peek_nth_char(3), None);
    assert_eq!(lexer.next_char(), Some(' '));
    assert_eq!(lexer.next_token(), Some(Token::BracketOpen));
    assert_eq!(lexer.peek_char(), Some('7'));
    assert_eq!(lexer.next_token(), Some(Token::Number("7".to_string())));
    assert_eq!(lexer.peek_char(), None);
    assert_eq!(lexer.next_char(), None);
    assert_eq!(lexer.next_token(), None);
    assert_eq!(lexer.try_collect(), Ok(vec![]));
}

#[test]
fn reading_methods_continue_after_the_first_character() {
    let mut lexer = Tokenizer::new("\"ab\" true false null -12.5e3,");
    assert_eq!(lexer.next_char(), Some('"'));
    assert_eq!(lexer.read_string(), Some(Token::String("ab".to_string())));
    assert_eq!(lexer.next_char(), Some(' '));
    assert_eq!(lexer.next_char(), Some('t'));
    assert_eq!(lexer.read_bool_true(), Some(Token::True));
    assert_eq!(lexer.next_char(), Some(' '));
    assert_eq!(lexer.next_char(), Some('f'));
    assert_eq!(lexer.read_bool_false(), Some(Token::False));
    assert_eq!(lexer.next_char(), Some(' '));
    assert_eq!(lexer.next_char(), Some('n'));
    assert_eq!(lexer.read_null(), Some(Token::Null));
    assert_eq!(lexer.next_char(), Some(' '));
    assert_eq!(lexer.next_char(), Some('-'));
    assert_eq!(lexer.read_number('-'), Some(Token::Number("-12.5e3".to_string())));
    assert_eq!(lexer.peek_char(), Some(','));
}

#[test]
fn recorded_error_fails_the_collection() {
    let mut lexer = Tokenizer::new("x 1 2");
    assert_eq!(lexer.next_token(), None);
    // The rest of the text is fine, the error stays.
    assert_eq!(lexer.try_collect(), Err(TokenError { start_pos: 0 }));

    let mut lexer = Tokenizer::new("ab");
    assert_eq!(lexer.next_char(), Some('a'));
    lexer.set_error();
    assert_eq!(lexer.try_collect(), Err(TokenError { start_pos: 1 }));
}

#[test]
fn token_error_text() {
    assert_eq!(TokenError::new(0).to_string(), "Unexpected token at position 0");
    assert_eq!(TokenError::new(7).to_string(), "Unexpected token at position 7");
    assert_eq!(TokenError::new(10).to_string(), "Unexpected token at position 10");
    assert_eq!(TokenError::new(1203).to_string(), "Unexpected token at position 1203");
    assert_eq!(
        TokenError::new(usize::MAX).to_string(),
        format!("Unexpected token at position {}", usize::MAX)
    );
}
