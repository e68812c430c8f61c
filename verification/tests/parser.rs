use rust_jq::parser::{
    parse, parse_array, parse_object, parse_value, ASTNode, ParseError, ParseErrorKind, TokenCursor,
};
use rust_jq::tokenizer::Token;

/// A syntax tree with its numbers read as floats.
#[derive(Debug, PartialEq)]
enum Tree {
    Object(Vec<(String, Tree)>),
    Array(Vec<Tree>),
    String(String),
    Number(f64),
    Boolean(bool),
    Null,
}

fn tree(node: &ASTNode) -> Tree {
    match node {
        ASTNode::Object(entries) => {
            Tree::Object(entries.iter().map(|(k, v)| (k.to_string(), tree(v))).collect())
        }
        ASTNode::Array(items) => Tree::Array(items.iter().map(tree).collect()),
        ASTNode::String(s) => Tree::String(s.to_string()),
        ASTNode::Number(n) => Tree::Number(n.parse().unwrap()),
        ASTNode::Boolean(b) => Tree::Boolean(*b),
        ASTNode::Null => Tree::Null,
    }
}

/// The token of a number, written as the shortest text of the float.
fn number(value: f64) -> Token {
    Token::Number(format!("{}", value))
}

fn string(text: &str) -> Token {
    Token::String(text.to_string())
}

fn parse_tokens(tokens: Vec<Token>) -> Result<(), ParseError> {
    let mut cursor = TokenCursor::new(&tokens);
    match parse(&mut cursor) {
        Ok(_) => Ok(()),
        Err(e) => Err(e),
    }
}

fn parse_tree(tokens: &[Token]) -> Result<Option<Tree>, String> {
    let mut cursor = TokenCursor::new(tokens);
    match parse(&mut cursor) {
        Ok(node) => Ok(node.map(|n| tree(&n))),
        Err(e) => Err(e.msg),
    }
}

#[test]
fn test_parse_simple_json() {
    let tokens = vec![
        Token::BraceOpen,
        Token::String("key".to_string()),
        Token::Colon,
        Token::String("value".to_string()),
        Token::Comma,
        Token::String("number".to_string()),
        Token::Colon,
        number(42.0),
        Token::Comma,
        Token::String("bool".to_string()),
        Token::Colon,
        Token::True,
        Token::Comma,
        Token::String("null".to_string()),
        Token::Colon,
        Token::Null,
        Token::Comma,
        Token::String("array".to_string()),
        Token::Colon,
        Token::BracketOpen,
        number(1.0),
        Token::Comma,
        number(2.0),
        Token::Comma,
        number(3.0),
        Token::BracketClose,
        Token::BraceClose,
    ];
    let result = parse_tokens(tokens);
    assert!(result.is_ok());
}

#[test]
fn test_parse_nested_json() {
    let tokens = vec![
        Token::BraceOpen,
        Token::String("key".to_string()),
        Token::Colon,
        Token::BraceOpen,
        Token::String("inner_key".to_string()),
        Token::Colon,
        Token::BracketOpen,
        number(1.0),
        Token::Comma,
        number(2.0),
        Token::BracketClose,
        Token::BraceClose,
        Token::BraceClose,
    ];
    let result = parse_tokens(tokens);
    assert!(result.is_ok());
}

#[test]
fn test_parse_empty_object() {
    let tokens = vec![Token::BraceOpen, Token::BraceClose];
    let result = parse_tokens(tokens);
    assert!(result.is_ok());
}

#[test]
fn test_parse_empty_array() {
    let tokens = vec![Token::BracketOpen, Token::BracketClose];
    let result = parse_tokens(tokens);
    assert!(result.is_ok());
}

#[test]
fn test_parse_object() {
    let tokens = vec![
        // parse_object fn requires the first token (Token::BraceOpen) to be consumed
        // Token::BraceOpen,
        Token::String("key".to_string()),
        Token::Colon,
        Token::String("value".to_string()),
        Token::BraceClose,
    ];
    let result = parse_object(&mut TokenCursor::new(&tokens));
    assert!(result.is_ok());
    assert_eq!(
        result.unwrap(),
        ASTNode::Object(vec![("key", ASTNode::String("value"))])
    );
}

#[test]
fn test_parse_array() {
    // Two elements with no comma between them: every element after the
    // first has to follow a comma.
    let tokens = vec![
        // parse_array fn requires the first token (Token::BracketOpen) to be consumed
        // Token::BracketOpen,
        number(1.0),
        number(2.0),
        Token::BracketClose,
    ];
    let result = parse_array(&mut TokenCursor::new(&tokens));
    assert!(result.is_err());
    assert!(result.unwrap_err().msg == "Missing comma");
}

#[test]
fn parse_array_with_commas() {
    let tokens = vec![number(1.0), Token::Comma, number(2.0), Token::BracketClose];
    let result = parse_array(&mut TokenCursor::new(&tokens));
    assert!(result.is_ok());
    assert_eq!(
        tree(&result.unwrap()),
        Tree::Array(vec![Tree::Number(1.0), Tree::Number(2.0)])
    );
}

#[test]
fn test_parse_invalid_trailing_comma() {
    let tokens = vec![
        Token::BraceOpen,
        Token::String("key".to_string()),
        Token::Colon,
        Token::String("value".to_string()),
        Token::Comma,
        Token::BraceClose,
    ];
    let result = parse_tokens(tokens);
    assert!(result.is_err());
    assert!(result.unwrap_err().msg == "Unexpected comma before end of object");

    let tokens = vec![
        Token::BracketOpen,
        number(1.0),
        Token::Comma,
        number(2.0),
        Token::Comma,
        Token::BracketClose,
    ];
    let result = parse_tokens(tokens);
    assert!(result.is_err());
    assert!(result.unwrap_err().msg == "Unexpected comma before end of array");
}

#[test]
fn test_parse_invalid_key_type() {
    let tokens = vec![
        Token::BraceOpen,
        number(1.0),
        Token::Colon,
        Token::String("value".to_string()),
        Token::BraceClose,
    ];
    let result = parse_tokens(tokens);
    assert!(result.is_err());
    assert!(result.unwrap_err().msg == "Unexpected object key");

    let tokens = vec![
        Token::BraceOpen,
        Token::BracketOpen,
        Token::Colon,
        Token::String("value".to_string()),
        Token::BraceClose,
    ];
    let result = parse_tokens(tokens);
    assert!(result.is_err());
    assert!(result.unwrap_err().msg == "Unexpected object key");
}

#[test]
fn test_parse_missing_colon() {
    let tokens = vec![
        Token::BraceOpen,
        Token::String("key".to_string()),
        Token::String("value".to_string()),
        Token::BraceClose,
    ];
    let result = parse_tokens(tokens);
    assert!(result.is_err());
    assert!(result.unwrap_err().msg == "Expected colon after string key");
}

#[test]
fn test_parse_unexpected_end_of_input() {
    let tokens = vec![Token::BraceOpen];
    let result = parse_tokens(tokens);
    assert!(result.is_err());
    assert!(result.unwrap_err().msg == "Unexpected end of input");
}

// The tree that comes out.

#[test]
fn scalars() {
    assert_eq!(parse_tree(&[string("a")]), Ok(Some(Tree::String("a".to_string()))));
    assert_eq!(parse_tree(&[number(1.5)]), Ok(Some(Tree::Number(1.5))));
    assert_eq!(parse_tree(&[Token::True]), Ok(Some(Tree::Boolean(true))));
    assert_eq!(parse_tree(&[Token::False]), Ok(Some(Tree::Boolean(false))));
    assert_eq!(parse_tree(&[Token::Null]), Ok(Some(Tree::Null)));
}

#[test]
fn number_node_keeps_the_lexeme() {
    let tokens = vec![Token::Number("-1.50e+2".to_string())];
    let mut cursor = TokenCursor::new(&tokens);
    assert_eq!(parse_value(&mut cursor), Ok(ASTNode::Number("-1.50e+2")));
}

#[test]
fn no_tokens_no_value() {
    assert_eq!(parse_tree(&[]), Ok(None));
    let tokens = vec![Token::Null];
    let mut cursor = TokenCursor::new(&tokens);
    assert_eq!(cursor.len(), 1);
    assert_eq!(parse(&mut cursor), Ok(Some(ASTNode::Null)));
    assert_eq!(cursor.len(), 0);
    // The cursor is at the end: nothing is left to parse.
    assert_eq!(parse(&mut cursor), Ok(None));
}

#[test]
fn entries_keep_their_order_and_repeated_keys() {
    let tokens = vec![
        Token::BraceOpen,
        string("b"),
        Token::Colon,
        number(1.0),
        Token::Comma,
        string("a"),
        Token::Colon,
        Token::Null,
        Token::Comma,
        string("b"),
        Token::Colon,
        Token::BracketOpen,
        Token::BracketClose,
        Token::BraceClose,
    ];
    assert_eq!(
        parse_tree(&tokens),
        Ok(Some(Tree::Object(vec![
            ("b".to_string(), Tree::Number(1.0)),
            ("a".to_string(), Tree::Null),
            ("b".to_string(), Tree::Array(vec![])),
        ])))
    );
}

#[test]
fn nested_containers() {
    let tokens = vec![
        Token::BracketOpen,
        Token::BracketOpen,
        Token::BracketClose,
        Token::Comma,
        Token::BraceOpen,
        string("k"),
        Token::Colon,
        Token::BracketOpen,
        Token::True,
        Token::Comma,
        Token::BraceOpen,
        Token::BraceClose,
        Token::BracketClose,
        Token::BraceClose,
        Token::Comma,
        string("s"),
        Token::BracketClose,
    ];
    assert_eq!(
        parse_tree(&tokens),
        Ok(Some(Tree::Array(vec![
            Tree::Array(vec![]),
            Tree::Object(vec![(
                "k".to_string(),
                Tree::Array(vec![Tree::Boolean(true), Tree::Object(vec![])])
            )]),
            Tree::String("s".to_string()),
        ])))
    );
}

#[test]
fn tokens_after_the_first_value_stay_unread() {
    let tokens = vec![
        Token::BraceOpen,
        Token::BraceClose,
        Token::Comma,
        Token::BracketClose,
        Token::Null,
    ];
    let mut cursor = TokenCursor::new(&tokens);
    assert_eq!(parse(&mut cursor), Ok(Some(ASTNode::Object(vec![]))));
    assert_eq!(cursor.len(), 3);
    assert_eq!(cursor.peek(), Some(&Token::Comma));
}

#[test]
fn cursor_peeks_and_reads() {
    let tokens = vec![Token::Colon, Token::Null];
    let mut cursor = TokenCursor::new(&tokens);
    assert_eq!(cursor.len(), 2);
    assert_eq!(cursor.peek(), Some(&Token::Colon));
    assert_eq!(cursor.peek(), Some(&Token::Colon));
    assert_eq!(cursor.next(), Some(&Token::Colon));
    assert_eq!(cursor.next(), Some(&Token::Null));
    assert_eq!(cursor.len(), 0);
    assert_eq!(cursor.peek(), None);
    assert_eq!(cursor.next(), None);
    assert_eq!(cursor.len(), 0);
}

// One input for each kind of error.

#[test]
fn unexpected_end_of_input() {
    let end = Err("Unexpected end of input".to_string());
    assert_eq!(parse_tree(&[Token::BracketOpen]), end);
    assert_eq!(parse_tree(&[Token::BracketOpen, Token::Null]), end);
    assert_eq!(parse_tree(&[Token::BracketOpen, Token::Null, Token::Comma]), end);
    assert_eq!(parse_tree(&[Token::BraceOpen]), end);
    assert_eq!(parse_tree(&[Token::BraceOpen, string("a")]), end);
    assert_eq!(parse_tree(&[Token::BraceOpen, string("a"), Token::Colon]), end);
    assert_eq!(parse_tree(&[Token::BraceOpen, string("a"), Token::Colon, Token::Null]), end);
    let no_tokens: Vec<Token> = vec![];
    let result = parse_value(&mut TokenCursor::new(&no_tokens));
    assert!(result.unwrap_err().msg == "Unexpected end of input");
    let result = parse_object(&mut TokenCursor::new(&no_tokens));
    assert!(result.unwrap_err().msg == "Unexpected end of input");
    let result = parse_array(&mut TokenCursor::new(&no_tokens));
    assert!(result.unwrap_err().msg == "Unexpected end of input");
}

#[test]
fn unexpected_token() {
    let unexpected = Err("Unexpected token".to_string());
    assert_eq!(parse_tree(&[Token::BraceClose]), unexpected);
    assert_eq!(parse_tree(&[Token::BracketClose]), unexpected);
    assert_eq!(parse_tree(&[Token::Colon]), unexpected);
    assert_eq!(parse_tree(&[Token::Comma]), unexpected);
    assert_eq!(parse_tree(&[Token::BracketOpen, Token::Comma, Token::BracketClose]), unexpected);
    assert_eq!(
        parse_tree(&[Token::BraceOpen, string("a"), Token::Colon, Token::BraceClose]),
        unexpected
    );
}

#[test]
fn unexpected_object_key() {
    let key = Err("Unexpected object key".to_string());
    assert_eq!(parse_tree(&[Token::BraceOpen, Token::Comma, Token::BraceClose]), key);
    assert_eq!(parse_tree(&[Token::BraceOpen, Token::True]), key);
    assert_eq!(
        parse_tree(&[
            Token::BraceOpen,
            string("a"),
            Token::Colon,
            Token::Null,
            Token::Comma,
            Token::Comma,
            Token::BraceClose
        ]),
        key
    );
}

#[test]
fn expected_colon() {
    let colon = Err("Expected colon after string key".to_string());
    assert_eq!(parse_tree(&[Token::BraceOpen, string("a"), string("b"), Token::BraceClose]), colon);
    assert_eq!(parse_tree(&[Token::BraceOpen, string("a"), Token::BraceClose]), colon);
    assert_eq!(parse_tree(&[Token::BraceOpen, string("a"), Token::Comma]), colon);
}

#[test]
fn missing_comma() {
    let missing = Err("Missing comma".to_string());
    assert_eq!(
        parse_tree(&[
            Token::BraceOpen,
            string("a"),
            Token::Colon,
            number(1.0),
            string("b"),
            Token::Colon,
            number(2.0),
            Token::BraceClose
        ]),
        missing
    );
    assert_eq!(
        parse_tree(&[Token::BracketOpen, number(1.0), number(2.0), Token::BracketClose]),
        missing
    );
    assert_eq!(
        parse_tree(&[
            Token::BracketOpen,
            Token::BracketOpen,
            Token::BracketClose,
            Token::BraceOpen,
            Token::BraceClose,
            Token::BracketClose
        ]),
        missing
    );
}

#[test]
fn trailing_commas() {
    assert_eq!(
        parse_tree(&[
            Token::BracketOpen,
            Token::BraceOpen,
            string("a"),
            Token::Colon,
            Token::BracketOpen,
            Token::Null,
            Token::Comma,
            Token::BracketClose,
            Token::Comma,
            Token::BraceClose,
            Token::BracketClose
        ]),
        Err("Unexpected comma before end of array".to_string())
    );
    assert_eq!(
        parse_tree(&[
            Token::BracketOpen,
            Token::Null,
            Token::Comma,
            Token::BraceOpen,
            string("a"),
            Token::Colon,
            Token::Null,
            Token::Comma,
            Token::BraceClose,
            Token::BracketClose
        ]),
        Err("Unexpected comma before end of object".to_string())
    );
}

#[test]
fn first_error_is_reported() {
    // The missing colon comes before the trailing comma.
    assert_eq!(
        parse_tree(&[
            Token::BraceOpen,
            string("a"),
            Token::Null,
            Token::Comma,
            Token::BraceClose
        ]),
        Err("Expected colon after string key".to_string())
    );
}

#[test]
fn error_kinds_and_their_messages() {
    let kinds = [
        (ParseErrorKind::UnexpectedEndOfInput, "Unexpected end of input"),
        (ParseErrorKind::UnexpectedToken, "Unexpected token"),
        (ParseErrorKind::UnexpectedObjectKey, "Unexpected object key"),
        (ParseErrorKind::ExpectedColon, "Expected colon after string key"),
        (ParseErrorKind::MissingComma, "Missing comma"),
        (ParseErrorKind::TrailingCommaInObject, "Unexpected comma before end of object"),
        (ParseErrorKind::TrailingCommaInArray, "Unexpected comma before end of array"),
    ];
    for (kind, message) in kinds {
        assert_eq!(kind.error().msg, message);
    }
}

#[test]
fn parse_error_text() {
    let error = ParseError::new("Missing comma".to_string());
    assert_eq!(error.msg, "Missing comma");
    assert_eq!(error.to_string(), "Invalid JSON: Missing comma");
    assert_eq!(ParseError::new(String::new()).to_string(), "Invalid JSON: ");
}

/// The number of tokens that are left after the tokens were parsed and the
/// parser failed.
fn left_after_failure(tokens: &[Token]) -> usize {
    let mut cursor = TokenCursor::new(tokens);
    assert!(parse(&mut cursor).is_err());
    cursor.len()
}

#[test]
fn cursor_after_an_error() {
    // A token that starts no value is read.
    assert_eq!(left_after_failure(&[Token::Colon, Token::Null]), 1);
    // A closing bracket after a comma is looked at, a closing brace is read.
    assert_eq!(
        left_after_failure(&[Token::BracketOpen, Token::Null, Token::Comma, Token::BracketClose]),
        1
    );
    assert_eq!(
        left_after_failure(&[
            Token::BraceOpen,
            string("a"),
            Token::Colon,
            Token::Null,
            Token::Comma,
            Token::BraceClose
        ]),
        0
    );
    // The token after a key is read.
    assert_eq!(
        left_after_failure(&[Token::BraceOpen, string("a"), string("b"), Token::BraceClose]),
        1
    );
    // An element without a comma before it is looked at, a key is read.
    assert_eq!(
        left_after_failure(&[Token::BracketOpen, number(1.0), number(2.0), Token::BracketClose]),
        2
    );
    assert_eq!(
        left_after_failure(&[
            Token::BraceOpen,
            string("a"),
            Token::Colon,
            number(1.0),
            string("b"),
            Token::Colon,
            number(2.0),
            Token::BraceClose
        ]),
        3
    );
    // A token that is no key is read.
    assert_eq!(left_after_failure(&[Token::BraceOpen, Token::True, Token::BraceClose]), 1);
    // At the end of the tokens nothing is left.
    assert_eq!(left_after_failure(&[Token::BracketOpen, Token::BracketOpen]), 0);
    assert_eq!(left_after_failure(&[Token::BraceOpen, string("a")]), 0);
}

#[test]
fn key_as_the_last_token() {
    // The opening brace is read already, and the tokens end with the key.
    let tokens = vec![Token::String("a".to_string())];
    let result = parse_object(&mut TokenCursor::new(&tokens));
    assert!(result.unwrap_err().msg == "Unexpected end of input");

    let tokens = vec![number(1.0), Token::Comma, Token::BraceOpen, string("a")];
    let result = parse_array(&mut TokenCursor::new(&tokens));
    assert!(result.unwrap_err().msg == "Unexpected end of input");
}
