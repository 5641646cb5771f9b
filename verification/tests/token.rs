use nonlang::token::{LexerError, Token, TokenKind};

#[test]
fn new_keeps_kind_and_value() {
    let token = Token::new(TokenKind::Identifier, Some("alice".to_string()));
    assert_eq!(token.kind, TokenKind::Identifier);
    assert_eq!(token.value, Some("alice".to_string()));
}

#[test]
fn raw_value_of_a_token_with_text() {
    let token = Token::new(TokenKind::Litteral, Some("v".to_string()));
    assert_eq!(token.get_token_str_raw_value(), Some("v".to_string()));
    let token = Token::new(TokenKind::Identifier, Some("id".to_string()));
    assert_eq!(token.get_token_str_raw_value(), Some("id".to_string()));
}

#[test]
fn raw_value_is_missing_for_other_tokens() {
    assert_eq!(Token::new(TokenKind::Dot, Some("x".to_string())).get_token_str_raw_value(), None);
    assert_eq!(Token::new(TokenKind::Identifier, None).get_token_str_raw_value(), None);
    assert_eq!(Token::new(TokenKind::Eof, None).get_token_str_raw_value(), None);
}

#[test]
fn verify_token_accepts_a_kind_with_its_text() {
    assert_eq!(Token::verify_token(TokenKind::Identifier, Some("a".to_string())), Ok(()));
    assert_eq!(Token::verify_token(TokenKind::Litteral, Some("a".to_string())), Ok(()));
}

#[test]
fn verify_token_names_what_is_wrong() {
    assert_eq!(
        Token::verify_token(TokenKind::Identifier, None),
        Err(LexerError::MissingTokenValue)
    );
    assert_eq!(
        Token::verify_token(TokenKind::Colon, None),
        Err(LexerError::InvalidTokenKind(TokenKind::Colon))
    );
    assert_eq!(
        Token::verify_token(TokenKind::Space, Some("x".to_string())),
        Err(LexerError::InvalidTokenKind(TokenKind::Space))
    );
}

#[test]
fn default_token_ends_the_input() {
    let token = Token::default();
    assert_eq!(token.kind, TokenKind::Eof);
    assert_eq!(token.value, None);
}

#[test]
fn token_from_kind_has_no_text() {
    let token = Token::from(TokenKind::At);
    assert_eq!(token.kind, TokenKind::At);
    assert_eq!(token.value, None);
}

#[test]
fn kind_names() {
    assert_eq!(TokenKind::Identifier.to_string(), "Identifier");
    assert_eq!(TokenKind::Litteral.to_string(), "Litteral");
    assert_eq!(TokenKind::Space.to_string(), "Space");
    assert_eq!(TokenKind::Dot.to_string(), "Dot");
    assert_eq!(TokenKind::Colon.to_string(), "Colon");
    assert_eq!(TokenKind::At.to_string(), "At");
    assert_eq!(TokenKind::Newline.to_string(), "NewLine");
    assert_eq!(TokenKind::Eof.to_string(), "EOF");
    assert!(TokenKind::Identifier.carries_text());
    assert!(!TokenKind::Newline.carries_text());
}
