use nonlang::error::NonError;
use nonlang::lexer::{
    parse_at, parse_char_to_token, parse_colon, parse_dot, parse_identifier, parse_litteral,
    parse_newline, parse_whitespace, NonLexer, Token,
};
use nonlang::token::TokenKind;

#[test]
fn test_parse_identifier() {
    let s = "identifier";
    let (remaining, token) = parse_identifier(s).unwrap();

    assert_eq!(token, Token::Identifier("identifier".to_string()));
    assert_eq!(remaining, "");
}

#[test]
fn test_parse_litteral() {
    let s = "'value'";
    let (remaining, token) = parse_litteral(s).unwrap();

    assert_eq!(token, Token::Litteral("value".to_string()));
    assert_eq!(remaining, "");
}

#[test]
fn test_parse_dot() {
    let s = ".";
    let (remaining, token) = parse_dot(s).unwrap();

    assert_eq!(token, Token::Dot);
    assert_eq!(remaining, "");
}

#[test]
fn test_parse_at() {
    let s = "@";
    let (remaining, token) = parse_at(s).unwrap();

    assert_eq!(token, Token::At);
    assert_eq!(remaining, "");
}

#[test]
fn test_parse_colon() {
    let s = ":";
    let (remaining, token) = parse_colon(s).unwrap();

    assert_eq!(token, Token::Colon);
    assert_eq!(remaining, "");
}

#[test]
fn test_parse_whitspace() {
    let s = " ";
    let (remaining, token) = parse_whitespace(s).unwrap();

    assert_eq!(token, Token::Space);
    assert_eq!(remaining, "");
}

#[test]
fn test_parse_newline() {
    let s = "\n";
    let (remaining, token) = parse_newline(s).unwrap();

    assert_eq!(token, Token::Newline);
    assert_eq!(remaining, "");
}

#[test]
fn parse_identifier_stops_at_the_first_other_character() {
    let (remaining, token) = parse_identifier("user_1: rest").unwrap();
    assert_eq!(token, Token::Identifier("user_1".to_string()));
    assert_eq!(remaining, ": rest");
}

#[test]
fn parse_identifier_refuses_other_tokens() {
    assert_eq!(parse_identifier("'x'"), Err(NonError::TokenizeFailed));
    assert_eq!(parse_identifier(""), Err(NonError::TokenizeFailed));
    assert_eq!(parse_identifier(" a"), Err(NonError::TokenizeFailed));
}

#[test]
fn parse_identifier_takes_ascii_only() {
    assert_eq!(parse_identifier("\u{e9}t\u{e9}"), Err(NonError::TokenizeFailed));
    let (remaining, token) = parse_identifier("caf\u{e9}").unwrap();
    assert_eq!(token, Token::Identifier("caf".to_string()));
    assert_eq!(remaining, "\u{e9}");
}

#[test]
fn parse_litteral_keeps_everything_between_the_quotes() {
    let (remaining, token) = parse_litteral("'a b\n.c@:' tail").unwrap();
    assert_eq!(token, Token::Litteral("a b\n.c@:".to_string()));
    assert_eq!(remaining, " tail");
}

#[test]
fn parse_litteral_refuses_empty_and_open_literals() {
    assert_eq!(parse_litteral("''"), Err(NonError::TokenizeFailed));
    assert_eq!(parse_litteral("'open"), Err(NonError::TokenizeFailed));
    assert_eq!(parse_litteral("'"), Err(NonError::TokenizeFailed));
    assert_eq!(parse_litteral("x'y'"), Err(NonError::TokenizeFailed));
}

#[test]
fn parse_whitespace_takes_spaces_and_tabs() {
    let (remaining, token) = parse_whitespace(" \t  x").unwrap();
    assert_eq!(token, Token::Space);
    assert_eq!(remaining, "x");
    assert_eq!(parse_whitespace("\n"), Err(NonError::TokenizeFailed));
}

#[test]
fn parse_char_to_token_reads_one_character() {
    let (remaining, token) = parse_char_to_token("::", ':', Token::Colon).unwrap();
    assert_eq!(token, Token::Colon);
    assert_eq!(remaining, ":");
    assert_eq!(
        parse_char_to_token(".:", ':', Token::Colon),
        Err(NonError::TokenizeFailed)
    );
    assert_eq!(
        parse_char_to_token("", ':', Token::Colon),
        Err(NonError::TokenizeFailed)
    );
}

#[test]
fn single_character_parsers_refuse_other_input() {
    assert_eq!(parse_dot(":"), Err(NonError::TokenizeFailed));
    assert_eq!(parse_at("."), Err(NonError::TokenizeFailed));
    assert_eq!(parse_colon("@"), Err(NonError::TokenizeFailed));
    assert_eq!(parse_newline("\r\n"), Err(NonError::TokenizeFailed));
}

#[test]
fn read_next_token_shows_spaces() {
    let mut lexer = NonLexer::new("a \t'b'");
    assert_eq!(lexer.read_next_token(), Ok(Token::Identifier("a".to_string())));
    assert_eq!(lexer.position(), 1);
    assert_eq!(lexer.read_next_token(), Ok(Token::Space));
    assert_eq!(lexer.position(), 3);
    assert_eq!(lexer.read_next_token(), Ok(Token::Litteral("b".to_string())));
    assert_eq!(lexer.position(), 6);
    assert_eq!(lexer.read_next_token(), Ok(Token::Eof));
    assert_eq!(lexer.read_next_token(), Ok(Token::Eof));
    assert_eq!(lexer.position(), 6);
}

#[test]
fn next_token_hides_spaces() {
    let mut lexer = NonLexer::new("alice:  bob\n.mail .login '@' univ.domain\n");
    let expected = vec![
        Token::Identifier("alice".to_string()),
        Token::Colon,
        Token::Identifier("bob".to_string()),
        Token::Newline,
        Token::Dot,
        Token::Identifier("mail".to_string()),
        Token::Dot,
        Token::Identifier("login".to_string()),
        Token::Litteral("@".to_string()),
        Token::Identifier("univ".to_string()),
        Token::Dot,
        Token::Identifier("domain".to_string()),
        Token::Newline,
        Token::Eof,
    ];
    for token in expected {
        assert_eq!(lexer.next_token(), Ok(token));
    }
}

#[test]
fn next_token_fails_where_no_token_starts() {
    let mut lexer = NonLexer::new("a #");
    assert_eq!(lexer.next_token(), Ok(Token::Identifier("a".to_string())));
    assert_eq!(lexer.next_token(), Err(NonError::TokenizeFailed));
    assert_eq!(lexer.next_token(), Err(NonError::TokenizeFailed));
    assert_eq!(lexer.position(), 2);
}

#[test]
fn tokenize_reads_to_the_end() {
    let mut lexer = NonLexer::new(" a: \n");
    let (tokens, complete) = lexer.tokenize();
    assert_eq!(
        tokens,
        vec![Token::Identifier("a".to_string()), Token::Colon, Token::Newline]
    );
    assert!(complete);
}

#[test]
fn tokenize_stops_at_the_first_fault() {
    let mut lexer = NonLexer::new("a: ''\nb:\n");
    let (tokens, complete) = lexer.tokenize();
    assert_eq!(tokens, vec![Token::Identifier("a".to_string()), Token::Colon]);
    assert!(!complete);
}

#[test]
fn tokenize_of_nothing_is_complete() {
    let mut lexer = NonLexer::new("");
    let (tokens, complete) = lexer.tokenize();
    assert_eq!(tokens, Vec::<Token>::new());
    assert!(complete);
}

#[test]
fn token_kind_and_printing() {
    assert_eq!(Token::Identifier("x".to_string()).kind(), TokenKind::Identifier);
    assert_eq!(Token::Newline.kind(), TokenKind::Newline);
    assert_eq!(Token::Identifier("x".to_string()).to_string(), "Identifier x");
    assert_eq!(Token::Litteral("a b".to_string()).to_string(), "Litteral a b");
    assert_eq!(Token::Space.to_string(), "Space");
    assert_eq!(Token::Dot.to_string(), "Dot");
    assert_eq!(Token::Colon.to_string(), "Colon");
    assert_eq!(Token::At.to_string(), "At");
    assert_eq!(Token::Newline.to_string(), "NewLine");
    assert_eq!(Token::Eof.to_string(), "EOF");
}

#[test]
fn token_clone_keeps_the_text() {
    let token = Token::Litteral("text".to_string());
    assert_eq!(token.clone(), token);
    assert_ne!(token, Token::Identifier("text".to_string()));
}
