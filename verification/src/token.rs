//! Tokens as a kind and an optional text.

use vstd::prelude::*;
use vstd::std_specs::convert::FromSpecImpl;

verus! {

/// The text that a token carries, if it carries one.
pub type TokenValue = Option<String>;

/// What sort of token a piece of source text is.
#[derive(Debug, Clone, Copy, PartialEq, Eq, Structural)]
pub enum TokenKind {
    Identifier,
    Litteral,
    Space,
    Dot,
    Colon,
    At,
    Newline,
    Eof,
}

impl TokenKind {
    /// Whether tokens of this kind carry a text.
    pub open spec fn has_text(self) -> bool {
        self == TokenKind::Identifier || self == TokenKind::Litteral
    }

    /// Executable test for [`TokenKind::has_text`].
    pub fn carries_text(&self) -> (b: bool)
        ensures
            b == self.has_text(),
    {
        match self {
            TokenKind::Identifier => true,
            TokenKind::Litteral => true,
            _ => false,
        }
    }

    /// The name of the kind, as it is printed.
    pub open spec fn name(self) -> Seq<char> {
        match self {
            TokenKind::Identifier => "Identifier"@,
            TokenKind::Litteral => "Litteral"@,
            TokenKind::Space => "Space"@,
            TokenKind::Dot => "Dot"@,
            TokenKind::Colon => "Colon"@,
            TokenKind::At => "At"@,
            TokenKind::Newline => "NewLine"@,
            TokenKind::Eof => "EOF"@,
        }
    }

    /// The name of the kind, as it is printed.
    pub fn to_string(&self) -> (s: String)
        ensures
            s@ == self.name(),
    {
        match self {
            TokenKind::Identifier => "Identifier".to_owned(),
            TokenKind::Litteral => "Litteral".to_owned(),
            TokenKind::Space => "Space".to_owned(),
            TokenKind::Dot => "Dot".to_owned(),
            TokenKind::Colon => "Colon".to_owned(),
            TokenKind::At => "At".to_owned(),
            TokenKind::Newline => "NewLine".to_owned(),
            TokenKind::Eof => "EOF".to_owned(),
        }
    }
}

/// Why a kind and a text do not make a token with a text.
#[derive(Debug, Clone, Copy, PartialEq, Eq, Structural)]
pub enum LexerError {
    /// The kind carries a text, and none was given.
    MissingTokenValue,
    /// The kind carries no text.
    InvalidTokenKind(TokenKind),
}

/// A token: its kind and, for the kinds that carry one, its text.
#[derive(Debug)]
pub struct Token {
    pub kind: TokenKind,
    pub value: TokenValue,
}

impl Token {
    /// A token of the given kind and text.
    pub fn new(kind: TokenKind, value: TokenValue) -> (token: Self)
        ensures
            token.kind == kind,
            token.value == value,
    {
        Self { kind, value }
    }

    /// The text of the token, where its kind carries a text and it has
    /// one.
    pub fn get_token_str_raw_value(&self) -> (res: Option<String>)
        ensures
            match self.value {
                Some(text) => if self.kind.has_text() {
                    res matches Some(s) && s@ == text@
                } else {
                    res is None
                },
                None => res is None,
            },
    {
        if self.kind.carries_text() {
            match &self.value {
                Some(value) => {
                    return Some(value.clone());
                },
                None => {},
            }
        }
        None
    }

    /// Checks that a kind and a text make a token with a text: the kind
    /// must carry a text, and the text must be there.
    pub fn verify_token(kind: TokenKind, value: TokenValue) -> (res: Result<(), LexerError>)
        ensures
            res == if kind.has_text() {
                if value is Some {
                    Ok::<(), LexerError>(())
                } else {
                    Err::<(), LexerError>(LexerError::MissingTokenValue)
                }
            } else {
                Err::<(), LexerError>(LexerError::InvalidTokenKind(kind))
            },
    {
        if kind.carries_text() {
            if value.is_some() {
                return Ok(());
            } else {
                return Err(LexerError::MissingTokenValue);
            }
        }
        Err(LexerError::InvalidTokenKind(kind))
    }
}

impl Default for Token {
    /// The token that ends the input.
    fn default() -> (token: Self)
        ensures
            token.kind == TokenKind::Eof,
            token.value is None,
    {
        Self { kind: TokenKind::Eof, value: None }
    }
}

impl From<TokenKind> for Token {
    /// The token of the given kind without a text.
    fn from(kind: TokenKind) -> (token: Self) {
        let _ = Token::verify_token(kind, None);
        Token::new(kind, None)
    }
}

impl FromSpecImpl<TokenKind> for Token {
    open spec fn obeys_from_spec() -> bool {
        true
    }

    open spec fn from_spec(kind: TokenKind) -> Token {
        Token { kind, value: None }
    }
}

} // verus!
