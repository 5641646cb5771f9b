//! The errors of lexing, parsing, validation and resolution.

use vstd::prelude::*;
use crate::lexer::{Token, TokenView};

verus! {

/// Why a source text could not be compiled, or a record not resolved.
#[derive(Debug)]
pub enum NonError {
    /// No token starts at the current position of the input.
    TokenizeFailed,
    /// A token that the grammar does not allow where it stands.
    UnexpectedToken(Token),
    /// The input ended in the middle of a production.
    UnexpectedEof,
    /// A bare identifier stands where a value is expected.
    UnexpectedIdentifier(String),
    /// A field line holds no value.
    EmptyFieldValue,
    /// The parent relation has a cycle; the id is that of the record from
    /// which the search that met it started.
    CyclicDependency(String),
    /// A record id that the table does not hold.
    UndefinedRecord(String),
    /// A field name that the flattened record does not hold.
    UndefinedField(String),
    /// Evaluating the field of the record leads back to itself.
    CyclicFieldReference(String, String),
}

/// The mathematical value of a [`NonError`].
pub enum ErrorView {
    TokenizeFailed,
    UnexpectedToken(TokenView),
    UnexpectedEof,
    UnexpectedIdentifier(Seq<char>),
    EmptyFieldValue,
    CyclicDependency(Seq<char>),
    UndefinedRecord(Seq<char>),
    UndefinedField(Seq<char>),
    CyclicFieldReference(Seq<char>, Seq<char>),
}

impl View for NonError {
    type V = ErrorView;

    open spec fn view(&self) -> ErrorView {
        match self {
            NonError::TokenizeFailed => ErrorView::TokenizeFailed,
            NonError::UnexpectedToken(t) => ErrorView::UnexpectedToken(t@),
            NonError::UnexpectedEof => ErrorView::UnexpectedEof,
            NonError::UnexpectedIdentifier(s) => ErrorView::UnexpectedIdentifier(s@),
            NonError::EmptyFieldValue => ErrorView::EmptyFieldValue,
            NonError::CyclicDependency(s) => ErrorView::CyclicDependency(s@),
            NonError::UndefinedRecord(s) => ErrorView::UndefinedRecord(s@),
            NonError::UndefinedField(s) => ErrorView::UndefinedField(s@),
            NonError::CyclicFieldReference(r, f) => ErrorView::CyclicFieldReference(r@, f@),
        }
    }
}

impl Clone for NonError {
    fn clone(&self) -> (r: Self)
        ensures
            r@ == self@,
    {
        match self {
            NonError::TokenizeFailed => NonError::TokenizeFailed,
            NonError::UnexpectedToken(t) => NonError::UnexpectedToken(t.clone()),
            NonError::UnexpectedEof => NonError::UnexpectedEof,
            NonError::UnexpectedIdentifier(s) => NonError::UnexpectedIdentifier(s.clone()),
            NonError::EmptyFieldValue => NonError::EmptyFieldValue,
            NonError::CyclicDependency(s) => NonError::CyclicDependency(s.clone()),
            NonError::UndefinedRecord(s) => NonError::UndefinedRecord(s.clone()),
            NonError::UndefinedField(s) => NonError::UndefinedField(s.clone()),
            NonError::CyclicFieldReference(r, f) => NonError::CyclicFieldReference(
                r.clone(),
                f.clone(),
            ),
        }
    }
}

impl PartialEq for NonError {
    fn eq(&self, other: &NonError) -> (r: bool) {
        match (self, other) {
            (NonError::TokenizeFailed, NonError::TokenizeFailed) => true,
            (NonError::UnexpectedToken(a), NonError::UnexpectedToken(b)) => *a == *b,
            (NonError::UnexpectedEof, NonError::UnexpectedEof) => true,
            (NonError::UnexpectedIdentifier(a), NonError::UnexpectedIdentifier(b)) => *a == *b,
            (NonError::EmptyFieldValue, NonError::EmptyFieldValue) => true,
            (NonError::CyclicDependency(a), NonError::CyclicDependency(b)) => *a == *b,
            (NonError::UndefinedRecord(a), NonError::UndefinedRecord(b)) => *a == *b,
            (NonError::UndefinedField(a), NonError::UndefinedField(b)) => *a == *b,
            (NonError::CyclicFieldReference(a, f), NonError::CyclicFieldReference(b, g)) => *a
                == *b && *f == *g,
            _ => false,
        }
    }
}

impl vstd::std_specs::cmp::PartialEqSpecImpl for NonError {
    open spec fn obeys_eq_spec() -> bool {
        true
    }

    open spec fn eq_spec(&self, other: &NonError) -> bool {
        self@ == other@
    }
}

impl ErrorView {
    /// The message of the error.
    pub open spec fn message(self) -> Seq<char> {
        match self {
            ErrorView::TokenizeFailed => "Tokenize error"@,
            ErrorView::UnexpectedToken(t) => "Unexpected token: "@ + t.printed(),
            ErrorView::UnexpectedEof => "Unexpected EOF"@,
            ErrorView::UnexpectedIdentifier(id) => "Unexpected identifier: "@ + id,
            ErrorView::EmptyFieldValue => "Empty field value"@,
            ErrorView::CyclicDependency(id) => "Cyclic dependency found: "@ + id,
            ErrorView::UndefinedRecord(id) => "Undefined non: "@ + id,
            ErrorView::UndefinedField(name) => "Undefined field: "@ + name,
            ErrorView::CyclicFieldReference(id, name) => "Cyclic field reference: "@ + id + "."@
                + name,
        }
    }
}

impl NonError {
    /// The message of the error.
    pub fn to_string(&self) -> (s: String)
        ensures
            s@ == self@.message(),
    {
        match self {
            NonError::TokenizeFailed => "Tokenize error".to_owned(),
            NonError::UnexpectedToken(t) => {
                let mut out = "Unexpected token: ".to_owned();
                out.append(t.to_string().as_str());
                out
            },
            NonError::UnexpectedEof => "Unexpected EOF".to_owned(),
            NonError::UnexpectedIdentifier(id) => {
                let mut out = "Unexpected identifier: ".to_owned();
                out.append(id.as_str());
                out
            },
            NonError::EmptyFieldValue => "Empty field value".to_owned(),
            NonError::CyclicDependency(id) => {
                let mut out = "Cyclic dependency found: ".to_owned();
                out.append(id.as_str());
                out
            },
            NonError::UndefinedRecord(id) => {
                let mut out = "Undefined non: ".to_owned();
                out.append(id.as_str());
                out
            },
            NonError::UndefinedField(name) => {
                let mut out = "Undefined field: ".to_owned();
                out.append(name.as_str());
                out
            },
            NonError::CyclicFieldReference(id, name) => {
                let mut out = "Cyclic field reference: ".to_owned();
                out.append(id.as_str());
                out.append(".");
                out.append(name.as_str());
                out
            },
        }
    }
}

} // verus!
