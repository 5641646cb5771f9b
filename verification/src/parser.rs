//! Recursive-descent parser: turns a token stream into a table of raw
//! records.

use vstd::prelude::*;
use crate::error::{ErrorView, NonError};
use crate::lexer::{token_stream, tokens_of, NonLexer, Token, TokenView};
use crate::nds::{table_of, NonDefs};
use crate::non::{fields_of, texts_of, Non, Record};
use crate::cycles::{first_fault, is_fault_of, valid};

verus! {

/// The expression that gives a field its value.
#[derive(Debug)]
pub enum FieldValue {
    /// A quoted text, taken as it is.
    Literal(String),
    /// `@`: the id of the record that is being resolved.
    SelfId,
    /// `.name`: the value of another field of the same record.
    SelfFieldRef(String),
    /// `record.name`: the value of a field of another record.
    CrossFieldRef(String, String),
    /// Several values on one line: their texts joined without a separator.
    Concat(Vec<FieldValue>),
}

/// The mathematical value of a [`FieldValue`].
pub enum Expr {
    Literal(Seq<char>),
    SelfId,
    SelfFieldRef(Seq<char>),
    CrossFieldRef(Seq<char>, Seq<char>),
    Concat(Seq<Expr>),
}

impl View for FieldValue {
    type V = Expr;

    open spec fn view(&self) -> Expr
        decreases self,
    {
        match self {
            FieldValue::Literal(s) => Expr::Literal(s@),
            FieldValue::SelfId => Expr::SelfId,
            FieldValue::SelfFieldRef(name) => Expr::SelfFieldRef(name@),
            FieldValue::CrossFieldRef(record, name) => Expr::CrossFieldRef(record@, name@),
            FieldValue::Concat(parts) => Expr::Concat(
                Seq::new(
                    parts.len() as nat,
                    |i: int|
                        if 0 <= i < parts.len() {
                            parts[i]@
                        } else {
                            Expr::SelfId
                        },
                ),
            ),
        }
    }
}

/// The values of a list of expressions, one for one.
pub open spec fn exprs_of(parts: Seq<FieldValue>) -> Seq<Expr> {
    Seq::new(parts.len(), |i: int| parts[i]@)
}

/// The value of a concatenation is the concatenation of its parts' values.
pub proof fn lemma_concat_view(parts: Vec<FieldValue>)
    ensures
        FieldValue::Concat(parts)@ == Expr::Concat(exprs_of(parts@)),
{
    assert(FieldValue::Concat(parts)@->Concat_0 =~= exprs_of(parts@));
}

impl Clone for FieldValue {
    fn clone(&self) -> (r: Self)
        ensures
            r@ == self@,
        decreases self,
    {
        match self {
            FieldValue::Literal(s) => FieldValue::Literal(s.clone()),
            FieldValue::SelfId => FieldValue::SelfId,
            FieldValue::SelfFieldRef(name) => FieldValue::SelfFieldRef(name.clone()),
            FieldValue::CrossFieldRef(record, name) => FieldValue::CrossFieldRef(
                record.clone(),
                name.clone(),
            ),
            FieldValue::Concat(parts) => {
                let mut out: Vec<FieldValue> = Vec::new();
                let mut i: usize = 0;
                while i < parts.len()
                    invariant
                        i <= parts.len(),
                        self matches FieldValue::Concat(p) && p == parts,
                        out@.len() == i,
                        forall|j: int| 0 <= j < i ==> out@[j]@ == parts@[j]@,
                    decreases parts.len() - i,
                {
                    out.push(parts[i].clone());
                    i = i + 1;
                }
                proof {
                    lemma_concat_view(out);
                    lemma_concat_view(*parts);
                    assert(exprs_of(out@) =~= exprs_of(parts@));
                }
                FieldValue::Concat(out)
            },
        }
    }
}

impl PartialEq for FieldValue {
    fn eq(&self, other: &FieldValue) -> (r: bool)
        decreases self,
    {
        match (self, other) {
            (FieldValue::Literal(a), FieldValue::Literal(b)) => *a == *b,
            (FieldValue::SelfId, FieldValue::SelfId) => true,
            (FieldValue::SelfFieldRef(a), FieldValue::SelfFieldRef(b)) => *a == *b,
            (FieldValue::CrossFieldRef(a, f), FieldValue::CrossFieldRef(b, g)) => *a == *b && *f
                == *g,
            (FieldValue::Concat(a), FieldValue::Concat(b)) => {
                proof {
                    lemma_concat_view(*a);
                    lemma_concat_view(*b);
                }
                if a.len() != b.len() {
                    assert(exprs_of(a@).len() != exprs_of(b@).len());
                    return false;
                }
                let mut i: usize = 0;
                while i < a.len()
                    invariant
                        i <= a.len(),
                        a.len() == b.len(),
                        self matches FieldValue::Concat(p) && p == a,
                        self@ == Expr::Concat(exprs_of(a@)),
                        other@ == Expr::Concat(exprs_of(b@)),
                        forall|j: int| 0 <= j < i ==> a@[j]@ == b@[j]@,
                    decreases a.len() - i,
                {
                    if !a[i].eq(&b[i]) {
                        assert(exprs_of(a@)[i as int] != exprs_of(b@)[i as int]);
                        return false;
                    }
                    i = i + 1;
                }
                assert(exprs_of(a@) =~= exprs_of(b@));
                true
            },
            _ => false,
        }
    }
}

impl vstd::std_specs::cmp::PartialEqSpecImpl for FieldValue {
    open spec fn obeys_eq_spec() -> bool {
        true
    }

    open spec fn eq_spec(&self, other: &FieldValue) -> bool {
        self@ == other@
    }
}

/// A named field of a record, with the expression that gives its value.
#[derive(Debug)]
pub struct Field {
    pub name: String,
    pub value: FieldValue,
}

/// The mathematical value of a [`Field`].
pub struct FieldView {
    pub name: Seq<char>,
    pub value: Expr,
}

impl View for Field {
    type V = FieldView;

    open spec fn view(&self) -> FieldView {
        FieldView { name: self.name@, value: self.value@ }
    }
}

impl Clone for Field {
    fn clone(&self) -> (r: Self)
        ensures
            r@ == self@,
    {
        Field { name: self.name.clone(), value: self.value.clone() }
    }
}

impl PartialEq for Field {
    fn eq(&self, other: &Field) -> (r: bool) {
        self.name == other.name && self.value.eq(&other.value)
    }
}

impl vstd::std_specs::cmp::PartialEqSpecImpl for Field {
    open spec fn obeys_eq_spec() -> bool {
        true
    }

    open spec fn eq_spec(&self, other: &Field) -> bool {
        self@ == other@
    }
}

/// The tokens of a source text without the blanks, up to the end of the
/// text or to the first position where no token starts.
pub struct Stream {
    /// The tokens, in the order of the text.
    pub tokens: Seq<TokenView>,
    /// Whether the tokens reach the end of the text.
    pub complete: bool,
}

/// A list with one more item in front, where the rest of it could be read.
pub open spec fn prepend<T>(first: T, rest: Result<(Seq<T>, int), ErrorView>) -> Result<
    (Seq<T>, int),
    ErrorView,
> {
    match rest {
        Ok((items, pos)) => Ok((seq![first] + items, pos)),
        Err(e) => Err(e),
    }
}

/// A list with the items `done` in front, where the rest of it could be
/// read.
pub open spec fn after<T>(done: Seq<T>, rest: Result<(Seq<T>, int), ErrorView>) -> Result<
    (Seq<T>, int),
    ErrorView,
> {
    match rest {
        Ok((items, pos)) => Ok((done + items, pos)),
        Err(e) => Err(e),
    }
}

/// One item in front of the rest, behind the items that are done, is the
/// rest behind the items that are done and that item.
pub proof fn lemma_after_prepend<T>(done: Seq<T>, first: T, rest: Result<(Seq<T>, int), ErrorView>)
    ensures
        after(done, prepend(first, rest)) == after(done.push(first), rest),
{
    match rest {
        Ok((items, pos)) => {
            assert(done + (seq![first] + items) =~= done.push(first) + items);
        },
        Err(e) => {},
    }
}

/// Nothing in front of the rest is the rest.
pub proof fn lemma_after_nothing<T>(rest: Result<(Seq<T>, int), ErrorView>)
    ensures
        after(Seq::<T>::empty(), rest) == rest,
{
    match rest {
        Ok((items, pos)) => {
            assert(Seq::<T>::empty() + items =~= items);
        },
        Err(e) => {},
    }
}

/// The grammar, as functions from a position in the stream to what is read
/// there and the position behind it, or to the error that ends the parse.
///
/// ```text
/// file    := NEWLINE* record*
/// record  := NEWLINE* IDENT COLON parents NEWLINE field*
/// parents := IDENT*
/// field   := DOT IDENT value+ NEWLINE
/// value   := LITERAL | AT | DOT IDENT | IDENT DOT IDENT
/// ```
impl Stream {
    /// The error for a token that is wanted where the stream ends: the text
    /// ended there, or no token starts there.
    pub open spec fn end_error(self) -> ErrorView {
        if self.complete {
            ErrorView::UnexpectedEof
        } else {
            ErrorView::TokenizeFailed
        }
    }

    /// The token at `pos`, without moving: `None` at the end of the text,
    /// an error where no token starts.
    pub open spec fn peek(self, pos: int) -> Result<Option<TokenView>, ErrorView> {
        if 0 <= pos < self.tokens.len() {
            Ok(Some(self.tokens[pos]))
        } else if self.complete {
            Ok(None)
        } else {
            Err(ErrorView::TokenizeFailed)
        }
    }

    /// The token at `pos`, and the position behind it.
    pub open spec fn advance(self, pos: int) -> Result<(TokenView, int), ErrorView> {
        if 0 <= pos < self.tokens.len() {
            Ok((self.tokens[pos], pos + 1))
        } else {
            Err(self.end_error())
        }
    }

    /// The position behind the token at `pos`, which must be `expected`.
    pub open spec fn expect(self, pos: int, expected: TokenView) -> Result<int, ErrorView> {
        match self.advance(pos) {
            Ok((t, next)) => if t == expected {
                Ok(next)
            } else {
                Err(ErrorView::UnexpectedToken(t))
            },
            Err(e) => Err(e),
        }
    }

    /// The text of the token at `pos`, which must be an identifier.
    pub open spec fn identifier(self, pos: int) -> Result<(Seq<char>, int), ErrorView> {
        match self.advance(pos) {
            Ok((TokenView::Identifier(id), next)) => Ok((id, next)),
            Ok((t, _)) => Err(ErrorView::UnexpectedToken(t)),
            Err(e) => Err(e),
        }
    }

    /// `value*`: the values from `pos` up to the end of the line.
    pub open spec fn values(self, pos: int) -> Result<(Seq<Expr>, int), ErrorView>
        decreases self.tokens.len() - pos,
    {
        match self.peek(pos) {
            Err(e) => Err(e),
            Ok(None) => Ok((Seq::empty(), pos)),
            Ok(Some(TokenView::Newline)) => Ok((Seq::empty(), pos)),
            Ok(Some(TokenView::Litteral(s))) => prepend(Expr::Literal(s), self.values(pos + 1)),
            Ok(Some(TokenView::At)) => prepend(Expr::SelfId, self.values(pos + 1)),
            Ok(Some(TokenView::Dot)) => match self.identifier(pos + 1) {
                Ok((name, next)) => prepend(Expr::SelfFieldRef(name), self.values(next)),
                Err(e) => Err(e),
            },
            Ok(Some(TokenView::Identifier(id))) => match self.peek(pos + 1) {
                Err(e) => Err(e),
                Ok(Some(TokenView::Dot)) => match self.identifier(pos + 2) {
                    Ok((name, next)) => prepend(
                        Expr::CrossFieldRef(id, name),
                        self.values(next),
                    ),
                    Err(e) => Err(e),
                },
                Ok(_) => Err(ErrorView::UnexpectedIdentifier(id)),
            },
            Ok(Some(t)) => Err(ErrorView::UnexpectedToken(t)),
        }
    }

    /// `value+`: the expression of a field. One value stands for itself,
    /// several are concatenated, none is an error.
    pub open spec fn field_value(self, pos: int) -> Result<(Expr, int), ErrorView> {
        match self.values(pos) {
            Ok((values, next)) => if values.len() == 0 {
                Err(ErrorView::EmptyFieldValue)
            } else if values.len() == 1 {
                Ok((values[0], next))
            } else {
                Ok((Expr::Concat(values), next))
            },
            Err(e) => Err(e),
        }
    }

    /// `DOT IDENT value+`: a field, without the end of its line.
    pub open spec fn field(self, pos: int) -> Result<(FieldView, int), ErrorView> {
        match self.expect(pos, TokenView::Dot) {
            Ok(at_name) => match self.identifier(at_name) {
                Ok((name, at_value)) => match self.field_value(at_value) {
                    Ok((value, end)) => Ok((FieldView { name, value }, end)),
                    Err(e) => Err(e),
                },
                Err(e) => Err(e),
            },
            Err(e) => Err(e),
        }
    }

    /// `field*`: the fields of a record, each with the end of its line.
    pub open spec fn fields(self, pos: int) -> Result<(Seq<FieldView>, int), ErrorView>
        decreases self.tokens.len() - pos,
    {
        match self.peek(pos) {
            Err(e) => Err(e),
            Ok(Some(TokenView::Dot)) => match self.field(pos) {
                Ok((field, at_end)) => match self.expect(at_end, TokenView::Newline) {
                    Ok(next) => {
                        proof {
                            self.lemma_values_advance(pos + 2);
                        }
                        prepend(field, self.fields(next))
                    },
                    Err(e) => Err(e),
                },
                Err(e) => Err(e),
            },
            Ok(_) => Ok((Seq::empty(), pos)),
        }
    }

    /// `IDENT*`: the parents of a record, up to the end of the line.
    pub open spec fn parents(self, pos: int) -> Result<(Seq<Seq<char>>, int), ErrorView>
        decreases self.tokens.len() - pos,
    {
        match self.peek(pos) {
            Err(e) => Err(e),
            Ok(None) => Ok((Seq::empty(), pos)),
            Ok(Some(TokenView::Newline)) => Ok((Seq::empty(), pos)),
            Ok(Some(TokenView::Identifier(id))) => prepend(id, self.parents(pos + 1)),
            Ok(Some(t)) => Err(ErrorView::UnexpectedToken(t)),
        }
    }

    /// `NEWLINE*`: the position of the first token at or behind `pos` that
    /// is not the end of a line.
    pub open spec fn skip_newlines(self, pos: int) -> Result<int, ErrorView>
        decreases self.tokens.len() - pos,
    {
        match self.peek(pos) {
            Err(e) => Err(e),
            Ok(Some(TokenView::Newline)) => self.skip_newlines(pos + 1),
            Ok(_) => Ok(pos),
        }
    }

    /// `NEWLINE* IDENT COLON parents NEWLINE field*`: a record.
    pub open spec fn record(self, pos: int) -> Result<(Record, int), ErrorView> {
        match self.skip_newlines(pos) {
            Ok(at_id) => match self.identifier(at_id) {
                Ok((id, at_colon)) => match self.expect(at_colon, TokenView::Colon) {
                    Ok(at_parents) => match self.parents(at_parents) {
                        Ok((parents, at_line_end)) => match self.expect(at_line_end, TokenView::Newline) {
                            Ok(at_fields) => match self.fields(at_fields) {
                                Ok((fields, end)) => Ok((Record { id, parents, fields }, end)),
                                Err(e) => Err(e),
                            },
                            Err(e) => Err(e),
                        },
                        Err(e) => Err(e),
                    },
                    Err(e) => Err(e),
                },
                Err(e) => Err(e),
            },
            Err(e) => Err(e),
        }
    }

    /// `record*`: the records from `pos` up to the end of the text.
    pub open spec fn records(self, pos: int) -> Result<(Seq<Record>, int), ErrorView>
        decreases self.tokens.len() - pos,
    {
        match self.peek(pos) {
            Err(e) => Err(e),
            Ok(None) => Ok((Seq::empty(), pos)),
            Ok(Some(_)) => match self.record(pos) {
                Ok((record, next)) => {
                    proof {
                        self.lemma_record_advances(pos);
                    }
                    prepend(record, self.records(next))
                },
                Err(e) => Err(e),
            },
        }
    }

    /// `NEWLINE* record*`: the records from `pos` up to the end of the text,
    /// behind any number of ends of lines, in the order of declaration.
    pub open spec fn records_from(self, pos: int) -> Result<Seq<Record>, ErrorView> {
        match self.skip_newlines(pos) {
            Ok(start) => match self.records(start) {
                Ok((records, _)) => Ok(records),
                Err(e) => Err(e),
            },
            Err(e) => Err(e),
        }
    }

    /// What parsing from `pos` gives: the table of the records that are
    /// read, or the error that ends the parse. A fault of the text comes
    /// before a fault of the parent relation of the table; of those, the
    /// first in the order of the table is reported.
    pub open spec fn table_from(self, pos: int) -> Result<Seq<Record>, ErrorView> {
        match self.records_from(pos) {
            Ok(records) => match first_fault(table_of(records), table_of(records).len()) {
                None => Ok(table_of(records)),
                Some(e) => Err(e),
            },
            Err(e) => Err(e),
        }
    }

    /// The values of a line end at or behind the position where they start,
    /// and inside the stream.
    pub proof fn lemma_values_advance(self, pos: int)
        requires
            0 <= pos,
        ensures
            self.values(pos) matches Ok((_, next)) ==> pos <= next && (next <= self.tokens.len()
                || next == pos),
        decreases self.tokens.len() - pos,
    {
        match self.peek(pos) {
            Ok(Some(TokenView::Litteral(_))) => {
                self.lemma_values_advance(pos + 1);
            },
            Ok(Some(TokenView::At)) => {
                self.lemma_values_advance(pos + 1);
            },
            Ok(Some(TokenView::Dot)) => {
                if self.identifier(pos + 1) is Ok {
                    self.lemma_values_advance(pos + 2);
                }
            },
            Ok(Some(TokenView::Identifier(_))) => {
                if self.peek(pos + 1) == Ok::<Option<TokenView>, ErrorView>(
                    Some(TokenView::Dot),
                ) && self.identifier(pos + 2) is Ok {
                    self.lemma_values_advance(pos + 3);
                }
            },
            _ => {},
        }
    }

    /// The fields of a record end at or behind the position where they
    /// start.
    pub proof fn lemma_fields_advance(self, pos: int)
        requires
            0 <= pos,
        ensures
            self.fields(pos) matches Ok((_, next)) ==> pos <= next && (next <= self.tokens.len()
                || next == pos),
        decreases self.tokens.len() - pos,
    {
        match self.peek(pos) {
            Ok(Some(TokenView::Dot)) => {
                self.lemma_values_advance(pos + 2);
                match self.field(pos) {
                    Ok((_, at_end)) => match self.expect(at_end, TokenView::Newline) {
                        Ok(next) => {
                            self.lemma_fields_advance(next);
                        },
                        Err(_) => {},
                    },
                    Err(_) => {},
                }
            },
            _ => {},
        }
    }

    /// The parents of a record end at or behind the position where they
    /// start.
    pub proof fn lemma_parents_advance(self, pos: int)
        requires
            0 <= pos,
        ensures
            self.parents(pos) matches Ok((_, next)) ==> pos <= next,
        decreases self.tokens.len() - pos,
    {
        match self.peek(pos) {
            Ok(Some(TokenView::Identifier(_))) => {
                self.lemma_parents_advance(pos + 1);
            },
            _ => {},
        }
    }

    /// Skipping the ends of lines ends at or behind the position where it
    /// starts, and inside the stream.
    pub proof fn lemma_skip_newlines_advances(self, pos: int)
        requires
            0 <= pos,
        ensures
            self.skip_newlines(pos) matches Ok(next) ==> pos <= next && (next <= self.tokens.len()
                || next == pos),
        decreases self.tokens.len() - pos,
    {
        match self.peek(pos) {
            Ok(Some(TokenView::Newline)) => {
                self.lemma_skip_newlines_advances(pos + 1);
            },
            _ => {},
        }
    }

    /// A record ends behind the position where it starts, and inside the
    /// stream.
    pub proof fn lemma_record_advances(self, pos: int)
        requires
            0 <= pos,
        ensures
            self.record(pos) matches Ok((_, next)) ==> pos < next <= self.tokens.len(),
    {
        self.lemma_skip_newlines_advances(pos);
        match self.skip_newlines(pos) {
            Ok(at_id) => match self.identifier(at_id) {
                Ok((_, at_colon)) => match self.expect(at_colon, TokenView::Colon) {
                    Ok(at_parents) => {
                        self.lemma_parents_advance(at_parents);
                        match self.parents(at_parents) {
                            Ok((_, at_line_end)) => match self.expect(at_line_end, TokenView::Newline) {
                                Ok(at_fields) => {
                                    self.lemma_fields_advance(at_fields);
                                },
                                Err(_) => {},
                            },
                            Err(_) => {},
                        }
                    },
                    Err(_) => {},
                },
                Err(_) => {},
            },
            Err(_) => {},
        }
    }
}

/// A parser over the tokens of one source text, with a cursor that only
/// moves forward and looks one token ahead.
#[derive(Debug)]
pub struct NonParser {
    tokens: Vec<Token>,
    complete: bool,
    pos: usize,
}

impl NonParser {
    #[verifier::type_invariant]
    spec fn cursor_in_stream(self) -> bool {
        self.pos <= self.tokens.len()
    }

    /// The tokens that the parser reads.
    pub closed spec fn stream(&self) -> Stream {
        Stream { tokens: tokens_of(self.tokens@), complete: self.complete }
    }

    /// The number of tokens that the parser has read.
    pub closed spec fn position(&self) -> int {
        self.pos as int
    }

    /// A parser at the start of the text that `lexer` has left to read.
    pub fn new(lexer: NonLexer) -> (parser: Self)
        ensures
            parser.stream() == (Stream {
                tokens: token_stream(lexer.remaining()).0,
                complete: token_stream(lexer.remaining()).1,
            }),
            parser.position() == 0,
    {
        let mut lexer = lexer;
        let (tokens, complete) = lexer.tokenize();
        NonParser { tokens, complete, pos: 0 }
    }

    /// The error for a token that is wanted where the stream ends.
    fn end_error(&self) -> (e: NonError)
        ensures
            e@ == self.stream().end_error(),
    {
        if self.complete {
            NonError::UnexpectedEof
        } else {
            NonError::TokenizeFailed
        }
    }

    /// The next token, without moving.
    fn peek(&self) -> (res: Result<Option<&Token>, NonError>)
        ensures
            match self.stream().peek(self.position()) {
                Ok(Some(t)) => res matches Ok(Some(token)) && token@ == t && self.position()
                    < self.stream().tokens.len(),
                Ok(None) => res matches Ok(None),
                Err(e) => res matches Err(x) && x@ == e,
            },
    {
        proof {
            use_type_invariant(self);
        }
        if self.pos < self.tokens.len() {
            Ok(Some(&self.tokens[self.pos]))
        } else if self.complete {
            Ok(None)
        } else {
            Err(NonError::TokenizeFailed)
        }
    }

    /// Moves past the next token and hands it out.
    fn advance(&mut self) -> (res: Result<Token, NonError>)
        ensures
            final(self).stream() == old(self).stream(),
            match old(self).stream().advance(old(self).position()) {
                Ok((t, next)) => res matches Ok(token) && token@ == t && final(self).position()
                    == next,
                Err(e) => res matches Err(x) && x@ == e && final(self).position() == old(self).position(),
            },
    {
        proof {
            use_type_invariant(&*self);
        }
        if self.pos < self.tokens.len() {
            let token = self.tokens[self.pos].clone();
            self.pos = self.pos + 1;
            Ok(token)
        } else {
            Err(self.end_error())
        }
    }

    /// Moves past the next token, which must be `expected`.
    fn expect(&mut self, expected: Token) -> (res: Result<(), NonError>)
        ensures
            final(self).stream() == old(self).stream(),
            match old(self).stream().expect(old(self).position(), expected@) {
                Ok(next) => res is Ok && final(self).position() == next,
                Err(e) => res matches Err(x) && x@ == e,
            },
    {
        match self.advance() {
            Ok(token) => if token == expected {
                Ok(())
            } else {
                Err(NonError::UnexpectedToken(token))
            },
            Err(e) => Err(e),
        }
    }

    /// Moves past the next token, which must be an identifier, and hands
    /// out its text.
    fn identifier(&mut self) -> (res: Result<String, NonError>)
        ensures
            final(self).stream() == old(self).stream(),
            match old(self).stream().identifier(old(self).position()) {
                Ok((id, next)) => res matches Ok(text) && text@ == id && final(self).position()
                    == next,
                Err(e) => res matches Err(x) && x@ == e,
            },
    {
        match self.advance() {
            Ok(Token::Identifier(id)) => Ok(id),
            Ok(token) => Err(NonError::UnexpectedToken(token)),
            Err(e) => Err(e),
        }
    }

    /// Reads `IDENT` behind a dot in a value: a reference to a field of the
    /// same record.
    fn parse_field_reference(&mut self) -> (res: Result<FieldValue, NonError>)
        ensures
            final(self).stream() == old(self).stream(),
            match old(self).stream().identifier(old(self).position()) {
                Ok((name, next)) => res matches Ok(value) && value@ == Expr::SelfFieldRef(name)
                    && final(self).position() == next,
                Err(e) => res matches Err(x) && x@ == e,
            },
    {
        match self.identifier() {
            Ok(field) => Ok(FieldValue::SelfFieldRef(field)),
            Err(e) => Err(e),
        }
    }

    /// Reads `value+`: the expression of a field, up to the end of its line.
    pub fn parse_field_value(&mut self) -> (res: Result<FieldValue, NonError>)
        ensures
            final(self).stream() == old(self).stream(),
            match old(self).stream().field_value(old(self).position()) {
                Ok((expr, next)) => res matches Ok(value) && value@ == expr && final(self).position() == next,
                Err(e) => res matches Err(x) && x@ == e,
            },
    {
        let ghost stream = self.stream();
        let ghost start = self.position();
        let mut values: Vec<FieldValue> = Vec::new();
        proof {
            lemma_after_nothing(stream.values(start));
            assert(exprs_of(values@) =~= Seq::empty());
        }
        loop
            invariant
                self.stream() == stream,
                stream == old(self).stream(),
                start == old(self).position(),
                0 <= self.position(),
                stream.values(start) == after(exprs_of(values@), stream.values(self.position())),
            ensures
                self.stream() == stream,
                stream.values(start) == Ok::<(Seq<Expr>, int), ErrorView>(
                    (exprs_of(values@), self.position()),
                ),
            decreases stream.tokens.len() - self.position(),
        {
            let ghost pos = self.position();
            let ghost done = exprs_of(values@);
            let value = match self.peek() {
                Err(e) => {
                    return Err(e);
                },
                Ok(None) => {
                    assert(done + Seq::<Expr>::empty() =~= done);
                    break ;
                },
                Ok(Some(Token::Newline)) => {
                    assert(done + Seq::<Expr>::empty() =~= done);
                    break ;
                },
                Ok(Some(Token::Litteral(_))) => {
                    match self.advance() {
                        Ok(Token::Litteral(s)) => FieldValue::Literal(s),
                        Ok(token) => {
                            return Err(NonError::UnexpectedToken(token));
                        },
                        Err(e) => {
                            return Err(e);
                        },
                    }
                },
                Ok(Some(Token::At)) => {
                    match self.advance() {
                        Ok(_) => FieldValue::SelfId,
                        Err(e) => {
                            return Err(e);
                        },
                    }
                },
                Ok(Some(Token::Dot)) => {
                    match self.advance() {
                        Ok(_) => {},
                        Err(e) => {
                            return Err(e);
                        },
                    }
                    match self.parse_field_reference() {
                        Ok(value) => value,
                        Err(e) => {
                            return Err(e);
                        },
                    }
                },
                Ok(Some(Token::Identifier(_))) => {
                    let id = match self.identifier() {
                        Ok(id) => id,
                        Err(e) => {
                            return Err(e);
                        },
                    };
                    match self.peek() {
                        Err(e) => {
                            return Err(e);
                        },
                        Ok(Some(Token::Dot)) => {},
                        Ok(_) => {
                            return Err(NonError::UnexpectedIdentifier(id));
                        },
                    }
                    match self.advance() {
                        Ok(_) => {},
                        Err(e) => {
                            return Err(e);
                        },
                    }
                    match self.identifier() {
                        Ok(field) => FieldValue::CrossFieldRef(id, field),
                        Err(e) => {
                            return Err(e);
                        },
                    }
                },
                Ok(Some(token)) => {
                    return Err(NonError::UnexpectedToken(token.clone()));
                },
            };
            proof {
                lemma_after_prepend(done, value@, stream.values(self.position()));
                assert(exprs_of(values@.push(value)) =~= done.push(value@));
            }
            values.push(value);
        }
        if values.len() == 0 {
            Err(NonError::EmptyFieldValue)
        } else if values.len() == 1 {
            let value = values.pop().unwrap();
            Ok(value)
        } else {
            proof {
                lemma_concat_view(values);
            }
            Ok(FieldValue::Concat(values))
        }
    }

    /// Reads `DOT IDENT value+`: a field, without the end of its line.
    pub fn parse_field(&mut self) -> (res: Result<Field, NonError>)
        ensures
            final(self).stream() == old(self).stream(),
            match old(self).stream().field(old(self).position()) {
                Ok((f, next)) => res matches Ok(field) && field@ == f && final(self).position()
                    == next,
                Err(e) => res matches Err(x) && x@ == e,
            },
    {
        match self.expect(Token::Dot) {
            Ok(_) => {},
            Err(e) => {
                return Err(e);
            },
        }
        let name = match self.identifier() {
            Ok(name) => name,
            Err(e) => {
                return Err(e);
            },
        };
        let value = match self.parse_field_value() {
            Ok(value) => value,
            Err(e) => {
                return Err(e);
            },
        };
        Ok(Field { name, value })
    }

    /// Reads `field*`: the fields of a record, each with the end of its
    /// line.
    pub fn parse_fields(&mut self) -> (res: Result<Vec<Field>, NonError>)
        ensures
            final(self).stream() == old(self).stream(),
            match old(self).stream().fields(old(self).position()) {
                Ok((fs, next)) => res matches Ok(fields) && fields_of(fields@) == fs && final(self).position() == next,
                Err(e) => res matches Err(x) && x@ == e,
            },
    {
        let ghost stream = self.stream();
        let ghost start = self.position();
        let mut fields: Vec<Field> = Vec::new();
        proof {
            lemma_after_nothing(stream.fields(start));
            assert(fields_of(fields@) =~= Seq::empty());
        }
        loop
            invariant
                self.stream() == stream,
                stream == old(self).stream(),
                start == old(self).position(),
                0 <= self.position(),
                stream.fields(start) == after(fields_of(fields@), stream.fields(self.position())),
            ensures
                self.stream() == stream,
                stream.fields(start) == Ok::<(Seq<FieldView>, int), ErrorView>(
                    (fields_of(fields@), self.position()),
                ),
            decreases stream.tokens.len() - self.position(),
        {
            let ghost pos = self.position();
            let ghost done = fields_of(fields@);
            match self.peek() {
                Err(e) => {
                    return Err(e);
                },
                Ok(Some(Token::Dot)) => {},
                Ok(_) => {
                    assert(done + Seq::<FieldView>::empty() =~= done);
                    break ;
                },
            }
            proof {
                stream.lemma_values_advance(pos + 2);
            }
            let field = match self.parse_field() {
                Ok(field) => field,
                Err(e) => {
                    return Err(e);
                },
            };
            match self.expect(Token::Newline) {
                Ok(_) => {},
                Err(e) => {
                    return Err(e);
                },
            }
            proof {
                lemma_after_prepend(done, field@, stream.fields(self.position()));
                assert(fields_of(fields@.push(field)) =~= done.push(field@));
            }
            fields.push(field);
        }
        Ok(fields)
    }

    /// Reads `IDENT*`: the parents of a record, up to the end of the line.
    pub fn parse_parents(&mut self) -> (res: Result<Vec<String>, NonError>)
        ensures
            final(self).stream() == old(self).stream(),
            match old(self).stream().parents(old(self).position()) {
                Ok((ps, next)) => res matches Ok(parents) && texts_of(parents@) == ps && final(self).position() == next,
                Err(e) => res matches Err(x) && x@ == e,
            },
    {
        let ghost stream = self.stream();
        let ghost start = self.position();
        let mut parents: Vec<String> = Vec::new();
        proof {
            lemma_after_nothing(stream.parents(start));
            assert(texts_of(parents@) =~= Seq::empty());
        }
        loop
            invariant
                self.stream() == stream,
                stream == old(self).stream(),
                start == old(self).position(),
                0 <= self.position(),
                stream.parents(start) == after(
                    texts_of(parents@),
                    stream.parents(self.position()),
                ),
            ensures
                self.stream() == stream,
                stream.parents(start) == Ok::<(Seq<Seq<char>>, int), ErrorView>(
                    (texts_of(parents@), self.position()),
                ),
            decreases stream.tokens.len() - self.position(),
        {
            let ghost done = texts_of(parents@);
            match self.peek() {
                Err(e) => {
                    return Err(e);
                },
                Ok(None) => {
                    assert(done + Seq::<Seq<char>>::empty() =~= done);
                    break ;
                },
                Ok(Some(Token::Newline)) => {
                    assert(done + Seq::<Seq<char>>::empty() =~= done);
                    break ;
                },
                Ok(Some(Token::Identifier(_))) => {},
                Ok(Some(token)) => {
                    return Err(NonError::UnexpectedToken(token.clone()));
                },
            }
            let id = match self.identifier() {
                Ok(id) => id,
                Err(e) => {
                    return Err(e);
                },
            };
            proof {
                lemma_after_prepend(done, id@, stream.parents(self.position()));
                assert(texts_of(parents@.push(id)) =~= done.push(id@));
            }
            parents.push(id);
        }
        Ok(parents)
    }

    /// Reads `NEWLINE*`: moves to the first token that is not the end of a
    /// line.
    fn skip_newlines(&mut self) -> (res: Result<(), NonError>)
        ensures
            final(self).stream() == old(self).stream(),
            match old(self).stream().skip_newlines(old(self).position()) {
                Ok(next) => res is Ok && final(self).position() == next,
                Err(e) => res matches Err(x) && x@ == e,
            },
    {
        let ghost stream = self.stream();
        let ghost start = self.position();
        loop
            invariant
                self.stream() == stream,
                stream == old(self).stream(),
                start == old(self).position(),
                0 <= self.position(),
                stream.skip_newlines(start) == stream.skip_newlines(self.position()),
            ensures
                self.stream() == stream,
                stream.skip_newlines(start) == Ok::<int, ErrorView>(self.position()),
            decreases stream.tokens.len() - self.position(),
        {
            match self.peek() {
                Err(e) => {
                    return Err(e);
                },
                Ok(Some(Token::Newline)) => {},
                Ok(_) => {
                    break ;
                },
            }
            match self.advance() {
                Ok(_) => {},
                Err(e) => {
                    return Err(e);
                },
            }
        }
        Ok(())
    }

    /// Reads `NEWLINE* IDENT COLON parents NEWLINE field*`: a record.
    pub fn parse_non(&mut self) -> (res: Result<Non, NonError>)
        ensures
            final(self).stream() == old(self).stream(),
            match old(self).stream().record(old(self).position()) {
                Ok((r, next)) => res matches Ok(non) && non@ == r && final(self).position()
                    == next,
                Err(e) => res matches Err(x) && x@ == e,
            },
    {
        match self.skip_newlines() {
            Ok(_) => {},
            Err(e) => {
                return Err(e);
            },
        }
        let id = match self.identifier() {
            Ok(id) => id,
            Err(e) => {
                return Err(e);
            },
        };
        match self.expect(Token::Colon) {
            Ok(_) => {},
            Err(e) => {
                return Err(e);
            },
        }
        let parents = match self.parse_parents() {
            Ok(parents) => parents,
            Err(e) => {
                return Err(e);
            },
        };
        match self.expect(Token::Newline) {
            Ok(_) => {},
            Err(e) => {
                return Err(e);
            },
        }
        let fields = match self.parse_fields() {
            Ok(fields) => fields,
            Err(e) => {
                return Err(e);
            },
        };
        Ok(Non::new(id, parents, fields))
    }

    /// Reads the whole text, `NEWLINE* record*`, into a table, and checks
    /// the parent relation of the table.
    ///
    /// Of two records with one id the later one replaces the earlier one as
    /// a whole. A fault of the text is reported before any fault of the
    /// parent relation.
    pub fn parse(&mut self) -> (res: Result<NonDefs, NonError>)
        ensures
            final(self).stream() == old(self).stream(),
            match old(self).stream().table_from(old(self).position()) {
                Ok(table) => res matches Ok(defs) && defs@ == table,
                Err(e) => res matches Err(x) && x@ == e,
            },
            old(self).stream().records_from(old(self).position()) matches Ok(records) ==> {
                &&& res is Ok <==> valid(table_of(records))
                &&& res matches Err(x) ==> is_fault_of(table_of(records), x@)
            },
    {
        let ghost stream = self.stream();
        let ghost start = self.position();
        let mut nons = NonDefs::new(Vec::new());
        match self.skip_newlines() {
            Ok(_) => {},
            Err(e) => {
                return Err(e);
            },
        }
        let ghost first = self.position();
        let ghost done: Seq<Record> = Seq::empty();
        proof {
            lemma_after_nothing(stream.records(first));
            stream.lemma_skip_newlines_advances(start);
            assert(nons@ =~= table_of(done));
        }
        loop
            invariant
                self.stream() == stream,
                stream == old(self).stream(),
                0 <= self.position(),
                start == old(self).position(),
                stream.skip_newlines(start) == Ok::<int, ErrorView>(first),
                stream.records(first) == after(done, stream.records(self.position())),
                nons@ == table_of(done),
            ensures
                self.stream() == stream,
                stream.records(first) matches Ok((records, _)) && records == done,
                nons@ == table_of(done),
            decreases stream.tokens.len() - self.position(),
        {
            let ghost pos = self.position();
            match self.peek() {
                Err(e) => {
                    return Err(e);
                },
                Ok(None) => {
                    assert(done + Seq::<Record>::empty() =~= done);
                    break ;
                },
                Ok(Some(_)) => {},
            }
            proof {
                stream.lemma_record_advances(pos);
            }
            let non = match self.parse_non() {
                Ok(non) => non,
                Err(e) => {
                    return Err(e);
                },
            };
            proof {
                lemma_after_prepend(done, non@, stream.records(self.position()));
                assert(done.push(non@).drop_last() =~= done);
                done = done.push(non@);
            }
            nons.insert(non);
        }
        match Self::detect_cycles(&nons) {
            Ok(_) => Ok(nons),
            Err(e) => Err(e),
        }
    }
}

/// The token stream of a source text.
pub open spec fn stream_of(source: Seq<char>) -> Stream {
    Stream { tokens: token_stream(source).0, complete: token_stream(source).1 }
}

/// What compiling a source text gives: the table of its records, or the
/// first error of reading the text or of checking the parent relation.
pub open spec fn compiled(source: Seq<char>) -> Result<Seq<Record>, ErrorView> {
    stream_of(source).table_from(0)
}

impl NonDefs {
    /// Compiles a source text into a table: splits it into tokens, parses
    /// the tokens into records, puts the records into a table and checks the
    /// parent relation of the table.
    pub fn from_str(s: &str) -> (res: Result<NonDefs, NonError>)
        ensures
            match compiled(s@) {
                Ok(table) => res matches Ok(defs) && defs@ == table,
                Err(e) => res matches Err(x) && x@ == e,
            },
            stream_of(s@).records_from(0) matches Ok(records) ==> {
                &&& res is Ok <==> valid(table_of(records))
                &&& res matches Err(x) ==> is_fault_of(table_of(records), x@)
            },
    {
        let lexer = NonLexer::new(s);
        assert(lexer.remaining() =~= s@);
        let mut parser = NonParser::new(lexer);
        parser.parse()
    }
}

} // verus!
