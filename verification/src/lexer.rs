//! Tokenizer: turns source text into a stream of tokens.

use vstd::prelude::*;
use crate::error::{ErrorView, NonError};
use crate::text::{chars_of, text_of};
use crate::token::TokenKind;

verus! {

/// A lexical token of the language.
#[derive(Debug)]
pub enum Token {
    /// A run of identifier characters.
    Identifier(String),
    /// The text between two single quotes.
    Litteral(String),
    /// A run of spaces and tabs.
    Space,
    /// `.`
    Dot,
    /// `:`
    Colon,
    /// `@`
    At,
    /// A line feed.
    Newline,
    /// The end of the input.
    Eof,
}

/// The mathematical value of a [`Token`].
pub enum TokenView {
    Identifier(Seq<char>),
    Litteral(Seq<char>),
    Space,
    Dot,
    Colon,
    At,
    Newline,
    Eof,
}

impl View for Token {
    type V = TokenView;

    open spec fn view(&self) -> TokenView {
        match self {
            Token::Identifier(s) => TokenView::Identifier(s@),
            Token::Litteral(s) => TokenView::Litteral(s@),
            Token::Space => TokenView::Space,
            Token::Dot => TokenView::Dot,
            Token::Colon => TokenView::Colon,
            Token::At => TokenView::At,
            Token::Newline => TokenView::Newline,
            Token::Eof => TokenView::Eof,
        }
    }
}

impl TokenView {
    /// The kind of the token.
    pub open spec fn kind(self) -> TokenKind {
        match self {
            TokenView::Identifier(_) => TokenKind::Identifier,
            TokenView::Litteral(_) => TokenKind::Litteral,
            TokenView::Space => TokenKind::Space,
            TokenView::Dot => TokenKind::Dot,
            TokenView::Colon => TokenKind::Colon,
            TokenView::At => TokenKind::At,
            TokenView::Newline => TokenKind::Newline,
            TokenView::Eof => TokenKind::Eof,
        }
    }

    /// The token as it is printed: the name of its kind, followed for an
    /// identifier or a literal by a space and its text.
    pub open spec fn printed(self) -> Seq<char> {
        match self {
            TokenView::Identifier(s) => "Identifier "@ + s,
            TokenView::Litteral(s) => "Litteral "@ + s,
            _ => self.kind().name(),
        }
    }
}

impl Token {
    /// The kind of the token.
    pub fn kind(&self) -> (kind: TokenKind)
        ensures
            kind == self@.kind(),
    {
        match self {
            Token::Identifier(_) => TokenKind::Identifier,
            Token::Litteral(_) => TokenKind::Litteral,
            Token::Space => TokenKind::Space,
            Token::Dot => TokenKind::Dot,
            Token::Colon => TokenKind::Colon,
            Token::At => TokenKind::At,
            Token::Newline => TokenKind::Newline,
            Token::Eof => TokenKind::Eof,
        }
    }

    /// The token as it is printed.
    pub fn to_string(&self) -> (s: String)
        ensures
            s@ == self@.printed(),
    {
        match self {
            Token::Identifier(text) => {
                let mut out = "Identifier ".to_owned();
                out.append(text.as_str());
                out
            },
            Token::Litteral(text) => {
                let mut out = "Litteral ".to_owned();
                out.append(text.as_str());
                out
            },
            _ => self.kind().to_string(),
        }
    }
}

impl Clone for Token {
    fn clone(&self) -> (r: Self)
        ensures
            r@ == self@,
    {
        match self {
            Token::Identifier(s) => Token::Identifier(s.clone()),
            Token::Litteral(s) => Token::Litteral(s.clone()),
            Token::Space => Token::Space,
            Token::Dot => Token::Dot,
            Token::Colon => Token::Colon,
            Token::At => Token::At,
            Token::Newline => Token::Newline,
            Token::Eof => Token::Eof,
        }
    }
}

impl PartialEq for Token {
    fn eq(&self, other: &Token) -> (r: bool) {
        match (self, other) {
            (Token::Identifier(a), Token::Identifier(b)) => *a == *b,
            (Token::Litteral(a), Token::Litteral(b)) => *a == *b,
            (Token::Space, Token::Space) => true,
            (Token::Dot, Token::Dot) => true,
            (Token::Colon, Token::Colon) => true,
            (Token::At, Token::At) => true,
            (Token::Newline, Token::Newline) => true,
            (Token::Eof, Token::Eof) => true,
            _ => false,
        }
    }
}

impl vstd::std_specs::cmp::PartialEqSpecImpl for Token {
    open spec fn obeys_eq_spec() -> bool {
        true
    }

    open spec fn eq_spec(&self, other: &Token) -> bool {
        self@ == other@
    }
}

/// The mathematical values of a list of tokens, one for one.
pub open spec fn tokens_of(tokens: Seq<Token>) -> Seq<TokenView> {
    Seq::new(tokens.len(), |i: int| tokens[i]@)
}

/// Whether `c` may appear in an identifier: an ASCII letter, an ASCII digit
/// or an underscore.
pub open spec fn is_ident_char(c: char) -> bool {
    ||| ('a' <= c && c <= 'z')
    ||| ('A' <= c && c <= 'Z')
    ||| ('0' <= c && c <= '9')
    ||| c == '_'
}

/// Whether `c` is horizontal white space: a space or a tab.
pub open spec fn is_blank(c: char) -> bool {
    c == ' ' || c == '\t'
}

/// Whether `c` may appear inside a quoted literal: anything but a quote.
pub open spec fn is_literal_char(c: char) -> bool {
    c != '\''
}

/// The three classes of characters of which a token can hold a run.
pub enum CharClass {
    Ident,
    Blank,
    LiteralBody,
}

impl CharClass {
    /// Whether `c` belongs to the class.
    pub open spec fn has(self, c: char) -> bool {
        match self {
            CharClass::Ident => is_ident_char(c),
            CharClass::Blank => is_blank(c),
            CharClass::LiteralBody => is_literal_char(c),
        }
    }

    /// Executable membership test.
    pub fn contains(&self, c: char) -> (b: bool)
        ensures
            b == self.has(c),
    {
        match self {
            CharClass::Ident => ('a' <= c && c <= 'z') || ('A' <= c && c <= 'Z') || ('0' <= c
                && c <= '9') || c == '_',
            CharClass::Blank => c == ' ' || c == '\t',
            CharClass::LiteralBody => c != '\'',
        }
    }
}

/// The length of the longest prefix of `s` whose characters are all in
/// `class`.
pub open spec fn run_len(s: Seq<char>, class: CharClass) -> nat
    decreases s.len(),
{
    if s.len() > 0 && class.has(s[0]) {
        1 + run_len(s.drop_first(), class)
    } else {
        0
    }
}

/// The token at the start of `s` and the number of characters it spans, or
/// `None` where no token starts there (which includes the empty input).
pub open spec fn first_token(s: Seq<char>) -> Option<(TokenView, nat)> {
    if s.len() == 0 {
        None
    } else if is_ident_char(s[0]) {
        let n = run_len(s, CharClass::Ident);
        Some((TokenView::Identifier(s.take(n as int)), n))
    } else if s[0] == '\'' {
        let n = run_len(s.skip(1), CharClass::LiteralBody);
        if n > 0 && n + 1 < s.len() {
            Some((TokenView::Litteral(s.subrange(1, n as int + 1)), n + 2))
        } else {
            None
        }
    } else if s[0] == '.' {
        Some((TokenView::Dot, 1))
    } else if s[0] == ':' {
        Some((TokenView::Colon, 1))
    } else if s[0] == '@' {
        Some((TokenView::At, 1))
    } else if s[0] == '\n' {
        Some((TokenView::Newline, 1))
    } else if is_blank(s[0]) {
        Some((TokenView::Space, run_len(s, CharClass::Blank)))
    } else {
        None
    }
}

/// A run is never longer than the text, all of its characters are in the
/// class, and the character after it, if any, is not.
pub proof fn lemma_run_len(s: Seq<char>, class: CharClass)
    ensures
        run_len(s, class) <= s.len(),
        forall|i: int| 0 <= i < run_len(s, class) ==> class.has(#[trigger] s[i]),
        run_len(s, class) < s.len() ==> !class.has(s[run_len(s, class) as int]),
    decreases s.len(),
{
    if s.len() > 0 && class.has(s[0]) {
        let t = s.drop_first();
        lemma_run_len(t, class);
        assert forall|i: int| 0 <= i < run_len(s, class) implies class.has(#[trigger] s[i]) by {
            if i > 0 {
                assert(s[i] == t[i - 1]);
            }
        }
        if run_len(s, class) < s.len() {
            assert(s[run_len(s, class) as int] == t[run_len(t, class) as int]);
        }
    }
}

/// A prefix of `n` characters of the class that is followed by the end of the
/// text or by a character outside the class is the run.
pub proof fn lemma_run_len_is(s: Seq<char>, class: CharClass, n: nat)
    requires
        n <= s.len(),
        forall|i: int| 0 <= i < n ==> class.has(#[trigger] s[i]),
        n < s.len() ==> !class.has(s[n as int]),
    ensures
        run_len(s, class) == n,
    decreases n,
{
    if n > 0 {
        let t = s.drop_first();
        assert forall|i: int| 0 <= i < n - 1 implies class.has(#[trigger] t[i]) by {
            assert(t[i] == s[i + 1]);
        }
        if n - 1 < t.len() {
            assert(t[n - 1] == s[n as int]);
        }
        lemma_run_len_is(t, class, (n - 1) as nat);
    }
}

/// A token spans at least one character and never more than the text holds.
pub proof fn lemma_first_token_len(s: Seq<char>)
    ensures
        first_token(s) matches Some((_, n)) ==> 0 < n <= s.len(),
{
    lemma_run_len(s, CharClass::Ident);
    lemma_run_len(s, CharClass::Blank);
    if s.len() > 0 {
        lemma_run_len(s.skip(1), CharClass::LiteralBody);
    }
}

/// What reading one token from `s` gives: the token (or the error) and the
/// text that is left. Blanks come out as `Space`; the end of the input comes
/// out as `Eof`, and a position where no token starts as `TokenizeFailed`,
/// both leaving the text as it is.
pub open spec fn read_token(s: Seq<char>) -> (Result<TokenView, ErrorView>, Seq<char>) {
    match first_token(s) {
        Some((t, n)) => (Ok(t), s.skip(n as int)),
        None => if s.len() == 0 {
            (Ok(TokenView::Eof), s)
        } else {
            (Err(ErrorView::TokenizeFailed), s)
        },
    }
}

/// What reading the next token that is not `Space` from `s` gives.
pub open spec fn next_significant(s: Seq<char>) -> (Result<TokenView, ErrorView>, Seq<char>)
    decreases s.len(),
{
    match first_token(s) {
        Some((TokenView::Space, n)) => {
            proof {
                lemma_first_token_len(s);
            }
            next_significant(s.skip(n as int))
        },
        _ => read_token(s),
    }
}

/// The tokens of `s` up to the end of the input or to the first position
/// where no token starts, without the `Space` tokens and without a final
/// `Eof`; and whether the end of the input was reached.
pub open spec fn token_stream(s: Seq<char>) -> (Seq<TokenView>, bool)
    decreases s.len(),
{
    match first_token(s) {
        Some((t, n)) => {
            proof {
                lemma_first_token_len(s);
            }
            let (rest, complete) = token_stream(s.skip(n as int));
            if t is Space {
                (rest, complete)
            } else {
                (seq![t] + rest, complete)
            }
        },
        None => (Seq::empty(), s.len() == 0),
    }
}

/// The token stream in terms of [`next_significant`]: the stream of a text
/// is the next significant token followed by the stream of what is left.
pub proof fn lemma_token_stream_step(s: Seq<char>)
    ensures
        match next_significant(s) {
            (Ok(TokenView::Eof), _) => token_stream(s) == (Seq::<TokenView>::empty(), true),
            (Ok(t), rest) => token_stream(s) == (
                seq![t] + token_stream(rest).0,
                token_stream(rest).1,
            ) && rest.len() < s.len(),
            (Err(_), _) => token_stream(s) == (Seq::<TokenView>::empty(), false),
        },
    decreases s.len(),
{
    lemma_first_token_len(s);
    match first_token(s) {
        Some((TokenView::Space, n)) => {
            lemma_token_stream_step(s.skip(n as int));
        },
        _ => {},
    }
}

/// The next significant token is never `Space`: blanks are only passed
/// over.
pub proof fn lemma_next_significant_not_space(s: Seq<char>)
    ensures
        next_significant(s).0 != Ok::<TokenView, ErrorView>(TokenView::Space),
    decreases s.len(),
{
    lemma_first_token_len(s);
    match first_token(s) {
        Some((TokenView::Space, n)) => {
            lemma_next_significant_not_space(s.skip(n as int));
        },
        _ => {},
    }
}

/// The token stream holds neither `Space` nor `Eof`.
pub proof fn lemma_token_stream_significant(s: Seq<char>)
    ensures
        forall|i: int|
            0 <= i < token_stream(s).0.len() ==> (#[trigger] token_stream(s).0[i])
                != TokenView::Space && token_stream(s).0[i] != TokenView::Eof,
    decreases s.len(),
{
    lemma_first_token_len(s);
    match first_token(s) {
        Some((t, n)) => {
            lemma_token_stream_significant(s.skip(n as int));
            let rest = token_stream(s.skip(n as int)).0;
            if !(t is Space) {
                assert forall|i: int| 0 <= i < token_stream(s).0.len() implies (
                #[trigger] token_stream(s).0[i]) != TokenView::Space && token_stream(s).0[i]
                    != TokenView::Eof by {
                    if i > 0 {
                        assert(token_stream(s).0[i] == rest[i - 1]);
                    }
                }
            }
        },
        None => {},
    }
}

/// The first index at or after `start` whose character is not in `class`.
fn scan_run(chars: &Vec<char>, start: usize, class: CharClass) -> (end: usize)
    requires
        start <= chars.len(),
    ensures
        start <= end <= chars.len(),
        end - start == run_len(chars@.skip(start as int), class),
{
    let mut i: usize = start;
    while i < chars.len() && class.contains(chars[i])
        invariant
            start <= i <= chars.len(),
            forall|j: int| start <= j < i ==> class.has(#[trigger] chars@[j]),
        decreases chars.len() - i,
    {
        i = i + 1;
    }
    proof {
        lemma_run_len_is(chars@.skip(start as int), class, (i - start) as nat);
    }
    i
}

/// A cursor into a source text, from which tokens are read one by one.
#[derive(Debug)]
pub struct NonLexer {
    chars: Vec<char>,
    pos: usize,
}

impl NonLexer {
    #[verifier::type_invariant]
    spec fn cursor_in_text(self) -> bool {
        self.pos <= self.chars.len()
    }

    /// The whole text that the lexer reads.
    pub closed spec fn source(&self) -> Seq<char> {
        self.chars@
    }

    /// The number of characters that have been read.
    pub closed spec fn offset(&self) -> nat {
        self.pos as nat
    }

    /// The text that has not been read yet.
    pub open spec fn remaining(&self) -> Seq<char> {
        self.source().skip(self.offset() as int)
    }

    /// The number of characters that have been read.
    pub fn position(&self) -> (n: usize)
        ensures
            n == self.offset(),
            n <= self.source().len(),
    {
        proof {
            use_type_invariant(self);
        }
        self.pos
    }

    /// A lexer at the start of `source`.
    pub fn new(source: &str) -> (lexer: Self)
        ensures
            lexer.source() == source@,
            lexer.offset() == 0,
    {
        NonLexer { chars: chars_of(source), pos: 0 }
    }

    /// Reads one token, `Space` included, and moves past it.
    pub fn read_next_token(&mut self) -> (res: Result<Token, NonError>)
        ensures
            res is Ok <==> read_token(old(self).remaining()).0 is Ok,
            res matches Ok(t) ==> read_token(old(self).remaining()).0 == Ok::<TokenView, ErrorView>(t@),
            res matches Err(e) ==> read_token(old(self).remaining()).0 == Err::<TokenView, ErrorView>(e@),
            final(self).remaining() == read_token(old(self).remaining()).1,
            final(self).source() == old(self).source(),
            final(self).offset() == old(self).offset() + old(self).remaining().len() - final(self).remaining().len(),
    {
        proof {
            use_type_invariant(&*self);
        }
        let ghost s = self.remaining();
        let len = self.chars.len();
        let pos = self.pos;
        if pos >= len {
            return Ok(Token::Eof);
        }
        let c = self.chars[pos];
        assert(s[0] == c);
        if CharClass::Ident.contains(c) {
            let end = scan_run(&self.chars, pos, CharClass::Ident);
            let text = text_of(&self.chars, pos, end);
            self.pos = end;
            assert(text@ =~= s.take((end - pos) as int));
            assert(self.remaining() =~= s.skip((end - pos) as int));
            Ok(Token::Identifier(text))
        } else if c == '\'' {
            let end = scan_run(&self.chars, pos + 1, CharClass::LiteralBody);
            assert(s.skip(1) =~= self.chars@.skip(pos + 1));
            if end > pos + 1 && end < len {
                let text = text_of(&self.chars, pos + 1, end);
                self.pos = end + 1;
                assert(text@ =~= s.subrange(1, (end - pos) as int));
                assert(self.remaining() =~= s.skip((end - pos + 1) as int));
                Ok(Token::Litteral(text))
            } else {
                Err(NonError::TokenizeFailed)
            }
        } else if CharClass::Blank.contains(c) {
            let end = scan_run(&self.chars, pos, CharClass::Blank);
            self.pos = end;
            assert(self.remaining() =~= s.skip((end - pos) as int));
            Ok(Token::Space)
        } else if c == '.' || c == ':' || c == '@' || c == '\n' {
            self.pos = pos + 1;
            assert(self.remaining() =~= s.skip(1));
            if c == '.' {
                Ok(Token::Dot)
            } else if c == ':' {
                Ok(Token::Colon)
            } else if c == '@' {
                Ok(Token::At)
            } else {
                Ok(Token::Newline)
            }
        } else {
            Err(NonError::TokenizeFailed)
        }
    }

    /// Reads the next token that is not `Space` and moves past it. At the end
    /// of the input the token is `Eof`; where no token starts, the error is
    /// `TokenizeFailed`, and the cursor stays.
    pub fn next_token(&mut self) -> (res: Result<Token, NonError>)
        ensures
            res is Ok <==> next_significant(old(self).remaining()).0 is Ok,
            res matches Ok(t) ==> next_significant(old(self).remaining()).0 == Ok::<TokenView, ErrorView>(t@),
            res matches Err(e) ==> next_significant(old(self).remaining()).0 == Err::<TokenView, ErrorView>(e@),
            final(self).remaining() == next_significant(old(self).remaining()).1,
            res matches Ok(t) ==> t@ != TokenView::Space,
    {
        proof {
            lemma_next_significant_not_space(self.remaining());
        }
        loop
            invariant
                next_significant(self.remaining()) == next_significant(old(self).remaining()),
            decreases self.remaining().len(),
        {
            proof {
                lemma_first_token_len(self.remaining());
            }
            match self.read_next_token() {
                Ok(Token::Space) => {},
                other => {
                    return other;
                },
            }
        }
    }

    /// Reads all the tokens that are left: those that are not `Space`, up to
    /// the end of the input or to the first position where no token starts.
    /// The flag tells whether the end of the input was reached.
    pub fn tokenize(&mut self) -> (res: (Vec<Token>, bool))
        ensures
            tokens_of(res.0@) == token_stream(old(self).remaining()).0,
            res.1 == token_stream(old(self).remaining()).1,
            forall|i: int|
                0 <= i < res.0@.len() ==> (#[trigger] res.0@[i])@ != TokenView::Space
                    && res.0@[i]@ != TokenView::Eof,
    {
        let mut tokens: Vec<Token> = Vec::new();
        let ghost start = self.remaining();
        assert(tokens_of(tokens@) + token_stream(start).0 =~= token_stream(start).0);
        loop
            invariant
                start == old(self).remaining(),
                token_stream(start).0 == tokens_of(tokens@) + token_stream(self.remaining()).0,
                token_stream(start).1 == token_stream(self.remaining()).1,
            decreases self.remaining().len(),
        {
            proof {
                lemma_token_stream_step(self.remaining());
            }
            let ghost before = tokens_of(tokens@);
            match self.next_token() {
                Ok(Token::Eof) => {
                    assert(before + Seq::<TokenView>::empty() =~= before);
                    proof {
                        lemma_token_stream_significant(start);
                        assert forall|i: int| 0 <= i < tokens@.len() implies (
                        #[trigger] tokens@[i])@ == tokens_of(tokens@)[i] by {}
                    }
                    return (tokens, true);
                },
                Ok(t) => {
                    let ghost tv = t@;
                    tokens.push(t);
                    assert(tokens_of(tokens@) =~= before + seq![tv]);
                    assert(before + (seq![tv] + token_stream(self.remaining()).0) =~= (before
                        + seq![tv]) + token_stream(self.remaining()).0);
                },
                Err(_) => {
                    assert(before + Seq::<TokenView>::empty() =~= before);
                    proof {
                        lemma_token_stream_significant(start);
                        assert forall|i: int| 0 <= i < tokens@.len() implies (
                        #[trigger] tokens@[i])@ == tokens_of(tokens@)[i] by {}
                    }
                    return (tokens, false);
                },
            }
        }
    }
}

/// The token of the given kind at the start of `s`, and the number of
/// characters that it spans.
pub open spec fn first_token_of_kind(s: Seq<char>, kind: TokenKind) -> Option<(TokenView, nat)> {
    match first_token(s) {
        Some((t, n)) => if t.kind() == kind {
            Some((t, n))
        } else {
            None
        },
        None => None,
    }
}

/// Reads one token of the given kind from the start of `s`.
fn parse_kind<'a>(s: &'a str, kind: TokenKind) -> (res: Result<(&'a str, Token), NonError>)
    ensures
        match first_token_of_kind(s@, kind) {
            Some((t, n)) => res matches Ok((rest, token)) && token@ == t && rest@ == s@.skip(
                n as int,
            ),
            None => res matches Err(NonError::TokenizeFailed),
        },
{
    let mut lexer = NonLexer::new(s);
    assert(lexer.remaining() =~= s@);
    proof {
        lemma_first_token_len(s@);
    }
    match lexer.read_next_token() {
        Ok(token) => {
            if token.kind() == kind && kind != TokenKind::Eof {
                let from = lexer.position();
                let rest = s.substring_char(from, s.unicode_len());
                assert(rest@ =~= s@.skip(from as int));
                Ok((rest, token))
            } else {
                Err(NonError::TokenizeFailed)
            }
        },
        Err(_) => Err(NonError::TokenizeFailed),
    }
}

/// Reads the character `c` from the start of `s` and answers with `token`.
pub fn parse_char_to_token<'a>(s: &'a str, c: char, token: Token) -> (res: Result<
    (&'a str, Token),
    NonError,
>)
    ensures
        if s@.len() > 0 && s@[0] == c {
            res matches Ok((rest, t)) && t == token && rest@ == s@.skip(1)
        } else {
            res matches Err(NonError::TokenizeFailed)
        },
{
    let len = s.unicode_len();
    if len > 0 && s.get_char(0) == c {
        let rest = s.substring_char(1, len);
        assert(rest@ =~= s@.skip(1));
        Ok((rest, token))
    } else {
        Err(NonError::TokenizeFailed)
    }
}

/// Reads an identifier from the start of `s`: the longest run of letters,
/// digits and underscores, which must not be empty.
pub fn parse_identifier<'a>(s: &'a str) -> (res: Result<(&'a str, Token), NonError>)
    ensures
        match first_token_of_kind(s@, TokenKind::Identifier) {
            Some((t, n)) => res matches Ok((rest, token)) && token@ == t && rest@ == s@.skip(
                n as int,
            ),
            None => res matches Err(NonError::TokenizeFailed),
        },
{
    parse_kind(s, TokenKind::Identifier)
}

/// Reads a quoted literal from the start of `s`: a quote, the longest run
/// of other characters, which must not be empty, and a quote.
pub fn parse_litteral<'a>(s: &'a str) -> (res: Result<(&'a str, Token), NonError>)
    ensures
        match first_token_of_kind(s@, TokenKind::Litteral) {
            Some((t, n)) => res matches Ok((rest, token)) && token@ == t && rest@ == s@.skip(
                n as int,
            ),
            None => res matches Err(NonError::TokenizeFailed),
        },
{
    parse_kind(s, TokenKind::Litteral)
}

/// Reads `.` from the start of `s`.
pub fn parse_dot<'a>(s: &'a str) -> (res: Result<(&'a str, Token), NonError>)
    ensures
        if s@.len() > 0 && s@[0] == '.' {
            res matches Ok((rest, t)) && t@ == TokenView::Dot && rest@ == s@.skip(1)
        } else {
            res matches Err(NonError::TokenizeFailed)
        },
{
    parse_char_to_token(s, '.', Token::Dot)
}

/// Reads `@` from the start of `s`.
pub fn parse_at<'a>(s: &'a str) -> (res: Result<(&'a str, Token), NonError>)
    ensures
        if s@.len() > 0 && s@[0] == '@' {
            res matches Ok((rest, t)) && t@ == TokenView::At && rest@ == s@.skip(1)
        } else {
            res matches Err(NonError::TokenizeFailed)
        },
{
    parse_char_to_token(s, '@', Token::At)
}

/// Reads `:` from the start of `s`.
pub fn parse_colon<'a>(s: &'a str) -> (res: Result<(&'a str, Token), NonError>)
    ensures
        if s@.len() > 0 && s@[0] == ':' {
            res matches Ok((rest, t)) && t@ == TokenView::Colon && rest@ == s@.skip(1)
        } else {
            res matches Err(NonError::TokenizeFailed)
        },
{
    parse_char_to_token(s, ':', Token::Colon)
}

/// Reads a run of spaces and tabs, which must not be empty, from the start
/// of `s`.
pub fn parse_whitespace<'a>(s: &'a str) -> (res: Result<(&'a str, Token), NonError>)
    ensures
        match first_token_of_kind(s@, TokenKind::Space) {
            Some((t, n)) => res matches Ok((rest, token)) && token@ == t && rest@ == s@.skip(
                n as int,
            ),
            None => res matches Err(NonError::TokenizeFailed),
        },
{
    parse_kind(s, TokenKind::Space)
}

/// Reads a line feed from the start of `s`.
pub fn parse_newline<'a>(s: &'a str) -> (res: Result<(&'a str, Token), NonError>)
    ensures
        if s@.len() > 0 && s@[0] == '\n' {
            res matches Ok((rest, t)) && t@ == TokenView::Newline && rest@ == s@.skip(1)
        } else {
            res matches Err(NonError::TokenizeFailed)
        },
{
    parse_char_to_token(s, '\n', Token::Newline)
}

} // verus!
