//! Writing a table in the language and reading the text again gives the
//! table.

use vstd::prelude::*;
use crate::format::{
    expr_text, field_source, fields_source, join, parents_source, parts_text, record_source,
};
use crate::lexer::{
    first_token, is_blank, is_ident_char, lemma_first_token_len, lemma_run_len_is,
    token_stream, CharClass, TokenView,
};
use crate::args::OutputFormat;
use crate::error::ErrorView;
use crate::format::{record_texts, table_text};
use crate::nds::{distinct_ids, lemma_record_index, table_of};
use crate::non::Record;
use crate::cycles::valid;
use crate::parser::{
    after, compiled, lemma_after_nothing, lemma_after_prepend, prepend, stream_of, Expr,
    FieldView, Stream,
};
use crate::theorems::theorem_valid_table_has_no_fault;

verus! {

/// Whether `s` can stand as an identifier: it is not empty, and all of its
/// characters are letters, digits or underscores.
pub open spec fn is_identifier(s: Seq<char>) -> bool {
    s.len() > 0 && forall|i: int| 0 <= i < s.len() ==> is_ident_char(#[trigger] s[i])
}

/// Whether `s` can stand between quotes: it is not empty and holds no
/// quote.
pub open spec fn is_quotable(s: Seq<char>) -> bool {
    s.len() > 0 && forall|i: int| 0 <= i < s.len() ==> #[trigger] s[i] != '\''
}

/// Whether the tokens of `text` followed by `rest` are `tokens` followed
/// by the tokens of `rest`.
pub open spec fn lexes(text: Seq<char>, tokens: Seq<TokenView>, rest: Seq<char>) -> bool {
    token_stream(text + rest) == (tokens + token_stream(rest).0, token_stream(rest).1)
}

/// Whether `rest` starts with something that ends an identifier: it is
/// empty, or its first character is no identifier character.
pub open spec fn ends_word(rest: Seq<char>) -> bool {
    rest.len() > 0 ==> !is_ident_char(rest[0])
}

/// Whether `rest` starts with a character that is not white space.
pub open spec fn starts_solid(rest: Seq<char>) -> bool {
    rest.len() > 0 && !is_blank(rest[0])
}

/// The token stream of a text whose first token is known.
pub proof fn lemma_token_stream_first(s: Seq<char>, t: TokenView, n: nat)
    requires
        first_token(s) == Some((t, n)),
    ensures
        0 < n <= s.len(),
        token_stream(s) == if t is Space {
            token_stream(s.skip(n as int))
        } else {
            (seq![t] + token_stream(s.skip(n as int)).0, token_stream(s.skip(n as int)).1)
        },
{
    lemma_first_token_len(s);
}

/// Two texts that are read one after the other are read as one.
pub proof fn lemma_lexes_append(
    first: Seq<char>,
    first_tokens: Seq<TokenView>,
    second: Seq<char>,
    second_tokens: Seq<TokenView>,
    rest: Seq<char>,
)
    requires
        lexes(first, first_tokens, second + rest),
        lexes(second, second_tokens, rest),
    ensures
        lexes(first + second, first_tokens + second_tokens, rest),
{
    assert((first + second) + rest =~= first + (second + rest));
    assert((first_tokens + second_tokens) + token_stream(rest).0 =~= first_tokens + (second_tokens
        + token_stream(rest).0));
}

/// Nothing is read as no tokens.
pub proof fn lemma_lexes_nothing(rest: Seq<char>)
    ensures
        lexes(Seq::empty(), Seq::empty(), rest),
{
    assert(Seq::<char>::empty() + rest =~= rest);
    assert(Seq::<TokenView>::empty() + token_stream(rest).0 =~= token_stream(rest).0);
}

/// An identifier that is followed by something else is read as one
/// identifier token.
pub proof fn lemma_lexes_identifier(name: Seq<char>, rest: Seq<char>)
    requires
        is_identifier(name),
        ends_word(rest),
    ensures
        lexes(name, seq![TokenView::Identifier(name)], rest),
{
    let s = name + rest;
    assert(s[0] == name[0]);
    assert forall|i: int| 0 <= i < name.len() implies CharClass::Ident.has(#[trigger] s[i]) by {
        assert(s[i] == name[i]);
    }
    if name.len() < s.len() {
        assert(s[name.len() as int] == rest[0]);
    }
    lemma_run_len_is(s, CharClass::Ident, name.len());
    assert(s.take(name.len() as int) =~= name);
    assert(s.skip(name.len() as int) =~= rest);
    lemma_token_stream_first(s, TokenView::Identifier(name), name.len());
}

/// A quoted text is read as one literal token, whatever follows.
pub proof fn lemma_lexes_literal(body: Seq<char>, rest: Seq<char>)
    requires
        is_quotable(body),
    ensures
        lexes("'"@ + body + "'"@, seq![TokenView::Litteral(body)], rest),
{
    reveal_strlit("'");
    let text = "'"@ + body + "'"@;
    let s = text + rest;
    assert(s[0] == '\'');
    let inner = s.skip(1);
    assert forall|i: int| 0 <= i < body.len() implies CharClass::LiteralBody.has(
        #[trigger] inner[i],
    ) by {
        assert(inner[i] == body[i]);
    }
    assert(inner[body.len() as int] == '\'');
    lemma_run_len_is(inner, CharClass::LiteralBody, body.len());
    assert(s.subrange(1, body.len() as int + 1) =~= body);
    assert(s.skip(body.len() as int + 2) =~= rest);
    assert(!is_ident_char('\''));
    lemma_token_stream_first(s, TokenView::Litteral(body), body.len() + 2);
}

/// A dot is read as the token `Dot`, whatever follows.
pub proof fn lemma_lexes_dot(rest: Seq<char>)
    ensures
        lexes("."@, seq![TokenView::Dot], rest),
{
    reveal_strlit(".");
    let s = "."@ + rest;
    assert(s[0] == '.');
    assert(s.skip(1) =~= rest);
    lemma_token_stream_first(s, TokenView::Dot, 1);
}

/// A colon is read as the token `Colon`, whatever follows.
pub proof fn lemma_lexes_colon(rest: Seq<char>)
    ensures
        lexes(":"@, seq![TokenView::Colon], rest),
{
    reveal_strlit(":");
    let s = ":"@ + rest;
    assert(s[0] == ':');
    assert(s.skip(1) =~= rest);
    lemma_token_stream_first(s, TokenView::Colon, 1);
}

/// `@` is read as the token `At`, whatever follows.
pub proof fn lemma_lexes_at(rest: Seq<char>)
    ensures
        lexes("@"@, seq![TokenView::At], rest),
{
    reveal_strlit("@");
    let s = "@"@ + rest;
    assert(s[0] == '@');
    assert(s.skip(1) =~= rest);
    lemma_token_stream_first(s, TokenView::At, 1);
}

/// A line feed is read as the token `Newline`, whatever follows.
pub proof fn lemma_lexes_newline(rest: Seq<char>)
    ensures
        lexes("\n"@, seq![TokenView::Newline], rest),
{
    reveal_strlit("\n");
    let s = "\n"@ + rest;
    assert(s[0] == '\n');
    assert(s.skip(1) =~= rest);
    lemma_token_stream_first(s, TokenView::Newline, 1);
}

/// A space in front of something that is no white space is read as no
/// token.
pub proof fn lemma_lexes_space(rest: Seq<char>)
    requires
        starts_solid(rest),
    ensures
        lexes(" "@, Seq::empty(), rest),
{
    reveal_strlit(" ");
    let s = " "@ + rest;
    assert(s[0] == ' ');
    assert(s[1] == rest[0]);
    assert forall|i: int| 0 <= i < 1 implies CharClass::Blank.has(#[trigger] s[i]) by {}
    lemma_run_len_is(s, CharClass::Blank, 1);
    assert(s.skip(1) =~= rest);
    lemma_token_stream_first(s, TokenView::Space, 1);
    assert(Seq::<TokenView>::empty() + token_stream(rest).0 =~= token_stream(rest).0);
}

/// Whether `e` is a single value that the language can write: a literal
/// that can stand between quotes, `@`, or a reference made of identifiers.
pub open spec fn writable_atom(e: Expr) -> bool {
    match e {
        Expr::Literal(s) => is_quotable(s),
        Expr::SelfId => true,
        Expr::SelfFieldRef(name) => is_identifier(name),
        Expr::CrossFieldRef(record, name) => is_identifier(record) && is_identifier(name),
        Expr::Concat(_) => false,
    }
}

/// Whether all of `parts` are single values that the language can write.
pub open spec fn writable_atoms(parts: Seq<Expr>) -> bool {
    forall|i: int| 0 <= i < parts.len() ==> writable_atom(#[trigger] parts[i])
}

/// Whether the language can write `e` as the value of a field: a single
/// value, or a concatenation of two or more single values.
pub open spec fn writable_expr(e: Expr) -> bool {
    match e {
        Expr::Concat(parts) => parts.len() >= 2 && writable_atoms(parts),
        _ => writable_atom(e),
    }
}

/// Whether the language can write the field.
pub open spec fn writable_field(field: FieldView) -> bool {
    is_identifier(field.name) && writable_expr(field.value)
}

/// Whether the language can write the record: its id, its parents and the
/// names of its fields are identifiers, and it can write the values of its
/// fields.
pub open spec fn writable_record(record: Record) -> bool {
    &&& is_identifier(record.id)
    &&& forall|i: int| 0 <= i < record.parents.len() ==> is_identifier(#[trigger] record.parents[i])
    &&& forall|i: int| 0 <= i < record.fields.len() ==> writable_field(#[trigger] record.fields[i])
}

/// Whether the language can write all the records of the table.
pub open spec fn writable(table: Seq<Record>) -> bool {
    forall|i: int| 0 <= i < table.len() ==> writable_record(#[trigger] table[i])
}

/// The tokens of a single value.
pub open spec fn atom_tokens(e: Expr) -> Seq<TokenView> {
    match e {
        Expr::Literal(s) => seq![TokenView::Litteral(s)],
        Expr::SelfId => seq![TokenView::At],
        Expr::SelfFieldRef(name) => seq![TokenView::Dot, TokenView::Identifier(name)],
        Expr::CrossFieldRef(record, name) => seq![
            TokenView::Identifier(record),
            TokenView::Dot,
            TokenView::Identifier(name),
        ],
        Expr::Concat(_) => Seq::empty(),
    }
}

/// The tokens of a list of single values.
pub open spec fn atoms_tokens(parts: Seq<Expr>) -> Seq<TokenView>
    decreases parts.len(),
{
    if parts.len() == 0 {
        Seq::empty()
    } else {
        atoms_tokens(parts.drop_last()) + atom_tokens(parts.last())
    }
}

/// The single values of which the value of a field is made.
pub open spec fn atoms_of(e: Expr) -> Seq<Expr> {
    match e {
        Expr::Concat(parts) => parts,
        _ => seq![e],
    }
}

/// The tokens of a field, with the end of its line.
pub open spec fn field_tokens(field: FieldView) -> Seq<TokenView> {
    seq![TokenView::Dot, TokenView::Identifier(field.name)] + atoms_tokens(atoms_of(field.value))
        + seq![TokenView::Newline]
}

/// The tokens of a list of fields.
pub open spec fn fields_tokens(fields: Seq<FieldView>) -> Seq<TokenView>
    decreases fields.len(),
{
    if fields.len() == 0 {
        Seq::empty()
    } else {
        fields_tokens(fields.drop_last()) + field_tokens(fields.last())
    }
}

/// The tokens of a list of parents.
pub open spec fn parents_tokens(parents: Seq<Seq<char>>) -> Seq<TokenView> {
    Seq::new(parents.len(), |i: int| TokenView::Identifier(parents[i]))
}

/// The tokens of a record.
pub open spec fn record_tokens(record: Record) -> Seq<TokenView> {
    seq![TokenView::Identifier(record.id), TokenView::Colon] + parents_tokens(record.parents)
        + seq![TokenView::Newline] + fields_tokens(record.fields)
}

/// The tokens of the first `n` records of a table, with the end of an
/// empty line between each two records.
pub open spec fn table_tokens(table: Seq<Record>, n: nat) -> Seq<TokenView>
    decreases n,
{
    if n == 0 {
        Seq::empty()
    } else if n == 1 {
        record_tokens(table[0])
    } else {
        table_tokens(table, (n - 1) as nat) + seq![TokenView::Newline] + record_tokens(
            table[n - 1],
        )
    }
}

/// The text of a single value starts with a character that is neither
/// white space nor the end of a line.
pub proof fn lemma_atom_text_starts_solid(e: Expr, rest: Seq<char>)
    requires
        writable_atom(e),
    ensures
        starts_solid(expr_text(e, true) + rest),
{
    reveal_strlit("'");
    reveal_strlit("@");
    reveal_strlit(".");
    let text = expr_text(e, true);
    match e {
        Expr::Literal(s) => {
            assert(text[0] == '\'');
        },
        Expr::SelfId => {
            assert(text[0] == '@');
        },
        Expr::SelfFieldRef(name) => {
            assert(text[0] == '.');
        },
        Expr::CrossFieldRef(record, name) => {
            assert(text[0] == record[0]);
            assert(is_ident_char(record[0]));
        },
        Expr::Concat(_) => {},
    }
    assert((text + rest)[0] == text[0]);
}

/// A single value is read as its tokens, where what follows ends a word.
pub proof fn lemma_lexes_atom(e: Expr, rest: Seq<char>)
    requires
        writable_atom(e),
        ends_word(rest),
    ensures
        lexes(expr_text(e, true), atom_tokens(e), rest),
{
    match e {
        Expr::Literal(s) => {
            lemma_lexes_literal(s, rest);
        },
        Expr::SelfId => {
            lemma_lexes_at(rest);
        },
        Expr::SelfFieldRef(name) => {
            lemma_lexes_identifier(name, rest);
            lemma_lexes_dot(name + rest);
            lemma_lexes_append(
                "."@,
                seq![TokenView::Dot],
                name,
                seq![TokenView::Identifier(name)],
                rest,
            );
            assert(seq![TokenView::Dot] + seq![TokenView::Identifier(name)] =~= atom_tokens(e));
        },
        Expr::CrossFieldRef(record, name) => {
            reveal_strlit(".");
            lemma_lexes_identifier(name, rest);
            lemma_lexes_dot(name + rest);
            lemma_lexes_append(
                "."@,
                seq![TokenView::Dot],
                name,
                seq![TokenView::Identifier(name)],
                rest,
            );
            let tail = "."@ + name;
            assert((tail + rest)[0] == '.');
            lemma_lexes_identifier(record, tail + rest);
            lemma_lexes_append(
                record,
                seq![TokenView::Identifier(record)],
                tail,
                seq![TokenView::Dot] + seq![TokenView::Identifier(name)],
                rest,
            );
            assert(record + tail =~= expr_text(e, true));
            assert(seq![TokenView::Identifier(record)] + (seq![TokenView::Dot]
                + seq![TokenView::Identifier(name)]) =~= atom_tokens(e));
        },
        Expr::Concat(_) => {},
    }
}

/// Whether `rest` starts with what can follow a value: a space or the end
/// of the line.
pub open spec fn ends_value(rest: Seq<char>) -> bool {
    rest.len() > 0 && (rest[0] == ' ' || rest[0] == '\n')
}

/// One or more single values with a space between each two are read as
/// their tokens.
pub proof fn lemma_lexes_atoms(parts: Seq<Expr>, rest: Seq<char>)
    requires
        parts.len() >= 1,
        writable_atoms(parts),
        ends_value(rest),
    ensures
        lexes(parts_text(parts, true), atoms_tokens(parts), rest),
    decreases parts.len(),
{
    let last = parts.last();
    assert(writable_atom(parts[parts.len() - 1]));
    lemma_lexes_atom(last, rest);
    if parts.len() == 1 {
        assert(parts.drop_last() =~= Seq::empty());
        assert(atoms_tokens(parts.drop_last()) =~= Seq::empty());
        assert(Seq::<TokenView>::empty() + atom_tokens(last) =~= atom_tokens(last));
    } else {
        reveal_strlit(" ");
        let init = parts.drop_last();
        assert forall|i: int| 0 <= i < init.len() implies writable_atom(#[trigger] init[i]) by {
            assert(init[i] == parts[i]);
        }
        let text = expr_text(last, true);
        lemma_atom_text_starts_solid(last, rest);
        lemma_lexes_space(text + rest);
        lemma_lexes_append(" "@, Seq::empty(), text, atom_tokens(last), rest);
        let tail = " "@ + text;
        assert((tail + rest)[0] == ' ');
        lemma_lexes_atoms(init, tail + rest);
        lemma_lexes_append(
            parts_text(init, true),
            atoms_tokens(init),
            tail,
            Seq::empty() + atom_tokens(last),
            rest,
        );
        assert(parts_text(init, true) + tail =~= parts_text(parts, true));
        assert(Seq::<TokenView>::empty() + atom_tokens(last) =~= atom_tokens(last));
    }
}

/// The value of a field is written as its single values with a space
/// between each two.
pub proof fn lemma_value_text(e: Expr)
    requires
        writable_expr(e),
    ensures
        expr_text(e, true) == parts_text(atoms_of(e), true),
        atoms_of(e).len() >= 1,
        writable_atoms(atoms_of(e)),
{
    match e {
        Expr::Concat(parts) => {},
        _ => {
            assert(atoms_of(e)[0] == e);
        },
    }
}

/// A field is read as its tokens, whatever follows.
pub proof fn lemma_lexes_field(field: FieldView, rest: Seq<char>)
    requires
        writable_field(field),
    ensures
        lexes(field_source(field), field_tokens(field), rest),
{
    reveal_strlit(" ");
    reveal_strlit("\n");
    let value = expr_text(field.value, true);
    let atoms = atoms_of(field.value);
    lemma_value_text(field.value);
    lemma_lexes_newline(rest);
    let line_end = "\n"@ + rest;
    assert(line_end[0] == '\n');
    lemma_lexes_atoms(atoms, line_end);
    lemma_lexes_append(value, atoms_tokens(atoms), "\n"@, seq![TokenView::Newline], rest);
    let value_line = value + "\n"@;
    let value_line_tokens = atoms_tokens(atoms) + seq![TokenView::Newline];
    assert(writable_atom(atoms[0]));
    lemma_value_starts_solid(field.value, "\n"@ + rest);
    assert(value + ("\n"@ + rest) =~= value_line + rest);
    lemma_lexes_space(value_line + rest);
    lemma_lexes_append(" "@, Seq::empty(), value_line, value_line_tokens, rest);
    let spaced = " "@ + value_line;
    assert((spaced + rest)[0] == ' ');
    lemma_lexes_identifier(field.name, spaced + rest);
    lemma_lexes_append(
        field.name,
        seq![TokenView::Identifier(field.name)],
        spaced,
        Seq::empty() + value_line_tokens,
        rest,
    );
    let named = field.name + spaced;
    let named_tokens = seq![TokenView::Identifier(field.name)] + (Seq::empty() + value_line_tokens);
    lemma_lexes_dot(named + rest);
    lemma_lexes_append("."@, seq![TokenView::Dot], named, named_tokens, rest);
    assert("."@ + named =~= field_source(field));
    assert(seq![TokenView::Dot] + named_tokens =~= field_tokens(field));
}

/// The text of the value of a field starts with a character that is
/// neither white space nor the end of a line.
pub proof fn lemma_value_starts_solid(e: Expr, rest: Seq<char>)
    requires
        writable_expr(e),
    ensures
        starts_solid(expr_text(e, true) + rest),
{
    lemma_value_text(e);
    lemma_atoms_start_solid(atoms_of(e), rest);
}

/// The text of one or more single values starts with a character that is
/// neither white space nor the end of a line.
pub proof fn lemma_atoms_start_solid(parts: Seq<Expr>, rest: Seq<char>)
    requires
        parts.len() >= 1,
        writable_atoms(parts),
    ensures
        starts_solid(parts_text(parts, true) + rest),
    decreases parts.len(),
{
    if parts.len() == 1 {
        assert(writable_atom(parts[0]));
        lemma_atom_text_starts_solid(parts[0], rest);
    } else {
        let init = parts.drop_last();
        assert forall|i: int| 0 <= i < init.len() implies writable_atom(#[trigger] init[i]) by {
            assert(init[i] == parts[i]);
        }
        let tail = " "@ + expr_text(parts.last(), true);
        lemma_atoms_start_solid(init, tail + rest);
        assert(parts_text(init, true) + (tail + rest) =~= parts_text(parts, true) + rest);
    }
}

/// The fields of a record are read as their tokens, whatever follows.
pub proof fn lemma_lexes_fields(fields: Seq<FieldView>, rest: Seq<char>)
    requires
        forall|i: int| 0 <= i < fields.len() ==> writable_field(#[trigger] fields[i]),
    ensures
        lexes(fields_source(fields), fields_tokens(fields), rest),
    decreases fields.len(),
{
    if fields.len() == 0 {
        lemma_lexes_nothing(rest);
    } else {
        let init = fields.drop_last();
        let last = fields.last();
        assert(writable_field(fields[fields.len() - 1]));
        assert forall|i: int| 0 <= i < init.len() implies writable_field(#[trigger] init[i]) by {
            assert(init[i] == fields[i]);
        }
        lemma_lexes_field(last, rest);
        lemma_lexes_fields(init, field_source(last) + rest);
        lemma_lexes_append(
            fields_source(init),
            fields_tokens(init),
            field_source(last),
            field_tokens(last),
            rest,
        );
    }
}

/// The parents of a record are read as their tokens, where what follows
/// is a space or the end of the line.
pub proof fn lemma_lexes_parents(parents: Seq<Seq<char>>, rest: Seq<char>)
    requires
        forall|i: int| 0 <= i < parents.len() ==> is_identifier(#[trigger] parents[i]),
        ends_value(rest),
    ensures
        lexes(parents_source(parents), parents_tokens(parents), rest),
    decreases parents.len(),
{
    if parents.len() == 0 {
        lemma_lexes_nothing(rest);
        assert(parents_tokens(parents) =~= Seq::empty());
    } else {
        reveal_strlit(" ");
        let init = parents.drop_last();
        let last = parents.last();
        assert(is_identifier(parents[parents.len() - 1]));
        assert forall|i: int| 0 <= i < init.len() implies is_identifier(#[trigger] init[i]) by {
            assert(init[i] == parents[i]);
        }
        lemma_lexes_identifier(last, rest);
        assert((last + rest)[0] == last[0]);
        assert(is_ident_char(last[0]));
        lemma_lexes_space(last + rest);
        lemma_lexes_append(
            " "@,
            Seq::empty(),
            last,
            seq![TokenView::Identifier(last)],
            rest,
        );
        let tail = " "@ + last;
        assert((tail + rest)[0] == ' ');
        lemma_lexes_parents(init, tail + rest);
        lemma_lexes_append(
            parents_source(init),
            parents_tokens(init),
            tail,
            Seq::empty() + seq![TokenView::Identifier(last)],
            rest,
        );
        assert(parents_source(init) + tail =~= parents_source(parents));
        assert(parents_tokens(init) + (Seq::empty() + seq![TokenView::Identifier(last)])
            =~= parents_tokens(parents));
    }
}

/// A record is read as its tokens, whatever follows.
pub proof fn lemma_lexes_record(record: Record, rest: Seq<char>)
    requires
        writable_record(record),
    ensures
        lexes(record_source(record), record_tokens(record), rest),
{
    reveal_strlit(":");
    reveal_strlit("\n");
    let fields = fields_source(record.fields);
    lemma_lexes_fields(record.fields, rest);
    lemma_lexes_newline(fields + rest);
    lemma_lexes_append(
        "\n"@,
        seq![TokenView::Newline],
        fields,
        fields_tokens(record.fields),
        rest,
    );
    let body = "\n"@ + fields;
    let body_tokens = seq![TokenView::Newline] + fields_tokens(record.fields);
    assert((body + rest)[0] == '\n');
    lemma_lexes_parents(record.parents, body + rest);
    lemma_lexes_append(
        parents_source(record.parents),
        parents_tokens(record.parents),
        body,
        body_tokens,
        rest,
    );
    let listed = parents_source(record.parents) + body;
    let listed_tokens = parents_tokens(record.parents) + body_tokens;
    lemma_lexes_colon(listed + rest);
    lemma_lexes_append(":"@, seq![TokenView::Colon], listed, listed_tokens, rest);
    let headed = ":"@ + listed;
    let headed_tokens = seq![TokenView::Colon] + listed_tokens;
    assert((headed + rest)[0] == ':');
    lemma_lexes_identifier(record.id, headed + rest);
    lemma_lexes_append(record.id, seq![TokenView::Identifier(record.id)], headed, headed_tokens, rest);
    assert(record.id + headed =~= record_source(record));
    assert(seq![TokenView::Identifier(record.id)] + headed_tokens =~= record_tokens(record));
}

/// The texts of the first `n` records of a table.
pub open spec fn record_sources(table: Seq<Record>, n: nat) -> Seq<Seq<char>> {
    Seq::new(n, |i: int| record_source(table[i]))
}

/// The first `n` records of a table, written with an empty line between
/// each two, are read as their tokens, whatever follows.
pub proof fn lemma_lexes_table(table: Seq<Record>, n: nat, rest: Seq<char>)
    requires
        writable(table),
        n <= table.len(),
    ensures
        lexes(join(record_sources(table, n), "\n"@), table_tokens(table, n), rest),
    decreases n,
{
    let texts = record_sources(table, n);
    if n == 0 {
        lemma_lexes_nothing(rest);
    } else if n == 1 {
        lemma_lexes_record(table[0], rest);
    } else {
        let last = table[n - 1];
        let text = record_source(last);
        assert(texts.drop_last() =~= record_sources(table, (n - 1) as nat));
        lemma_lexes_record(last, rest);
        lemma_lexes_newline(text + rest);
        lemma_lexes_append("\n"@, seq![TokenView::Newline], text, record_tokens(last), rest);
        let tail = "\n"@ + text;
        lemma_lexes_table(table, (n - 1) as nat, tail + rest);
        lemma_lexes_append(
            join(texts.drop_last(), "\n"@),
            table_tokens(table, (n - 1) as nat),
            tail,
            seq![TokenView::Newline] + record_tokens(last),
            rest,
        );
        assert(join(texts.drop_last(), "\n"@) + tail =~= join(texts, "\n"@));
        assert(table_tokens(table, (n - 1) as nat) + (seq![TokenView::Newline] + record_tokens(
            last,
        )) =~= table_tokens(table, n));
    }
}

/// Whether the tokens `tokens` stand in the stream from the position `pos`
/// on.
pub open spec fn stands_at(stream: Stream, pos: int, tokens: Seq<TokenView>) -> bool {
    &&& 0 <= pos
    &&& pos + tokens.len() <= stream.tokens.len()
    &&& stream.tokens.subrange(pos, pos + tokens.len()) == tokens
}

/// Where tokens stand, each of them stands.
pub proof fn lemma_stands_at_index(stream: Stream, pos: int, tokens: Seq<TokenView>, i: int)
    requires
        stands_at(stream, pos, tokens),
        0 <= i < tokens.len(),
    ensures
        stream.tokens[pos + i] == tokens[i],
{
    assert(stream.tokens.subrange(pos, pos + tokens.len())[i] == stream.tokens[pos + i]);
}

/// Where two lists of tokens stand one behind the other, each of them
/// stands.
pub proof fn lemma_stands_at_split(
    stream: Stream,
    pos: int,
    first: Seq<TokenView>,
    second: Seq<TokenView>,
)
    requires
        stands_at(stream, pos, first + second),
    ensures
        stands_at(stream, pos, first),
        stands_at(stream, pos + first.len(), second),
{
    let whole = stream.tokens.subrange(pos, pos + (first + second).len());
    assert(stream.tokens.subrange(pos, pos + first.len()) =~= first) by {
        assert forall|i: int| 0 <= i < first.len() implies stream.tokens.subrange(
            pos,
            pos + first.len(),
        )[i] == first[i] by {
            assert(whole[i] == (first + second)[i]);
        }
    }
    assert(stream.tokens.subrange(pos + first.len(), pos + first.len() + second.len())
        =~= second) by {
        assert forall|i: int| 0 <= i < second.len() implies stream.tokens.subrange(
            pos + first.len(),
            pos + first.len() + second.len(),
        )[i] == second[i] by {
            assert(whole[first.len() + i] == (first + second)[first.len() + i]);
        }
    }
}

/// Where the tokens of a single value stand, the value is read, and the
/// values behind it.
pub proof fn lemma_values_atom(stream: Stream, pos: int, e: Expr)
    requires
        writable_atom(e),
        stands_at(stream, pos, atom_tokens(e)),
    ensures
        stream.values(pos) == prepend(e, stream.values(pos + atom_tokens(e).len())),
{
    let tokens = atom_tokens(e);
    lemma_stands_at_index(stream, pos, tokens, 0);
    match e {
        Expr::Literal(s) => {},
        Expr::SelfId => {},
        Expr::SelfFieldRef(name) => {
            lemma_stands_at_index(stream, pos, tokens, 1);
        },
        Expr::CrossFieldRef(record, name) => {
            lemma_stands_at_index(stream, pos, tokens, 1);
            lemma_stands_at_index(stream, pos, tokens, 2);
        },
        Expr::Concat(_) => {},
    }
}

/// Where the tokens of a list of single values stand, the values are read,
/// and the values behind them.
pub proof fn lemma_values_atoms(stream: Stream, pos: int, parts: Seq<Expr>)
    requires
        writable_atoms(parts),
        stands_at(stream, pos, atoms_tokens(parts)),
    ensures
        stream.values(pos) == after(parts, stream.values(pos + atoms_tokens(parts).len())),
    decreases parts.len(),
{
    if parts.len() == 0 {
        lemma_after_nothing(stream.values(pos));
        assert(parts =~= Seq::empty());
    } else {
        let init = parts.drop_last();
        let last = parts.last();
        assert(writable_atom(parts[parts.len() - 1]));
        assert forall|i: int| 0 <= i < init.len() implies writable_atom(#[trigger] init[i]) by {
            assert(init[i] == parts[i]);
        }
        lemma_stands_at_split(stream, pos, atoms_tokens(init), atom_tokens(last));
        lemma_values_atoms(stream, pos, init);
        let mid = pos + atoms_tokens(init).len();
        lemma_values_atom(stream, mid, last);
        lemma_after_prepend(init, last, stream.values(mid + atom_tokens(last).len()));
        assert(init.push(last) =~= parts);
    }
}

/// Where the tokens of the value of a field stand in front of the end of a
/// line, the value is read.
pub proof fn lemma_field_value(stream: Stream, pos: int, e: Expr)
    requires
        writable_expr(e),
        stands_at(stream, pos, atoms_tokens(atoms_of(e)) + seq![TokenView::Newline]),
    ensures
        stream.field_value(pos) == Ok::<(Expr, int), ErrorView>(
            (e, pos + atoms_tokens(atoms_of(e)).len()),
        ),
{
    let atoms = atoms_of(e);
    lemma_value_text(e);
    lemma_stands_at_split(stream, pos, atoms_tokens(atoms), seq![TokenView::Newline]);
    lemma_values_atoms(stream, pos, atoms);
    let end = pos + atoms_tokens(atoms).len();
    lemma_stands_at_index(stream, end, seq![TokenView::Newline], 0);
    assert(stream.values(end) == Ok::<(Seq<Expr>, int), ErrorView>((Seq::empty(), end)));
    assert(atoms + Seq::<Expr>::empty() =~= atoms);
    match e {
        Expr::Concat(parts) => {},
        _ => {
            assert(atoms[0] == e);
        },
    }
}

/// Where the tokens of a field stand, the field is read, and the end of
/// its line behind it.
pub proof fn lemma_field(stream: Stream, pos: int, field: FieldView)
    requires
        writable_field(field),
        stands_at(stream, pos, field_tokens(field)),
    ensures
        stream.peek(pos) == Ok::<Option<TokenView>, ErrorView>(Some(TokenView::Dot)),
        stream.field(pos) == Ok::<(FieldView, int), ErrorView>(
            (field, pos + field_tokens(field).len() - 1),
        ),
        stream.expect(pos + field_tokens(field).len() - 1, TokenView::Newline) == Ok::<
            int,
            ErrorView,
        >(pos + field_tokens(field).len()),
{
    let head = seq![TokenView::Dot, TokenView::Identifier(field.name)];
    let value = atoms_tokens(atoms_of(field.value));
    let end = seq![TokenView::Newline];
    assert(field_tokens(field) =~= head + (value + end));
    lemma_stands_at_split(stream, pos, head, value + end);
    lemma_stands_at_index(stream, pos, head, 0);
    lemma_stands_at_index(stream, pos, head, 1);
    lemma_field_value(stream, pos + 2, field.value);
    lemma_stands_at_split(stream, pos + 2, value, end);
    lemma_stands_at_index(stream, pos + 2 + value.len(), end, 0);
}

/// Where the tokens of a list of fields stand, the fields are read, and
/// the fields behind them.
pub proof fn lemma_fields(stream: Stream, pos: int, fields: Seq<FieldView>)
    requires
        forall|i: int| 0 <= i < fields.len() ==> writable_field(#[trigger] fields[i]),
        stands_at(stream, pos, fields_tokens(fields)),
    ensures
        stream.fields(pos) == after(fields, stream.fields(pos + fields_tokens(fields).len())),
    decreases fields.len(),
{
    if fields.len() == 0 {
        lemma_after_nothing(stream.fields(pos));
        assert(fields =~= Seq::empty());
    } else {
        let init = fields.drop_last();
        let last = fields.last();
        assert(writable_field(fields[fields.len() - 1]));
        assert forall|i: int| 0 <= i < init.len() implies writable_field(#[trigger] init[i]) by {
            assert(init[i] == fields[i]);
        }
        lemma_stands_at_split(stream, pos, fields_tokens(init), field_tokens(last));
        lemma_fields(stream, pos, init);
        let mid = pos + fields_tokens(init).len();
        lemma_field(stream, mid, last);
        lemma_after_prepend(init, last, stream.fields(mid + field_tokens(last).len()));
        assert(init.push(last) =~= fields);
    }
}

/// Where the tokens of a list of parents stand, the parents are read, and
/// the parents behind them.
pub proof fn lemma_parents(stream: Stream, pos: int, parents: Seq<Seq<char>>)
    requires
        stands_at(stream, pos, parents_tokens(parents)),
    ensures
        stream.parents(pos) == after(parents, stream.parents(pos + parents.len())),
    decreases parents.len(),
{
    if parents.len() == 0 {
        lemma_after_nothing(stream.parents(pos));
        assert(parents =~= Seq::empty());
    } else {
        let init = parents.drop_last();
        let last = parents.last();
        assert(parents_tokens(parents) =~= parents_tokens(init) + seq![
            TokenView::Identifier(last),
        ]);
        lemma_stands_at_split(
            stream,
            pos,
            parents_tokens(init),
            seq![TokenView::Identifier(last)],
        );
        lemma_parents(stream, pos, init);
        let mid = pos + init.len();
        lemma_stands_at_index(stream, mid, seq![TokenView::Identifier(last)], 0);
        lemma_after_prepend(init, last, stream.parents(mid + 1));
        assert(init.push(last) =~= parents);
    }
}

/// Whether no field starts at the position `pos` of the stream: the stream
/// ends there with the text, or the token there is no dot.
pub open spec fn no_field_at(stream: Stream, pos: int) -> bool {
    stream.peek(pos) matches Ok(next) && next != Some(TokenView::Dot)
}

/// Where the tokens of a record stand behind any number of ends of lines,
/// and no field follows them, the record is read.
pub proof fn lemma_record(stream: Stream, start: int, pos: int, record: Record)
    requires
        writable_record(record),
        stream.skip_newlines(start) == Ok::<int, ErrorView>(pos),
        stands_at(stream, pos, record_tokens(record)),
        no_field_at(stream, pos + record_tokens(record).len()),
    ensures
        stream.record(start) == Ok::<(Record, int), ErrorView>(
            (record, pos + record_tokens(record).len()),
        ),
{
    let head = seq![TokenView::Identifier(record.id), TokenView::Colon];
    let parents = parents_tokens(record.parents);
    let end = seq![TokenView::Newline];
    let fields = fields_tokens(record.fields);
    assert(record_tokens(record) =~= head + (parents + (end + fields)));
    lemma_stands_at_split(stream, pos, head, parents + (end + fields));
    lemma_stands_at_index(stream, pos, head, 0);
    lemma_stands_at_index(stream, pos, head, 1);
    lemma_stands_at_split(stream, pos + 2, parents, end + fields);
    lemma_parents(stream, pos + 2, record.parents);
    let line_end = pos + 2 + record.parents.len();
    lemma_stands_at_split(stream, line_end, end, fields);
    lemma_stands_at_index(stream, line_end, end, 0);
    assert(stream.parents(line_end) == Ok::<(Seq<Seq<char>>, int), ErrorView>((Seq::empty(), line_end)));
    assert(record.parents + Seq::<Seq<char>>::empty() =~= record.parents);
    lemma_fields(stream, line_end + 1, record.fields);
    let end_pos = line_end + 1 + fields.len();
    assert(stream.fields(end_pos) == Ok::<(Seq<FieldView>, int), ErrorView>((Seq::empty(), end_pos)));
    assert(record.fields + Seq::<FieldView>::empty() =~= record.fields);
}

/// The tokens of one or more records start with the id of the first
/// record.
pub proof fn lemma_table_tokens_first(table: Seq<Record>, n: nat)
    requires
        1 <= n <= table.len(),
    ensures
        table_tokens(table, n).len() >= 1,
        table_tokens(table, n)[0] == TokenView::Identifier(table[0].id),
    decreases n,
{
    if n > 1 {
        lemma_table_tokens_first(table, (n - 1) as nat);
    }
}

/// Where the tokens of the first `n` records of a table stand, and no
/// field follows them, the records are read, and the records behind them.
pub proof fn lemma_records(stream: Stream, pos: int, table: Seq<Record>, n: nat)
    requires
        writable(table),
        n <= table.len(),
        stands_at(stream, pos, table_tokens(table, n)),
        no_field_at(stream, pos + table_tokens(table, n).len()),
    ensures
        stream.records(pos) == after(
            table.take(n as int),
            stream.records(pos + table_tokens(table, n).len()),
        ),
    decreases n,
{
    if n == 0 {
        lemma_after_nothing(stream.records(pos));
        assert(table.take(0) =~= Seq::empty());
    } else if n == 1 {
        let record = table[0];
        lemma_stands_at_index(stream, pos, record_tokens(record), 0);
        lemma_record(stream, pos, pos, record);
        lemma_after_nothing(stream.records(pos + record_tokens(record).len()));
        lemma_after_prepend(
            Seq::empty(),
            record,
            stream.records(pos + record_tokens(record).len()),
        );
        assert(Seq::<Record>::empty().push(record) =~= table.take(1));
    } else {
        let m = (n - 1) as nat;
        let record = table[n - 1];
        let before = table_tokens(table, m);
        let end = seq![TokenView::Newline];
        assert(table_tokens(table, n) =~= before + (end + record_tokens(record)));
        lemma_stands_at_split(stream, pos, before, end + record_tokens(record));
        let mid = pos + before.len();
        lemma_stands_at_split(stream, mid, end, record_tokens(record));
        lemma_stands_at_index(stream, mid, end, 0);
        lemma_records(stream, pos, table, m);
        lemma_stands_at_index(stream, mid + 1, record_tokens(record), 0);
        assert(stream.skip_newlines(mid + 1) == Ok::<int, ErrorView>(mid + 1));
        assert(stream.skip_newlines(mid) == Ok::<int, ErrorView>(mid + 1));
        lemma_record(stream, mid, mid + 1, record);
        lemma_after_prepend(
            table.take(m as int),
            record,
            stream.records(mid + 1 + record_tokens(record).len()),
        );
        assert(table.take(m as int).push(record) =~= table.take(n as int));
    }
}

/// Written without resolution, each record of a table stands for itself.
pub proof fn lemma_record_texts(table: Seq<Record>, n: nat)
    requires
        n <= table.len(),
    ensures
        record_texts(table, n, OutputFormat::Non, false) == Ok::<Seq<Seq<char>>, ErrorView>(
            record_sources(table, n),
        ),
    decreases n,
{
    if n > 0 {
        lemma_record_texts(table, (n - 1) as nat);
        assert(record_sources(table, (n - 1) as nat).push(record_source(table[n - 1]))
            =~= record_sources(table, n));
    } else {
        assert(record_sources(table, 0) =~= Seq::empty());
    }
}

/// The table made of records of distinct ids holds those records in their
/// order.
pub proof fn lemma_table_of_distinct_ids(table: Seq<Record>, n: int)
    requires
        distinct_ids(table),
        0 <= n <= table.len(),
    ensures
        table_of(table.take(n)) == table.take(n),
    decreases n,
{
    if n > 0 {
        lemma_table_of_distinct_ids(table, n - 1);
        let init = table.take(n - 1);
        assert(table.take(n).drop_last() =~= init);
        assert(table.take(n).last() == table[n - 1]);
        lemma_record_index(init, table[n - 1].id);
        assert forall|j: int| 0 <= j < init.len() implies (#[trigger] init[j]).id != table[n
            - 1].id by {
            assert(init[j] == table[j]);
        }
        assert(init.push(table[n - 1]) =~= table.take(n));
    } else {
        assert(table.take(0) =~= Seq::empty());
    }
}

/// Writing a table in the language and reading the text again gives the
/// table: for every table of distinct ids that the language can write, the
/// text of the table, with its records as they were declared, is read as
/// the records of the table, with the same ids, parents and field
/// expressions in the same order, and the table made of those records is the
/// table itself. Where the parent relation of the table is sound, compiling
/// the text gives the table.
pub proof fn theorem_round_trip(table: Seq<Record>)
    requires
        distinct_ids(table),
        writable(table),
    ensures
        table_text(table, OutputFormat::Non, false) matches Ok(text) && stream_of(
            text,
        ).records_from(0) == Ok::<Seq<Record>, ErrorView>(table),
        table_of(table) == table,
        valid(table) ==> (table_text(table, OutputFormat::Non, false) matches Ok(text) && compiled(
            text,
        ) == Ok::<Seq<Record>, ErrorView>(table)),
{
    if valid(table) {
        theorem_valid_table_has_no_fault(table, table.len());
    }
    let n = table.len();
    lemma_record_texts(table, n);
    let text = join(record_sources(table, n), "\n"@);
    let tokens = table_tokens(table, n);
    lemma_lexes_table(table, n, Seq::empty());
    assert(text + Seq::<char>::empty() =~= text);
    assert(token_stream(Seq::<char>::empty()) == (Seq::<TokenView>::empty(), true));
    assert(tokens + Seq::<TokenView>::empty() =~= tokens);
    let stream = stream_of(text);
    assert(stream.tokens == tokens);
    assert(stream.complete);
    assert(stream.tokens.subrange(0, tokens.len() as int) =~= tokens);
    lemma_records(stream, 0, table, n);
    assert(table.take(n as int) =~= table);
    assert(stream.records(tokens.len() as int) == Ok::<(Seq<Record>, int), ErrorView>(
        (Seq::empty(), tokens.len() as int),
    ));
    assert(table + Seq::<Record>::empty() =~= table);
    if n > 0 {
        lemma_table_tokens_first(table, n);
    }
    assert(stream.skip_newlines(0) == Ok::<int, ErrorView>(0));
    lemma_table_of_distinct_ids(table, n as int);
}

} // verus!
