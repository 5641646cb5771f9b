//! Writing records as text: in the language itself, as JSON and as YAML.

use vstd::prelude::*;
use crate::args::OutputFormat;
use crate::error::{ErrorView, NonError};
use crate::nds::NonDefs;
use crate::non::{texts_of, Non, Record};
use crate::parser::{exprs_of, lemma_concat_view, Expr, FieldValue, FieldView};
use crate::resolve::resolved;

verus! {

/// The items of `items` one behind the other, with `sep` between each two.
pub open spec fn join(items: Seq<Seq<char>>, sep: Seq<char>) -> Seq<char>
    decreases items.len(),
{
    if items.len() == 0 {
        Seq::empty()
    } else if items.len() == 1 {
        items[0]
    } else {
        join(items.drop_last(), sep) + sep + items.last()
    }
}

/// The text of an expression. With `quote`, a literal stands between single
/// quotes, as in a source text; without, it stands bare.
pub open spec fn expr_text(e: Expr, quote: bool) -> Seq<char>
    decreases e,
{
    match e {
        Expr::Literal(s) => if quote {
            "'"@ + s + "'"@
        } else {
            s
        },
        Expr::SelfId => "@"@,
        Expr::SelfFieldRef(name) => "."@ + name,
        Expr::CrossFieldRef(record, name) => record + "."@ + name,
        Expr::Concat(parts) => parts_text(parts, quote),
    }
}

/// The texts of a list of expressions, with one space between each two.
pub open spec fn parts_text(parts: Seq<Expr>, quote: bool) -> Seq<char>
    decreases parts,
{
    if parts.len() == 0 {
        Seq::empty()
    } else if parts.len() == 1 {
        expr_text(parts[0], quote)
    } else {
        parts_text(parts.drop_last(), quote) + " "@ + expr_text(parts.last(), quote)
    }
}

/// The parents of a record as they stand behind the colon of its first
/// line: each with a space in front.
pub open spec fn parents_source(parents: Seq<Seq<char>>) -> Seq<char>
    decreases parents.len(),
{
    if parents.len() == 0 {
        Seq::empty()
    } else {
        parents_source(parents.drop_last()) + " "@ + parents.last()
    }
}

/// A field as a line of source text: a dot, the name, a space, the
/// expression and a line feed.
pub open spec fn field_source(field: FieldView) -> Seq<char> {
    "."@ + field.name + " "@ + expr_text(field.value, true) + "\n"@
}

/// The fields of a record as lines of source text.
pub open spec fn fields_source(fields: Seq<FieldView>) -> Seq<char>
    decreases fields.len(),
{
    if fields.len() == 0 {
        Seq::empty()
    } else {
        fields_source(fields.drop_last()) + field_source(fields.last())
    }
}

/// A record as source text: its id, a colon and its parents on the first
/// line, then one line for each field.
pub open spec fn record_source(record: Record) -> Seq<char> {
    record.id + ":"@ + parents_source(record.parents) + "\n"@ + fields_source(record.fields)
}

/// The parents of a record as the items of a JSON array, one a line.
pub open spec fn json_parent_lines(parents: Seq<Seq<char>>) -> Seq<Seq<char>> {
    Seq::new(parents.len(), |i: int| "\t\t\""@ + parents[i] + "\""@)
}

/// The fields of a record as the members of a JSON object, one a line.
pub open spec fn json_field_lines(fields: Seq<FieldView>) -> Seq<Seq<char>> {
    Seq::new(
        fields.len(),
        |i: int| "\t\t\""@ + fields[i].name + "\": \""@ + expr_text(fields[i].value, false) + "\""@,
    )
}

/// A record as a JSON object with its id, its parents where it has any, and
/// its fields where it has any. Nothing is escaped.
pub open spec fn record_json(record: Record) -> Seq<char> {
    "{\n\t\"id\": \""@ + record.id + "\""@ + (if record.parents.len() > 0 || record.fields.len()
        > 0 {
        ","@
    } else {
        Seq::empty()
    }) + (if record.parents.len() > 0 {
        "\n\t\"parents\": [\n"@ + join(json_parent_lines(record.parents), ",\n"@) + "\n\t]"@ + (
        if record.fields.len() > 0 {
            ","@
        } else {
            Seq::empty()
        })
    } else {
        Seq::empty()
    }) + (if record.fields.len() > 0 {
        "\n\t\"fields\":\n\t{\n"@ + join(json_field_lines(record.fields), ",\n"@) + "\n\t}"@
    } else {
        Seq::empty()
    }) + "\n}"@
}

/// The parents of a record as the items of a YAML list.
pub open spec fn yaml_parent_lines(parents: Seq<Seq<char>>) -> Seq<Seq<char>> {
    Seq::new(parents.len(), |i: int| "  - "@ + parents[i])
}

/// The fields of a record as the entries of a YAML mapping.
pub open spec fn yaml_field_lines(fields: Seq<FieldView>) -> Seq<Seq<char>> {
    Seq::new(
        fields.len(),
        |i: int| "\t"@ + fields[i].name + ": "@ + expr_text(fields[i].value, false),
    )
}

/// A record as a YAML mapping under its id, with its parents where it has
/// any, and its fields.
pub open spec fn record_yaml(record: Record) -> Seq<char> {
    record.id + ":"@ + (if record.parents.len() > 0 {
        "\n\tparents:\n\t"@ + join(yaml_parent_lines(record.parents), "\n\t"@)
    } else {
        Seq::empty()
    }) + (if record.fields.len() > 0 {
        "\n"@
    } else {
        Seq::empty()
    }) + join(yaml_field_lines(record.fields), "\n"@) + "\n"@
}

/// The record that is written for `record`: the record itself, or, with
/// `flat`, the resolved record of the same id.
pub open spec fn shown(table: Seq<Record>, record: Record, flat: bool) -> Result<
    Record,
    ErrorView,
> {
    if flat {
        resolved(table, record.id)
    } else {
        Ok(record)
    }
}

/// A record in the given format.
pub open spec fn record_text(record: Record, format: OutputFormat) -> Seq<char> {
    match format {
        OutputFormat::Json => record_json(record),
        OutputFormat::Yaml => record_yaml(record),
        OutputFormat::Non => record_source(record),
    }
}

/// The first `n` records of a table in the given format, one text for each
/// record; the first error of resolution where `flat` asks for resolved
/// records and one of them does not resolve.
pub open spec fn record_texts(table: Seq<Record>, n: nat, format: OutputFormat, flat: bool) -> Result<
    Seq<Seq<char>>,
    ErrorView,
>
    decreases n,
{
    if n == 0 {
        Ok(Seq::empty())
    } else {
        match record_texts(table, (n - 1) as nat, format, flat) {
            Ok(texts) => match shown(table, table[n - 1], flat) {
                Ok(record) => Ok(texts.push(record_text(record, format))),
                Err(e) => Err(e),
            },
            Err(e) => Err(e),
        }
    }
}

/// A table in the given format: the texts of its records in the order of
/// the table, for JSON as the items of an array, else with a line feed
/// between each two.
pub open spec fn table_text(table: Seq<Record>, format: OutputFormat, flat: bool) -> Result<
    Seq<char>,
    ErrorView,
> {
    match record_texts(table, table.len(), format, flat) {
        Ok(texts) => Ok(
            match format {
                OutputFormat::Json => "[\n"@ + join(texts, ",\n"@) + "\n]"@,
                _ => join(texts, "\n"@),
            },
        ),
        Err(e) => Err(e),
    }
}

/// Appends the items of `lines` to `out`, with `sep` between each two.
pub fn append_joined(out: &mut String, lines: &Vec<String>, sep: &str)
    ensures
        final(out)@ == old(out)@ + join(texts_of(lines@), sep@),
{
    let ghost start = out@;
    let ghost items = texts_of(lines@);
    assert(items.take(0) =~= Seq::empty());
    assert(start + Seq::<char>::empty() =~= start);
    let mut k: usize = 0;
    while k < lines.len()
        invariant
            k <= lines.len(),
            items == texts_of(lines@),
            out@ == start + join(items.take(k as int), sep@),
        decreases lines.len() - k,
    {
        let ghost done = join(items.take(k as int), sep@);
        assert(items.take(k + 1).drop_last() =~= items.take(k as int));
        assert(items.take(k + 1).last() == lines@[k as int]@);
        if k > 0 {
            out.append(sep);
            out.append(lines[k].as_str());
            assert(out@ =~= start + (done + sep@ + lines@[k as int]@));
        } else {
            out.append(lines[k].as_str());
            assert(items.take(1)[0] == lines@[0]@);
            assert(out@ =~= start + lines@[0]@);
        }
        k = k + 1;
    }
    assert(items.take(k as int) =~= items);
}

impl FieldValue {
    /// The text of the expression, with its literals between quotes or
    /// bare.
    fn text(&self, quote: bool) -> (s: String)
        ensures
            s@ == expr_text(self@, quote),
        decreases self,
    {
        match self {
            FieldValue::Literal(text) => {
                if quote {
                    let mut out = "'".to_owned();
                    out.append(text.as_str());
                    out.append("'");
                    out
                } else {
                    text.clone()
                }
            },
            FieldValue::SelfId => "@".to_owned(),
            FieldValue::SelfFieldRef(name) => {
                let mut out = ".".to_owned();
                out.append(name.as_str());
                out
            },
            FieldValue::CrossFieldRef(record, name) => {
                let mut out = record.clone();
                out.append(".");
                out.append(name.as_str());
                out
            },
            FieldValue::Concat(parts) => {
                let mut out = String::new();
                let ghost items = exprs_of(parts@);
                proof {
                    lemma_concat_view(*parts);
                    assert(items.take(0) =~= Seq::empty());
                }
                let mut k: usize = 0;
                while k < parts.len()
                    invariant
                        k <= parts.len(),
                        self matches FieldValue::Concat(p) && p == parts,
                        items == exprs_of(parts@),
                        out@ == parts_text(items.take(k as int), quote),
                    decreases parts.len() - k,
                {
                    assert(items.take(k + 1).drop_last() =~= items.take(k as int));
                    assert(items.take(k + 1).last() == parts@[k as int]@);
                    let part = parts[k].text(quote);
                    if k > 0 {
                        out.append(" ");
                    } else {
                        assert(items.take(1)[0] == parts@[0]@);
                        assert(out@ + part@ =~= part@);
                    }
                    out.append(part.as_str());
                    k = k + 1;
                }
                assert(items.take(k as int) =~= items);
                out
            },
        }
    }

    /// The expression as it is shown: a literal bare, `@`, `.name`,
    /// `record.name`, and the parts of a concatenation with one space between
    /// each two.
    pub fn to_string(&self) -> (s: String)
        ensures
            s@ == expr_text(self@, false),
    {
        self.text(false)
    }

    /// The expression as source text: as it is shown, but with each literal
    /// between single quotes.
    pub fn to_source(&self) -> (s: String)
        ensures
            s@ == expr_text(self@, true),
    {
        self.text(true)
    }
}

impl Non {
    /// The record that is written for this one: a copy of it, or, with
    /// `flat`, the resolved record of the same id in `defs`.
    pub fn shown(&self, defs: &NonDefs, flat: bool) -> (res: Result<Non, NonError>)
        ensures
            match shown(defs@, self@, flat) {
                Ok(record) => res matches Ok(non) && non@ == record,
                Err(e) => res matches Err(x) && x@ == e,
            },
    {
        if flat {
            defs.resolve(self.id.as_str())
        } else {
            Ok(self.clone())
        }
    }

    /// The record as source text.
    fn source(&self) -> (s: String)
        ensures
            s@ == record_source(self@),
    {
        let mut out = self.id.clone();
        out.append(":");
        let ghost head = out@;
        let ghost parents = self@.parents;
        assert(parents.take(0) =~= Seq::empty());
        assert(head + Seq::<char>::empty() =~= head);
        let mut k: usize = 0;
        while k < self.parents.len()
            invariant
                k <= self.parents.len(),
                parents == self@.parents,
                out@ == head + parents_source(parents.take(k as int)),
            decreases self.parents.len() - k,
        {
            let ghost done = parents_source(parents.take(k as int));
            assert(parents.take(k + 1).drop_last() =~= parents.take(k as int));
            assert(parents.take(k + 1).last() == self.parents@[k as int]@);
            out.append(" ");
            out.append(self.parents[k].as_str());
            assert(out@ =~= head + (done + " "@ + self.parents@[k as int]@));
            k = k + 1;
        }
        assert(parents.take(k as int) =~= parents);
        out.append("\n");
        let ghost top = out@;
        let ghost fields = self@.fields;
        assert(fields.take(0) =~= Seq::empty());
        assert(top + Seq::<char>::empty() =~= top);
        let mut j: usize = 0;
        while j < self.fields.len()
            invariant
                j <= self.fields.len(),
                fields == self@.fields,
                out@ == top + fields_source(fields.take(j as int)),
            decreases self.fields.len() - j,
        {
            let ghost done = fields_source(fields.take(j as int));
            assert(fields.take(j + 1).drop_last() =~= fields.take(j as int));
            assert(fields.take(j + 1).last() == self.fields@[j as int]@);
            let value = self.fields[j].value.to_source();
            out.append(".");
            out.append(self.fields[j].name.as_str());
            out.append(" ");
            out.append(value.as_str());
            out.append("\n");
            assert(out@ =~= top + (done + field_source(self.fields@[j as int]@)));
            j = j + 1;
        }
        assert(fields.take(j as int) =~= fields);
        assert(out@ =~= record_source(self@));
        out
    }

    /// The record as a JSON object.
    fn json(&self) -> (s: String)
        ensures
            s@ == record_json(self@),
    {
        let mut out = "{\n\t\"id\": \"".to_owned();
        out.append(self.id.as_str());
        out.append("\"");
        let has_parents = self.parents.len() > 0;
        let has_fields = self.fields.len() > 0;
        if has_parents || has_fields {
            out.append(",");
        } else {
            assert(out@ + Seq::<char>::empty() =~= out@);
        }
        if has_parents {
            let mut lines: Vec<String> = Vec::new();
            let mut k: usize = 0;
            while k < self.parents.len()
                invariant
                    k <= self.parents.len(),
                    lines@.len() == k,
                    forall|i: int|
                        0 <= i < k ==> lines@[i]@ == json_parent_lines(self@.parents)[i],
                decreases self.parents.len() - k,
            {
                let mut line = "\t\t\"".to_owned();
                line.append(self.parents[k].as_str());
                line.append("\"");
                lines.push(line);
                k = k + 1;
            }
            assert(texts_of(lines@) =~= json_parent_lines(self@.parents));
            out.append("\n\t\"parents\": [\n");
            append_joined(&mut out, &lines, ",\n");
            out.append("\n\t]");
            if has_fields {
                out.append(",");
            }
        }
        if has_fields {
            let mut lines: Vec<String> = Vec::new();
            let mut k: usize = 0;
            while k < self.fields.len()
                invariant
                    k <= self.fields.len(),
                    lines@.len() == k,
                    forall|i: int| 0 <= i < k ==> lines@[i]@ == json_field_lines(self@.fields)[i],
                decreases self.fields.len() - k,
            {
                let value = self.fields[k].value.to_string();
                let mut line = "\t\t\"".to_owned();
                line.append(self.fields[k].name.as_str());
                line.append("\": \"");
                line.append(value.as_str());
                line.append("\"");
                lines.push(line);
                k = k + 1;
            }
            assert(texts_of(lines@) =~= json_field_lines(self@.fields));
            out.append("\n\t\"fields\":\n\t{\n");
            append_joined(&mut out, &lines, ",\n");
            out.append("\n\t}");
        }
        out.append("\n}");
        assert(out@ =~= record_json(self@));
        out
    }

    /// The record as a YAML mapping.
    fn yaml(&self) -> (s: String)
        ensures
            s@ == record_yaml(self@),
    {
        let mut out = self.id.clone();
        out.append(":");
        if self.parents.len() > 0 {
            let mut lines: Vec<String> = Vec::new();
            let mut k: usize = 0;
            while k < self.parents.len()
                invariant
                    k <= self.parents.len(),
                    lines@.len() == k,
                    forall|i: int|
                        0 <= i < k ==> lines@[i]@ == yaml_parent_lines(self@.parents)[i],
                decreases self.parents.len() - k,
            {
                let mut line = "  - ".to_owned();
                line.append(self.parents[k].as_str());
                lines.push(line);
                k = k + 1;
            }
            assert(texts_of(lines@) =~= yaml_parent_lines(self@.parents));
            out.append("\n\tparents:\n\t");
            append_joined(&mut out, &lines, "\n\t");
        }
        if self.fields.len() > 0 {
            out.append("\n");
        }
        let mut lines: Vec<String> = Vec::new();
        let mut k: usize = 0;
        while k < self.fields.len()
            invariant
                k <= self.fields.len(),
                lines@.len() == k,
                forall|i: int| 0 <= i < k ==> lines@[i]@ == yaml_field_lines(self@.fields)[i],
            decreases self.fields.len() - k,
        {
            let value = self.fields[k].value.to_string();
            let mut line = "\t".to_owned();
            line.append(self.fields[k].name.as_str());
            line.append(": ");
            line.append(value.as_str());
            lines.push(line);
            k = k + 1;
        }
        assert(texts_of(lines@) =~= yaml_field_lines(self@.fields));
        append_joined(&mut out, &lines, "\n");
        out.append("\n");
        assert(out@ =~= record_yaml(self@));
        out
    }

    /// The record in the given format.
    fn text(&self, format: OutputFormat) -> (s: String)
        ensures
            s@ == record_text(self@, format),
    {
        match format {
            OutputFormat::Json => self.json(),
            OutputFormat::Yaml => self.yaml(),
            OutputFormat::Non => self.source(),
        }
    }

    /// Writes the record in the language itself: its id, a colon and its
    /// parents on the first line, then one line for each field. With
    /// `flat`, what is written is the resolved record of the same id in
    /// `defs`, which has no parents and only literals.
    pub fn serialize_non(&self, defs: &NonDefs, flat: bool) -> (res: Result<String, NonError>)
        ensures
            match shown(defs@, self@, flat) {
                Ok(record) => res matches Ok(s) && s@ == record_source(record),
                Err(e) => res matches Err(x) && x@ == e,
            },
    {
        match self.shown(defs, flat) {
            Ok(non) => Ok(non.source()),
            Err(e) => Err(e),
        }
    }

    /// Writes the record as a JSON object, with nothing escaped. With
    /// `flat`, what is written is the resolved record of the same id in
    /// `defs`.
    pub fn serialize_json(&self, defs: &NonDefs, flat: bool) -> (res: Result<String, NonError>)
        ensures
            match shown(defs@, self@, flat) {
                Ok(record) => res matches Ok(s) && s@ == record_json(record),
                Err(e) => res matches Err(x) && x@ == e,
            },
    {
        match self.shown(defs, flat) {
            Ok(non) => Ok(non.json()),
            Err(e) => Err(e),
        }
    }

    /// Writes the record as a YAML mapping. With `flat`, what is written is
    /// the resolved record of the same id in `defs`.
    pub fn serialize_yaml(&self, defs: &NonDefs, flat: bool) -> (res: Result<String, NonError>)
        ensures
            match shown(defs@, self@, flat) {
                Ok(record) => res matches Ok(s) && s@ == record_yaml(record),
                Err(e) => res matches Err(x) && x@ == e,
            },
    {
        match self.shown(defs, flat) {
            Ok(non) => Ok(non.yaml()),
            Err(e) => Err(e),
        }
    }
}

/// An error in writing the first records is the error of writing all of
/// them.
pub proof fn lemma_record_texts_error(
    table: Seq<Record>,
    k: nat,
    format: OutputFormat,
    flat: bool,
)
    requires
        k <= table.len(),
        record_texts(table, k, format, flat) is Err,
    ensures
        record_texts(table, table.len(), format, flat) == record_texts(table, k, format, flat),
    decreases table.len() - k,
{
    if k < table.len() {
        lemma_record_texts_error(table, k + 1, format, flat);
    }
}

impl NonDefs {
    /// Writes the records of the table in the given format, in the order
    /// of the table. With `flat`, each record is written resolved; the
    /// first record that does not resolve gives the error.
    pub fn serialize(&self, format: OutputFormat, flat: bool) -> (res: Result<String, NonError>)
        ensures
            match table_text(self@, format, flat) {
                Ok(text) => res matches Ok(s) && s@ == text,
                Err(e) => res matches Err(x) && x@ == e,
            },
    {
        let mut texts: Vec<String> = Vec::new();
        assert(texts_of(texts@) =~= Seq::empty());
        let mut k: usize = 0;
        while k < self.len()
            invariant
                k <= self@.len(),
                record_texts(self@, k as nat, format, flat) == Ok::<Seq<Seq<char>>, ErrorView>(
                    texts_of(texts@),
                ),
            decreases self@.len() - k,
        {
            let ghost done = texts_of(texts@);
            let non = self.get(k);
            match non.shown(self, flat) {
                Ok(record) => {
                    let text = record.text(format);
                    texts.push(text);
                    assert(texts_of(texts@) =~= done.push(record_text(record@, format)));
                },
                Err(e) => {
                    proof {
                        lemma_record_texts_error(self@, (k + 1) as nat, format, flat);
                    }
                    return Err(e);
                },
            }
            k = k + 1;
        }
        let mut out = String::new();
        match format {
            OutputFormat::Json => {
                out.append("[\n");
                append_joined(&mut out, &texts, ",\n");
                out.append("\n]");
            },
            _ => {
                append_joined(&mut out, &texts, "\n");
            },
        }
        assert(out@ =~= table_text(self@, format, flat)->Ok_0);
        Ok(out)
    }
}

} // verus!
