//! Records: a named declaration with its parents and its fields.

use vstd::prelude::*;
use crate::parser::{Expr, Field, FieldValue, FieldView};

verus! {

/// A record as it was declared: its id, the ids of its parents in the order
/// of declaration, and its fields in the order of declaration.
#[derive(Debug)]
pub struct Non {
    pub id: String,
    pub parents: Vec<String>,
    pub fields: Vec<Field>,
}

/// The mathematical value of a [`Non`].
pub struct Record {
    pub id: Seq<char>,
    pub parents: Seq<Seq<char>>,
    pub fields: Seq<FieldView>,
}

/// The texts of a list of strings, one for one.
pub open spec fn texts_of(names: Seq<String>) -> Seq<Seq<char>> {
    Seq::new(names.len(), |i: int| names[i]@)
}

/// The values of a list of fields, one for one.
pub open spec fn fields_of(fields: Seq<Field>) -> Seq<FieldView> {
    Seq::new(fields.len(), |i: int| fields[i]@)
}

impl View for Non {
    type V = Record;

    open spec fn view(&self) -> Record {
        Record {
            id: self.id@,
            parents: texts_of(self.parents@),
            fields: fields_of(self.fields@),
        }
    }
}

/// The index of the last field of `fields` named `name`, if there is one.
pub open spec fn field_index(fields: Seq<FieldView>, name: Seq<char>) -> Option<int>
    decreases fields.len(),
{
    if fields.len() == 0 {
        None
    } else if fields.last().name == name {
        Some(fields.len() - 1)
    } else {
        field_index(fields.drop_last(), name)
    }
}

/// The expression of the last field of `fields` named `name`, if there is
/// one: where a name occurs twice, the later declaration wins.
pub open spec fn lookup(fields: Seq<FieldView>, name: Seq<char>) -> Option<Expr>
    decreases fields.len(),
{
    if fields.len() == 0 {
        None
    } else if fields.last().name == name {
        Some(fields.last().value)
    } else {
        lookup(fields.drop_last(), name)
    }
}

/// `fields` with `field` put in: in the place of the last field of the same
/// name where there is one, at the end otherwise.
pub open spec fn put(fields: Seq<FieldView>, field: FieldView) -> Seq<FieldView> {
    match field_index(fields, field.name) {
        Some(i) => fields.update(i, field),
        None => fields.push(field),
    }
}

/// `base` with the fields of `more` put in one after the other.
pub open spec fn overlay(base: Seq<FieldView>, more: Seq<FieldView>) -> Seq<FieldView>
    decreases more.len(),
{
    if more.len() == 0 {
        base
    } else {
        put(overlay(base, more.drop_last()), more.last())
    }
}

/// Whether no two fields of `fields` have the same name.
pub open spec fn distinct_names(fields: Seq<FieldView>) -> bool {
    forall|i: int, j: int|
        0 <= i < fields.len() && 0 <= j < fields.len() && i != j ==> (#[trigger] fields[i]).name
            != (#[trigger] fields[j]).name
}

/// What [`field_index`] finds: the last index with the name, which is
/// where [`lookup`] finds its expression, or nothing where no field has the
/// name.
pub proof fn lemma_field_index(fields: Seq<FieldView>, name: Seq<char>)
    ensures
        match field_index(fields, name) {
            Some(i) => 0 <= i < fields.len() && fields[i].name == name && lookup(fields, name)
                == Some(fields[i].value) && forall|j: int|
                i < j < fields.len() ==> (#[trigger] fields[j]).name != name,
            None => lookup(fields, name) is None && forall|j: int|
                0 <= j < fields.len() ==> (#[trigger] fields[j]).name != name,
        },
    decreases fields.len(),
{
    if fields.len() > 0 && fields.last().name != name {
        let init = fields.drop_last();
        let last = fields.len() - 1;
        lemma_field_index(init, name);
        match field_index(init, name) {
            Some(i) => {
                assert(init[i] == fields[i]);
                assert forall|j: int| i < j < fields.len() implies (#[trigger] fields[j]).name
                    != name by {
                    if j < last {
                        assert(init[j] == fields[j]);
                    }
                }
            },
            None => {
                assert forall|j: int| 0 <= j < fields.len() implies (#[trigger] fields[j]).name
                    != name by {
                    if j < last {
                        assert(init[j] == fields[j]);
                    }
                }
            },
        }
    }
}

/// A field behind which no field has its name is the one found under its
/// name.
pub proof fn lemma_lookup_at(fields: Seq<FieldView>, i: int)
    requires
        0 <= i < fields.len(),
        forall|j: int| i < j < fields.len() ==> (#[trigger] fields[j]).name != fields[i].name,
    ensures
        lookup(fields, fields[i].name) == Some(fields[i].value),
        field_index(fields, fields[i].name) == Some(i),
    decreases fields.len(),
{
    let last = fields.len() - 1;
    if i < last {
        let init = fields.drop_last();
        assert(fields[last].name != fields[i].name);
        assert(init[i] == fields[i]);
        assert forall|j: int| i < j < init.len() implies (#[trigger] init[j]).name
            != init[i].name by {
            assert(init[j] == fields[j]);
        }
        lemma_lookup_at(init, i);
    }
}

/// Putting a field in the place of one of the same name changes nothing
/// of what is found under another name.
pub proof fn lemma_lookup_update(
    fields: Seq<FieldView>,
    k: int,
    field: FieldView,
    name: Seq<char>,
)
    requires
        0 <= k < fields.len(),
        fields[k].name == field.name,
        name != field.name,
    ensures
        lookup(fields.update(k, field), name) == lookup(fields, name),
    decreases fields.len(),
{
    let out = fields.update(k, field);
    let last = fields.len() - 1;
    if k == last {
        assert(out.drop_last() =~= fields.drop_last());
    } else {
        assert(out.last() == fields.last());
        if fields.last().name != name {
            assert(out.drop_last() =~= fields.drop_last().update(k, field));
            lemma_lookup_update(fields.drop_last(), k, field, name);
        }
    }
}

/// What [`lookup`] finds: the expression of the last field with the name, or
/// nothing where no field has it.
pub proof fn lemma_lookup(fields: Seq<FieldView>, name: Seq<char>)
    ensures
        match lookup(fields, name) {
            Some(e) => exists|i: int|
                0 <= i < fields.len() && (#[trigger] fields[i]).name == name && fields[i].value
                    == e && forall|j: int|
                    i < j < fields.len() ==> (#[trigger] fields[j]).name != name,
            None => forall|j: int| 0 <= j < fields.len() ==> (#[trigger] fields[j]).name != name,
        },
    decreases fields.len(),
{
    if fields.len() > 0 {
        let init = fields.drop_last();
        let last = fields.len() - 1;
        if fields.last().name == name {
            assert(fields[last].name == name);
        } else {
            lemma_lookup(init, name);
            match lookup(init, name) {
                Some(e) => {
                    let i = choose|i: int|
                        0 <= i < init.len() && (#[trigger] init[i]).name == name && init[i].value
                            == e && forall|j: int|
                            i < j < init.len() ==> (#[trigger] init[j]).name != name;
                    assert(init[i] == fields[i]);
                    assert forall|j: int| i < j < fields.len() implies (#[trigger] fields[j]).name
                        != name by {
                        if j < last {
                            assert(init[j] == fields[j]);
                        }
                    }
                    assert(0 <= i < fields.len() && fields[i].name == name && fields[i].value == e);
                },
                None => {
                    assert forall|j: int| 0 <= j < fields.len() implies (#[trigger] fields[j]).name
                        != name by {
                        if j < last {
                            assert(init[j] == fields[j]);
                        }
                    }
                },
            }
        }
    }
}

/// Putting a field into a list makes the field the one found under its
/// name, leaves what is found under every other name as it was, and leaves
/// distinct names distinct.
pub proof fn lemma_put(fields: Seq<FieldView>, field: FieldView)
    ensures
        lookup(put(fields, field), field.name) == Some(field.value),
        forall|name: Seq<char>|
            name != field.name ==> lookup(put(fields, field), name) == lookup(fields, name),
        fields.len() <= put(fields, field).len() <= fields.len() + 1,
        distinct_names(fields) ==> distinct_names(put(fields, field)),
{
    let out = put(fields, field);
    lemma_field_index(fields, field.name);
    match field_index(fields, field.name) {
        Some(k) => {
            assert(out[k] == field);
            assert forall|j: int| k < j < out.len() implies (#[trigger] out[j]).name
                != out[k].name by {
                assert(out[j] == fields[j]);
            }
            lemma_lookup_at(out, k);
            assert forall|name: Seq<char>| name != field.name implies lookup(out, name)
                == lookup(fields, name) by {
                lemma_lookup_update(fields, k, field, name);
            }
        },
        None => {
            assert(out.drop_last() =~= fields);
            assert(out.last() == field);
        },
    }
    if distinct_names(fields) {
        assert forall|i: int, j: int|
            0 <= i < out.len() && 0 <= j < out.len() && i != j implies (#[trigger] out[i]).name
            != (#[trigger] out[j]).name by {
            match field_index(fields, field.name) {
                Some(k) => {
                    if i != k {
                        assert(out[i] == fields[i]);
                    }
                    if j != k {
                        assert(out[j] == fields[j]);
                    }
                },
                None => {
                    if i < fields.len() {
                        assert(out[i] == fields[i]);
                    }
                    if j < fields.len() {
                        assert(out[j] == fields[j]);
                    }
                },
            }
        }
    }
}

/// In a list of distinct names, a field is found under its name wherever it
/// stands, and nothing is found under a name that no field has.
pub proof fn lemma_lookup_distinct(fields: Seq<FieldView>, name: Seq<char>)
    requires
        distinct_names(fields),
    ensures
        forall|i: int|
            0 <= i < fields.len() && (#[trigger] fields[i]).name == name ==> lookup(fields, name)
                == Some(fields[i].value),
        lookup(fields, name) matches Some(e) ==> exists|i: int|
            0 <= i < fields.len() && (#[trigger] fields[i]).name == name && fields[i].value == e,
        lookup(fields, name) is None ==> forall|i: int|
            0 <= i < fields.len() ==> (#[trigger] fields[i]).name != name,
{
    lemma_lookup(fields, name);
}

/// In an overlay, a name of `more` finds what it finds in `more`, and any
/// other name what it finds in `base`; and where the names of `base` are
/// distinct, so are those of the overlay.
pub proof fn lemma_overlay(base: Seq<FieldView>, more: Seq<FieldView>)
    ensures
        forall|name: Seq<char>|
            #[trigger] lookup(overlay(base, more), name) == match lookup(more, name) {
                Some(e) => Some(e),
                None => lookup(base, name),
            },
        base.len() <= overlay(base, more).len() <= base.len() + more.len(),
        distinct_names(base) ==> distinct_names(overlay(base, more)),
    decreases more.len(),
{
    if more.len() > 0 {
        let init = more.drop_last();
        lemma_overlay(base, init);
        lemma_put(overlay(base, init), more.last());
        assert forall|name: Seq<char>|
            #[trigger] lookup(overlay(base, more), name) == match lookup(more, name) {
                Some(e) => Some(e),
                None => lookup(base, name),
            } by {
            if name == more.last().name {
            } else {
                assert(lookup(overlay(base, more), name) == lookup(overlay(base, init), name));
            }
        }
    }
}

/// A copy of a list of names.
pub fn clone_names(names: &Vec<String>) -> (out: Vec<String>)
    ensures
        texts_of(out@) == texts_of(names@),
{
    let mut out: Vec<String> = Vec::new();
    let mut i: usize = 0;
    while i < names.len()
        invariant
            i <= names.len(),
            out@.len() == i,
            forall|j: int| 0 <= j < i ==> out@[j]@ == names@[j]@,
        decreases names.len() - i,
    {
        out.push(names[i].clone());
        i = i + 1;
    }
    assert(texts_of(out@) =~= texts_of(names@));
    out
}

/// A copy of a list of fields.
pub fn clone_fields(fields: &Vec<Field>) -> (out: Vec<Field>)
    ensures
        fields_of(out@) == fields_of(fields@),
{
    let mut out: Vec<Field> = Vec::new();
    let mut i: usize = 0;
    while i < fields.len()
        invariant
            i <= fields.len(),
            out@.len() == i,
            forall|j: int| 0 <= j < i ==> out@[j]@ == fields@[j]@,
        decreases fields.len() - i,
    {
        out.push(fields[i].clone());
        i = i + 1;
    }
    assert(fields_of(out@) =~= fields_of(fields@));
    out
}

/// The index of the last field named `name`.
pub fn find_field(fields: &Vec<Field>, name: &String) -> (res: Option<usize>)
    ensures
        match field_index(fields_of(fields@), name@) {
            Some(i) => res matches Some(k) && k == i && i < fields.len(),
            None => res is None,
        },
{
    let mut i: usize = fields.len();
    while i > 0
        invariant
            i <= fields.len(),
            forall|j: int|
                i <= j < fields.len() ==> (#[trigger] fields_of(fields@)[j]).name != name@,
        decreases i,
    {
        i = i - 1;
        if fields[i].name == *name {
            proof {
                assert(fields_of(fields@)[i as int].name == name@);
                lemma_lookup_at(fields_of(fields@), i as int);
            }
            return Some(i);
        }
    }
    proof {
        lemma_field_index(fields_of(fields@), name@);
    }
    None
}

/// The expression of the last field named `name`.
pub fn last_field<'a>(fields: &'a Vec<Field>, name: &String) -> (res: Option<&'a FieldValue>)
    ensures
        match lookup(fields_of(fields@), name@) {
            Some(e) => res matches Some(v) && v@ == e,
            None => res is None,
        },
{
    proof {
        lemma_lookup(fields_of(fields@), name@);
    }
    let mut i: usize = fields.len();
    while i > 0
        invariant
            i <= fields.len(),
            forall|j: int| i <= j < fields.len() ==> (#[trigger] fields_of(fields@)[j]).name != name@,
        decreases i,
    {
        i = i - 1;
        if fields[i].name == *name {
            proof {
                lemma_lookup(fields_of(fields@), name@);
                assert(fields_of(fields@)[i as int].name == name@);
            }
            return Some(&fields[i].value);
        }
    }
    None
}

/// Puts `field` into `fields`: in the place of the last field of the same
/// name where there is one, at the end otherwise.
pub fn put_field(fields: &mut Vec<Field>, field: Field)
    ensures
        fields_of(final(fields)@) == put(fields_of(old(fields)@), field@),
{
    let ghost before = fields_of(fields@);
    match find_field(fields, &field.name) {
        Some(i) => {
            fields[i] = field;
            assert(fields_of(fields@) =~= before.update(i as int, field@));
        },
        None => {
            fields.push(field);
            assert(fields_of(fields@) =~= before.push(field@));
        },
    }
}

/// Puts copies of the fields of `more` into `fields`, one after the other.
pub fn overlay_fields(fields: &mut Vec<Field>, more: &Vec<Field>)
    ensures
        fields_of(final(fields)@) == overlay(fields_of(old(fields)@), fields_of(more@)),
{
    let ghost base = fields_of(fields@);
    let mut i: usize = 0;
    while i < more.len()
        invariant
            i <= more.len(),
            fields_of(fields@) == overlay(base, fields_of(more@).take(i as int)),
        decreases more.len() - i,
    {
        let ghost done = fields_of(more@).take(i as int);
        let ghost next = fields_of(more@).take(i + 1);
        assert(next.drop_last() =~= done);
        assert(next.last() == more@[i as int]@);
        put_field(fields, more[i].clone());
        i = i + 1;
    }
    assert(fields_of(more@).take(i as int) =~= fields_of(more@));
}

impl Non {
    /// A record of the given id, parents and fields.
    pub fn new(id: String, parents: Vec<String>, fields: Vec<Field>) -> (non: Self)
        ensures
            non.id == id,
            non.parents == parents,
            non.fields == fields,
    {
        Non { id, parents, fields }
    }

    /// A record of the given id, without parents or fields.
    pub fn from_id(id: String) -> (non: Self)
        ensures
            non@ == (Record { id: id@, parents: Seq::empty(), fields: Seq::empty() }),
    {
        let non = Non { id, parents: Vec::new(), fields: Vec::new() };
        assert(non@.parents =~= Seq::empty());
        assert(non@.fields =~= Seq::empty());
        non
    }

    /// The id of the record.
    pub fn id(&self) -> (id: String)
        ensures
            id@ == self.id@,
    {
        self.id.clone()
    }

    /// Declares one more field, behind those that the record has.
    pub fn add_field(&mut self, name: String, value: FieldValue)
        ensures
            final(self)@ == (Record {
                fields: old(self)@.fields.push(FieldView { name: name@, value: value@ }),
                ..old(self)@
            }),
    {
        let ghost before = self@;
        self.fields.push(Field { name, value });
        assert(self@.fields =~= before.fields.push(FieldView { name: name@, value: value@ }));
    }

    /// Puts copies of the fields of `other` into this record, each in the
    /// place of the last field of the same name, or at the end.
    pub fn merge_fields(&mut self, other: &Non)
        ensures
            final(self)@ == (Record {
                fields: overlay(old(self)@.fields, other@.fields),
                ..old(self)@
            }),
    {
        overlay_fields(&mut self.fields, &other.fields);
    }
}

impl Clone for Non {
    fn clone(&self) -> (r: Self)
        ensures
            r@ == self@,
    {
        Non {
            id: self.id.clone(),
            parents: clone_names(&self.parents),
            fields: clone_fields(&self.fields),
        }
    }
}

impl PartialEq for Non {
    fn eq(&self, other: &Non) -> (r: bool) {
        if self.id != other.id || self.parents.len() != other.parents.len() || self.fields.len()
            != other.fields.len() {
            assert(self@.parents.len() == self.parents.len());
            assert(self@.fields.len() == self.fields.len());
            return false;
        }
        let mut i: usize = 0;
        while i < self.parents.len()
            invariant
                i <= self.parents.len(),
                self.parents.len() == other.parents.len(),
                forall|j: int| 0 <= j < i ==> self.parents@[j]@ == other.parents@[j]@,
            decreases self.parents.len() - i,
        {
            if self.parents[i] != other.parents[i] {
                assert(self@.parents[i as int] != other@.parents[i as int]);
                return false;
            }
            i = i + 1;
        }
        let mut k: usize = 0;
        while k < self.fields.len()
            invariant
                k <= self.fields.len(),
                self.fields.len() == other.fields.len(),
                forall|j: int| 0 <= j < k ==> self.fields@[j]@ == other.fields@[j]@,
            decreases self.fields.len() - k,
        {
            if !self.fields[k].eq(&other.fields[k]) {
                assert(self@.fields[k as int] != other@.fields[k as int]);
                return false;
            }
            k = k + 1;
        }
        assert(self@.parents =~= other@.parents);
        assert(self@.fields =~= other@.fields);
        true
    }
}

impl vstd::std_specs::cmp::PartialEqSpecImpl for Non {
    open spec fn obeys_eq_spec() -> bool {
        true
    }

    open spec fn eq_spec(&self, other: &Non) -> bool {
        self@ == other@
    }
}

} // verus!
