//! Resolution: flattening the inheritance of a record, and evaluating the
//! expressions of its fields into plain strings.

use vstd::prelude::*;
use crate::error::{ErrorView, NonError};
use crate::nds::{lemma_record_index, record_index, NonDefs};
use crate::non::{
    fields_of, last_field, lemma_lookup, lookup, overlay, overlay_fields, texts_of,
    Non, Record,
};
use crate::parser::{exprs_of, lemma_concat_view, Expr, Field, FieldValue, FieldView};

verus! {

/// The number of items of `universe` that do not occur in `used`.
pub open spec fn free_count<A>(universe: Seq<A>, used: Seq<A>) -> nat
    decreases universe.len(),
{
    if universe.len() == 0 {
        0
    } else {
        free_count(universe.drop_last(), used) + if used.contains(universe.last()) {
            0nat
        } else {
            1nat
        }
    }
}

/// Using one more item leaves no more items free, and fewer where the item
/// is one of the universe that was free.
pub proof fn lemma_free_count_push<A>(universe: Seq<A>, used: Seq<A>, item: A)
    ensures
        free_count(universe, used.push(item)) <= free_count(universe, used),
        universe.contains(item) && !used.contains(item) ==> free_count(universe, used.push(item))
            < free_count(universe, used),
    decreases universe.len(),
{
    if universe.len() > 0 {
        let init = universe.drop_last();
        let last = universe.last();
        lemma_free_count_push(init, used, item);
        if used.contains(last) {
            let k = choose|k: int| 0 <= k < used.len() && used[k] == last;
            assert(used.push(item)[k] == last);
        }
        assert(used.push(item)[used.len() as int] == item);
        if universe.contains(item) && !used.contains(item) {
            if last == item {
            } else {
                let k = choose|k: int| 0 <= k < universe.len() && universe[k] == item;
                assert(init[k] == item);
            }
        }
    }
}

/// The ids of the records of a table, in the order of the table.
pub open spec fn ids_of(table: Seq<Record>) -> Seq<Seq<char>> {
    Seq::new(table.len(), |i: int| table[i].id)
}

/// The fields of the record `record` with all that it inherits: the
/// flattened fields of its parents, from the first to the last, then its own
/// fields, each put in the place of the field of the same name or at the
/// end. `path` holds the ids of the records whose flattening is under way.
pub open spec fn flatten_record(table: Seq<Record>, record: Record, path: Seq<Seq<char>>) -> Result<
    Seq<FieldView>,
    ErrorView,
>
    decreases free_count(ids_of(table), path.push(record.id)), 2nat, 0nat,
{
    match inherit(table, record.parents, path.push(record.id)) {
        Ok(base) => Ok(overlay(base, record.fields)),
        Err(e) => Err(e),
    }
}

/// The flattened fields of the record of the given id. An id that the table
/// does not hold is an error, and so is one whose flattening is under way
/// already: the record would inherit from itself.
pub open spec fn flatten(table: Seq<Record>, id: Seq<char>, path: Seq<Seq<char>>) -> Result<
    Seq<FieldView>,
    ErrorView,
>
    decreases free_count(ids_of(table), path), 0nat, 0nat,
{
    match record_index(table, id) {
        None => Err(ErrorView::UndefinedRecord(id)),
        Some(i) => if path.contains(id) {
            Err(ErrorView::CyclicDependency(id))
        } else {
            proof {
                lemma_record_index(table, id);
                assert(ids_of(table)[i] == id);
                lemma_free_count_push(ids_of(table), path, id);
            }
            flatten_record(table, table[i], path)
        },
    }
}

/// The flattened fields of the given parents, merged from the first to the
/// last.
pub open spec fn inherit(table: Seq<Record>, parents: Seq<Seq<char>>, path: Seq<Seq<char>>) -> Result<
    Seq<FieldView>,
    ErrorView,
>
    decreases free_count(ids_of(table), path), 1nat, parents.len(),
{
    if parents.len() == 0 {
        Ok(Seq::empty())
    } else {
        match inherit(table, parents.drop_last(), path) {
            Ok(base) => match flatten(table, parents.last(), path) {
                Ok(fields) => Ok(overlay(base, fields)),
                Err(e) => Err(e),
            },
            Err(e) => Err(e),
        }
    }
}

/// A field of a record: the id of the record and the name of the field.
pub type FieldKey = (Seq<char>, Seq<char>);

/// The fields of the flattened record at index `i`, each with the id of the
/// record; nothing where the record cannot be flattened.
pub open spec fn row(table: Seq<Record>, i: int) -> Seq<FieldKey> {
    match flatten(table, table[i].id, Seq::empty()) {
        Ok(fields) => Seq::new(fields.len(), |j: int| (table[i].id, fields[j].name)),
        Err(_) => Seq::empty(),
    }
}

/// The number of fields of the first `n` flattened records that are not in
/// `stack`.
pub open spec fn free_fields(table: Seq<Record>, n: nat, stack: Seq<FieldKey>) -> nat
    decreases n,
{
    if n == 0 {
        0
    } else {
        free_fields(table, (n - 1) as nat, stack) + free_count(row(table, n - 1), stack)
    }
}

/// The number of fields of flattened records whose evaluation is not under
/// way: the bound on how much deeper the evaluation can go.
pub open spec fn budget(table: Seq<Record>, stack: Seq<FieldKey>) -> nat {
    free_fields(table, table.len(), stack)
}

/// Entering one more field leaves no more fields free, and fewer where the
/// field is one of the first `n` flattened records and was free.
pub proof fn lemma_free_fields_push(
    table: Seq<Record>,
    n: nat,
    stack: Seq<FieldKey>,
    key: FieldKey,
    i: int,
)
    requires
        n <= table.len(),
    ensures
        free_fields(table, n, stack.push(key)) <= free_fields(table, n, stack),
        0 <= i < n && row(table, i).contains(key) && !stack.contains(key) ==> free_fields(
            table,
            n,
            stack.push(key),
        ) < free_fields(table, n, stack),
    decreases n,
{
    if n > 0 {
        lemma_free_fields_push(table, (n - 1) as nat, stack, key, i);
        lemma_free_count_push(row(table, n - 1), stack, key);
    }
}

/// The expression of the field `name` of the flattened record `id`.
pub open spec fn field_expr(table: Seq<Record>, id: Seq<char>, name: Seq<char>) -> Result<
    Expr,
    ErrorView,
> {
    match flatten(table, id, Seq::empty()) {
        Ok(fields) => match lookup(fields, name) {
            Some(e) => Ok(e),
            None => Err(ErrorView::UndefinedField(name)),
        },
        Err(e) => Err(e),
    }
}

/// What entering the field `name` of the record `id` gives: its expression
/// and the stack with the field on top. The record must flatten, it must
/// have the field, and the evaluation of the field must not be under way.
pub open spec fn enter_field(
    table: Seq<Record>,
    id: Seq<char>,
    name: Seq<char>,
    stack: Seq<FieldKey>,
) -> Result<(Expr, Seq<FieldKey>), ErrorView> {
    match field_expr(table, id, name) {
        Ok(e) => if stack.contains((id, name)) {
            Err(ErrorView::CyclicFieldReference(id, name))
        } else {
            Ok((e, stack.push((id, name))))
        },
        Err(e) => Err(e),
    }
}

/// Entering a field leaves fewer fields free.
pub proof fn lemma_enter_field(
    table: Seq<Record>,
    id: Seq<char>,
    name: Seq<char>,
    stack: Seq<FieldKey>,
)
    ensures
        enter_field(table, id, name, stack) matches Ok((_, deeper)) ==> budget(table, deeper)
            < budget(table, stack),
{
    if enter_field(table, id, name, stack) is Ok {
        let fields = flatten(table, id, Seq::empty())->Ok_0;
        lemma_record_index(table, id);
        let i = record_index(table, id)->0;
        lemma_lookup(fields, name);
        let j = choose|j: int| 0 <= j < fields.len() && (#[trigger] fields[j]).name == name;
        assert(row(table, i)[j] == (id, name));
        lemma_free_fields_push(table, table.len(), stack, (id, name), i);
    }
}

/// The text that the expression `e` gives on the record `id`.
///
/// A literal gives itself, `@` the id of the record, a reference the text of
/// the field that it names, on the same record or on the one that it names,
/// and a concatenation the texts of its parts, joined in order with nothing
/// between them. `stack` holds the fields whose evaluation is under way: a
/// reference to one of them is an error.
pub open spec fn eval(table: Seq<Record>, id: Seq<char>, e: Expr, stack: Seq<FieldKey>) -> Result<
    Seq<char>,
    ErrorView,
>
    decreases budget(table, stack), e,
{
    match e {
        Expr::Literal(s) => Ok(s),
        Expr::SelfId => Ok(id),
        Expr::SelfFieldRef(name) => match enter_field(table, id, name, stack) {
            Ok((inner, deeper)) => {
                proof {
                    lemma_enter_field(table, id, name, stack);
                }
                eval(table, id, inner, deeper)
            },
            Err(x) => Err(x),
        },
        Expr::CrossFieldRef(other, name) => match enter_field(table, other, name, stack) {
            Ok((inner, deeper)) => {
                proof {
                    lemma_enter_field(table, other, name, stack);
                }
                eval(table, other, inner, deeper)
            },
            Err(x) => Err(x),
        },
        Expr::Concat(parts) => eval_parts(table, id, parts, stack),
    }
}

/// The texts that the expressions `parts` give on the record `id`, joined
/// in order with nothing between them.
pub open spec fn eval_parts(
    table: Seq<Record>,
    id: Seq<char>,
    parts: Seq<Expr>,
    stack: Seq<FieldKey>,
) -> Result<Seq<char>, ErrorView>
    decreases budget(table, stack), parts,
{
    if parts.len() == 0 {
        Ok(Seq::empty())
    } else {
        match eval_parts(table, id, parts.drop_last(), stack) {
            Ok(text) => match eval(table, id, parts.last(), stack) {
                Ok(more) => Ok(text + more),
                Err(x) => Err(x),
            },
            Err(x) => Err(x),
        }
    }
}

/// The given fields of the flattened record `id`, each evaluated into a
/// literal.
pub open spec fn eval_fields(table: Seq<Record>, id: Seq<char>, fields: Seq<FieldView>) -> Result<
    Seq<FieldView>,
    ErrorView,
>
    decreases fields.len(),
{
    if fields.len() == 0 {
        Ok(Seq::empty())
    } else {
        match eval_fields(table, id, fields.drop_last()) {
            Ok(done) => match eval(
                table,
                id,
                Expr::SelfFieldRef(fields.last().name),
                Seq::empty(),
            ) {
                Ok(text) => Ok(
                    done.push(FieldView { name: fields.last().name, value: Expr::Literal(text) }),
                ),
                Err(x) => Err(x),
            },
            Err(x) => Err(x),
        }
    }
}

/// The record `id` resolved: without parents, and with the fields of the
/// flattened record, in their order, each evaluated into a literal.
pub open spec fn resolved(table: Seq<Record>, id: Seq<char>) -> Result<Record, ErrorView> {
    match flatten(table, id, Seq::empty()) {
        Ok(fields) => match eval_fields(table, id, fields) {
            Ok(values) => Ok(Record { id, parents: Seq::empty(), fields: values }),
            Err(x) => Err(x),
        },
        Err(e) => Err(e),
    }
}

/// An error in merging the first parents is the error of merging all of
/// them.
pub proof fn lemma_inherit_error(
    table: Seq<Record>,
    parents: Seq<Seq<char>>,
    path: Seq<Seq<char>>,
    k: int,
)
    requires
        0 <= k <= parents.len(),
        inherit(table, parents.take(k), path) is Err,
    ensures
        inherit(table, parents, path) == inherit(table, parents.take(k), path),
    decreases parents.len() - k,
{
    if k == parents.len() {
        assert(parents.take(k) =~= parents);
    } else {
        assert(parents.take(k + 1).drop_last() =~= parents.take(k));
        lemma_inherit_error(table, parents, path, k + 1);
    }
}

/// An error in evaluating the first fields is the error of evaluating all
/// of them.
pub proof fn lemma_eval_fields_error(
    table: Seq<Record>,
    id: Seq<char>,
    fields: Seq<FieldView>,
    k: int,
)
    requires
        0 <= k <= fields.len(),
        eval_fields(table, id, fields.take(k)) is Err,
    ensures
        eval_fields(table, id, fields) == eval_fields(table, id, fields.take(k)),
    decreases fields.len() - k,
{
    if k == fields.len() {
        assert(fields.take(k) =~= fields);
    } else {
        assert(fields.take(k + 1).drop_last() =~= fields.take(k));
        lemma_eval_fields_error(table, id, fields, k + 1);
    }
}

/// An error in evaluating the first parts is the error of evaluating all of
/// them.
pub proof fn lemma_eval_parts_error(
    table: Seq<Record>,
    id: Seq<char>,
    parts: Seq<Expr>,
    stack: Seq<FieldKey>,
    k: int,
)
    requires
        0 <= k <= parts.len(),
        eval_parts(table, id, parts.take(k), stack) is Err,
    ensures
        eval_parts(table, id, parts, stack) == eval_parts(table, id, parts.take(k), stack),
    decreases parts.len() - k,
{
    if k == parts.len() {
        assert(parts.take(k) =~= parts);
    } else {
        assert(parts.take(k + 1).drop_last() =~= parts.take(k));
        lemma_eval_parts_error(table, id, parts, stack, k + 1);
    }
}

/// The keys of a stack of fields, one for one.
pub open spec fn keys_of(stack: Seq<(String, String)>) -> Seq<FieldKey> {
    Seq::new(stack.len(), |i: int| (stack[i].0@, stack[i].1@))
}

/// Whether `path` holds the id.
fn holds_id(path: &Vec<String>, id: &String) -> (b: bool)
    ensures
        b == texts_of(path@).contains(id@),
{
    let mut i: usize = 0;
    while i < path.len()
        invariant
            i <= path.len(),
            forall|j: int| 0 <= j < i ==> texts_of(path@)[j] != id@,
        decreases path.len() - i,
    {
        if path[i] == *id {
            assert(texts_of(path@)[i as int] == id@);
            return true;
        }
        i = i + 1;
    }
    false
}

/// Whether `stack` holds the field `name` of the record `id`.
fn holds_key(stack: &Vec<(String, String)>, id: &String, name: &String) -> (b: bool)
    ensures
        b == keys_of(stack@).contains((id@, name@)),
{
    let mut i: usize = 0;
    while i < stack.len()
        invariant
            i <= stack.len(),
            forall|j: int| 0 <= j < i ==> keys_of(stack@)[j] != (id@, name@),
        decreases stack.len() - i,
    {
        if stack[i].0 == *id && stack[i].1 == *name {
            assert(keys_of(stack@)[i as int] == (id@, name@));
            return true;
        }
        i = i + 1;
    }
    false
}

impl NonDefs {
    /// The fields of `non` with all that it inherits, while the flattening
    /// of the records of `path` is under way.
    fn flatten_record(&self, non: &Non, path: &mut Vec<String>) -> (res: Result<
        Vec<Field>,
        NonError,
    >)
        ensures
            match flatten_record(self@, non@, texts_of(old(path)@)) {
                Ok(fields) => res matches Ok(v) && fields_of(v@) == fields && texts_of(
                    final(path)@,
                ) == texts_of(old(path)@),
                Err(e) => res matches Err(x) && x@ == e,
            },
        decreases free_count(ids_of(self@), texts_of(old(path)@).push(non@.id)), 2nat, 0nat,
    {
        let ghost outer = texts_of(path@);
        path.push(non.id.clone());
        let ghost inner = texts_of(path@);
        assert(inner =~= outer.push(non@.id));
        let mut merged: Vec<Field> = Vec::new();
        assert(fields_of(merged@) =~= Seq::empty());
        assert(non@.parents.take(0) =~= Seq::empty());
        let mut k: usize = 0;
        while k < non.parents.len()
            invariant
                k <= non.parents.len(),
                outer == texts_of(old(path)@),
                inner == outer.push(non@.id),
                texts_of(path@) == inner,
                inherit(self@, non@.parents.take(k as int), inner) == Ok::<
                    Seq<FieldView>,
                    ErrorView,
                >(fields_of(merged@)),
            decreases non.parents.len() - k,
        {
            let ghost next = non@.parents.take(k + 1);
            assert(next.drop_last() =~= non@.parents.take(k as int));
            assert(next.last() == non.parents@[k as int]@);
            match self.flatten_id(&non.parents[k], path) {
                Ok(fields) => {
                    overlay_fields(&mut merged, &fields);
                },
                Err(e) => {
                    proof {
                        lemma_inherit_error(self@, non@.parents, inner, k + 1);
                    }
                    return Err(e);
                },
            }
            k = k + 1;
        }
        assert(non@.parents.take(k as int) =~= non@.parents);
        let ghost full = path@;
        path.pop();
        assert(texts_of(path@) =~= texts_of(full).drop_last());
        assert(texts_of(path@) =~= outer);
        overlay_fields(&mut merged, &non.fields);
        Ok(merged)
    }

    /// The flattened fields of the record `id`, while the flattening of the
    /// records of `path` is under way.
    fn flatten_id(&self, id: &String, path: &mut Vec<String>) -> (res: Result<
        Vec<Field>,
        NonError,
    >)
        ensures
            match flatten(self@, id@, texts_of(old(path)@)) {
                Ok(fields) => res matches Ok(v) && fields_of(v@) == fields && texts_of(
                    final(path)@,
                ) == texts_of(old(path)@),
                Err(e) => res matches Err(x) && x@ == e,
            },
        decreases free_count(ids_of(self@), texts_of(old(path)@)), 0nat, 0nat,
    {
        match self.index_of(id) {
            None => Err(NonError::UndefinedRecord(id.clone())),
            Some(i) => {
                if holds_id(path, id) {
                    Err(NonError::CyclicDependency(id.clone()))
                } else {
                    proof {
                        lemma_record_index(self@, id@);
                        assert(ids_of(self@)[i as int] == id@);
                        lemma_free_count_push(ids_of(self@), texts_of(path@), id@);
                    }
                    self.flatten_record(self.get(i), path)
                }
            },
        }
    }

    /// Flattens a record: the result has the id of `non`, no parents, and
    /// the fields of `non` with all that it inherits from the records of
    /// this table, none of them evaluated.
    pub fn resolve_non(&self, non: &Non) -> (res: Result<Non, NonError>)
        ensures
            match flatten_record(self@, non@, Seq::empty()) {
                Ok(fields) => res matches Ok(flat) && flat@ == (Record {
                    id: non@.id,
                    parents: Seq::empty(),
                    fields,
                }),
                Err(e) => res matches Err(x) && x@ == e,
            },
    {
        let mut path: Vec<String> = Vec::new();
        assert(texts_of(path@) =~= Seq::empty());
        match self.flatten_record(non, &mut path) {
            Ok(fields) => {
                let flat = Non::new(non.id.clone(), Vec::new(), fields);
                assert(flat@.parents =~= Seq::empty());
                Ok(flat)
            },
            Err(e) => Err(e),
        }
    }

    /// The flattened fields of the record `id`.
    fn flattened(&self, id: &String) -> (res: Result<Vec<Field>, NonError>)
        ensures
            match flatten(self@, id@, Seq::empty()) {
                Ok(fields) => res matches Ok(v) && fields_of(v@) == fields,
                Err(e) => res matches Err(x) && x@ == e,
            },
    {
        let mut path: Vec<String> = Vec::new();
        assert(texts_of(path@) =~= Seq::empty());
        self.flatten_id(id, &mut path)
    }

    /// Evaluates `value` on the record `id`, while the evaluation of the
    /// fields of `stack` is under way. `flat`, where it is given, holds the
    /// flattened fields of the record.
    fn eval(
        &self,
        id: &String,
        flat: Option<&Vec<Field>>,
        value: &FieldValue,
        stack: &mut Vec<(String, String)>,
    ) -> (res: Result<String, NonError>)
        requires
            flat matches Some(f) ==> flatten(self@, id@, Seq::empty()) == Ok::<
                Seq<FieldView>,
                ErrorView,
            >(fields_of(f@)),
        ensures
            match eval(self@, id@, value@, keys_of(old(stack)@)) {
                Ok(text) => res matches Ok(s) && s@ == text && keys_of(final(stack)@) == keys_of(
                    old(stack)@,
                ),
                Err(e) => res matches Err(x) && x@ == e,
            },
        decreases budget(self@, keys_of(old(stack)@)), 2nat, value,
    {
        match value {
            FieldValue::Literal(s) => Ok(s.clone()),
            FieldValue::SelfId => Ok(id.clone()),
            FieldValue::SelfFieldRef(name) => self.eval_field(id, flat, name, stack),
            FieldValue::CrossFieldRef(other, name) => self.eval_field(other, None, name, stack),
            FieldValue::Concat(parts) => {
                let ghost keys = keys_of(stack@);
                let mut text = String::new();
                proof {
                    lemma_concat_view(*parts);
                    assert(exprs_of(parts@).take(0) =~= Seq::empty());
                }
                let mut k: usize = 0;
                while k < parts.len()
                    invariant
                        k <= parts.len(),
                        value matches FieldValue::Concat(p) && p == parts,
                        value@ == Expr::Concat(exprs_of(parts@)),
                        keys == keys_of(old(stack)@),
                        keys_of(stack@) == keys,
                        flat matches Some(f) ==> flatten(self@, id@, Seq::empty()) == Ok::<
                            Seq<FieldView>,
                            ErrorView,
                        >(fields_of(f@)),
                        eval_parts(self@, id@, exprs_of(parts@).take(k as int), keys) == Ok::<
                            Seq<char>,
                            ErrorView,
                        >(text@),
                    decreases parts.len() - k,
                {
                    let ghost next = exprs_of(parts@).take(k + 1);
                    assert(next.drop_last() =~= exprs_of(parts@).take(k as int));
                    assert(next.last() == parts@[k as int]@);
                    match self.eval(id, flat, &parts[k], stack) {
                        Ok(more) => {
                            text.append(more.as_str());
                        },
                        Err(e) => {
                            proof {
                                lemma_eval_parts_error(self@, id@, exprs_of(parts@), keys, k + 1);
                            }
                            return Err(e);
                        },
                    }
                    k = k + 1;
                }
                assert(exprs_of(parts@).take(k as int) =~= exprs_of(parts@));
                Ok(text)
            },
        }
    }

    /// Evaluates the field `name` of the record `id`, while the evaluation
    /// of the fields of `stack` is under way.
    fn eval_field(
        &self,
        id: &String,
        flat: Option<&Vec<Field>>,
        name: &String,
        stack: &mut Vec<(String, String)>,
    ) -> (res: Result<String, NonError>)
        requires
            flat matches Some(f) ==> flatten(self@, id@, Seq::empty()) == Ok::<
                Seq<FieldView>,
                ErrorView,
            >(fields_of(f@)),
        ensures
            match eval(self@, id@, Expr::SelfFieldRef(name@), keys_of(old(stack)@)) {
                Ok(text) => res matches Ok(s) && s@ == text && keys_of(final(stack)@) == keys_of(
                    old(stack)@,
                ),
                Err(e) => res matches Err(x) && x@ == e,
            },
        decreases budget(self@, keys_of(old(stack)@)), 1nat, flat,
    {
        match flat {
            Some(fields) => self.eval_entered(id, fields, name, stack),
            None => match self.flattened(id) {
                Ok(fields) => self.eval_entered(id, &fields, name, stack),
                Err(e) => Err(e),
            },
        }
    }

    /// Evaluates the field `name` of the record `id`, whose flattened
    /// fields are `fields`.
    fn eval_entered(
        &self,
        id: &String,
        fields: &Vec<Field>,
        name: &String,
        stack: &mut Vec<(String, String)>,
    ) -> (res: Result<String, NonError>)
        requires
            flatten(self@, id@, Seq::empty()) == Ok::<Seq<FieldView>, ErrorView>(
                fields_of(fields@),
            ),
        ensures
            match eval(self@, id@, Expr::SelfFieldRef(name@), keys_of(old(stack)@)) {
                Ok(text) => res matches Ok(s) && s@ == text && keys_of(final(stack)@) == keys_of(
                    old(stack)@,
                ),
                Err(e) => res matches Err(x) && x@ == e,
            },
        decreases budget(self@, keys_of(old(stack)@)), 0nat, fields,
    {
        let ghost keys = keys_of(stack@);
        let inner = match last_field(fields, name) {
            Some(inner) => inner,
            None => {
                return Err(NonError::UndefinedField(name.clone()));
            },
        };
        if holds_key(stack, id, name) {
            return Err(NonError::CyclicFieldReference(id.clone(), name.clone()));
        }
        stack.push((id.clone(), name.clone()));
        proof {
            assert(keys_of(stack@) =~= keys.push((id@, name@)));
            lemma_enter_field(self@, id@, name@, keys);
        }
        match self.eval(id, Some(fields), inner, stack) {
            Ok(text) => {
                let ghost full = stack@;
                stack.pop();
                assert(keys_of(stack@) =~= keys_of(full).drop_last());
                assert(keys_of(stack@) =~= keys);
                Ok(text)
            },
            Err(e) => Err(e),
        }
    }

    /// Resolves the record `id`: flattens its inheritance and evaluates
    /// each field of the flattened record into a literal. The result has no
    /// parents.
    pub fn resolve(&self, id: &str) -> (res: Result<Non, NonError>)
        ensures
            match resolved(self@, id@) {
                Ok(record) => res matches Ok(non) && non@ == record,
                Err(e) => res matches Err(x) && x@ == e,
            },
    {
        let key = id.to_owned();
        let flat = match self.flattened(&key) {
            Ok(flat) => flat,
            Err(e) => {
                return Err(e);
            },
        };
        let ghost fields = fields_of(flat@);
        let mut values: Vec<Field> = Vec::new();
        assert(fields_of(values@) =~= Seq::empty());
        assert(fields.take(0) =~= Seq::empty());
        let mut k: usize = 0;
        while k < flat.len()
            invariant
                k <= flat.len(),
                key@ == id@,
                fields == fields_of(flat@),
                flatten(self@, key@, Seq::empty()) == Ok::<Seq<FieldView>, ErrorView>(fields),
                eval_fields(self@, key@, fields.take(k as int)) == Ok::<
                    Seq<FieldView>,
                    ErrorView,
                >(fields_of(values@)),
            decreases flat.len() - k,
        {
            let ghost next = fields.take(k + 1);
            let ghost done = fields_of(values@);
            assert(next.drop_last() =~= fields.take(k as int));
            assert(next.last() == flat@[k as int]@);
            let mut stack: Vec<(String, String)> = Vec::new();
            assert(keys_of(stack@) =~= Seq::empty());
            match self.eval_field(&key, Some(&flat), &flat[k].name, &mut stack) {
                Ok(text) => {
                    let field = Field { name: flat[k].name.clone(), value: FieldValue::Literal(text) };
                    values.push(field);
                    assert(fields_of(values@) =~= done.push(field@));
                },
                Err(e) => {
                    proof {
                        lemma_eval_fields_error(self@, key@, fields, k + 1);
                    }
                    return Err(e);
                },
            }
            k = k + 1;
        }
        assert(fields.take(k as int) =~= fields);
        let non = Non::new(key, Vec::new(), values);
        assert(non@.parents =~= Seq::empty());
        Ok(non)
    }
}

impl Non {
    /// Evaluates `field_value` as an expression of the record of `defs`
    /// that has the id of this record.
    pub fn resolve_field(&self, defs: &NonDefs, field_value: &FieldValue) -> (res: Result<
        String,
        NonError,
    >)
        ensures
            match eval(defs@, self@.id, field_value@, Seq::empty()) {
                Ok(text) => res matches Ok(s) && s@ == text,
                Err(e) => res matches Err(x) && x@ == e,
            },
    {
        let mut stack: Vec<(String, String)> = Vec::new();
        assert(keys_of(stack@) =~= Seq::empty());
        defs.eval(&self.id, None, field_value, &mut stack)
    }

    /// The text of the field `field_name` of the record of `defs` that has
    /// the id of this record: the field is looked up among the flattened
    /// fields of that record and evaluated.
    pub fn get(&self, defs: &NonDefs, field_name: &str) -> (res: Result<String, NonError>)
        ensures
            match eval(defs@, self@.id, Expr::SelfFieldRef(field_name@), Seq::empty()) {
                Ok(text) => res matches Ok(s) && s@ == text,
                Err(e) => res matches Err(x) && x@ == e,
            },
    {
        let name = field_name.to_owned();
        let mut stack: Vec<(String, String)> = Vec::new();
        assert(keys_of(stack@) =~= Seq::empty());
        defs.eval_field(&self.id, None, &name, &mut stack)
    }
}

/// The name of the first field of `ours` that `theirs` holds too, with
/// another expression.
pub open spec fn first_conflict(ours: Seq<FieldView>, theirs: Seq<FieldView>) -> Option<Seq<char>>
    decreases ours.len(),
{
    if ours.len() == 0 {
        None
    } else {
        match first_conflict(ours.drop_last(), theirs) {
            Some(name) => Some(name),
            None => match lookup(theirs, ours.last().name) {
                Some(value) => if value != ours.last().value {
                    Some(ours.last().name)
                } else {
                    None
                },
                None => None,
            },
        }
    }
}

/// The items of `items` in their order, each only where it occurs first.
pub open spec fn without_repeats(items: Seq<Seq<char>>) -> Seq<Seq<char>>
    decreases items.len(),
{
    if items.len() == 0 {
        Seq::empty()
    } else {
        let init = without_repeats(items.drop_last());
        if init.contains(items.last()) {
            init
        } else {
            init.push(items.last())
        }
    }
}

/// The message for a field that two records hold with different
/// expressions.
pub open spec fn conflict_message(name: Seq<char>) -> Seq<char> {
    "Duplicated field '"@ + name + "' without same value."@
}

/// The union of two records: a record named after both, with the parents
/// of both, each once, and with the flattened fields of both. Where the two
/// flattened records hold a field of one name with different expressions,
/// there is no union.
pub open spec fn union_of(table: Seq<Record>, ours: Record, theirs: Record) -> Result<
    Record,
    Seq<char>,
> {
    match flatten_record(table, ours, Seq::empty()) {
        Ok(a) => match flatten_record(table, theirs, Seq::empty()) {
            Ok(b) => match first_conflict(a, b) {
                Some(name) => Err(conflict_message(name)),
                None => Ok(
                    Record {
                        id: ours.id + "_"@ + theirs.id,
                        parents: without_repeats(ours.parents + theirs.parents),
                        fields: overlay(a, b),
                    },
                ),
            },
            Err(e) => Err(e.message()),
        },
        Err(e) => Err(e.message()),
    }
}

/// A conflict among the first fields is the conflict among all of them.
pub proof fn lemma_first_conflict(ours: Seq<FieldView>, theirs: Seq<FieldView>, k: int)
    requires
        0 <= k <= ours.len(),
        first_conflict(ours.take(k), theirs) is Some,
    ensures
        first_conflict(ours, theirs) == first_conflict(ours.take(k), theirs),
    decreases ours.len() - k,
{
    if k == ours.len() {
        assert(ours.take(k) =~= ours);
    } else {
        assert(ours.take(k + 1).drop_last() =~= ours.take(k));
        lemma_first_conflict(ours, theirs, k + 1);
    }
}

/// Appends to `out` the names of `names` that it does not hold yet.
fn append_new(out: &mut Vec<String>, names: &Vec<String>)
    ensures
        forall|seen: Seq<Seq<char>>|
            without_repeats(seen) == texts_of(old(out)@) ==> texts_of(final(out)@)
                == #[trigger] without_repeats(seen + texts_of(names@)),
{
    let ghost start = texts_of(out@);
    let ghost items = texts_of(names@);
    let mut k: usize = 0;
    while k < names.len()
        invariant
            k <= names.len(),
            items == texts_of(names@),
            start == texts_of(old(out)@),
            forall|seen: Seq<Seq<char>>|
                without_repeats(seen) == start ==> texts_of(out@) == #[trigger] without_repeats(
                    seen + items.take(k as int),
                ),
        decreases names.len() - k,
    {
        let ghost before = texts_of(out@);
        let fresh = !holds_id(out, &names[k]);
        if fresh {
            out.push(names[k].clone());
            assert(texts_of(out@) =~= before.push(names@[k as int]@));
        }
        assert forall|seen: Seq<Seq<char>>| without_repeats(seen) == start implies texts_of(out@)
            == #[trigger] without_repeats(seen + items.take(k + 1)) by {
            let longer = seen + items.take(k + 1);
            assert(longer.drop_last() =~= seen + items.take(k as int));
            assert(longer.last() == names@[k as int]@);
            assert(before == without_repeats(seen + items.take(k as int)));
        }
        k = k + 1;
    }
    assert(items.take(k as int) =~= items);
    assert forall|seen: Seq<Seq<char>>| without_repeats(seen) == start implies texts_of(out@)
        == #[trigger] without_repeats(seen + texts_of(names@)) by {
        assert(texts_of(out@) == without_repeats(seen + items.take(k as int)));
    }
}

impl Non {
    /// The union of this record and `other`: a record named after both,
    /// `a_b`, with the parents of both, each once, and with the flattened
    /// fields of both. Where the two flattened records hold a field of one
    /// name with different expressions, the union fails and the message
    /// names the first such field of this record; where one of the two
    /// records cannot be flattened, the message is that of the error.
    pub fn union(&self, defs: &NonDefs, other: &Non) -> (res: Result<Non, String>)
        ensures
            match union_of(defs@, self@, other@) {
                Ok(record) => res matches Ok(non) && non@ == record,
                Err(message) => res matches Err(text) && text@ == message,
            },
    {
        let mut path: Vec<String> = Vec::new();
        assert(texts_of(path@) =~= Seq::empty());
        let ours = match defs.flatten_record(self, &mut path) {
            Ok(fields) => fields,
            Err(e) => {
                return Err(e.to_string());
            },
        };
        let theirs = match defs.flatten_record(other, &mut path) {
            Ok(fields) => fields,
            Err(e) => {
                return Err(e.to_string());
            },
        };
        let ghost a = fields_of(ours@);
        let ghost b = fields_of(theirs@);
        assert(a.take(0) =~= Seq::empty());
        let mut k: usize = 0;
        while k < ours.len()
            invariant
                k <= ours.len(),
                a == fields_of(ours@),
                b == fields_of(theirs@),
                flatten_record(defs@, self@, Seq::empty()) == Ok::<Seq<FieldView>, ErrorView>(a),
                flatten_record(defs@, other@, Seq::empty()) == Ok::<Seq<FieldView>, ErrorView>(b),
                first_conflict(a.take(k as int), b) is None,
            decreases ours.len() - k,
        {
            assert(a.take(k + 1).drop_last() =~= a.take(k as int));
            assert(a.take(k + 1).last() == ours@[k as int]@);
            match last_field(&theirs, &ours[k].name) {
                Some(value) => {
                    if !value.eq(&ours[k].value) {
                        proof {
                            lemma_first_conflict(a, b, k + 1);
                        }
                        let mut message = "Duplicated field '".to_owned();
                        message.append(ours[k].name.as_str());
                        message.append("' without same value.");
                        return Err(message);
                    }
                },
                None => {},
            }
            k = k + 1;
        }
        assert(a.take(k as int) =~= a);
        let mut fields = ours;
        overlay_fields(&mut fields, &theirs);
        let mut parents: Vec<String> = Vec::new();
        assert(texts_of(parents@) =~= without_repeats(Seq::empty()));
        append_new(&mut parents, &self.parents);
        assert(Seq::<Seq<char>>::empty() + self@.parents =~= self@.parents);
        append_new(&mut parents, &other.parents);
        let mut id = self.id.clone();
        id.append("_");
        id.append(other.id.as_str());
        Ok(Non::new(id, parents, fields))
    }
}

} // verus!
