//! What holds of resolution in general: statements about every table,
//! proved from the definitions of flattening and evaluation.

use vstd::prelude::*;
use crate::error::ErrorView;
use crate::cycles::{
    cyclic, fault_from, first_fault, is_chain, is_cycle, is_parent, lemma_first_fault_stays,
    valid,
};
use crate::nds::{defined, distinct_ids, lemma_record_index, lemma_record_index_distinct, record_index};
use crate::non::{
    distinct_names, lemma_lookup, lemma_lookup_distinct, lemma_overlay, lookup, overlay, Record,
};
use crate::parser::{Expr, FieldView};
use crate::resolve::{
    budget, enter_field, eval, eval_fields, eval_parts, field_expr, flatten, flatten_record,
    free_count, ids_of, inherit, lemma_enter_field, lemma_free_count_push, lemma_inherit_error,
    resolved, FieldKey,
};

verus! {

/// No two of the flattened fields of a record have the same name.
pub proof fn lemma_flatten_record_distinct(
    table: Seq<Record>,
    record: Record,
    path: Seq<Seq<char>>,
)
    ensures
        flatten_record(table, record, path) matches Ok(fields) ==> distinct_names(fields),
    decreases free_count(ids_of(table), path.push(record.id)), 2nat, 0nat,
{
    lemma_inherit_distinct(table, record.parents, path.push(record.id));
    match inherit(table, record.parents, path.push(record.id)) {
        Ok(base) => {
            lemma_overlay(base, record.fields);
        },
        Err(_) => {},
    }
}

/// No two of the flattened fields of the record of a given id have the same
/// name.
pub proof fn lemma_flatten_distinct(table: Seq<Record>, id: Seq<char>, path: Seq<Seq<char>>)
    ensures
        flatten(table, id, path) matches Ok(fields) ==> distinct_names(fields),
    decreases free_count(ids_of(table), path), 0nat, 0nat,
{
    match record_index(table, id) {
        None => {},
        Some(i) => {
            if !path.contains(id) {
                lemma_record_index(table, id);
                assert(ids_of(table)[i] == id);
                lemma_free_count_push(ids_of(table), path, id);
                lemma_flatten_record_distinct(table, table[i], path);
            }
        },
    }
}

/// No two of the fields inherited from a list of parents have the same
/// name.
pub proof fn lemma_inherit_distinct(
    table: Seq<Record>,
    parents: Seq<Seq<char>>,
    path: Seq<Seq<char>>,
)
    ensures
        inherit(table, parents, path) matches Ok(fields) ==> distinct_names(fields),
    decreases free_count(ids_of(table), path), 1nat, parents.len(),
{
    if parents.len() > 0 {
        lemma_inherit_distinct(table, parents.drop_last(), path);
        lemma_flatten_distinct(table, parents.last(), path);
        match inherit(table, parents.drop_last(), path) {
            Ok(base) => match flatten(table, parents.last(), path) {
                Ok(fields) => {
                    lemma_overlay(base, fields);
                },
                Err(_) => {},
            },
            Err(_) => {},
        }
    }
}

/// The evaluated fields of a record are its flattened fields, one for one:
/// each keeps its name, and has for its value the literal that evaluating
/// the field gives.
pub proof fn lemma_eval_fields(table: Seq<Record>, id: Seq<char>, fields: Seq<FieldView>)
    ensures
        eval_fields(table, id, fields) matches Ok(values) ==> {
            &&& values.len() == fields.len()
            &&& forall|k: int|
                0 <= k < fields.len() ==> (#[trigger] values[k]).name == fields[k].name && eval(
                    table,
                    id,
                    Expr::SelfFieldRef(fields[k].name),
                    Seq::empty(),
                ) == Ok::<Seq<char>, ErrorView>(values[k].value->Literal_0) && values[k].value is Literal
        },
    decreases fields.len(),
{
    if fields.len() > 0 {
        lemma_eval_fields(table, id, fields.drop_last());
    }
}

/// What the resolved record holds under a name: where the flattened record
/// has a field of that name, the literal that evaluating the field gives.
pub proof fn lemma_resolved_lookup(table: Seq<Record>, id: Seq<char>, name: Seq<char>)
    requires
        resolved(table, id) is Ok,
        field_expr(table, id, name) is Ok,
    ensures
        eval(table, id, Expr::SelfFieldRef(name), Seq::empty()) matches Ok(text) && lookup(
            resolved(table, id)->Ok_0.fields,
            name,
        ) == Some(Expr::Literal(text)),
{
    let fields = flatten(table, id, Seq::empty())->Ok_0;
    let values = eval_fields(table, id, fields)->Ok_0;
    lemma_flatten_distinct(table, id, Seq::empty());
    lemma_eval_fields(table, id, fields);
    lemma_lookup(fields, name);
    let k = choose|k: int| 0 <= k < fields.len() && (#[trigger] fields[k]).name == name;
    assert(values[k].name == name);
    assert(distinct_names(values)) by {
        assert forall|i: int, j: int|
            0 <= i < values.len() && 0 <= j < values.len() && i != j implies (
        #[trigger] values[i]).name != (#[trigger] values[j]).name by {
            assert(fields[i].name != fields[j].name);
        }
    }
    lemma_lookup_distinct(values, name);
}

/// A record without parents whose fields are all literals resolves to
/// exactly those literals: under every name the resolved record holds what
/// the record itself holds, and where no name is declared twice the resolved
/// record is the record.
pub proof fn theorem_literal_record_is_unchanged(table: Seq<Record>, id: Seq<char>)
    requires
        record_index(table, id) matches Some(i) && table[i].parents.len() == 0 && forall|k: int|
            0 <= k < table[i].fields.len() ==> (#[trigger] table[i].fields[k]).value is Literal,
    ensures
        resolved(table, id) matches Ok(record) && record.id == id && record.parents.len() == 0
            && forall|name: Seq<char>|
            lookup(record.fields, name) == lookup(
                table[record_index(table, id)->0].fields,
                name,
            ),
        distinct_names(table[record_index(table, id)->0].fields) ==> resolved(table, id) == Ok::<
            Record,
            ErrorView,
        >(table[record_index(table, id)->0]),
{
    let i = record_index(table, id)->0;
    let own = table[i].fields;
    lemma_record_index(table, id);
    assert(table[i].parents =~= Seq::empty());
    let fields = overlay(Seq::empty(), own);
    assert(flatten(table, id, Seq::empty()) == Ok::<Seq<FieldView>, ErrorView>(fields));
    lemma_overlay(Seq::empty(), own);
    lemma_overlay_of_literals(Seq::empty(), own);
    lemma_literals_evaluate(table, id, fields, fields.len() as int);
    assert(fields.take(fields.len() as int) =~= fields);
    assert(Seq::<FieldView>::empty().len() == 0);
    assert forall|name: Seq<char>| lookup(fields, name) == lookup(own, name) by {
        assert(lookup(Seq::<FieldView>::empty(), name) is None);
    }
    if distinct_names(own) {
        lemma_overlay_fresh(own, own.len() as int);
        assert(own.take(own.len() as int) =~= own);
        assert(table[i].parents =~= Seq::empty());
    }
}

/// Whether the values of all the fields are literals.
pub open spec fn all_literals(fields: Seq<FieldView>) -> bool {
    forall|k: int| 0 <= k < fields.len() ==> (#[trigger] fields[k]).value is Literal
}

/// Overlaying literals onto literals gives literals.
pub proof fn lemma_overlay_of_literals(base: Seq<FieldView>, more: Seq<FieldView>)
    requires
        all_literals(base),
        all_literals(more),
    ensures
        all_literals(overlay(base, more)),
    decreases more.len(),
{
    if more.len() > 0 {
        let init = more.drop_last();
        assert forall|k: int| 0 <= k < init.len() implies (#[trigger] init[k]).value is Literal by {
            assert(init[k] == more[k]);
        }
        lemma_overlay_of_literals(base, init);
        let mid = overlay(base, init);
        let out = overlay(base, more);
        crate::non::lemma_field_index(mid, more.last().name);
        assert(more[more.len() - 1].value is Literal);
        assert forall|k: int| 0 <= k < out.len() implies (#[trigger] out[k]).value is Literal by {
            match crate::non::field_index(mid, more.last().name) {
                Some(i) => {
                    if k != i {
                        assert(out[k] == mid[k]);
                    }
                },
                None => {
                    if k < mid.len() {
                        assert(out[k] == mid[k]);
                    }
                },
            }
        }
    }
}

/// Overlaying fields of distinct names onto nothing gives those fields.
pub proof fn lemma_overlay_fresh(fields: Seq<FieldView>, n: int)
    requires
        distinct_names(fields),
        0 <= n <= fields.len(),
    ensures
        overlay(Seq::empty(), fields.take(n)) == fields.take(n),
    decreases n,
{
    if n > 0 {
        lemma_overlay_fresh(fields, n - 1);
        let init = fields.take(n - 1);
        assert(fields.take(n).drop_last() =~= init);
        assert(fields.take(n).last() == fields[n - 1]);
        crate::non::lemma_field_index(init, fields[n - 1].name);
        assert forall|j: int| 0 <= j < init.len() implies (#[trigger] init[j]).name != fields[n
            - 1].name by {
            assert(init[j] == fields[j]);
        }
        assert(init.push(fields[n - 1]) =~= fields.take(n));
    } else {
        assert(fields.take(0) =~= Seq::empty());
    }
}

/// Flattened fields that are all literals evaluate to themselves.
pub proof fn lemma_literals_evaluate(
    table: Seq<Record>,
    id: Seq<char>,
    fields: Seq<FieldView>,
    n: int,
)
    requires
        flatten(table, id, Seq::empty()) == Ok::<Seq<FieldView>, ErrorView>(fields),
        distinct_names(fields),
        all_literals(fields),
        0 <= n <= fields.len(),
    ensures
        eval_fields(table, id, fields.take(n)) == Ok::<Seq<FieldView>, ErrorView>(fields.take(n)),
    decreases n,
{
    if n > 0 {
        lemma_literals_evaluate(table, id, fields, n - 1);
        let init = fields.take(n - 1);
        let last = fields[n - 1];
        assert(fields.take(n).drop_last() =~= init);
        assert(fields.take(n).last() == last);
        lemma_lookup_distinct(fields, last.name);
        assert(field_expr(table, id, last.name) == Ok::<Expr, ErrorView>(last.value));
        let stack = Seq::<FieldKey>::empty();
        assert(!stack.contains((id, last.name)));
        assert(last.value is Literal);
        let text = last.value->Literal_0;
        assert(enter_field(table, id, last.name, stack) == Ok::<
            (Expr, Seq<FieldKey>),
            ErrorView,
        >((last.value, stack.push((id, last.name)))));
        assert(eval(table, id, last.value, stack.push((id, last.name))) == Ok::<
            Seq<char>,
            ErrorView,
        >(text));
        assert(eval(table, id, Expr::SelfFieldRef(last.name), stack) == Ok::<Seq<char>, ErrorView>(
            text,
        ));
        assert(init.push(FieldView { name: last.name, value: last.value }) =~= fields.take(n));
    } else {
        assert(fields.take(0) =~= Seq::empty());
    }
}

/// A field that a record declares itself overrides any field of the same
/// name that it inherits: the flattened record holds the record's own
/// expression under that name (the last one, where the record declares the
/// name twice), and the resolved record holds what that expression evaluates
/// to, whatever the parents declare.
pub proof fn theorem_own_field_overrides(table: Seq<Record>, id: Seq<char>, name: Seq<char>)
    requires
        record_index(table, id) matches Some(i) && lookup(table[i].fields, name) is Some,
        flatten(table, id, Seq::empty()) is Ok,
    ensures
        field_expr(table, id, name) == Ok::<Expr, ErrorView>(
            lookup(table[record_index(table, id)->0].fields, name)->0,
        ),
        eval(table, id, Expr::SelfFieldRef(name), Seq::empty()) == eval(
            table,
            id,
            lookup(table[record_index(table, id)->0].fields, name)->0,
            seq![(id, name)],
        ),
        resolved(table, id) matches Ok(record) ==> eval(
            table,
            id,
            lookup(table[record_index(table, id)->0].fields, name)->0,
            seq![(id, name)],
        ) matches Ok(text) && lookup(record.fields, name) == Some(Expr::Literal(text)),
{
    let i = record_index(table, id)->0;
    let own = lookup(table[i].fields, name)->0;
    let path = Seq::<Seq<char>>::empty();
    lemma_inherit_distinct(table, table[i].parents, path.push(table[i].id));
    let base = inherit(table, table[i].parents, path.push(table[i].id))->Ok_0;
    lemma_overlay(base, table[i].fields);
    assert(lookup(overlay(base, table[i].fields), name) == Some(own));
    let stack = Seq::<FieldKey>::empty();
    assert(!stack.contains((id, name)));
    assert(stack.push((id, name)) =~= seq![(id, name)]);
    assert(enter_field(table, id, name, stack) == Ok::<(Expr, Seq<FieldKey>), ErrorView>(
        (own, seq![(id, name)]),
    ));
    if resolved(table, id) is Ok {
        lemma_resolved_lookup(table, id, name);
    }
}

/// `@` gives the id of the record that is being resolved, wherever the
/// field that holds it was declared: on the record itself or on an ancestor
/// at any depth.
pub proof fn theorem_self_id(table: Seq<Record>, id: Seq<char>, name: Seq<char>)
    requires
        field_expr(table, id, name) == Ok::<Expr, ErrorView>(Expr::SelfId),
    ensures
        eval(table, id, Expr::SelfFieldRef(name), Seq::empty()) == Ok::<Seq<char>, ErrorView>(id),
        resolved(table, id) matches Ok(record) ==> lookup(record.fields, name) == Some(
            Expr::Literal(id),
        ),
{
    let stack = Seq::<FieldKey>::empty();
    assert(!stack.contains((id, name)));
    assert(enter_field(table, id, name, stack) == Ok::<(Expr, Seq<FieldKey>), ErrorView>(
        (Expr::SelfId, stack.push((id, name))),
    ));
    assert(eval(table, id, Expr::SelfId, stack.push((id, name))) == Ok::<Seq<char>, ErrorView>(
        id,
    ));
    if resolved(table, id) is Ok {
        lemma_resolved_lookup(table, id, name);
    }
}

/// The text of two lists of parts, one behind the other, is the text of
/// the first followed by the text of the second. An error in the first list
/// comes before one in the second.
pub proof fn lemma_eval_parts_append(
    table: Seq<Record>,
    id: Seq<char>,
    first: Seq<Expr>,
    second: Seq<Expr>,
    stack: Seq<FieldKey>,
)
    ensures
        eval_parts(table, id, first + second, stack) == match eval_parts(table, id, first, stack) {
            Ok(a) => match eval_parts(table, id, second, stack) {
                Ok(b) => Ok(a + b),
                Err(e) => Err(e),
            },
            Err(e) => Err(e),
        },
    decreases second.len(),
{
    if second.len() == 0 {
        assert(first + second =~= first);
        match eval_parts(table, id, first, stack) {
            Ok(a) => {
                assert(a + Seq::<char>::empty() =~= a);
            },
            Err(_) => {},
        }
    } else {
        let init = second.drop_last();
        lemma_eval_parts_append(table, id, first, init, stack);
        assert((first + second).drop_last() =~= first + init);
        assert((first + second).last() == second.last());
        match eval_parts(table, id, first, stack) {
            Ok(a) => match eval_parts(table, id, init, stack) {
                Ok(b) => match eval(table, id, second.last(), stack) {
                    Ok(c) => {
                        assert((a + b) + c =~= a + (b + c));
                    },
                    Err(_) => {},
                },
                Err(_) => {},
            },
            Err(_) => {},
        }
    }
}

/// Concatenation keeps the order of its parts and puts nothing between
/// them: the text of a concatenation is the text of its first parts
/// followed by the text of the parts behind them, wherever the list of
/// parts is cut in two.
pub proof fn theorem_concat_in_order(
    table: Seq<Record>,
    id: Seq<char>,
    first: Seq<Expr>,
    second: Seq<Expr>,
    stack: Seq<FieldKey>,
)
    ensures
        eval(table, id, Expr::Concat(first + second), stack) == match eval_parts(
            table,
            id,
            first,
            stack,
        ) {
            Ok(a) => match eval_parts(table, id, second, stack) {
                Ok(b) => Ok(a + b),
                Err(e) => Err(e),
            },
            Err(e) => Err(e),
        },
{
    lemma_eval_parts_append(table, id, first, second, stack);
}

/// The concatenation of two literals is the first text followed by the
/// second.
pub proof fn theorem_concat_of_literals(
    table: Seq<Record>,
    id: Seq<char>,
    a: Seq<char>,
    b: Seq<char>,
    stack: Seq<FieldKey>,
)
    ensures
        eval(table, id, Expr::Concat(seq![Expr::Literal(a), Expr::Literal(b)]), stack) == Ok::<
            Seq<char>,
            ErrorView,
        >(a + b),
{
    let one = seq![Expr::Literal(a)];
    let two = seq![Expr::Literal(b)];
    assert(one + two =~= seq![Expr::Literal(a), Expr::Literal(b)]);
    theorem_concat_in_order(table, id, one, two, stack);
    lemma_eval_single(table, id, Expr::Literal(a), stack);
    lemma_eval_single(table, id, Expr::Literal(b), stack);
}

/// A list of one part has the text of that part.
pub proof fn lemma_eval_single(table: Seq<Record>, id: Seq<char>, part: Expr, stack: Seq<FieldKey>)
    ensures
        eval_parts(table, id, seq![part], stack) == eval(table, id, part, stack),
{
    let parts = seq![part];
    assert(parts.drop_last() =~= Seq::empty());
    assert(eval_parts(table, id, parts.drop_last(), stack) == Ok::<Seq<char>, ErrorView>(
        Seq::empty(),
    ));
    assert(parts.last() == part);
    match eval(table, id, part, stack) {
        Ok(text) => {
            assert(Seq::<char>::empty() + text =~= text);
        },
        Err(_) => {},
    }
}

/// Two fields of a record that refer to each other cannot be evaluated,
/// however sound the parent relation is: evaluating the first one leads
/// back to it, and the record does not resolve.
pub proof fn theorem_field_cycle_is_rejected(
    table: Seq<Record>,
    id: Seq<char>,
    first: Seq<char>,
    second: Seq<char>,
)
    requires
        field_expr(table, id, first) == Ok::<Expr, ErrorView>(Expr::SelfFieldRef(second)),
        field_expr(table, id, second) == Ok::<Expr, ErrorView>(Expr::SelfFieldRef(first)),
    ensures
        eval(table, id, Expr::SelfFieldRef(first), Seq::empty()) == Err::<Seq<char>, ErrorView>(
            ErrorView::CyclicFieldReference(id, first),
        ),
        resolved(table, id) is Err,
{
    let s0 = Seq::<FieldKey>::empty();
    let s1 = s0.push((id, first));
    assert(!s0.contains((id, first)));
    assert(s1[0] == (id, first));
    assert(enter_field(table, id, first, s0) == Ok::<(Expr, Seq<FieldKey>), ErrorView>(
        (Expr::SelfFieldRef(second), s1),
    ));
    if first == second {
        assert(s1.contains((id, second)));
        assert(eval(table, id, Expr::SelfFieldRef(second), s1) == Err::<Seq<char>, ErrorView>(
            ErrorView::CyclicFieldReference(id, first),
        ));
    } else {
        let s2 = s1.push((id, second));
        assert(!s1.contains((id, second)));
        assert(enter_field(table, id, second, s1) == Ok::<(Expr, Seq<FieldKey>), ErrorView>(
            (Expr::SelfFieldRef(first), s2),
        ));
        assert(s2[0] == (id, first));
        assert(s2.contains((id, first)));
        assert(eval(table, id, Expr::SelfFieldRef(first), s2) == Err::<Seq<char>, ErrorView>(
            ErrorView::CyclicFieldReference(id, first),
        ));
        assert(eval(table, id, Expr::SelfFieldRef(second), s1) == Err::<Seq<char>, ErrorView>(
            ErrorView::CyclicFieldReference(id, first),
        ));
    }
    if resolved(table, id) is Ok {
        lemma_resolved_lookup(table, id, first);
    }
}

/// A reference to a field of another record is evaluated on that record:
/// it gives what a reference to the field gives there, whatever the record
/// that holds the reference.
pub proof fn theorem_cross_reference(
    table: Seq<Record>,
    id: Seq<char>,
    other: Seq<char>,
    name: Seq<char>,
    stack: Seq<FieldKey>,
)
    ensures
        eval(table, id, Expr::CrossFieldRef(other, name), stack) == eval(
            table,
            other,
            Expr::SelfFieldRef(name),
            stack,
        ),
{
}

/// The record of the given id.
pub open spec fn record_of(table: Seq<Record>, id: Seq<char>) -> Record {
    table[record_index(table, id)->0]
}

/// Whether `path` lists ids of records of the table, each of which names
/// the next as a parent.
pub open spec fn is_descent(table: Seq<Record>, path: Seq<Seq<char>>) -> bool {
    &&& forall|k: int| 0 <= k < path.len() ==> defined(table, #[trigger] path[k])
    &&& forall|k: int|
        0 <= k < path.len() - 1 ==> record_of(table, #[trigger] path[k]).parents.contains(
            path[k + 1],
        )
}

/// A descent that comes back to an id that it has passed shows a cycle of
/// the parent relation.
pub proof fn lemma_descent_cycle(table: Seq<Record>, path: Seq<Seq<char>>, k: int)
    requires
        is_descent(table, path),
        0 <= k < path.len() - 1,
        path[k] == path.last(),
    ensures
        cyclic(table),
{
    let chain = Seq::new((path.len() - k) as nat, |m: int| record_index(table, path[k + m])->0);
    assert forall|m: int| 0 <= m < chain.len() implies 0 <= #[trigger] chain[m] < table.len()
        && table[chain[m]].id == path[k + m] by {
        assert(defined(table, path[k + m]));
        lemma_record_index(table, path[k + m]);
    }
    assert forall|m: int| 0 <= m < chain.len() - 1 implies is_parent(
        table,
        #[trigger] chain[m],
        chain[m + 1],
    ) by {
        assert(record_of(table, path[k + m]).parents.contains(path[k + m + 1]));
        assert(table[chain[m + 1]].id == path[k + (m + 1)]);
    }
    assert(is_chain(table, chain));
    assert(chain.first() == chain.last());
    assert(is_cycle(table, chain));
}

/// In a table whose parent relation is sound, the record at the end of a
/// descent can be flattened.
pub proof fn lemma_flatten_ok(table: Seq<Record>, id: Seq<char>, path: Seq<Seq<char>>)
    requires
        valid(table),
        is_descent(table, path.push(id)),
    ensures
        flatten(table, id, path) is Ok,
    decreases free_count(ids_of(table), path), 0nat, 0nat,
{
    let longer = path.push(id);
    assert(longer[path.len() as int] == id);
    assert(defined(table, id));
    lemma_record_index(table, id);
    let i = record_index(table, id)->0;
    if path.contains(id) {
        let k = choose|k: int| 0 <= k < path.len() && path[k] == id;
        assert(longer[k] == id);
        lemma_descent_cycle(table, longer, k);
    } else {
        assert(ids_of(table)[i] == id);
        lemma_free_count_push(ids_of(table), path, id);
        lemma_inherit_ok(table, longer, table[i].parents.len() as int);
        assert(table[i].parents.take(table[i].parents.len() as int) =~= table[i].parents);
    }
}

/// In a table whose parent relation is sound, the parents of the record at
/// the end of a descent can be flattened and merged.
pub proof fn lemma_inherit_ok(table: Seq<Record>, path: Seq<Seq<char>>, k: int)
    requires
        valid(table),
        path.len() > 0,
        is_descent(table, path),
        0 <= k <= record_of(table, path.last()).parents.len(),
    ensures
        inherit(table, record_of(table, path.last()).parents.take(k), path) is Ok,
    decreases free_count(ids_of(table), path), 1nat, k,
{
    if k > 0 {
        let id = path.last();
        assert(defined(table, path[path.len() - 1]));
        lemma_record_index(table, id);
        let i = record_index(table, id)->0;
        let parents = table[i].parents;
        let parent = parents[k - 1];
        lemma_inherit_ok(table, path, k - 1);
        assert(parents.take(k).drop_last() =~= parents.take(k - 1));
        assert(parents.take(k).last() == parent);
        assert(defined(table, table[i].parents[k - 1]));
        let longer = path.push(parent);
        assert forall|m: int| 0 <= m < longer.len() implies defined(
            table,
            #[trigger] longer[m],
        ) by {
            if m < path.len() {
                assert(longer[m] == path[m]);
            }
        }
        assert forall|m: int| 0 <= m < longer.len() - 1 implies record_of(
            table,
            #[trigger] longer[m],
        ).parents.contains(longer[m + 1]) by {
            assert(longer[m] == path[m]);
            if m < path.len() - 1 {
                assert(longer[m + 1] == path[m + 1]);
            }
        }
        lemma_flatten_ok(table, parent, path);
    }
}

/// Whether the error is one of resolving a record: a record or a field
/// that is not there, or a field whose evaluation leads back to itself.
pub open spec fn is_resolution_error(e: ErrorView) -> bool {
    e is UndefinedRecord || e is UndefinedField || e is CyclicFieldReference
}

/// In a table whose parent relation is sound, evaluation fails only for a
/// record or a field that is not there, or for a field whose evaluation
/// leads back to itself.
pub proof fn lemma_eval_errors(table: Seq<Record>, id: Seq<char>, e: Expr, stack: Seq<FieldKey>)
    requires
        valid(table),
    ensures
        eval(table, id, e, stack) matches Err(x) ==> is_resolution_error(x),
    decreases budget(table, stack), e,
{
    match e {
        Expr::Literal(_) => {},
        Expr::SelfId => {},
        Expr::SelfFieldRef(name) => {
            lemma_enter_errors(table, id, name, stack);
            match enter_field(table, id, name, stack) {
                Ok((inner, deeper)) => {
                    lemma_enter_field(table, id, name, stack);
                    lemma_eval_errors(table, id, inner, deeper);
                },
                Err(_) => {},
            }
        },
        Expr::CrossFieldRef(other, name) => {
            lemma_enter_errors(table, other, name, stack);
            match enter_field(table, other, name, stack) {
                Ok((inner, deeper)) => {
                    lemma_enter_field(table, other, name, stack);
                    lemma_eval_errors(table, other, inner, deeper);
                },
                Err(_) => {},
            }
        },
        Expr::Concat(parts) => {
            lemma_eval_parts_errors(table, id, parts, stack);
        },
    }
}

/// In a table whose parent relation is sound, the evaluation of a list of
/// parts fails only with an error of resolving a record.
pub proof fn lemma_eval_parts_errors(
    table: Seq<Record>,
    id: Seq<char>,
    parts: Seq<Expr>,
    stack: Seq<FieldKey>,
)
    requires
        valid(table),
    ensures
        eval_parts(table, id, parts, stack) matches Err(x) ==> is_resolution_error(x),
    decreases budget(table, stack), parts,
{
    if parts.len() > 0 {
        lemma_eval_parts_errors(table, id, parts.drop_last(), stack);
        lemma_eval_errors(table, id, parts.last(), stack);
    }
}

/// In a table whose parent relation is sound, entering a field fails only
/// with an error of resolving a record.
pub proof fn lemma_enter_errors(
    table: Seq<Record>,
    id: Seq<char>,
    name: Seq<char>,
    stack: Seq<FieldKey>,
)
    requires
        valid(table),
    ensures
        enter_field(table, id, name, stack) matches Err(x) ==> is_resolution_error(x),
{
    if defined(table, id) {
        theorem_valid_table_flattens(table, id);
    }
}

/// In a table whose parent relation is sound, every record can be
/// flattened: following the parents of a record never leads to an id that
/// is not there, nor back to a record that has been passed.
pub proof fn theorem_valid_table_flattens(table: Seq<Record>, id: Seq<char>)
    requires
        valid(table),
        defined(table, id),
    ensures
        flatten(table, id, Seq::empty()) is Ok,
{
    let path = Seq::<Seq<char>>::empty();
    assert(path.push(id)[0] == id);
    lemma_flatten_ok(table, id, path);
}

/// In a table whose parent relation is sound, resolution fails only for a
/// record or a field that is not there, or for a field whose evaluation
/// leads back to itself: never for a cycle of the parent relation.
pub proof fn theorem_valid_table_resolves(table: Seq<Record>, id: Seq<char>)
    requires
        valid(table),
    ensures
        resolved(table, id) matches Err(x) ==> is_resolution_error(x),
        !defined(table, id) ==> resolved(table, id) == Err::<Record, ErrorView>(
            ErrorView::UndefinedRecord(id),
        ),
{
    if defined(table, id) {
        theorem_valid_table_flattens(table, id);
        let fields = flatten(table, id, Seq::empty())->Ok_0;
        lemma_eval_fields_errors(table, id, fields);
    }
}

/// In a table whose parent relation is sound, the evaluation of the fields
/// of a record fails only with an error of resolving a record.
pub proof fn lemma_eval_fields_errors(table: Seq<Record>, id: Seq<char>, fields: Seq<FieldView>)
    requires
        valid(table),
    ensures
        eval_fields(table, id, fields) matches Err(x) ==> is_resolution_error(x),
    decreases fields.len(),
{
    if fields.len() > 0 {
        lemma_eval_fields_errors(table, id, fields.drop_last());
        lemma_eval_errors(
            table,
            id,
            Expr::SelfFieldRef(fields.last().name),
            Seq::empty(),
        );
    }
}

/// In a table whose parent relation is sound, the search for a fault
/// finds none.
pub proof fn theorem_valid_table_has_no_fault(table: Seq<Record>, n: nat)
    requires
        valid(table),
        distinct_ids(table),
        n <= table.len(),
    ensures
        first_fault(table, n) is None,
    decreases n,
{
    if n > 0 {
        theorem_valid_table_has_no_fault(table, (n - 1) as nat);
        lemma_record_index_distinct(table, n - 1);
        theorem_valid_table_flattens(table, table[n - 1].id);
    }
}

/// Where the parents of a record flatten and merge, each of them
/// flattens.
pub proof fn lemma_inherit_parts(
    table: Seq<Record>,
    parents: Seq<Seq<char>>,
    path: Seq<Seq<char>>,
    k: int,
)
    requires
        inherit(table, parents, path) is Ok,
        0 <= k < parents.len(),
    ensures
        flatten(table, parents[k], path) is Ok,
{
    lemma_inherit_prefix(table, parents, path, k + 1);
    assert(parents.take(k + 1).drop_last() =~= parents.take(k));
    assert(parents.take(k + 1).last() == parents[k]);
}

/// Where the parents of a record flatten and merge, the first of them do.
pub proof fn lemma_inherit_prefix(
    table: Seq<Record>,
    parents: Seq<Seq<char>>,
    path: Seq<Seq<char>>,
    k: int,
)
    requires
        inherit(table, parents, path) is Ok,
        0 <= k <= parents.len(),
    ensures
        inherit(table, parents.take(k), path) is Ok,
{
    if inherit(table, parents.take(k), path) is Err {
        lemma_inherit_error(table, parents, path, k);
    }
}

/// A record that flattens has every parent defined, and each parent
/// flattens on the path with the record at its end.
pub proof fn lemma_flatten_parents(table: Seq<Record>, i: int, path: Seq<Seq<char>>, k: int)
    requires
        distinct_ids(table),
        0 <= i < table.len(),
        flatten(table, table[i].id, path) is Ok,
        0 <= k < table[i].parents.len(),
    ensures
        !path.contains(table[i].id),
        defined(table, table[i].parents[k]),
        flatten(table, table[i].parents[k], path.push(table[i].id)) is Ok,
{
    lemma_record_index_distinct(table, i);
    lemma_inherit_parts(table, table[i].parents, path.push(table[i].id), k);
}

/// A record that flattens is on no cycle: a chain of parents that starts
/// at it never comes back to a record of the path or of the chain.
pub proof fn lemma_flatten_follows(
    table: Seq<Record>,
    chain: Seq<int>,
    path: Seq<Seq<char>>,
    n: int,
) -> (deeper: Seq<Seq<char>>)
    requires
        distinct_ids(table),
        is_chain(table, chain),
        flatten(table, table[chain[0]].id, path) is Ok,
        0 <= n < chain.len(),
    ensures
        flatten(table, table[chain[n]].id, deeper) is Ok,
        forall|m: int| 0 <= m < n ==> deeper.contains(table[#[trigger] chain[m]].id),
    decreases n,
{
    if n == 0 {
        path
    } else {
        let before = lemma_flatten_follows(table, chain, path, n - 1);
        let i = chain[n - 1];
        assert(is_parent(table, chain[n - 1], chain[n - 1 + 1]));
        let k = choose|k: int|
            0 <= k < table[i].parents.len() && table[i].parents[k] == table[chain[n]].id;
        lemma_flatten_parents(table, i, before, k);
        let deeper = before.push(table[i].id);
        assert(deeper[before.len() as int] == table[i].id);
        assert forall|m: int| 0 <= m < n implies deeper.contains(
            table[#[trigger] chain[m]].id,
        ) by {
            if m < n - 1 {
                let at = choose|at: int|
                    0 <= at < before.len() && before[at] == table[chain[m]].id;
                assert(deeper[at] == table[chain[m]].id);
            }
        }
        deeper
    }
}

/// The parent relation of a table is sound exactly where the search for a
/// fault finds none: where every record of the table can be flattened.
pub proof fn theorem_valid_iff_no_fault(table: Seq<Record>)
    requires
        distinct_ids(table),
    ensures
        valid(table) <==> first_fault(table, table.len()) is None,
{
    if valid(table) {
        theorem_valid_table_has_no_fault(table, table.len());
    }
    if first_fault(table, table.len()) is None {
        assert forall|i: int| 0 <= i < table.len() implies flatten(
            table,
            #[trigger] table[i].id,
            Seq::empty(),
        ) is Ok by {
            if first_fault(table, (i + 1) as nat) is Some {
                lemma_first_fault_stays(table, (i + 1) as nat, table.len());
            }
            assert(fault_from(table, table[i].id) is None);
        }
        assert forall|i: int, k: int|
            0 <= i < table.len() && 0 <= k < table[i].parents.len() implies defined(
            table,
            #[trigger] table[i].parents[k],
        ) by {
            lemma_flatten_parents(table, i, Seq::empty(), k);
        }
        if cyclic(table) {
            let chain = choose|chain: Seq<int>| is_cycle(table, chain);
            let last = chain.len() - 1;
            let deeper = lemma_flatten_follows(table, chain, Seq::empty(), last);
            assert(deeper.contains(table[chain[0]].id));
            lemma_record_index_distinct(table, chain[last]);
        }
    }
}

} // verus!
