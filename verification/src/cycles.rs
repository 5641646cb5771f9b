//! The validator of the parent relation: every parent is a record of the
//! table, and no record is its own ancestor.

use vstd::prelude::*;
use crate::error::{ErrorView, NonError};
use crate::nds::{
    defined, distinct_ids, lemma_record_index, lemma_record_index_distinct, record_index, NonDefs,
};
use crate::non::Record;
use crate::parser::{FieldView, NonParser};
use crate::resolve::{flatten, flatten_record, inherit, lemma_inherit_error};

verus! {

/// Whether the record at index `j` is a parent of the record at index `i`.
pub open spec fn is_parent(table: Seq<Record>, i: int, j: int) -> bool {
    &&& 0 <= i < table.len()
    &&& 0 <= j < table.len()
    &&& table[i].parents.contains(table[j].id)
}

/// Whether `chain` lists indices of records, each the parent of the one
/// before it.
pub open spec fn is_chain(table: Seq<Record>, chain: Seq<int>) -> bool {
    &&& chain.len() >= 1
    &&& forall|k: int| 0 <= k < chain.len() ==> 0 <= #[trigger] chain[k] < table.len()
    &&& forall|k: int|
        0 <= k < chain.len() - 1 ==> is_parent(table, #[trigger] chain[k], chain[k + 1])
}

/// Whether `chain` leads from a record through its ancestors back to itself.
pub open spec fn is_cycle(table: Seq<Record>, chain: Seq<int>) -> bool {
    &&& is_chain(table, chain)
    &&& chain.len() >= 2
    &&& chain.first() == chain.last()
}

/// Whether some record of `table` is its own ancestor.
pub open spec fn cyclic(table: Seq<Record>) -> bool {
    exists|chain: Seq<int>| is_cycle(table, chain)
}

/// Whether `chain` starts at the record of index `start` and ends at a
/// record that it has already passed.
pub open spec fn is_lasso(table: Seq<Record>, chain: Seq<int>, start: int) -> bool {
    &&& is_chain(table, chain)
    &&& chain[0] == start
    &&& exists|k: int| 0 <= k < chain.len() - 1 && #[trigger] chain[k] == chain.last()
}

/// Whether a cycle of the parent relation can be reached from the record of
/// index `start` by going from a record to a parent.
pub open spec fn reaches_cycle(table: Seq<Record>, start: int) -> bool {
    exists|chain: Seq<int>| is_lasso(table, chain, start)
}

/// Whether `id` is named as a parent by some record of `table`, which holds
/// no record of that id.
pub open spec fn undefined_parent(table: Seq<Record>, id: Seq<char>) -> bool {
    &&& !defined(table, id)
    &&& exists|i: int| 0 <= i < table.len() && (#[trigger] table[i]).parents.contains(id)
}

/// Whether every parent that a record of `table` names is a record of
/// `table`.
pub open spec fn all_parents_defined(table: Seq<Record>) -> bool {
    forall|i: int, k: int|
        0 <= i < table.len() && 0 <= k < table[i].parents.len() ==> defined(
            table,
            #[trigger] table[i].parents[k],
        )
}

/// Whether the parent relation of `table` is sound: every parent is there,
/// and no record is its own ancestor.
pub open spec fn valid(table: Seq<Record>) -> bool {
    all_parents_defined(table) && !cyclic(table)
}

/// Whether `e` names a fault of the parent relation of `table`: a parent
/// that some record names and that is not there, or the first record in the
/// order of the table from which a cycle can be reached.
pub open spec fn is_fault_of(table: Seq<Record>, e: ErrorView) -> bool {
    match e {
        ErrorView::UndefinedRecord(id) => undefined_parent(table, id),
        ErrorView::CyclicDependency(id) => record_index(table, id) matches Some(i) && reaches_cycle(
            table,
            i,
        ) && forall|j: int| 0 <= j < i ==> !reaches_cycle(table, j),
        _ => false,
    }
}

/// The fault that the search from the record `id` meets: following the
/// parents of a record, the first before the second and each with all of
/// its ancestors before the next, the first parent that is not there, or
/// the first return to a record that the search is in. This is the walk that
/// flattening makes; a return is reported under the id of the record from
/// which the search started.
pub open spec fn fault_from(table: Seq<Record>, id: Seq<char>) -> Option<ErrorView> {
    match flatten(table, id, Seq::empty()) {
        Ok(_) => None,
        Err(ErrorView::CyclicDependency(_)) => Some(ErrorView::CyclicDependency(id)),
        Err(e) => Some(e),
    }
}

/// The first fault that the searches from the first `n` records of the
/// table meet, in the order of the table.
pub open spec fn first_fault(table: Seq<Record>, n: nat) -> Option<ErrorView>
    decreases n,
{
    if n == 0 {
        None
    } else {
        match first_fault(table, (n - 1) as nat) {
            Some(e) => Some(e),
            None => fault_from(table, table[n - 1].id),
        }
    }
}

/// A fault among the first records is the first fault of all of them.
pub proof fn lemma_first_fault_stays(table: Seq<Record>, k: nat, n: nat)
    requires
        k <= n,
        first_fault(table, k) is Some,
    ensures
        first_fault(table, n) == first_fault(table, k),
    decreases n - k,
{
    if k < n {
        lemma_first_fault_stays(table, k + 1, n);
    }
}

/// A fault among the first records is the first fault of the whole table.
pub proof fn lemma_first_fault_stays_after(table: Seq<Record>, k: nat)
    requires
        k <= table.len(),
    ensures
        first_fault(table, k) is Some ==> first_fault(table, table.len()) == first_fault(table, k),
{
    if first_fault(table, k) is Some {
        lemma_first_fault_stays(table, k, table.len());
    }
}

/// The ids of the records of a chain.
pub open spec fn chain_ids(table: Seq<Record>, chain: Seq<int>) -> Seq<Seq<char>> {
    Seq::new(chain.len(), |m: int| table[chain[m]].id)
}

/// Whether a record of the given id is listed in `order` before the place
/// `p`.
pub open spec fn listed_before(table: Seq<Record>, order: Seq<int>, p: int, id: Seq<char>) -> bool {
    exists|q: int| 0 <= q < p && table[#[trigger] order[q]].id == id
}

/// Whether `order` lists indices of records, none twice, such that every
/// parent of a listed record is a record that is listed before it.
pub open spec fn parents_first(table: Seq<Record>, order: Seq<int>) -> bool {
    &&& order.no_duplicates()
    &&& forall|p: int| 0 <= p < order.len() ==> 0 <= #[trigger] order[p] < table.len()
    &&& forall|p: int, k: int|
        0 <= p < order.len() && 0 <= k < table[order[p]].parents.len() ==> #[trigger] listed_before(
            table,
            order,
            p,
            table[order[p]].parents[k],
        )
}

/// Going from a listed record to a parent leads to a record that is listed
/// earlier.
proof fn lemma_parent_is_earlier(table: Seq<Record>, order: Seq<int>, p: int, j: int)
    requires
        distinct_ids(table),
        parents_first(table, order),
        0 <= p < order.len(),
        is_parent(table, order[p], j),
    ensures
        exists|q: int| 0 <= q < p && order[q] == j,
{
    let i = order[p];
    let k = choose|k: int| 0 <= k < table[i].parents.len() && table[i].parents[k] == table[j].id;
    assert(listed_before(table, order, p, table[order[p]].parents[k]));
    let q = choose|q: int| 0 <= q < p && table[#[trigger] order[q]].id == table[j].id;
    assert(order[q] == j);
}

/// A record that is listed parents first can be flattened, on whatever
/// path the flattening is, as long as the path holds neither the record nor
/// a record that is listed before it.
pub proof fn lemma_listed_flattens(
    table: Seq<Record>,
    order: Seq<int>,
    p: int,
    path: Seq<Seq<char>>,
)
    requires
        distinct_ids(table),
        parents_first(table, order),
        0 <= p < order.len(),
        forall|q: int| 0 <= q <= p ==> !path.contains(table[#[trigger] order[q]].id),
    ensures
        flatten(table, table[order[p]].id, path) is Ok,
    decreases p, 1nat, 0nat,
{
    let i = order[p];
    let id = table[i].id;
    lemma_record_index_distinct(table, i);
    assert(!path.contains(table[order[p]].id));
    lemma_listed_inherits(table, order, p, path.push(id), table[i].parents.len() as int);
    assert(table[i].parents.take(table[i].parents.len() as int) =~= table[i].parents);
}

/// The first parents of a record that is listed parents first can be
/// flattened and merged.
pub proof fn lemma_listed_inherits(
    table: Seq<Record>,
    order: Seq<int>,
    p: int,
    path: Seq<Seq<char>>,
    k: int,
)
    requires
        distinct_ids(table),
        parents_first(table, order),
        0 <= p < order.len(),
        0 <= k <= table[order[p]].parents.len(),
        forall|q: int| 0 <= q < p ==> !path.contains(table[#[trigger] order[q]].id),
    ensures
        inherit(table, table[order[p]].parents.take(k), path) is Ok,
    decreases p, 0nat, k,
{
    if k > 0 {
        let parents = table[order[p]].parents;
        lemma_listed_inherits(table, order, p, path, k - 1);
        assert(parents.take(k).drop_last() =~= parents.take(k - 1));
        assert(parents.take(k).last() == parents[k - 1]);
        assert(listed_before(table, order, p, table[order[p]].parents[k - 1]));
        let q = choose|q: int| 0 <= q < p && table[#[trigger] order[q]].id == parents[k - 1];
        lemma_listed_flattens(table, order, q, path);
    }
}

/// Where the first parents of a record flatten and merge, and the next
/// parent flattens, one parent more flattens and merges.
pub proof fn lemma_inherit_next(
    table: Seq<Record>,
    parents: Seq<Seq<char>>,
    k: int,
    path: Seq<Seq<char>>,
)
    requires
        0 <= k < parents.len(),
        inherit(table, parents.take(k), path) is Ok,
    ensures
        flatten(table, parents[k], path) is Ok ==> inherit(table, parents.take(k + 1), path) is Ok,
        flatten(table, parents[k], path) matches Err(e) ==> inherit(table, parents, path) == Err::<
            Seq<FieldView>,
            ErrorView,
        >(e),
{
    assert(parents.take(k + 1).drop_last() =~= parents.take(k));
    assert(parents.take(k + 1).last() == parents[k]);
    if flatten(table, parents[k], path) is Err {
        lemma_inherit_error(table, parents, path, k + 1);
    }
}

/// The flattening of a record that is not on the path is the merge of its
/// parents with its own fields on top.
pub proof fn lemma_flatten_entered(table: Seq<Record>, i: int, path: Seq<Seq<char>>)
    requires
        distinct_ids(table),
        0 <= i < table.len(),
        !path.contains(table[i].id),
    ensures
        flatten(table, table[i].id, path) == flatten_record(table, table[i], path),
        inherit(table, table[i].parents, path.push(table[i].id)) is Ok ==> flatten(
            table,
            table[i].id,
            path,
        ) is Ok,
        inherit(table, table[i].parents, path.push(table[i].id)) matches Err(e) ==> flatten(
            table,
            table[i].id,
            path,
        ) == Err::<Seq<FieldView>, ErrorView>(e),
{
    lemma_record_index_distinct(table, i);
}

/// A chain that starts at a listed record stays among the listed records
/// and goes down the list by at least one place at each step.
proof fn lemma_chain_descends(table: Seq<Record>, order: Seq<int>, chain: Seq<int>, p: int, n: int)
    requires
        distinct_ids(table),
        parents_first(table, order),
        is_chain(table, chain),
        0 <= p < order.len(),
        order[p] == chain[0],
        0 <= n < chain.len(),
    ensures
        exists|q: int| 0 <= q <= p - n && order[q] == chain[n],
    decreases n,
{
    if n > 0 {
        lemma_chain_descends(table, order, chain, p, n - 1);
        let above = choose|q: int| 0 <= q <= p - (n - 1) && order[q] == chain[n - 1];
        assert(is_parent(table, chain[n - 1], chain[n - 1 + 1]));
        lemma_parent_is_earlier(table, order, above, chain[n]);
    }
}

/// A table whose records can all be listed parents first has every parent
/// defined and no cycle.
pub proof fn lemma_parents_first_valid(table: Seq<Record>, order: Seq<int>)
    requires
        distinct_ids(table),
        parents_first(table, order),
        forall|i: int| 0 <= i < table.len() ==> order.contains(i),
    ensures
        valid(table),
{
    assert forall|i: int, k: int|
        0 <= i < table.len() && 0 <= k < table[i].parents.len() implies defined(
        table,
        #[trigger] table[i].parents[k],
    ) by {
        assert(order.contains(i));
        let p = choose|p: int| 0 <= p < order.len() && order[p] == i;
        assert(listed_before(table, order, p, table[order[p]].parents[k]));
        let q = choose|q: int|
            0 <= q < p && table[#[trigger] order[q]].id == table[i].parents[k];
        lemma_record_index(table, table[i].parents[k]);
    }
    if cyclic(table) {
        let chain = choose|chain: Seq<int>| is_cycle(table, chain);
        assert(order.contains(chain[0]));
        let p = choose|p: int| 0 <= p < order.len() && order[p] == chain[0];
        lemma_chain_descends(table, order, chain, p, chain.len() - 1);
        let q = choose|q: int| 0 <= q <= p - (chain.len() - 1) && order[q] == chain.last();
        assert(q != p);
        assert(order[q] == order[p]);
    }
}

/// No cycle can be reached from a record that is listed parents first.
pub proof fn lemma_listed_reaches_no_cycle(table: Seq<Record>, order: Seq<int>, start: int)
    requires
        distinct_ids(table),
        parents_first(table, order),
        order.contains(start),
    ensures
        !reaches_cycle(table, start),
{
    if reaches_cycle(table, start) {
        let chain = choose|chain: Seq<int>| is_lasso(table, chain, start);
        let k = choose|k: int| 0 <= k < chain.len() - 1 && #[trigger] chain[k] == chain.last();
        let p = choose|p: int| 0 <= p < order.len() && order[p] == start;
        lemma_chain_descends(table, order, chain, p, k);
        let q = choose|q: int| 0 <= q <= p - k && order[q] == chain[k];
        let tail = chain.skip(k);
        assert forall|m: int| 0 <= m < tail.len() - 1 implies is_parent(
            table,
            #[trigger] tail[m],
            tail[m + 1],
        ) by {
            assert(is_parent(table, chain[k + m], chain[k + m + 1]));
        }
        assert(is_chain(table, tail));
        lemma_chain_descends(table, order, tail, q, tail.len() - 1);
        let r = choose|r: int| 0 <= r <= q - (tail.len() - 1) && order[r] == tail.last();
        assert(order[r] == order[q]);
    }
}

/// A table from which a cycle can be reached has a cycle.
pub proof fn lemma_reaches_cycle_cyclic(table: Seq<Record>, start: int)
    requires
        reaches_cycle(table, start),
    ensures
        cyclic(table),
{
    let chain = choose|chain: Seq<int>| is_lasso(table, chain, start);
    let k = choose|k: int| 0 <= k < chain.len() - 1 && #[trigger] chain[k] == chain.last();
    let tail = chain.skip(k);
    assert forall|m: int| 0 <= m < tail.len() - 1 implies is_parent(
        table,
        #[trigger] tail[m],
        tail[m + 1],
    ) by {
        assert(is_parent(table, chain[k + m], chain[k + m + 1]));
    }
    assert(is_cycle(table, tail));
}

/// A table in which some record names a parent that is not there does not
/// have every parent defined.
pub proof fn lemma_undefined_parent(table: Seq<Record>, id: Seq<char>)
    requires
        undefined_parent(table, id),
    ensures
        !all_parents_defined(table),
{
    let i = choose|i: int| 0 <= i < table.len() && (#[trigger] table[i]).parents.contains(id);
    let k = choose|k: int| 0 <= k < table[i].parents.len() && table[i].parents[k] == id;
    assert(!defined(table, table[i].parents[k]));
}

/// The number of `false` entries.
pub open spec fn count_false(marks: Seq<bool>) -> nat
    decreases marks.len(),
{
    if marks.len() == 0 {
        0
    } else {
        count_false(marks.drop_last()) + if marks.last() {
            0nat
        } else {
            1nat
        }
    }
}

/// Setting entries from `false` to `true` does not raise the count of
/// `false` entries, and lowers it where at least one entry changes.
proof fn lemma_count_false(a: Seq<bool>, b: Seq<bool>)
    requires
        a.len() == b.len(),
        forall|i: int| 0 <= i < a.len() && a[i] ==> b[i],
    ensures
        count_false(b) <= count_false(a),
        (exists|i: int| 0 <= i < a.len() && !a[i] && b[i]) ==> count_false(b) < count_false(a),
    decreases a.len(),
{
    if a.len() > 0 {
        let a0 = a.drop_last();
        let b0 = b.drop_last();
        assert forall|i: int| 0 <= i < a0.len() && a0[i] implies b0[i] by {
            assert(a[i] ==> b[i]);
        }
        lemma_count_false(a0, b0);
        if exists|i: int| 0 <= i < a.len() && !a[i] && b[i] {
            let i = choose|i: int| 0 <= i < a.len() && !a[i] && b[i];
            if i < a.len() - 1 {
                assert(!a0[i] && b0[i]);
            }
        }
    }
}

/// The state of a depth-first search through the parent relation, as plain
/// values.
pub struct SearchView {
    /// The records that the search has entered.
    pub visited: Seq<bool>,
    /// The records that the search has entered and not left yet.
    pub on_stack: Seq<bool>,
    /// The records on the stack, from the root of the search downwards.
    pub chain: Seq<int>,
    /// The records that the search has left, in the order of leaving.
    pub order: Seq<int>,
}

impl SearchView {
    /// What holds of the state whenever the search enters or leaves a
    /// record.
    #[verifier::opaque]
    pub open spec fn inv(self, table: Seq<Record>) -> bool {
        &&& self.visited.len() == table.len()
        &&& self.on_stack.len() == table.len()
        &&& forall|i: int|
            #![trigger self.on_stack[i]]
            0 <= i < table.len() ==> (self.on_stack[i] <==> self.chain.contains(i))
        &&& forall|i: int|
            #![trigger self.visited[i]]
            0 <= i < table.len() ==> (self.visited[i] <==> (self.on_stack[i]
                || self.order.contains(i)))
        &&& forall|i: int|
            #![trigger self.order.contains(i)]
            !(self.chain.contains(i) && self.order.contains(i))
        &&& self.chain.no_duplicates()
        &&& self.chain.len() > 0 ==> is_chain(table, self.chain)
        &&& parents_first(table, self.order)
    }

    /// The index of the record at which the search is rooted, where `next`
    /// is the index of the record that it is about to enter.
    pub open spec fn root(self, next: int) -> int {
        if self.chain.len() > 0 {
            self.chain[0]
        } else {
            next
        }
    }

    /// The state after the search has entered the record of index `idx`.
    pub open spec fn enter(self, idx: int) -> SearchView {
        SearchView {
            visited: self.visited.update(idx, true),
            on_stack: self.on_stack.update(idx, true),
            chain: self.chain.push(idx),
            order: self.order,
        }
    }

    /// The state after the search has left the record of index `idx`.
    pub open spec fn leave(self, idx: int) -> SearchView {
        SearchView {
            visited: self.visited,
            on_stack: self.on_stack.update(idx, false),
            chain: self.chain.drop_last(),
            order: self.order.push(idx),
        }
    }
}

/// Whether `next` may be entered from the state `s`: it is a parent of the
/// record on top of the stack, if there is one.
pub open spec fn may_enter(table: Seq<Record>, s: SearchView, next: int) -> bool {
    &&& 0 <= next < table.len()
    &&& s.chain.len() > 0 ==> table[s.chain.last()].parents.contains(table[next].id)
}

/// The state before the search has entered any record.
pub open spec fn initial_search(n: nat) -> SearchView {
    SearchView {
        visited: Seq::new(n, |i: int| false),
        on_stack: Seq::new(n, |i: int| false),
        chain: Seq::empty(),
        order: Seq::empty(),
    }
}

/// The state before the search is sound.
proof fn lemma_initial(table: Seq<Record>)
    ensures
        initial_search(table.len()).inv(table),
{
    reveal(SearchView::inv);
}

/// A sound state has one mark of each kind for each record.
proof fn lemma_marks(table: Seq<Record>, s: SearchView)
    requires
        s.inv(table),
    ensures
        s.visited.len() == table.len(),
        s.on_stack.len() == table.len(),
{
    reveal(SearchView::inv);
}

/// The record on top of the stack is a record of the table.
proof fn lemma_top(table: Seq<Record>, s: SearchView)
    requires
        s.inv(table),
        s.chain.len() > 0,
    ensures
        0 <= s.chain.last() < table.len(),
{
    reveal(SearchView::inv);
}

/// A record that the search has visited and that is not on the stack is one
/// that the search has left.
proof fn lemma_left(table: Seq<Record>, s: SearchView, idx: int)
    requires
        s.inv(table),
        0 <= idx < table.len(),
        s.visited[idx],
        !s.on_stack[idx],
    ensures
        s.order.contains(idx),
{
    reveal(SearchView::inv);
}

/// No cycle can be reached from a record that the search has left.
proof fn lemma_left_reaches_no_cycle(table: Seq<Record>, s: SearchView, start: int)
    requires
        distinct_ids(table),
        s.inv(table),
        s.order.contains(start),
    ensures
        !reaches_cycle(table, start),
{
    reveal(SearchView::inv);
    lemma_listed_reaches_no_cycle(table, s.order, start);
}

/// The flattening of a record that is on the stack, on the path of the
/// stack, comes back to the record.
proof fn lemma_walk_back(table: Seq<Record>, s: SearchView, idx: int)
    requires
        distinct_ids(table),
        s.inv(table),
        0 <= idx < table.len(),
        s.on_stack[idx],
    ensures
        flatten(table, table[idx].id, chain_ids(table, s.chain)) == Err::<
            Seq<FieldView>,
            ErrorView,
        >(ErrorView::CyclicDependency(table[idx].id)),
{
    reveal(SearchView::inv);
    lemma_record_index_distinct(table, idx);
    assert(s.chain.contains(idx));
    let m = choose|m: int| 0 <= m < s.chain.len() && s.chain[m] == idx;
    assert(chain_ids(table, s.chain)[m] == table[idx].id);
}

/// A record that the search has left can be flattened on the path of the
/// stack.
proof fn lemma_walk_left(table: Seq<Record>, s: SearchView, idx: int)
    requires
        distinct_ids(table),
        s.inv(table),
        0 <= idx < table.len(),
        s.visited[idx],
        !s.on_stack[idx],
    ensures
        flatten(table, table[idx].id, chain_ids(table, s.chain)) is Ok,
{
    reveal(SearchView::inv);
    assert(s.order.contains(idx));
    let p = choose|p: int| 0 <= p < s.order.len() && s.order[p] == idx;
    let path = chain_ids(table, s.chain);
    assert forall|q: int| 0 <= q <= p implies !path.contains(table[#[trigger] s.order[q]].id) by {
        if path.contains(table[s.order[q]].id) {
            let m = choose|m: int| 0 <= m < path.len() && path[m] == table[s.order[q]].id;
            assert(0 <= s.chain[m] < table.len());
            assert(s.chain[m] == s.order[q]);
            assert(s.chain.contains(s.order[q]));
            assert(s.order.contains(s.order[q]));
        }
    }
    lemma_listed_flattens(table, s.order, p, path);
}

/// A record that the search has not visited is not on the path of the
/// stack, and entering it puts its id at the end of the path.
proof fn lemma_walk_enter(table: Seq<Record>, s: SearchView, idx: int)
    requires
        distinct_ids(table),
        s.inv(table),
        0 <= idx < table.len(),
        !s.visited[idx],
    ensures
        !chain_ids(table, s.chain).contains(table[idx].id),
        chain_ids(table, s.enter(idx).chain) == chain_ids(table, s.chain).push(table[idx].id),
{
    reveal(SearchView::inv);
    let path = chain_ids(table, s.chain);
    if path.contains(table[idx].id) {
        let m = choose|m: int| 0 <= m < path.len() && path[m] == table[idx].id;
        assert(0 <= s.chain[m] < table.len());
        assert(s.chain[m] == idx);
        assert(s.chain.contains(idx));
    }
    assert(chain_ids(table, s.enter(idx).chain) =~= path.push(table[idx].id));
}

/// Once the search has left every record, the table is sound.
proof fn lemma_all_left(table: Seq<Record>, s: SearchView)
    requires
        distinct_ids(table),
        s.inv(table),
        forall|i: int| 0 <= i < table.len() ==> s.order.contains(i),
    ensures
        valid(table),
{
    reveal(SearchView::inv);
    lemma_parents_first_valid(table, s.order);
}

/// Entering a record that is on the stack closes a cycle, which can be
/// reached from the root of the search.
proof fn lemma_back_edge(table: Seq<Record>, s: SearchView, idx: int)
    requires
        s.inv(table),
        may_enter(table, s, idx),
        s.on_stack[idx],
    ensures
        reaches_cycle(table, s.root(idx)),
{
    reveal(SearchView::inv);
    let chain = s.chain.push(idx);
    assert(s.chain.contains(idx));
    let k = choose|k: int| 0 <= k < s.chain.len() && s.chain[k] == idx;
    assert(chain[k] == chain.last());
    assert forall|m: int| 0 <= m < chain.len() - 1 implies is_parent(
        table,
        #[trigger] chain[m],
        chain[m + 1],
    ) by {
        if m < s.chain.len() - 1 {
            assert(is_parent(table, s.chain[m], s.chain[m + 1]));
        }
    }
    assert forall|m: int| 0 <= m < chain.len() implies 0 <= #[trigger] chain[m] < table.len() by {
        if m < s.chain.len() {
            assert(chain[m] == s.chain[m]);
        }
    }
    assert(is_lasso(table, chain, s.root(idx)));
}

/// Entering a record that the search has not visited keeps the state sound
/// and lowers the number of records that are left to visit.
proof fn lemma_enter(table: Seq<Record>, s: SearchView, idx: int)
    requires
        s.inv(table),
        may_enter(table, s, idx),
        !s.visited[idx],
    ensures
        s.enter(idx).inv(table),
        s.enter(idx).root(idx) == s.root(idx),
        count_false(s.enter(idx).visited) < count_false(s.visited),
{
    reveal(SearchView::inv);
    let t = s.enter(idx);
    assert(t.chain[s.chain.len() as int] == idx);
    assert forall|i: int| #![trigger t.on_stack[i]] 0 <= i < table.len() implies (t.on_stack[i]
        <==> t.chain.contains(i)) by {
        if i != idx {
            assert(t.on_stack[i] == s.on_stack[i]);
            if s.chain.contains(i) {
                let k = choose|k: int| 0 <= k < s.chain.len() && s.chain[k] == i;
                assert(t.chain[k] == i);
            }
            if t.chain.contains(i) {
                let k = choose|k: int| 0 <= k < t.chain.len() && t.chain[k] == i;
                assert(s.chain[k] == i);
            }
        }
    }
    assert forall|i: int| #![trigger t.visited[i]] 0 <= i < table.len() implies (t.visited[i] <==> (
    t.on_stack[i] || t.order.contains(i))) by {
        if i != idx {
            assert(t.visited[i] == s.visited[i]);
            assert(t.on_stack[i] == s.on_stack[i]);
        }
    }
    assert forall|i: int| #![trigger t.order.contains(i)] !(t.chain.contains(i)
        && t.order.contains(i)) by {
        if t.chain.contains(i) && t.order.contains(i) {
            let k = choose|k: int| 0 <= k < t.chain.len() && t.chain[k] == i;
            if k < s.chain.len() {
                assert(s.chain[k] == i);
            } else {
                assert(s.visited[idx]);
            }
        }
    }
    assert(t.chain.no_duplicates()) by {
        assert forall|a: int, b: int|
            0 <= a < t.chain.len() && 0 <= b < t.chain.len() && a != b implies t.chain[a]
            != t.chain[b] by {
            if a < s.chain.len() && b < s.chain.len() {
                assert(s.chain[a] != s.chain[b]);
            } else if a < s.chain.len() {
                assert(s.chain.contains(s.chain[a]));
            } else if b < s.chain.len() {
                assert(s.chain.contains(s.chain[b]));
            }
        }
    }
    assert(is_chain(table, t.chain)) by {
        assert forall|m: int| 0 <= m < t.chain.len() implies 0 <= #[trigger] t.chain[m]
            < table.len() by {
            if m < s.chain.len() {
                assert(t.chain[m] == s.chain[m]);
            }
        }
        assert forall|m: int| 0 <= m < t.chain.len() - 1 implies is_parent(
            table,
            #[trigger] t.chain[m],
            t.chain[m + 1],
        ) by {
            if m < s.chain.len() - 1 {
                assert(is_parent(table, s.chain[m], s.chain[m + 1]));
            }
        }
    }
    lemma_count_false(s.visited, t.visited);
    assert(!s.visited[idx] && t.visited[idx]);
}

/// Leaving the record on top of the stack, once the search has left all of
/// its parents, keeps the state sound.
proof fn lemma_leave(table: Seq<Record>, s: SearchView, idx: int)
    requires
        distinct_ids(table),
        s.inv(table),
        s.chain.len() > 0,
        s.chain.last() == idx,
        0 <= idx < table.len(),
        forall|j: int|
            0 <= j < table[idx].parents.len() ==> (record_index(
                table,
                #[trigger] table[idx].parents[j],
            ) matches Some(i) && s.order.contains(i)),
    ensures
        s.leave(idx).inv(table),
        s.leave(idx).order.contains(idx),
        forall|v: int| s.order.contains(v) ==> s.leave(idx).order.contains(v),
{
    reveal(SearchView::inv);
    let t = s.leave(idx);
    let order = t.order;
    assert(order[s.order.len() as int] == idx);
    assert(s.chain.contains(idx));
    assert(!s.order.contains(idx));
    assert forall|v: int| s.order.contains(v) implies order.contains(v) by {
        let p = choose|p: int| 0 <= p < s.order.len() && s.order[p] == v;
        assert(order[p] == v);
    }
    assert(order.no_duplicates()) by {
        assert forall|a: int, b: int|
            0 <= a < order.len() && 0 <= b < order.len() && a != b implies order[a]
            != order[b] by {
            if a < s.order.len() && b < s.order.len() {
                assert(s.order[a] != s.order[b]);
            } else if a < s.order.len() {
                assert(s.order.contains(s.order[a]));
            } else if b < s.order.len() {
                assert(s.order.contains(s.order[b]));
            }
        }
    }
    assert forall|p: int| 0 <= p < order.len() implies 0 <= #[trigger] order[p] < table.len() by {
        if p < s.order.len() {
            assert(order[p] == s.order[p]);
        }
    }
    assert forall|p: int, j: int|
        0 <= p < order.len() && 0 <= j < table[order[p]].parents.len() implies #[trigger] listed_before(
        table,
        order,
        p,
        table[order[p]].parents[j],
    ) by {
        if p < s.order.len() {
            assert(order[p] == s.order[p]);
            assert(listed_before(table, s.order, p, table[s.order[p]].parents[j]));
            let q = choose|q: int|
                0 <= q < p && table[#[trigger] s.order[q]].id == table[s.order[p]].parents[j];
            assert(order[q] == s.order[q]);
        } else {
            let i = record_index(table, table[idx].parents[j])->0;
            lemma_record_index(table, table[idx].parents[j]);
            assert(s.order.contains(i));
            let q = choose|q: int| 0 <= q < s.order.len() && s.order[q] == i;
            assert(order[q] == i);
        }
    }
    assert forall|i: int| #![trigger t.on_stack[i]] 0 <= i < table.len() implies (t.on_stack[i]
        <==> t.chain.contains(i)) by {
        if i != idx {
            assert(t.on_stack[i] == s.on_stack[i]);
            if s.chain.contains(i) {
                let m = choose|m: int| 0 <= m < s.chain.len() && s.chain[m] == i;
                assert(t.chain[m] == i);
            }
            if t.chain.contains(i) {
                let m = choose|m: int| 0 <= m < t.chain.len() && t.chain[m] == i;
                assert(s.chain[m] == i);
            }
        } else {
            if t.chain.contains(i) {
                let m = choose|m: int| 0 <= m < t.chain.len() && t.chain[m] == i;
                assert(s.chain[m] == i);
                assert(s.chain.contains(i));
                assert(s.chain[m] != s.chain[s.chain.len() - 1]);
            }
        }
    }
    assert forall|i: int| #![trigger t.visited[i]] 0 <= i < table.len() implies (t.visited[i] <==> (
    t.on_stack[i] || order.contains(i))) by {
        if i == idx {
            assert(s.on_stack[i]);
        } else {
            assert(s.visited[i] <==> (s.on_stack[i] || s.order.contains(i)));
            assert(t.on_stack[i] == s.on_stack[i]);
            if order.contains(i) {
                let p = choose|p: int| 0 <= p < order.len() && order[p] == i;
                assert(s.order[p] == i);
            }
        }
    }
    assert forall|i: int| #![trigger order.contains(i)] !(t.chain.contains(i) && order.contains(
        i,
    )) by {
        if t.chain.contains(i) && order.contains(i) {
            let m = choose|m: int| 0 <= m < t.chain.len() && t.chain[m] == i;
            assert(s.chain[m] == i);
            assert(s.chain.contains(i));
            let p = choose|p: int| 0 <= p < order.len() && order[p] == i;
            if p < s.order.len() {
                assert(s.order[p] == i);
                assert(s.order.contains(i));
            } else {
                assert(s.chain[m] != s.chain[s.chain.len() - 1]);
            }
        }
    }
    assert(t.chain.no_duplicates()) by {
        assert forall|a: int, b: int|
            0 <= a < t.chain.len() && 0 <= b < t.chain.len() && a != b implies t.chain[a]
            != t.chain[b] by {
            assert(s.chain[a] != s.chain[b]);
        }
    }
    if t.chain.len() > 0 {
        assert forall|m: int| 0 <= m < t.chain.len() implies 0 <= #[trigger] t.chain[m]
            < table.len() by {
            assert(t.chain[m] == s.chain[m]);
        }
        assert forall|m: int| 0 <= m < t.chain.len() - 1 implies is_parent(
            table,
            #[trigger] t.chain[m],
            t.chain[m + 1],
        ) by {
            assert(is_parent(table, s.chain[m], s.chain[m + 1]));
        }
        assert(is_chain(table, t.chain));
    }
    assert(parents_first(table, order));
    assert(t.visited.len() == table.len());
    assert(t.on_stack.len() == table.len());
}

/// The state of a depth-first search through the parent relation.
struct Search {
    visited: Vec<bool>,
    on_stack: Vec<bool>,
    chain: Ghost<Seq<int>>,
    order: Ghost<Seq<int>>,
}

impl View for Search {
    type V = SearchView;

    closed spec fn view(&self) -> SearchView {
        SearchView {
            visited: self.visited@,
            on_stack: self.on_stack@,
            chain: self.chain@,
            order: self.order@,
        }
    }
}

impl NonParser {
    /// Checks the parent relation of `nons`: that every record named as a
    /// parent is there, and that no record is its own ancestor.
    ///
    /// The search goes through the records in the order of the table,
    /// follows the parents of each as flattening does, and stops at the first
    /// fault that it meets. For a parent that is not there, the error names
    /// that parent. For a cycle, it names the record at which the search that
    /// met the cycle started, which is the first record of the table from
    /// which a cycle can be reached.
    pub fn detect_cycles(nons: &NonDefs) -> (res: Result<(), NonError>)
        ensures
            match first_fault(nons@, nons@.len()) {
                None => res is Ok,
                Some(e) => res matches Err(x) && x@ == e,
            },
            res is Ok <==> valid(nons@),
            res matches Err(e) ==> is_fault_of(nons@, e@),
            cyclic(nons@) && all_parents_defined(nons@) ==> res matches Err(
                NonError::CyclicDependency(_),
            ),
            !cyclic(nons@) && !all_parents_defined(nons@) ==> res matches Err(
                NonError::UndefinedRecord(_),
            ),
    {
        let n = nons.len();
        let ghost table = nons@;
        proof {
            use_type_invariant(nons);
        }
        let mut search = Search {
            visited: vec![false; n],
            on_stack: vec![false; n],
            chain: Ghost(Seq::empty()),
            order: Ghost(Seq::empty()),
        };
        proof {
            assert(search@.visited =~= initial_search(n as nat).visited);
            assert(search@.on_stack =~= initial_search(n as nat).on_stack);
            lemma_initial(table);
        }
        let mut r: usize = 0;
        while r < n
            invariant
                r <= n,
                n == table.len(),
                table == nons@,
                distinct_ids(table),
                search@.inv(table),
                search@.chain.len() == 0,
                forall|j: int| 0 <= j < r ==> search@.order.contains(j),
                first_fault(table, r as nat) is None,
            decreases n - r,
        {
            let non = nons.get(r);
            proof {
                lemma_record_index_distinct(table, r as int);
            }
            let ghost before = search@.order;
            proof {
                assert(chain_ids(table, search@.chain) =~= Seq::empty());
                lemma_first_fault_stays_after(table, (r + 1) as nat);
                assert forall|j: int| 0 <= j < r implies !reaches_cycle(table, j) by {
                    lemma_left_reaches_no_cycle(table, search@, j);
                }
            }
            match Self::has_cycle(&non.id, nons, &mut search) {
                Err(e) => {
                    proof {
                        lemma_undefined_parent(table, e@->UndefinedRecord_0);
                    }
                    return Err(e);
                },
                Ok(true) => {
                    proof {
                        lemma_reaches_cycle_cyclic(table, r as int);
                    }
                    return Err(NonError::CyclicDependency(non.id.clone()));
                },
                Ok(false) => {
                    assert forall|j: int| 0 <= j < r + 1 implies search@.order.contains(j) by {
                        if j < r {
                            assert(before.contains(j));
                        }
                    }
                },
            }
            r = r + 1;
        }
        proof {
            lemma_all_left(table, search@);
        }
        Ok(())
    }

    /// Enters the record named `name` and searches through its ancestors.
    /// The answer is `true` where the search leads back to a record that it
    /// has entered and not left.
    fn has_cycle(name: &String, nons: &NonDefs, search: &mut Search) -> (res: Result<
        bool,
        NonError,
    >)
        requires
            distinct_ids(nons@),
            old(search)@.inv(nons@),
            old(search)@.chain.len() == 0 ==> defined(nons@, name@),
            old(search)@.chain.len() > 0 ==> nons@[old(search)@.chain.last()].parents.contains(
                name@,
            ),
        ensures
            match res {
                Ok(false) => {
                    &&& final(search)@.inv(nons@)
                    &&& final(search)@.chain == old(search)@.chain
                    &&& record_index(nons@, name@) matches Some(i) && final(search)@.order.contains(i)
                    &&& forall|v: int|
                        old(search)@.order.contains(v) ==> final(search)@.order.contains(v)
                    &&& count_false(final(search)@.visited) <= count_false(old(search)@.visited)
                },
                Ok(true) => record_index(nons@, name@) matches Some(i) && reaches_cycle(
                    nons@,
                    old(search)@.root(i),
                ),
                Err(e) => e@ matches ErrorView::UndefinedRecord(id) && undefined_parent(nons@, id),
            },
            match flatten(nons@, name@, chain_ids(nons@, old(search)@.chain)) {
                Ok(_) => res matches Ok(false),
                Err(ErrorView::CyclicDependency(_)) => res matches Ok(true),
                Err(e) => res matches Err(x) && x@ == e,
            },
        decreases count_false(old(search)@.visited),
    {
        let ghost table = nons@;
        let ghost entry = search@;
        proof {
            lemma_record_index(table, name@);
        }
        proof {
            if entry.chain.len() > 0 {
                lemma_top(table, entry);
            }
        }
        let idx = match nons.index_of(name) {
            None => {
                assert(table[entry.chain.last()].parents.contains(name@));
                return Err(NonError::UndefinedRecord(name.clone()));
            },
            Some(idx) => idx,
        };
        proof {
            lemma_marks(table, entry);
        }
        assert(may_enter(table, entry, idx as int));
        let ghost outer = chain_ids(table, entry.chain);
        if search.on_stack[idx] {
            proof {
                lemma_back_edge(table, entry, idx as int);
                lemma_walk_back(table, entry, idx as int);
            }
            return Ok(true);
        }
        if search.visited[idx] {
            proof {
                lemma_left(table, entry, idx as int);
                lemma_walk_left(table, entry, idx as int);
            }
            return Ok(false);
        }
        let ghost inner_path = outer.push(name@);
        search.visited[idx] = true;
        search.on_stack[idx] = true;
        search.chain = Ghost(entry.chain.push(idx as int));
        proof {
            assert(search@ == entry.enter(idx as int));
            lemma_enter(table, entry, idx as int);
            lemma_walk_enter(table, entry, idx as int);
            lemma_flatten_entered(table, idx as int, outer);
        }
        let non = nons.get(idx);
        assert(non@.parents.take(0) =~= Seq::empty());
        let mut k: usize = 0;
        while k < non.parents.len()
            invariant
                k <= non.parents.len(),
                idx < table.len(),
                table == nons@,
                entry == old(search)@,
                record_index(table, name@) == Some(idx as int),
                distinct_ids(table),
                non@ == table[idx as int],
                search@.inv(table),
                search@.chain == entry.chain.push(idx as int),
                outer == chain_ids(table, entry.chain),
                inner_path == outer.push(name@),
                name@ == table[idx as int].id,
                chain_ids(table, search@.chain) == inner_path,
                !outer.contains(name@),
                inherit(table, non@.parents.take(k as int), inner_path) is Ok,
                count_false(search@.visited) < count_false(entry.visited),
                forall|v: int| entry.order.contains(v) ==> search@.order.contains(v),
                forall|j: int|
                    0 <= j < k ==> (record_index(table, #[trigger] non@.parents[j]) matches Some(i)
                        && search@.order.contains(i)),
            decreases non.parents.len() - k,
        {
            assert(non@.parents[k as int] == non.parents@[k as int]@);
            assert(table[idx as int].parents.contains(non.parents@[k as int]@));
            proof {
                lemma_marks(table, search@);
                lemma_inherit_next(table, non@.parents, k as int, inner_path);
                lemma_flatten_entered(table, idx as int, outer);
            }
            match Self::has_cycle(&non.parents[k], nons, search) {
                Err(e) => {
                    return Err(e);
                },
                Ok(true) => {
                    return Ok(true);
                },
                Ok(false) => {},
            }
            k = k + 1;
        }
        proof {
            assert(non@.parents.take(k as int) =~= non@.parents);
            lemma_flatten_entered(table, idx as int, outer);
        }
        let ghost inner = search@;
        proof {
            lemma_marks(table, inner);
        }
        search.on_stack[idx] = false;
        search.chain = Ghost(entry.chain);
        search.order = Ghost(inner.order.push(idx as int));
        proof {
            assert(inner.chain.drop_last() =~= entry.chain);
            assert(search@ == inner.leave(idx as int));
            lemma_leave(table, inner, idx as int);
        }
        Ok(false)
    }
}

impl NonDefs {
    /// Checks the parent relation of the table: that every record named as
    /// a parent is there, and that no record is its own ancestor.
    ///
    /// A table with a cycle and with every parent defined fails with
    /// `CyclicDependency`; one without a cycle in which a parent is missing
    /// fails with `UndefinedRecord`; one with both faults fails with the one
    /// that the search meets first.
    pub fn validate(&self) -> (res: Result<(), NonError>)
        ensures
            match first_fault(self@, self@.len()) {
                None => res is Ok,
                Some(e) => res matches Err(x) && x@ == e,
            },
            res is Ok <==> valid(self@),
            res matches Err(e) ==> is_fault_of(self@, e@),
            cyclic(self@) && all_parents_defined(self@) ==> res matches Err(
                NonError::CyclicDependency(_),
            ),
            !cyclic(self@) && !all_parents_defined(self@) ==> res matches Err(
                NonError::UndefinedRecord(_),
            ),
    {
        NonParser::detect_cycles(self)
    }
}

} // verus!
