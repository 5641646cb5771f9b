//! The table of records: each record is found under its id.

use vstd::prelude::*;
use crate::non::{Non, Record};

verus! {

/// The values of a list of records, one for one.
pub open spec fn records_of(nons: Seq<Non>) -> Seq<Record> {
    Seq::new(nons.len(), |i: int| nons[i]@)
}

/// The index of the first record of `table` whose id is `id`, if there is
/// one.
pub open spec fn record_index(table: Seq<Record>, id: Seq<char>) -> Option<int>
    decreases table.len(),
{
    if table.len() == 0 {
        None
    } else {
        match record_index(table.drop_last(), id) {
            Some(i) => Some(i),
            None => if table.last().id == id {
                Some(table.len() - 1)
            } else {
                None
            },
        }
    }
}

/// Whether `table` holds a record of the given id.
pub open spec fn defined(table: Seq<Record>, id: Seq<char>) -> bool {
    record_index(table, id) is Some
}

/// Whether no two records of `table` have the same id.
pub open spec fn distinct_ids(table: Seq<Record>) -> bool {
    forall|i: int, j: int|
        0 <= i < table.len() && 0 <= j < table.len() && i != j ==> (#[trigger] table[i]).id != (
        #[trigger] table[j]).id
}

/// `table` with `record` put in: in the place of the record of the same id
/// where there is one, which it replaces as a whole, at the end otherwise.
pub open spec fn insert_record(table: Seq<Record>, record: Record) -> Seq<Record> {
    match record_index(table, record.id) {
        Some(i) => table.update(i, record),
        None => table.push(record),
    }
}

/// The table that holds the records of `records`, put in one after the
/// other: of two records with one id the later one stays.
pub open spec fn table_of(records: Seq<Record>) -> Seq<Record>
    decreases records.len(),
{
    if records.len() == 0 {
        Seq::empty()
    } else {
        insert_record(table_of(records.drop_last()), records.last())
    }
}

/// What [`record_index`] finds: the first index with the id, or nothing
/// where no record has it.
pub proof fn lemma_record_index(table: Seq<Record>, id: Seq<char>)
    ensures
        match record_index(table, id) {
            Some(i) => 0 <= i < table.len() && table[i].id == id && forall|j: int|
                0 <= j < i ==> (#[trigger] table[j]).id != id,
            None => forall|j: int| 0 <= j < table.len() ==> (#[trigger] table[j]).id != id,
        },
    decreases table.len(),
{
    if table.len() > 0 {
        let init = table.drop_last();
        lemma_record_index(init, id);
        match record_index(init, id) {
            Some(i) => {
                assert(init[i] == table[i]);
                assert forall|j: int| 0 <= j < i implies (#[trigger] table[j]).id != id by {
                    assert(init[j] == table[j]);
                }
            },
            None => {
                assert forall|j: int| 0 <= j < init.len() implies (#[trigger] table[j]).id
                    != id by {
                    assert(init[j] == table[j]);
                }
            },
        }
    }
}

/// In a table of distinct ids, a record is found under its id wherever it
/// stands.
pub proof fn lemma_record_index_distinct(table: Seq<Record>, i: int)
    requires
        distinct_ids(table),
        0 <= i < table.len(),
    ensures
        record_index(table, table[i].id) == Some(i),
{
    lemma_record_index(table, table[i].id);
}

/// Putting a record into a table of distinct ids leaves the ids distinct and
/// makes the record the one found under its id.
pub proof fn lemma_insert_record(table: Seq<Record>, record: Record)
    requires
        distinct_ids(table),
    ensures
        distinct_ids(insert_record(table, record)),
        record_index(insert_record(table, record), record.id) matches Some(i) && insert_record(
            table,
            record,
        )[i] == record,
{
    let out = insert_record(table, record);
    lemma_record_index(table, record.id);
    assert forall|i: int, j: int|
        0 <= i < out.len() && 0 <= j < out.len() && i != j implies (#[trigger] out[i]).id != (
    #[trigger] out[j]).id by {
        match record_index(table, record.id) {
            Some(k) => {
                if i != k {
                    assert(out[i] == table[i]);
                }
                if j != k {
                    assert(out[j] == table[j]);
                }
            },
            None => {
                if i < table.len() {
                    assert(out[i] == table[i]);
                }
                if j < table.len() {
                    assert(out[j] == table[j]);
                }
            },
        }
    }
    match record_index(table, record.id) {
        Some(k) => {
            assert(out[k] == record);
            lemma_record_index_distinct(out, k);
        },
        None => {
            assert(out[table.len() as int] == record);
            lemma_record_index_distinct(out, table.len() as int);
        },
    }
}

/// The table made of any list of records has distinct ids.
pub proof fn lemma_table_of_distinct(records: Seq<Record>)
    ensures
        distinct_ids(table_of(records)),
    decreases records.len(),
{
    if records.len() > 0 {
        lemma_table_of_distinct(records.drop_last());
        lemma_insert_record(table_of(records.drop_last()), records.last());
    }
}

/// A table of records, each found under its id.
#[derive(Debug)]
pub struct NonDefs {
    nons: Vec<Non>,
}

impl View for NonDefs {
    type V = Seq<Record>;

    closed spec fn view(&self) -> Seq<Record> {
        records_of(self.nons@)
    }
}

impl NonDefs {
    /// No two records of a table have the same id.
    #[verifier::type_invariant]
    pub open spec fn ids_are_distinct(self) -> bool {
        distinct_ids(self@)
    }

    /// The table that holds the given records, put in one after the other.
    pub fn new(nons: Vec<Non>) -> (defs: Self)
        ensures
            defs@ == table_of(records_of(nons@)),
            distinct_ids(defs@),
    {
        let mut defs = NonDefs { nons: Vec::new() };
        let ghost all = records_of(nons@);
        assert(defs@ =~= table_of(all.take(0)));
        for non in it: nons
            invariant
                all == records_of(it.seq()),
                defs@ == table_of(all.take(it.index() as int)),
        {
            let ghost next = all.take(it.index() + 1);
            assert(next.drop_last() =~= all.take(it.index() as int));
            assert(next.last() == non@);
            defs.insert(non);
        }
        assert(all.take(all.len() as int) =~= all);
        proof {
            lemma_table_of_distinct(all);
        }
        defs
    }

    /// The number of records.
    pub fn len(&self) -> (n: usize)
        ensures
            n == self@.len(),
    {
        self.nons.len()
    }

    /// The index of the record of the given id.
    pub fn index_of(&self, id: &String) -> (res: Option<usize>)
        ensures
            match record_index(self@, id@) {
                Some(i) => res matches Some(k) && k == i && i < self@.len(),
                None => res is None,
            },
    {
        let mut i: usize = 0;
        while i < self.nons.len()
            invariant
                i <= self.nons.len(),
                forall|j: int| 0 <= j < i ==> (#[trigger] self@[j]).id != id@,
            decreases self.nons.len() - i,
        {
            if self.nons[i].id == *id {
                proof {
                    lemma_record_index(self@, id@);
                    assert(self@[i as int].id == id@);
                }
                return Some(i);
            }
            i = i + 1;
        }
        proof {
            lemma_record_index(self@, id@);
        }
        None
    }

    /// The record at the given index.
    pub fn get(&self, index: usize) -> (non: &Non)
        requires
            index < self@.len(),
        ensures
            non@ == self@[index as int],
    {
        &self.nons[index]
    }

    /// The record of the given id, if the table holds one.
    pub fn at(&self, id: &str) -> (res: Option<&Non>)
        ensures
            match record_index(self@, id@) {
                Some(i) => res matches Some(non) && non@ == self@[i],
                None => res is None,
            },
    {
        let key = id.to_owned();
        match self.index_of(&key) {
            Some(i) => Some(&self.nons[i]),
            None => None,
        }
    }

    /// Puts a record into the table: in the place of the record of the same
    /// id where there is one, which it replaces as a whole, at the end
    /// otherwise.
    pub fn insert(&mut self, non: Non)
        ensures
            final(self)@ == insert_record(old(self)@, non@),
    {
        proof {
            use_type_invariant(&*self);
            lemma_insert_record(self@, non@);
        }
        let ghost before = self@;
        let found = self.index_of(&non.id);
        let mut nons: Vec<Non> = Vec::new();
        core::mem::swap(&mut nons, &mut self.nons);
        match found {
            Some(i) => {
                nons[i] = non;
                assert(records_of(nons@) =~= before.update(i as int, non@));
            },
            None => {
                nons.push(non);
                assert(records_of(nons@) =~= before.push(non@));
            },
        }
        self.nons = nons;
    }
}

} // verus!
