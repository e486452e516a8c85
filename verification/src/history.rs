//! The history of applied migrations.
//!
//! The history holds one record for each unit that is applied now: a record
//! is added when a unit has been applied and taken out when it has been
//! reverted, and none is ever changed in place. Records are listed by name,
//! never by the time they were written.

use crate::error::{ErrorView, MigrationError};
use crate::name::{lemma_ascending_no_duplicates, lemma_lt_total, name_lt, strictly_ascending};
use crate::table::{
    lemma_insert_contains, lemma_insert_keeps_ascending, lemma_rank_boundary,
    lemma_rank_of_member, lemma_remove_contains, lemma_remove_keeps_ascending, rank, NameTable,
};
use vstd::prelude::*;
use vstd::string::*;

verus! {

/// One applied migration: its name, and when it was applied.
#[derive(Debug, PartialEq, Eq)]
pub struct HistoryRecord {
    pub name: String,
    pub applied_at: i64,
}

/// A record as contracts speak of it.
pub struct RecordView {
    pub name: Seq<char>,
    pub applied_at: i64,
}

impl View for HistoryRecord {
    type V = RecordView;

    open spec fn view(&self) -> RecordView {
        RecordView { name: self.name@, applied_at: self.applied_at }
    }
}

/// The names of a sequence of records, in the same order.
pub open spec fn record_names(records: Seq<RecordView>) -> Seq<Seq<char>> {
    Seq::new(records.len(), |i: int| records[i].name)
}

/// The records of a list, as contracts speak of them.
pub open spec fn record_views(list: Seq<HistoryRecord>) -> Seq<RecordView> {
    Seq::new(list.len(), |i: int| list[i]@)
}

/// The history with `record` added where name order puts it.
pub open spec fn with_record(history: Seq<RecordView>, record: RecordView) -> Seq<RecordView> {
    history.insert(rank(record_names(history), record.name), record)
}

/// The history with the record of `name` taken out.
pub open spec fn without_record(history: Seq<RecordView>, name: Seq<char>) -> Seq<RecordView> {
    history.remove(rank(record_names(history), name))
}

/// Adding the record of a name that is not recorded keeps the history in
/// name order and adds that name to the recorded names, nothing else.
pub proof fn lemma_with_record(history: Seq<RecordView>, record: RecordView)
    requires
        strictly_ascending(record_names(history)),
        !record_names(history).contains(record.name),
    ensures
        strictly_ascending(record_names(with_record(history, record))),
        record_names(with_record(history, record)).to_set() == record_names(
            history,
        ).to_set().insert(record.name),
        with_record(history, record).len() == history.len() + 1,
{
    let names = record_names(history);
    let at = rank(names, record.name);
    lemma_rank_boundary(names, record.name);
    assert forall|k: int| at <= k < names.len() implies name_lt(
        record.name,
        #[trigger] names[k],
    ) by {
        lemma_lt_total(names[k], record.name);
    }
    lemma_insert_keeps_ascending(names, record.name, at);
    let after = record_names(with_record(history, record));
    assert(after =~= names.insert(at, record.name));
    assert forall|y: Seq<char>| after.to_set().contains(y) <==> names.to_set().insert(
        record.name,
    ).contains(y) by {
        lemma_insert_contains(names, at, record.name, y);
    }
    assert(after.to_set() =~= names.to_set().insert(record.name));
}

/// Taking out the record of a recorded name keeps the history in name order
/// and takes that name from the recorded names, nothing else.
pub proof fn lemma_without_record(history: Seq<RecordView>, name: Seq<char>)
    requires
        strictly_ascending(record_names(history)),
        record_names(history).contains(name),
    ensures
        strictly_ascending(record_names(without_record(history, name))),
        record_names(without_record(history, name)).to_set() == record_names(
            history,
        ).to_set().remove(name),
        without_record(history, name).len() == history.len() - 1,
{
    let names = record_names(history);
    let at = rank(names, name);
    lemma_rank_of_member(names, name);
    lemma_remove_keeps_ascending(names, at);
    lemma_ascending_no_duplicates(names);
    let after = record_names(without_record(history, name));
    assert(after =~= names.remove(at));
    assert forall|y: Seq<char>| after.to_set().contains(y) <==> names.to_set().remove(
        name,
    ).contains(y) by {
        lemma_remove_contains(names, at, y);
    }
    assert(after.to_set() =~= names.to_set().remove(name));
}

/// The store of history records.
pub struct HistoryStore {
    created: bool,
    table: NameTable<i64>,
}

impl HistoryStore {
    /// The records, in ascending name order.
    pub closed spec fn view(&self) -> Seq<RecordView> {
        Seq::new(
            self.table@.len(),
            |i: int| RecordView { name: self.table@[i].0, applied_at: self.table@[i].1 },
        )
    }

    /// Whether the backing table has been created.
    pub closed spec fn created(&self) -> bool {
        self.created
    }

    /// The recorded names, in ascending order.
    pub open spec fn names(&self) -> Seq<Seq<char>> {
        record_names(self@)
    }

    /// The set of names that are recorded as applied.
    pub open spec fn applied(&self) -> Set<Seq<char>> {
        self.names().to_set()
    }

    /// The store is well formed: recorded names stand in strictly ascending
    /// order, and a store that was never created holds nothing.
    pub open spec fn wf(&self) -> bool {
        &&& strictly_ascending(self.names())
        &&& !self.created() ==> self@.len() == 0
    }

    proof fn lemma_names_are_table_names(&self)
        ensures
            self.names() == self.table.names(),
            strictly_ascending(self.names()) == self.table.wf(),
    {
        assert(self.names() =~= self.table.names());
    }

    /// A store whose backing table does not exist yet.
    pub fn new() -> (store: HistoryStore)
        ensures
            store.wf(),
            !store.created(),
            store@ == Seq::<RecordView>::empty(),
    {
        let store = HistoryStore { created: false, table: NameTable::new() };
        proof {
            store.lemma_names_are_table_names();
            assert(store@ =~= Seq::<RecordView>::empty());
        }
        store
    }

    /// Creates the backing table if it is absent. Records are untouched, so a
    /// second call changes nothing.
    pub fn ensure_created(&mut self)
        requires
            old(self).wf(),
        ensures
            final(self).wf(),
            final(self).created(),
            final(self)@ == old(self)@,
    {
        self.created = true;
    }

    /// Whether the backing table has been created.
    pub fn is_created(&self) -> (c: bool)
        ensures
            c == self.created(),
    {
        self.created
    }

    /// The number of records.
    pub fn len(&self) -> (n: usize)
        ensures
            n == self@.len(),
    {
        self.table.len()
    }

    /// The name of the record at place `i` of the name order.
    pub fn name_at(&self, i: usize) -> (name: &String)
        requires
            i < self@.len(),
        ensures
            name@ == self.names()[i as int],
    {
        self.table.name_at(i)
    }

    /// Whether `name` is recorded as applied.
    pub fn is_applied(&self, name: &str) -> (found: bool)
        requires
            self.wf(),
        ensures
            found == self.names().contains(name@),
            found == self.applied().contains(name@),
    {
        proof {
            self.lemma_names_are_table_names();
        }
        self.table.contains(name)
    }

    /// All records, sorted by name ascending.
    pub fn list_applied(&self) -> (records: Vec<HistoryRecord>)
        requires
            self.wf(),
        ensures
            record_views(records@) == self@,
            strictly_ascending(record_names(record_views(records@))),
    {
        let n: usize = self.table.len();
        let mut records: Vec<HistoryRecord> = Vec::new();
        let mut i: usize = 0;
        while i < n
            invariant
                n == self@.len(),
                i <= n,
                records@.len() == i,
                forall|k: int| 0 <= k < i ==> (#[trigger] records@[k])@ == self@[k],
            decreases n - i,
        {
            records.push(
                HistoryRecord {
                    name: self.table.name_at(i).clone(),
                    applied_at: self.table.value_at(i),
                },
            );
            i = i + 1;
        }
        assert(record_views(records@) =~= self@);
        records
    }

    /// Records `name` as applied at `applied_at`, creating the backing table
    /// on demand. Fails with `DuplicateApplication`, and changes nothing, if
    /// the name is already recorded.
    pub fn record_applied(&mut self, name: &str, applied_at: i64) -> (r: Result<
        (),
        MigrationError,
    >)
        requires
            old(self).wf(),
        ensures
            final(self).wf(),
            r is Err <==> old(self).names().contains(name@),
            r matches Err(e) ==> {
                &&& e@ == ErrorView::DuplicateApplication(name@)
                &&& final(self)@ == old(self)@
                &&& final(self).created() == old(self).created()
            },
            r is Ok ==> {
                &&& final(self).created()
                &&& final(self)@ == with_record(old(self)@, RecordView { name: name@, applied_at })
                &&& final(self)@.len() == old(self)@.len() + 1
                &&& final(self).applied() == old(self).applied().insert(name@)
            },
    {
        proof {
            self.lemma_names_are_table_names();
        }
        let ghost before = self@;
        let ghost before_names = self.names();
        let ghost at = rank(before_names, name@);
        let inserted: bool = self.table.insert(String::from_str(name), applied_at);
        proof {
            self.lemma_names_are_table_names();
        }
        if !inserted {
            assert(self@ =~= before);
            return Err(MigrationError::DuplicateApplication(String::from_str(name)));
        }
        self.created = true;
        proof {
            self.lemma_names_are_table_names();
            lemma_rank_boundary(before_names, name@);
            assert(self@ =~= with_record(before, RecordView { name: name@, applied_at }));
            lemma_with_record(before, RecordView { name: name@, applied_at });
        }
        Ok(())
    }

    /// Takes out the record of `name`. Fails with `NotApplied`, and changes
    /// nothing, if there is no such record.
    pub fn record_reverted(&mut self, name: &str) -> (r: Result<(), MigrationError>)
        requires
            old(self).wf(),
        ensures
            final(self).wf(),
            final(self).created() == old(self).created(),
            r is Err <==> !old(self).names().contains(name@),
            r matches Err(e) ==> {
                &&& e@ == ErrorView::NotApplied(name@)
                &&& final(self)@ == old(self)@
            },
            r is Ok ==> {
                &&& final(self)@ == without_record(old(self)@, name@)
                &&& final(self)@.len() == old(self)@.len() - 1
                &&& final(self).applied() == old(self).applied().remove(name@)
            },
    {
        proof {
            self.lemma_names_are_table_names();
        }
        let ghost before = self@;
        let ghost before_names = self.names();
        let ghost at = rank(before_names, name@);
        let removed: Option<i64> = self.table.remove(name);
        proof {
            self.lemma_names_are_table_names();
        }
        if removed.is_none() {
            assert(self@ =~= before);
            return Err(MigrationError::NotApplied(String::from_str(name)));
        }
        proof {
            assert(self@ =~= without_record(before, name@));
            lemma_without_record(before, name@);
        }
        Ok(())
    }
}

} // verus!
