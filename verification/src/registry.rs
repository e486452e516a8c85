//! The catalogue of migration units.
//!
//! A catalogue is built once from the names of the units that a caller
//! supplies, in any order. It holds them in ascending name order, refuses a
//! name that occurs twice, and never changes afterwards. What a unit does when
//! it runs stays with the caller: the catalogue remembers for each unit the
//! place it had in the supplied list, so that the caller finds it again.

use crate::error::{ErrorView, MigrationError};
use crate::name::{first_repeat, strictly_ascending, texts};
use crate::table::{lemma_insert_contains, names_of, rank, NameTable};
use vstd::prelude::*;
use vstd::string::*;

verus! {

/// One schema change: its name, and its place in the list that the catalogue
/// was built from.
#[derive(Debug, PartialEq, Eq)]
pub struct MigrationUnit {
    pub name: String,
    pub slot: usize,
}

/// A unit as contracts speak of it.
pub struct UnitView {
    pub name: Seq<char>,
    pub slot: usize,
}

impl View for MigrationUnit {
    type V = UnitView;

    open spec fn view(&self) -> UnitView {
        UnitView { name: self.name@, slot: self.slot }
    }
}

/// The names of a sequence of units, in the same order.
pub open spec fn unit_names(units: Seq<UnitView>) -> Seq<Seq<char>> {
    Seq::new(units.len(), |i: int| units[i].name)
}

/// The ordered catalogue of migration units.
pub struct Registry {
    table: NameTable<usize>,
}

impl Registry {
    /// The units in catalogue order.
    pub closed spec fn view(&self) -> Seq<UnitView> {
        Seq::new(
            self.table@.len(),
            |i: int| UnitView { name: self.table@[i].0, slot: self.table@[i].1 },
        )
    }

    /// The names of the units in catalogue order.
    pub open spec fn names(&self) -> Seq<Seq<char>> {
        unit_names(self@)
    }

    /// The catalogue is well formed: its names stand in strictly ascending
    /// order, so no two units share a name.
    pub open spec fn wf(&self) -> bool {
        strictly_ascending(self.names())
    }

    proof fn lemma_names_are_table_names(&self)
        ensures
            self.names() == self.table.names(),
            self.wf() == self.table.wf(),
    {
        assert(self.names() =~= self.table.names());
    }

    /// Builds the catalogue from the names of the supplied units. Fails with
    /// `DuplicateName` if a name occurs twice, naming the first that repeats.
    pub fn new(names: Vec<String>) -> (r: Result<Registry, MigrationError>)
        ensures
            r is Ok <==> texts(names@).no_duplicates(),
            r matches Ok(reg) ==> {
                &&& reg.wf()
                &&& reg@.len() == names.len()
                &&& forall|k: int|
                    0 <= k < reg@.len() ==> (#[trigger] reg@[k]).slot < names.len()
                        && names[reg@[k].slot as int]@ == reg@[k].name
                &&& forall|i: int|
                    0 <= i < names.len() ==> reg.names().contains(#[trigger] texts(names@)[i])
            },
            r matches Err(e) ==> exists|j: int|
                first_repeat(texts(names@), j) && e@ == ErrorView::DuplicateName(
                    #[trigger] texts(names@)[j],
                ),
    {
        let ghost nv = texts(names@);
        let n: usize = names.len();
        let mut table: NameTable<usize> = NameTable::new();
        let mut j: usize = 0;
        assert(nv.take(0) =~= Seq::<Seq<char>>::empty());
        while j < n
            invariant
                n == names.len(),
                nv == texts(names@),
                j <= n,
                table.wf(),
                table@.len() == j,
                nv.take(j as int).no_duplicates(),
                forall|k: int|
                    0 <= k < j ==> (#[trigger] table@[k]).1 < j && nv[table@[k].1 as int]
                        == table@[k].0,
                forall|i: int| 0 <= i < j ==> table.names().contains(#[trigger] nv[i]),
            decreases n - j,
        {
            let ghost before = table@;
            let ghost at = rank(table.names(), nv[j as int]);
            let name: String = names[j].clone();
            assert(name@ == nv[j as int]);
            let inserted: bool = table.insert(name, j);
            if !inserted {
                proof {
                    let k = choose|k: int|
                        0 <= k < names_of(before).len() && names_of(before)[k] == nv[j as int];
                    let earlier = before[k].1 as int;
                    assert(nv.take(j as int)[earlier] == nv[j as int]);
                    assert(first_repeat(nv, j as int));
                    assert(nv[earlier] == nv[j as int] && earlier != j);
                }
                return Err(MigrationError::DuplicateName(names[j].clone()));
            }
            proof {
                let entry = (nv[j as int], j);
                assert(0 <= at <= before.len()) by {
                    names_of(before).lemma_filter_len(|x: Seq<char>| crate::name::name_lt(x, nv[j as int]));
                }
                assert(names_of(before.insert(at, entry)) =~= names_of(before).insert(
                    at,
                    nv[j as int],
                ));
                assert forall|k: int| 0 <= k < j + 1 implies (#[trigger] table@[k]).1 < j + 1
                    && nv[table@[k].1 as int] == table@[k].0 by {
                    if k < at {
                        assert(table@[k] == before[k]);
                    } else if k > at {
                        assert(table@[k] == before[k - 1]);
                    }
                }
                assert forall|i: int| 0 <= i < j + 1 implies table.names().contains(
                    #[trigger] nv[i],
                ) by {
                    lemma_insert_contains(names_of(before), at, nv[j as int], nv[i]);
                }
                let next = nv.take(j + 1);
                assert forall|a: int, b: int|
                    0 <= a < next.len() && 0 <= b < next.len() && a != b implies #[trigger] next[a]
                    != #[trigger] next[b] by {
                    if a < j && b < j {
                        assert(nv.take(j as int)[a] != nv.take(j as int)[b]);
                    } else if a < j {
                        assert(names_of(before).contains(nv[a]));
                    } else {
                        assert(names_of(before).contains(nv[b]));
                    }
                }
            }
            j = j + 1;
        }
        let reg = Registry { table };
        proof {
            reg.lemma_names_are_table_names();
            assert(nv.take(n as int) =~= nv);
            assert forall|k: int| 0 <= k < reg@.len() implies (#[trigger] reg@[k]).slot
                < names.len() && names[reg@[k].slot as int]@ == reg@[k].name by {
                assert(reg.table@[k].1 < j);
                assert(nv[reg.table@[k].1 as int] == reg.table@[k].0);
            }
        }
        Ok(reg)
    }

    /// The number of units.
    pub fn len(&self) -> (n: usize)
        ensures
            n == self@.len(),
    {
        self.table.len()
    }

    /// The unit at place `i` of the catalogue order.
    pub fn get(&self, i: usize) -> (unit: MigrationUnit)
        requires
            i < self@.len(),
        ensures
            unit@ == self@[i as int],
    {
        MigrationUnit { name: self.table.name_at(i).clone(), slot: self.table.value_at(i) }
    }

    /// The name of the unit at place `i` of the catalogue order.
    pub fn name_at(&self, i: usize) -> (name: &String)
        requires
            i < self@.len(),
        ensures
            name@ == self.names()[i as int],
    {
        self.table.name_at(i)
    }

    /// All units, in ascending name order.
    pub fn all(&self) -> (units: Vec<MigrationUnit>)
        ensures
            units@.len() == self@.len(),
            forall|i: int| 0 <= i < units@.len() ==> (#[trigger] units@[i])@ == self@[i],
    {
        let n: usize = self.table.len();
        let mut units: Vec<MigrationUnit> = Vec::new();
        let mut i: usize = 0;
        while i < n
            invariant
                n == self@.len(),
                i <= n,
                units@.len() == i,
                forall|k: int| 0 <= k < i ==> (#[trigger] units@[k])@ == self@[k],
            decreases n - i,
        {
            units.push(self.get(i));
            i = i + 1;
        }
        units
    }

    /// Whether the catalogue holds a unit of this name.
    pub fn contains(&self, name: &str) -> (found: bool)
        requires
            self.wf(),
        ensures
            found == self.names().contains(name@),
    {
        proof {
            self.lemma_names_are_table_names();
        }
        self.table.contains(name)
    }

    /// The unit of this name, or `NotFound` if there is none.
    pub fn find(&self, name: &str) -> (r: Result<MigrationUnit, MigrationError>)
        requires
            self.wf(),
        ensures
            r is Ok <==> self.names().contains(name@),
            r matches Ok(unit) ==> unit.name@ == name@ && self@.contains(unit@),
            r matches Err(e) ==> e@ == ErrorView::NotFound(name@),
    {
        proof {
            self.lemma_names_are_table_names();
        }
        let (at, found) = self.table.locate(name);
        if found {
            Ok(self.get(at))
        } else {
            Err(MigrationError::NotFound(String::from_str(name)))
        }
    }
}

} // verus!
