//! Status: for every unit of the catalogue whether it is applied, and which
//! history records belong to no unit.

use crate::history::HistoryStore;
use crate::plan::{lemma_filter_next, not_in};
use crate::registry::Registry;
use crate::name::texts;
use vstd::prelude::*;

verus! {

/// Whether a unit of the catalogue is applied.
#[derive(Clone, Copy, Debug, PartialEq, Eq, Structural)]
pub enum UnitState {
    /// The history records the unit.
    Applied,
    /// The history does not record the unit.
    Pending,
}

/// The state of one unit of the catalogue.
#[derive(Debug, PartialEq, Eq)]
pub struct UnitStatus {
    pub name: String,
    pub state: UnitState,
}

/// What `Status` reports.
#[derive(Debug, PartialEq, Eq)]
pub struct StatusReport {
    /// Every unit of the catalogue with its state, in catalogue order.
    pub units: Vec<UnitStatus>,
    /// The recorded names that belong to no unit, in ascending order.
    pub orphans: Vec<String>,
}

/// A status report as contracts speak of it.
pub struct StatusView {
    pub units: Seq<(Seq<char>, UnitState)>,
    pub orphans: Seq<Seq<char>>,
}

impl View for StatusReport {
    type V = StatusView;

    open spec fn view(&self) -> StatusView {
        StatusView {
            units: Seq::new(
                self.units@.len(),
                |i: int| (self.units@[i].name@, self.units@[i].state),
            ),
            orphans: texts(self.orphans@),
        }
    }
}

/// The state of the unit `name` when `applied` are the recorded names.
pub open spec fn state_of(name: Seq<char>, applied: Set<Seq<char>>) -> UnitState {
    if applied.contains(name) {
        UnitState::Applied
    } else {
        UnitState::Pending
    }
}

/// The recorded names that belong to no unit of the catalogue, in the order
/// of the history.
pub open spec fn orphans(catalogue: Seq<Seq<char>>, history: Seq<Seq<char>>) -> Seq<Seq<char>> {
    history.filter(not_in(catalogue.to_set()))
}

/// The status of a catalogue against the recorded names.
pub open spec fn status_of(catalogue: Seq<Seq<char>>, history: Seq<Seq<char>>) -> StatusView {
    StatusView {
        units: Seq::new(
            catalogue.len(),
            |i: int| (catalogue[i], state_of(catalogue[i], history.to_set())),
        ),
        orphans: orphans(catalogue, history),
    }
}

/// The test "is in state `state`".
pub open spec fn in_state(state: UnitState) -> spec_fn((Seq<char>, UnitState)) -> bool {
    |u: (Seq<char>, UnitState)| u.1 == state
}

impl StatusView {
    /// The number of units in `state`.
    pub open spec fn count(self, state: UnitState) -> nat {
        self.units.filter(in_state(state)).len()
    }
}

impl StatusReport {
    /// The number of units in `state`.
    pub fn count(&self, state: UnitState) -> (n: usize)
        ensures
            n == self@.count(state),
    {
        let ghost units = self@.units;
        let total: usize = self.units.len();
        let mut n: usize = 0;
        let mut i: usize = 0;
        assert(units.take(0).filter(in_state(state)) =~= Seq::<(Seq<char>, UnitState)>::empty())
            by {
            reveal(Seq::filter);
        }
        while i < total
            invariant
                units == self@.units,
                total == units.len(),
                i <= total,
                n <= i,
                n == units.take(i as int).filter(in_state(state)).len(),
            decreases total - i,
        {
            proof {
                lemma_filter_next(units, in_state(state), i as int);
            }
            let here: UnitState = self.units[i].state;
            match (here, state) {
                (UnitState::Applied, UnitState::Applied) => {
                    n = n + 1;
                },
                (UnitState::Pending, UnitState::Pending) => {
                    n = n + 1;
                },
                _ => {},
            }
            i = i + 1;
        }
        assert(units.take(total as int) =~= units);
        n
    }

    /// The number of applied units.
    pub fn applied_count(&self) -> (n: usize)
        ensures
            n == self@.count(UnitState::Applied),
    {
        self.count(UnitState::Applied)
    }

    /// The number of pending units.
    pub fn pending_count(&self) -> (n: usize)
        ensures
            n == self@.count(UnitState::Pending),
    {
        self.count(UnitState::Pending)
    }

    /// The number of orphans.
    pub fn orphan_count(&self) -> (n: usize)
        ensures
            n == self@.orphans.len(),
    {
        self.orphans.len()
    }
}

/// Reports, for each unit in catalogue order, whether it is applied or
/// pending, and the recorded names that belong to no unit. Reads only.
pub fn status(registry: &Registry, store: &HistoryStore) -> (report: StatusReport)
    requires
        registry.wf(),
        store.wf(),
    ensures
        report@ == status_of(registry.names(), store.names()),
{
    let ghost catalogue = registry.names();
    let ghost history = store.names();
    let n: usize = registry.len();
    let mut units: Vec<UnitStatus> = Vec::new();
    let mut i: usize = 0;
    while i < n
        invariant
            registry.wf(),
            store.wf(),
            catalogue == registry.names(),
            history == store.names(),
            n == catalogue.len(),
            i <= n,
            units@.len() == i,
            forall|k: int|
                0 <= k < i ==> (#[trigger] units@[k]).name@ == catalogue[k] && units@[k].state
                    == state_of(catalogue[k], history.to_set()),
        decreases n - i,
    {
        let name: &String = registry.name_at(i);
        let state: UnitState = if store.is_applied(name.as_str()) {
            UnitState::Applied
        } else {
            UnitState::Pending
        };
        units.push(UnitStatus { name: name.clone(), state });
        i = i + 1;
    }
    let m: usize = store.len();
    let mut found: Vec<String> = Vec::new();
    let mut j: usize = 0;
    let ghost strangers = not_in(catalogue.to_set());
    assert(history.take(0).filter(strangers) =~= Seq::<Seq<char>>::empty()) by {
        reveal(Seq::filter);
    }
    while j < m
        invariant
            registry.wf(),
            store.wf(),
            catalogue == registry.names(),
            history == store.names(),
            strangers == not_in(catalogue.to_set()),
            m == history.len(),
            j <= m,
            texts(found@) == history.take(j as int).filter(strangers),
        decreases m - j,
    {
        let name: &String = store.name_at(j);
        proof {
            lemma_filter_next(history, strangers, j as int);
        }
        let ghost before = found@;
        if !registry.contains(name.as_str()) {
            found.push(name.clone());
            assert(texts(found@) =~= texts(before).push(history[j as int]));
        }
        j = j + 1;
    }
    assert(history.take(m as int) =~= history);
    let report = StatusReport { units, orphans: found };
    assert(report@.units =~= status_of(catalogue, history).units);
    report
}

} // verus!
