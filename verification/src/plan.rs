//! Plans: which units an operation runs, in which direction and order.
//!
//! A plan is computed from the catalogue and the history as they are when an
//! operation begins, and is used for that one operation only.

use crate::history::HistoryStore;
use crate::name::{
    lemma_ascending_no_duplicates, lemma_lt_irreflexive, name_lt, strictly_ascending,
};
use crate::registry::Registry;
use vstd::prelude::*;

verus! {

/// The direction in which a unit runs.
#[derive(Clone, Copy, Debug, PartialEq, Eq, Structural)]
pub enum Direction {
    /// Apply the forward change.
    Up,
    /// Apply the backward change.
    Down,
}

/// One step of a plan: a unit, by name, and the direction to run it in.
#[derive(Debug, PartialEq, Eq)]
pub struct PlanStep {
    pub name: String,
    pub direction: Direction,
}

/// A step as contracts speak of it.
pub struct StepView {
    pub name: Seq<char>,
    pub direction: Direction,
}

impl View for PlanStep {
    type V = StepView;

    open spec fn view(&self) -> StepView {
        StepView { name: self.name@, direction: self.direction }
    }
}

/// The ordered steps of one operation.
#[derive(Debug, PartialEq, Eq)]
pub struct MigrationPlan {
    pub steps: Vec<PlanStep>,
}

impl View for MigrationPlan {
    type V = Seq<StepView>;

    open spec fn view(&self) -> Seq<StepView> {
        Seq::new(self.steps@.len(), |i: int| self.steps@[i]@)
    }
}

/// The test "is in `set`".
pub open spec fn is_in(set: Set<Seq<char>>) -> spec_fn(Seq<char>) -> bool {
    |n: Seq<char>| set.contains(n)
}

/// The test "is not in `set`".
pub open spec fn not_in(set: Set<Seq<char>>) -> spec_fn(Seq<char>) -> bool {
    |n: Seq<char>| !set.contains(n)
}

/// The catalogue's units that are not applied, in catalogue order.
pub open spec fn pending(catalogue: Seq<Seq<char>>, applied: Set<Seq<char>>) -> Seq<Seq<char>> {
    catalogue.filter(not_in(applied))
}

/// The catalogue's units that are applied, in catalogue order.
pub open spec fn applied_units(catalogue: Seq<Seq<char>>, applied: Set<Seq<char>>) -> Seq<
    Seq<char>,
> {
    catalogue.filter(is_in(applied))
}

/// The first `limit` of `names`, or all of them if there are no more.
pub open spec fn at_most(names: Seq<Seq<char>>, limit: nat) -> Seq<Seq<char>> {
    if limit < names.len() {
        names.take(limit as int)
    } else {
        names
    }
}

/// The names that `Up` runs: the pending units in ascending name order, cut
/// to `limit` if one is given.
pub open spec fn up_names(
    catalogue: Seq<Seq<char>>,
    applied: Set<Seq<char>>,
    limit: Option<u32>,
) -> Seq<Seq<char>> {
    match limit {
        None => pending(catalogue, applied),
        Some(k) => at_most(pending(catalogue, applied), k as nat),
    }
}

/// The names that `Down` runs: the last `limit` applied units, the last by
/// name first.
pub open spec fn down_names(
    catalogue: Seq<Seq<char>>,
    applied: Set<Seq<char>>,
    limit: nat,
) -> Seq<Seq<char>> {
    at_most(applied_units(catalogue, applied).reverse(), limit)
}

/// The names that `Reset` runs: `Down` with the number of applied units as
/// its limit, so every applied unit, the last by name first.
pub open spec fn reset_names(catalogue: Seq<Seq<char>>, applied: Set<Seq<char>>) -> Seq<
    Seq<char>,
> {
    down_names(catalogue, applied, applied_units(catalogue, applied).len())
}

/// The steps that run `names` in order, all in `direction`.
pub open spec fn steps_of(names: Seq<Seq<char>>, direction: Direction) -> Seq<StepView> {
    Seq::new(names.len(), |i: int| StepView { name: names[i], direction })
}

/// The names of a sequence of steps, in the same order.
pub open spec fn step_names(steps: Seq<StepView>) -> Seq<Seq<char>> {
    Seq::new(steps.len(), |i: int| steps[i].name)
}

/// Every name stands strictly after all names that follow it in `names`.
pub open spec fn strictly_descending(names: Seq<Seq<char>>) -> bool {
    forall|i: int, j: int|
        0 <= i < j < names.len() ==> name_lt(#[trigger] names[j], #[trigger] names[i])
}

/// Filtering the first `i + 1` items is filtering the first `i` and then
/// judging the next.
pub proof fn lemma_filter_next<T>(s: Seq<T>, test: spec_fn(T) -> bool, i: int)
    requires
        0 <= i < s.len(),
    ensures
        s.take(i + 1).filter(test) == if test(s[i]) {
            s.take(i).filter(test).push(s[i])
        } else {
            s.take(i).filter(test)
        },
{
    assert(s.take(i + 1) =~= s.take(i).push(s[i]));
    s.take(i).lemma_filter_push(s[i], test);
}

/// Filtering from item `i - 1` on is judging that item and then filtering
/// from item `i` on.
pub proof fn lemma_filter_previous<T>(s: Seq<T>, test: spec_fn(T) -> bool, i: int)
    requires
        0 < i <= s.len(),
    ensures
        s.skip(i - 1).filter(test) == (if test(s[i - 1]) {
            seq![s[i - 1]]
        } else {
            Seq::<T>::empty()
        }) + s.skip(i).filter(test),
{
    assert(s.skip(i - 1) =~= seq![s[i - 1]] + s.skip(i));
    s.skip(i).lemma_filter_prepend(s[i - 1], test);
}

/// A filtered sequence is the filtered front followed by the filtered back.
pub proof fn lemma_filter_split<T>(s: Seq<T>, test: spec_fn(T) -> bool, i: int)
    requires
        0 <= i <= s.len(),
    ensures
        s.filter(test) == s.take(i).filter(test) + s.skip(i).filter(test),
{
    assert(s =~= s.take(i) + s.skip(i));
    Seq::filter_distributes_over_add(s.take(i), s.skip(i), test);
}

/// What a filter keeps of an ascending sequence is ascending, passes the
/// test, and comes from the sequence.
pub proof fn lemma_filter_ascending(names: Seq<Seq<char>>, test: spec_fn(Seq<char>) -> bool)
    requires
        strictly_ascending(names),
    ensures
        strictly_ascending(names.filter(test)),
        forall|i: int|
            0 <= i < names.filter(test).len() ==> test(#[trigger] names.filter(test)[i])
                && names.contains(names.filter(test)[i]),
        forall|i: int|
            0 <= i < names.len() && test(names[i]) ==> names.filter(test).contains(
                #[trigger] names[i],
            ),
    decreases names.len(),
{
    reveal(Seq::filter);
    if names.len() > 0 {
        let front = names.drop_last();
        let last = names.last();
        assert forall|i: int, j: int| 0 <= i < j < front.len() implies name_lt(
            #[trigger] front[i],
            #[trigger] front[j],
        ) by {
            assert(front[i] == names[i] && front[j] == names[j]);
        }
        lemma_filter_ascending(front, test);
        let kept = front.filter(test);
        let out = names.filter(test);
        assert forall|i: int| 0 <= i < out.len() implies test(#[trigger] out[i]) && names.contains(
            out[i],
        ) by {
            if i < kept.len() {
                assert(out[i] == kept[i]);
                let k = choose|k: int| 0 <= k < front.len() && front[k] == kept[i];
                assert(names[k] == out[i]);
            } else {
                assert(names[names.len() - 1] == out[i]);
            }
        }
        assert forall|i: int, j: int| 0 <= i < j < out.len() implies name_lt(
            #[trigger] out[i],
            #[trigger] out[j],
        ) by {
            if j < kept.len() {
                assert(out[i] == kept[i] && out[j] == kept[j]);
            } else {
                assert(out[i] == kept[i]);
                let k = choose|k: int| 0 <= k < front.len() && front[k] == kept[i];
                assert(name_lt(names[k], names[names.len() - 1]));
            }
        }
        assert forall|i: int| 0 <= i < names.len() && test(names[i]) implies out.contains(
            #[trigger] names[i],
        ) by {
            if i < front.len() {
                assert(front[i] == names[i]);
                let k = choose|k: int| 0 <= k < kept.len() && kept[k] == front[i];
                assert(out[k] == names[i]);
            } else {
                assert(out[out.len() - 1] == names[i]);
            }
        }
    }
}

/// A strictly descending sequence holds no name twice.
pub proof fn lemma_descending_no_duplicates(names: Seq<Seq<char>>)
    requires
        strictly_descending(names),
    ensures
        names.no_duplicates(),
{
    assert forall|i: int, j: int|
        0 <= i < names.len() && 0 <= j < names.len() && i != j implies names[i] != names[j] by {
        lemma_lt_irreflexive(names[i]);
        if i < j {
            assert(name_lt(names[j], names[i]));
        } else {
            assert(name_lt(names[i], names[j]));
        }
    }
}

/// `Up` runs pending units only, each once, in strictly ascending name order.
pub proof fn lemma_up_names(catalogue: Seq<Seq<char>>, applied: Set<Seq<char>>, limit: Option<u32>)
    requires
        strictly_ascending(catalogue),
    ensures
        strictly_ascending(up_names(catalogue, applied, limit)),
        up_names(catalogue, applied, limit).no_duplicates(),
        forall|i: int|
            0 <= i < up_names(catalogue, applied, limit).len() ==> !applied.contains(
                #[trigger] up_names(catalogue, applied, limit)[i],
            ) && catalogue.contains(up_names(catalogue, applied, limit)[i]),
{
    let all = pending(catalogue, applied);
    let names = up_names(catalogue, applied, limit);
    lemma_filter_ascending(catalogue, not_in(applied));
    assert forall|i: int| 0 <= i < names.len() implies names[i] == all[i] by {}
    assert forall|i: int, j: int| 0 <= i < j < names.len() implies name_lt(
        #[trigger] names[i],
        #[trigger] names[j],
    ) by {
        assert(names[i] == all[i] && names[j] == all[j]);
    }
    lemma_ascending_no_duplicates(names);
    assert forall|i: int| 0 <= i < names.len() implies !applied.contains(#[trigger] names[i])
        && catalogue.contains(names[i]) by {
        assert(names[i] == all[i]);
        assert(not_in(applied)(all[i]));
    }
}

/// `Down` runs applied units only, each once, in strictly descending name
/// order.
pub proof fn lemma_down_names(catalogue: Seq<Seq<char>>, applied: Set<Seq<char>>, limit: nat)
    requires
        strictly_ascending(catalogue),
    ensures
        strictly_descending(down_names(catalogue, applied, limit)),
        down_names(catalogue, applied, limit).no_duplicates(),
        forall|i: int|
            0 <= i < down_names(catalogue, applied, limit).len() ==> applied.contains(
                #[trigger] down_names(catalogue, applied, limit)[i],
            ) && catalogue.contains(down_names(catalogue, applied, limit)[i]),
{
    let kept = applied_units(catalogue, applied);
    let all = kept.reverse();
    let names = down_names(catalogue, applied, limit);
    lemma_filter_ascending(catalogue, is_in(applied));
    assert forall|i: int| 0 <= i < names.len() implies names[i] == kept[kept.len() - 1 - i] by {
        assert(names[i] == all[i]);
    }
    assert forall|i: int, j: int| 0 <= i < j < names.len() implies name_lt(
        #[trigger] names[j],
        #[trigger] names[i],
    ) by {
        assert(names[i] == kept[kept.len() - 1 - i] && names[j] == kept[kept.len() - 1 - j]);
    }
    lemma_descending_no_duplicates(names);
    assert forall|i: int| 0 <= i < names.len() implies applied.contains(#[trigger] names[i])
        && catalogue.contains(names[i]) by {
        assert(names[i] == kept[kept.len() - 1 - i]);
        assert(is_in(applied)(kept[kept.len() - 1 - i]));
    }
}

/// The plan of `Up`: the pending units in ascending name order, cut to
/// `limit` if one is given.
pub fn plan_up(registry: &Registry, store: &HistoryStore, limit: Option<u32>) -> (plan:
    MigrationPlan)
    requires
        registry.wf(),
        store.wf(),
    ensures
        plan@ == steps_of(up_names(registry.names(), store.applied(), limit), Direction::Up),
{
    let ghost catalogue = registry.names();
    let ghost applied = store.applied();
    let n: usize = registry.len();
    let cap: usize = match limit {
        None => n,
        Some(k) => if (k as usize) < n {
            k as usize
        } else {
            n
        },
    };
    let mut steps: Vec<PlanStep> = Vec::new();
    let mut i: usize = 0;
    assert(catalogue.take(0).filter(not_in(applied)) =~= Seq::<Seq<char>>::empty()) by {
        reveal(Seq::filter);
    }
    while i < n && steps.len() < cap
        invariant
            registry.wf(),
            store.wf(),
            catalogue == registry.names(),
            applied == store.applied(),
            n == catalogue.len(),
            i <= n,
            steps@.len() <= cap,
            steps@.len() <= i,
            Seq::new(steps@.len(), |k: int| steps@[k]@) == steps_of(
                pending(catalogue.take(i as int), applied),
                Direction::Up,
            ),
        decreases n - i,
    {
        let name: &String = registry.name_at(i);
        proof {
            lemma_filter_next(catalogue, not_in(applied), i as int);
        }
        let ghost before = steps@;
        if !store.is_applied(name.as_str()) {
            steps.push(PlanStep { name: name.clone(), direction: Direction::Up });
            assert(Seq::new(steps@.len(), |k: int| steps@[k]@) =~= Seq::new(
                before.len(),
                |k: int| before[k]@,
            ).push(StepView { name: catalogue[i as int], direction: Direction::Up }));
        }
        assert(Seq::new(steps@.len(), |k: int| steps@[k]@) =~= steps_of(
            pending(catalogue.take(i + 1), applied),
            Direction::Up,
        ));
        i = i + 1;
    }
    proof {
        let all = pending(catalogue, applied);
        let head = pending(catalogue.take(i as int), applied);
        let tail = catalogue.skip(i as int).filter(not_in(applied));
        lemma_filter_split(catalogue, not_in(applied), i as int);
        catalogue.lemma_filter_len(not_in(applied));
        if i == n {
            assert(catalogue.skip(n as int) =~= Seq::<Seq<char>>::empty());
            assert(tail =~= Seq::<Seq<char>>::empty()) by {
                reveal(Seq::filter);
            }
            assert(all =~= head);
        } else {
            assert(head.len() == cap);
            assert(all.take(cap as int) =~= head);
        }
        assert(up_names(catalogue, applied, limit) =~= head);
    }
    MigrationPlan { steps }
}

/// The plan that reverts the last `limit` applied units, the last by name
/// first; all applied units if there are no more than `limit`.
pub fn plan_down_within(registry: &Registry, store: &HistoryStore, limit: usize) -> (plan:
    MigrationPlan)
    requires
        registry.wf(),
        store.wf(),
    ensures
        plan@ == steps_of(
            down_names(registry.names(), store.applied(), limit as nat),
            Direction::Down,
        ),
{
    let ghost catalogue = registry.names();
    let ghost applied = store.applied();
    let n: usize = registry.len();
    let mut steps: Vec<PlanStep> = Vec::new();
    let mut i: usize = n;
    assert(catalogue.skip(n as int).filter(is_in(applied)) =~= Seq::<Seq<char>>::empty()) by {
        reveal(Seq::filter);
        assert(catalogue.skip(n as int) =~= Seq::<Seq<char>>::empty());
    }
    while i > 0 && steps.len() < limit
        invariant
            registry.wf(),
            store.wf(),
            catalogue == registry.names(),
            applied == store.applied(),
            n == catalogue.len(),
            i <= n,
            steps@.len() <= limit,
            Seq::new(steps@.len(), |k: int| steps@[k]@) == steps_of(
                catalogue.skip(i as int).filter(is_in(applied)).reverse(),
                Direction::Down,
            ),
        decreases i,
    {
        let name: &String = registry.name_at(i - 1);
        proof {
            lemma_filter_previous(catalogue, is_in(applied), i as int);
        }
        let ghost before = steps@;
        let ghost kept = catalogue.skip(i as int).filter(is_in(applied));
        if store.is_applied(name.as_str()) {
            steps.push(PlanStep { name: name.clone(), direction: Direction::Down });
            assert(Seq::new(steps@.len(), |k: int| steps@[k]@) =~= Seq::new(
                before.len(),
                |k: int| before[k]@,
            ).push(StepView { name: catalogue[i - 1], direction: Direction::Down }));
            assert((seq![catalogue[i - 1]] + kept).reverse() =~= kept.reverse().push(
                catalogue[i - 1],
            ));
        } else {
            assert(Seq::<Seq<char>>::empty() + kept =~= kept);
        }
        assert(Seq::new(steps@.len(), |k: int| steps@[k]@) =~= steps_of(
            catalogue.skip(i - 1).filter(is_in(applied)).reverse(),
            Direction::Down,
        ));
        i = i - 1;
    }
    proof {
        let all = applied_units(catalogue, applied);
        let head = catalogue.take(i as int).filter(is_in(applied));
        let tail = catalogue.skip(i as int).filter(is_in(applied));
        lemma_filter_split(catalogue, is_in(applied), i as int);
        if i == 0 {
            assert(catalogue.take(0) =~= Seq::<Seq<char>>::empty());
            assert(head =~= Seq::<Seq<char>>::empty()) by {
                reveal(Seq::filter);
            }
            assert(all =~= tail);
        } else {
            assert(tail.len() == limit);
            assert(all.reverse().take(limit as int) =~= tail.reverse());
        }
        assert(down_names(catalogue, applied, limit as nat) =~= tail.reverse());
    }
    MigrationPlan { steps }
}

/// The plan of `Down`: the last `limit` applied units, the last by name
/// first. A limit beyond the number of applied units reverts them all.
pub fn plan_down(registry: &Registry, store: &HistoryStore, limit: u32) -> (plan: MigrationPlan)
    requires
        registry.wf(),
        store.wf(),
    ensures
        plan@ == steps_of(
            down_names(registry.names(), store.applied(), limit as nat),
            Direction::Down,
        ),
{
    plan_down_within(registry, store, limit as usize)
}

/// The plan of `Reset`: every applied unit, the last by name first.
pub fn plan_reset(registry: &Registry, store: &HistoryStore) -> (plan: MigrationPlan)
    requires
        registry.wf(),
        store.wf(),
    ensures
        plan@ == steps_of(reset_names(registry.names(), store.applied()), Direction::Down),
{
    proof {
        registry.names().lemma_filter_len(is_in(store.applied()));
    }
    plan_down_within(registry, store, registry.len())
}

} // verus!
