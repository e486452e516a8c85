//! Laws of the runner: what holds of whole operations, whatever the
//! catalogue and the history.
//!
//! The laws speak of the runner's state as its contracts do. An operation
//! that runs through is [`run_to_end`] of the state in which it begins; an
//! operation that is cut short is [`after_commits`] followed by a failure.

use crate::error::ErrorView;
use crate::history::{record_names, RecordView};
use crate::name::{
    lemma_ascending_no_duplicates, lemma_lt_asymmetric, lemma_lt_irreflexive, name_lt,
    strictly_ascending,
};
use crate::plan::{
    applied_units, down_names, is_in, lemma_down_names, lemma_filter_ascending, lemma_up_names,
    not_in, pending, reset_names, step_names, steps_of, strictly_descending, up_names, Direction,
    StepView,
};
use crate::runner::{
    lemma_begin_wf, lemma_committed_wf, lemma_first_plan_runnable, lemma_stepped_coherent, ActionView, EventView, FailureView, Operation, RunnerView,
};
use crate::status::{in_state, orphans, state_of, status_of, UnitState};
use vstd::prelude::*;

verus! {

/// The state once every step that is left has been committed, each at time
/// `applied_at`.
pub open spec fn run_to_end(m: RunnerView, applied_at: i64) -> RunnerView
    decreases
            (if m.reapply {
                1nat
            } else {
                0nat
            }),
            m.plan.len() - m.done,
{
    if m.done < m.plan.len() {
        run_to_end(m.committed(applied_at), applied_at)
    } else {
        m
    }
}

/// The state once the next `count` steps have been committed, each at time
/// `applied_at`.
pub open spec fn after_commits(m: RunnerView, count: nat, applied_at: i64) -> RunnerView
    decreases count,
{
    if count == 0 {
        m
    } else {
        after_commits(m.committed(applied_at), (count - 1) as nat, applied_at)
    }
}

/// The names of the steps that are left.
pub open spec fn names_left(m: RunnerView) -> Set<Seq<char>> {
    step_names(m.plan.skip(m.done as int)).to_set()
}

/// A filter that every item passes keeps the sequence as it is.
pub proof fn lemma_filter_all<T>(s: Seq<T>, test: spec_fn(T) -> bool)
    requires
        forall|i: int| 0 <= i < s.len() ==> test(#[trigger] s[i]),
    ensures
        s.filter(test) == s,
    decreases s.len(),
{
    reveal(Seq::filter);
    if s.len() > 0 {
        let front = s.drop_last();
        assert forall|i: int| 0 <= i < front.len() implies test(#[trigger] front[i]) by {
            assert(front[i] == s[i]);
        }
        lemma_filter_all(front, test);
        assert(test(s[s.len() - 1]));
        assert(front.push(s.last()) =~= s);
    } else {
        assert(s.filter(test) =~= s);
    }
}

/// A filter that no item passes keeps nothing.
pub proof fn lemma_filter_none<T>(s: Seq<T>, test: spec_fn(T) -> bool)
    requires
        forall|i: int| 0 <= i < s.len() ==> !test(#[trigger] s[i]),
    ensures
        s.filter(test) == Seq::<T>::empty(),
    decreases s.len(),
{
    reveal(Seq::filter);
    if s.len() > 0 {
        let front = s.drop_last();
        assert forall|i: int| 0 <= i < front.len() implies !test(#[trigger] front[i]) by {
            assert(front[i] == s[i]);
        }
        lemma_filter_none(front, test);
        assert(!test(s[s.len() - 1]));
    } else {
        assert(s.filter(test) =~= Seq::<T>::empty());
    }
}

/// Two ascending sequences that hold the same names are the same sequence.
pub proof fn lemma_ascending_same_set(a: Seq<Seq<char>>, b: Seq<Seq<char>>)
    requires
        strictly_ascending(a),
        strictly_ascending(b),
        a.to_set() == b.to_set(),
    ensures
        a == b,
    decreases a.len(),
{
    if a.len() == 0 {
        if b.len() > 0 {
            assert(b.to_set().contains(b[0]));
            assert(a.contains(b[0]));
        }
        assert(a =~= b);
    } else {
        let top = a[a.len() - 1];
        assert(a.to_set().contains(top));
        assert(b.contains(top));
        let k = choose|k: int| 0 <= k < b.len() && b[k] == top;
        let other = b[b.len() - 1];
        assert(b.to_set().contains(other));
        assert(a.contains(other));
        let j = choose|j: int| 0 <= j < a.len() && a[j] == other;
        if k < b.len() - 1 {
            assert(name_lt(b[k], b[b.len() - 1]));
            if j < a.len() - 1 {
                assert(name_lt(a[j], a[a.len() - 1]));
                lemma_lt_asymmetric(top, other);
            } else {
                lemma_lt_irreflexive(top);
            }
        }
        assert(other == top);
        let fa = a.drop_last();
        let fb = b.drop_last();
        assert forall|i: int, j: int| 0 <= i < j < fa.len() implies name_lt(
            #[trigger] fa[i],
            #[trigger] fa[j],
        ) by {
            assert(fa[i] == a[i] && fa[j] == a[j]);
        }
        assert forall|i: int, j: int| 0 <= i < j < fb.len() implies name_lt(
            #[trigger] fb[i],
            #[trigger] fb[j],
        ) by {
            assert(fb[i] == b[i] && fb[j] == b[j]);
        }
        lemma_lt_irreflexive(top);
        assert forall|x: Seq<char>| fa.to_set().contains(x) <==> fb.to_set().contains(x) by {
            if fa.contains(x) {
                let i = choose|i: int| 0 <= i < fa.len() && fa[i] == x;
                assert(a[i] == x);
                assert(name_lt(a[i], a[a.len() - 1]));
                assert(a.to_set().contains(x));
                assert(b.contains(x));
                let i2 = choose|i2: int| 0 <= i2 < b.len() && b[i2] == x;
                assert(i2 < b.len() - 1);
                assert(fb[i2] == x);
            }
            if fb.contains(x) {
                let i = choose|i: int| 0 <= i < fb.len() && fb[i] == x;
                assert(b[i] == x);
                assert(name_lt(b[i], b[b.len() - 1]));
                assert(b.to_set().contains(x));
                assert(a.contains(x));
                let i2 = choose|i2: int| 0 <= i2 < a.len() && a[i2] == x;
                assert(i2 < a.len() - 1);
                assert(fa[i2] == x);
            }
        }
        assert(fa.to_set() =~= fb.to_set());
        lemma_ascending_same_set(fa, fb);
        assert(a =~= fa.push(top));
        assert(b =~= fb.push(top));
    }
}

/// An operation that runs through ends in a well-formed state with no step
/// left, over the same catalogue.
pub proof fn lemma_run_to_end_wf(m: RunnerView, applied_at: i64)
    requires
        m.wf(),
    ensures
        run_to_end(m, applied_at).wf(),
        run_to_end(m, applied_at).current() is None,
        !run_to_end(m, applied_at).reapply,
        run_to_end(m, applied_at).catalogue == m.catalogue,
    decreases
            (if m.reapply {
                1nat
            } else {
                0nat
            }),
            m.plan.len() - m.done,
{
    if m.done < m.plan.len() {
        lemma_committed_wf(m, applied_at);
        lemma_run_to_end_wf(m.committed(applied_at), applied_at);
    }
}

/// Where an operation that runs through ends depends on the catalogue, the
/// history and the steps that are left, not on the steps that are behind.
pub proof fn lemma_run_to_end_frame(a: RunnerView, b: RunnerView, applied_at: i64)
    requires
        a.catalogue == b.catalogue,
        a.history == b.history,
        !a.reapply,
        !b.reapply,
        a.done <= a.plan.len(),
        b.done <= b.plan.len(),
        a.plan.skip(a.done as int) == b.plan.skip(b.done as int),
    ensures
        run_to_end(a, applied_at).history == run_to_end(b, applied_at).history,
    decreases a.plan.len() - a.done,
{
    let left_a = a.plan.skip(a.done as int);
    let left_b = b.plan.skip(b.done as int);
    assert(left_a.len() == a.plan.len() - a.done);
    assert(left_b.len() == b.plan.len() - b.done);
    if a.done < a.plan.len() {
        assert(left_a[0] == a.plan[a.done as int]);
        assert(left_b[0] == b.plan[b.done as int]);
        let a2 = a.committed(applied_at);
        let b2 = b.committed(applied_at);
        assert(a2.plan.skip(a2.done as int) =~= left_a.skip(1));
        assert(b2.plan.skip(b2.done as int) =~= left_b.skip(1));
        lemma_run_to_end_frame(a2, b2, applied_at);
    }
}

/// The names of some steps are the name of the first and the names of the
/// others.
pub proof fn lemma_step_names_first(steps: Seq<StepView>)
    requires
        steps.len() > 0,
    ensures
        step_names(steps).to_set() == step_names(steps.drop_first()).to_set().insert(
            steps[0].name,
        ),
{
    let here = step_names(steps);
    let rest = step_names(steps.drop_first());
    assert forall|x: Seq<char>| here.to_set().contains(x) <==> rest.to_set().insert(
        steps[0].name,
    ).contains(x) by {
        if here.contains(x) {
            let i = choose|i: int| 0 <= i < here.len() && here[i] == x;
            if i > 0 {
                assert(rest[i - 1] == x);
            }
        }
        if rest.contains(x) {
            let i = choose|i: int| 0 <= i < rest.len() && rest[i] == x;
            assert(here[i + 1] == x);
        }
        if x == steps[0].name {
            assert(here[0] == x);
        }
    }
    assert(here.to_set() =~= rest.to_set().insert(steps[0].name));
}

/// The names of the steps that are left are the name of the current step and
/// the names of the steps after it.
pub proof fn lemma_names_left_step(m: RunnerView)
    requires
        m.done < m.plan.len(),
    ensures
        names_left(m) == names_left(RunnerView { done: m.done + 1, ..m }).insert(
            m.plan[m.done as int].name,
        ),
{
    let left = m.plan.skip(m.done as int);
    assert(left.drop_first() =~= m.plan.skip(m.done as int + 1));
    assert(left[0] == m.plan[m.done as int]);
    lemma_step_names_first(left);
}

/// An operation whose steps left all go one way, and that runs through,
/// changes the recorded names by the names of those steps: it adds them if
/// the steps go up, and takes them out if they go down.
pub proof fn lemma_run_to_end_one_way(m: RunnerView, direction: Direction, applied_at: i64)
    requires
        m.wf(),
        !m.reapply,
        forall|i: int| m.done <= i < m.plan.len() ==> (#[trigger] m.plan[i]).direction == direction,
    ensures
        run_to_end(m, applied_at).applied() == match direction {
            Direction::Up => m.applied().union(names_left(m)),
            Direction::Down => m.applied().difference(names_left(m)),
        },
    decreases m.plan.len() - m.done,
{
    if m.done < m.plan.len() {
        let c = m.committed(applied_at);
        lemma_committed_wf(m, applied_at);
        lemma_names_left_step(m);
        assert(m.plan[m.done as int].direction == direction);
        assert(c == RunnerView { done: m.done + 1, history: c.history, ..m });
        assert(names_left(c) == names_left(RunnerView { done: m.done + 1, ..m }));
        lemma_run_to_end_one_way(c, direction, applied_at);
        match direction {
            Direction::Up => {
                assert(c.applied().union(names_left(c)) =~= m.applied().union(names_left(m)));
            },
            Direction::Down => {
                assert(c.applied().difference(names_left(c)) =~= m.applied().difference(
                    names_left(m),
                ));
            },
        }
    } else {
        assert(m.plan.skip(m.done as int) =~= Seq::<StepView>::empty());
        assert(step_names(Seq::<StepView>::empty()) =~= Seq::<Seq<char>>::empty());
        assert(names_left(m) =~= Set::<Seq<char>>::empty());
        match direction {
            Direction::Up => {
                assert(m.applied().union(names_left(m)) =~= m.applied());
            },
            Direction::Down => {
                assert(m.applied().difference(names_left(m)) =~= m.applied());
            },
        }
    }
}

/// When the recorded names are exactly the names of the catalogue, every
/// unit is applied, none is pending, and there is no orphan.
pub proof fn lemma_status_all_applied(catalogue: Seq<Seq<char>>)
    ensures
        ({
            let report = status_of(catalogue, catalogue);
            &&& report.units.len() == catalogue.len()
            &&& forall|i: int|
                0 <= i < catalogue.len() ==> #[trigger] report.units[i] == (
                    catalogue[i],
                    UnitState::Applied,
                )
            &&& report.count(UnitState::Applied) == catalogue.len()
            &&& report.count(UnitState::Pending) == 0
            &&& report.orphans.len() == 0
        }),
{
    let report = status_of(catalogue, catalogue);
    assert forall|i: int| 0 <= i < catalogue.len() implies #[trigger] report.units[i] == (
        catalogue[i],
        UnitState::Applied,
    ) by {
        assert(catalogue.contains(catalogue[i]));
    }
    lemma_filter_all(report.units, in_state(UnitState::Applied));
    lemma_filter_none(report.units, in_state(UnitState::Pending));
    assert forall|i: int| 0 <= i < catalogue.len() implies !not_in(catalogue.to_set())(
        #[trigger] catalogue[i],
    ) by {
        assert(catalogue.contains(catalogue[i]));
    }
    lemma_filter_none(catalogue, not_in(catalogue.to_set()));
}

/// `Up` without a limit on an empty history plans every unit of the
/// catalogue, in ascending name order. Once it has run through, the history
/// records exactly the units of the catalogue, and the status shows every
/// unit as applied, none as pending and no orphan.
pub proof fn law_up_applies_all(catalogue: Seq<Seq<char>>, applied_at: i64)
    requires
        strictly_ascending(catalogue),
    ensures
        ({
            let begun = RunnerView::at_rest(catalogue, Seq::empty()).begin(Operation::Up(None));
            let ended = run_to_end(begun, applied_at);
            let report = status_of(catalogue, record_names(ended.history));
            &&& begun.plan == steps_of(catalogue, Direction::Up)
            &&& begun.done == 0
            &&& ended.done == catalogue.len()
            &&& record_names(ended.history) == catalogue
            &&& forall|i: int|
                0 <= i < catalogue.len() ==> #[trigger] report.units[i] == (
                    catalogue[i],
                    UnitState::Applied,
                )
            &&& report.count(UnitState::Applied) == catalogue.len()
            &&& report.count(UnitState::Pending) == 0
            &&& report.orphans.len() == 0
        }),
{
    let rest = RunnerView::at_rest(catalogue, Seq::empty());
    let begun = rest.begin(Operation::Up(None));
    let ended = run_to_end(begun, applied_at);
    assert(record_names(Seq::<RecordView>::empty()) =~= Seq::<Seq<char>>::empty());
    assert(rest.applied() =~= Set::<Seq<char>>::empty());
    lemma_filter_all(catalogue, not_in(rest.applied()));
    assert(begun.plan =~= steps_of(catalogue, Direction::Up));
    lemma_begin_wf(rest, Operation::Up(None));
    lemma_run_to_end_wf(begun, applied_at);
    lemma_run_to_end_one_way(begun, Direction::Up, applied_at);
    assert(begun.plan.skip(0) =~= begun.plan);
    assert(step_names(begun.plan) =~= catalogue);
    assert(ended.applied() =~= catalogue.to_set());
    lemma_ascending_same_set(record_names(ended.history), catalogue);
    lemma_run_to_end_plan(begun, applied_at);
    lemma_status_all_applied(catalogue);
}

/// The steps of `Down` with a limit that is not below the number of applied
/// units are the steps of `Reset`: every applied unit, the last by name
/// first. They hold the names that are both in the catalogue and recorded.
pub proof fn lemma_down_all(catalogue: Seq<Seq<char>>, applied: Set<Seq<char>>, limit: nat)
    requires
        strictly_ascending(catalogue),
        limit >= applied_units(catalogue, applied).len(),
    ensures
        down_names(catalogue, applied, limit) == applied_units(catalogue, applied).reverse(),
        down_names(catalogue, applied, limit) == reset_names(catalogue, applied),
        down_names(catalogue, applied, limit).to_set() == catalogue.to_set().intersect(applied),
{
    let kept = applied_units(catalogue, applied);
    let names = down_names(catalogue, applied, limit);
    assert(names =~= kept.reverse());
    lemma_filter_ascending(catalogue, is_in(applied));
    assert forall|x: Seq<char>| names.to_set().contains(x) <==> catalogue.to_set().intersect(
        applied,
    ).contains(x) by {
        if names.contains(x) {
            let i = choose|i: int| 0 <= i < names.len() && names[i] == x;
            assert(names[i] == kept[kept.len() - 1 - i]);
            assert(is_in(applied)(kept[kept.len() - 1 - i]));
        }
        if catalogue.contains(x) && applied.contains(x) {
            let i = choose|i: int| 0 <= i < catalogue.len() && catalogue[i] == x;
            assert(is_in(applied)(catalogue[i]));
            assert(kept.contains(catalogue[i]));
            let k = choose|k: int| 0 <= k < kept.len() && kept[k] == x;
            assert(names[kept.len() - 1 - k] == x);
        }
    }
    assert(names.to_set() =~= catalogue.to_set().intersect(applied));
}

/// `Up` without a limit from an empty history, then `Down` with the number
/// of units as its limit: the units are reverted in exactly the reverse of
/// the order in which they were applied, and the history is empty again.
pub proof fn law_down_undoes_up(catalogue: Seq<Seq<char>>, applied_at: i64)
    requires
        strictly_ascending(catalogue),
        catalogue.len() <= u32::MAX,
    ensures
        ({
            let up = RunnerView::at_rest(catalogue, Seq::empty()).begin(Operation::Up(None));
            let applied = run_to_end(up, applied_at);
            let down = applied.begin(Operation::Down(catalogue.len() as u32));
            let reverted = run_to_end(down, applied_at);
            &&& step_names(down.plan) == step_names(up.plan).reverse()
            &&& down.plan == steps_of(catalogue.reverse(), Direction::Down)
            &&& down.done == 0
            &&& reverted.done == catalogue.len()
            &&& reverted.history == Seq::<RecordView>::empty()
        }),
{
    let up = RunnerView::at_rest(catalogue, Seq::empty()).begin(Operation::Up(None));
    let applied = run_to_end(up, applied_at);
    let limit = catalogue.len() as u32;
    let down = applied.begin(Operation::Down(limit));
    let reverted = run_to_end(down, applied_at);
    law_up_applies_all(catalogue, applied_at);
    lemma_begin_wf(RunnerView::at_rest(catalogue, Seq::empty()), Operation::Up(None));
    lemma_run_to_end_wf(up, applied_at);
    assert(applied.applied() == catalogue.to_set());
    assert forall|i: int| 0 <= i < catalogue.len() implies is_in(catalogue.to_set())(
        #[trigger] catalogue[i],
    ) by {
        assert(catalogue.contains(catalogue[i]));
    }
    lemma_filter_all(catalogue, is_in(catalogue.to_set()));
    lemma_down_all(catalogue, catalogue.to_set(), limit as nat);
    assert(down.plan =~= steps_of(catalogue.reverse(), Direction::Down));
    assert(step_names(up.plan) =~= catalogue);
    assert(step_names(down.plan) =~= catalogue.reverse());
    lemma_begin_wf(applied, Operation::Down(limit));
    lemma_run_to_end_wf(down, applied_at);
    lemma_run_to_end_one_way(down, Direction::Down, applied_at);
    lemma_run_to_end_plan(down, applied_at);
    assert(down.plan.skip(0) =~= down.plan);
    assert(reverted.applied() =~= Set::<Seq<char>>::empty());
    if reverted.history.len() > 0 {
        assert(record_names(reverted.history)[0] == reverted.history[0].name);
        assert(reverted.applied().contains(reverted.history[0].name));
    }
    assert(reverted.history =~= Seq::<RecordView>::empty());
}

/// `Down` with a limit beyond the number of applied units reverts exactly
/// the applied units, the last by name first, and runs through: what is
/// missing up to the limit is no failure. Afterwards every unit of the
/// catalogue is pending.
pub proof fn law_down_beyond_applied(
    catalogue: Seq<Seq<char>>,
    history: Seq<RecordView>,
    limit: u32,
    applied_at: i64,
)
    requires
        strictly_ascending(catalogue),
        strictly_ascending(record_names(history)),
        limit >= applied_units(catalogue, record_names(history).to_set()).len(),
    ensures
        ({
            let rest = RunnerView::at_rest(catalogue, history);
            let begun = rest.begin(Operation::Down(limit));
            let ended = run_to_end(begun, applied_at);
            &&& begun.plan == steps_of(
                applied_units(catalogue, rest.applied()).reverse(),
                Direction::Down,
            )
            &&& begun.plan == rest.begin(Operation::Reset).plan
            &&& ended.done == begun.plan.len()
            &&& ended.applied() == rest.applied().difference(catalogue.to_set())
            &&& forall|i: int|
                0 <= i < catalogue.len() ==> state_of(#[trigger] catalogue[i], ended.applied())
                    == UnitState::Pending
        }),
{
    let rest = RunnerView::at_rest(catalogue, history);
    let begun = rest.begin(Operation::Down(limit));
    let ended = run_to_end(begun, applied_at);
    lemma_down_all(catalogue, rest.applied(), limit as nat);
    lemma_begin_wf(rest, Operation::Down(limit));
    lemma_run_to_end_wf(begun, applied_at);
    lemma_run_to_end_one_way(begun, Direction::Down, applied_at);
    lemma_run_to_end_plan(begun, applied_at);
    assert(begun.plan.skip(0) =~= begun.plan);
    assert(step_names(begun.plan) =~= down_names(catalogue, rest.applied(), limit as nat));
    assert(ended.applied() =~= rest.applied().difference(catalogue.to_set()));
    assert forall|i: int| 0 <= i < catalogue.len() implies state_of(
        #[trigger] catalogue[i],
        ended.applied(),
    ) == UnitState::Pending by {
        assert(catalogue.contains(catalogue[i]));
    }
}

/// A plan that goes on with `Up` when it is exhausted ends where the same
/// plan without that ends when `Up` without a limit is begun after it.
pub proof fn lemma_going_on_is_beginning_again(s: RunnerView, applied_at: i64)
    requires
        s.coherent(),
        s.reapply,
    ensures
        run_to_end(s.settle(), applied_at).history == run_to_end(
            run_to_end(RunnerView { reapply: false, ..s }, applied_at).begin(Operation::Up(None)),
            applied_at,
        ).history,
    decreases s.plan.len() - s.done,
{
    let plain = RunnerView { reapply: false, ..s };
    if s.done == s.plan.len() {
        let a = s.settle();
        let b = plain.begin(Operation::Up(None));
        assert(run_to_end(plain, applied_at) == plain);
        assert(a.plan.skip(a.done as int) =~= b.plan.skip(b.done as int));
        lemma_run_to_end_frame(a, b, applied_at);
    } else {
        let t = s.stepped(applied_at);
        lemma_stepped_coherent(s, applied_at);
        assert(s.settle() == s);
        assert(s.committed(applied_at) == t.settle());
        assert(plain.committed(applied_at) == RunnerView { reapply: false, ..t });
        lemma_going_on_is_beginning_again(t, applied_at);
    }
}

/// `Fresh` ends in the state in which `Reset`, immediately followed by `Up`
/// without a limit, ends; and so does `Refresh`.
pub proof fn law_fresh_is_reset_then_up(m: RunnerView, applied_at: i64)
    requires
        strictly_ascending(m.catalogue),
        strictly_ascending(record_names(m.history)),
    ensures
        run_to_end(m.begin(Operation::Fresh), applied_at).history == run_to_end(
            run_to_end(m.begin(Operation::Reset), applied_at).begin(Operation::Up(None)),
            applied_at,
        ).history,
        run_to_end(m.begin(Operation::Refresh), applied_at).history == run_to_end(
            run_to_end(m.begin(Operation::Reset), applied_at).begin(Operation::Up(None)),
            applied_at,
        ).history,
{
    let s = RunnerView { plan: m.first_plan(Operation::Fresh), done: 0, reapply: true, ..m };
    lemma_first_plan_runnable(m, Operation::Fresh);
    assert(m.begin(Operation::Fresh) == s.settle());
    assert(m.begin(Operation::Refresh) == s.settle());
    assert(m.begin(Operation::Reset) == RunnerView { reapply: false, ..s });
    lemma_going_on_is_beginning_again(s, applied_at);
}

/// Committing the next `count` steps, when they all go one way and the plan
/// does not go on with `Up`, moves the plan on by `count` and changes the
/// recorded names by the names of those steps.
pub proof fn lemma_after_commits(
    m: RunnerView,
    count: nat,
    direction: Direction,
    applied_at: i64,
)
    requires
        m.wf(),
        !m.reapply,
        m.done + count <= m.plan.len(),
        forall|i: int|
            m.done <= i < m.done + count ==> (#[trigger] m.plan[i]).direction == direction,
    ensures
        ({
            let c = after_commits(m, count, applied_at);
            let names = step_names(m.plan.subrange(m.done as int, m.done as int + count)).to_set();
            &&& c.wf()
            &&& c.plan == m.plan
            &&& c.done == m.done + count
            &&& !c.reapply
            &&& c.catalogue == m.catalogue
            &&& c.applied() == match direction {
                Direction::Up => m.applied().union(names),
                Direction::Down => m.applied().difference(names),
            }
        }),
    decreases count,
{
    let steps = m.plan.subrange(m.done as int, m.done as int + count);
    let names = step_names(steps).to_set();
    if count == 0 {
        assert(step_names(steps) =~= Seq::<Seq<char>>::empty());
        assert(names =~= Set::<Seq<char>>::empty());
        match direction {
            Direction::Up => {
                assert(m.applied().union(names) =~= m.applied());
            },
            Direction::Down => {
                assert(m.applied().difference(names) =~= m.applied());
            },
        }
    } else {
        let c1 = m.committed(applied_at);
        lemma_committed_wf(m, applied_at);
        assert(m.plan[m.done as int].direction == direction);
        assert(c1 == m.stepped(applied_at));
        lemma_after_commits(c1, (count - 1) as nat, direction, applied_at);
        let rest = c1.plan.subrange(c1.done as int, c1.done + count - 1);
        assert(rest =~= steps.drop_first());
        assert(steps[0] == m.plan[m.done as int]);
        lemma_step_names_first(steps);
        let fewer = step_names(rest).to_set();
        match direction {
            Direction::Up => {
                assert(c1.applied().union(fewer) =~= m.applied().union(names));
            },
            Direction::Down => {
                assert(c1.applied().difference(fewer) =~= m.applied().difference(names));
            },
        }
    }
}

/// When the first `count` pending units have been applied, the pending units
/// are the others, in the same order.
pub proof fn lemma_pending_after_prefix(
    catalogue: Seq<Seq<char>>,
    applied: Set<Seq<char>>,
    count: int,
)
    requires
        strictly_ascending(catalogue),
        0 <= count <= pending(catalogue, applied).len(),
    ensures
        pending(
            catalogue,
            applied.union(pending(catalogue, applied).take(count).to_set()),
        ) == pending(catalogue, applied).skip(count),
{
    let all = pending(catalogue, applied);
    let more = applied.union(all.take(count).to_set());
    let now = pending(catalogue, more);
    let rest = all.skip(count);
    lemma_filter_ascending(catalogue, not_in(applied));
    lemma_filter_ascending(catalogue, not_in(more));
    lemma_ascending_no_duplicates(all);
    assert forall|i: int, j: int| 0 <= i < j < rest.len() implies name_lt(
        #[trigger] rest[i],
        #[trigger] rest[j],
    ) by {
        assert(rest[i] == all[i + count] && rest[j] == all[j + count]);
    }
    assert forall|x: Seq<char>| now.to_set().contains(x) <==> rest.to_set().contains(x) by {
        if now.contains(x) {
            let i = choose|i: int| 0 <= i < now.len() && now[i] == x;
            assert(not_in(more)(now[i]) && catalogue.contains(now[i]));
            let c = choose|c: int| 0 <= c < catalogue.len() && catalogue[c] == x;
            assert(not_in(applied)(catalogue[c]));
            assert(all.contains(catalogue[c]));
            let k = choose|k: int| 0 <= k < all.len() && all[k] == x;
            if k < count {
                assert(all.take(count)[k] == x);
                assert(all.take(count).to_set().contains(x));
            }
            assert(rest[k - count] == x);
        }
        if rest.contains(x) {
            let i = choose|i: int| 0 <= i < rest.len() && rest[i] == x;
            assert(all[i + count] == x);
            assert(not_in(applied)(all[i + count]) && catalogue.contains(all[i + count]));
            if all.take(count).contains(x) {
                let k = choose|k: int| 0 <= k < count && all.take(count)[k] == x;
                assert(all[k] == all[i + count]);
            }
            let c = choose|c: int| 0 <= c < catalogue.len() && catalogue[c] == x;
            assert(not_in(more)(catalogue[c]));
            assert(now.contains(catalogue[c]));
        }
    }
    assert(now.to_set() =~= rest.to_set());
    lemma_ascending_same_set(now, rest);
}

/// A unit that fails while `Up` runs stops the plan there. The runner
/// reports that unit, the unit committed last before it and the number of
/// steps committed. The units before it are applied and stay so; the failing
/// unit and those after it are pending. `Up` without a limit, begun again,
/// plans the units that an `Up` without a limit had left, the failed one
/// first.
pub proof fn law_failure_stops_the_plan(
    catalogue: Seq<Seq<char>>,
    history: Seq<RecordView>,
    limit: Option<u32>,
    failing: nat,
    cause: ErrorView,
    applied_at: i64,
)
    requires
        strictly_ascending(catalogue),
        strictly_ascending(record_names(history)),
        failing < RunnerView::at_rest(catalogue, history).begin(Operation::Up(limit)).plan.len(),
    ensures
        ({
            let begun = RunnerView::at_rest(catalogue, history).begin(Operation::Up(limit));
            let reached = after_commits(begun, failing, applied_at);
            let stopped = reached.advance(EventView::Failed(cause));
            &&& reached.response(EventView::Failed(cause)) == ActionView::Halt(
                FailureView {
                    unit: begun.plan[failing as int].name,
                    direction: Direction::Up,
                    cause,
                    last_committed: if failing > 0 {
                        Some(begun.plan[failing - 1].name)
                    } else {
                        None
                    },
                    committed: failing,
                },
            )
            &&& stopped.wf()
            &&& stopped.current() is None
            &&& stopped.applied() == begun.applied().union(
                step_names(begun.plan.take(failing as int)).to_set(),
            )
            &&& forall|i: int|
                0 <= i < failing ==> state_of(
                    (#[trigger] begun.plan[i]).name,
                    stopped.applied(),
                ) == UnitState::Applied
            &&& forall|i: int|
                failing <= i < begun.plan.len() ==> state_of(
                    (#[trigger] begun.plan[i]).name,
                    stopped.applied(),
                ) == UnitState::Pending
            &&& stopped.begin(Operation::Up(None)).plan == steps_of(
                pending(catalogue, begun.applied()).skip(failing as int),
                Direction::Up,
            )
            &&& limit is None ==> stopped.begin(Operation::Up(None)).plan == begun.plan.skip(
                failing as int,
            )
        }),
{
    let rest = RunnerView::at_rest(catalogue, history);
    let begun = rest.begin(Operation::Up(limit));
    let reached = after_commits(begun, failing, applied_at);
    let stopped = reached.advance(EventView::Failed(cause));
    let all = pending(catalogue, begun.applied());
    let names = up_names(catalogue, begun.applied(), limit);
    lemma_begin_wf(rest, Operation::Up(limit));
    lemma_up_names(catalogue, begun.applied(), limit);
    lemma_after_commits(begun, failing, Direction::Up, applied_at);
    let prefix = step_names(begun.plan.take(failing as int));
    assert(begun.plan.subrange(0, failing as int) =~= begun.plan.take(failing as int));
    assert(prefix =~= all.take(failing as int));
    assert forall|i: int| 0 <= i < failing implies state_of(
        (#[trigger] begun.plan[i]).name,
        stopped.applied(),
    ) == UnitState::Applied by {
        assert(prefix[i] == begun.plan[i].name);
        assert(prefix.to_set().contains(begun.plan[i].name));
    }
    assert forall|i: int| failing <= i < begun.plan.len() implies state_of(
        (#[trigger] begun.plan[i]).name,
        stopped.applied(),
    ) == UnitState::Pending by {
        assert(begun.plan[i].name == names[i]);
        assert(!begun.applied().contains(names[i]));
        lemma_ascending_no_duplicates(names);
        if prefix.contains(names[i]) {
            let k = choose|k: int| 0 <= k < prefix.len() && prefix[k] == names[i];
            assert(prefix[k] == names[k]);
        }
    }
    lemma_pending_after_prefix(catalogue, begun.applied(), failing as int);
    assert(stopped.begin(Operation::Up(None)).plan =~= steps_of(
        all.skip(failing as int),
        Direction::Up,
    ));
    if limit is None {
        assert(begun.plan.skip(failing as int) =~= steps_of(
            all.skip(failing as int),
            Direction::Up,
        ));
    }
}

/// `Reset` that runs through takes the units of the catalogue out of the
/// recorded names, and nothing else.
pub proof fn lemma_reset_effect(m: RunnerView, applied_at: i64)
    requires
        strictly_ascending(m.catalogue),
        strictly_ascending(record_names(m.history)),
    ensures
        run_to_end(m.begin(Operation::Reset), applied_at).wf(),
        run_to_end(m.begin(Operation::Reset), applied_at).catalogue == m.catalogue,
        run_to_end(m.begin(Operation::Reset), applied_at).applied() == m.applied().difference(
            m.catalogue.to_set(),
        ),
{
    let begun = m.begin(Operation::Reset);
    lemma_down_all(
        m.catalogue,
        m.applied(),
        applied_units(m.catalogue, m.applied()).len(),
    );
    lemma_begin_wf(m, Operation::Reset);
    lemma_run_to_end_wf(begun, applied_at);
    lemma_run_to_end_one_way(begun, Direction::Down, applied_at);
    assert(begun.plan.skip(0) =~= begun.plan);
    assert(step_names(begun.plan) =~= reset_names(m.catalogue, m.applied()));
    assert(run_to_end(begun, applied_at).applied() =~= m.applied().difference(
        m.catalogue.to_set(),
    ));
}

/// `Fresh` that runs through leaves every unit of the catalogue applied, and
/// leaves the recorded names that belong to no unit as they were. Where there
/// are no such names, the history then records exactly the units of the
/// catalogue. The same holds of `Refresh`.
pub proof fn law_fresh_applies_all(m: RunnerView, applied_at: i64)
    requires
        strictly_ascending(m.catalogue),
        strictly_ascending(record_names(m.history)),
    ensures
        ({
            let ended = run_to_end(m.begin(Operation::Fresh), applied_at);
            &&& ended.history == run_to_end(m.begin(Operation::Refresh), applied_at).history
            &&& ended.applied() == m.applied().union(m.catalogue.to_set())
            &&& forall|i: int|
                0 <= i < m.catalogue.len() ==> state_of(#[trigger] m.catalogue[i], ended.applied())
                    == UnitState::Applied
            &&& m.applied().subset_of(m.catalogue.to_set()) ==> record_names(ended.history)
                == m.catalogue
        }),
{
    let ended = run_to_end(m.begin(Operation::Fresh), applied_at);
    let reset = run_to_end(m.begin(Operation::Reset), applied_at);
    let again = reset.begin(Operation::Up(None));
    let other = run_to_end(again, applied_at);
    law_fresh_is_reset_then_up(m, applied_at);
    lemma_reset_effect(m, applied_at);
    assert forall|i: int| 0 <= i < m.catalogue.len() implies not_in(reset.applied())(
        #[trigger] m.catalogue[i],
    ) by {
        assert(m.catalogue.contains(m.catalogue[i]));
    }
    lemma_filter_all(m.catalogue, not_in(reset.applied()));
    lemma_begin_wf(reset, Operation::Up(None));
    lemma_run_to_end_wf(again, applied_at);
    lemma_run_to_end_one_way(again, Direction::Up, applied_at);
    assert(again.plan.skip(0) =~= again.plan);
    assert(step_names(again.plan) =~= m.catalogue);
    assert(other.applied() =~= m.applied().union(m.catalogue.to_set()));
    assert forall|i: int| 0 <= i < m.catalogue.len() implies state_of(
        #[trigger] m.catalogue[i],
        ended.applied(),
    ) == UnitState::Applied by {
        assert(m.catalogue.contains(m.catalogue[i]));
    }
    if m.applied().subset_of(m.catalogue.to_set()) {
        assert(other.applied() =~= m.catalogue.to_set());
        lemma_ascending_same_set(record_names(other.history), m.catalogue);
    }
}

/// Name order alone decides the order of the steps. `Up` plans its units in
/// strictly ascending name order, `Down` and `Reset` plan theirs in strictly
/// descending name order, and two histories that record the same names give
/// the same plan, whenever their records were written.
pub proof fn law_name_order_decides(
    catalogue: Seq<Seq<char>>,
    first: Seq<RecordView>,
    second: Seq<RecordView>,
    operation: Operation,
)
    requires
        strictly_ascending(catalogue),
        strictly_ascending(record_names(first)),
        record_names(first) == record_names(second),
    ensures
        RunnerView::at_rest(catalogue, first).begin(operation).plan == RunnerView::at_rest(
            catalogue,
            second,
        ).begin(operation).plan,
        operation is Up ==> strictly_ascending(
            step_names(RunnerView::at_rest(catalogue, first).begin(operation).plan),
        ),
        operation is Down || operation is Reset ==> strictly_descending(
            step_names(RunnerView::at_rest(catalogue, first).begin(operation).plan),
        ),
{
    let rest = RunnerView::at_rest(catalogue, first);
    let plan = rest.begin(operation).plan;
    match operation {
        Operation::Up(limit) => {
            lemma_up_names(catalogue, rest.applied(), limit);
            assert(step_names(plan) =~= up_names(catalogue, rest.applied(), limit));
        },
        Operation::Down(limit) => {
            lemma_down_names(catalogue, rest.applied(), limit as nat);
            assert(step_names(plan) =~= down_names(catalogue, rest.applied(), limit as nat));
        },
        Operation::Reset => {
            lemma_down_names(
                catalogue,
                rest.applied(),
                applied_units(catalogue, rest.applied()).len(),
            );
            assert(step_names(plan) =~= reset_names(catalogue, rest.applied()));
        },
        _ => {},
    }
}

/// An operation that does not go on with `Up` keeps its plan while it runs
/// through.
pub proof fn lemma_run_to_end_plan(m: RunnerView, applied_at: i64)
    requires
        !m.reapply,
        m.done <= m.plan.len(),
    ensures
        run_to_end(m, applied_at).plan == m.plan,
        run_to_end(m, applied_at).done == m.plan.len(),
    decreases m.plan.len() - m.done,
{
    if m.done < m.plan.len() {
        lemma_run_to_end_plan(m.committed(applied_at), applied_at);
    }
}

} // verus!
