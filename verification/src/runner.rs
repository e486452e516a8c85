//! The migration runner.
//!
//! The runner is a state machine. It never touches a database: it decides
//! which step comes next and is told how that step went. A caller begins an
//! operation, performs the step that the runner hands out (the unit's change
//! and the history row, in one transaction), reports the outcome, and goes on
//! until the runner says that the operation is finished or has halted.

use crate::error::{ErrorView, MigrationError};
use crate::history::{
    lemma_with_record, lemma_without_record, record_names, with_record, without_record,
    HistoryStore, RecordView,
};
use crate::name::strictly_ascending;
use crate::plan::{
    lemma_down_names, lemma_up_names, plan_down, plan_reset, plan_up, down_names, reset_names,
    steps_of, up_names, Direction, MigrationPlan, PlanStep, StepView,
};
use crate::registry::Registry;
use crate::status::{status, status_of, StatusReport, StatusView};
use vstd::prelude::*;
use vstd::string::*;

verus! {

/// What a caller asks the runner to do.
#[derive(Clone, Copy, Debug, PartialEq, Eq)]
pub enum Operation {
    /// Report the state of every unit; change nothing.
    Status,
    /// Apply pending units in ascending name order: all of them, or at most
    /// the given number.
    Up(Option<u32>),
    /// Revert at most the given number of applied units, the last by name
    /// first.
    Down(u32),
    /// Revert every applied unit, then apply every unit.
    Fresh,
    /// Revert every applied unit, then apply every unit.
    Refresh,
    /// Revert every applied unit.
    Reset,
}

/// How the step that the runner handed out went.
#[derive(Debug, PartialEq, Eq)]
pub enum StepEvent {
    /// The unit ran and its history row was written or deleted; the
    /// transaction is committed. `applied_at` is the time of the commit.
    Committed { applied_at: i64 },
    /// The unit or its bookkeeping failed; the transaction is rolled back.
    Failed(MigrationError),
}

/// An event as contracts speak of it.
pub enum EventView {
    Committed { applied_at: i64 },
    Failed(ErrorView),
}

impl View for StepEvent {
    type V = EventView;

    open spec fn view(&self) -> EventView {
        match self {
            StepEvent::Committed { applied_at } => EventView::Committed {
                applied_at: *applied_at,
            },
            StepEvent::Failed(cause) => EventView::Failed(cause@),
        }
    }
}

/// Where an operation stopped, and why.
#[derive(Debug, PartialEq, Eq)]
pub struct FailureReport {
    /// The unit that failed. Its transaction was rolled back, so it is the
    /// first unit that the operation left untouched.
    pub unit: String,
    /// The direction in which the unit ran.
    pub direction: Direction,
    /// What went wrong.
    pub cause: MigrationError,
    /// The last unit of the operation that was committed, if any.
    pub last_committed: Option<String>,
    /// The number of steps of the operation that were committed.
    pub committed: usize,
}

/// A failure report as contracts speak of it.
pub struct FailureView {
    pub unit: Seq<char>,
    pub direction: Direction,
    pub cause: ErrorView,
    pub last_committed: Option<Seq<char>>,
    pub committed: nat,
}

impl View for FailureReport {
    type V = FailureView;

    open spec fn view(&self) -> FailureView {
        FailureView {
            unit: self.unit@,
            direction: self.direction,
            cause: self.cause@,
            last_committed: match self.last_committed {
                Some(name) => Some(name@),
                None => None,
            },
            committed: self.committed as nat,
        }
    }
}

/// What the caller is to do next.
#[derive(Debug, PartialEq, Eq)]
pub enum Action {
    /// Run this step in one transaction with its history bookkeeping, then
    /// report how it went.
    Run(PlanStep),
    /// The operation is complete; this is the state it leaves.
    Finish(StatusReport),
    /// The operation stopped at a failing unit. Steps committed before it
    /// stay committed, steps after it were not run.
    Halt(FailureReport),
}

/// An action as contracts speak of it.
pub enum ActionView {
    Run(StepView),
    Finish(StatusView),
    Halt(FailureView),
}

impl View for Action {
    type V = ActionView;

    open spec fn view(&self) -> ActionView {
        match self {
            Action::Run(step) => ActionView::Run(step@),
            Action::Finish(report) => ActionView::Finish(report@),
            Action::Halt(report) => ActionView::Halt(report@),
        }
    }
}

/// What a step does to the history table, inside its transaction.
#[derive(Clone, Copy, Debug, PartialEq, Eq, Structural)]
pub enum Bookkeeping {
    /// Insert the row of the unit.
    Insert,
    /// Delete the row of the unit.
    Delete,
}

/// What `step` is to do to the history table when `recorded` says whether
/// the table holds the unit's row.
pub open spec fn bookkeeping_of(step: StepView, recorded: bool) -> Result<Bookkeeping, ErrorView> {
    match step.direction {
        Direction::Up => if recorded {
            Err(ErrorView::DuplicateApplication(step.name))
        } else {
            Ok(Bookkeeping::Insert)
        },
        Direction::Down => if recorded {
            Ok(Bookkeeping::Delete)
        } else {
            Err(ErrorView::NotApplied(step.name))
        },
    }
}

/// Decides the history bookkeeping of a step from what its transaction finds
/// in the history table. A step up inserts the unit's row and fails with
/// `DuplicateApplication` if the row is there already, as it is when another
/// process applied the unit in the meantime. A step down deletes the row and
/// fails with `NotApplied` if there is none.
pub fn bookkeeping(step: &PlanStep, recorded: bool) -> (r: Result<Bookkeeping, MigrationError>)
    ensures
        match bookkeeping_of(step@, recorded) {
            Ok(b) => r == Ok::<Bookkeeping, MigrationError>(b),
            Err(e) => r is Err && r->Err_0@ == e,
        },
{
    match step.direction {
        Direction::Up => if recorded {
            Err(MigrationError::DuplicateApplication(step.name.clone()))
        } else {
            Ok(Bookkeeping::Insert)
        },
        Direction::Down => if recorded {
            Ok(Bookkeeping::Delete)
        } else {
            Err(MigrationError::NotApplied(step.name.clone()))
        },
    }
}

/// The event that the outcome of a step's transaction amounts to: a commit
/// at time `applied_at`, or a `TransactionFailure` that wraps the database's
/// own words.
pub fn event_of(outcome: Result<(), String>, applied_at: i64) -> (event: StepEvent)
    ensures
        event@ == match outcome {
            Ok(_) => EventView::Committed { applied_at },
            Err(detail) => EventView::Failed(ErrorView::TransactionFailure(detail@)),
        },
{
    match outcome {
        Ok(()) => StepEvent::Committed { applied_at },
        Err(detail) => StepEvent::Failed(MigrationError::TransactionFailure(detail)),
    }
}

impl FailureView {
    /// The words that open the message, by direction.
    pub open spec fn opening(self) -> Seq<char> {
        match self.direction {
            Direction::Up => "failed to apply "@,
            Direction::Down => "failed to revert "@,
        }
    }

    /// The message shown to an operator: which unit failed, in which
    /// direction, and why.
    pub open spec fn message(self) -> Seq<char> {
        self.opening() + self.unit + ": "@ + self.cause.message()
    }
}

impl FailureReport {
    /// The message shown to an operator.
    pub fn message(&self) -> (text: String)
        ensures
            text@ == self@.message(),
    {
        let opening: &str = match self.direction {
            Direction::Up => "failed to apply ",
            Direction::Down => "failed to revert ",
        };
        let mut text: String = String::from_str(opening);
        text.append(self.unit.as_str());
        text.append(": ");
        text.append(self.cause.message().as_str());
        text
    }
}

/// The state of the runner as contracts speak of it.
pub struct RunnerView {
    /// The names of the catalogue, ascending.
    pub catalogue: Seq<Seq<char>>,
    /// The history records, ascending by name.
    pub history: Seq<RecordView>,
    /// The steps of the operation under way.
    pub plan: Seq<StepView>,
    /// The number of steps of the plan that are committed.
    pub done: nat,
    /// Whether every unit is to be applied once the plan is exhausted.
    pub reapply: bool,
}

impl RunnerView {
    /// The state of a runner at rest: no plan is under way.
    pub open spec fn at_rest(catalogue: Seq<Seq<char>>, history: Seq<RecordView>) -> RunnerView {
        RunnerView { catalogue, history, plan: Seq::empty(), done: 0, reapply: false }
    }

    /// The set of names that the history records.
    pub open spec fn applied(self) -> Set<Seq<char>> {
        record_names(self.history).to_set()
    }

    /// The step that is to run now, if the plan has one left.
    pub open spec fn current(self) -> Option<StepView> {
        if self.done < self.plan.len() {
            Some(self.plan[self.done as int])
        } else {
            None
        }
    }

    /// Every step that is left can run: no unit occurs twice among them, a
    /// step up is for a unit that is not applied, a step down for one that
    /// is.
    pub open spec fn runnable(self) -> bool {
        &&& forall|i: int, j: int|
            self.done <= i < j < self.plan.len() ==> (#[trigger] self.plan[i]).name
                != (#[trigger] self.plan[j]).name
        &&& forall|i: int|
            self.done <= i < self.plan.len() ==> ((#[trigger] self.plan[i]).direction
                == Direction::Up <==> !self.applied().contains(self.plan[i].name))
    }

    /// The catalogue and the history are in name order, and the steps that
    /// are left can run.
    pub open spec fn coherent(self) -> bool {
        &&& strictly_ascending(self.catalogue)
        &&& strictly_ascending(record_names(self.history))
        &&& self.done <= self.plan.len()
        &&& self.runnable()
    }

    /// The state is well formed: it is coherent, and a plan that is to go on
    /// with `Up` has gone on if it was exhausted.
    pub open spec fn wf(self) -> bool {
        &&& self.coherent()
        &&& self.reapply ==> self.done < self.plan.len()
    }

    /// The steps with which `operation` begins.
    pub open spec fn first_plan(self, operation: Operation) -> Seq<StepView> {
        match operation {
            Operation::Status => Seq::empty(),
            Operation::Up(limit) => steps_of(
                up_names(self.catalogue, self.applied(), limit),
                Direction::Up,
            ),
            Operation::Down(limit) => steps_of(
                down_names(self.catalogue, self.applied(), limit as nat),
                Direction::Down,
            ),
            Operation::Fresh | Operation::Refresh | Operation::Reset => steps_of(
                reset_names(self.catalogue, self.applied()),
                Direction::Down,
            ),
        }
    }

    /// Whether `operation` applies every unit after its first steps.
    pub open spec fn reapplies(operation: Operation) -> bool {
        operation == Operation::Fresh || operation == Operation::Refresh
    }

    /// When the plan is exhausted and every unit is still to be applied, the
    /// plan goes on with `Up` without a limit, computed from the history as
    /// it then is. Otherwise nothing changes.
    pub open spec fn settle(self) -> RunnerView {
        if self.done == self.plan.len() && self.reapply {
            RunnerView {
                plan: self.plan + steps_of(
                    up_names(self.catalogue, self.applied(), None),
                    Direction::Up,
                ),
                reapply: false,
                ..self
            }
        } else {
            self
        }
    }

    /// The state in which `operation` begins.
    pub open spec fn begin(self, operation: Operation) -> RunnerView {
        RunnerView {
            plan: self.first_plan(operation),
            done: 0,
            reapply: Self::reapplies(operation),
            ..self
        }.settle()
    }

    /// The history after `step` is committed at time `applied_at`.
    pub open spec fn history_after(self, step: StepView, applied_at: i64) -> Seq<RecordView> {
        match step.direction {
            Direction::Up => with_record(self.history, RecordView { name: step.name, applied_at }),
            Direction::Down => without_record(self.history, step.name),
        }
    }

    /// The state with the current step behind it: the history holds the
    /// change, and the plan has moved on by one step.
    pub open spec fn stepped(self, applied_at: i64) -> RunnerView
        recommends
            self.current() is Some,
    {
        RunnerView {
            history: self.history_after(self.plan[self.done as int], applied_at),
            done: self.done + 1,
            ..self
        }
    }

    /// The state after the current step is committed at time `applied_at`.
    pub open spec fn committed(self, applied_at: i64) -> RunnerView
        recommends
            self.current() is Some,
    {
        self.stepped(applied_at).settle()
    }

    /// The state after the current step has failed: the steps that are
    /// committed stay, the others are dropped.
    pub open spec fn failed(self) -> RunnerView
        recommends
            self.current() is Some,
    {
        RunnerView { plan: self.plan.take(self.done as int), reapply: false, ..self }
    }

    /// The state after `event`. Without a current step no event changes
    /// anything.
    pub open spec fn advance(self, event: EventView) -> RunnerView {
        match (self.current(), event) {
            (None, _) => self,
            (Some(_), EventView::Committed { applied_at }) => self.committed(applied_at),
            (Some(_), EventView::Failed(_)) => self.failed(),
        }
    }

    /// What the caller is to do in this state: run the current step, or
    /// finish with the status of the state.
    pub open spec fn next_action(self) -> ActionView {
        match self.current() {
            Some(step) => ActionView::Run(step),
            None => ActionView::Finish(status_of(self.catalogue, record_names(self.history))),
        }
    }

    /// The report on the failure of the current step.
    pub open spec fn failure(self, cause: ErrorView) -> FailureView
        recommends
            self.current() is Some,
    {
        FailureView {
            unit: self.plan[self.done as int].name,
            direction: self.plan[self.done as int].direction,
            cause,
            last_committed: if self.done > 0 {
                Some(self.plan[self.done - 1].name)
            } else {
                None
            },
            committed: self.done,
        }
    }

    /// What the runner answers to `event` in this state.
    pub open spec fn response(self, event: EventView) -> ActionView {
        match (self.current(), event) {
            (Some(_), EventView::Failed(cause)) => ActionView::Halt(self.failure(cause)),
            _ => self.advance(event).next_action(),
        }
    }
}

/// Going on with `Up` when the plan is exhausted makes a coherent state
/// well formed.
pub proof fn lemma_settle_wf(m: RunnerView)
    requires
        m.coherent(),
    ensures
        m.settle().wf(),
{
    if m.done == m.plan.len() && m.reapply {
        let names = up_names(m.catalogue, m.applied(), None);
        lemma_up_names(m.catalogue, m.applied(), None);
        let s = m.settle();
        assert forall|i: int| s.done <= i < s.plan.len() implies (#[trigger] s.plan[i]).name
            == names[i - m.done] && s.plan[i].direction == Direction::Up by {}
        assert forall|i: int, j: int| s.done <= i < j < s.plan.len() implies (
        #[trigger] s.plan[i]).name != (#[trigger] s.plan[j]).name by {
            assert(s.plan[i].name == names[i - m.done] && s.plan[j].name == names[j - m.done]);
        }
        assert forall|i: int| s.done <= i < s.plan.len() implies ((#[trigger] s.plan[i]).direction
            == Direction::Up <==> !s.applied().contains(s.plan[i].name)) by {
            assert(s.plan[i].name == names[i - m.done]);
        }
    }
}

/// The steps with which an operation begins can run.
pub proof fn lemma_first_plan_runnable(m: RunnerView, operation: Operation)
    requires
        strictly_ascending(m.catalogue),
        strictly_ascending(record_names(m.history)),
    ensures
        (RunnerView {
            plan: m.first_plan(operation),
            done: 0,
            reapply: RunnerView::reapplies(operation),
            ..m
        }).coherent(),
{
    let first = m.first_plan(operation);
    let b = RunnerView { plan: first, done: 0, reapply: RunnerView::reapplies(operation), ..m };
    match operation {
        Operation::Status => {},
        Operation::Up(limit) => {
            lemma_up_names(m.catalogue, m.applied(), limit);
        },
        Operation::Down(limit) => {
            lemma_down_names(m.catalogue, m.applied(), limit as nat);
        },
        _ => {
            lemma_down_names(
                m.catalogue,
                m.applied(),
                crate::plan::applied_units(m.catalogue, m.applied()).len(),
            );
        },
    }
    assert(b.runnable());
}

/// Beginning an operation leaves the state well formed.
pub proof fn lemma_begin_wf(m: RunnerView, operation: Operation)
    requires
        strictly_ascending(m.catalogue),
        strictly_ascending(record_names(m.history)),
    ensures
        m.begin(operation).wf(),
{
    lemma_first_plan_runnable(m, operation);
    lemma_settle_wf(
        RunnerView {
            plan: m.first_plan(operation),
            done: 0,
            reapply: RunnerView::reapplies(operation),
            ..m
        },
    );
}

/// Putting the current step behind keeps the state coherent, and changes the
/// recorded names by the name of that step and no other.
pub proof fn lemma_stepped_coherent(m: RunnerView, applied_at: i64)
    requires
        m.coherent(),
        m.current() is Some,
    ensures
        m.stepped(applied_at).coherent(),
        m.plan[m.done as int].direction == Direction::Up ==> m.stepped(applied_at).applied()
            == m.applied().insert(m.plan[m.done as int].name),
        m.plan[m.done as int].direction == Direction::Down ==> m.stepped(applied_at).applied()
            == m.applied().remove(m.plan[m.done as int].name),
{
    let step = m.plan[m.done as int];
    let c = m.stepped(applied_at);
    match step.direction {
        Direction::Up => {
            lemma_with_record(m.history, RecordView { name: step.name, applied_at });
        },
        Direction::Down => {
            lemma_without_record(m.history, step.name);
        },
    }
    assert forall|i: int| c.done <= i < c.plan.len() implies ((#[trigger] c.plan[i]).direction
        == Direction::Up <==> !c.applied().contains(c.plan[i].name)) by {
        assert(m.plan[m.done as int].name != m.plan[i].name);
    }
    assert(c.runnable());
}

/// Committing the current step leaves the state well formed, and changes the
/// recorded names by the name of that step and no other.
pub proof fn lemma_committed_wf(m: RunnerView, applied_at: i64)
    requires
        m.coherent(),
        m.current() is Some,
    ensures
        m.committed(applied_at).wf(),
        m.plan[m.done as int].direction == Direction::Up ==> m.committed(applied_at).applied()
            == m.applied().insert(m.plan[m.done as int].name),
        m.plan[m.done as int].direction == Direction::Down ==> m.committed(applied_at).applied()
            == m.applied().remove(m.plan[m.done as int].name),
{
    lemma_stepped_coherent(m, applied_at);
    lemma_settle_wf(m.stepped(applied_at));
}

/// The runner: the catalogue, the history as the runner knows it, and the
/// plan of the operation under way.
pub struct Runner {
    registry: Registry,
    store: HistoryStore,
    plan: Vec<PlanStep>,
    done: usize,
    reapply: bool,
}

impl Runner {
    /// The state of the runner.
    pub closed spec fn view(&self) -> RunnerView {
        RunnerView {
            catalogue: self.registry.names(),
            history: self.store@,
            plan: Seq::new(self.plan@.len(), |i: int| self.plan@[i]@),
            done: self.done as nat,
            reapply: self.reapply,
        }
    }

    /// The runner is well formed: so are its catalogue, its history and its
    /// state.
    pub closed spec fn wf(&self) -> bool {
        &&& self.registry.wf()
        &&& self.store.wf()
        &&& self@.wf()
    }

    /// A well-formed runner is in a well-formed state.
    pub proof fn lemma_wf_state(&self)
        requires
            self.wf(),
        ensures
            self@.wf(),
    {
    }

    /// A runner at rest over `registry`, with `store` as the history.
    pub fn new(registry: Registry, store: HistoryStore) -> (runner: Runner)
        requires
            registry.wf(),
            store.wf(),
        ensures
            runner.wf(),
            runner@ == RunnerView::at_rest(registry.names(), store@),
    {
        let runner = Runner { registry, store, plan: Vec::new(), done: 0, reapply: false };
        assert(runner@.plan =~= Seq::<StepView>::empty());
        runner
    }

    /// The catalogue.
    pub fn registry(&self) -> (registry: &Registry)
        requires
            self.wf(),
        ensures
            registry.wf(),
            registry.names() == self@.catalogue,
    {
        &self.registry
    }

    /// The history as the runner knows it.
    pub fn history(&self) -> (store: &HistoryStore)
        requires
            self.wf(),
        ensures
            store.wf(),
            store@ == self@.history,
    {
        &self.store
    }

    /// Gives up the runner for its history.
    pub fn into_history(self) -> (store: HistoryStore)
        requires
            self.wf(),
        ensures
            store.wf(),
            store@ == self@.history,
    {
        self.store
    }

    /// Replaces the history by one that was read anew, and drops whatever
    /// plan was under way.
    pub fn reload(&mut self, store: HistoryStore)
        requires
            old(self).wf(),
            store.wf(),
        ensures
            final(self).wf(),
            final(self)@ == RunnerView::at_rest(old(self)@.catalogue, store@),
    {
        self.store = store;
        self.plan = Vec::new();
        self.done = 0;
        self.reapply = false;
        assert(self@.plan =~= Seq::<StepView>::empty());
    }

    /// The status of the catalogue against the history. Reads only.
    pub fn status(&self) -> (report: StatusReport)
        requires
            self.wf(),
        ensures
            report@ == status_of(self@.catalogue, record_names(self@.history)),
    {
        status(&self.registry, &self.store)
    }

    /// The step that is to run now, if the plan has one left.
    pub fn current(&self) -> (step: Option<PlanStep>)
        requires
            self.wf(),
        ensures
            step is Some == self@.current() is Some,
            step matches Some(s) ==> Some(s@) == self@.current(),
    {
        if self.done < self.plan.len() {
            let step = &self.plan[self.done];
            Some(PlanStep { name: step.name.clone(), direction: step.direction })
        } else {
            None
        }
    }

    fn next_action(&self) -> (action: Action)
        requires
            self.wf(),
        ensures
            action@ == self@.next_action(),
    {
        match self.current() {
            Some(step) => Action::Run(step),
            None => Action::Finish(self.status()),
        }
    }

    fn settle(&mut self)
        requires
            old(self).registry.wf(),
            old(self).store.wf(),
            old(self)@.coherent(),
        ensures
            final(self).wf(),
            final(self)@ == old(self)@.settle(),
    {
        proof {
            lemma_settle_wf(self@);
        }
        if self.done == self.plan.len() && self.reapply {
            let ghost before = self@;
            let mut more: MigrationPlan = plan_up(&self.registry, &self.store, None);
            self.plan.append(&mut more.steps);
            self.reapply = false;
            assert(self@.plan =~= before.settle().plan);
        }
    }

    /// Begins `operation`: computes its plan from the catalogue and the
    /// history as they are, and says what to do first.
    pub fn begin(&mut self, operation: Operation) -> (action: Action)
        requires
            old(self).wf(),
        ensures
            final(self).wf(),
            final(self)@ == old(self)@.begin(operation),
            action@ == final(self)@.next_action(),
    {
        let ghost before = self@;
        let first: MigrationPlan = match operation {
            Operation::Status => MigrationPlan { steps: Vec::new() },
            Operation::Up(limit) => plan_up(&self.registry, &self.store, limit),
            Operation::Down(limit) => plan_down(&self.registry, &self.store, limit),
            Operation::Fresh => plan_reset(&self.registry, &self.store),
            Operation::Refresh => plan_reset(&self.registry, &self.store),
            Operation::Reset => plan_reset(&self.registry, &self.store),
        };
        assert(first@ =~= before.first_plan(operation));
        self.plan = first.steps;
        self.done = 0;
        self.reapply = match operation {
            Operation::Fresh => true,
            Operation::Refresh => true,
            _ => false,
        };
        proof {
            let b = RunnerView {
                plan: before.first_plan(operation),
                done: 0,
                reapply: RunnerView::reapplies(operation),
                ..before
            };
            assert(self@.plan =~= b.plan);
            assert(self@ == b);
            lemma_first_plan_runnable(before, operation);
        }
        self.settle();
        self.next_action()
    }

    /// Takes the outcome of the step that was handed out and says what to do
    /// next. After a commit the history holds the change and the plan moves
    /// on; after a failure the operation halts, with everything committed so
    /// far left in place and nothing after it run. Without a step under way
    /// the state is left as it is.
    pub fn advance(&mut self, event: StepEvent) -> (action: Action)
        requires
            old(self).wf(),
        ensures
            final(self).wf(),
            final(self)@ == old(self)@.advance(event@),
            action@ == old(self)@.response(event@),
    {
        let ghost before = self@;
        if self.done >= self.plan.len() {
            return self.next_action();
        }
        let name: String = self.plan[self.done].name.clone();
        let direction: Direction = self.plan[self.done].direction;
        assert(before.plan[before.done as int] == (StepView { name: name@, direction }));
        match event {
            StepEvent::Committed { applied_at } => {
                proof {
                    lemma_stepped_coherent(before, applied_at);
                }
                match direction {
                    Direction::Up => {
                        let written = self.store.record_applied(name.as_str(), applied_at);
                        assert(written is Ok);
                    },
                    Direction::Down => {
                        let deleted = self.store.record_reverted(name.as_str());
                        assert(deleted is Ok);
                    },
                }
                self.done = self.done + 1;
                assert(self@ == before.stepped(applied_at));
                self.settle();
                self.next_action()
            },
            StepEvent::Failed(cause) => {
                let last_committed: Option<String> = if self.done > 0 {
                    Some(self.plan[self.done - 1].name.clone())
                } else {
                    None
                };
                let report = FailureReport {
                    unit: name,
                    direction,
                    cause,
                    last_committed,
                    committed: self.done,
                };
                self.plan.truncate(self.done);
                self.reapply = false;
                assert(self@.plan =~= before.failed().plan);
                Action::Halt(report)
            },
        }
    }
}

} // verus!
