//! Systems: phases, runs and their outputs, and what a registered system knows
//! of its own planning.

use crate::access::{rows_written, written_rows, Access};
use crate::commands::{ops_view, CommandOp, Commands, OpModel};
use crate::component::{Component, RelationshipTarget};
use crate::entity::Entity;
use crate::invocation::{Invocation, SystemInvocation};
use crate::memo::{MemoEntry, MemoModel, PlannedInvocation};
use crate::world::{find_cell, write_facts};
use vstd::prelude::*;

verus! {

/// Coarse phase in which a system runs during one evaluation generation.
///
/// `Startup`, `Evaluate` and `Complete` are the forward-derivation phases of a
/// generation. `Settle` runs once per settle, at convergence: its removals apply
/// at once, its inserts are queued for the next run.
#[derive(Debug, Clone, Copy, PartialEq, Eq, Structural)]
pub enum Phase {
    /// Runs once before the first evaluate phase, and again after a preemption.
    Startup,
    /// Default phase for ordinary fact-producing systems.
    Evaluate,
    /// Runs after the evaluate systems of the same generation.
    Complete,
    /// Runs at settle time, after the last generation converges.
    Settle,
}

impl Phase {
    /// The phases of one generation, in order.
    pub open spec fn order(startup: bool) -> Seq<Phase> {
        if startup {
            seq![Phase::Startup, Phase::Evaluate, Phase::Complete]
        } else {
            seq![Phase::Evaluate, Phase::Complete]
        }
    }

    /// The phases of one generation, in order.
    pub fn ordered(startup: bool) -> (phases: Vec<Phase>)
        ensures
            phases@ == Self::order(startup),
    {
        let mut phases: Vec<Phase> = Vec::new();
        if startup {
            phases.push(Phase::Startup);
        }
        phases.push(Phase::Evaluate);
        phases.push(Phase::Complete);
        assert(phases@ =~= Self::order(startup));
        phases
    }

    /// The phase's name.
    pub open spec fn label(self) -> Seq<char> {
        match self {
            Phase::Startup => "Startup"@,
            Phase::Evaluate => "Evaluate"@,
            Phase::Complete => "Complete"@,
            Phase::Settle => "Settle"@,
        }
    }

    /// The phase's name.
    pub fn name(self) -> (name: &'static str)
        ensures
            name@ == self.label(),
    {
        match self {
            Phase::Startup => "Startup",
            Phase::Evaluate => "Evaluate",
            Phase::Complete => "Complete",
            Phase::Settle => "Settle",
        }
    }
}

/// Buffered output of one invocation.
#[derive(Debug)]
pub struct SystemOutput<C> {
    pub owner: SystemInvocation,
    pub commands: Vec<CommandOp<C>>,
}

/// What a [`SystemOutput`] holds.
#[verifier::ext_equal]
#[verifier::reject_recursive_types(C)]
pub struct OutputModel<C: Component> {
    pub owner: Invocation,
    pub ops: Seq<OpModel<C>>,
}

impl<C: Component> View for SystemOutput<C> {
    type V = OutputModel<C>;

    open spec fn view(&self) -> OutputModel<C> {
        OutputModel { owner: self.owner@, ops: ops_view(self.commands@) }
    }
}

/// Outputs and memo updates of one system run.
#[derive(Debug)]
pub struct SystemRun<C> {
    pub completed: bool,
    pub outputs: Vec<SystemOutput<C>>,
    pub memo_updates: Vec<(SystemInvocation, MemoEntry)>,
    /// The rows that the invocations held for exclusive access, with the values
    /// they left there.
    pub writes: Vec<(Entity, C)>,
}

/// What a [`SystemRun`] holds.
#[verifier::ext_equal]
#[verifier::reject_recursive_types(C)]
pub struct RunModel<C: Component> {
    pub completed: bool,
    pub outputs: Seq<OutputModel<C>>,
    pub updates: Seq<(Invocation, MemoModel)>,
    pub writes: Seq<(Entity, C::Model)>,
}

/// What a list of outputs holds.
pub open spec fn outputs_view<C: Component>(outputs: Seq<SystemOutput<C>>) -> Seq<OutputModel<C>> {
    outputs.map_values(|output: SystemOutput<C>| output@)
}

/// What a list of memo updates holds.
pub open spec fn updates_view(updates: Seq<(SystemInvocation, MemoEntry)>) -> Seq<
    (Invocation, MemoModel),
> {
    updates.map_values(|update: (SystemInvocation, MemoEntry)| (update.0@, update.1@))
}

impl<C: RelationshipTarget> View for SystemRun<C> {
    type V = RunModel<C>;

    open spec fn view(&self) -> RunModel<C> {
        RunModel {
            completed: self.completed,
            outputs: outputs_view(self.outputs@),
            updates: updates_view(self.memo_updates@),
            writes: write_facts(self.writes@),
        }
    }
}

/// What a list of runs holds.
pub open spec fn runs_view<C: RelationshipTarget>(runs: Seq<SystemRun<C>>) -> Seq<RunModel<C>> {
    runs.map_values(|run: SystemRun<C>| run@)
}

impl<C: RelationshipTarget> RunModel<C> {
    /// The run that did nothing.
    pub open spec fn nothing(completed: bool) -> RunModel<C> {
        RunModel {
            completed,
            outputs: Seq::empty(),
            updates: Seq::empty(),
            writes: Seq::empty(),
        }
    }

    /// This run followed by `more`; complete when both are.
    pub open spec fn then_run(self, more: RunModel<C>) -> RunModel<C> {
        RunModel {
            completed: self.completed && more.completed,
            outputs: self.outputs + more.outputs,
            updates: self.updates + more.updates,
            writes: self.writes + more.writes,
        }
    }
}

/// Runs one after the other, after a run that did nothing.
pub open spec fn merged<C: RelationshipTarget>(completed: bool, runs: Seq<RunModel<C>>) -> RunModel<
    C,
>
    decreases runs.len(),
{
    if runs.len() == 0 {
        RunModel::nothing(completed)
    } else {
        merged(completed, runs.drop_last()).then_run(runs.last())
    }
}

impl<C: RelationshipTarget> SystemRun<C> {
    /// The run that did nothing.
    pub fn empty() -> (run: Self)
        ensures
            run@ == RunModel::<C>::nothing(false),
    {
        Self::idle(false)
    }

    fn idle(completed: bool) -> (run: Self)
        ensures
            run@ == RunModel::<C>::nothing(completed),
    {
        let run = SystemRun {
            completed,
            outputs: Vec::new(),
            memo_updates: Vec::new(),
            writes: Vec::new(),
        };
        assert(run@ =~= RunModel::<C>::nothing(completed)) by {
            assert(outputs_view(run.outputs@) =~= Seq::<OutputModel<C>>::empty());
            assert(updates_view(run.memo_updates@) =~= Seq::<(Invocation, MemoModel)>::empty());
            assert(write_facts(run.writes@) =~= Seq::<(Entity, C::Model)>::empty());
        }
        run
    }

    /// Appends another run to this one.
    pub fn absorb(&mut self, run: SystemRun<C>)
        ensures
            final(self)@ == old(self)@.then_run(run@),
    {
        let ghost before = *self;
        let SystemRun { completed, mut outputs, mut memo_updates, mut writes } = run;
        self.completed = self.completed && completed;
        self.outputs.append(&mut outputs);
        self.memo_updates.append(&mut memo_updates);
        self.writes.append(&mut writes);
        proof {
            let after = before@.then_run(run@);
            assert(outputs_view(self.outputs@) =~= after.outputs);
            assert(updates_view(self.memo_updates@) =~= after.updates);
            assert(write_facts(self.writes@) =~= after.writes);
            assert(self@ =~= after);
        }
    }
}

fn fold_runs<C: RelationshipTarget>(completed: bool, runs: Vec<SystemRun<C>>) -> (run: SystemRun<C>)
    ensures
        run@ == merged(completed, runs_view(runs@)),
{
    let ghost all = runs_view(runs@);
    let ghost total = runs@.len();
    let mut rest = runs;
    let mut run = SystemRun::idle(completed);
    let ghost mut done: int = 0;
    assert(all.take(0) =~= Seq::<RunModel<C>>::empty());
    while rest.len() > 0
        invariant
            0 <= done,
            done + rest@.len() == total,
            all.len() == total,
            runs_view(rest@) =~= all.skip(done),
            run@ == merged(completed, all.take(done)),
        decreases rest@.len(),
    {
        let ghost held = rest@;
        let next = rest.remove(0);
        assert(runs_view(held)[0] == all.skip(done)[0]);
        assert(next@ == all[done]);
        assert(all.take(done + 1).drop_last() =~= all.take(done));
        assert(runs_view(rest@) =~= runs_view(held).drop_first());
        assert(all.skip(done + 1) =~= all.skip(done).drop_first());
        run.absorb(next);
        proof {
            done = done + 1;
        }
    }
    assert(all.take(done) =~= all);
    run
}

/// Gathers the runs of a system's invocations; `completed` says whether the
/// system had any rows.
pub fn collect_invocations<C: RelationshipTarget>(completed: bool, runs: Vec<SystemRun<C>>) -> (run:
    SystemRun<C>)
    ensures
        run@ == (RunModel { completed, ..merged(true, runs_view(runs@)) }),
{
    let mut run = fold_runs(true, runs);
    run.completed = completed;
    run
}

/// Merges the runs of one batch; complete when every one of them is.
pub fn merge_runs<C: RelationshipTarget>(runs: Vec<SystemRun<C>>) -> (run: SystemRun<C>)
    ensures
        run@ == merged(true, runs_view(runs@)),
{
    fold_runs(true, runs)
}

/// The writes in place that an invocation with `access` may make: those in rows
/// that it has exclusive access to.
pub open spec fn permitted<C: RelationshipTarget>(
    access: Seq<Access>,
    writes: Seq<(Entity, C::Model)>,
) -> Seq<(Entity, C::Model)>
    decreases writes.len(),
{
    if writes.len() == 0 {
        Seq::empty()
    } else {
        let rest = permitted::<C>(access, writes.drop_last());
        if rows_written(access).contains((C::kind(writes.last().1), writes.last().0)) {
            rest.push(writes.last())
        } else {
            rest
        }
    }
}

fn permit<C: RelationshipTarget>(access: &Vec<Access>, writes: Vec<(Entity, C)>) -> (kept: Vec<
    (Entity, C),
>)
    ensures
        write_facts(kept@) == permitted::<C>(access@, write_facts(writes@)),
{
    let ghost all = write_facts(writes@);
    let ghost total = writes@.len();
    let rows = written_rows(access);
    let mut rest = writes;
    let mut kept: Vec<(Entity, C)> = Vec::new();
    let ghost mut done: int = 0;
    assert(all.take(0) =~= Seq::<(Entity, C::Model)>::empty());
    assert(write_facts(kept@) =~= Seq::<(Entity, C::Model)>::empty());
    while rest.len() > 0
        invariant
            0 <= done,
            done + rest@.len() == total,
            all.len() == total,
            rows@ == rows_written(access@),
            write_facts(rest@) =~= all.skip(done),
            write_facts(kept@) == permitted::<C>(access@, all.take(done)),
        decreases rest@.len(),
    {
        let ghost held = rest@;
        let ghost before = kept@;
        let (entity, value) = rest.remove(0);
        proof {
            assert(write_facts(held)[0] == all.skip(done)[0]);
            assert(all[done] == (entity, value.model()));
            assert(write_facts(rest@) =~= write_facts(held).drop_first());
            assert(all.skip(done + 1) =~= all.skip(done).drop_first());
            assert(all.take(done + 1).drop_last() =~= all.take(done));
        }
        if find_cell(&rows, (value.component_id(), entity)).is_some() {
            kept.push((entity, value));
            assert(write_facts(kept@) =~= write_facts(before).push(all[done]));
        }
        proof {
            done = done + 1;
        }
    }
    assert(all.take(done) =~= all);
    kept
}

/// Closes one invocation: drains its commands, keeps what it wrote in rows that it
/// has exclusive access to, and records the inputs that it observed.
pub fn finish_invocation<C: RelationshipTarget, S>(
    planned: PlannedInvocation,
    planned_revision: u64,
    commands: Commands<C, S>,
    writes: Vec<(Entity, C)>,
) -> (run: SystemRun<C>)
    ensures
        run@ == (RunModel {
            completed: true,
            outputs: seq![OutputModel { owner: planned@.owner, ops: commands@.ops }],
            updates: seq![
                (planned@.owner, MemoModel { deps: planned@.deps, planned_revision }),
            ],
            writes: permitted::<C>(planned@.access, write_facts(writes@)),
        }),
{
    let writes = permit(&planned.access, writes);
    let owner = planned.owner.duplicate();
    let mut outputs: Vec<SystemOutput<C>> = Vec::new();
    outputs.push(SystemOutput { owner, commands: commands.take() });
    let mut memo_updates: Vec<(SystemInvocation, MemoEntry)> = Vec::new();
    memo_updates.push((planned.owner, MemoEntry::new(planned.deps, planned_revision)));
    let run = SystemRun { completed: true, outputs, memo_updates, writes };
    assert(outputs_view(run.outputs@) =~= seq![
        OutputModel { owner: planned@.owner, ops: commands@.ops },
    ]);
    assert(updates_view(run.memo_updates@) =~= seq![
        (planned@.owner, MemoModel { deps: planned@.deps, planned_revision }),
    ]);
    run
}

impl<C: RelationshipTarget> SystemRun<C> {
    /// Puts the output of a start hook in front of the batch's outputs.
    pub fn with_start(self, output: SystemOutput<C>) -> (run: Self)
        ensures
            run@ == (RunModel { outputs: seq![output@] + self@.outputs, ..self@ }),
    {
        let mut run = self;
        let ghost before = run.outputs@;
        run.outputs.insert(0, output);
        assert(outputs_view(run.outputs@) =~= seq![output@] + outputs_view(before));
        run
    }

    /// Whether a completion hook is due: the batch produced outputs.
    pub fn wants_completion(&self) -> (due: bool)
        ensures
            due == (self@.outputs.len() > 0),
    {
        self.outputs.len() > 0
    }

    /// Puts the output of a completion hook behind the batch's outputs.
    pub fn with_completion(self, output: SystemOutput<C>) -> (run: Self)
        ensures
            run@ == (RunModel { outputs: self@.outputs.push(output@), ..self@ }),
    {
        let mut run = self;
        let ghost before = run.outputs@;
        run.outputs.push(output);
        assert(outputs_view(run.outputs@) =~= outputs_view(before).push(output@));
        run
    }

    /// The run that a settled hook produces.
    pub fn settled(output: SystemOutput<C>) -> (run: Self)
        ensures
            run@ == (RunModel {
                completed: true,
                outputs: seq![output@],
                updates: Seq::empty(),
                writes: Seq::empty(),
            }),
    {
        let mut run = SystemRun::idle(true);
        let ghost before = run.outputs@;
        run.outputs.push(output);
        assert(outputs_view(run.outputs@) =~= seq![output@]);
        run
    }
}

/// Which hook a system is wrapped in.
#[derive(Debug, Clone, Copy, PartialEq, Eq, Structural)]
pub enum Wrapper {
    Start,
    Complete,
    Settled,
}

/// Per-system profiling counters, in nanoseconds. Only time spent inside the
/// system is charged to it.
#[derive(Debug, Clone, Copy)]
pub struct SystemStats {
    pub plan_nanos: u64,
    pub run_nanos: u64,
    pub runs: u64,
}

impl SystemStats {
    /// Counters at zero.
    pub open spec fn zero() -> SystemStats {
        SystemStats { plan_nanos: 0, run_nanos: 0, runs: 0 }
    }

    /// Counters at zero.
    pub fn new() -> (stats: Self)
        ensures
            stats == SystemStats::zero(),
    {
        SystemStats { plan_nanos: 0, run_nanos: 0, runs: 0 }
    }

    /// Charges planning time.
    pub fn record_plan(&mut self, nanos: u64)
        ensures
            *final(self) == (SystemStats {
                plan_nanos: old(self).plan_nanos.wrapping_add(nanos),
                ..*old(self)
            }),
    {
        self.plan_nanos = self.plan_nanos.wrapping_add(nanos);
    }

    /// Charges one poll of a run, and counts the run when the poll finished it.
    pub fn record_poll(&mut self, nanos: u64, ready: bool)
        ensures
            *final(self) == (SystemStats {
                run_nanos: old(self).run_nanos.wrapping_add(nanos),
                runs: if ready {
                    old(self).runs.wrapping_add(1)
                } else {
                    old(self).runs
                },
                ..*old(self)
            }),
    {
        self.run_nanos = self.run_nanos.wrapping_add(nanos);
        if ready {
            self.runs = self.runs.wrapping_add(1);
        }
    }
}

} // verus!
