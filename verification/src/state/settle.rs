//! Settling: driving generations until nothing is pending and the last one
//! changed nothing.

use super::{State, StateModel, Ticket};
use crate::commit::{commit_runs, commit_system_runs, CommitError, CommitProgress, RefusalModel};
use crate::component::RelationshipTarget;
use crate::evaluation::{batch_runs, batches_of, batches_view, BatchModel, PlannedBatch};
use crate::invocation::{Invocation, InvocationMap, SystemId};
use crate::memo::{plan_invocations, to_run, MemoModel, MemoTable};
use crate::model::outputs;
use crate::param::{system_states, JoinError};
use crate::registry::SystemModel;
use crate::state::inputs::covered_inputs;
use crate::system::{runs_view, Phase, SystemRun};
use crate::world::World;
use vstd::prelude::*;

verus! {

/// What a settling caller does next.
#[derive(Debug, Clone, Copy, PartialEq, Eq, Structural)]
pub enum SettleStep {
    /// Inputs were promoted: look again.
    Again,
    /// The bowl is settled.
    Done,
    /// Drive the bowl until this generation is complete.
    Drive(u64),
}

/// What a settling caller does once its target is complete.
#[derive(Debug, Clone, Copy, PartialEq, Eq, Structural)]
pub enum SettleCheck {
    /// Inputs were promoted: look again.
    Again,
    /// The bowl is settled.
    Done,
    /// The last generation changed nothing: run the settled hooks, then the
    /// settle phase.
    Converged,
    /// There is more to do; the next generation is pending.
    Continue,
}

impl<C: RelationshipTarget> StateModel<C> {
    /// The state with a snapshot of the settled world retained.
    pub open spec fn retaining(self) -> StateModel<C> {
        StateModel { retained: Some(self.world.snapshot()), ..self }
    }

    /// The state at an epoch boundary: covered inputs are promoted; when there
    /// are none, the settled world is retained.
    pub open spec fn at_epoch_boundary(self, watermark: u64) -> StateModel<C> {
        if covered_inputs(self.deferred, watermark).len() > 0 {
            self.promoted(watermark)
        } else {
            self.retaining()
        }
    }

    /// The generation a settling caller drives: the pending one, else the running
    /// one, else the completed one.
    pub open spec fn settle_target(self) -> u64 {
        match (self.pending, self.running) {
            (Some(generation), _) => generation,
            (None, Some(generation)) => generation,
            (None, None) => self.completed,
        }
    }
}

impl<C: RelationshipTarget> State<C> {
    /// Whether the bowl is fully settled.
    pub fn is_settled(&self) -> (settled: bool)
        ensures
            settled == self@.is_settled(),
    {
        self.pending_generation.is_none() && self.running_generation.is_none()
            && self.world.revision_raw() == self.settled_revision
    }

    /// Revision counter of the last settled state.
    pub fn settled_revision(&self) -> (revision: u64)
        ensures
            revision == self@.settled_revision,
    {
        self.settled_revision
    }

    /// With nothing pending, running, changed or deferred there is no epoch to
    /// drive. Returns whether that is so.
    pub fn settle_fast_path(&mut self) -> (settled: bool)
        requires
            old(self).wf(),
        ensures
            final(self).wf(),
            settled == (old(self)@.is_settled() && old(self)@.deferred.len() == 0),
            final(self)@ == if settled {
                old(self)@.retaining()
            } else {
                old(self)@
            },
    {
        let empty = self.deferred_inputs.len() == 0;
        assert(self@.deferred.len() == self.deferred_inputs@.len());
        if self.is_settled() && empty {
            self.refresh_settled_snapshot();
            true
        } else {
            false
        }
    }

    fn epoch_boundary(&mut self, watermark: u64) -> (promoted: bool)
        requires
            old(self).wf(),
        ensures
            final(self).wf(),
            promoted == (covered_inputs(old(self)@.deferred, watermark).len() > 0),
            final(self)@ == old(self)@.at_epoch_boundary(watermark),
    {
        if self.promote_deferred_inputs(watermark) {
            true
        } else {
            self.refresh_settled_snapshot();
            false
        }
    }

    /// The step of a settling caller: at an epoch boundary it takes up the inputs
    /// that are its responsibility, and is done when there are none; otherwise it
    /// drives the generation that is due.
    pub fn settle_step(&mut self, watermark: u64) -> (step: SettleStep)
        requires
            old(self).wf(),
        ensures
            final(self).wf(),
            if old(self)@.is_settled() {
                &&& final(self)@ == old(self)@.at_epoch_boundary(watermark)
                &&& step == if covered_inputs(old(self)@.deferred, watermark).len() > 0 {
                    SettleStep::Again
                } else {
                    SettleStep::Done
                }
            } else {
                &&& final(self)@ == old(self)@
                &&& step == SettleStep::Drive(old(self)@.settle_target())
            },
    {
        if self.is_settled() {
            if self.epoch_boundary(watermark) {
                return SettleStep::Again;
            }
            return SettleStep::Done;
        }
        let target = match self.pending_generation {
            Some(generation) => generation,
            None => match self.running_generation {
                Some(generation) => generation,
                None => self.completed_generation,
            },
        };
        SettleStep::Drive(target)
    }

    /// The check of a settling caller once its target is complete.
    pub fn settle_check(&mut self, watermark: u64) -> (check: SettleCheck)
        requires
            old(self).wf(),
        ensures
            final(self).wf(),
            if old(self)@.is_settled() {
                &&& final(self)@ == old(self)@.at_epoch_boundary(watermark)
                &&& check == if covered_inputs(old(self)@.deferred, watermark).len() > 0 {
                    SettleCheck::Again
                } else {
                    SettleCheck::Done
                }
            } else if old(self)@.pending is None && old(self)@.running is None
                && old(self)@.clean {
                final(self)@ == old(self)@ && check == SettleCheck::Converged
            } else {
                final(self)@ == old(self)@.pended() && check == SettleCheck::Continue
            },
    {
        if self.is_settled() {
            if self.epoch_boundary(watermark) {
                return SettleCheck::Again;
            }
            return SettleCheck::Done;
        }
        if self.pending_generation.is_none() && self.running_generation.is_none()
            && self.normal_clean {
            return SettleCheck::Converged;
        }
        self.enqueue_next_generation();
        SettleCheck::Continue
    }

    /// Hands the memo table to a runner.
    pub fn take_memo(&mut self) -> (memo: MemoTable)
        requires
            old(self).wf(),
        ensures
            final(self).wf(),
            memo.wf(),
            memo@ == old(self)@.memo,
            final(self)@ == (StateModel { memo: Map::empty(), ..old(self)@ }),
    {
        let mut memo: MemoTable = InvocationMap::new();
        std::mem::swap(&mut memo, &mut self.memo);
        assert(self@.memo =~= Map::<Invocation, MemoModel>::empty());
        memo
    }

    /// The systems whose settled hook is due, in registration order. Systems of
    /// the settle phase have none.
    pub fn due_settled_hooks(&self, snapshot: &World<C>, memo: &MemoTable) -> (due: Result<
        Vec<SystemId>,
        JoinError,
    >)
        requires
            self.wf(),
            snapshot.wf(),
            memo.wf(),
        ensures
            match due {
                Ok(due) => hooks_due(self@, snapshot@, memo@, self@.systems.len()) == Ok::<
                    Seq<SystemId>,
                    JoinError,
                >(due@),
                Err(error) => hooks_due(self@, snapshot@, memo@, self@.systems.len()) == Err::<
                    Seq<SystemId>,
                    JoinError,
                >(error),
            },
    {
        let ghost models = self@.systems;
        let mut due: Vec<SystemId> = Vec::new();
        let mut i: usize = 0;
        while i < self.systems.len()
            invariant
                self.wf(),
                snapshot.wf(),
                memo.wf(),
                i <= self.systems@.len(),
                models == self@.systems,
                models.len() == self.systems@.len(),
                hooks_due(self@, snapshot@, memo@, i as nat) == Ok::<Seq<SystemId>, JoinError>(due@),
            decreases self.systems@.len() - i,
        {
            assert(models[i as int] == self.systems@[i as int]@);
            if self.systems[i].phase != Phase::Settle {
                match self.systems[i].settled_due(&self.world, snapshot, memo) {
                    Ok(true) => {
                        due.push(self.systems[i].id);
                    },
                    Ok(false) => {},
                    Err(error) => {
                        proof {
                            lemma_failed_hooks(
                                self@,
                                snapshot@,
                                memo@,
                                (i + 1) as nat,
                                models.len(),
                            );
                        }
                        return Err(error);
                    },
                }
            }
            i = i + 1;
        }
        Ok(due)
    }

    /// Commits the runs of settled hooks.
    pub fn commit_settled_hooks(&mut self, memo: &mut MemoTable, runs: Vec<SystemRun<C>>) -> (outcome:
        Result<CommitProgress, CommitError>)
        requires
            old(self).wf(),
            old(memo).wf(),
        ensures
            final(self).wf(),
            final(memo).wf(),
            ({
                let after = commit_runs(
                    old(self)@.commit_state(old(memo)@),
                    runs_view(runs@),
                    old(self)@.checks(),
                );
                &&& final(memo)@ == after.0.memo
                &&& final(self)@ == (StateModel {
                    world: after.0.world,
                    held: after.0.held,
                    ..old(self)@
                })
                &&& match outcome {
                    Ok(progress) => after.1 == Ok::<CommitProgress, RefusalModel>(progress),
                    Err(error) => after.1 == Err::<CommitProgress, RefusalModel>(error@),
                }
            }),
    {
        self.snapshot_cache = None;
        commit_system_runs(
            &mut self.world,
            memo,
            &mut self.deferred_settle,
            &self.systems,
            &self.schema,
            self.checked,
            runs,
        )
    }

    /// Ends the settled hooks. When they changed something another generation is
    /// due; otherwise the world as it is counts as settled. Returns whether they
    /// changed something.
    pub fn finish_settled_hooks(&mut self, memo: MemoTable, needs_followup: bool) -> (again: bool)
        requires
            old(self).wf(),
            memo.wf(),
        ensures
            final(self).wf(),
            again == needs_followup,
            ({
                let restored = StateModel { memo: memo@, ..old(self)@ };
                final(self)@ == if needs_followup {
                    restored.pended()
                } else {
                    StateModel { settled_revision: old(self)@.world.revision, ..restored }
                }
            }),
    {
        self.memo = memo;
        if needs_followup {
            self.enqueue_next_generation();
        } else {
            self.settled_revision = self.world.revision_raw();
        }
        needs_followup
    }

    /// Plans the settle phase: every row of its systems that is not up to date,
    /// grouped into what runs together.
    pub fn plan_settle_phase(&self, snapshot: &World<C>, memo: &MemoTable) -> (plan: Result<
        Vec<PlannedBatch>,
        JoinError,
    >)
        requires
            self.wf(),
            snapshot.wf(),
            memo.wf(),
        ensures
            match plan {
                Ok(plan) => settle_plan(self@, snapshot@, memo@, self@.systems.len()) == Ok::<
                    Seq<BatchModel>,
                    JoinError,
                >(batches_view(plan@)),
                Err(error) => settle_plan(self@, snapshot@, memo@, self@.systems.len()) == Err::<
                    Seq<BatchModel>,
                    JoinError,
                >(error),
            },
    {
        let ghost models = self@.systems;
        let mut plan: Vec<PlannedBatch> = Vec::new();
        let mut i: usize = 0;
        assert(batches_view(plan@) =~= Seq::<BatchModel>::empty());
        while i < self.systems.len()
            invariant
                self.wf(),
                snapshot.wf(),
                memo.wf(),
                i <= self.systems@.len(),
                models == self@.systems,
                models.len() == self.systems@.len(),
                settle_plan(self@, snapshot@, memo@, i as nat) == Ok::<
                    Seq<BatchModel>,
                    JoinError,
                >(batches_view(plan@)),
            decreases self.systems@.len() - i,
        {
            assert(models[i as int] == self.systems@[i as int]@);
            if self.systems[i].phase == Phase::Settle {
                match plan_invocations(
                    self.systems[i].id,
                    snapshot,
                    &self.systems[i].params,
                    memo,
                ) {
                    Ok(run) => {
                        let ghost before = plan@;
                        let mut more = batch_runs(&self.systems[i], run.invocations);
                        let ghost added = more@;
                        plan.append(&mut more);
                        assert(batches_view(plan@) =~= batches_view(before) + batches_view(added));
                    },
                    Err(error) => {
                        proof {
                            lemma_failed_settle_plan(
                                self@,
                                snapshot@,
                                memo@,
                                (i + 1) as nat,
                                models.len(),
                            );
                        }
                        return Err(error);
                    },
                }
            }
            i = i + 1;
        }
        Ok(plan)
    }

    /// Ends the settle phase: the world as it is counts as settled.
    pub fn finish_settle_phase(&mut self, memo: MemoTable)
        requires
            old(self).wf(),
            memo.wf(),
        ensures
            final(self).wf(),
            final(self)@ == (StateModel {
                memo: memo@,
                settled_revision: old(self)@.world.revision,
                ..old(self)@
            }),
    {
        self.memo = memo;
        self.settled_revision = self.world.revision_raw();
    }

    /// Ends a settle that did work. `None` means that inputs were promoted and
    /// the caller has to go on; otherwise the returned callers watch for settles
    /// and are to be woken.
    pub fn settle_end(&mut self, watermark: u64) -> (watchers: Option<Vec<Ticket>>)
        requires
            old(self).wf(),
        ensures
            final(self).wf(),
            if covered_inputs(old(self)@.deferred, watermark).len() > 0 {
                watchers is None && final(self)@ == old(self)@.promoted(watermark)
            } else {
                &&& watchers matches Some(list) && list@ == old(self)@.watchers
                &&& final(self)@ == (StateModel {
                    watchers: Seq::empty(),
                    ..old(self)@.retaining()
                })
            },
    {
        if self.epoch_boundary(watermark) {
            return None;
        }
        let mut watchers: Vec<Ticket> = Vec::new();
        watchers.append(&mut self.settle_watchers);
        Some(watchers)
    }
}

/// Whether the settled hook of a system is due, given the world that knows what
/// is owned.
pub open spec fn hook_due<C: RelationshipTarget>(
    state: StateModel<C>,
    snapshot: crate::model::WorldModel<C>,
    memo: Map<Invocation, MemoModel>,
    system: SystemModel,
) -> Result<bool, JoinError> {
    if system.phase == Phase::Settle || !system.settles() {
        Ok(false)
    } else {
        match system_states(snapshot, system.params) {
            Err(error) => Err(error),
            Ok(states) => Ok(
                states.len() > 0 && to_run(
                    system.id,
                    snapshot,
                    memo,
                    system.params,
                    states,
                ).len() == 0 && outputs(
                    state.world.owned,
                    Invocation { system: system.id, keys: Seq::empty() },
                ).len() == 0,
            ),
        }
    }
}

/// The first `count` systems whose settled hook is due.
pub open spec fn hooks_due<C: RelationshipTarget>(
    state: StateModel<C>,
    snapshot: crate::model::WorldModel<C>,
    memo: Map<Invocation, MemoModel>,
    count: nat,
) -> Result<Seq<SystemId>, JoinError>
    decreases count,
{
    if count == 0 {
        Ok(Seq::empty())
    } else {
        match hooks_due(state, snapshot, memo, (count - 1) as nat) {
            Err(error) => Err(error),
            Ok(due) => match hook_due(state, snapshot, memo, state.systems[count - 1]) {
                Err(error) => Err(error),
                Ok(true) => Ok(due.push(state.systems[count - 1].id)),
                Ok(false) => Ok(due),
            },
        }
    }
}

proof fn lemma_failed_hooks<C: RelationshipTarget>(
    state: StateModel<C>,
    snapshot: crate::model::WorldModel<C>,
    memo: Map<Invocation, MemoModel>,
    failed: nat,
    count: nat,
)
    requires
        failed <= count,
        hooks_due(state, snapshot, memo, failed) is Err,
    ensures
        hooks_due(state, snapshot, memo, count) == hooks_due(state, snapshot, memo, failed),
    decreases count,
{
    if failed < count {
        lemma_failed_hooks(state, snapshot, memo, failed, (count - 1) as nat);
    }
}

/// The plan of the settle-phase systems among the first `count`.
pub open spec fn settle_plan<C: RelationshipTarget>(
    state: StateModel<C>,
    snapshot: crate::model::WorldModel<C>,
    memo: Map<Invocation, MemoModel>,
    count: nat,
) -> Result<Seq<BatchModel>, JoinError>
    decreases count,
{
    if count == 0 {
        Ok(Seq::empty())
    } else {
        let system = state.systems[count - 1];
        match settle_plan(state, snapshot, memo, (count - 1) as nat) {
            Err(error) => Err(error),
            Ok(plan) => if system.phase != Phase::Settle {
                Ok(plan)
            } else {
                match system_states(snapshot, system.params) {
                    Err(error) => Err(error),
                    Ok(states) => Ok(
                        plan + batches_of(
                            system,
                            to_run(system.id, snapshot, memo, system.params, states),
                        ),
                    ),
                }
            },
        }
    }
}

proof fn lemma_failed_settle_plan<C: RelationshipTarget>(
    state: StateModel<C>,
    snapshot: crate::model::WorldModel<C>,
    memo: Map<Invocation, MemoModel>,
    failed: nat,
    count: nat,
)
    requires
        failed <= count,
        settle_plan(state, snapshot, memo, failed) is Err,
    ensures
        settle_plan(state, snapshot, memo, count) == settle_plan(state, snapshot, memo, failed),
    decreases count,
{
    if failed < count {
        lemma_failed_settle_plan(state, snapshot, memo, failed, (count - 1) as nat);
    }
}

/// A caller is told that the bowl is settled only when it is: nothing pending,
/// nothing running, no tracked change since the last settle, and no deferred
/// input that is the caller's responsibility. What is retained for stale reads is
/// then the settled world.
pub proof fn lemma_settled_means_settled<C: RelationshipTarget>(
    state: StateModel<C>,
    watermark: u64,
)
    requires
        state.is_settled(),
        covered_inputs(state.deferred, watermark).len() == 0,
    ensures
        state.at_epoch_boundary(watermark).is_settled(),
        state.at_epoch_boundary(watermark).retained == Some(state.world.snapshot()),
        state.at_epoch_boundary(watermark).world == state.world,
{
}

/// A promoted input unsettles the bowl: the caller goes on driving.
pub proof fn lemma_promotion_unsettles<C: RelationshipTarget>(
    state: StateModel<C>,
    watermark: u64,
)
    requires
        covered_inputs(state.deferred, watermark).len() > 0,
    ensures
        !state.promoted(watermark).is_settled(),
{
}

} // verus!
