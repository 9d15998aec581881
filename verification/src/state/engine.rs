//! Driving a bowl to the end: waves, phases, generations and settling, with the
//! bodies of the systems called in between.

use super::{State, StateModel, Ticket};
use crate::commands::{ApplyError, EntityAllocator};
use crate::commit::{
    commit_run, commit_runs, CheckModel, CommitError, CommitModel, CommitProgress, RefusalModel,
};
use crate::commit_laws::lemma_commit_recorded;
use crate::component::RelationshipTarget;
use crate::evaluation::{
    batches_view, Admission, BatchModel, BudgetError, CommitBudget, CommitLimit, DriverModel,
    DriverStep, PhaseDriver, PhasePlan,
};
use crate::invocation::{Invocation, SystemId, SystemInvocation};
use crate::log_laws::{lemma_aside_recorded, lemma_recorded_trans, recorded};
use crate::memo::{MemoModel, MemoTable};
use crate::model::WorldModel;
use crate::param::JoinError;
use crate::registry::SystemModel;
use crate::state::bodies::{
    batch_owners, output_owners, run_batch, run_hook, updates_of, SystemBodies,
};
use crate::state::course::{
    bare_runs, batches_ran, lemma_admission_by_flight, lemma_batch_ran_on, lemma_phase_leads_on,
    lemma_settled_ran_on, picked_batches, runs_of_batches, runs_of_picked, settled_position,
    settled_ran, settled_run, taken_up, wrappers_around, TakenModel, Trail,
};
use crate::state::inputs::covered_inputs;
use crate::state::generation::{opened, Evaluation};
use crate::state::settle::{SettleCheck, SettleStep};
use crate::state::wave::{after_wave, wave_batches, wave_due};
use crate::system::{Phase, RunModel, SystemRun, Wrapper};
use crate::world::World;
use vstd::prelude::*;

verus! {

/// Why a bowl could not be driven on.
#[derive(Debug)]
pub enum EngineError {
    /// A join cannot be planned.
    Join(JoinError),
    /// A commit was refused.
    Commit(CommitError),
    /// Too many commits were accepted.
    Budget(BudgetError),
    /// An input was refused.
    Apply(ApplyError),
    /// The bowl did not come to rest.
    Unsettled,
}

impl<C: RelationshipTarget> StateModel<C> {
    /// The state moved on by running systems: the world by recorded steps, with it
    /// what is held back and what the systems know of their planning. Nothing
    /// else.
    pub open spec fn ran_to(self, after: StateModel<C>) -> bool {
        &&& recorded(self.world, after.world)
        &&& after.systems.len() == self.systems.len()
        &&& self.only_ran(after)
    }

    /// Whether the states agree in all but the world, what is held back, the systems
    /// and their counters.
    pub open spec fn only_ran(self, after: StateModel<C>) -> bool {
        after == (StateModel {
            world: after.world,
            held: after.held,
            systems: after.systems,
            counters: after.counters,
            ..self
        })
    }
}

/// Running on composes.
pub proof fn lemma_ran_trans<C: RelationshipTarget>(
    a: StateModel<C>,
    b: StateModel<C>,
    c: StateModel<C>,
)
    requires
        a.ran_to(b),
        b.ran_to(c),
    ensures
        a.ran_to(c),
{
    lemma_recorded_trans(a.world, b.world, c.world);
}

/// Standing still is running on.
pub proof fn lemma_ran_refl<C: RelationshipTarget>(a: StateModel<C>)
    ensures
        a.ran_to(a),
{
    lemma_aside_recorded(a.world, a.world);
}

/// The runs of a wave: each is of one of the planned batches, and every planned
/// owner has one.
pub open spec fn runs_of_wave<C: RelationshipTarget>(
    systems: Seq<SystemModel>,
    batches: Seq<BatchModel>,
    revision: u64,
    runs: Seq<(Invocation, RunModel<C>)>,
    picked: Seq<int>,
) -> bool {
    &&& picked.len() == runs.len()
    &&& forall|j: int|
        #![trigger runs[j]]
        #![trigger picked[j]]
        0 <= j < runs.len() ==> 0 <= picked[j] < batches.len() && run_of(
            systems,
            batches[picked[j]],
            revision,
            runs[j],
        )
    &&& forall|i: int| 0 <= i < batches.len() ==> has_run(runs, (#[trigger] batches[i]).owner)
}

/// Whether an owner has a run.
pub open spec fn has_run<C: RelationshipTarget>(
    runs: Seq<(Invocation, RunModel<C>)>,
    owner: Invocation,
) -> bool {
    exists|j: int| 0 <= j < runs.len() && (#[trigger] runs[j]).0 == owner
}

/// A run of a batch: recorded with what its invocations observed, one output for
/// each of them and for each hook.
pub open spec fn run_of<C: RelationshipTarget>(
    systems: Seq<SystemModel>,
    batch: BatchModel,
    revision: u64,
    run: (Invocation, RunModel<C>),
) -> bool {
    &&& run.0 == batch.owner
    &&& run.1.completed
    &&& run.1.updates == updates_of(batch.invocations, revision)
    &&& output_owners(run.1.outputs) == batch_owners(
        batch.owner.system,
        wrappers_around(systems, batch.owner.system),
        batch.invocations,
    )
}

/// Runs with their owners.
pub open spec fn owned_runs<C: RelationshipTarget>(
    runs: Seq<(SystemInvocation, SystemRun<C>)>,
) -> Seq<(Invocation, RunModel<C>)> {
    runs.map_values(|run: (SystemInvocation, SystemRun<C>)| (run.0@, run.1@))
}

/// Commits, one after the other, of runs that changed nothing and were not out of
/// date.
pub open spec fn quiet_commits<C: RelationshipTarget>(
    before: CommitModel<C>,
    runs: Seq<(Invocation, RunModel<C>)>,
    phase: Phase,
    checks: CheckModel,
) -> Option<CommitModel<C>>
    decreases runs.len(),
{
    if runs.len() == 0 {
        Some(before)
    } else {
        match quiet_commits(before, runs.drop_last(), phase, checks) {
            None => None,
            Some(middle) => {
                let after = commit_run(middle, runs.last().1, Some(phase), checks);
                match after.1 {
                    Ok(progress) => if progress.needs_followup || progress.stale {
                        None
                    } else {
                        Some(after.0)
                    },
                    Err(_) => None,
                }
            },
        }
    }
}

impl<C: RelationshipTarget> StateModel<C> {
    /// What a wave of `phase` plans.
    pub open spec fn wave(self, phase: Phase, memo: Map<Invocation, MemoModel>) -> Result<
        Seq<BatchModel>,
        JoinError,
    > {
        wave_batches(
            self.systems,
            phase,
            self.world.snapshot(),
            memo,
            self.world.log,
            self.world.epoch,
            self.systems.len(),
        )
    }

    /// Whether these are the runs of all that a wave of `phase` plans.
    pub open spec fn wave_ran(
        self,
        phase: Phase,
        memo: Map<Invocation, MemoModel>,
        runs: Seq<(Invocation, RunModel<C>)>,
    ) -> bool {
        self.wave(phase, memo) matches Ok(batches) && exists|picked: Seq<int>| #[trigger]
            runs_of_wave(
                self.systems,
                batches,
                self.world.snapshot().revision,
                runs,
                picked,
            )
    }

    /// The systems after a wave of `phase` was planned.
    pub open spec fn systems_after_wave(self, phase: Phase) -> Seq<SystemModel> {
        self.systems.map_values(
            |system: SystemModel|
                after_wave(system, phase, self.world.snapshot(), self.world.log, self.world.epoch),
        )
    }
}

impl<C: RelationshipTarget> State<C> {
    /// The hooks around a system, innermost first.
    pub fn wrappers_of(&self, system: SystemId) -> (wrappers: Vec<Wrapper>)
        ensures
            wrappers@ == wrappers_around(self@.systems, system),
    {
        let mut wrappers: Vec<Wrapper> = Vec::new();
        assert(self@.systems.len() == self.systems@.len());
        if system.0 >= self.systems.len() {
            return wrappers;
        }
        let all = &self.systems[system.0].wrappers;
        assert(self@.systems[system.0 as int].wrappers == all@);
        let mut i: usize = 0;
        while i < all.len()
            invariant
                i <= all@.len(),
                wrappers@ =~= all@.take(i as int),
            decreases all@.len() - i,
        {
            wrappers.push(all[i]);
            i = i + 1;
        }
        assert(all@.take(all@.len() as int) =~= all@);
        wrappers
    }

    /// Plans a wave and runs what can be taken up. What clashes with something
    /// taken up before is left to the next wave. Each run is counted for its system;
    /// there is no clock here to charge its time by.
    fn start_wave<B: SystemBodies<C>>(
        &mut self,
        phase: Phase,
        snapshot: &World<C>,
        memo: &MemoTable,
        bodies: &mut B,
        driver: &mut PhaseDriver,
    ) -> (started: Result<Vec<(SystemInvocation, SystemRun<C>)>, EngineError>)
        requires
            old(self).wf(),
            snapshot.wf(),
            snapshot@ == old(self)@.world.snapshot(),
            memo.wf(),
            old(driver).wf(),
            old(driver)@.running.len() == 0,
            !old(driver)@.deferred,
        ensures
            final(self).wf(),
            final(driver).wf(),
            match started {
                Ok(runs) => {
                    &&& old(self)@.wave(phase, memo@) matches Ok(batches) && {
                        let taken = old(self)@.wave_taken(phase, batches);
                        &&& final(self)@ == taken.state.allocated(final(self)@.world.next_entity)
                        &&& runs_of_picked(
                            old(self)@.systems,
                            batches,
                            taken.picked,
                            old(self)@.world.snapshot().revision,
                            owned_runs(runs@),
                        )
                        &&& batches_ran(
                            *old(bodies),
                            old(self)@.systems,
                            picked_batches(batches, taken.picked),
                            old(self)@.world.snapshot(),
                            old(self)@.world.next_entity,
                            *final(bodies),
                            final(self)@.world.next_entity,
                            bare_runs(owned_runs(runs@)),
                        )
                    }
                    &&& final(driver)@ == (DriverModel {
                        running: final(driver)@.running,
                        deferred: final(driver)@.deferred,
                        ..old(driver)@
                    })
                    &&& final(self)@ == (StateModel {
                        world: WorldModel {
                            next_entity: final(self)@.world.next_entity,
                            ..old(self)@.world
                        },
                        systems: final(self)@.systems,
                        counters: final(self)@.counters,
                        ..old(self)@
                    })
                    &&& final(self)@.systems.len() == old(self)@.systems.len()
                    &&& final(driver)@.running.len() == runs@.len()
                    &&& final(driver)@.deferred ==> runs@.len() > 0
                    &&& forall|j: int|
                        0 <= j < runs@.len() ==> (#[trigger] final(driver)@.running[j]).0
                            == runs@[j].0@
                    &&& !final(driver)@.deferred ==> final(self)@.systems
                        == old(self)@.systems_after_wave(phase) && old(self)@.wave_ran(
                        phase,
                        memo@,
                        owned_runs(runs@),
                    )
                },
                Err(error) => {
                    &&& old(self)@.only_ran(final(self)@)
                    &&& final(self)@.world == old(self)@.world
                    &&& *final(bodies) == *old(bodies)
                    &&& error matches EngineError::Join(error) && old(self)@.wave(phase, memo@)
                        == Err::<Seq<BatchModel>, JoinError>(error)
                },
            },
    {
        let ghost before = self@;
        let batches = match self.plan_wave(phase, snapshot, memo) {
            Ok(batches) => batches,
            Err(error) => {
                return Err(EngineError::Join(error));
            },
        };
        let ghost all = batches_view(batches@);
        let ghost planned_systems = self@.systems;
        let ghost planned = self@;
        let mut allocator = EntityAllocator::new(self.world.next_entity_raw());
        let mut rest = batches;
        let mut runs: Vec<(SystemInvocation, SystemRun<C>)> = Vec::new();
        let ghost mut done: int = 0;
        let ghost mut picked: Seq<int> = Seq::empty();
        proof {
            assert(planned_systems =~= before.systems_after_wave(phase));
            assert(before.wave(phase, memo@) == Ok::<Seq<BatchModel>, JoinError>(all));
            assert(all.skip(0) =~= all);
            assert(all.take(0) =~= Seq::<BatchModel>::empty());
            assert(driver@.running =~= Seq::empty());
            assert(picked_batches(all, picked) =~= Seq::<BatchModel>::empty());
            assert(bare_runs(owned_runs(runs@)) =~= Seq::<RunModel<C>>::empty());
            assert forall|k: int| 0 <= k < before.systems.len() implies (
            #[trigger] planned_systems[k]).wrappers == before.systems[k].wrappers by {}
        }
        while rest.len() > 0
            invariant
                self.wf(),
                snapshot.wf(),
                driver.wf(),
                before == old(self)@,
                snapshot@ == before.world.snapshot(),
                batches_ran(
                    *old(bodies),
                    before.systems,
                    picked_batches(all, picked),
                    snapshot@,
                    before.world.next_entity,
                    *bodies,
                    allocator@,
                    bare_runs(owned_runs(runs@)),
                ),
                0 <= done,
                done + rest@.len() == all.len(),
                batches_view(rest@) =~= all.skip(done),
                planned_systems == before.systems_after_wave(phase),
                taken_up(planned, all.take(done)) == (TakenModel {
                    state: self@,
                    running: driver@.running,
                    picked,
                }),
                self@ == (StateModel {
                    systems: self@.systems,
                    counters: self@.counters,
                    ..before
                }),
                self@.systems.len() == before.systems.len(),
                forall|k: int|
                    0 <= k < before.systems.len() ==> (#[trigger] self@.systems[k]).wrappers
                        == before.systems[k].wrappers,
                driver@ == (DriverModel {
                    running: driver@.running,
                    deferred: driver@.deferred,
                    ..old(driver)@
                }),
                driver@.running.len() == runs@.len(),
                driver@.deferred ==> runs@.len() > 0,
                forall|j: int|
                    0 <= j < runs@.len() ==> (#[trigger] driver@.running[j]).0 == runs@[j].0@,
                picked.len() == runs@.len(),
                forall|j: int|
                    0 <= j < picked.len() ==> 0 <= #[trigger] picked[j] < all.len() && run_of(
                        before.systems,
                        all[picked[j]],
                        snapshot@.revision,
                        (runs@[j].0@, runs@[j].1@),
                    ),
                !driver@.deferred ==> self@.systems == planned_systems,
                !driver@.deferred ==> forall|i: int|
                    0 <= i < done ==> driver@.runs((#[trigger] all[i]).owner),
            decreases rest@.len(),
        {
            let ghost held = rest@;
            let ghost running_before = driver@.running;
            let ghost runs_before = runs@;
            let batch = rest.remove(0);
            proof {
                assert(batches_view(held)[0] == all.skip(done)[0]);
                assert(batch@ == all[done]);
                assert(batches_view(rest@) =~= batches_view(held).drop_first());
                assert(all.skip(done + 1) =~= all.skip(done).drop_first());
            }
            let ghost model = driver@;
            proof {
                lemma_admission_by_flight(model, batch@);
                assert(all.take(done + 1).drop_last() =~= all.take(done));
            }
            match driver.take_up(&batch.owner, &batch.access) {
                Admission::Duplicate => {
                    proof {
                        let j = choose|j: int|
                            0 <= j < model.running.len() && (#[trigger] model.running[j]).0
                                == batch@.owner;
                        assert(driver@.running[j].0 == all[done].owner);
                    }
                },
                Admission::Deferred => {
                    self.force_replan(&batch.owner);
                },
                _ => {
                    let wrappers = self.wrappers_of(batch.owner.system);
                    let owner = batch.owner.duplicate();
                    let ghost middle = *bodies;
                    let ghost at = allocator@;
                    let run = run_batch(bodies, &wrappers, batch, snapshot, &mut allocator);
                    let ghost left = run@;
                    self.record_poll(owner.system, 0, true);
                    runs.push((owner, run));
                    proof {
                        assert(wrappers@ == wrappers_around(before.systems, batch@.owner.system));
                        lemma_batch_ran_on(
                            *old(bodies),
                            before.systems,
                            picked_batches(all, picked),
                            snapshot@,
                            before.world.next_entity,
                            middle,
                            at,
                            bare_runs(owned_runs(runs_before)),
                            batch@,
                            *bodies,
                            allocator@,
                            left,
                        );
                        assert(bare_runs(owned_runs(runs@)) =~= bare_runs(
                            owned_runs(runs_before),
                        ).push(left));
                        assert(picked_batches(all, picked.push(done)) =~= picked_batches(
                            all,
                            picked,
                        ).push(batch@));
                        picked = picked.push(done);
                        assert(driver@.running == running_before.push((batch@.owner, batch@.access)));
                        assert forall|j: int| 0 <= j < runs@.len() implies (
                        #[trigger] driver@.running[j]).0 == runs@[j].0@ by {
                            if j < runs_before.len() {
                                assert(running_before[j].0 == runs_before[j].0@);
                            }
                        }
                        assert(driver@.running[runs_before.len() as int].0 == all[done].owner);
                        assert forall|j: int| 0 <= j < picked.len() implies 0 <= #[trigger] picked[j]
                            < all.len() && run_of(
                            before.systems,
                            all[picked[j]],
                            snapshot@.revision,
                            (runs@[j].0@, runs@[j].1@),
                        ) by {
                            if j < runs_before.len() {
                                assert(runs@[j] == runs_before[j]);
                            }
                        }
                    }
                },
            }
            proof {
                if !driver@.deferred {
                    assert forall|i: int| 0 <= i < done + 1 implies driver@.runs(
                        (#[trigger] all[i]).owner,
                    ) by {
                        if i < done {
                            assert(model.runs(all[i].owner));
                            let j = choose|j: int|
                                0 <= j < running_before.len() && (#[trigger] running_before[j]).0
                                    == all[i].owner;
                            assert(driver@.running[j] == running_before[j]);
                        }
                    }
                }
                done = done + 1;
            }
        }
        let ghost taken = self@;
        self.advance_entities(allocator.next_entity());
        proof {
            assert(all.take(done) =~= all);
            assert(planned == (StateModel { systems: before.systems_after_wave(phase), ..before }));
            assert(self@ == taken.allocated(self@.world.next_entity));
            let view = owned_runs(runs@);
            assert forall|j: int|
                #![trigger view[j]]
                #![trigger picked[j]]
                0 <= j < view.len() implies 0 <= picked[j] < all.len() && run_of(
                before.systems,
                all[picked[j]],
                snapshot@.revision,
                view[j],
            ) by {
                assert(view[j] == (runs@[j].0@, runs@[j].1@));
            }
            if !driver@.deferred {
                assert(runs_of_wave(before.systems, all, snapshot@.revision, view, picked)) by {
                    assert forall|j: int|
                        #![trigger view[j]]
                        #![trigger picked[j]]
                        0 <= j < view.len() implies 0 <= picked[j] < all.len() && run_of(
                        before.systems,
                        all[picked[j]],
                        snapshot@.revision,
                        view[j],
                    ) by {
                        assert(view[j] == (runs@[j].0@, runs@[j].1@));
                    }
                    assert forall|i: int| 0 <= i < all.len() implies has_run(
                        view,
                        (#[trigger] all[i]).owner,
                    ) by {
                        assert(driver@.runs(all[i].owner));
                        let j = choose|j: int|
                            0 <= j < driver@.running.len() && (#[trigger] driver@.running[j]).0
                                == all[i].owner;
                        assert(view[j].0 == runs@[j].0@);
                    }
                }
                assert(runs_of_wave(
                    before.systems,
                    before.wave(phase, memo@)->Ok_0,
                    before.world.snapshot().revision,
                    owned_runs(runs@),
                    picked,
                ));
                assert(before.wave_ran(phase, memo@, owned_runs(runs@)));
            }
        }
        Ok(runs)
    }
}

impl<C: RelationshipTarget> StateModel<C> {
    /// Whether a wave planned here was the last one of its phase: all that it
    /// planned ran and was committed up to `after`, and none of it changed the
    /// world or was out of date.
    pub open spec fn closes(
        self,
        phase: Phase,
        memo: Map<Invocation, MemoModel>,
        runs: Seq<(Invocation, RunModel<C>)>,
        next_entity: u64,
        after: StateModel<C>,
        after_memo: Map<Invocation, MemoModel>,
    ) -> bool {
        &&& self.wave_ran(phase, memo, runs)
        &&& after.systems == self.systems_after_wave(phase)
        &&& quiet_commits(
            CommitModel {
                world: WorldModel { next_entity, ..self.world },
                memo,
                held: self.held,
            },
            runs,
            phase,
            after.checks(),
        ) == Some(CommitModel { world: after.world, memo: after_memo, held: after.held })
    }

    /// Whether nothing is left to run in a phase: either no system of it has to be
    /// planned, or the last wave ran and changed nothing.
    pub open spec fn at_rest(self, phase: Phase, memo: Map<Invocation, MemoModel>) -> bool {
        ||| !wave_due(self.systems, phase, self.world.snapshot())
        ||| exists|
            before: StateModel<C>,
            before_memo: Map<Invocation, MemoModel>,
            runs: Seq<(Invocation, RunModel<C>)>,
            next_entity: u64,
        | #[trigger]
            before.closes(phase, before_memo, runs, next_entity, self, memo)
    }

    /// Whether the world moved on since `before`.
    pub open spec fn moved_since(self, before: StateModel<C>) -> bool {
        self.world.revision != before.world.revision || self.world.mutations
            != before.world.mutations
    }
}

/// A commit asks for another wave exactly when the world moved, and then it counts
/// as one commit.
pub proof fn lemma_followup_means_change<C: RelationshipTarget>(
    before: CommitModel<C>,
    run: RunModel<C>,
    phase: Option<Phase>,
    checks: CheckModel,
)
    requires
        commit_run(before, run, phase, checks).1 is Ok,
    ensures
        ({
            let after = commit_run(before, run, phase, checks);
            after.1->Ok_0.needs_followup == (after.0.world.revision != before.world.revision
                || after.0.world.mutations != before.world.mutations)
        }),
        ({
            let progress = commit_run(before, run, phase, checks).1->Ok_0;
            progress.commits == if progress.needs_followup {
                1u64
            } else {
                0
            }
        }),
{
    reveal(commit_run);
}

/// Commits that ask for nothing have moved nothing.
pub proof fn lemma_quiet_runs_move_nothing<C: RelationshipTarget>(
    before: CommitModel<C>,
    runs: Seq<RunModel<C>>,
    checks: CheckModel,
)
    requires
        commit_runs(before, runs, checks).1 matches Ok(progress) && !progress.needs_followup,
    ensures
        commit_runs(before, runs, checks).0.world.revision == before.world.revision,
        commit_runs(before, runs, checks).0.world.mutations == before.world.mutations,
    decreases runs.len(),
{
    if runs.len() > 0 {
        lemma_quiet_runs_move_nothing(before, runs.drop_last(), checks);
        let done = commit_runs(before, runs.drop_last(), checks);
        lemma_followup_means_change(done.0, runs.last(), None, checks);
    }
}

impl<C: RelationshipTarget> State<C> {
    /// Commits the runs of a wave, in order. Says whether a commit changed the
    /// world, and whether a run was out of date.
    fn finish_wave(
        &mut self,
        phase: Phase,
        memo: &mut MemoTable,
        budget: &mut CommitBudget,
        driver: &mut PhaseDriver,
        runs: Vec<(SystemInvocation, SystemRun<C>)>,
    ) -> (finished: Result<(bool, bool), EngineError>)
        requires
            old(self).wf(),
            old(memo).wf(),
            old(driver).wf(),
            old(driver)@.running.len() == runs@.len(),
            forall|j: int|
                0 <= j < runs@.len() ==> (#[trigger] old(driver)@.running[j]).0 == runs@[j].0@,
        ensures
            final(self).wf(),
            final(memo).wf(),
            final(driver).wf(),
            final(budget).bound() == old(budget).bound(),
            match finished {
                Ok((followup, stale)) => {
                    let commits = old(self)@.followups(old(memo)@, owned_runs(runs@), phase);
                    &&& old(budget).bound().allows(old(budget).accepted() as nat, commits)
                    &&& final(budget).accepted() == old(budget).accepted() + commits
                    &&& old(self)@.committing(old(memo)@, owned_runs(runs@), phase) == Ok::<
                        (StateModel<C>, Map<Invocation, MemoModel>),
                        RefusalModel,
                    >((final(self)@, final(memo)@))
                    &&& final(driver)@ == (DriverModel { running: Seq::empty(), ..old(driver)@ })
                    &&& old(self)@.ran_to(final(self)@)
                    &&& !followup ==> !final(self)@.moved_since(old(self)@)
                    &&& followup ==> final(self)@.moved_since(old(self)@)
                    &&& !followup && !stale ==> final(self)@.systems == old(self)@.systems
                        && quiet_commits(
                        old(self)@.commit_state(old(memo)@),
                        owned_runs(runs@),
                        phase,
                        old(self)@.checks(),
                    ) == Some(final(self)@.commit_state(final(memo)@))
                },
                Err(error) => {
                    &&& old(self)@.only_ran(final(self)@)
                    &&& exists|done: int| #[trigger]
                        old(self)@.commits_fail(
                            old(memo)@,
                            old(budget).bound(),
                            old(budget).accepted() as nat,
                            owned_runs(runs@),
                            phase,
                            done,
                            error,
                            final(self)@.world,
                        )
                },
            },
    {
        let ghost start = self@;
        let ghost start_memo = memo@;
        let ghost all = owned_runs(runs@);
        let ghost total = runs@.len();
        let mut rest = runs;
        let mut followup = false;
        let mut stale = false;
        let ghost limit = budget.bound();
        let ghost spent = budget.accepted() as nat;
        let ghost mut commits: nat = 0;
        let ghost mut done: int = 0;
        proof {
            lemma_ran_refl(start);
            assert(all.take(0) =~= Seq::<(Invocation, RunModel<C>)>::empty());
        }
        while rest.len() > 0
            invariant
                self.wf(),
                memo.wf(),
                driver.wf(),
                budget.bound() == old(budget).bound(),
                start == old(self)@,
                0 <= done,
                done + rest@.len() == total,
                all.len() == total,
                owned_runs(rest@) =~= all.skip(done),
                driver@ == (DriverModel { running: driver@.running, ..old(driver)@ }),
                driver@.running.len() == rest@.len(),
                forall|j: int|
                    0 <= j < rest@.len() ==> (#[trigger] driver@.running[j]).0 == rest@[j].0@,
                start.ran_to(self@),
                start_memo == old(memo)@,
                all == owned_runs(runs@),
                total == runs@.len(),
                limit == old(budget).bound(),
                spent == old(budget).accepted(),
                commits == start.followups(start_memo, all.take(done), phase),
                limit.allows(spent, commits),
                budget.accepted() == spent + commits,
                start.committing(start_memo, all.take(done), phase) == Ok::<
                    (StateModel<C>, Map<Invocation, MemoModel>),
                    RefusalModel,
                >((self@, memo@)),
                !followup ==> !self@.moved_since(start),
                followup ==> self@.moved_since(start),
                !followup && !stale ==> self@.systems == start.systems && quiet_commits(
                    start.commit_state(start_memo),
                    all.take(done),
                    phase,
                    start.checks(),
                ) == Some(self@.commit_state(memo@)),
            decreases rest@.len(),
        {
            let ghost held = rest@;
            let ghost before = self@;
            let ghost before_memo = memo@;
            let ghost before_running = driver@.running;
            let (owner, run) = rest.remove(0);
            proof {
                assert(owned_runs(held)[0] == all.skip(done)[0]);
                assert((owner@, run@) == all[done]);
                assert(owned_runs(rest@) =~= owned_runs(held).drop_first());
                assert(all.skip(done + 1) =~= all.skip(done).drop_first());
                assert(all.take(done + 1).drop_last() =~= all.take(done));
                assert(driver@.running[0].0 == held[0].0@);
                driver.lemma_safe();
            }
            driver.finish(&owner);
            proof {
                lemma_first_run_leaves(before_running, owner@);
                assert forall|j: int| 0 <= j < rest@.len() implies (
                #[trigger] driver@.running[j]).0 == rest@[j].0@ by {
                    assert(driver@.running[j] == before_running[j + 1]);
                    assert(rest@[j] == held[j + 1]);
                }
                lemma_commit_recorded(
                    before.commit_state(before_memo),
                    run@,
                    Some(phase),
                    before.checks(),
                );
            }
            let progress = match self.commit(memo, run, Some(phase)) {
                Ok(progress) => progress,
                Err(error) => {
                    assert(start.committing(start_memo, all.take(done + 1), phase) == Err::<
                        (StateModel<C>, Map<Invocation, MemoModel>),
                        RefusalModel,
                    >(error@));
                    let error = EngineError::Commit(error);
                    assert(start.commits_fail(
                        start_memo,
                        limit,
                        spent,
                        all,
                        phase,
                        done + 1,
                        error,
                        self@.world,
                    ));
                    return Err(error);
                },
            };
            assert(start.committing(start_memo, all.take(done + 1), phase) is Ok);
            proof {
                lemma_followup_means_change(
                    before.commit_state(before_memo),
                    run@,
                    Some(phase),
                    before.checks(),
                );
                assert(before.ran_to(self@));
                lemma_ran_trans(start, before, self@);
            }
            let ghost committed = self@;
            let ghost more = start.followups(start_memo, all.take(done + 1), phase);
            assert(more == commits + progress.commits);
            if let Err(error) = budget.record(progress.commits) {
                let error = EngineError::Budget(error);
                assert(start.commits_fail(
                    start_memo,
                    limit,
                    spent,
                    all,
                    phase,
                    done + 1,
                    error,
                    self@.world,
                ));
                return Err(error);
            }
            if progress.stale {
                self.force_replan(&owner);
                proof {
                    lemma_aside_recorded(committed.world, self@.world);
                    assert(committed.ran_to(self@));
                    lemma_ran_trans(start, committed, self@);
                }
            }
            followup = followup || progress.needs_followup;
            stale = stale || progress.stale;
            proof {
                commits = more;
                done = done + 1;
            }
        }
        proof {
            assert(all.take(done) =~= all);
            assert(driver@.running =~= Seq::empty());
        }
        Ok((followup, stale))
    }
}

proof fn lemma_first_run_leaves(
    running: Seq<(Invocation, Seq<crate::access::Access>)>,
    owner: Invocation,
)
    requires
        running.len() > 0,
        running[0].0 == owner,
        forall|i: int, j: int|
            0 <= i < j < running.len() ==> (#[trigger] running[i]).0 != (#[trigger] running[j]).0,
    ensures
        crate::evaluation::without_run(running, owner) == running.skip(1),
    decreases running.len(),
{
    let rest = running.drop_last();
    if running.len() == 1 {
        assert(crate::evaluation::without_run(rest, owner) =~= Seq::empty());
        assert(running.skip(1) =~= Seq::empty());
    } else {
        assert forall|i: int, j: int| 0 <= i < j < rest.len() implies (#[trigger] rest[i]).0 != (
        #[trigger] rest[j]).0 by {
            assert(running[i] == rest[i] && running[j] == rest[j]);
        }
        assert(rest[0] == running[0]);
        lemma_first_run_leaves(rest, owner);
        assert(running[0].0 != running[running.len() - 1].0);
        assert(rest.skip(1).push(running.last()) =~= running.skip(1));
    }
}

/// How many waves a phase, and how many generations a settle, may take before the
/// bowl is taken not to come to rest.
pub const STEP_LIMIT: u64 = u64::MAX;

impl<C: RelationshipTarget> State<C> {
    /// Runs one phase until nothing is left to run in it. Says whether it changed
    /// the world.
    ///
    /// Each wave is planned from one snapshot. What it plans runs against that
    /// snapshot and is then committed, in the order in which it was planned.
    pub fn run_phase<B: SystemBodies<C>>(
        &mut self,
        phase: Phase,
        memo: &mut MemoTable,
        bodies: &mut B,
        budget: &mut CommitBudget,
    ) -> (changed: Result<bool, EngineError>)
        requires
            old(self).wf(),
            old(memo).wf(),
        ensures
            final(self).wf(),
            final(memo).wf(),
            final(budget).bound() == old(budget).bound(),
            match changed {
                Ok(changed) => {
                    &&& exists|count: nat| #[trigger]
                        old(self)@.waves_lead(
                            phase,
                            old(memo)@,
                            old(budget).bound(),
                            (Trail {
                                bodies: *old(bodies),
                                spent: old(budget).accepted() as nat,
                            }),
                            count,
                            final(self)@,
                            final(memo)@,
                            (Trail {
                                bodies: *final(bodies),
                                spent: final(budget).accepted() as nat,
                            }),
                        )
                    &&& old(self)@.ran_to(final(self)@)
                    &&& final(self)@.at_rest(phase, final(memo)@)
                    &&& changed == final(self)@.moved_since(old(self)@)
                },
                Err(error) => {
                    &&& old(self)@.phase_fails(
                        phase,
                        old(memo)@,
                        old(budget).bound(),
                        (Trail { bodies: *old(bodies), spent: old(budget).accepted() as nat }),
                        error,
                        final(self)@.world,
                        *final(bodies),
                    )
                    &&& old(self)@.only_ran(final(self)@)
                },
            },
            !wave_due(old(self)@.systems, phase, old(self)@.world.snapshot()) ==> {
                &&& changed matches Ok(false)
                &&& final(self)@ == old(self)@
                &&& final(memo)@ == old(memo)@
                &&& *final(bodies) == *old(bodies)
                &&& *final(budget) == *old(budget)
            },
            old(self)@.systems.len() == 0 ==> {
                &&& changed matches Ok(false)
                &&& final(self)@ == old(self)@
                &&& final(memo)@ == old(memo)@
                &&& *final(bodies) == *old(bodies)
                &&& *final(budget) == *old(budget)
            },
    {
        let ghost start = self@;
        let ghost limit = budget.bound();
        let ghost from = Trail::<B> { bodies: *bodies, spent: budget.accepted() as nat };
        let mut driver = PhaseDriver::new(false);
        let mut left: u64 = STEP_LIMIT;
        proof {
            lemma_ran_refl(start);
        }
        while left > 0
            invariant
                self.wf(),
                memo.wf(),
                driver.wf(),
                budget.bound() == old(budget).bound(),
                start == old(self)@,
                driver@.running.len() == 0,
                !driver@.allow_preempt,
                start.ran_to(self@),
                driver@.changed == self@.moved_since(start),
                !driver@.needs_plan ==> self@.at_rest(phase, memo@),
                limit == old(budget).bound(),
                from == (Trail::<B> {
                    bodies: *old(bodies),
                    spent: old(budget).accepted() as nat,
                }),
                start.waves_lead(
                    phase,
                    old(memo)@,
                    limit,
                    from,
                    (STEP_LIMIT - left) as nat,
                    self@,
                    memo@,
                    (Trail { bodies: *bodies, spent: budget.accepted() as nat }),
                ),
                left == STEP_LIMIT ==> *bodies == *old(bodies) && *budget == *old(budget),
                left == STEP_LIMIT || wave_due(start.systems, phase, start.world.snapshot()),
                left == STEP_LIMIT ==> self@ == start && memo@ == old(memo)@ && driver@.needs_plan,
            decreases left,
        {
            if driver.next_step(false) != DriverStep::Plan {
                return Ok(driver.changed());
            }
            driver.begin_wave();
            let snapshot = self.snapshot();
            if !self.wave_needed(phase, &snapshot) {
                return Ok(driver.changed());
            }
            let ghost before = self@;
            let ghost before_memo = memo@;
            let ghost trail = Trail::<B> { bodies: *bodies, spent: budget.accepted() as nat };
            let runs = match self.start_wave(phase, &snapshot, memo, bodies, &mut driver) {
                Ok(runs) => runs,
                Err(error) => {
                    assert(before.wave_fails(
                        phase,
                        before_memo,
                        limit,
                        trail,
                        Seq::empty(),
                        0,
                        0,
                        error,
                        self@.world,
                        *bodies,
                    ));
                    return Err(error);
                },
            };
            let ghost started = self@;
            let ghost deferred = driver@.deferred;
            let ghost view = owned_runs(runs@);
            let ghost next_entity = started.world.next_entity;
            let ghost trail_on = Trail::<B> { bodies: *bodies, spent: trail.spent };
            assert(started == before.wave_open(phase, before_memo, next_entity));
            assert(before.wave_runs(
                phase,
                before_memo,
                trail.bodies,
                view,
                next_entity,
                *bodies,
            ));
            proof {
                lemma_aside_recorded(before.world, started.world);
                assert(before.ran_to(started));
                lemma_ran_trans(start, before, started);
            }
            if runs.len() == 0 {
                proof {
                    assert(view =~= Seq::empty());
                    assert(!deferred);
                    assert(before.wave_leads(
                        phase,
                        before_memo,
                        limit,
                        trail,
                        view,
                        next_entity,
                        started,
                        memo@,
                        trail_on,
                    ));
                    assert(start.waves_lead(
                        phase,
                        old(memo)@,
                        limit,
                        from,
                        (STEP_LIMIT - left + 1) as nat,
                        self@,
                        memo@,
                        trail_on,
                    ));
                    assert(before.closes(
                        phase,
                        before_memo,
                        view,
                        started.world.next_entity,
                        started,
                        memo@,
                    ));
                }
                return Ok(driver.changed());
            }
            let (followup, stale) = match self.finish_wave(phase, memo, budget, &mut driver, runs) {
                Ok(finished) => finished,
                Err(error) => {
                    proof {
                        let done = choose|done: int| #[trigger]
                            started.commits_fail(
                                before_memo,
                                limit,
                                trail.spent,
                                view,
                                phase,
                                done,
                                error,
                                self@.world,
                            );
                        assert(before.wave_fails(
                            phase,
                            before_memo,
                            limit,
                            trail,
                            view,
                            next_entity,
                            done,
                            error,
                            self@.world,
                            *bodies,
                        ));
                    }
                    return Err(error);
                },
            };
            proof {
                lemma_ran_trans(start, started, self@);
                assert(before.wave_leads(
                    phase,
                    before_memo,
                    limit,
                    trail,
                    view,
                    next_entity,
                    self@,
                    memo@,
                    Trail { bodies: *bodies, spent: budget.accepted() as nat },
                ));
                if !followup && !stale && !deferred {
                    assert(before.closes(
                        phase,
                        before_memo,
                        view,
                        started.world.next_entity,
                        self@,
                        memo@,
                    ));
                }
            }
            driver.after_batch(followup, stale);
            left = left - 1;
        }
        let error = EngineError::Unsettled;
        assert(!self@.wave_fails(
            phase,
            memo@,
            limit,
            Trail { bodies: *bodies, spent: budget.accepted() as nat },
            Seq::empty(),
            0,
            0,
            error,
            self@.world,
            *bodies,
        ));
        Err(error)
    }
}

impl<C: RelationshipTarget> StateModel<C> {
    /// The world that the pending generation starts from.
    pub open spec fn opening(self) -> WorldModel<C> {
        opened(self.world, self.held, self.inputs).0
    }

    /// Whether a generation is pending, its inputs are accepted, and there is no
    /// system to run.
    pub open spec fn opens_alone(self) -> bool {
        &&& self.systems.len() == 0
        &&& self.pending is Some
        &&& opened(self.world, self.held, self.inputs).1 is Ok
    }

    /// Whether nothing was left to run in the evaluate phase, and the world has
    /// not moved since.
    pub open spec fn evaluated(self) -> bool {
        exists|at: StateModel<C>, memo: Map<Invocation, MemoModel>| #[trigger]
            at.at_rest(Phase::Evaluate, memo) && !self.moved_since(at)
    }

    /// Whether `after` is this state with its pending generation run to the end.
    pub open spec fn generation_run(self, after: StateModel<C>) -> bool {
        &&& self.pending matches Some(generation) && after.completed == generation
        &&& after.running is None
        &&& after.pending is None
        &&& after.inputs.len() == 0
        &&& recorded(self.opening(), after.world)
        &&& after.clean ==> after.world.revision == self.opening().revision
        &&& after.clean ==> after.evaluated()
        &&& after.at_rest(Phase::Complete, after.memo)
        &&& self.same_epoch(after)
        &&& after.settled_revision == self.settled_revision
        &&& after.watchers == self.watchers
        &&& after.retained == self.retained
    }

    /// Whether the states agree in what belongs to the epoch: who drives it, and
    /// the inputs that arrived during it.
    pub open spec fn same_epoch(self, after: StateModel<C>) -> bool {
        &&& after.deferred == self.deferred
        &&& after.sequence == self.sequence
        &&& after.settling == self.settling
    }
}

/// Being at rest is about the systems, the world, what is held back and the
/// checks; nothing else of a state matters for it.
proof fn lemma_rest_is_local<C: RelationshipTarget>(
    a: StateModel<C>,
    b: StateModel<C>,
    phase: Phase,
    memo: Map<Invocation, MemoModel>,
)
    requires
        a.at_rest(phase, memo),
        a.systems == b.systems,
        a.world == b.world,
        a.held == b.held,
        a.schema == b.schema,
        a.checked == b.checked,
    ensures
        b.at_rest(phase, memo),
{
    if wave_due(a.systems, phase, a.world.snapshot()) {
        let (before, before_memo, runs, next_entity) = choose|
            before: StateModel<C>,
            before_memo: Map<Invocation, MemoModel>,
            runs: Seq<(Invocation, RunModel<C>)>,
            next_entity: u64,
        | #[trigger]
            before.closes(phase, before_memo, runs, next_entity, a, memo);
        assert(a.checks() == b.checks());
        assert(before.closes(phase, before_memo, runs, next_entity, b, memo));
    }
}

impl<C: RelationshipTarget> State<C> {
    /// Runs the pending generation, phase after phase. Says whether there was one.
    ///
    /// When it fails, the generation is abandoned: nothing is left running, and
    /// another caller can take over.
    pub fn run_generation<B: SystemBodies<C>>(&mut self, bodies: &mut B, budget: &mut CommitBudget) -> (ran:
        Result<bool, EngineError>)
        requires
            old(self).wf(),
        ensures
            final(self).wf(),
            final(budget).bound() == old(budget).bound(),
            old(self)@.running is None ==> final(self)@.running is None,
            old(self)@.pending is None ==> final(self)@ == old(self)@ && (ran matches Ok(false))
                && *final(bodies) == *old(bodies) && *final(budget) == *old(budget),
            old(self)@.pending is Some ==> match ran {
                Ok(ran) => {
                    &&& ran
                    &&& old(self)@.generation_leads(
                        old(budget).bound(),
                        (Trail { bodies: *old(bodies), spent: old(budget).accepted() as nat }),
                        final(self)@,
                        (Trail { bodies: *final(bodies), spent: final(budget).accepted() as nat }),
                    )
                    &&& old(self)@.generation_run(final(self)@)
                },
                Err(error) => {
                    &&& old(self)@.generation_fails(
                        old(budget).bound(),
                        (Trail { bodies: *old(bodies), spent: old(budget).accepted() as nat }),
                        error,
                        final(self)@,
                        *final(bodies),
                    )
                    &&& old(self)@.same_epoch(final(self)@)
                },
            },
            old(self)@.opens_alone() ==> ran is Ok && final(self)@.world == old(self)@.opening()
                && final(self)@.clean && final(self)@.systems.len() == 0,
    {
        let ghost start = self@;
        let ghost limit = budget.bound();
        let ghost from = Trail::<B> { bodies: *bodies, spent: budget.accepted() as nat };
        let evaluation = match self.start_evaluation() {
            None => {
                return Ok(false);
            },
            Some(Err(error)) => {
                return Err(EngineError::Apply(error));
            },
            Some(Ok(evaluation)) => evaluation,
        };
        let Evaluation { generation, startup, memo } = evaluation;
        let mut memo = memo;
        let ghost begun = self@;
        let mut plan = PhasePlan::new(startup);
        let ghost phases = Phase::order(startup);
        proof {
            lemma_ran_refl(begun);
            assert(phases.take(0) =~= Seq::<Phase>::empty());
            assert(begun == start.begun() && phases == start.due_phases());
        }
        let mut failed: Option<EngineError> = None;
        while failed.is_none() && plan.current().is_some()
            invariant
                self.wf(),
                memo.wf(),
                plan.wf(),
                budget.bound() == old(budget).bound(),
                plan@.phases == Phase::order(startup),
                plan@.index <= plan@.phases.len(),
                phases == plan@.phases,
                begun.only_ran(self@),
                limit == old(budget).bound(),
                failed matches Some(error) ==> begun.phases_fail(
                    phases,
                    start.memo,
                    limit,
                    from,
                    error,
                    self@.world,
                    *bodies,
                ),
                failed is None ==> {
                    &&& begun.phases_lead(
                        phases.take(plan@.index as int),
                        start.memo,
                        limit,
                        from,
                        plan@.changed,
                        self@,
                        memo@,
                        Trail { bodies: *bodies, spent: budget.accepted() as nat },
                    )
                    &&& begun.ran_to(self@)
                    &&& !plan@.changed ==> !self@.moved_since(begun)
                    &&& !plan@.changed && plan@.index + 1 >= plan@.phases.len() ==> self@.evaluated()
                    &&& plan@.index == plan@.phases.len() ==> self@.at_rest(Phase::Complete, memo@)
                },
                begun.systems.len() == 0 ==> failed is None && self@ == begun && !plan@.changed,
            decreases
                if failed is None {
                    1int
                } else {
                    0
                },
                plan@.phases.len() - plan@.index,
        {
            if let Some(phase) = plan.current() {
                let ghost before = self@;
                let ghost table = memo@;
                let ghost at = plan@.index as int;
                let ghost moved = plan@.changed;
                let ghost trail = Trail::<B> { bodies: *bodies, spent: budget.accepted() as nat };
                match self.run_phase(phase, &mut memo, bodies, budget) {
                    Ok(changed) => {
                        proof {
                            let on = Trail::<B> {
                                bodies: *bodies,
                                spent: budget.accepted() as nat,
                            };
                            let count = choose|count: nat| #[trigger]
                                before.waves_lead(
                                    phase,
                                    table,
                                    limit,
                                    trail,
                                    count,
                                    self@,
                                    memo@,
                                    on,
                                );
                            lemma_phase_leads_on(
                                begun,
                                phases.take(at),
                                start.memo,
                                limit,
                                from,
                                moved,
                                before,
                                table,
                                trail,
                                phase,
                                count,
                                self@,
                                memo@,
                                on,
                            );
                            assert(phases.take(at + 1) =~= phases.take(at).push(phase));
                            lemma_ran_trans(begun, before, self@);
                            if phase == Phase::Evaluate {
                                assert(self@.at_rest(Phase::Evaluate, memo@)
                                    && !self@.moved_since(self@));
                                assert(self@.evaluated());
                            } else if !changed && before.evaluated() {
                                let (at, table) = choose|
                                    at: StateModel<C>,
                                    table: Map<Invocation, MemoModel>,
                                | #[trigger]
                                    at.at_rest(Phase::Evaluate, table) && !before.moved_since(at);
                                assert(at.at_rest(Phase::Evaluate, table)
                                    && !self@.moved_since(at));
                                assert(self@.evaluated());
                            }
                        }
                        plan.phase_completed(changed);
                    },
                    Err(error) => {
                        assert(begun.phases_lead(
                            phases.take(at),
                            start.memo,
                            limit,
                            from,
                            moved,
                            before,
                            table,
                            trail,
                        ) && before.phase_fails(
                            phases[at],
                            table,
                            limit,
                            trail,
                            error,
                            self@.world,
                            *bodies,
                        ));
                        failed = Some(error);
                    },
                }
            }
        }
        match failed {
            Some(error) => {
                let _ = self.abandon_evaluation(generation, memo);
                Err(error)
            },
            None => {
                let ghost done = self@;
                let ghost table = memo@;
                let _ = self.finish_evaluation(generation, memo, plan.changed());
                proof {
                    assert(phases.take(phases.len() as int) =~= phases);
                    assert(start.begun().phases_lead(
                        start.due_phases(),
                        start.memo,
                        limit,
                        from,
                        plan@.changed,
                        done,
                        table,
                        Trail { bodies: *bodies, spent: budget.accepted() as nat },
                    ));
                    lemma_rest_is_local(done, self@, Phase::Complete, table);
                    if self@.clean {
                        let (at, evaluated) = choose|
                            at: StateModel<C>,
                            evaluated: Map<Invocation, MemoModel>,
                        | #[trigger]
                            at.at_rest(Phase::Evaluate, evaluated) && !done.moved_since(at);
                        assert(at.at_rest(Phase::Evaluate, evaluated) && !self@.moved_since(at));
                    }
                }
                Ok(true)
            },
        }
    }
}

/// What commits of the settle phase make of a state. The first refusal ends it.
pub open spec fn settle_commits<C: RelationshipTarget>(
    before: CommitModel<C>,
    runs: Seq<RunModel<C>>,
    checks: CheckModel,
) -> Result<CommitModel<C>, RefusalModel>
    decreases runs.len(),
{
    if runs.len() == 0 {
        Ok(before)
    } else {
        match settle_commits(before, runs.drop_last(), checks) {
            Err(refusal) => Err(refusal),
            Ok(middle) => {
                let after = commit_run(middle, runs.last(), Some(Phase::Settle), checks);
                match after.1 {
                    Err(refusal) => Err(refusal),
                    Ok(_) => Ok(after.0),
                }
            },
        }
    }
}

impl<C: RelationshipTarget> StateModel<C> {
    /// Whether the states agree in what is running, pending and settling.
    pub open spec fn same_course(self, after: StateModel<C>) -> bool {
        &&& self.same_epoch(after)
        &&& after.running == self.running
        &&& after.pending == self.pending
    }

    /// Whether the bowl is settled, with no input left that a caller is
    /// responsible for who entered at `watermark`, and with the settled world
    /// retained.
    pub open spec fn settled_at(self, watermark: u64) -> bool {
        &&& self.is_settled()
        &&& covered_inputs(self.deferred, watermark).len() == 0
        &&& self.retained == Some(self.world.snapshot())
    }

    /// Whether the bowl has come to rest: no generation is pending or running, the
    /// last one left nothing to run, and it either changed nothing, or nothing
    /// tracked changed since the last settle.
    pub open spec fn calm(self) -> bool {
        &&& self.pending is None
        &&& self.running is None
        &&& self.at_rest(Phase::Complete, self.memo)
        &&& self.clean && self.evaluated() || self.world.revision == self.settled_revision
    }

    /// Whether `after` is this state once `runs` of the settle phase, which
    /// allocated ids up to `next_entity`, were committed.
    pub open spec fn closed_by(
        self,
        next_entity: u64,
        runs: Seq<RunModel<C>>,
        after: StateModel<C>,
    ) -> bool {
        &&& settle_commits(
            CommitModel {
                world: WorldModel { next_entity, ..self.world },
                memo: self.memo,
                held: self.held,
            },
            runs,
            self.checks(),
        ) == Ok::<CommitModel<C>, RefusalModel>(
            CommitModel { world: after.world, memo: after.memo, held: after.held },
        )
        &&& after.systems == self.systems
    }

    /// Whether a settle of this state, which is at rest, ends in `after`: at once,
    /// or after settled hooks that moved nothing and the runs of the settle phase.
    pub open spec fn settles_into(self, after: StateModel<C>) -> bool {
        &&& self.calm()
        &&& after == self.retaining() || exists|
            hooked: StateModel<C>,
            next_entity: u64,
            runs: Seq<RunModel<C>>,
        | #[trigger]
            hooked.closed_by(next_entity, runs, after) && !hooked.moved_since(self)
                && hooked.systems == self.systems
    }

    /// The state once a caller has entered an epoch.
    pub open spec fn entered(self) -> StateModel<C> {
        StateModel { settling: (self.settling + 1) as usize, ..self }
    }

    /// The state once a caller has left its epoch: the last one out promotes the
    /// inputs that were left to the next.
    pub open spec fn leaving(self) -> StateModel<C> {
        let left = StateModel {
            settling: (self.settling - 1) as usize,
            boundary: Seq::empty(),
            ..self
        };
        if left.settling == 0 {
            left.promoted(u64::MAX)
        } else {
            left
        }
    }
}

impl<C: RelationshipTarget> State<C> {
    /// Runs the settled hooks that are due. Says whether they changed something;
    /// then another generation is pending. Otherwise the world as it is counts as
    /// settled.
    fn run_settled_hooks<B: SystemBodies<C>>(&mut self, bodies: &mut B, budget: &mut CommitBudget) -> (again:
        Result<bool, EngineError>)
        requires
            old(self).wf(),
        ensures
            final(self).wf(),
            final(budget).bound() == old(budget).bound(),
            old(self)@.same_epoch(final(self)@),
            final(self)@.running == old(self)@.running,
            match again {
                Ok(true) => {
                    &&& final(self)@.pending is Some
                    &&& exists|runs: Seq<RunModel<C>>, next_entity: u64| #[trigger]
                        old(self)@.hooks_lead(
                            old(budget).bound(),
                            (Trail { bodies: *old(bodies), spent: old(budget).accepted() as nat }),
                            runs,
                            next_entity,
                            true,
                            final(self)@,
                            (Trail { bodies: *final(bodies), spent: final(budget).accepted() as nat }),
                        )
                },
                Ok(false) => {
                    &&& exists|runs: Seq<RunModel<C>>, next_entity: u64| #[trigger]
                        old(self)@.hooks_lead(
                            old(budget).bound(),
                            (Trail { bodies: *old(bodies), spent: old(budget).accepted() as nat }),
                            runs,
                            next_entity,
                            false,
                            final(self)@,
                            (Trail { bodies: *final(bodies), spent: final(budget).accepted() as nat }),
                        )
                    &&& final(self)@.pending == old(self)@.pending
                    &&& final(self)@.settled_revision == final(self)@.world.revision
                    &&& !final(self)@.moved_since(old(self)@)
                    &&& final(self)@.systems == old(self)@.systems
                },
                Err(error) => {
                    &&& exists|runs: Seq<RunModel<C>>, next_entity: u64| #[trigger]
                        old(self)@.hooks_fail(
                            old(budget).bound(),
                            (Trail { bodies: *old(bodies), spent: old(budget).accepted() as nat }),
                            runs,
                            next_entity,
                            error,
                            final(self)@.world,
                            *final(bodies),
                        )
                },
            },
            old(self)@.systems.len() == 0 ==> (again matches Ok(false)) && final(self)@.world
                == old(self)@.world && final(budget).accepted() == old(budget).accepted(),
    {
        let ghost limit = budget.bound();
        let ghost from = Trail::<B> { bodies: *bodies, spent: budget.accepted() as nat };
        let mut memo = self.take_memo();
        let snapshot = self.snapshot();
        let due = match self.due_settled_hooks(&snapshot, &memo) {
            Ok(due) => due,
            Err(error) => {
                self.memo = memo;
                let error = EngineError::Join(error);
                assert(old(self)@.hooks_fail(
                    limit,
                    from,
                    Seq::empty(),
                    0,
                    error,
                    self@.world,
                    *bodies,
                ));
                return Err(error);
            },
        };
        let mut allocator = EntityAllocator::new(self.world.next_entity_raw());
        let mut runs: Vec<SystemRun<C>> = Vec::new();
        let mut i: usize = 0;
        assert(due@.take(0) =~= Seq::<SystemId>::empty());
        assert(crate::system::runs_view(runs@) =~= Seq::<RunModel<C>>::empty());
        while i < due.len()
            invariant
                i <= due@.len(),
                snapshot.wf(),
                snapshot@ == old(self)@.world.snapshot(),
                self@ == old(self)@.lent(),
                settled_ran(
                    *old(bodies),
                    old(self)@.systems,
                    due@.take(i as int),
                    snapshot@,
                    old(self)@.world.next_entity,
                    *bodies,
                    allocator@,
                    crate::system::runs_view(runs@),
                ),
            decreases due@.len() - i,
        {
            let ghost middle = *bodies;
            let ghost at = allocator@;
            let ghost held = crate::system::runs_view(runs@);
            let around = self.wrappers_of(due[i]).len();
            let position: usize = if around > 0 {
                around - 1
            } else {
                0
            };
            let output = run_hook(
                bodies,
                due[i],
                Wrapper::Settled,
                position,
                &snapshot,
                &mut allocator,
            );
            let ghost left = output@;
            runs.push(SystemRun::settled(output));
            proof {
                assert(position == settled_position(old(self)@.systems, due@[i as int]));
                lemma_settled_ran_on(
                    *old(bodies),
                    old(self)@.systems,
                    due@.take(i as int),
                    snapshot@,
                    old(self)@.world.next_entity,
                    middle,
                    at,
                    held,
                    due@[i as int],
                    *bodies,
                    allocator@,
                    left,
                );
                assert(due@.take(i + 1) =~= due@.take(i as int).push(due@[i as int]));
                assert(crate::system::runs_view(runs@) =~= held.push(settled_run(left)));
            }
            i = i + 1;
        }
        assert(due@.take(i as int) =~= due@);
        self.advance_entities(allocator.next_entity());
        let ghost ready = self@;
        let ghost table = memo@;
        let ghost hooks = crate::system::runs_view(runs@);
        let ghost next_entity = ready.world.next_entity;
        proof {
            assert(old(self)@.hook_runs(from.bodies, hooks, next_entity, *bodies));
            if old(self)@.systems.len() == 0 {
                assert(due@ =~= Seq::<SystemId>::empty());
                assert(hooks =~= Seq::<RunModel<C>>::empty());
                assert(ready.world == old(self)@.world);
            }
        }
        let progress = match self.commit_settled_hooks(&mut memo, runs) {
            Ok(progress) => progress,
            Err(error) => {
                self.memo = memo;
                let error = EngineError::Commit(error);
                assert(old(self)@.hooks_fail(
                limit,
                from,
                hooks,
                next_entity,
                error,
                self@.world,
                *bodies,
            ));
                return Err(error);
            },
        };
        if let Err(error) = budget.record(progress.commits) {
            self.memo = memo;
            let error = EngineError::Budget(error);
            assert(old(self)@.hooks_fail(
                limit,
                from,
                hooks,
                next_entity,
                error,
                self@.world,
                *bodies,
            ));
            return Err(error);
        }
        proof {
            if !progress.needs_followup {
                lemma_quiet_runs_move_nothing(ready.commit_state(table), hooks, ready.checks());
            }
        }
        let again = self.finish_settled_hooks(memo, progress.needs_followup);
        assert(old(self)@.hooks_lead(
            limit,
            from,
            hooks,
            next_entity,
            again,
            self@,
            Trail { bodies: *bodies, spent: budget.accepted() as nat },
        ));
        Ok(again)
    }

    /// Runs the systems of the settle phase once. Their removals apply at once,
    /// their inserts are held back for the next run; the world then counts as
    /// settled.
    fn run_settle_phase<B: SystemBodies<C>>(&mut self, bodies: &mut B) -> (outcome: Result<
        (),
        EngineError,
    >)
        requires
            old(self).wf(),
        ensures
            final(self).wf(),
            old(self)@.same_course(final(self)@),
            match outcome {
                Ok(_) => {
                    &&& final(self)@.settled_revision == final(self)@.world.revision
                    &&& exists|runs: Seq<RunModel<C>>, next_entity: u64| #[trigger]
                        old(self)@.closing_leads(
                            *old(bodies),
                            runs,
                            next_entity,
                            final(self)@,
                            *final(bodies),
                        ) && old(self)@.closed_by(next_entity, runs, final(self)@)
                },
                Err(error) => exists|
                    runs: Seq<RunModel<C>>,
                    next_entity: u64,
                    done: int,
                | #[trigger]
                    old(self)@.closing_fails(
                        *old(bodies),
                        runs,
                        next_entity,
                        done,
                        error,
                        final(self)@.world,
                        *final(bodies),
                    ),
            },
            old(self)@.systems.len() == 0 ==> {
                &&& outcome is Ok
                &&& final(self)@.world == old(self)@.world
                &&& final(self)@.systems.len() == 0
            },
    {
        let mut memo = self.take_memo();
        let snapshot = self.snapshot();
        let plan = match self.plan_settle_phase(&snapshot, &memo) {
            Ok(plan) => plan,
            Err(error) => {
                self.memo = memo;
                let error = EngineError::Join(error);
                assert(old(self)@.closing_fails(
                    *old(bodies),
                    Seq::empty(),
                    0,
                    0,
                    error,
                    self@.world,
                    *bodies,
                ));
                return Err(error);
            },
        };
        let mut allocator = EntityAllocator::new(self.world.next_entity_raw());
        let ghost batches = batches_view(plan@);
        let ghost count = batches.len();
        let mut rest = plan;
        let mut runs: Vec<SystemRun<C>> = Vec::new();
        assert(batches.skip(0) =~= batches);
        assert(batches.take(0) =~= Seq::<BatchModel>::empty());
        assert(crate::system::runs_view(runs@) =~= Seq::<RunModel<C>>::empty());
        while rest.len() > 0
            invariant
                snapshot.wf(),
                snapshot@ == old(self)@.world.snapshot(),
                self@.systems == old(self)@.systems,
                count == batches.len(),
                runs@.len() + rest@.len() == count,
                batches_ran(
                    *old(bodies),
                    old(self)@.systems,
                    batches.take(runs@.len() as int),
                    snapshot@,
                    old(self)@.world.next_entity,
                    *bodies,
                    allocator@,
                    crate::system::runs_view(runs@),
                ),
                batches_view(rest@) =~= batches.skip(runs@.len() as int),
                forall|j: int|
                    0 <= j < runs@.len() ==> run_of(
                        old(self)@.systems,
                        batches[j],
                        snapshot@.revision,
                        (batches[j].owner, (#[trigger] runs@[j])@),
                    ),
            decreases rest@.len(),
        {
            let ghost held = rest@;
            let ghost at = runs@.len() as int;
            let batch = rest.remove(0);
            proof {
                assert(batches_view(held)[0] == batches.skip(at)[0]);
                assert(batch@ == batches[at]);
                assert(batches_view(rest@) =~= batches_view(held).drop_first());
                assert(batches.skip(at + 1) =~= batches.skip(at).drop_first());
            }
            let wrappers = self.wrappers_of(batch.owner.system);
            let ghost middle = *bodies;
            let ghost ids = allocator@;
            let ghost before = crate::system::runs_view(runs@);
            let run = run_batch(bodies, &wrappers, batch, &snapshot, &mut allocator);
            let ghost left = run@;
            runs.push(run);
            proof {
                lemma_batch_ran_on(
                    *old(bodies),
                    old(self)@.systems,
                    batches.take(at),
                    snapshot@,
                    old(self)@.world.next_entity,
                    middle,
                    ids,
                    before,
                    batch@,
                    *bodies,
                    allocator@,
                    left,
                );
                assert(batches.take(at + 1) =~= batches.take(at).push(batch@));
                assert(crate::system::runs_view(runs@) =~= before.push(left));
            }
        }
        assert(batches.take(runs@.len() as int) =~= batches);
        self.advance_entities(allocator.next_entity());
        let ghost ready = self@.commit_state(memo@);
        let ghost next_entity = self@.world.next_entity;
        let ghost all = crate::system::runs_view(runs@);
        let ghost mut done: int = 0;
        let ghost opening = self@.world;
        assert(runs_of_batches(old(self)@.systems, batches, snapshot@.revision, all)) by {
            assert forall|j: int|
                #![trigger all[j]]
                #![trigger batches[j]]
                0 <= j < all.len() implies run_of(
                old(self)@.systems,
                batches[j],
                snapshot@.revision,
                (batches[j].owner, all[j]),
            ) by {
                assert(all[j] == runs@[j]@);
            }
        }
        assert(old(self)@.closing_runs(*old(bodies), all, next_entity, *bodies));
        assert(old(self)@.systems.len() == 0 ==> opening == old(self)@.world && all.len() == 0);
        let mut failed: Option<CommitError> = None;
        assert(all.take(0) =~= Seq::<RunModel<C>>::empty());
        while failed.is_none() && runs.len() > 0
            invariant
                self.wf(),
                memo.wf(),
                old(self)@.same_course(self@),
                self@.systems == old(self)@.systems,
                self@.checks() == old(self)@.checks(),
                0 <= done,
                done + runs@.len() == all.len(),
                crate::system::runs_view(runs@) =~= all.skip(done),
                done <= all.len(),
                failed is None ==> settle_commits(ready, all.take(done), old(self)@.checks())
                    == Ok::<CommitModel<C>, RefusalModel>(self@.commit_state(memo@)),
                failed matches Some(error) ==> 0 < done && (settle_commits(
                    ready,
                    all.take(done - 1),
                    old(self)@.checks(),
                ) matches Ok(middle) && ({
                    let after = commit_run(
                        middle,
                        all[done - 1],
                        Some(Phase::Settle),
                        old(self)@.checks(),
                    );
                    &&& after.1 == Err::<CommitProgress, RefusalModel>(error@)
                    &&& self@.world == after.0.world
                })),
                self@ == (StateModel { world: self@.world, held: self@.held, ..old(self)@.lent() }),
                all.len() == 0 ==> failed is None && self@.world == opening,
            decreases
                if failed is None {
                    1int
                } else {
                    0
                },
                runs@.len(),
        {
            let ghost held = runs@;
            let run = runs.remove(0);
            proof {
                assert(crate::system::runs_view(held)[0] == all.skip(done)[0]);
                assert(run@ == all[done]);
                assert(all.take(done + 1).drop_last() =~= all.take(done));
                assert(crate::system::runs_view(runs@) =~= crate::system::runs_view(
                    held,
                ).drop_first());
                assert(all.skip(done + 1) =~= all.skip(done).drop_first());
            }
            if let Err(error) = self.commit(&mut memo, run, Some(Phase::Settle)) {
                failed = Some(error);
            }
            proof {
                done = done + 1;
            }
        }
        match failed {
            Some(error) => {
                self.memo = memo;
                let error = EngineError::Commit(error);
                assert(old(self)@.closing_fails(
                    *old(bodies),
                    all,
                    next_entity,
                    done,
                    error,
                    self@.world,
                    *bodies,
                ));
                Err(error)
            },
            None => {
                self.finish_settle_phase(memo);
                proof {
                    assert(all.take(done) =~= all);
                    assert(old(self)@.closing_leads(
                        *old(bodies),
                        all,
                        next_entity,
                        self@,
                        *bodies,
                    ) && old(self)@.closed_by(next_entity, all, self@));
                }
                Ok(())
            },
        }
    }

    /// One round of settling, by a caller who entered at `watermark`. `None` means
    /// that another round is due. Otherwise the bowl is settled, and the returned
    /// callers are to be woken.
    #[verifier::rlimit(30)]
    fn settle_round<B: SystemBodies<C>>(
        &mut self,
        bodies: &mut B,
        budget: &mut CommitBudget,
        watermark: u64,
    ) -> (ended: Result<Option<Vec<Ticket>>, EngineError>)
        requires
            old(self).wf(),
            old(self)@.running is None,
        ensures
            final(self).wf(),
            final(self)@.running is None,
            final(self)@.settling == old(self)@.settling,
            final(budget).bound() == old(budget).bound(),
            match ended {
                Ok(None) => {
                    &&& old(self)@.round_leads(
                        watermark,
                        old(budget).bound(),
                        (Trail { bodies: *old(bodies), spent: old(budget).accepted() as nat }),
                        final(self)@,
                        (Trail { bodies: *final(bodies), spent: final(budget).accepted() as nat }),
                    )
                    &&& old(self)@.pending is Some ==> final(self)@.pending is Some
                },
                Ok(Some(watchers)) => {
                    &&& old(self)@.ends(
                        watermark,
                        old(budget).bound(),
                        (Trail { bodies: *old(bodies), spent: old(budget).accepted() as nat }),
                        watchers@,
                        final(self)@,
                        (Trail { bodies: *final(bodies), spent: final(budget).accepted() as nat }),
                    )
                    &&& final(self)@.settled_at(watermark)
                    &&& old(self)@.pending is Some ==> exists|calm: StateModel<C>| #[trigger]
                        calm.settles_into(final(self)@)
                },
                Err(error) => old(self)@.round_fails(
                    old(budget).bound(),
                    (Trail { bodies: *old(bodies), spent: old(budget).accepted() as nat }),
                    error,
                    final(self)@.world,
                    *final(bodies),
                ),
            },
            old(self)@.opens_alone() && old(self)@.deferred.len() == 0 ==> {
                &&& ended matches Ok(Some(_))
                &&& final(self)@.world == old(self)@.opening()
            },
    {
        let ghost entry = self@;
        let ghost limit = budget.bound();
        let ghost from = Trail::<B> { bodies: *bodies, spent: budget.accepted() as nat };
        match self.settle_step(watermark) {
            SettleStep::Again => {
                assert(entry.round_leads(watermark, limit, from, self@, from));
                return Ok(None);
            },
            SettleStep::Done => {
                let none: Vec<Ticket> = Vec::new();
                assert(entry.ends(watermark, limit, from, none@, self@, from));
                return Ok(Some(none));
            },
            SettleStep::Drive(_) => {},
        }
        if let Err(error) = self.run_generation(bodies, budget) {
            assert(entry.generation_fails(limit, from, error, self@, *bodies));
            assert(entry.round_fails(limit, from, error, self@.world, *bodies));
            return Err(error);
        }
        let ghost calm = self@;
        let ghost ran = Trail::<B> { bodies: *bodies, spent: budget.accepted() as nat };
        assert(entry.driven(limit, from, calm, ran));
        match self.settle_check(watermark) {
            SettleCheck::Again => {
                assert(calm.goes_on(watermark, limit, ran, self@, ran));
                assert(entry.round_leads(watermark, limit, from, self@, ran));
                return Ok(None);
            },
            SettleCheck::Done => {
                proof {
                    if old(self)@.pending is Some {
                        assert(calm.settles_into(self@));
                    }
                }
                let none: Vec<Ticket> = Vec::new();
                assert(calm.rests(watermark, limit, ran, none@, self@, ran));
                assert(entry.ends(watermark, limit, from, none@, self@, ran));
                return Ok(Some(none));
            },
            SettleCheck::Continue => {
                assert(calm.goes_on(watermark, limit, ran, self@, ran));
                assert(entry.round_leads(watermark, limit, from, self@, ran));
                return Ok(None);
            },
            SettleCheck::Converged => {},
        }
        match self.run_settled_hooks(bodies, budget) {
            Ok(true) => {
                proof {
                    let on = Trail::<B> { bodies: *bodies, spent: budget.accepted() as nat };
                    assert(calm.goes_on(watermark, limit, ran, self@, on));
                    assert(entry.round_leads(watermark, limit, from, self@, on));
                }
                return Ok(None);
            },
            Ok(false) => {},
            Err(error) => {
                assert(calm.winding_fails(limit, ran, error, self@.world, *bodies));
                assert(entry.round_fails(limit, from, error, self@.world, *bodies));
                return Err(error);
            },
        }
        let ghost hooked = self@;
        let ghost middle = Trail::<B> { bodies: *bodies, spent: budget.accepted() as nat };
        let ghost (hooks, first) = choose|hooks: Seq<RunModel<C>>, first: u64| #[trigger]
            calm.hooks_lead(limit, ran, hooks, first, false, hooked, middle);
        if let Err(error) = self.run_settle_phase(bodies) {
            proof {
                let (runs, next_entity, done) = choose|
                    runs: Seq<RunModel<C>>,
                    next_entity: u64,
                    done: int,
                | #[trigger]
                    hooked.closing_fails(
                        middle.bodies,
                        runs,
                        next_entity,
                        done,
                        error,
                        self@.world,
                        *bodies,
                    );
                assert(calm.hooks_lead(limit, ran, hooks, first, false, hooked, middle) && hooked.closing_fails(
                    middle.bodies,
                    runs,
                    next_entity,
                    done,
                    error,
                    self@.world,
                    *bodies,
                ));
                assert(calm.winding_fails(limit, ran, error, self@.world, *bodies));
                assert(entry.round_fails(limit, from, error, self@.world, *bodies));
            }
            return Err(error);
        }
        let ghost closed = self@;
        let ghost to = Trail::<B> { bodies: *bodies, spent: budget.accepted() as nat };
        let ghost (runs, next_entity) = choose|runs: Seq<RunModel<C>>, next_entity: u64|
            #[trigger]
            hooked.closing_leads(middle.bodies, runs, next_entity, closed, to.bodies) && hooked.closed_by(
                next_entity,
                runs,
                closed,
            );
        assert(calm.wound_up(
            limit,
            ran,
            hooks,
            hooked,
            middle,
            runs,
            (first, next_entity),
            closed,
            to,
        ));
        if let Some(watchers) = self.settle_end(watermark) {
            proof {
                assert(calm.rests(watermark, limit, ran, watchers@, self@, to));
                assert(entry.ends(watermark, limit, from, watchers@, self@, to));
                if old(self)@.pending is Some {
                    assert(hooked.closed_by(next_entity, runs, self@)
                        && !hooked.moved_since(calm) && hooked.systems == calm.systems);
                    assert(calm.settles_into(self@));
                }
            }
            return Ok(Some(watchers));
        }
        assert(calm.goes_on(watermark, limit, ran, self@, to));
        assert(entry.round_leads(watermark, limit, from, self@, to));
        Ok(None)
    }

    /// Drives the epoch of a caller who entered at `watermark`. The callers who
    /// watch for settles are returned, to be woken.
    fn drive_epoch<B: SystemBodies<C>>(
        &mut self,
        bodies: &mut B,
        budget: &mut CommitBudget,
        watermark: u64,
    ) -> (watchers: Result<Vec<Ticket>, EngineError>)
        requires
            old(self).wf(),
            old(self)@.running is None,
        ensures
            final(self).wf(),
            final(self)@.running is None,
            final(self)@.settling == old(self)@.settling,
            final(budget).bound() == old(budget).bound(),
            match watchers {
                Ok(watchers) => old(self)@.epoch_leads(
                    watermark,
                    old(budget).bound(),
                    (Trail { bodies: *old(bodies), spent: old(budget).accepted() as nat }),
                    watchers@,
                    final(self)@,
                    (Trail { bodies: *final(bodies), spent: final(budget).accepted() as nat }),
                ),
                Err(error) => old(self)@.epoch_fails(
                    watermark,
                    old(budget).bound(),
                    (Trail { bodies: *old(bodies), spent: old(budget).accepted() as nat }),
                    error,
                    final(self)@.world,
                    *final(bodies),
                ),
            },
            watchers is Ok ==> final(self)@.settled_at(watermark),
            watchers is Ok && old(self)@.pending is Some ==> exists|calm: StateModel<C>| #[trigger]
                calm.settles_into(final(self)@),
            old(self)@.opens_alone() && old(self)@.deferred.len() == 0 ==> {
                &&& watchers is Ok
                &&& final(self)@.world == old(self)@.opening()
            },
    {
        let ghost limit = budget.bound();
        let ghost from = Trail::<B> { bodies: *bodies, spent: budget.accepted() as nat };
        let mut left: u64 = STEP_LIMIT;
        while left > 0
            invariant
                self.wf(),
                self@.running is None,
                budget.bound() == limit,
                limit == old(budget).bound(),
                from == (Trail::<B> {
                    bodies: *old(bodies),
                    spent: old(budget).accepted() as nat,
                }),
                self@.settling == old(self)@.settling,
                old(self)@.rounds_lead(
                    watermark,
                    limit,
                    from,
                    (STEP_LIMIT - left) as nat,
                    self@,
                    (Trail { bodies: *bodies, spent: budget.accepted() as nat }),
                ),
                old(self)@.pending is Some ==> self@.pending is Some,
                old(self)@.opens_alone() && old(self)@.deferred.len() == 0 ==> left == STEP_LIMIT
                    && self@ == old(self)@,
            decreases left,
        {
            let ghost entry = self@;
            let ghost trail = Trail::<B> { bodies: *bodies, spent: budget.accepted() as nat };
            let round = self.settle_round(bodies, budget, watermark);
            let ghost on = Trail::<B> { bodies: *bodies, spent: budget.accepted() as nat };
            match round {
                Ok(Some(watchers)) => {
                    assert(entry.ends(watermark, limit, trail, watchers@, self@, on));
                    return Ok(watchers);
                },
                Ok(None) => {
                    assert(entry.round_leads(watermark, limit, trail, self@, on));
                },
                Err(error) => {
                    assert(entry.round_fails(limit, trail, error, self@.world, *bodies));
                    return Err(error);
                },
            }
            left = left - 1;
        }
        let error = EngineError::Unsettled;
        proof {
            let last = Trail::<B> { bodies: *bodies, spent: budget.accepted() as nat };
            let failing = self@.round_fails(limit, last, error, self@.world, *bodies);
            assert(old(self)@.epoch_fails(
                watermark,
                limit,
                from,
                error,
                self@.world,
                *bodies,
            ));
        }
        Err(error)
    }

    /// Drives the bowl until it is settled: nothing is pending, and the last
    /// generation changed nothing. An epoch is driven against a fixed set of
    /// inputs: those that arrive during it are left to the next.
    ///
    /// The callers who watch for settles are returned, to be woken. When settling
    /// fails, nothing is left running.
    pub fn settle<B: SystemBodies<C>>(&mut self, bodies: &mut B, limit: CommitLimit) -> (watchers: Result<
        Vec<Ticket>,
        EngineError,
    >)
        requires
            old(self).wf(),
            old(self)@.running is None,
            old(self)@.settling < usize::MAX,
        ensures
            final(self).wf(),
            final(self)@.running is None,
            final(self)@.settling == old(self)@.settling,
            if old(self)@.is_settled() && old(self)@.deferred.len() == 0 {
                &&& final(self)@ == old(self)@.retaining()
                &&& watchers matches Ok(list) && list@.len() == 0
                &&& *final(bodies) == *old(bodies)
            } else {
                match watchers {
                    Ok(watchers) => exists|settled: StateModel<C>, spent: nat| #[trigger]
                        old(self)@.entered().epoch_leads(
                            old(self)@.sequence,
                            limit,
                            (Trail { bodies: *old(bodies), spent: 0 }),
                            watchers@,
                            settled,
                            (Trail { bodies: *final(bodies), spent }),
                        ) && settled.settled_at(old(self)@.sequence) && final(self)@
                            == settled.leaving() && (old(self)@.pending is Some ==> exists|
                            calm: StateModel<C>,
                        | #[trigger] calm.settles_into(settled)),
                    Err(error) => {
                        &&& old(self)@.entered().epoch_fails(
                            old(self)@.sequence,
                            limit,
                            (Trail { bodies: *old(bodies), spent: 0 }),
                            error,
                            final(self)@.world,
                            *final(bodies),
                        )
                        &&& error matches EngineError::Budget(error) ==> limit.exhausted(error)
                    },
                }
            },
            old(self)@.opens_alone() && old(self)@.deferred.len() == 0 ==> {
                &&& watchers is Ok
                &&& final(self)@.world == old(self)@.opening()
            },
    {
        if self.settle_fast_path() {
            return Ok(Vec::new());
        }
        let ghost start = self@;
        let watermark = self.enter_epoch();
        let mut budget = CommitBudget::new(limit);
        let watchers = self.drive_epoch(bodies, &mut budget, watermark);
        let ghost driven = self@;
        let _ = self.leave_epoch();
        proof {
            let from = Trail::<B> { bodies: *old(bodies), spent: 0 };
            let to = Trail::<B> { bodies: *bodies, spent: budget.accepted() as nat };
            assert(self@ == driven.leaving());
            if watchers is Ok {
                assert(driven.settled_at(start.sequence));
                assert(start.entered().epoch_leads(
                    start.sequence,
                    limit,
                    from,
                    watchers->Ok_0@,
                    driven,
                    to,
                ));
            } else if watchers->Err_0 is Budget {
                lemma_budget_exhausted(
                    start.entered(),
                    start.sequence,
                    limit,
                    from,
                    watchers->Err_0->Budget_0,
                    driven.world,
                    to.bodies,
                );
            }
        }
        watchers
    }
}

/// An epoch that fails for its budget has counted to the error: the counter would
/// overflow, or it stands above the limit.
pub proof fn lemma_budget_exhausted<C: RelationshipTarget, B: SystemBodies<C>>(
    start: StateModel<C>,
    watermark: u64,
    limit: CommitLimit,
    from: Trail<B>,
    error: BudgetError,
    left: WorldModel<C>,
    bodies: B,
)
    requires
        start.epoch_fails(watermark, limit, from, EngineError::Budget(error), left, bodies),
    ensures
        limit.exhausted(error),
{
    let failed = EngineError::Budget(error);
    let (count, last, trail) = choose|count: nat, last: StateModel<C>, trail: Trail<B>|
        #![trigger start.rounds_lead(watermark, limit, from, count, last, trail), last.round_fails(limit, trail, failed, left, bodies)]
        start.rounds_lead(watermark, limit, from, count, last, trail) && last.round_fails(
            limit,
            trail,
            failed,
            left,
            bodies,
        );
    if exists|ran: StateModel<C>, on: Trail<B>| #[trigger]
        last.driven(limit, trail, ran, on) && ran.winding_fails(limit, on, failed, left, bodies) {
        let (ran, on) = choose|ran: StateModel<C>, on: Trail<B>| #[trigger]
            last.driven(limit, trail, ran, on) && ran.winding_fails(
                limit,
                on,
                failed,
                left,
                bodies,
            );
        let (runs, next_entity) = choose|runs: Seq<RunModel<C>>, next_entity: u64| #[trigger]
            ran.hooks_fail(limit, on, runs, next_entity, failed, left, bodies);
        assert(ran.hooks_fail(limit, on, runs, next_entity, failed, left, bodies));
    } else {
        let after = choose|after: StateModel<C>| #[trigger]
            last.generation_fails(limit, trail, failed, after, bodies) && after.world == left;
        let begun = last.begun();
        let phases = last.due_phases();
        let (done, moved, middle, table, on) = choose|
            done: int,
            moved: bool,
            middle: StateModel<C>,
            table: Map<Invocation, MemoModel>,
            on: Trail<B>,
        |
            0 <= done < phases.len() && #[trigger] begun.phases_lead(
                phases.take(done),
                last.memo,
                limit,
                trail,
                moved,
                middle,
                table,
                on,
            ) && middle.phase_fails(phases[done], table, limit, on, failed, left, bodies);
        assert(middle.phase_fails(phases[done], table, limit, on, failed, left, bodies));
    }
}

} // verus!
