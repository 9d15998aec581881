//! The course of an evaluation: which waves, phases and generations lead from
//! one state to another, whatever the bodies of the systems write.

use super::bodies::{batch_ran, hook_ran, SystemBodies};
use super::engine::{run_of, settle_commits, EngineError, STEP_LIMIT};
use super::{StateModel, Ticket};
use crate::access::{lists_clash, Access};
use crate::commit::{commit_run, commit_runs, CommitModel, CommitProgress, RefusalModel};
use crate::component::RelationshipTarget;
use crate::evaluation::{Admission, BatchModel, CommitLimit, DriverModel};
use crate::invocation::{Invocation, SystemId};
use crate::memo::MemoModel;
use crate::model::WorldModel;
use crate::param::JoinError;
use crate::registry::SystemModel;
use crate::state::explain::poll_charged;
use crate::state::generation::opened;
use crate::state::inputs::covered_inputs;
use crate::state::settle::{hooks_due, settle_plan};
use crate::state::wave::wave_due;
use crate::system::{OutputModel, Phase, RunModel, Wrapper};
use vstd::prelude::*;

verus! {

/// What becomes of planned batches that are taken up in order.
#[verifier::ext_equal]
#[verifier::reject_recursive_types(C)]
pub struct TakenModel<C: RelationshipTarget> {
    /// The state, in which the rows that were turned away are due again.
    pub state: StateModel<C>,
    /// The runs in flight.
    pub running: Seq<(Invocation, Seq<Access>)>,
    /// The positions of the batches that run.
    pub picked: Seq<int>,
}

/// The admission of a batch while `running` is in flight.
pub open spec fn admission_beside(
    running: Seq<(Invocation, Seq<Access>)>,
    batch: BatchModel,
) -> Admission {
    let driver = DriverModel {
        running,
        needs_plan: true,
        deferred: false,
        changed: false,
        allow_preempt: false,
    };
    driver.admission(batch.owner, batch.access)
}

/// Takes batches up in order; each that is taken up counts as a run of its system.
/// One whose owner is in flight already is passed over. One that clashes with something in flight is turned away: its row is
/// due again.
pub open spec fn taken_up<C: RelationshipTarget>(
    state: StateModel<C>,
    batches: Seq<BatchModel>,
) -> TakenModel<C>
    decreases batches.len(),
{
    if batches.len() == 0 {
        TakenModel { state, running: Seq::empty(), picked: Seq::empty() }
    } else {
        let done = taken_up(state, batches.drop_last());
        let batch = batches.last();
        match admission_beside(done.running, batch) {
            Admission::Duplicate => done,
            Admission::Deferred => TakenModel { state: done.state.replanned(batch.owner), ..done },
            _ => TakenModel {
                state: done.state.counted(batch.owner.system),
                running: done.running.push((batch.owner, batch.access)),
                picked: done.picked.push(batches.len() - 1),
            },
        }
    }
}

/// Admission looks at nothing but what is in flight.
pub proof fn lemma_admission_by_flight(driver: DriverModel, batch: BatchModel)
    ensures
        driver.admission(batch.owner, batch.access) == admission_beside(driver.running, batch),
{
    let other = DriverModel {
        running: driver.running,
        needs_plan: true,
        deferred: false,
        changed: false,
        allow_preempt: false,
    };
    let running = driver.running;
    if driver.runs(batch.owner) {
        let i = choose|i: int| 0 <= i < running.len() && (#[trigger] running[i]).0 == batch.owner;
        assert(other.running[i].0 == batch.owner);
    }
    if other.runs(batch.owner) {
        let i = choose|i: int| 0 <= i < running.len() && (#[trigger] running[i]).0 == batch.owner;
        assert(driver.running[i].0 == batch.owner);
    }
    if driver.clashes(batch.access) {
        let i = choose|i: int|
            0 <= i < running.len() && lists_clash(batch.access, (#[trigger] running[i]).1);
        assert(lists_clash(batch.access, other.running[i].1));
    }
    if other.clashes(batch.access) {
        let i = choose|i: int|
            0 <= i < running.len() && lists_clash(batch.access, (#[trigger] running[i]).1);
        assert(lists_clash(batch.access, driver.running[i].1));
    }
}

/// Whether these are runs of the picked batches, one of each, in order.
pub open spec fn runs_of_picked<C: RelationshipTarget>(
    systems: Seq<SystemModel>,
    batches: Seq<BatchModel>,
    picked: Seq<int>,
    revision: u64,
    runs: Seq<(Invocation, RunModel<C>)>,
) -> bool {
    &&& runs.len() == picked.len()
    &&& forall|j: int|
        #![trigger runs[j]]
        #![trigger picked[j]]
        0 <= j < runs.len() ==> 0 <= picked[j] < batches.len() && run_of(
            systems,
            batches[picked[j]],
            revision,
            runs[j],
        )
}

impl<C: RelationshipTarget> StateModel<C> {
    /// The state once a run of `system` was counted; no time is charged for it.
    pub open spec fn counted(self, system: SystemId) -> StateModel<C> {
        StateModel { counters: poll_charged(self.counters, system, 0, true), ..self }
    }

    /// The state once entity ids up to `next_entity` were handed out.
    pub open spec fn allocated(self, next_entity: u64) -> StateModel<C> {
        StateModel { world: WorldModel { next_entity, ..self.world }, ..self }
    }

    /// The state and the memo table once runs were committed, one after the
    /// other. A run that was out of date makes its row due again. The first
    /// refusal ends it.
    pub open spec fn committing(
        self,
        memo: Map<Invocation, MemoModel>,
        runs: Seq<(Invocation, RunModel<C>)>,
        phase: Phase,
    ) -> Result<(StateModel<C>, Map<Invocation, MemoModel>), RefusalModel>
        decreases runs.len(),
    {
        if runs.len() == 0 {
            Ok((self, memo))
        } else {
            match self.committing(memo, runs.drop_last(), phase) {
                Err(refusal) => Err(refusal),
                Ok((state, table)) => {
                    let after = commit_run(
                        state.commit_state(table),
                        runs.last().1,
                        Some(phase),
                        state.checks(),
                    );
                    match after.1 {
                        Err(refusal) => Err(refusal),
                        Ok(progress) => {
                            let next = StateModel {
                                world: after.0.world,
                                held: after.0.held,
                                ..state
                            };
                            if progress.stale {
                                Ok((next.replanned(runs.last().0), after.0.memo))
                            } else {
                                Ok((next, after.0.memo))
                            }
                        },
                    }
                },
            }
        }
    }

    /// How many of these commits changed the world, so that another wave is due:
    /// those count against the limit.
    pub open spec fn followups(
        self,
        memo: Map<Invocation, MemoModel>,
        runs: Seq<(Invocation, RunModel<C>)>,
        phase: Phase,
    ) -> nat
        decreases runs.len(),
    {
        if runs.len() == 0 {
            0
        } else {
            let rest = self.followups(memo, runs.drop_last(), phase);
            match self.committing(memo, runs.drop_last(), phase) {
                Err(_) => rest,
                Ok((state, table)) => match commit_run(
                    state.commit_state(table),
                    runs.last().1,
                    Some(phase),
                    state.checks(),
                ).1 {
                    Ok(progress) => if progress.needs_followup {
                        rest + 1
                    } else {
                        rest
                    },
                    Err(_) => rest,
                },
            }
        }
    }

    /// The world that committing runs leaves, when the last one is refused.
    pub open spec fn left_by(
        self,
        memo: Map<Invocation, MemoModel>,
        runs: Seq<(Invocation, RunModel<C>)>,
        phase: Phase,
    ) -> WorldModel<C> {
        let (state, table) = self.committing(memo, runs.drop_last(), phase)->Ok_0;
        commit_run(
            state.commit_state(table),
            runs.last().1,
            Some(phase),
            state.checks(),
        ).0.world
    }

    /// What a wave of `phase` takes up of the batches it plans.
    pub open spec fn wave_taken(self, phase: Phase, batches: Seq<BatchModel>) -> TakenModel<C> {
        taken_up(StateModel { systems: self.systems_after_wave(phase), ..self }, batches)
    }

    /// The state in which the runs of a wave are committed; they were given ids
    /// up to `next_entity`.
    pub open spec fn wave_open(
        self,
        phase: Phase,
        memo: Map<Invocation, MemoModel>,
        next_entity: u64,
    ) -> StateModel<C> {
        self.wave_taken(phase, self.wave(phase, memo)->Ok_0).state.allocated(next_entity)
    }
}

/// What is followed besides the state: the bodies, and how many commits have
/// counted against the limit.
#[verifier::ext_equal]
pub struct Trail<B> {
    pub bodies: B,
    pub spent: nat,
}

/// The hooks around a system.
pub open spec fn wrappers_around(systems: Seq<SystemModel>, system: SystemId) -> Seq<Wrapper> {
    if system.0 < systems.len() {
        systems[system.0 as int].wrappers
    } else {
        Seq::empty()
    }
}

/// Whether batches ran, one after the other and once each, against `snapshot`: the
/// bodies went from `before` to `after`, and the next free id from `ids` to
/// `next`.
pub open spec fn batches_ran<C: RelationshipTarget, B: SystemBodies<C>>(
    before: B,
    systems: Seq<SystemModel>,
    batches: Seq<BatchModel>,
    snapshot: WorldModel<C>,
    ids: u64,
    after: B,
    next: u64,
    runs: Seq<RunModel<C>>,
) -> bool
    decreases batches.len(),
{
    if batches.len() == 0 {
        after == before && next == ids && runs.len() == 0
    } else {
        runs.len() > 0 && exists|middle: B, at: u64|
            #[trigger] batch_ran(
                middle,
                batches.last().owner.system,
                wrappers_around(systems, batches.last().owner.system),
                batches.last().invocations,
                snapshot,
                at,
                after,
                next,
                runs.last(),
            ) && batches_ran(
                before,
                systems,
                batches.drop_last(),
                snapshot,
                ids,
                middle,
                at,
                runs.drop_last(),
            )
    }
}

/// Another batch ran.
pub proof fn lemma_batch_ran_on<C: RelationshipTarget, B: SystemBodies<C>>(
    before: B,
    systems: Seq<SystemModel>,
    batches: Seq<BatchModel>,
    snapshot: WorldModel<C>,
    ids: u64,
    middle: B,
    at: u64,
    runs: Seq<RunModel<C>>,
    batch: BatchModel,
    after: B,
    next: u64,
    run: RunModel<C>,
)
    requires
        batches_ran(before, systems, batches, snapshot, ids, middle, at, runs),
        batch_ran(
            middle,
            batch.owner.system,
            wrappers_around(systems, batch.owner.system),
            batch.invocations,
            snapshot,
            at,
            after,
            next,
            run,
        ),
    ensures
        batches_ran(
            before,
            systems,
            batches.push(batch),
            snapshot,
            ids,
            after,
            next,
            runs.push(run),
        ),
{
    let more = batches.push(batch);
    let all = runs.push(run);
    assert(more.drop_last() =~= batches);
    assert(all.drop_last() =~= runs);
    assert(batch_ran(
        middle,
        more.last().owner.system,
        wrappers_around(systems, more.last().owner.system),
        more.last().invocations,
        snapshot,
        at,
        after,
        next,
        all.last(),
    ));
}

/// The batches at `picked`.
pub open spec fn picked_batches(batches: Seq<BatchModel>, picked: Seq<int>) -> Seq<BatchModel> {
    picked.map_values(|i: int| batches[i])
}

/// Runs without their owners.
pub open spec fn bare_runs<C: RelationshipTarget>(runs: Seq<(Invocation, RunModel<C>)>) -> Seq<
    RunModel<C>,
> {
    runs.map_values(|run: (Invocation, RunModel<C>)| run.1)
}

/// Where the settled hook of a system stands: it is the outermost.
pub open spec fn settled_position(systems: Seq<SystemModel>, system: SystemId) -> usize {
    let around = wrappers_around(systems, system);
    if around.len() > 0 {
        (around.len() - 1) as usize
    } else {
        0
    }
}

/// Whether the settled hooks of the systems in `due` ran, one after the other and
/// once each.
pub open spec fn settled_ran<C: RelationshipTarget, B: SystemBodies<C>>(
    before: B,
    systems: Seq<SystemModel>,
    due: Seq<SystemId>,
    snapshot: WorldModel<C>,
    ids: u64,
    after: B,
    next: u64,
    runs: Seq<RunModel<C>>,
) -> bool
    decreases due.len(),
{
    if due.len() == 0 {
        after == before && next == ids && runs.len() == 0
    } else {
        runs.len() > 0 && runs.last() == settled_run(runs.last().outputs[0]) && exists|
            middle: B,
            at: u64,
        |
            #[trigger] hook_ran(
                middle,
                due.last(),
                Wrapper::Settled,
                settled_position(systems, due.last()),
                snapshot,
                at,
                after,
                next,
                runs.last().outputs[0],
            ) && settled_ran(
                before,
                systems,
                due.drop_last(),
                snapshot,
                ids,
                middle,
                at,
                runs.drop_last(),
            )
    }
}

/// The run of a settled hook that left `output`.
pub open spec fn settled_run<C: RelationshipTarget>(output: OutputModel<C>) -> RunModel<C> {
    RunModel {
        completed: true,
        outputs: seq![output],
        updates: Seq::empty(),
        writes: Seq::empty(),
    }
}

/// Another settled hook ran.
pub proof fn lemma_settled_ran_on<C: RelationshipTarget, B: SystemBodies<C>>(
    before: B,
    systems: Seq<SystemModel>,
    due: Seq<SystemId>,
    snapshot: WorldModel<C>,
    ids: u64,
    middle: B,
    at: u64,
    runs: Seq<RunModel<C>>,
    system: SystemId,
    after: B,
    next: u64,
    output: OutputModel<C>,
)
    requires
        settled_ran(before, systems, due, snapshot, ids, middle, at, runs),
        hook_ran(
            middle,
            system,
            Wrapper::Settled,
            settled_position(systems, system),
            snapshot,
            at,
            after,
            next,
            output,
        ),
    ensures
        settled_ran(
            before,
            systems,
            due.push(system),
            snapshot,
            ids,
            after,
            next,
            runs.push(settled_run(output)),
        ),
{
    let more = due.push(system);
    let all = runs.push(settled_run(output));
    assert(more.drop_last() =~= due);
    assert(all.drop_last() =~= runs);
    assert(all.last().outputs[0] == output);
    assert(hook_ran(
        middle,
        more.last(),
        Wrapper::Settled,
        settled_position(systems, more.last()),
        snapshot,
        at,
        after,
        next,
        all.last().outputs[0],
    ));
}

impl<C: RelationshipTarget> StateModel<C> {
    /// Whether `runs` are the runs of a wave planned here: every batch that is
    /// taken up ran once, in order, against the snapshot that was planned from.
    pub open spec fn wave_runs<B: SystemBodies<C>>(
        self,
        phase: Phase,
        memo: Map<Invocation, MemoModel>,
        before: B,
        runs: Seq<(Invocation, RunModel<C>)>,
        next_entity: u64,
        after: B,
    ) -> bool {
        &&& wave_due(self.systems, phase, self.world.snapshot())
        &&& self.wave(phase, memo) matches Ok(batches) && {
            let picked = self.wave_taken(phase, batches).picked;
            &&& runs_of_picked(
                self.systems,
                batches,
                picked,
                self.world.snapshot().revision,
                runs,
            )
            &&& batches_ran(
                before,
                self.systems,
                picked_batches(batches, picked),
                self.world.snapshot(),
                self.world.next_entity,
                after,
                next_entity,
                bare_runs(runs),
            )
        }
    }

    /// Whether one wave of `phase` leads from here to `after`: what it planned and
    /// took up ran, and was committed within the limit.
    pub open spec fn wave_leads<B: SystemBodies<C>>(
        self,
        phase: Phase,
        memo: Map<Invocation, MemoModel>,
        limit: CommitLimit,
        from: Trail<B>,
        runs: Seq<(Invocation, RunModel<C>)>,
        next_entity: u64,
        after: StateModel<C>,
        after_memo: Map<Invocation, MemoModel>,
        to: Trail<B>,
    ) -> bool {
        let open = self.wave_open(phase, memo, next_entity);
        let commits = open.followups(memo, runs, phase);
        &&& self.wave_runs(phase, memo, from.bodies, runs, next_entity, to.bodies)
        &&& open.committing(memo, runs, phase) == Ok::<
            (StateModel<C>, Map<Invocation, MemoModel>),
            RefusalModel,
        >((after, after_memo))
        &&& limit.allows(from.spent, commits)
        &&& to.spent == from.spent + commits
    }

    /// Whether `count` waves of `phase` lead from here to `after`.
    pub open spec fn waves_lead<B: SystemBodies<C>>(
        self,
        phase: Phase,
        memo: Map<Invocation, MemoModel>,
        limit: CommitLimit,
        from: Trail<B>,
        count: nat,
        after: StateModel<C>,
        after_memo: Map<Invocation, MemoModel>,
        to: Trail<B>,
    ) -> bool
        decreases count,
    {
        if count == 0 {
            after == self && after_memo == memo && to == from
        } else {
            exists|
                middle: StateModel<C>,
                table: Map<Invocation, MemoModel>,
                trail: Trail<B>,
                runs: Seq<(Invocation, RunModel<C>)>,
                next_entity: u64,
            |
                self.waves_lead(phase, memo, limit, from, (count - 1) as nat, middle, table, trail)
                    && #[trigger] middle.wave_leads(
                    phase,
                    table,
                    limit,
                    trail,
                    runs,
                    next_entity,
                    after,
                    after_memo,
                    to,
                )
        }
    }

    /// Whether committing the runs of a wave here fails with `error` at the last of
    /// the first `done`, and leaves the world `left`: that commit is refused, or it
    /// changes the world once more than the limit allows. `spent` counted before.
    pub open spec fn commits_fail(
        self,
        memo: Map<Invocation, MemoModel>,
        limit: CommitLimit,
        spent: nat,
        runs: Seq<(Invocation, RunModel<C>)>,
        phase: Phase,
        done: int,
        error: EngineError,
        left: WorldModel<C>,
    ) -> bool {
        let commits = self.followups(memo, runs.take(done - 1), phase);
        &&& 0 < done <= runs.len()
        &&& limit.allows(spent, commits)
        &&& match error {
            EngineError::Commit(error) => {
                &&& self.committing(memo, runs.take(done - 1), phase) is Ok
                &&& self.committing(memo, runs.take(done), phase) == Err::<
                    (StateModel<C>, Map<Invocation, MemoModel>),
                    RefusalModel,
                >(error@)
                &&& left == self.left_by(memo, runs.take(done), phase)
            },
            EngineError::Budget(error) => {
                &&& self.committing(memo, runs.take(done), phase) matches Ok((state, _)) && left
                    == state.world
                &&& self.followups(memo, runs.take(done), phase) == commits + 1
                &&& limit.refuses(spent + commits, 1, error)
            },
            _ => false,
        }
    }

    /// Whether a wave planned here fails with `error` and leaves the world `left`:
    /// its plan cannot be joined; or all of it ran, and committing it fails at the
    /// last of the first `done` runs.
    pub open spec fn wave_fails<B: SystemBodies<C>>(
        self,
        phase: Phase,
        memo: Map<Invocation, MemoModel>,
        limit: CommitLimit,
        from: Trail<B>,
        runs: Seq<(Invocation, RunModel<C>)>,
        next_entity: u64,
        done: int,
        error: EngineError,
        left: WorldModel<C>,
        bodies: B,
    ) -> bool {
        match error {
            EngineError::Join(error) => {
                &&& self.wave(phase, memo) == Err::<Seq<BatchModel>, JoinError>(error)
                &&& left == self.world
                &&& bodies == from.bodies
            },
            _ => {
                &&& self.wave_runs(phase, memo, from.bodies, runs, next_entity, bodies)
                &&& self.wave_open(phase, memo, next_entity).commits_fail(
                    memo,
                    limit,
                    from.spent,
                    runs,
                    phase,
                    done,
                    error,
                    left,
                )
            },
        }
    }

    /// Whether `phase` fails with `error` from here: after some waves another one
    /// fails, or there is no end of waves.
    pub open spec fn phase_fails<B: SystemBodies<C>>(
        self,
        phase: Phase,
        memo: Map<Invocation, MemoModel>,
        limit: CommitLimit,
        from: Trail<B>,
        error: EngineError,
        left: WorldModel<C>,
        bodies: B,
    ) -> bool {
        exists|
            count: nat,
            middle: StateModel<C>,
            table: Map<Invocation, MemoModel>,
            trail: Trail<B>,
            runs: Seq<(Invocation, RunModel<C>)>,
            next_entity: u64,
            done: int,
        |
            #![trigger self.waves_lead(phase, memo, limit, from, count, middle, table, trail), middle.wave_fails(phase, table, limit, trail, runs, next_entity, done, error, left, bodies)]
            self.waves_lead(phase, memo, limit, from, count, middle, table, trail) && if error
                is Unsettled {
                count == STEP_LIMIT && left == middle.world && bodies == trail.bodies
            } else {
                middle.wave_fails(
                    phase,
                    table,
                    limit,
                    trail,
                    runs,
                    next_entity,
                    done,
                    error,
                    left,
                    bodies,
                )
            }
    }

    /// Whether a phase leads from here to `after`. `moved` says whether a phase
    /// before it moved the world, `changed` whether one has now.
    pub open spec fn phase_leads<B: SystemBodies<C>>(
        self,
        phase: Phase,
        memo: Map<Invocation, MemoModel>,
        limit: CommitLimit,
        from: Trail<B>,
        moved: bool,
        changed: bool,
        after: StateModel<C>,
        after_memo: Map<Invocation, MemoModel>,
        to: Trail<B>,
    ) -> bool {
        &&& exists|count: nat| #[trigger]
            self.waves_lead(phase, memo, limit, from, count, after, after_memo, to)
        &&& changed == (moved || after.moved_since(self))
    }

    /// Whether phases, one after the other, lead from here to `after`. `changed`
    /// says whether one of them moved the world.
    pub open spec fn phases_lead<B: SystemBodies<C>>(
        self,
        phases: Seq<Phase>,
        memo: Map<Invocation, MemoModel>,
        limit: CommitLimit,
        from: Trail<B>,
        changed: bool,
        after: StateModel<C>,
        after_memo: Map<Invocation, MemoModel>,
        to: Trail<B>,
    ) -> bool
        decreases phases.len(),
    {
        if phases.len() == 0 {
            after == self && after_memo == memo && !changed && to == from
        } else {
            exists|
                moved: bool,
                middle: StateModel<C>,
                table: Map<Invocation, MemoModel>,
                trail: Trail<B>,
            |
                self.phases_lead(
                    phases.drop_last(),
                    memo,
                    limit,
                    from,
                    moved,
                    middle,
                    table,
                    trail,
                ) && #[trigger] middle.phase_leads(
                    phases.last(),
                    table,
                    limit,
                    trail,
                    moved,
                    changed,
                    after,
                    after_memo,
                    to,
                )
        }
    }

    /// Whether phases fail with `error`: some of them lead to a state in which the
    /// next one fails.
    pub open spec fn phases_fail<B: SystemBodies<C>>(
        self,
        phases: Seq<Phase>,
        memo: Map<Invocation, MemoModel>,
        limit: CommitLimit,
        from: Trail<B>,
        error: EngineError,
        left: WorldModel<C>,
        bodies: B,
    ) -> bool {
        exists|
            done: int,
            moved: bool,
            middle: StateModel<C>,
            table: Map<Invocation, MemoModel>,
            trail: Trail<B>,
        |
            0 <= done < phases.len() && #[trigger] self.phases_lead(
                phases.take(done),
                memo,
                limit,
                from,
                moved,
                middle,
                table,
                trail,
            ) && middle.phase_fails(phases[done], table, limit, trail, error, left, bodies)
    }

    /// The state in which the phases of the pending generation start.
    pub open spec fn begun(self) -> StateModel<C> {
        self.running(self.pending->0, self.opening())
    }

    /// The phases of the pending generation.
    pub open spec fn due_phases(self) -> Seq<Phase> {
        Phase::order(!self.started || self.restart)
    }

    /// Whether the pending generation leads from here to `after`: its inputs are
    /// accepted, its phases run, and what they left is recorded.
    pub open spec fn generation_leads<B: SystemBodies<C>>(
        self,
        limit: CommitLimit,
        from: Trail<B>,
        after: StateModel<C>,
        to: Trail<B>,
    ) -> bool {
        &&& self.pending is Some
        &&& opened(self.world, self.held, self.inputs).1 is Ok
        &&& exists|ran: StateModel<C>, table: Map<Invocation, MemoModel>, changed: bool|
            #![trigger self.begun().phases_lead(self.due_phases(), self.memo, limit, from, changed, ran, table, to)]
            self.begun().phases_lead(
                self.due_phases(),
                self.memo,
                limit,
                from,
                changed,
                ran,
                table,
                to,
            ) && after == ran.completed(self.pending->0, table, changed)
    }

    /// Whether the pending generation fails with `error` and leaves `after`: one of
    /// its inputs is refused, or one of its phases fails, and then it is pending
    /// again.
    pub open spec fn generation_fails<B: SystemBodies<C>>(
        self,
        limit: CommitLimit,
        from: Trail<B>,
        error: EngineError,
        after: StateModel<C>,
        bodies: B,
    ) -> bool {
        &&& self.pending is Some
        &&& match opened(self.world, self.held, self.inputs).1 {
            Err(refused) => error == EngineError::Apply(refused) && bodies == from.bodies && after
                == (StateModel {
                world: self.opening(),
                pending: None,
                inputs: Seq::empty(),
                held: Seq::empty(),
                ..self
            }),
            Ok(_) => {
                &&& self.begun().phases_fail(
                    self.due_phases(),
                    self.memo,
                    limit,
                    from,
                    error,
                    after.world,
                    bodies,
                )
                &&& exists|ran: StateModel<C>, table: Map<Invocation, MemoModel>|
                    self.begun().only_ran(ran) && after == #[trigger] ran.abandoned(
                        self.pending->0,
                        table,
                    )
            },
        }
    }

    /// The state while a runner holds the memo table.
    pub open spec fn lent(self) -> StateModel<C> {
        StateModel { memo: Map::empty(), ..self }
    }

    /// The systems whose settled hook is due.
    pub open spec fn due_hooks(self) -> Result<Seq<SystemId>, JoinError> {
        hooks_due(self.lent(), self.world.snapshot(), self.memo, self.systems.len())
    }

    /// Whether these are the runs of the settled hooks that are due.
    pub open spec fn hook_runs<B: SystemBodies<C>>(
        self,
        before: B,
        runs: Seq<RunModel<C>>,
        next_entity: u64,
        after: B,
    ) -> bool {
        self.due_hooks() matches Ok(due) && settled_ran(
            before,
            self.systems,
            due,
            self.world.snapshot(),
            self.world.next_entity,
            after,
            next_entity,
            runs,
        )
    }

    /// What committing runs of settled hooks gives; they were given ids up to
    /// `next_entity`.
    pub open spec fn hooks_committed(self, runs: Seq<RunModel<C>>, next_entity: u64) -> (
        CommitModel<C>,
        Result<CommitProgress, RefusalModel>,
    ) {
        commit_runs(
            self.allocated(next_entity).commit_state(self.memo),
            runs,
            self.lent().checks(),
        )
    }

    /// Whether the settled hooks lead from here to `after`. `again` says whether
    /// they changed something, so that another generation is pending.
    pub open spec fn hooks_lead<B: SystemBodies<C>>(
        self,
        limit: CommitLimit,
        from: Trail<B>,
        runs: Seq<RunModel<C>>,
        next_entity: u64,
        again: bool,
        after: StateModel<C>,
        to: Trail<B>,
    ) -> bool {
        let done = self.hooks_committed(runs, next_entity);
        let kept = StateModel {
            world: done.0.world,
            held: done.0.held,
            memo: done.0.memo,
            ..self
        };
        &&& self.hook_runs(from.bodies, runs, next_entity, to.bodies)
        &&& done.1 matches Ok(progress) && progress.needs_followup == again && limit.allows(
            from.spent,
            progress.commits as nat,
        ) && to.spent == from.spent + progress.commits
        &&& after == if again {
            kept.pended()
        } else {
            StateModel { settled_revision: done.0.world.revision, ..kept }
        }
    }

    /// Whether the settled hooks fail with `error` and leave the world `left`.
    pub open spec fn hooks_fail<B: SystemBodies<C>>(
        self,
        limit: CommitLimit,
        from: Trail<B>,
        runs: Seq<RunModel<C>>,
        next_entity: u64,
        error: EngineError,
        left: WorldModel<C>,
        bodies: B,
    ) -> bool {
        let done = self.hooks_committed(runs, next_entity);
        match error {
            EngineError::Join(error) => {
                &&& self.due_hooks() == Err::<Seq<SystemId>, JoinError>(error)
                &&& left == self.world
                &&& bodies == from.bodies
            },
            EngineError::Commit(error) => {
                &&& self.hook_runs(from.bodies, runs, next_entity, bodies)
                &&& done.1 == Err::<CommitProgress, RefusalModel>(error@)
                &&& left == done.0.world
            },
            EngineError::Budget(error) => {
                &&& self.hook_runs(from.bodies, runs, next_entity, bodies)
                &&& done.1 matches Ok(progress) && limit.refuses(
                    from.spent,
                    progress.commits as nat,
                    error,
                )
                &&& left == done.0.world
            },
            _ => false,
        }
    }

    /// What the systems of the settle phase run.
    pub open spec fn closing_plan(self) -> Result<Seq<BatchModel>, JoinError> {
        settle_plan(self.lent(), self.world.snapshot(), self.memo, self.systems.len())
    }

    /// Whether these are the runs of the settle phase: everything that it plans ran
    /// once, in order.
    pub open spec fn closing_runs<B: SystemBodies<C>>(
        self,
        before: B,
        runs: Seq<RunModel<C>>,
        next_entity: u64,
        after: B,
    ) -> bool {
        self.closing_plan() matches Ok(batches) && runs_of_batches(
            self.systems,
            batches,
            self.world.snapshot().revision,
            runs,
        ) && batches_ran(
            before,
            self.systems,
            batches,
            self.world.snapshot(),
            self.world.next_entity,
            after,
            next_entity,
            runs,
        )
    }

    /// What committing runs of the settle phase gives; they were given ids up to
    /// `next_entity`.
    pub open spec fn closing_commits(self, runs: Seq<RunModel<C>>, next_entity: u64) -> Result<
        CommitModel<C>,
        RefusalModel,
    > {
        settle_commits(
            self.allocated(next_entity).commit_state(self.memo),
            runs,
            self.lent().checks(),
        )
    }

    /// Whether the settle phase leads from here to `after`, whose world counts as
    /// settled.
    pub open spec fn closing_leads<B: SystemBodies<C>>(
        self,
        before: B,
        runs: Seq<RunModel<C>>,
        next_entity: u64,
        after: StateModel<C>,
        bodies: B,
    ) -> bool {
        &&& self.closing_runs(before, runs, next_entity, bodies)
        &&& self.closing_commits(runs, next_entity) matches Ok(done) && after == (StateModel {
            world: done.world,
            held: done.held,
            memo: done.memo,
            settled_revision: done.world.revision,
            ..self
        })
    }

    /// Whether the settle phase fails with `error` and leaves the world `left`: the
    /// first `done` runs were committed, but for the last of them.
    pub open spec fn closing_fails<B: SystemBodies<C>>(
        self,
        before: B,
        runs: Seq<RunModel<C>>,
        next_entity: u64,
        done: int,
        error: EngineError,
        left: WorldModel<C>,
        bodies: B,
    ) -> bool {
        match error {
            EngineError::Join(error) => {
                &&& self.closing_plan() == Err::<Seq<BatchModel>, JoinError>(error)
                &&& left == self.world
                &&& bodies == before
            },
            EngineError::Commit(error) => {
                &&& self.closing_runs(before, runs, next_entity, bodies)
                &&& 0 < done <= runs.len()
                &&& self.closing_commits(runs.take(done - 1), next_entity) matches Ok(middle) && ({
                    let after = commit_run(
                        middle,
                        runs[done - 1],
                        Some(Phase::Settle),
                        self.lent().checks(),
                    );
                    &&& after.1 == Err::<CommitProgress, RefusalModel>(error@)
                    &&& left == after.0.world
                })
            },
            _ => false,
        }
    }

    /// Whether driving the pending generation, if there is one, leads from here to
    /// `ran`.
    pub open spec fn driven<B: SystemBodies<C>>(
        self,
        limit: CommitLimit,
        from: Trail<B>,
        ran: StateModel<C>,
        to: Trail<B>,
    ) -> bool {
        &&& !self.is_settled()
        &&& if self.pending is Some {
            self.generation_leads(limit, from, ran, to)
        } else {
            ran == self && to == from
        }
    }

    /// Whether the last generation changed nothing and none is pending, though the
    /// world is not settled yet.
    pub open spec fn converged(self) -> bool {
        !self.is_settled() && self.pending is None && self.running is None && self.clean
    }

    /// Whether a caller who entered at `watermark` is responsible for a deferred
    /// input.
    pub open spec fn covers(self, watermark: u64) -> bool {
        covered_inputs(self.deferred, watermark).len() > 0
    }

    /// Whether the generation that led to `self` changed nothing more, and quiet
    /// settled hooks and the settle phase lead on to `closed`.
    pub open spec fn wound_up<B: SystemBodies<C>>(
        self,
        limit: CommitLimit,
        from: Trail<B>,
        hooks: Seq<RunModel<C>>,
        hooked: StateModel<C>,
        middle: Trail<B>,
        runs: Seq<RunModel<C>>,
        ids: (u64, u64),
        closed: StateModel<C>,
        to: Trail<B>,
    ) -> bool {
        &&& self.converged()
        &&& self.hooks_lead(limit, from, hooks, ids.0, false, hooked, middle)
        &&& hooked.closing_leads(middle.bodies, runs, ids.1, closed, to.bodies)
        &&& to.spent == middle.spent
    }

    /// Whether a round of settling that drove the bowl to here goes on from
    /// `after`.
    pub open spec fn goes_on<B: SystemBodies<C>>(
        self,
        watermark: u64,
        limit: CommitLimit,
        from: Trail<B>,
        after: StateModel<C>,
        to: Trail<B>,
    ) -> bool {
        ||| self.is_settled() && self.covers(watermark) && after == self.promoted(watermark) && to
            == from
        ||| !self.is_settled() && !self.converged() && after == self.pended() && to == from
        ||| self.converged() && exists|runs: Seq<RunModel<C>>, next_entity: u64| #[trigger]
            self.hooks_lead(limit, from, runs, next_entity, true, after, to)
        ||| exists|
            hooks: Seq<RunModel<C>>,
            hooked: StateModel<C>,
            middle: Trail<B>,
            runs: Seq<RunModel<C>>,
            ids: (u64, u64),
            closed: StateModel<C>,
        | #[trigger]
            self.wound_up(limit, from, hooks, hooked, middle, runs, ids, closed, to)
                && closed.covers(watermark) && after == closed.promoted(watermark)
    }

    /// Whether one round of settling, by a caller who entered at `watermark`,
    /// leads from here to `after`.
    pub open spec fn round_leads<B: SystemBodies<C>>(
        self,
        watermark: u64,
        limit: CommitLimit,
        from: Trail<B>,
        after: StateModel<C>,
        to: Trail<B>,
    ) -> bool {
        ||| self.is_settled() && self.covers(watermark) && after == self.promoted(watermark) && to
            == from
        ||| exists|ran: StateModel<C>, trail: Trail<B>| #[trigger]
            self.driven(limit, from, ran, trail) && ran.goes_on(watermark, limit, trail, after, to)
    }

    /// Whether `count` rounds lead from here to `after`.
    pub open spec fn rounds_lead<B: SystemBodies<C>>(
        self,
        watermark: u64,
        limit: CommitLimit,
        from: Trail<B>,
        count: nat,
        after: StateModel<C>,
        to: Trail<B>,
    ) -> bool
        decreases count,
    {
        if count == 0 {
            after == self && to == from
        } else {
            exists|middle: StateModel<C>, trail: Trail<B>|
                self.rounds_lead(watermark, limit, from, (count - 1) as nat, middle, trail)
                    && #[trigger] middle.round_leads(watermark, limit, trail, after, to)
        }
    }

    /// Whether a round of settling that drove the bowl to here ends it in `after`,
    /// with `woken` to be woken.
    pub open spec fn rests<B: SystemBodies<C>>(
        self,
        watermark: u64,
        limit: CommitLimit,
        from: Trail<B>,
        woken: Seq<Ticket>,
        after: StateModel<C>,
        to: Trail<B>,
    ) -> bool {
        ||| self.is_settled() && !self.covers(watermark) && after == self.retaining()
            && woken.len() == 0 && to == from
        ||| exists|
            hooks: Seq<RunModel<C>>,
            hooked: StateModel<C>,
            middle: Trail<B>,
            runs: Seq<RunModel<C>>,
            ids: (u64, u64),
            closed: StateModel<C>,
        | #[trigger]
            self.wound_up(limit, from, hooks, hooked, middle, runs, ids, closed, to)
                && !closed.covers(watermark) && after == (StateModel {
                watchers: Seq::empty(),
                ..closed.retaining()
            }) && woken == closed.watchers
    }

    /// Whether settling ends from here in `after` without another round.
    pub open spec fn ends<B: SystemBodies<C>>(
        self,
        watermark: u64,
        limit: CommitLimit,
        from: Trail<B>,
        woken: Seq<Ticket>,
        after: StateModel<C>,
        to: Trail<B>,
    ) -> bool {
        ||| self.is_settled() && !self.covers(watermark) && after == self.retaining()
            && woken.len() == 0 && to == from
        ||| exists|ran: StateModel<C>, trail: Trail<B>| #[trigger]
            self.driven(limit, from, ran, trail) && ran.rests(
                watermark,
                limit,
                trail,
                woken,
                after,
                to,
            )
    }

    /// Whether settling fails with `error` from here without another round, and
    /// leaves the world `left`.
    pub open spec fn round_fails<B: SystemBodies<C>>(
        self,
        limit: CommitLimit,
        from: Trail<B>,
        error: EngineError,
        left: WorldModel<C>,
        bodies: B,
    ) -> bool {
        ||| !self.is_settled() && exists|after: StateModel<C>| #[trigger]
            self.generation_fails(limit, from, error, after, bodies) && after.world == left
        ||| exists|ran: StateModel<C>, trail: Trail<B>| #[trigger]
            self.driven(limit, from, ran, trail) && ran.winding_fails(
                limit,
                trail,
                error,
                left,
                bodies,
            )
    }

    /// Whether the settled hooks or the settle phase fail with `error` after the
    /// bowl was driven to here, and leave the world `left`.
    pub open spec fn winding_fails<B: SystemBodies<C>>(
        self,
        limit: CommitLimit,
        from: Trail<B>,
        error: EngineError,
        left: WorldModel<C>,
        bodies: B,
    ) -> bool {
        &&& self.converged()
        &&& {
            ||| exists|runs: Seq<RunModel<C>>, next_entity: u64| #[trigger]
                self.hooks_fail(limit, from, runs, next_entity, error, left, bodies)
            ||| exists|
                hooks: Seq<RunModel<C>>,
                first: u64,
                hooked: StateModel<C>,
                trail: Trail<B>,
                runs: Seq<RunModel<C>>,
                next_entity: u64,
                done: int,
            |
                #![trigger self.hooks_lead(limit, from, hooks, first, false, hooked, trail), hooked.closing_fails(trail.bodies, runs, next_entity, done, error, left, bodies)]
                self.hooks_lead(limit, from, hooks, first, false, hooked, trail)
                    && hooked.closing_fails(
                    trail.bodies,
                    runs,
                    next_entity,
                    done,
                    error,
                    left,
                    bodies,
                )
        }
    }

    /// Whether an epoch, driven by a caller who entered at `watermark`, leads from
    /// here to `after`, with `woken` to be woken.
    pub open spec fn epoch_leads<B: SystemBodies<C>>(
        self,
        watermark: u64,
        limit: CommitLimit,
        from: Trail<B>,
        woken: Seq<Ticket>,
        after: StateModel<C>,
        to: Trail<B>,
    ) -> bool {
        exists|count: nat, last: StateModel<C>, trail: Trail<B>|
            #![trigger self.rounds_lead(watermark, limit, from, count, last, trail), last.ends(watermark, limit, trail, woken, after, to)]
            self.rounds_lead(watermark, limit, from, count, last, trail) && last.ends(
                watermark,
                limit,
                trail,
                woken,
                after,
                to,
            )
    }

    /// Whether an epoch fails with `error` from here and leaves the world `left`: a
    /// round of it fails, or there is no end of rounds.
    pub open spec fn epoch_fails<B: SystemBodies<C>>(
        self,
        watermark: u64,
        limit: CommitLimit,
        from: Trail<B>,
        error: EngineError,
        left: WorldModel<C>,
        bodies: B,
    ) -> bool {
        exists|count: nat, last: StateModel<C>, trail: Trail<B>|
            #![trigger self.rounds_lead(watermark, limit, from, count, last, trail), last.round_fails(limit, trail, error, left, bodies)]
            self.rounds_lead(watermark, limit, from, count, last, trail) && (last.round_fails(
                limit,
                trail,
                error,
                left,
                bodies,
            ) || (error is Unsettled && count == STEP_LIMIT && left == last.world && bodies
                == trail.bodies))
    }
}

/// Whether these are the runs of batches of the settle phase, one of each.
pub open spec fn runs_of_batches<C: RelationshipTarget>(
    systems: Seq<SystemModel>,
    batches: Seq<BatchModel>,
    revision: u64,
    runs: Seq<RunModel<C>>,
) -> bool {
    &&& runs.len() == batches.len()
    &&& forall|j: int|
        #![trigger runs[j]]
        #![trigger batches[j]]
        0 <= j < runs.len() ==> run_of(
            systems,
            batches[j],
            revision,
            (batches[j].owner, runs[j]),
        )
}

/// Another phase leads on.
pub proof fn lemma_phase_leads_on<C: RelationshipTarget, B: SystemBodies<C>>(
    begun: StateModel<C>,
    phases: Seq<Phase>,
    memo: Map<Invocation, MemoModel>,
    limit: CommitLimit,
    from: Trail<B>,
    moved: bool,
    middle: StateModel<C>,
    table: Map<Invocation, MemoModel>,
    trail: Trail<B>,
    phase: Phase,
    count: nat,
    after: StateModel<C>,
    after_memo: Map<Invocation, MemoModel>,
    to: Trail<B>,
)
    requires
        begun.phases_lead(phases, memo, limit, from, moved, middle, table, trail),
        middle.waves_lead(phase, table, limit, trail, count, after, after_memo, to),
    ensures
        begun.phases_lead(
            phases.push(phase),
            memo,
            limit,
            from,
            moved || after.moved_since(middle),
            after,
            after_memo,
            to,
        ),
{
    let more = phases.push(phase);
    let changed = moved || after.moved_since(middle);
    assert(more.drop_last() =~= phases);
    assert(more.last() == phase);
    assert(middle.phase_leads(
        more.last(),
        table,
        limit,
        trail,
        moved,
        changed,
        after,
        after_memo,
        to,
    ));
    assert(begun.phases_lead(more, memo, limit, from, changed, after, after_memo, to));
}

} // verus!
