//! Planning waves: which systems of a phase are planned again, and what they
//! run.

use super::{State, StateModel};
use crate::component::RelationshipTarget;
use crate::evaluation::{batch_runs, batches_of, batches_view, BatchModel, PlannedBatch};
use crate::invocation::{Invocation, SystemId, SystemInvocation};
use crate::memo::{planned_states, to_run, MemoModel, MemoTable};
use crate::model::{Cell, WorldModel};
use crate::param::JoinError;
use crate::registry::{BoxedSystem, SystemModel};
use crate::system::Phase;
use crate::world::{copy_cells, World};
use vstd::prelude::*;

verus! {

/// Whether some system of `phase` must be planned.
pub open spec fn wave_due<C: RelationshipTarget>(
    systems: Seq<SystemModel>,
    phase: Phase,
    world: WorldModel<C>,
) -> bool {
    exists|i: int|
        0 <= i < systems.len() && (#[trigger] systems[i]).phase == phase && systems[i].must_plan(
            world,
        )
}

/// Whether a system takes part in a wave of `phase`.
pub open spec fn in_wave<C: RelationshipTarget>(
    system: SystemModel,
    phase: Phase,
    world: WorldModel<C>,
) -> bool {
    system.phase == phase && system.must_plan(world)
}

/// A system after a wave.
pub open spec fn after_wave<C: RelationshipTarget>(
    system: SystemModel,
    phase: Phase,
    world: WorldModel<C>,
    log: Seq<Cell>,
    epoch: u64,
) -> SystemModel {
    if in_wave(system, phase, world) {
        system.marked(world).planned(log.len(), epoch)
    } else {
        system
    }
}

/// What one system contributes to a wave.
pub open spec fn wave_share<C: RelationshipTarget>(
    system: SystemModel,
    phase: Phase,
    world: WorldModel<C>,
    memo: Map<Invocation, MemoModel>,
    log: Seq<Cell>,
    epoch: u64,
) -> Result<Seq<BatchModel>, JoinError> {
    if !in_wave(system, phase, world) {
        Ok(Seq::empty())
    } else {
        match planned_states(world, system.params, system.hint(log, epoch)) {
            Err(error) => Err(error),
            Ok(states) => Ok(
                batches_of(system, to_run(system.id, world, memo, system.params, states)),
            ),
        }
    }
}

/// The batches of a wave over the first `count` systems.
pub open spec fn wave_batches<C: RelationshipTarget>(
    systems: Seq<SystemModel>,
    phase: Phase,
    world: WorldModel<C>,
    memo: Map<Invocation, MemoModel>,
    log: Seq<Cell>,
    epoch: u64,
    count: nat,
) -> Result<Seq<BatchModel>, JoinError>
    decreases count,
{
    if count == 0 {
        Ok(Seq::empty())
    } else {
        match wave_batches(systems, phase, world, memo, log, epoch, (count - 1) as nat) {
            Err(error) => Err(error),
            Ok(batches) => match wave_share(
                systems[count - 1],
                phase,
                world,
                memo,
                log,
                epoch,
            ) {
                Err(error) => Err(error),
                Ok(more) => Ok(batches + more),
            },
        }
    }
}

proof fn lemma_failed_wave<C: RelationshipTarget>(
    systems: Seq<SystemModel>,
    phase: Phase,
    world: WorldModel<C>,
    memo: Map<Invocation, MemoModel>,
    log: Seq<Cell>,
    epoch: u64,
    failed: nat,
    count: nat,
)
    requires
        failed <= count,
        wave_batches(systems, phase, world, memo, log, epoch, failed) is Err,
    ensures
        wave_batches(systems, phase, world, memo, log, epoch, count) == wave_batches(
            systems,
            phase,
            world,
            memo,
            log,
            epoch,
            failed,
        ),
    decreases count,
{
    if failed < count {
        lemma_failed_wave(systems, phase, world, memo, log, epoch, failed, (count - 1) as nat);
    }
}

fn plan_system<C: RelationshipTarget>(
    system: &mut BoxedSystem,
    phase: Phase,
    snapshot: &World<C>,
    memo: &MemoTable,
    log: &Vec<Cell>,
    epoch: u64,
) -> (share: Result<Vec<PlannedBatch>, JoinError>)
    requires
        old(system).wf(),
        snapshot.wf(),
        memo.wf(),
    ensures
        final(system).wf(),
        final(system)@ == after_wave(old(system)@, phase, snapshot@, log@, epoch),
        match share {
            Ok(batches) => wave_share(old(system)@, phase, snapshot@, memo@, log@, epoch) == Ok::<
                Seq<BatchModel>,
                JoinError,
            >(batches_view(batches@)),
            Err(error) => wave_share(old(system)@, phase, snapshot@, memo@, log@, epoch) == Err::<
                Seq<BatchModel>,
                JoinError,
            >(error),
        },
{
    let ghost before = system@;
    if system.phase != phase || !system.needs_planning(snapshot) {
        let none: Vec<PlannedBatch> = Vec::new();
        assert(batches_view(none@) =~= Seq::<BatchModel>::empty());
        return Ok(none);
    }
    assert(system@.hint(log@, epoch) == before.hint(log@, epoch));
    match system.plan_wave(snapshot, memo, log, epoch) {
        Ok(plan) => {
            let batches = batch_runs(system, plan);
            assert(system@.batched() == before.batched());
            Ok(batches)
        },
        Err(error) => Err(error),
    }
}

impl<C: RelationshipTarget> StateModel<C> {
    /// The state with the row of `owner` due again.
    pub open spec fn replanned(self, owner: Invocation) -> StateModel<C> {
        if owner.system.0 < self.systems.len() {
            let at = owner.system.0 as int;
            StateModel {
                systems: self.systems.update(at, self.systems[at].forced_on(owner.keys)),
                ..self
            }
        } else {
            self
        }
    }
}

impl<C: RelationshipTarget> State<C> {
    /// Whether some system of `phase` must be planned. When none must, the whole
    /// wave is skipped.
    pub fn wave_needed(&self, phase: Phase, snapshot: &World<C>) -> (due: bool)
        ensures
            due == wave_due(self@.systems, phase, snapshot@),
    {
        let ghost models = self@.systems;
        let mut i: usize = 0;
        while i < self.systems.len()
            invariant
                i <= self.systems@.len(),
                models == self@.systems,
                models.len() == self.systems@.len(),
                forall|j: int|
                    0 <= j < i ==> !((#[trigger] models[j]).phase == phase && models[j].must_plan(
                        snapshot@,
                    )),
            decreases self.systems@.len() - i,
        {
            assert(models[i as int] == self.systems@[i as int]@);
            if self.systems[i].phase == phase && self.systems[i].peek_needs_planning(snapshot) {
                return true;
            }
            i = i + 1;
        }
        false
    }

    /// Plans one wave of `phase`: every system whose stores moved, from the rows
    /// written since its last plan where it can. All systems plan from the same
    /// snapshot.
    pub fn plan_wave(&mut self, phase: Phase, snapshot: &World<C>, memo: &MemoTable) -> (wave: Result<
        Vec<PlannedBatch>,
        JoinError,
    >)
        requires
            old(self).wf(),
            snapshot.wf(),
            memo.wf(),
        ensures
            final(self).wf(),
            match wave {
                Ok(batches) => {
                    &&& wave_batches(
                        old(self)@.systems,
                        phase,
                        snapshot@,
                        memo@,
                        old(self)@.world.log,
                        old(self)@.world.epoch,
                        old(self)@.systems.len(),
                    ) == Ok::<Seq<BatchModel>, JoinError>(batches_view(batches@))
                    &&& final(self)@ == (StateModel {
                        systems: old(self)@.systems.map_values(
                            |system: SystemModel|
                                after_wave(
                                    system,
                                    phase,
                                    snapshot@,
                                    old(self)@.world.log,
                                    old(self)@.world.epoch,
                                ),
                        ),
                        ..old(self)@
                    })
                },
                Err(error) => {
                    &&& wave_batches(
                        old(self)@.systems,
                        phase,
                        snapshot@,
                        memo@,
                        old(self)@.world.log,
                        old(self)@.world.epoch,
                        old(self)@.systems.len(),
                    ) == Err::<Seq<BatchModel>, JoinError>(error)
                    &&& final(self)@ == (StateModel {
                        systems: final(self)@.systems,
                        ..old(self)@
                    })
                },
            },
    {
        let ghost before = self@;
        let (log, epoch) = self.world.plan_log();
        let log = copy_cells(log);
        let mut batches: Vec<PlannedBatch> = Vec::new();
        let mut i: usize = 0;
        assert(batches_view(batches@) =~= Seq::<BatchModel>::empty());
        while i < self.systems.len()
            invariant
                self.wf(),
                snapshot.wf(),
                memo.wf(),
                before == old(self)@,
                log@ == before.world.log,
                epoch == before.world.epoch,
                i <= self.systems@.len(),
                self@ == (StateModel { systems: self@.systems, ..before }),
                self@.systems.len() == before.systems.len(),
                self@.systems.len() == self.systems@.len(),
                forall|j: int|
                    0 <= j < i ==> (#[trigger] self@.systems[j]) == after_wave(
                        before.systems[j],
                        phase,
                        snapshot@,
                        log@,
                        epoch,
                    ),
                forall|j: int|
                    i <= j < before.systems.len() ==> (#[trigger] self@.systems[j])
                        == before.systems[j],
                wave_batches(before.systems, phase, snapshot@, memo@, log@, epoch, i as nat) == Ok::<
                    Seq<BatchModel>,
                    JoinError,
                >(batches_view(batches@)),
            decreases self.systems@.len() - i,
        {
            let ghost now = *self;
            assert(now@.systems[i as int] == now.systems@[i as int]@);
            let mut system = self.systems.remove(i);
            let share = plan_system(&mut system, phase, snapshot, memo, &log, epoch);
            self.systems.insert(i, system);
            proof {
                assert(self.systems@ =~= now.systems@.update(i as int, system));
                assert(self@.systems =~= now@.systems.update(i as int, system@));
                assert forall|j: int| 0 <= j < self@.systems.len() implies (
                #[trigger] self@.systems[j]).id == SystemId(j as usize)
                    && self@.systems[j].sound() by {
                    assert(now@.systems[j].id == SystemId(j as usize));
                }
            }
            match share {
                Ok(mut more) => {
                    let ghost held = batches@;
                    let ghost added = more@;
                    batches.append(&mut more);
                    assert(batches_view(batches@) =~= batches_view(held) + batches_view(added));
                },
                Err(error) => {
                    proof {
                        lemma_failed_wave(
                            before.systems,
                            phase,
                            snapshot@,
                            memo@,
                            log@,
                            epoch,
                            (i + 1) as nat,
                            before.systems.len(),
                        );
                    }
                    return Err(error);
                },
            }
            i = i + 1;
        }
        assert(self@.systems =~= before.systems.map_values(
            |system: SystemModel|
                after_wave(system, phase, snapshot@, before.world.log, before.world.epoch),
        ));
        Ok(batches)
    }

    /// Makes the row of a deferred or discarded run due again.
    pub fn force_replan(&mut self, owner: &SystemInvocation)
        requires
            old(self).wf(),
        ensures
            final(self).wf(),
            final(self)@ == old(self)@.replanned(owner@),
    {
        let ghost now = *self;
        let at = owner.system.0;
        assert(self@.systems.len() == self.systems@.len());
        if at >= self.systems.len() {
            return;
        }
        assert(now@.systems[at as int] == now.systems@[at as int]@);
        let mut system = self.systems.remove(at);
        system.force_replan(&owner.keys);
        self.systems.insert(at, system);
        proof {
            assert(self.systems@ =~= now.systems@.update(at as int, system));
            assert(self@.systems =~= now@.systems.update(at as int, system@));
            assert forall|j: int| 0 <= j < self@.systems.len() implies (
            #[trigger] self@.systems[j]).id == SystemId(j as usize)
                && self@.systems[j].sound() by {
                assert(now@.systems[j].id == SystemId(j as usize));
            }
        }
    }
}

} // verus!
