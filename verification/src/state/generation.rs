//! Generations: starting, finishing and abandoning an evaluation, and what
//! happens between them.

use super::{numbered, State, StateModel, Ticket};
use crate::commands::{
    apply_base_commands, apply_base_ops, apply_op, base_ops_view, ApplyError, BaseOpModel, CommandOp,
    OpModel,
};
use crate::commit::{
    commit_run, commit_system_run, delivered, drained, held_view, CommitError, CommitModel,
    CommitProgress, RefusalModel,
};
use crate::component::{ComponentId, RelationshipTarget};
use crate::config::IntoSystem;
use crate::state::hooks::HookTable;
use crate::conformance::{producer_viewer_conflict, same_phase_conflict};
use crate::entity::Entity;
use crate::invocation::{Invocation, InvocationMap, SystemId, SystemInvocation};
use crate::memo::{MemoModel, MemoTable};
use crate::model::{next, Cell, WorldModel};
use crate::param::BindingError;
use crate::registry::{systems_view, SystemModel};
use crate::state::inputs::{at_boundary, asked, PreemptWaiter};
use crate::store::ComponentEntry;
use crate::system::{Phase, SystemRun, SystemStats};
use crate::world::{World, WRITE_LOG_BUDGET};
use vstd::prelude::*;

verus! {

/// The world with the plan epoch rolled when the write log is over its budget.
pub open spec fn rolled<C: RelationshipTarget>(world: WorldModel<C>) -> WorldModel<C> {
    if world.log.len() > WRITE_LOG_BUDGET {
        WorldModel { epoch: next(world.epoch), log: Seq::<Cell>::empty(), ..world }
    } else {
        world
    }
}

/// Applies held-back operations in order, each as a derived write of its own
/// owner; the first refusal ends it.
pub open spec fn apply_held<C: RelationshipTarget>(
    world: WorldModel<C>,
    held: Seq<(Invocation, OpModel<C>)>,
) -> (WorldModel<C>, Result<(), ApplyError>)
    decreases held.len(),
{
    if held.len() == 0 {
        (world, Ok(()))
    } else {
        let done = apply_held(world, held.drop_last());
        if done.1 is Err {
            done
        } else {
            apply_op(done.0, held.last().1, held.last().0)
        }
    }
}

/// The opening state of a run: what settle-phase systems emitted lands first,
/// then the inputs.
pub open spec fn opened<C: RelationshipTarget>(
    world: WorldModel<C>,
    held: Seq<(Invocation, OpModel<C>)>,
    inputs: Seq<BaseOpModel<C>>,
) -> (WorldModel<C>, Result<(), ApplyError>) {
    let reinstated = apply_held(rolled(world), held);
    if reinstated.1 is Err {
        reinstated
    } else {
        let entered = apply_base_ops(reinstated.0, inputs);
        if entered.1 is Err {
            entered
        } else {
            (delivered(drained(entered.0.flush())), Ok(()))
        }
    }
}

proof fn lemma_refused_held_stop<C: RelationshipTarget>(
    world: WorldModel<C>,
    held: Seq<(Invocation, OpModel<C>)>,
    done: int,
)
    requires
        0 <= done <= held.len(),
        apply_held(world, held.take(done)).1 is Err,
    ensures
        apply_held(world, held) == apply_held(world, held.take(done)),
    decreases held.len() - done,
{
    if done == held.len() {
        assert(held.take(done) =~= held);
    } else {
        assert(held.take(done + 1).drop_last() =~= held.take(done));
        lemma_refused_held_stop(world, held, done + 1);
    }
}

fn reinstate<C: RelationshipTarget>(
    world: &mut World<C>,
    held: Vec<(SystemInvocation, CommandOp<C>)>,
) -> (outcome: Result<(), ApplyError>)
    requires
        old(world).wf(),
    ensures
        final(world).wf(),
        (final(world)@, outcome) == apply_held(old(world)@, held_view(held@)),
{
    let ghost before = world@;
    let ghost all = held_view(held@);
    let ghost total = held@.len();
    let mut rest = held;
    let mut outcome: Result<(), ApplyError> = Ok(());
    let ghost mut done: int = 0;
    assert(all.take(0) =~= Seq::<(Invocation, OpModel<C>)>::empty());
    while rest.len() > 0 && outcome.is_ok()
        invariant
            world.wf(),
            0 <= done,
            done + rest@.len() == total,
            all.len() == total,
            held_view(rest@) =~= all.skip(done),
            (world@, outcome) == apply_held(before, all.take(done)),
        decreases rest@.len(),
    {
        let ghost left = rest@;
        let (owner, op) = rest.remove(0);
        assert(held_view(left)[0] == all.skip(done)[0]);
        assert((owner@, op@) == all[done]);
        assert(all.take(done + 1).drop_last() =~= all.take(done));
        assert(held_view(rest@) =~= held_view(left).drop_first());
        assert(all.skip(done + 1) =~= all.skip(done).drop_first());
        outcome = op.apply(world, &owner);
        proof {
            done = done + 1;
        }
    }
    proof {
        if outcome is Err {
            lemma_refused_held_stop(before, all, done);
        } else {
            assert(all.take(done) =~= all);
        }
    }
    outcome
}

/// A running evaluation: the generation, whether it goes through the startup
/// phase, and the memo table, which the runner owns until it is done.
pub struct Evaluation {
    pub generation: u64,
    pub startup: bool,
    pub memo: MemoTable,
}

impl<C: RelationshipTarget> StateModel<C> {
    /// The state with generation `generation` running.
    pub open spec fn running(self, generation: u64, world: WorldModel<C>) -> StateModel<C> {
        StateModel {
            world,
            pending: None,
            inputs: Seq::empty(),
            held: Seq::empty(),
            running: Some(generation),
            next: next(generation),
            clean: false,
            restart: if self.started {
                false
            } else {
                self.restart
            },
            started: true,
            window: false,
            memo: Map::empty(),
            ..self
        }
    }

    /// The state after the evaluation of `generation` completed.
    pub open spec fn completed(
        self,
        generation: u64,
        memo: Map<Invocation, MemoModel>,
        changed: bool,
    ) -> StateModel<C> {
        StateModel {
            memo,
            clean: !changed,
            completed: generation,
            running: None,
            boundary: Seq::empty(),
            waiters: unsatisfied(self.waiters, generation),
            ..self
        }
    }

    /// The state after the evaluation of `generation` was given up: another
    /// caller can drive it, and every system plans in full.
    pub open spec fn abandoned(
        self,
        generation: u64,
        memo: Map<Invocation, MemoModel>,
    ) -> StateModel<C> {
        StateModel {
            memo,
            running: None,
            pending: match self.pending {
                Some(pending) => Some(pending),
                None => Some(generation),
            },
            systems: unplanned(self.systems),
            waiters: Seq::empty(),
            ..self
        }
    }

    /// The commit state.
    pub open spec fn commit_state(self, memo: Map<Invocation, MemoModel>) -> CommitModel<C> {
        CommitModel { world: self.world, memo, held: self.held }
    }
}

/// Every system with its planning marks cleared.
pub open spec fn unplanned(systems: Seq<SystemModel>) -> Seq<SystemModel> {
    systems.map_values(|system: SystemModel| system.unplanned())
}

/// The waiters that `generation` does not satisfy.
pub open spec fn unsatisfied(waiters: Seq<(u64, Ticket)>, generation: u64) -> Seq<(u64, Ticket)>
    decreases waiters.len(),
{
    if waiters.len() == 0 {
        Seq::empty()
    } else {
        let rest = unsatisfied(waiters.drop_last(), generation);
        if waiters.last().0 <= generation {
            rest
        } else {
            rest.push(waiters.last())
        }
    }
}

/// The waiters that `generation` satisfies.
pub open spec fn satisfied(waiters: Seq<(u64, Ticket)>, generation: u64) -> Seq<Ticket>
    decreases waiters.len(),
{
    if waiters.len() == 0 {
        Seq::empty()
    } else {
        let rest = satisfied(waiters.drop_last(), generation);
        if waiters.last().0 <= generation {
            rest.push(waiters.last().1)
        } else {
            rest
        }
    }
}

/// The waiters, whatever they wait for.
pub open spec fn tickets(waiters: Seq<(u64, Ticket)>) -> Seq<Ticket> {
    waiters.map_values(|waiter: (u64, Ticket)| waiter.1)
}

/// How an external mutation stands.
#[derive(Debug, Clone, Copy, PartialEq, Eq, Structural)]
pub enum MutationStep {
    /// The component moved on since the caller looked at it.
    Moved,
    /// The caller is at a boundary and may apply its write.
    Ready,
    /// The caller has to wait for a boundary.
    Wait,
}

impl<C: RelationshipTarget> State<C> {
    /// Registers a system. Systems are stored in registration order, and the
    /// callbacks of their hooks beside them, in the same order.
    pub fn register_system<K, M, S: IntoSystem<K, M>>(
        &mut self,
        system: S,
        hooks: &mut HookTable<K>,
    ) -> (id: Result<SystemId, BindingError>)
        requires
            old(self).wf(),
            old(hooks)@.len() == old(self)@.systems.len(),
        ensures
            final(self).wf(),
            ({
                let position = SystemId(old(self)@.systems.len() as usize);
                match id {
                    Ok(id) => {
                        &&& id == position
                        &&& system.registered(position) matches Ok(model) && final(self)@ == (
                        StateModel {
                            systems: old(self)@.systems.push(
                                SystemModel { id: position, ..model },
                            ),
                            counters: old(self)@.counters.push(SystemStats::zero()),
                            ..old(self)@
                        }).pended()
                        &&& final(hooks)@ == old(hooks)@.push(system.callbacks())
                    },
                    Err(error) => {
                        &&& final(hooks)@ == old(hooks)@
                        &&& system.registered(position) == Err::<SystemModel, BindingError>(error)
                        &&& final(self)@ == old(self)@
                    },
                }
            }),
    {
        let ghost before = *self;
        let id = SystemId(self.systems.len());
        let (mut system, callbacks) = match system.into_system(id) {
            Ok(registered) => registered,
            Err(error) => {
                return Err(error);
            },
        };
        system.id = id;
        self.systems.push(system);
        self.stats.push(SystemStats::new());
        hooks.push(callbacks);
        proof {
            assert(systems_view(self.systems@) =~= systems_view(before.systems@).push(system@));
            assert(numbered(self@.systems)) by {
                let systems = self@.systems;
                assert forall|i: int| 0 <= i < systems.len() implies (#[trigger] systems[i]).id
                    == SystemId(i as usize) && systems[i].sound() by {
                    if i < before.systems@.len() {
                        assert(systems[i] == before@.systems[i]);
                    }
                }
            }
        }
        if self.pending_generation.is_none() {
            self.pending_generation = Some(self.next_generation);
        }
        Ok(id)
    }

    /// The producers and viewers of one phase that could race each other, where
    /// system `index` is one of the pair: candidates for a warning when it is
    /// registered.
    pub fn same_phase_conflicts(&self, index: usize) -> (pairs: Vec<(usize, usize)>)
        requires
            self.wf(),
            index < self@.systems.len(),
        ensures
            forall|producer: int, viewer: int|
                0 <= producer < self@.systems.len() && 0 <= viewer < self@.systems.len()
                    && producer != viewer && (producer == index || viewer == index) ==> (
                pairs@.contains((producer as usize, viewer as usize)) <==> #[trigger] conflicting(
                    self@,
                    producer,
                    viewer,
                )),
    {
        let mut pairs: Vec<(usize, usize)> = Vec::new();
        let schema = match &self.schema {
            Some(schema) => schema,
            None => {
                return pairs;
            },
        };
        if !self.checked {
            return pairs;
        }
        let ghost models = self@.systems;
        let mut i: usize = 0;
        while i < self.systems.len()
            invariant
                self.wf(),
                index < self.systems@.len(),
                i <= self.systems@.len(),
                models == self@.systems,
                models.len() == self.systems@.len(),
                self@.schema == Some(schema@),
                self@.checked,
                forall|n: int|
                    0 <= n < pairs@.len() ==> (#[trigger] pairs@[n]).0 < models.len() && pairs@[n].1
                        < models.len() && ((pairs@[n].0 == index && pairs@[n].1 < i) || (
                    pairs@[n].1 == index && pairs@[n].0 < i)),
                forall|producer: int, viewer: int|
                    0 <= producer < models.len() && 0 <= viewer < models.len() && producer != viewer
                        && ((producer == index && viewer < i) || (viewer == index && producer < i))
                        ==> (pairs@.contains((producer as usize, viewer as usize))
                        <==> #[trigger] conflicting(self@, producer, viewer)),
            decreases self.systems@.len() - i,
        {
            let ghost before = pairs@;
            assert(models[i as int] == self.systems@[i as int]@);
            assert(models[index as int] == self.systems@[index as int]@);
            let same = self.systems[i].phase == self.systems[index].phase;
            let produces = i != index && same && producer_viewer_conflict(
                schema,
                &self.systems[index],
                &self.systems[i],
            );
            let views = i != index && same && producer_viewer_conflict(
                schema,
                &self.systems[i],
                &self.systems[index],
            );
            if produces {
                pairs.push((index, i));
            }
            let ghost middle = pairs@;
            if views {
                pairs.push((i, index));
            }
            proof {
                assert forall|producer: int, viewer: int|
                    0 <= producer < models.len() && 0 <= viewer < models.len() && producer != viewer
                        && ((producer == index && viewer < i + 1) || (viewer == index && producer
                        < i + 1)) implies (pairs@.contains((producer as usize, viewer as usize))
                    <==> #[trigger] conflicting(self@, producer, viewer)) by {
                    let pair = (producer as usize, viewer as usize);
                    if before.contains(pair) {
                        let n = choose|n: int| 0 <= n < before.len() && before[n] == pair;
                        assert(pairs@[n] == pair);
                    }
                    if produces {
                        assert(pairs@[before.len() as int] == (index, i));
                    }
                    if views {
                        assert(pairs@[middle.len() as int] == (i, index));
                    }
                    if pairs@.contains(pair) {
                        let n = choose|n: int| 0 <= n < pairs@.len() && pairs@[n] == pair;
                        if n < before.len() {
                            assert(before[n] == pair);
                        }
                    }
                }
            }
            i = i + 1;
        }
        pairs
    }

    /// Starts the pending generation, if there is one.
    ///
    /// What settle-phase systems emitted lands first: it is the run's opening
    /// state. The inputs follow. Inputs that arrive from now on belong to a later
    /// generation.
    pub fn start_evaluation(&mut self) -> (started: Option<Result<Evaluation, ApplyError>>)
        requires
            old(self).wf(),
        ensures
            final(self).wf(),
            match old(self)@.pending {
                None => started is None && final(self)@ == old(self)@,
                Some(generation) => {
                    let start = opened(old(self)@.world, old(self)@.held, old(self)@.inputs);
                    match start.1 {
                        Ok(_) => {
                            &&& final(self)@ == old(self)@.running(generation, start.0)
                            &&& started matches Some(Ok(evaluation)) && {
                                &&& evaluation.generation == generation
                                &&& evaluation.startup == (!old(self)@.started
                                    || old(self)@.restart)
                                &&& evaluation.memo.wf()
                                &&& evaluation.memo@ == old(self)@.memo
                            }
                        },
                        Err(error) => {
                            &&& started == Some(Err::<Evaluation, ApplyError>(error))
                            &&& final(self)@ == (StateModel {
                                world: start.0,
                                pending: None,
                                inputs: Seq::empty(),
                                held: Seq::empty(),
                                ..old(self)@
                            })
                        },
                    }
                },
            },
    {
        let generation = match self.pending_generation {
            Some(generation) => generation,
            None => {
                return None;
            },
        };
        self.pending_generation = None;
        self.snapshot_cache = None;
        self.world.maybe_roll_plan_epoch();
        let mut inputs: Vec<crate::commands::BaseCommandOp<C>> = Vec::new();
        inputs.append(&mut self.pending_inputs);
        let mut held: Vec<(SystemInvocation, CommandOp<C>)> = Vec::new();
        held.append(&mut self.deferred_settle);
        proof {
            assert(base_ops_view(inputs@) =~= old(self)@.inputs);
            assert(held_view(held@) =~= old(self)@.held);
            assert(base_ops_view(self.pending_inputs@) =~= Seq::<BaseOpModel<C>>::empty());
            assert(held_view(self.deferred_settle@) =~= Seq::<(Invocation, OpModel<C>)>::empty());
        }
        if let Err(error) = reinstate(&mut self.world, held) {
            return Some(Err(error));
        }
        if let Err(error) = apply_base_commands(&mut self.world, inputs) {
            return Some(Err(error));
        }
        self.world.flush_derived_from();
        let _ = self.world.take_written_derived();
        self.world.run_hooks();
        self.running_generation = Some(generation);
        self.next_generation = if generation < u64::MAX {
            generation + 1
        } else {
            generation
        };
        self.normal_clean = false;
        let startup = if !self.startup_ran {
            true
        } else {
            let restart = self.preempt_restart;
            self.preempt_restart = false;
            restart
        };
        self.startup_ran = true;
        self.preempt_window = false;
        let mut memo: MemoTable = InvocationMap::new();
        std::mem::swap(&mut memo, &mut self.memo);
        assert(self@.memo =~= Map::<Invocation, MemoModel>::empty());
        Some(Ok(Evaluation { generation, startup, memo }))
    }

    /// Ends a completed evaluation. Returns the callers that waited for a
    /// boundary, and those whose generation is complete: all are to be woken.
    pub fn finish_evaluation(&mut self, generation: u64, memo: MemoTable, changed: bool) -> (woken: (
        Vec<Ticket>,
        Vec<Ticket>,
    ))
        requires
            old(self).wf(),
            memo.wf(),
        ensures
            final(self).wf(),
            final(self)@ == old(self)@.completed(generation, memo@, changed),
            woken.0@ == old(self)@.boundary,
            woken.1@ == satisfied(old(self)@.waiters, generation),
    {
        self.memo = memo;
        self.normal_clean = !changed;
        self.completed_generation = generation;
        self.running_generation = None;
        let mut boundary: Vec<Ticket> = Vec::new();
        boundary.append(&mut self.boundary_waiters);
        let ghost all = self.waiters@;
        let mut ready: Vec<Ticket> = Vec::new();
        let mut kept: Vec<(u64, Ticket)> = Vec::new();
        let mut i: usize = 0;
        assert(all.take(0) =~= Seq::<(u64, Ticket)>::empty());
        while i < self.waiters.len()
            invariant
                i <= self.waiters@.len(),
                all == self.waiters@,
                ready@ == satisfied(all.take(i as int), generation),
                kept@ == unsatisfied(all.take(i as int), generation),
            decreases self.waiters@.len() - i,
        {
            assert(all.take(i + 1).drop_last() =~= all.take(i as int));
            let waiter = self.waiters[i];
            if waiter.0 <= generation {
                ready.push(waiter.1);
            } else {
                kept.push(waiter);
            }
            i = i + 1;
        }
        assert(all.take(all.len() as int) =~= all);
        self.waiters = kept;
        (boundary, ready)
    }

    fn reset_systems(&mut self)
        requires
            old(self).wf(),
        ensures
            final(self).wf(),
            final(self)@ == (StateModel { systems: unplanned(old(self)@.systems), ..old(self)@ }),
    {
        let ghost before = self@;
        let mut i: usize = 0;
        while i < self.systems.len()
            invariant
                self.wf(),
                i <= self.systems@.len(),
                self@.systems.len() == before.systems.len(),
                forall|j: int|
                    0 <= j < i ==> (#[trigger] self@.systems[j]) == before.systems[j].unplanned(),
                forall|j: int|
                    i <= j < before.systems.len() ==> (#[trigger] self@.systems[j])
                        == before.systems[j],
                self@ == (StateModel { systems: self@.systems, ..before }),
            decreases self.systems@.len() - i,
        {
            let ghost now = *self;
            assert(now@.systems[i as int] == now.systems@[i as int]@);
            let mut system = self.systems.remove(i);
            system.reset_planned_mark();
            self.systems.insert(i, system);
            proof {
                assert(self.systems@ =~= now.systems@.update(i as int, system));
                assert(self@.systems =~= now@.systems.update(i as int, system@));
                assert forall|j: int| 0 <= j < self@.systems.len() implies (
                #[trigger] self@.systems[j]).id == SystemId(j as usize)
                    && self@.systems[j].sound() by {
                    assert(now@.systems[j].id == SystemId(j as usize));
                }
            }
            i = i + 1;
        }
        assert(self@.systems =~= unplanned(before.systems));
    }

    /// Restores the bookkeeping of an evaluation that was dropped midway.
    /// Committed invocations are durable in the world; only work in flight is
    /// lost. Everyone who waits is to be woken, so that one of them can take
    /// over.
    pub fn abandon_evaluation(&mut self, generation: u64, memo: MemoTable) -> (woken: Vec<Ticket>)
        requires
            old(self).wf(),
            memo.wf(),
        ensures
            final(self).wf(),
            final(self)@ == old(self)@.abandoned(generation, memo@),
            woken@ == tickets(old(self)@.waiters),
    {
        self.memo = memo;
        self.running_generation = None;
        if self.pending_generation.is_none() {
            self.pending_generation = Some(generation);
        }
        self.reset_systems();
        let ghost all = self.waiters@;
        let mut woken: Vec<Ticket> = Vec::new();
        let mut i: usize = 0;
        while i < self.waiters.len()
            invariant
                i <= self.waiters@.len(),
                all == self.waiters@,
                woken@ =~= tickets(all).take(i as int),
            decreases self.waiters@.len() - i,
        {
            woken.push(self.waiters[i].1);
            i = i + 1;
        }
        assert(woken@ =~= tickets(all));
        self.waiters = Vec::new();
        woken
    }

    /// Restarts a preempted generation: runs in flight never committed, so every
    /// system plans in full.
    pub fn restart_preempted(&mut self)
        requires
            old(self).wf(),
        ensures
            final(self).wf(),
            final(self)@ == (StateModel {
                restart: false,
                systems: unplanned(old(self)@.systems),
                ..old(self)@
            }),
    {
        self.preempt_restart = false;
        self.reset_systems();
    }

    /// Pauses the runner at a preemption boundary. The returned callers wait for
    /// one and are to be woken.
    pub fn open_preempt_window(&mut self) -> (woken: Vec<Ticket>)
        requires
            old(self).wf(),
        ensures
            final(self).wf(),
            woken@ == old(self)@.boundary,
            final(self)@ == (StateModel {
                window: true,
                boundary: Seq::empty(),
                ..old(self)@
            }),
    {
        self.preempt_window = true;
        let mut woken: Vec<Ticket> = Vec::new();
        woken.append(&mut self.boundary_waiters);
        woken
    }

    /// Ends the pause once no mutator waits any more. Returns whether it did.
    pub fn close_preempt_window(&mut self) -> (closed: bool)
        requires
            old(self).wf(),
        ensures
            final(self).wf(),
            closed == (old(self)@.preempting == 0),
            final(self)@ == if closed {
                StateModel { window: false, ..old(self)@ }
            } else {
                old(self)@
            },
    {
        if self.preempt_waiters == 0 {
            self.preempt_window = false;
            true
        } else {
            false
        }
    }

    /// Whether the runner has to take a preemption boundary.
    pub fn preemption_requested(&self) -> (requested: bool)
        ensures
            requested == (self@.preempting > 0),
    {
        self.preempt_waiters > 0
    }

    /// Whether generation `target` is complete; otherwise the caller is put on
    /// the list of those to be woken.
    pub fn wait_for_generation(&mut self, target: u64, ticket: Ticket) -> (complete: bool)
        requires
            old(self).wf(),
        ensures
            final(self).wf(),
            complete == (old(self)@.completed >= target),
            final(self)@ == if complete {
                old(self)@
            } else {
                StateModel { waiters: old(self)@.waiters.push((target, ticket)), ..old(self)@ }
            },
    {
        if self.completed_generation >= target {
            return true;
        }
        self.waiters.push((target, ticket));
        false
    }

    /// Puts the caller on the list of those woken at the next boundary.
    pub fn wait_for_boundary(&mut self, ticket: Ticket)
        requires
            old(self).wf(),
        ensures
            final(self).wf(),
            final(self)@ == (StateModel {
                boundary: old(self)@.boundary.push(ticket),
                ..old(self)@
            }),
    {
        self.boundary_waiters.push(ticket);
    }

    /// Puts the caller on the list of those woken by the next settle that does
    /// work.
    pub fn next_settle(&mut self, ticket: Ticket)
        requires
            old(self).wf(),
        ensures
            final(self).wf(),
            final(self)@ == (StateModel {
                watchers: old(self)@.watchers.push(ticket),
                ..old(self)@
            }),
    {
        self.settle_watchers.push(ticket);
    }

    /// How an external mutation of `kind` on `entity` stands. With `original`
    /// given, it only proceeds while the component is at that revision.
    pub fn mutation_step(
        &mut self,
        waiter: &mut PreemptWaiter,
        kind: ComponentId,
        entity: Entity,
        original: Option<Option<u64>>,
    ) -> (step: MutationStep)
        requires
            old(self).wf(),
        ensures
            final(self).wf(),
            final(waiter).patient() == old(waiter).patient(),
            ({
                let now = match old(self)@.world.entry(kind, entity) {
                    Some(entry) => Some(entry.revision),
                    None => None,
                };
                if original is Some && original->0 != now {
                    &&& step == MutationStep::Moved
                    &&& !final(waiter).counted()
                    &&& final(self)@ == if old(waiter).counted() {
                        StateModel {
                            preempting: old(self)@.preempting.wrapping_sub(1),
                            ..old(self)@
                        }
                    } else {
                        old(self)@
                    }
                } else {
                    &&& step == if at_boundary(old(self)@) {
                        MutationStep::Ready
                    } else {
                        MutationStep::Wait
                    }
                    &&& final(self)@ == asked(
                        old(self)@,
                        old(waiter).counted(),
                        old(waiter).patient(),
                    )
                    &&& final(waiter).counted() == (old(waiter).counted() || (step
                        == MutationStep::Wait && !old(waiter).patient()))
                }
            }),
    {
        if let Some(original) = original {
            let same = match (self.world.revision(kind, entity), original) {
                (Some(a), Some(b)) => a == b,
                (None, None) => true,
                _ => false,
            };
            if !same {
                self.finish_waiter(waiter);
                return MutationStep::Moved;
            }
        }
        if self.boundary_reached(waiter) {
            MutationStep::Ready
        } else {
            MutationStep::Wait
        }
    }

    /// Replaces a component from outside. A tracked change, and an edge that points
    /// elsewhere, makes the next generation pending; `None` means that the
    /// component is absent.
    pub fn apply_component_mutation(&mut self, entity: Entity, value: C) -> (changed: Option<bool>)
        requires
            old(self).wf(),
        ensures
            final(self).wf(),
            ({
                let world = old(self)@.world;
                let updated = StateModel {
                    world: delivered(world.update(entity, value.model())),
                    ..old(self)@
                };
                &&& changed == if world.has(C::kind(value.model()), entity) {
                    Some(world.moves(entity, value.model()))
                } else {
                    None
                }
                &&& final(self)@ == if changed == Some(true) {
                    (StateModel { clean: false, ..updated }).pended()
                } else {
                    updated
                }
            }),
    {
        self.snapshot_cache = None;
        let changed = self.world.update_component_live(entity, value);
        self.world.run_hooks();
        if let Some(true) = changed {
            self.normal_clean = false;
            self.enqueue_next_generation();
        }
        changed
    }

    /// Replaces a component from outside by a changed copy, as
    /// [`State::apply_component_mutation`] does, but for snapshots: those keep the
    /// value that they saw.
    pub fn apply_component_copy(&mut self, entity: Entity, value: C) -> (changed: Option<bool>)
        requires
            old(self).wf(),
        ensures
            final(self).wf(),
            ({
                let world = old(self)@.world;
                let updated = StateModel {
                    world: delivered(world.update_copied(entity, value.model())),
                    ..old(self)@
                };
                &&& changed == if world.has(C::kind(value.model()), entity) {
                    Some(world.moves(entity, value.model()))
                } else {
                    None
                }
                &&& final(self)@ == if changed == Some(true) {
                    (StateModel { clean: false, ..updated }).pended()
                } else {
                    updated
                }
            }),
    {
        self.snapshot_cache = None;
        let changed = self.world.update_component_copied(entity, value);
        self.world.run_hooks();
        if let Some(true) = changed {
            self.normal_clean = false;
            self.enqueue_next_generation();
        }
        changed
    }

    /// What the cell of an entry that was seen in a snapshot holds now.
    pub fn cell_value<'a>(&'a self, seen: &'a ComponentEntry<C>) -> (value: &'a C)
        ensures
            value.model() == self@.world.cell_value(seen@.cell, seen@.value),
    {
        self.world.cell_value(seen)
    }

    /// Every stored value has a cell of its own, which holds it.
    pub proof fn lemma_cells_kept(&self)
        requires
            self.wf(),
        ensures
            self@.world.cells_kept(),
    {
    }

    /// Moves the world's id counter past ids that invocations reserved.
    pub fn advance_entities(&mut self, next_entity: u64)
        requires
            old(self).wf(),
        ensures
            final(self).wf(),
            final(self)@ == (StateModel {
                world: WorldModel { next_entity, ..old(self)@.world },
                ..old(self)@
            }),
    {
        self.snapshot_cache = None;
        self.world.advance_entities(next_entity);
    }

    /// Commits one run of an evaluation that owns `memo`.
    pub fn commit(&mut self, memo: &mut MemoTable, run: SystemRun<C>, phase: Option<Phase>) -> (outcome:
        Result<CommitProgress, CommitError>)
        requires
            old(self).wf(),
            old(memo).wf(),
        ensures
            final(self).wf(),
            final(memo).wf(),
            ({
                let after = commit_run(
                    old(self)@.commit_state(old(memo)@),
                    run@,
                    phase,
                    old(self)@.checks(),
                );
                &&& final(memo)@ == after.0.memo
                &&& final(self)@ == (StateModel {
                    world: after.0.world,
                    held: after.0.held,
                    ..old(self)@
                })
                &&& match outcome {
                    Ok(progress) => {
                        &&& after.1 == Ok::<CommitProgress, RefusalModel>(progress)
                        &&& progress == CommitProgress::of(progress.needs_followup, progress.stale)
                    },
                    Err(error) => after.1 == Err::<CommitProgress, RefusalModel>(error@),
                }
            }),
    {
        self.snapshot_cache = None;
        commit_system_run(
            &mut self.world,
            memo,
            &mut self.deferred_settle,
            &self.systems,
            &self.schema,
            self.checked,
            run,
            phase,
        )
    }
}

/// Whether a producer and a viewer of one phase could race each other, as far as
/// the schema tells.
pub open spec fn conflicting<C: RelationshipTarget>(
    state: StateModel<C>,
    producer: int,
    viewer: int,
) -> bool {
    &&& state.checked
    &&& state.schema matches Some(schema) && same_phase_conflict(
        schema,
        state.systems[producer],
        state.systems[viewer],
    )
    &&& state.systems[producer].phase == state.systems[viewer].phase
}

} // verus!
