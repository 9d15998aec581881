//! Inputs from outside the systems: queueing, deferral to the next epoch, and
//! preemption boundaries.

use super::{tagged, State, StateModel, Ticket};
use crate::commands::{
    base_ops_view, bundle_singleton_key, facts_of, singleton_keys, ApplyError, BaseCommandOp,
    BaseOpModel,
};
use crate::component::{Component, ComponentId, RelationshipTarget};
use crate::entity::Entity;
use crate::model::{next, WorldModel};
use vstd::prelude::*;

verus! {

/// Where an input went.
#[derive(Debug)]
pub enum Inserted<C> {
    /// It is queued; `generation` is the generation to wait for.
    Queued { entity: Entity, generation: u64 },
    /// It has to be queued at the next preemption boundary.
    Boundary { entity: Entity, inputs: Vec<BaseCommandOp<C>> },
}

/// The inserts of a bundle on `entity`, in component order.
pub open spec fn bundle_inputs<C: Component>(entity: Entity, facts: Seq<C::Model>) -> Seq<
    BaseOpModel<C>,
> {
    facts.map_values(|fact: C::Model| BaseOpModel::<C>::Insert { entity, fact })
}

/// The entity that a bundle goes to: the given one, else the one that holds its
/// singleton key, else a new one.
pub open spec fn insert_target<C: RelationshipTarget>(
    world: WorldModel<C>,
    facts: Seq<C::Model>,
    target: Option<Entity>,
) -> Entity {
    let keys = singleton_keys::<C>(facts);
    match target {
        Some(entity) => entity,
        None => if keys.len() > 0 && world.singletons.contains_key(keys[0]) {
            Entity::of(world.singletons[keys[0]])
        } else {
            Entity::of(world.next_entity)
        },
    }
}

/// The world once the entity is picked: a new entity takes an id, and registers
/// the bundle's singleton key.
pub open spec fn insert_target_world<C: RelationshipTarget>(
    world: WorldModel<C>,
    facts: Seq<C::Model>,
    target: Option<Entity>,
) -> WorldModel<C> {
    let keys = singleton_keys::<C>(facts);
    match target {
        Some(_) => world,
        None => if keys.len() == 0 {
            WorldModel { next_entity: world.next_entity.wrapping_add(1), ..world }
        } else if world.singletons.contains_key(keys[0]) {
            world
        } else {
            WorldModel {
                next_entity: world.next_entity.wrapping_add(1),
                singletons: world.singletons.insert(keys[0], world.next_entity),
                ..world
            }
        },
    }
}

/// Whether a bundle is refused: it needs an entity, and carries more than one
/// singleton key.
pub open spec fn insert_refused<C: Component>(facts: Seq<C::Model>, target: Option<Entity>) -> bool {
    target is None && singleton_keys::<C>(facts).len() > 1
}

fn queue_bundle<C: RelationshipTarget>(entity: Entity, bundle: Vec<C>) -> (inputs: Vec<
    BaseCommandOp<C>,
>)
    ensures
        base_ops_view(inputs@) == bundle_inputs::<C>(entity, facts_of(bundle@)),
{
    let ghost all = facts_of(bundle@);
    let ghost total = bundle@.len();
    let mut rest = bundle;
    let mut inputs: Vec<BaseCommandOp<C>> = Vec::new();
    let ghost mut done: int = 0;
    while rest.len() > 0
        invariant
            0 <= done,
            done + rest@.len() == total,
            all.len() == total,
            facts_of(rest@) =~= all.skip(done),
            base_ops_view(inputs@) =~= bundle_inputs::<C>(entity, all.take(done)),
        decreases rest@.len(),
    {
        let ghost held = rest@;
        let ghost before = inputs@;
        let value = rest.remove(0);
        assert(facts_of(held)[0] == all.skip(done)[0]);
        assert(value.model() == all[done]);
        assert(facts_of(rest@) =~= facts_of(held).drop_first());
        assert(all.skip(done + 1) =~= all.skip(done).drop_first());
        inputs.push(BaseCommandOp::Insert { entity, value });
        proof {
            let op = BaseOpModel::<C>::Insert { entity, fact: all[done] };
            assert(base_ops_view(inputs@) =~= base_ops_view(before).push(op));
            assert(bundle_inputs::<C>(entity, all.take(done + 1)) =~= bundle_inputs::<C>(
                entity,
                all.take(done),
            ).push(op));
            done = done + 1;
        }
    }
    assert(all.take(done) =~= all);
    inputs
}

/// External-mutation side of the preemption protocol.
#[derive(Debug)]
pub struct PreemptWaiter {
    registered: bool,
    deferred: bool,
}

impl PreemptWaiter {
    /// Whether the waiter is counted among those that wait for a boundary.
    pub closed spec fn counted(self) -> bool {
        self.registered
    }

    /// Whether the waiter leaves boundaries to others.
    pub closed spec fn patient(self) -> bool {
        self.deferred
    }

    /// A deferred writer never requests preemption: it waits for a natural
    /// boundary.
    pub fn new(deferred: bool) -> (waiter: Self)
        ensures
            !waiter.counted(),
            waiter.patient() == deferred,
    {
        PreemptWaiter { registered: false, deferred }
    }
}

/// Whether an external mutation may apply now.
pub open spec fn at_boundary<C: RelationshipTarget>(state: StateModel<C>) -> bool {
    state.running is None || state.window
}

/// The state after an external mutator asked for a boundary: at one, outside an
/// idle bowl, the next generation restarts through the startup phase; off one, a
/// mutator that does not defer is counted once.
pub open spec fn asked<C: RelationshipTarget>(
    state: StateModel<C>,
    counted: bool,
    patient: bool,
) -> StateModel<C> {
    if state.settling == 0 && state.running is None {
        state
    } else if at_boundary(state) {
        StateModel { restart: true, ..state }
    } else if !patient && !counted {
        StateModel { preempting: state.preempting.wrapping_add(1), ..state }
    } else {
        state
    }
}

/// The inputs that `watermark` covers, in arrival order.
pub open spec fn covered_inputs<C: Component>(
    deferred: Seq<(u64, BaseOpModel<C>)>,
    watermark: u64,
) -> Seq<BaseOpModel<C>>
    decreases deferred.len(),
{
    if deferred.len() == 0 {
        Seq::empty()
    } else {
        let rest = covered_inputs(deferred.drop_last(), watermark);
        if deferred.last().0 <= watermark {
            rest.push(deferred.last().1)
        } else {
            rest
        }
    }
}

/// The inputs that `watermark` does not cover, in arrival order.
pub open spec fn later_inputs<C: Component>(
    deferred: Seq<(u64, BaseOpModel<C>)>,
    watermark: u64,
) -> Seq<(u64, BaseOpModel<C>)>
    decreases deferred.len(),
{
    if deferred.len() == 0 {
        Seq::empty()
    } else {
        let rest = later_inputs(deferred.drop_last(), watermark);
        if deferred.last().0 <= watermark {
            rest
        } else {
            rest.push(deferred.last())
        }
    }
}

impl<C: RelationshipTarget> StateModel<C> {
    /// The state after the deferred inputs that `watermark` covers are queued.
    pub open spec fn promoted(self, watermark: u64) -> StateModel<C> {
        let inputs = covered_inputs(self.deferred, watermark);
        if inputs.len() == 0 {
            self
        } else {
            StateModel { deferred: later_inputs(self.deferred, watermark), ..self.queued(inputs) }
        }
    }
}

impl<C: RelationshipTarget> State<C> {
    /// Makes sure that a generation is pending.
    pub fn enqueue_next_generation(&mut self)
        requires
            old(self).wf(),
        ensures
            final(self).wf(),
            final(self)@ == old(self)@.pended(),
    {
        if self.pending_generation.is_none() {
            self.pending_generation = Some(self.next_generation);
        }
    }

    /// Queues inputs for the pending generation, and says which one that is.
    pub fn queue_inputs(&mut self, inputs: Vec<BaseCommandOp<C>>) -> (generation: u64)
        requires
            old(self).wf(),
        ensures
            final(self).wf(),
            final(self)@ == old(self)@.queued(base_ops_view(inputs@)),
            final(self)@.pending == Some(generation),
    {
        let ghost before = *self;
        let mut inputs = inputs;
        let ghost more = inputs@;
        self.pending_inputs.append(&mut inputs);
        assert(base_ops_view(self.pending_inputs@) =~= base_ops_view(before.pending_inputs@)
            + base_ops_view(more));
        match self.pending_generation {
            Some(generation) => generation,
            None => {
                let generation = self.next_generation;
                self.pending_generation = Some(generation);
                generation
            },
        }
    }

    fn postpone_inputs(&mut self, inputs: Vec<BaseCommandOp<C>>)
        requires
            old(self).wf(),
        ensures
            final(self).wf(),
            final(self)@ == old(self)@.postponed(base_ops_view(inputs@)),
    {
        let ghost before = *self;
        if self.input_seq < u64::MAX {
            self.input_seq = self.input_seq + 1;
        }
        let tag = self.input_seq;
        let ghost all = base_ops_view(inputs@);
        let ghost total = inputs@.len();
        let mut rest = inputs;
        let ghost mut done: int = 0;
        assert(super::deferred_view(before.deferred_inputs@) + tagged(all.take(0), tag)
            =~= super::deferred_view(before.deferred_inputs@));
        while rest.len() > 0
            invariant
                0 <= done,
                done + rest@.len() == total,
                all.len() == total,
                self.wf(),
                base_ops_view(rest@) =~= all.skip(done),
                self@ =~= (StateModel {
                    sequence: tag,
                    deferred: before@.deferred + tagged(all.take(done), tag),
                    ..before@
                }),
            decreases rest@.len(),
        {
            let ghost held = rest@;
            let ghost now = self.deferred_inputs@;
            let input = rest.remove(0);
            assert(base_ops_view(held)[0] == all.skip(done)[0]);
            assert(input@ == all[done]);
            assert(base_ops_view(rest@) =~= base_ops_view(held).drop_first());
            assert(all.skip(done + 1) =~= all.skip(done).drop_first());
            self.deferred_inputs.push((tag, input));
            proof {
                assert(super::deferred_view(self.deferred_inputs@) =~= super::deferred_view(
                    now,
                ).push((tag, all[done])));
                assert(tagged(all.take(done + 1), tag) =~= tagged(all.take(done), tag).push(
                    (tag, all[done]),
                ));
                assert(before@.deferred + tagged(all.take(done + 1), tag) =~= (before@.deferred
                    + tagged(all.take(done), tag)).push((tag, all[done])));
                done = done + 1;
            }
        }
        assert(all.take(done) =~= all);
    }

    fn pick_target(&mut self, bundle: &Vec<C>, target: Option<Entity>) -> (entity: Result<
        Entity,
        ApplyError,
    >)
        requires
            old(self).wf(),
        ensures
            final(self).wf(),
            match entity {
                Ok(entity) => {
                    &&& !insert_refused::<C>(facts_of(bundle@), target)
                    &&& entity == insert_target(old(self)@.world, facts_of(bundle@), target)
                    &&& final(self)@ == (StateModel {
                        world: insert_target_world(
                            old(self)@.world,
                            facts_of(bundle@),
                            target,
                        ),
                        ..old(self)@
                    })
                },
                Err(error) => {
                    &&& insert_refused::<C>(facts_of(bundle@), target)
                    &&& error is SeveralSingletons
                    &&& final(self)@ == old(self)@
                },
            },
    {
        if let Some(entity) = target {
            return Ok(entity);
        }
        let key = match bundle_singleton_key(bundle) {
            Ok(key) => key,
            Err(error) => {
                return Err(error);
            },
        };
        self.snapshot_cache = None;
        match key {
            Some(key) => Ok(self.world.singleton_entity_or_spawn(key)),
            None => Ok(self.world.spawn_empty()),
        }
    }

    /// Accepts a bundle from outside the systems.
    ///
    /// On an idle bowl it is queued for the pending generation. While an epoch is
    /// driving it belongs to the next epoch, and the completed generation is
    /// reported, so that nobody waits for a generation that does not exist yet. A
    /// preempting bundle has to be queued at the next boundary instead.
    pub fn insert(&mut self, bundle: Vec<C>, preempting: bool, target: Option<Entity>) -> (outcome:
        Result<Inserted<C>, ApplyError>)
        requires
            old(self).wf(),
        ensures
            final(self).wf(),
            ({
                let facts = facts_of(bundle@);
                let entity = insert_target(old(self)@.world, facts, target);
                let ready = StateModel {
                    world: insert_target_world(old(self)@.world, facts, target),
                    ..old(self)@
                };
                let inputs = bundle_inputs::<C>(entity, facts);
                match outcome {
                    Err(error) => {
                        &&& insert_refused::<C>(facts, target)
                        &&& error is SeveralSingletons
                        &&& final(self)@ == old(self)@
                    },
                    Ok(inserted) => {
                        &&& !insert_refused::<C>(facts, target)
                        &&& if old(self)@.settling == 0 {
                            &&& final(self)@ == ready.queued(inputs)
                            &&& inserted == (Inserted::<C>::Queued {
                                entity,
                                generation: ready.queued(inputs).pending->0,
                            })
                        } else if !preempting {
                            &&& final(self)@ == ready.postponed(inputs)
                            &&& inserted == (Inserted::<C>::Queued {
                                entity,
                                generation: old(self)@.completed,
                            })
                        } else {
                            &&& final(self)@ == ready
                            &&& inserted matches Inserted::Boundary { entity: e, inputs: list }
                                && e == entity && base_ops_view(list@) == inputs
                        }
                    },
                }
            }),
    {
        let entity = match self.pick_target(&bundle, target) {
            Ok(entity) => entity,
            Err(error) => {
                return Err(error);
            },
        };
        let inputs = queue_bundle(entity, bundle);
        if self.settling == 0 {
            let generation = self.queue_inputs(inputs);
            return Ok(Inserted::Queued { entity, generation });
        }
        if !preempting {
            self.postpone_inputs(inputs);
            return Ok(Inserted::Queued { entity, generation: self.completed_generation });
        }
        Ok(Inserted::Boundary { entity, inputs })
    }

    /// Accepts the removal of a component from outside the systems, with the
    /// epoch semantics of [`State::insert`]. What is returned has to be queued at
    /// the next boundary.
    pub fn remove_component(&mut self, kind: ComponentId, entity: Entity, preempting: bool) -> (waiting:
        Option<Vec<BaseCommandOp<C>>>)
        requires
            old(self).wf(),
        ensures
            final(self).wf(),
            ({
                let inputs = seq![BaseOpModel::<C>::RemoveComponent { kind, entity }];
                if old(self)@.settling == 0 {
                    final(self)@ == old(self)@.queued(inputs) && waiting is None
                } else if !preempting {
                    final(self)@ == old(self)@.postponed(inputs) && waiting is None
                } else {
                    final(self)@ == old(self)@ && (waiting matches Some(list) && base_ops_view(
                        list@,
                    ) == inputs)
                }
            }),
    {
        self.accept(BaseCommandOp::RemoveComponent { kind, entity }, preempting)
    }

    /// Accepts the removal of an entity from outside the systems, with the epoch
    /// semantics of [`State::insert`]. What is returned has to be queued at the
    /// next boundary.
    pub fn despawn(&mut self, entity: Entity, preempting: bool) -> (waiting: Option<
        Vec<BaseCommandOp<C>>,
    >)
        requires
            old(self).wf(),
        ensures
            final(self).wf(),
            ({
                let inputs = seq![BaseOpModel::<C>::RemoveEntity { entity }];
                if old(self)@.settling == 0 {
                    final(self)@ == old(self)@.queued(inputs) && waiting is None
                } else if !preempting {
                    final(self)@ == old(self)@.postponed(inputs) && waiting is None
                } else {
                    final(self)@ == old(self)@ && (waiting matches Some(list) && base_ops_view(
                        list@,
                    ) == inputs)
                }
            }),
    {
        self.accept(BaseCommandOp::RemoveEntity { entity }, preempting)
    }

    fn accept(&mut self, input: BaseCommandOp<C>, preempting: bool) -> (waiting: Option<
        Vec<BaseCommandOp<C>>,
    >)
        requires
            old(self).wf(),
        ensures
            final(self).wf(),
            ({
                let inputs = seq![input@];
                if old(self)@.settling == 0 {
                    final(self)@ == old(self)@.queued(inputs) && waiting is None
                } else if !preempting {
                    final(self)@ == old(self)@.postponed(inputs) && waiting is None
                } else {
                    final(self)@ == old(self)@ && (waiting matches Some(list) && base_ops_view(
                        list@,
                    ) == inputs)
                }
            }),
    {
        let ghost held = input@;
        let mut inputs: Vec<BaseCommandOp<C>> = Vec::new();
        inputs.push(input);
        assert(base_ops_view(inputs@) =~= seq![held]);
        if self.settling == 0 {
            let _ = self.queue_inputs(inputs);
            return None;
        }
        if !preempting {
            self.postpone_inputs(inputs);
            return None;
        }
        Some(inputs)
    }

    /// Whether the caller is at a valid boundary to apply an external mutation.
    /// Otherwise it is registered as waiting for one, unless it defers.
    pub fn boundary_reached(&mut self, waiter: &mut PreemptWaiter) -> (reached: bool)
        requires
            old(self).wf(),
        ensures
            final(self).wf(),
            reached == at_boundary(old(self)@),
            final(self)@ == asked(old(self)@, old(waiter).counted(), old(waiter).patient()),
            final(waiter).patient() == old(waiter).patient(),
            final(waiter).counted() == (old(waiter).counted() || (!reached
                && !old(waiter).patient())),
    {
        if self.settling == 0 && self.running_generation.is_none() {
            return true;
        }
        if self.running_generation.is_none() || self.preempt_window {
            self.preempt_restart = true;
            return true;
        }
        if waiter.deferred {
            return false;
        }
        if !waiter.registered {
            waiter.registered = true;
            self.preempt_waiters = self.preempt_waiters.wrapping_add(1);
        }
        false
    }

    /// Takes a waiter off the count of those that wait for a boundary.
    pub fn finish_waiter(&mut self, waiter: &mut PreemptWaiter)
        requires
            old(self).wf(),
        ensures
            final(self).wf(),
            !final(waiter).counted(),
            final(waiter).patient() == old(waiter).patient(),
            final(self)@ == if old(waiter).counted() {
                StateModel {
                    preempting: old(self)@.preempting.wrapping_sub(1),
                    ..old(self)@
                }
            } else {
                old(self)@
            },
    {
        if waiter.registered {
            waiter.registered = false;
            self.preempt_waiters = self.preempt_waiters.wrapping_sub(1);
        }
    }

    /// Queues the deferred inputs that `watermark` covers. Returns whether there
    /// were any.
    pub fn promote_deferred_inputs(&mut self, watermark: u64) -> (promoted: bool)
        requires
            old(self).wf(),
        ensures
            final(self).wf(),
            final(self)@ == old(self)@.promoted(watermark),
            promoted == (covered_inputs(old(self)@.deferred, watermark).len() > 0),
    {
        let ghost before = *self;
        let ghost all = before@.deferred;
        let ghost total = all.len();
        let mut rest: Vec<(u64, BaseCommandOp<C>)> = Vec::new();
        rest.append(&mut self.deferred_inputs);
        assert(super::deferred_view(rest@) =~= all);
        let mut kept: Vec<(u64, BaseCommandOp<C>)> = Vec::new();
        let mut ready: Vec<BaseCommandOp<C>> = Vec::new();
        let ghost mut done: int = 0;
        assert(all.take(0) =~= Seq::<(u64, BaseOpModel<C>)>::empty());
        assert(super::deferred_view(kept@) =~= Seq::<(u64, BaseOpModel<C>)>::empty());
        assert(base_ops_view(ready@) =~= Seq::<BaseOpModel<C>>::empty());
        while rest.len() > 0
            invariant
                0 <= done,
                done + rest@.len() == total,
                all.len() == total,
                super::deferred_view(rest@) =~= all.skip(done),
                super::deferred_view(kept@) == later_inputs(all.take(done), watermark),
                base_ops_view(ready@) == covered_inputs(all.take(done), watermark),
            decreases rest@.len(),
        {
            let ghost held = rest@;
            let ghost kept_before = kept@;
            let ghost ready_before = ready@;
            let (tag, input) = rest.remove(0);
            assert(super::deferred_view(held)[0] == all.skip(done)[0]);
            assert((tag, input@) == all[done]);
            assert(all.take(done + 1).drop_last() =~= all.take(done));
            assert(super::deferred_view(rest@) =~= super::deferred_view(held).drop_first());
            assert(all.skip(done + 1) =~= all.skip(done).drop_first());
            if tag <= watermark {
                ready.push(input);
                assert(base_ops_view(ready@) =~= base_ops_view(ready_before).push(all[done].1));
            } else {
                kept.push((tag, input));
                assert(super::deferred_view(kept@) =~= super::deferred_view(kept_before).push(
                    all[done],
                ));
            }
            proof {
                done = done + 1;
            }
        }
        assert(all.take(done) =~= all);
        assert(base_ops_view(ready@).len() == ready@.len());
        proof {
            lemma_deferred_partition(all, watermark);
        }
        self.deferred_inputs = kept;
        if ready.len() > 0 {
            let _ = self.queue_inputs(ready);
            true
        } else {
            false
        }
    }

    /// Marks the caller as driving an epoch. The watermark says which deferred
    /// inputs are its responsibility: those that arrived before it entered.
    pub fn enter_epoch(&mut self) -> (watermark: u64)
        requires
            old(self).wf(),
            old(self)@.settling < usize::MAX,
        ensures
            final(self).wf(),
            watermark == old(self)@.sequence,
            final(self)@ == (StateModel {
                settling: (old(self)@.settling + 1) as usize,
                ..old(self)@
            }),
    {
        self.settling = self.settling + 1;
        self.input_seq
    }

    /// Ends the caller's epoch. When the last one leaves, everything that is
    /// still deferred is queued, so that deferral never becomes loss. The
    /// returned callers wait for a boundary and are to be woken.
    pub fn leave_epoch(&mut self) -> (woken: Vec<Ticket>)
        requires
            old(self).wf(),
            old(self)@.settling > 0,
        ensures
            final(self).wf(),
            woken@ == old(self)@.boundary,
            ({
                let left = StateModel {
                    settling: (old(self)@.settling - 1) as usize,
                    boundary: Seq::empty(),
                    ..old(self)@
                };
                final(self)@ == if left.settling == 0 {
                    left.promoted(u64::MAX)
                } else {
                    left
                }
            }),
    {
        self.settling = self.settling - 1;
        let mut woken: Vec<Ticket> = Vec::new();
        woken.append(&mut self.boundary_waiters);
        if self.settling == 0 {
            let _ = self.promote_deferred_inputs(u64::MAX);
        }
        woken
    }
}

proof fn lemma_deferred_partition<C: Component>(
    deferred: Seq<(u64, BaseOpModel<C>)>,
    watermark: u64,
)
    ensures
        covered_inputs(deferred, watermark).len() + later_inputs(deferred, watermark).len()
            == deferred.len(),
        covered_inputs(deferred, watermark).len() == 0 ==> later_inputs(deferred, watermark)
            == deferred,
    decreases deferred.len(),
{
    if deferred.len() > 0 {
        lemma_deferred_partition(deferred.drop_last(), watermark);
        assert(deferred =~= deferred.drop_last().push(deferred.last()));
    } else {
        assert(later_inputs(deferred, watermark) =~= deferred);
    }
}

/// Deferral never becomes loss: when the last driver leaves its epoch, every
/// deferred input is queued, and a generation is pending to drain it.
pub proof fn lemma_deferral_is_no_loss<C: RelationshipTarget>(state: StateModel<C>)
    ensures
        state.promoted(u64::MAX).deferred.len() == 0,
        state.promoted(u64::MAX).inputs.len() == state.inputs.len() + state.deferred.len(),
        state.deferred.len() > 0 ==> state.promoted(u64::MAX).pending is Some,
{
    lemma_all_covered(state.deferred);
    lemma_deferred_partition(state.deferred, u64::MAX);
}

proof fn lemma_all_covered<C: Component>(deferred: Seq<(u64, BaseOpModel<C>)>)
    ensures
        later_inputs(deferred, u64::MAX).len() == 0,
    decreases deferred.len(),
{
    if deferred.len() > 0 {
        lemma_all_covered(deferred.drop_last());
    }
}

/// An epoch's input set is frozen: an input that arrives after a driver entered
/// is not covered by that driver's watermark, and stays deferred at its
/// boundaries.
pub proof fn lemma_epoch_input_is_frozen<C: RelationshipTarget>(
    state: StateModel<C>,
    inputs: Seq<BaseOpModel<C>>,
    watermark: u64,
)
    requires
        watermark <= state.sequence,
        state.sequence < u64::MAX,
    ensures
        covered_inputs(state.postponed(inputs).deferred, watermark) == covered_inputs(
            state.deferred,
            watermark,
        ),
        later_inputs(state.postponed(inputs).deferred, watermark) == later_inputs(
            state.deferred,
            watermark,
        ) + tagged(inputs, next(state.sequence)),
    decreases inputs.len(),
{
    let tag = next(state.sequence);
    if inputs.len() == 0 {
        assert(tagged(inputs, tag) =~= Seq::<(u64, BaseOpModel<C>)>::empty());
        assert(state.deferred + tagged(inputs, tag) =~= state.deferred);
        assert(later_inputs(state.deferred, watermark) + tagged(inputs, tag) =~= later_inputs(
            state.deferred,
            watermark,
        ));
    } else {
        let fewer = inputs.drop_last();
        lemma_epoch_input_is_frozen(state, fewer, watermark);
        let last = (tag, inputs.last());
        assert(tagged(inputs, tag) =~= tagged(fewer, tag).push(last));
        let all = state.deferred + tagged(inputs, tag);
        let less = state.deferred + tagged(fewer, tag);
        assert(all =~= less.push(last));
        assert(all.drop_last() =~= less);
        assert(later_inputs(state.deferred, watermark) + tagged(inputs, tag) =~= (later_inputs(
            state.deferred,
            watermark,
        ) + tagged(fewer, tag)).push(last));
    }
}

/// A waiter that registers and finishes leaves the count of waiters as it was.
pub proof fn lemma_waiter_count_balances(preempting: usize)
    ensures
        preempting.wrapping_add(1).wrapping_sub(1) == preempting,
{
}

} // verus!
