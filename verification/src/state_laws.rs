//! What becomes of inputs, waiters and components that are taken, from one generation
//! to the next.

use crate::commands::{apply_base_ops, apply_op, singleton_keys, BaseOpModel, OpModel};
use crate::component::{Component, ComponentId, RelationshipTarget};
use crate::conformance::same_phase_conflict;
use crate::declare::{ShapeDesc, ShapePartDesc};
use crate::entity::Entity;
use crate::invocation::Invocation;
use crate::memo::MemoModel;
use crate::model::WorldModel;
use crate::outcome_laws::has_part;
use crate::seq_laws::{lemma_joined, lemma_last, lemma_pushed};
use crate::state::builder::{universe_of, with_kinds, BuilderModel};
use crate::state::cleanup::unseen;
use crate::state::generation::{
    apply_held, conflicting, opened, rolled, satisfied, tickets, unsatisfied,
};
use crate::state::inputs::{
    asked, at_boundary, covered_inputs, insert_refused, insert_target, insert_target_world,
    later_inputs,
};
use crate::state::take::{take_all, taken_from};
use crate::state::{StateModel, Ticket};
use crate::world::WRITE_LOG_BUDGET;
use crate::write_laws::lemma_removal_is_local;
use vstd::prelude::*;

verus! {

/// Whether `kind` is among the first `count` of what is wanted.
pub open spec fn asked_before(
    wanted: Seq<(ComponentId, bool)>,
    kind: ComponentId,
    count: int,
) -> bool {
    exists|i: int| 0 <= i < count && (#[trigger] wanted[i]).0 == kind
}

/// Taking hands out what is there, in the order in which it is asked for, each component
/// once, and removes it; nothing else goes but memberships, which follow edges. It fails
/// exactly where a component that is required is missing or was handed out before.
pub proof fn lemma_take_hands_out_and_removes<C: RelationshipTarget>(
    world: WorldModel<C>,
    wanted: Seq<(ComponentId, bool)>,
    entity: Entity,
    kind: ComponentId,
    other: Entity,
)
    requires
        forall|i: int| 0 <= i < wanted.len() ==> !C::is_inverse((#[trigger] wanted[i]).0),
        !C::is_inverse(kind),
    ensures
        take_all(world, wanted, entity).1 is Ok <==> forall|i: int|
            0 <= i < wanted.len() && (#[trigger] wanted[i]).1 ==> world.entry(wanted[i].0, entity)
                is Some && !asked_before(wanted, wanted[i].0, i),
        take_all(world, wanted, entity).1 matches Ok(values) ==> {
            &&& values.len() == wanted.len()
            &&& forall|i: int|
                0 <= i < wanted.len() ==> #[trigger] values[i] == match world.entry(
                    wanted[i].0,
                    entity,
                ) {
                    Some(entry) => if asked_before(wanted, wanted[i].0, i) {
                        None
                    } else {
                        Some(entry.value)
                    },
                    None => None,
                }
            &&& take_all(world, wanted, entity).0.entry(kind, other) == if other == entity
                && asked_before(wanted, kind, wanted.len() as int) {
                None
            } else {
                world.entry(kind, other)
            }
        },
    decreases wanted.len(),
{
    if wanted.len() > 0 {
        let rest = wanted.drop_last();
        let last = wanted.last();
        let n = rest.len() as int;
        assert forall|i: int| 0 <= i < rest.len() implies !C::is_inverse(
            (#[trigger] rest[i]).0,
        ) by {
            assert(rest[i] == wanted[i]);
        }
        assert(wanted[n] == last);
        lemma_take_hands_out_and_removes(world, rest, entity, last.0, entity);
        lemma_take_hands_out_and_removes(world, rest, entity, kind, other);
        assert forall|k: ComponentId, count: int| 0 <= count <= n implies asked_before(
            rest,
            k,
            count,
        ) == #[trigger] asked_before(wanted, k, count) by {
            if asked_before(rest, k, count) {
                let i = choose|i: int| 0 <= i < count && (#[trigger] rest[i]).0 == k;
                assert(wanted[i].0 == k);
            }
            if asked_before(wanted, k, count) {
                let i = choose|i: int| 0 <= i < count && (#[trigger] wanted[i]).0 == k;
                assert(rest[i].0 == k);
            }
        }
        assert(asked_before(wanted, kind, n + 1) <==> (asked_before(wanted, kind, n) || last.0
            == kind)) by {
            if asked_before(wanted, kind, n) {
                let i = choose|i: int| 0 <= i < n && (#[trigger] wanted[i]).0 == kind;
                assert(0 <= i < n + 1);
            }
        }
        assert((forall|i: int|
            0 <= i < rest.len() && (#[trigger] rest[i]).1 ==> world.entry(rest[i].0, entity) is Some
                && !asked_before(rest, rest[i].0, i)) <==> (forall|i: int|
            0 <= i < n && (#[trigger] wanted[i]).1 ==> world.entry(wanted[i].0, entity) is Some
                && !asked_before(wanted, wanted[i].0, i))) by {
            assert forall|i: int| 0 <= i < n implies (#[trigger] rest[i]) == wanted[i]
                && asked_before(rest, rest[i].0, i) == asked_before(wanted, wanted[i].0, i) by {}
            assert forall|i: int| 0 <= i < n implies (#[trigger] wanted[i]) == rest[i]
                && asked_before(rest, rest[i].0, i) == asked_before(wanted, wanted[i].0, i) by {}
        }
        let done = take_all(world, rest, entity);
        if done.1 is Ok {
            let values = done.1->Ok_0;
            lemma_removal_is_local(done.0, last.0, entity, kind, other);
            if take_all(world, wanted, entity).1 is Ok {
                let all = take_all(world, wanted, entity).1->Ok_0;
                assert forall|i: int| 0 <= i < wanted.len() implies #[trigger] all[i] == match world.entry(
                    wanted[i].0,
                    entity,
                ) {
                    Some(entry) => if asked_before(wanted, wanted[i].0, i) {
                        None
                    } else {
                        Some(entry.value)
                    },
                    None => None,
                } by {
                    if i < n {
                        assert(all[i] == values[i]);
                        assert(rest[i] == wanted[i]);
                        assert(asked_before(rest, wanted[i].0, i) == asked_before(
                            wanted,
                            wanted[i].0,
                            i,
                        ));
                    } else {
                        assert(asked_before(rest, last.0, n) == asked_before(wanted, last.0, n));
                    }
                }
            }
        }
    }
}

/// Taking from an idle bowl changes the world alone, and what was retained for readers
/// goes with it.
pub proof fn lemma_take_leaves_the_rest<C: RelationshipTarget>(
    state: StateModel<C>,
    wanted: Seq<(ComponentId, bool)>,
    entity: Entity,
)
    ensures
        taken_from(state, wanted, entity).world == take_all(state.world, wanted, entity).0,
        taken_from(state, wanted, entity).retained is None,
        taken_from(state, wanted, entity).memo == state.memo,
        taken_from(state, wanted, entity).inputs == state.inputs,
        taken_from(state, wanted, entity).deferred == state.deferred,
        taken_from(state, wanted, entity).systems == state.systems,
        taken_from(state, wanted, entity).pending == state.pending,
{
}

/// Of the inputs that arrived during an epoch, those that arrived by the watermark are
/// covered, and the others stay with their arrival; none is lost and none is doubled.
pub proof fn lemma_watermark_parts_inputs<C: Component>(
    deferred: Seq<(u64, BaseOpModel<C>)>,
    watermark: u64,
    at: u64,
    input: BaseOpModel<C>,
)
    ensures
        covered_inputs(deferred, watermark).contains(input) <==> exists|i: int|
            0 <= i < deferred.len() && (#[trigger] deferred[i]).1 == input && deferred[i].0
                <= watermark,
        later_inputs(deferred, watermark).contains((at, input)) <==> deferred.contains((at, input))
            && at > watermark,
        covered_inputs(deferred, watermark).len() + later_inputs(deferred, watermark).len()
            == deferred.len(),
    decreases deferred.len(),
{
    if deferred.len() > 0 {
        let rest = deferred.drop_last();
        let last = deferred.last();
        lemma_watermark_parts_inputs(rest, watermark, at, input);
        lemma_last(deferred, (at, input));
        lemma_pushed(covered_inputs(rest, watermark), last.1, input);
        lemma_pushed(later_inputs(rest, watermark), last, (at, input));
        if exists|i: int|
            0 <= i < deferred.len() && (#[trigger] deferred[i]).1 == input && deferred[i].0
                <= watermark {
            let i = choose|i: int|
                0 <= i < deferred.len() && (#[trigger] deferred[i]).1 == input && deferred[i].0
                    <= watermark;
            if i < rest.len() {
                assert(rest[i].1 == input);
            }
        }
        if exists|i: int|
            0 <= i < rest.len() && (#[trigger] rest[i]).1 == input && rest[i].0 <= watermark {
            let i = choose|i: int|
                0 <= i < rest.len() && (#[trigger] rest[i]).1 == input && rest[i].0 <= watermark;
            assert(deferred[i].1 == input);
        }
        if last.0 <= watermark {
            assert(deferred[deferred.len() - 1].0 <= watermark);
        }
    }
}

/// Inputs keep their order when they are parted.
pub proof fn lemma_parted_inputs_keep_order<C: Component>(
    first: Seq<(u64, BaseOpModel<C>)>,
    second: Seq<(u64, BaseOpModel<C>)>,
    watermark: u64,
)
    ensures
        covered_inputs(first + second, watermark) == covered_inputs(first, watermark)
            + covered_inputs(second, watermark),
        later_inputs(first + second, watermark) == later_inputs(first, watermark) + later_inputs(
            second,
            watermark,
        ),
    decreases second.len(),
{
    if second.len() == 0 {
        assert(first + second =~= first);
        assert(covered_inputs(first, watermark) + Seq::<BaseOpModel<C>>::empty() =~= covered_inputs(
            first,
            watermark,
        ));
        assert(later_inputs(first, watermark) + Seq::<(u64, BaseOpModel<C>)>::empty()
            =~= later_inputs(first, watermark));
    } else {
        assert((first + second).drop_last() =~= first + second.drop_last());
        lemma_parted_inputs_keep_order(first, second.drop_last(), watermark);
        assert(covered_inputs(first + second, watermark) =~= covered_inputs(first, watermark)
            + covered_inputs(second, watermark));
        assert(later_inputs(first + second, watermark) =~= later_inputs(first, watermark)
            + later_inputs(second, watermark));
    }
}

/// An input that is queued stands behind those that are, and a generation is pending for
/// it: the one that was, or the next.
pub proof fn lemma_queued_inputs_wait_for_a_generation<C: RelationshipTarget>(
    state: StateModel<C>,
    inputs: Seq<BaseOpModel<C>>,
)
    ensures
        state.queued(inputs).inputs == state.inputs + inputs,
        state.queued(inputs).pending == Some(
            match state.pending {
                Some(generation) => generation,
                None => state.next,
            },
        ),
        state.queued(inputs).world == state.world,
        state.queued(inputs).deferred == state.deferred,
        !state.queued(inputs).is_settled(),
{
}

/// Promoted inputs join the queue in order, behind what is queued; the others stay
/// deferred. Where none is covered nothing happens.
pub proof fn lemma_promotion_moves_what_is_covered<C: RelationshipTarget>(
    state: StateModel<C>,
    watermark: u64,
)
    ensures
        state.promoted(watermark).inputs == state.inputs + covered_inputs(
            state.deferred,
            watermark,
        ),
        covered_inputs(state.deferred, watermark).len() > 0 ==> state.promoted(watermark).deferred
            == later_inputs(state.deferred, watermark) && state.promoted(watermark).pending is Some,
        covered_inputs(state.deferred, watermark).len() == 0 ==> state.promoted(watermark)
            == state,
        state.promoted(watermark).world == state.world,
{
    let inputs = covered_inputs(state.deferred, watermark);
    if inputs.len() == 0 {
        assert(state.inputs + inputs =~= state.inputs);
    }
}

/// An input that is put off arrives after everything before it, and is covered by no
/// earlier watermark.
pub proof fn lemma_postponed_inputs_come_later<C: RelationshipTarget>(
    state: StateModel<C>,
    inputs: Seq<BaseOpModel<C>>,
    at: int,
)
    requires
        state.sequence < u64::MAX,
        0 <= at < inputs.len(),
    ensures
        ({
            let after = state.postponed(inputs);
            &&& after.sequence == state.sequence + 1
            &&& after.deferred.len() == state.deferred.len() + inputs.len()
            &&& after.deferred[state.deferred.len() + at] == (after.sequence, inputs[at])
            &&& forall|i: int|
                0 <= i < state.deferred.len() ==> #[trigger] after.deferred[i] == state.deferred[i]
            &&& after.inputs == state.inputs
            &&& after.pending == state.pending
        }),
{
}

/// The keys of a bundle are those of its singleton components.
pub proof fn lemma_keys_of_a_bundle<C: Component>(facts: Seq<C::Model>, key: ComponentId)
    ensures
        singleton_keys::<C>(facts).contains(key) <==> exists|i: int|
            0 <= i < facts.len() && C::singleton(C::kind(#[trigger] facts[i])) == Some(key),
    decreases facts.len(),
{
    if facts.len() > 0 {
        let rest = facts.drop_last();
        lemma_keys_of_a_bundle::<C>(rest, key);
        if let Some(last) = C::singleton(C::kind(facts.last())) {
            lemma_pushed(singleton_keys::<C>(rest), last, key);
        }
        if exists|i: int|
            0 <= i < facts.len() && C::singleton(C::kind(#[trigger] facts[i])) == Some(key) {
            let i = choose|i: int|
                0 <= i < facts.len() && C::singleton(C::kind(#[trigger] facts[i])) == Some(key);
            if i < rest.len() {
                assert(C::singleton(C::kind(rest[i])) == Some(key));
            }
        }
        if exists|i: int|
            0 <= i < rest.len() && C::singleton(C::kind(#[trigger] rest[i])) == Some(key) {
            let i = choose|i: int|
                0 <= i < rest.len() && C::singleton(C::kind(#[trigger] rest[i])) == Some(key);
            assert(C::singleton(C::kind(facts[i])) == Some(key));
        }
        if C::singleton(C::kind(facts.last())) == Some(key) {
            assert(C::singleton(C::kind(facts[facts.len() - 1])) == Some(key));
        }
    }
}

/// A bundle goes to the entity it names; else to the one that holds its singleton; else
/// to a new one, which then holds it. Two inserts of one singleton meet on one entity;
/// two of plain bundles do not. Only a bundle with two keys and no entity is refused.
pub proof fn lemma_where_a_bundle_goes<C: RelationshipTarget>(
    world: WorldModel<C>,
    facts: Seq<C::Model>,
    again: Seq<C::Model>,
    target: Option<Entity>,
)
    ensures
        ({
            let keys = singleton_keys::<C>(facts);
            let after = insert_target_world(world, facts, target);
            let entity = insert_target(world, facts, target);
            &&& target is Some ==> entity == target->Some_0 && after == world
            &&& target is None && keys.len() == 0 ==> entity.id() == world.next_entity
                && after.singletons == world.singletons
            &&& target is None && keys.len() > 0 ==> after.singletons.contains_key(keys[0])
                && after.singletons[keys[0]] == entity.id() && (world.singletons.contains_key(
                keys[0],
            ) ==> after == world)
            &&& target is None && keys.len() > 0 && singleton_keys::<C>(again).len() > 0
                && singleton_keys::<C>(again)[0] == keys[0] ==> insert_target(
                after,
                again,
                None,
            ).id() == entity.id()
            &&& target is None && keys.len() == 0 && singleton_keys::<C>(again).len() == 0
                && world.next_entity < u64::MAX ==> insert_target(after, again, None) != entity
            &&& insert_refused::<C>(facts, target) <==> target is None && keys.len() >= 2
            &&& after.stores == world.stores
        }),
{
}

/// A caller that wants a boundary has it when nothing runs or the runner pauses; else it
/// is counted, once, unless it can wait. An idle bowl is left as it is.
pub proof fn lemma_asking_for_a_boundary<C: RelationshipTarget>(
    state: StateModel<C>,
    counted: bool,
    patient: bool,
)
    requires
        state.preempting < usize::MAX,
    ensures
        ({
            let after = asked(state, counted, patient);
            let idle = state.settling == 0 && state.running is None;
            &&& at_boundary(state) <==> state.running is None || state.window
            &&& after.restart <==> state.restart || (!idle && at_boundary(state))
            &&& after.preempting == state.preempting + if !idle && !at_boundary(state) && !patient
                && !counted {
                1int
            } else {
                0int
            }
            &&& after.world == state.world
            &&& after.inputs == state.inputs
            &&& after.pending == state.pending
        }),
{
}

/// When a generation is complete, exactly those are woken that waited for it or for an
/// earlier one; the others go on waiting.
pub proof fn lemma_who_is_woken(
    waiters: Seq<(u64, Ticket)>,
    generation: u64,
    waiter: (u64, Ticket),
    ticket: Ticket,
)
    ensures
        unsatisfied(waiters, generation).contains(waiter) <==> waiters.contains(waiter) && waiter.0
            > generation,
        satisfied(waiters, generation).contains(ticket) <==> exists|i: int|
            0 <= i < waiters.len() && (#[trigger] waiters[i]).1 == ticket && waiters[i].0
                <= generation,
        unsatisfied(waiters, generation).len() + satisfied(waiters, generation).len()
            == waiters.len(),
        tickets(waiters).contains(ticket) <==> exists|i: int|
            0 <= i < waiters.len() && (#[trigger] waiters[i]).1 == ticket,
    decreases waiters.len(),
{
    let every = tickets(waiters);
    if every.contains(ticket) {
        let i = choose|i: int| 0 <= i < every.len() && every[i] == ticket;
        assert(waiters[i].1 == ticket);
    }
    if exists|i: int| 0 <= i < waiters.len() && (#[trigger] waiters[i]).1 == ticket {
        let i = choose|i: int| 0 <= i < waiters.len() && (#[trigger] waiters[i]).1 == ticket;
        assert(every[i] == ticket);
    }
    if waiters.len() > 0 {
        let rest = waiters.drop_last();
        let last = waiters.last();
        lemma_who_is_woken(rest, generation, waiter, ticket);
        lemma_last(waiters, waiter);
        lemma_pushed(unsatisfied(rest, generation), last, waiter);
        lemma_pushed(satisfied(rest, generation), last.1, ticket);
        if exists|i: int|
            0 <= i < waiters.len() && (#[trigger] waiters[i]).1 == ticket && waiters[i].0
                <= generation {
            let i = choose|i: int|
                0 <= i < waiters.len() && (#[trigger] waiters[i]).1 == ticket && waiters[i].0
                    <= generation;
            if i < rest.len() {
                assert(rest[i].1 == ticket);
            }
        }
        if exists|i: int|
            0 <= i < rest.len() && (#[trigger] rest[i]).1 == ticket && rest[i].0 <= generation {
            let i = choose|i: int|
                0 <= i < rest.len() && (#[trigger] rest[i]).1 == ticket && rest[i].0 <= generation;
            assert(waiters[i].1 == ticket);
        }
        if last.0 <= generation {
            assert(waiters[waiters.len() - 1].0 <= generation);
        }
    }
}

/// What a generation starts with: what was held back for it, each operation under the
/// name of its invocation, then the inputs, both in order; the first refusal ends it.
/// Afterwards nothing waits, and no write or hook of it is left over.
pub proof fn lemma_what_a_generation_starts_with<C: RelationshipTarget>(
    world: WorldModel<C>,
    held: Seq<(Invocation, OpModel<C>)>,
    last: (Invocation, OpModel<C>),
    inputs: Seq<BaseOpModel<C>>,
)
    ensures
        apply_held(world, Seq::empty()) == (world, Ok::<(), crate::commands::ApplyError>(())),
        apply_held(world, held.push(last)) == if apply_held(world, held).1 is Ok {
            apply_op(apply_held(world, held).0, last.1, last.0)
        } else {
            apply_held(world, held)
        },
        opened(world, held, inputs).1 is Ok <==> apply_held(rolled(world), held).1 is Ok
            && apply_base_ops(apply_held(rolled(world), held).0, inputs).1 is Ok,
        opened(world, held, inputs).1 is Ok ==> {
            let after = opened(world, held, inputs).0;
            let flushed = apply_base_ops(apply_held(rolled(world), held).0, inputs).0.flush();
            &&& after.stores == flushed.stores
            &&& after.owned == flushed.owned
            &&& after.written.len() == 0
            &&& after.hooks.len() == 0
        },
{
    assert(held.push(last).drop_last() =~= held);
}

/// The write log starts over, in a new epoch, exactly when it is over its budget.
pub proof fn lemma_log_rolls_over_its_budget<C: RelationshipTarget>(world: WorldModel<C>)
    requires
        world.epoch < u64::MAX,
    ensures
        world.log.len() > WRITE_LOG_BUDGET ==> rolled(world).log.len() == 0 && rolled(world).epoch
            == world.epoch + 1,
        world.log.len() <= WRITE_LOG_BUDGET ==> rolled(world) == world,
        rolled(world).stores == world.stores,
        rolled(world).revision == world.revision,
{
}

/// A generation takes all inputs and all that was held back, once: while it runs nothing
/// is pending but what comes in later. That it has to restart is forgotten once one ran.
pub proof fn lemma_running_generation<C: RelationshipTarget>(
    state: StateModel<C>,
    generation: u64,
    world: WorldModel<C>,
)
    requires
        generation < u64::MAX,
    ensures
        ({
            let after = state.running(generation, world);
            &&& after.world == world
            &&& after.running == Some(generation)
            &&& after.pending is None
            &&& after.next == generation + 1
            &&& after.inputs.len() == 0
            &&& after.held.len() == 0
            &&& !after.is_settled()
            &&& after.started
            &&& state.started ==> !after.restart
            &&& !state.started ==> after.restart == state.restart
            &&& after.deferred == state.deferred
            &&& after.waiters == state.waiters
            &&& after.completed == state.completed
        }),
{
}

/// A complete generation leaves its records and wakes those that waited for it; it is
/// clean exactly when nothing changed. One that is given up is pending again, every
/// system is planned anew and nobody goes on waiting.
pub proof fn lemma_finished_generation<C: RelationshipTarget>(
    state: StateModel<C>,
    generation: u64,
    memo: Map<Invocation, MemoModel>,
    changed: bool,
    at: int,
)
    requires
        0 <= at < state.systems.len(),
    ensures
        ({
            let after = state.completed(generation, memo, changed);
            &&& after.memo == memo
            &&& after.completed == generation
            &&& after.running is None
            &&& after.clean <==> !changed
            &&& after.waiters == unsatisfied(state.waiters, generation)
            &&& after.boundary.len() == 0
            &&& after.world == state.world
            &&& after.pending == state.pending
            &&& after.inputs == state.inputs
        }),
        ({
            let after = state.abandoned(generation, memo);
            &&& after.memo == memo
            &&& after.running is None
            &&& after.pending == Some(
                match state.pending {
                    Some(pending) => pending,
                    None => generation,
                },
            )
            &&& after.waiters.len() == 0
            &&& after.completed == state.completed
            &&& after.world == state.world
            &&& after.systems.len() == state.systems.len()
            &&& after.systems[at].mark == 0
            &&& after.systems[at].epoch == u64::MAX
            &&& after.systems[at].params == state.systems[at].params
            &&& after.systems[at].phase == state.systems[at].phase
            &&& after.systems[at].wrappers == state.systems[at].wrappers
        }),
{
}

/// Two registered systems are told to conflict exactly when checks are on, a schema is
/// declared, they run in one phase, and the first could complete a view of the second.
pub proof fn lemma_conflicts_within_a_phase<C: RelationshipTarget>(
    state: StateModel<C>,
    producer: int,
    viewer: int,
)
    ensures
        conflicting(state, producer, viewer) <==> state.checked && state.schema is Some
            && state.systems[producer].phase == state.systems[viewer].phase && same_phase_conflict(
            state.schema->Some_0,
            state.systems[producer],
            state.systems[viewer],
        ),
{
}

proof fn lemma_with_kinds(kinds: Seq<ComponentId>, more: Seq<ComponentId>, kind: ComponentId)
    ensures
        with_kinds(kinds, more).contains(kind) <==> kinds.contains(kind) || more.contains(kind),
        kinds.no_duplicates() ==> with_kinds(kinds, more).no_duplicates(),
    decreases more.len(),
{
    if more.len() > 0 {
        let rest = with_kinds(kinds, more.drop_last());
        lemma_with_kinds(kinds, more.drop_last(), kind);
        lemma_last(more, kind);
        lemma_pushed(rest, more.last(), kind);
    }
}

proof fn lemma_shape_kinds(parts: Seq<ShapePartDesc>, kind: ComponentId)
    ensures
        crate::declare::shape_kinds(parts).contains(kind) <==> exists|i: int|
            0 <= i < parts.len() && (#[trigger] parts[i]).component == kind,
{
    let kinds = crate::declare::shape_kinds(parts);
    if kinds.contains(kind) {
        let i = choose|i: int| 0 <= i < kinds.len() && kinds[i] == kind;
        assert(parts[i].component == kind);
    }
    if exists|i: int| 0 <= i < parts.len() && (#[trigger] parts[i]).component == kind {
        let i = choose|i: int| 0 <= i < parts.len() && (#[trigger] parts[i]).component == kind;
        assert(kinds[i] == kind);
    }
}

/// The component types of a schema are the parts of its shapes, each once.
pub proof fn lemma_universe_of_a_schema(shapes: Seq<ShapeDesc>, kind: ComponentId)
    ensures
        universe_of(shapes).contains(kind) <==> exists|i: int|
            0 <= i < shapes.len() && has_part(#[trigger] shapes[i], kind),
        universe_of(shapes).no_duplicates(),
    decreases shapes.len(),
{
    if shapes.len() > 0 {
        let rest = shapes.drop_last();
        let last = shapes.last();
        lemma_universe_of_a_schema(rest, kind);
        let required = crate::declare::shape_kinds(last.required@);
        let optional = crate::declare::shape_kinds(last.optional@);
        lemma_with_kinds(universe_of(rest), required, kind);
        lemma_with_kinds(with_kinds(universe_of(rest), required), optional, kind);
        lemma_shape_kinds(last.required@, kind);
        lemma_shape_kinds(last.optional@, kind);
        if exists|i: int| 0 <= i < shapes.len() && has_part(#[trigger] shapes[i], kind) {
            let i = choose|i: int| 0 <= i < shapes.len() && has_part(#[trigger] shapes[i], kind);
            if i < rest.len() {
                assert(has_part(rest[i], kind));
            }
        }
        if exists|i: int| 0 <= i < rest.len() && has_part(#[trigger] rest[i], kind) {
            let i = choose|i: int| 0 <= i < rest.len() && has_part(#[trigger] rest[i], kind);
            assert(has_part(shapes[i], kind));
        }
        if has_part(last, kind) {
            assert(has_part(shapes[shapes.len() - 1], kind));
        }
    }
}

/// A bowl that is built is empty, knows exactly the types of its shapes where it has
/// some, those of plugins behind the others, and runs its systems from the start.
pub proof fn lemma_built_bowl<C: RelationshipTarget, K>(
    builder: BuilderModel<K>,
    kind: ComponentId,
    entity: Entity,
)
    ensures
        ({
            let built = StateModel::<C>::built(builder);
            let shapes = builder.shapes + builder.plugin_shapes;
            &&& built.world.entry(kind, entity) is None
            &&& built.schema is Some <==> shapes.len() > 0
            &&& built.schema matches Some(all) ==> all == shapes
            &&& built.world.universe is Some <==> shapes.len() > 0
            &&& built.world.universe matches Some(kinds) ==> (kinds.contains(kind) <==> exists|
                i: int,
            | 0 <= i < shapes.len() && has_part(#[trigger] shapes[i], kind))
            &&& built.checked == builder.checked
            &&& built.systems == builder.systems
            &&& built.pending is Some <==> builder.systems.len() > 0
            &&& built.counters.len() == builder.systems.len()
            &&& !built.started
            &&& built.memo.len() == 0
        }),
{
    let shapes = builder.shapes + builder.plugin_shapes;
    lemma_universe_of_a_schema(shapes, kind);
    let built = StateModel::<C>::built(builder);
    assert(built.memo =~= Map::<Invocation, MemoModel>::empty());
    if builder.systems.len() == 0 {
        assert(builder.systems =~= Seq::empty());
    }
}

/// Entities that were not seen before are kept, each once.
pub proof fn lemma_unseen_entities(removed: Seq<Entity>, seen: Seq<Entity>, entity: Entity)
    ensures
        unseen(removed, seen).contains(entity) <==> removed.contains(entity) && !seen.contains(
            entity,
        ),
        unseen(removed, seen).no_duplicates(),
    decreases removed.len(),
{
    if removed.len() > 0 {
        let rest = removed.drop_last();
        lemma_unseen_entities(rest, seen, entity);
        lemma_last(removed, entity);
        lemma_pushed(unseen(rest, seen), removed.last(), entity);
    }
}

/// An invocation that is due again makes its own system plan its rows anew, and leaves
/// the other systems alone; without rows it makes the system plan in full.
pub proof fn lemma_due_again<C: RelationshipTarget>(
    state: StateModel<C>,
    owner: Invocation,
    at: int,
    row: Entity,
)
    requires
        0 <= at < state.systems.len(),
    ensures
        ({
            let after = state.replanned(owner);
            &&& after.systems.len() == state.systems.len()
            &&& at != owner.system.0 ==> after.systems[at] == state.systems[at]
            &&& at == owner.system.0 ==> after.systems[at].mark == 0
            &&& at == owner.system.0 && owner.keys.len() == 0 ==> after.systems[at].epoch
                == u64::MAX
            &&& at == owner.system.0 && owner.keys.len() > 0 ==> (
            after.systems[at].forced.contains(row) <==> state.systems[at].forced.contains(row)
                || owner.keys.contains(row))
            &&& after.world == state.world
            &&& after.memo == state.memo
        }),
{
    lemma_joined(state.systems[at].forced, owner.keys, row);
}

} // verus!
