//! What a caller of the bowl sees of its own calls.

use crate::bowl::{
    copied, found, handles_of, inserted_on, mutated, settles, tidied, took, BowlModel, QueryResult,
};
use crate::commands::{insert_facts, BufferModel, OpModel};
use crate::component::{ComparableComponent, ComponentId, ComponentType, RelationshipTarget};
use crate::config::{InsertOn, SystemCallback};
use crate::entity::Entity;
use crate::facts::{Fact, FactModel};
use crate::filter::{ArgMap, ExternalQueryFilter, FilterExpr};
use crate::input_laws::among_parts;
use crate::invocation::{Invocation, SystemId};
use crate::memo::{memoized_count, to_run, MemoModel};
use crate::model::{ascending, sorted_keys, Origin, PendingAnchor, WorldModel};
use crate::param::{system_states, ParamModel, RowState};
use crate::projection::ExternalReadQueryParam;
use crate::query::QueryModel;
use crate::read_laws::{asked, fits, lemma_filtered_read};
use crate::registry::SystemModel;
use crate::state::bodies::SystemBodies;
use crate::state::cleanup::cleaned;
use crate::state::explain::{
    ends_with, named, planning_charged, poll_charged, report_of, stale_kinds, ExplainReport,
};
use crate::state::generation::{opened, rolled};
use crate::state::inputs::bundle_inputs;
use crate::state::take::{cleaned_each, taken_from};
use crate::state::{StateModel, Ticket};
use crate::system::SystemStats;
use crate::text::{decimal, joined_text};
use crate::upkeep_laws::lemma_cleaned_entities_are_gone;
use crate::world::ids;
use crate::world_laws::lemma_put_entry;
use crate::write_laws::{
    lemma_bundle_inputs_insert_the_bundle, lemma_bundle_is_read_back,
    lemma_write_in_place_is_local,
};
use vstd::prelude::*;

verus! {

proof fn lemma_flush_each_is_local<C: RelationshipTarget>(
    world: WorldModel<C>,
    pending: Seq<PendingAnchor>,
    kind: ComponentId,
    entity: Entity,
)
    requires
        kind != C::anchor_kind(),
        !C::is_inverse(kind),
        world.consistent(),
    ensures
        world.flush_each(pending).entry(kind, entity) == world.entry(kind, entity),
        world.flush_each(pending).consistent(),
    decreases pending.len(),
{
    if pending.len() > 0 {
        let done = world.flush_each(pending.drop_last());
        let p = pending.last();
        lemma_flush_each_is_local(world, pending.drop_last(), kind, entity);
        let anchors = crate::component::captured(p.anchors, done.anchor_revisions(p.anchors));
        let fact = C::anchor_fact(anchors);
        C::anchor_laws(anchors);
        C::marker_laws(fact);
        let own = C::anchor_kind();
        if let Some(old) = done.entry(own, p.entity) {
            C::marker_laws(old.value);
        }
        lemma_put_entry(done, p.entity, fact, p.origin, p.owner, kind, entity);
        crate::world_laws::lemma_put_advances(done, p.entity, fact, p.origin, p.owner);
    }
}

/// Markers that waited for the end of a buffer are written then, and move nothing else.
pub proof fn lemma_flush_is_local<C: RelationshipTarget>(
    world: WorldModel<C>,
    kind: ComponentId,
    entity: Entity,
)
    requires
        kind != C::anchor_kind(),
        !C::is_inverse(kind),
        world.consistent(),
    ensures
        world.flush().entry(kind, entity) == world.entry(kind, entity),
{
    let started = WorldModel { pending: Seq::<PendingAnchor>::empty(), ..world };
    assert(started.consistent());
    lemma_flush_each_is_local(started, world.pending, kind, entity);
}

/// A bundle that was inserted on an entity is there when the generation for it starts:
/// each of its components is read back with the value that the bundle had last for its
/// type, as a fact of the caller. No other entity is touched, but for inverses and markers.
pub proof fn lemma_inserted_bundle_is_read_back<C: RelationshipTarget>(
    state: StateModel<C>,
    entity: Entity,
    facts: Seq<C::Model>,
    at: int,
    kind: ComponentId,
    other: Entity,
)
    requires
        state.inputs.len() == 0,
        state.held.len() == 0,
        state.world.consistent(),
        0 <= at < facts.len(),
        !C::is_inverse(kind),
        C::anchored(facts[at]) is None,
        !C::is_inverse(C::kind(facts[at])),
        forall|later: int|
            at < later < facts.len() ==> C::kind(#[trigger] facts[later]) != C::kind(facts[at]),
        opened(
            state.world,
            state.held,
            state.queued(bundle_inputs::<C>(entity, facts)).inputs,
        ).1 is Ok,
    ensures
        ({
            let queued = state.queued(bundle_inputs::<C>(entity, facts));
            &&& queued.opening().entry(C::kind(facts[at]), entity) matches Some(entry)
                && entry.value == facts[at] && entry.origin == Origin::Base && entry.owner is None
            &&& kind != C::anchor_kind() && other != entity ==> queued.opening().entry(kind, other)
                == state.world.entry(kind, other)
        }),
{
    let inputs = bundle_inputs::<C>(entity, facts);
    let queued = state.queued(inputs);
    assert(queued.inputs =~= inputs);
    let start = rolled(state.world);
    assert(start.stores == state.world.stores);
    assert(start.consistent());
    lemma_bundle_inputs_insert_the_bundle(start, entity, facts);
    let own = C::kind(facts[at]);
    lemma_bundle_is_read_back(start, entity, facts, Origin::Base, None, own, entity);
    lemma_bundle_is_read_back(start, entity, facts, Origin::Base, None, kind, other);
    let done = insert_facts(start, entity, facts, Origin::Base, None).0;
    C::marker_laws(facts[at]);
    lemma_flush_is_local(done, own, entity);
    if kind != C::anchor_kind() {
        lemma_flush_is_local(done, kind, other);
    }
}

/// An insert that is accepted queues the whole bundle for one entity and says which; one
/// that is refused changes nothing.
pub proof fn lemma_insert_queues_the_bundle<C: RelationshipTarget, B: SystemBodies<C>>(
    before: BowlModel<C, B>,
    after: BowlModel<C, B>,
    facts: Seq<C::Model>,
    target: Option<Entity>,
    outcome: Result<Entity, crate::commands::ApplyError>,
)
    requires
        inserted_on(before, after, facts, target, outcome),
    ensures
        outcome is Err ==> after == before && target is None,
        outcome matches Ok(entity) ==> {
            &&& target matches Some(named) ==> entity == named
            &&& after.state.inputs == before.state.inputs + bundle_inputs::<C>(entity, facts)
            &&& after.state.pending is Some
            &&& after.state.world.stores == before.state.world.stores
            &&& after.bodies == before.bodies
            &&& after.limit == before.limit
            &&& after.dropped == before.dropped
        },
{
}

/// A write from outside is read at once. It makes the bowl settle anew exactly when the
/// value is tracked and its fingerprint was absent or differs, or an edge points
/// elsewhere; where the entity lacks the component nothing happens.
pub proof fn lemma_write_from_outside<C: RelationshipTarget>(
    state: StateModel<C>,
    entity: Entity,
    fact: C::Model,
    kind: ComponentId,
    other: Entity,
)
    requires
        state.world.consistent(),
        !C::is_inverse(kind),
        !C::is_inverse(C::kind(fact)),
    ensures
        forall|after: StateModel<C>|
            #![trigger after.world.entry(kind, other)]
            after == mutated(state, entity, fact) || after == copied(state, entity, fact) ==> {
                &&& state.world.entry(C::kind(fact), entity) is Some ==> (after.world.entry(
                    C::kind(fact),
                    entity,
                ) matches Some(entry) && entry.value == fact)
                &&& !(kind == C::kind(fact) && other == entity) ==> (after.world.entry(kind, other)
                    is Some <==> state.world.entry(kind, other) is Some) && (state.world.entry(
                    kind,
                    other,
                ) matches Some(entry) ==> after.world.entry(kind, other) == Some(entry))
                &&& after.pending == if state.pending is None && state.world.moves(entity, fact) {
                    Some(state.next)
                } else {
                    state.pending
                }
                &&& after.clean <==> state.clean && !state.world.moves(entity, fact)
                &&& after.world.hooks.len() == 0
            },
        state.world.entry(C::kind(fact), entity) is None ==> !state.world.moves(entity, fact),
        state.world.entry(C::kind(fact), entity) matches Some(old) && C::tracks(C::kind(fact)) && (
        old.fingerprint is None || old.fingerprint != C::stamp(fact)) ==> state.world.moves(
            entity,
            fact,
        ),
        state.world.entry(C::kind(fact), entity) matches Some(old) && C::edge(old.value)
            != C::edge(fact) ==> state.world.moves(entity, fact),
        state.world.entry(C::kind(fact), entity) matches Some(old) && C::edge(old.value)
            == C::edge(fact) && (!C::tracks(C::kind(fact)) || (old.fingerprint is Some
            && old.fingerprint == C::stamp(fact))) ==> !state.world.moves(entity, fact),
{
    let own = C::kind(fact);
    lemma_write_in_place_is_local(state.world, entity, fact, own, entity);
    lemma_write_in_place_is_local(state.world, entity, fact, kind, other);
    let updated = state.world.update(entity, fact);
    let separate = state.world.update_copied(entity, fact);
    assert(updated.entry(own, entity) is Some <==> state.world.entry(own, entity) is Some);
    assert(separate.entry(own, entity) is Some <==> state.world.entry(own, entity) is Some);
    assert(updated.entry(kind, other) is Some <==> state.world.entry(kind, other) is Some);
    assert(separate.entry(kind, other) is Some <==> state.world.entry(kind, other) is Some);
    let first = mutated(state, entity, fact);
    let second = copied(state, entity, fact);
    assert(first.world.entry(own, entity) == updated.entry(own, entity));
    assert(first.world.entry(kind, other) == updated.entry(kind, other));
    assert(second.world.entry(own, entity) == separate.entry(own, entity));
    assert(second.world.entry(kind, other) == separate.entry(kind, other));
}

/// Handles name the rows, in order, with the revisions that were seen.
pub proof fn lemma_handles_name_the_rows(
    kind: ComponentId,
    rows: Seq<(Entity, Option<u64>)>,
    at: int,
)
    requires
        0 <= at < rows.len(),
    ensures
        handles_of(kind, rows).len() == rows.len(),
        handles_of(kind, rows)[at].entity == rows[at].0,
        handles_of(kind, rows)[at].revision == rows[at].1,
        handles_of(kind, rows)[at].kind == kind,
{
}

/// An entity that a bundle was taken from is cleaned: it carries nothing any more, and no
/// invocation that had it as a row is on record.
pub proof fn lemma_taken_entity_is_gone<C: RelationshipTarget>(
    before: StateModel<C>,
    after: StateModel<C>,
    wanted: Seq<(ComponentId, bool)>,
    entity: Entity,
    owner: Invocation,
    kind: ComponentId,
)
    requires
        took(before, after, wanted, entity),
    ensures
        after.world.entry(kind, entity) is None,
        owner.keys.contains(entity) ==> !after.memo.contains_key(owner),
        before.is_settled() ==> after.settled_revision == after.world.revision,
        !before.is_settled() ==> after.settled_revision == before.settled_revision,
{
    let cleared = choose|cleared: StateModel<C>| #[trigger]
        cleaned(taken_from(before, wanted, entity), cleared, entity) && after
            == crate::state::take::resettled(cleared, before.is_settled());
    let row = Invocation { system: owner.system, keys: seq![entity] };
    assert(row.keys[0] == entity);
    assert(row.keys.contains(entity));
    crate::state::cleanup::lemma_cleaned_entity_is_gone(
        taken_from(before, wanted, entity),
        cleared,
        entity,
        row,
    );
    if owner.keys.contains(entity) {
        crate::state::cleanup::lemma_cleaned_entity_is_gone(
            taken_from(before, wanted, entity),
            cleared,
            entity,
            owner,
        );
    }
    assert(!cleared.world.has(kind, entity));
}

/// A read cleans up what was dropped: nothing of it is left, and it is cleaned up once.
pub proof fn lemma_reading_cleans_up<C: RelationshipTarget, B: SystemBodies<C>>(
    before: BowlModel<C, B>,
    after: BowlModel<C, B>,
    dropped: Entity,
    kind: ComponentId,
)
    requires
        before.readied(after),
    ensures
        after.dropped.len() == 0,
        after.limit == before.limit,
        before.dropped.contains(dropped) ==> after.state.world.entry(kind, dropped) is None,
{
    let (settled, woken) = choose|settled: StateModel<C>, woken: Seq<Ticket>| #[trigger]
        settles(before, woken, settled, after.bodies) && tidied(
            settled,
            after.state,
            before.dropped,
        ) && after.woken == before.woken + woken;
    let cleared = choose|cleared: StateModel<C>| #[trigger]
        cleaned_each(settled, cleared, before.dropped) && after.state
            == crate::state::take::resettled(cleared, settled.is_settled());
    lemma_cleaned_entities_are_gone(settled, cleared, before.dropped, dropped, kind);
}

/// What a read finds in a world are exactly the entities that carry all that it asks for
/// and pass its filter, ascending.
pub proof fn lemma_read_finds_what_fits<
    C: ComparableComponent,
    Q: ExternalReadQueryParam<C>,
    F: ExternalQueryFilter<C>,
>(
    world: WorldModel<C>,
    args: ArgMap<C>,
    scope: Option<u64>,
    result: QueryResult<C>,
    entity: Entity,
)
    requires
        found::<C, Q, F>(world, args, scope, Ok(result)),
        world.consistent(),
        crate::filter::well_typed::<C>(args),
        Q::row_parts().len() > 0,
    ensures
        result@.world == world,
        ascending(ids(result@.rows)),
        result@.rows.contains(entity) <==> (forall|i: int|
            0 <= i < Q::row_parts().len() ==> world.entry(
                (#[trigger] Q::row_parts()[i]).component,
                entity,
            ) is Some) && F::Expr::verdict(world, args, scope, entity) == Ok::<bool, ComponentId>(
            true,
        ),
{
    let query = QueryModel { parts: Q::row_parts(), filters: Seq::empty() };
    assert(among_parts(query, query.parts[0].component));
    assert(asked(query, query.parts[0].component));
    lemma_filtered_read::<C, F::Expr>(world, query, args, scope, entity);
    lemma_fits_parts(world, query, entity);
}

proof fn lemma_fits_parts<C: RelationshipTarget>(
    world: WorldModel<C>,
    query: QueryModel,
    entity: Entity,
)
    requires
        query.filters.len() == 0,
    ensures
        fits(query, world, entity) <==> forall|i: int|
            0 <= i < query.parts.len() ==> world.entry(
                (#[trigger] query.parts[i]).component,
                entity,
            ) is Some,
{
    if fits(query, world, entity) {
        assert forall|i: int| 0 <= i < query.parts.len() implies world.entry(
            (#[trigger] query.parts[i]).component,
            entity,
        ) is Some by {
            assert(among_parts(query, query.parts[i].component));
        }
    }
    if forall|i: int|
        0 <= i < query.parts.len() ==> world.entry((#[trigger] query.parts[i]).component, entity)
            is Some {
        assert forall|kind: ComponentId| #[trigger] among_parts(query, kind) implies world.entry(
            kind,
            entity,
        ) is Some by {
            let i = choose|i: int|
                0 <= i < query.parts.len() && (#[trigger] query.parts[i]).component == kind;
        }
    }
}

/// A callback that inserts a component leaves one more operation in the buffer: that
/// insert, on the entity it names. The one that does nothing leaves it as it is.
pub proof fn lemma_what_callbacks_leave<
    C: RelationshipTarget,
    S,
    T: ComponentType<Universe = C> + Clone,
>(
    callback: InsertOn<T>,
    nothing: (),
    before: BufferModel<C>,
    given: u64,
    after: BufferModel<C>,
    next: u64,
)
    ensures
        <InsertOn<T> as SystemCallback<C, S>>::leaves(&callback, before, given, after, next) ==> {
            &&& next == given
            &&& after.ops.len() == before.ops.len() + 1
            &&& after.ops.drop_last() == before.ops
            &&& after.ops.last() matches OpModel::Insert { entity, fact } && entity
                == callback.entity && exists|copy: T| #[trigger]
                cloned(callback.component, copy) && fact == copy.meaning()
            &&& after.slots == before.slots
            &&& after.cursor == before.cursor
        },
        <() as SystemCallback<C, S>>::leaves(&nothing, before, given, after, next) <==> after
            == before && next == given,
{
    if <InsertOn<T> as SystemCallback<C, S>>::leaves(&callback, before, given, after, next) {
        assert(after.ops.drop_last() =~= before.ops);
    }
}

/// What the digits of `text` say.
pub open spec fn number_of(text: Seq<char>) -> nat
    decreases text.len(),
{
    if text.len() == 0 {
        0
    } else {
        number_of(text.drop_last()) * 10 + (text.last() as nat - '0' as nat) as nat
    }
}

/// A number is written in decimal digits that say it, without a leading zero. Two
/// numbers are never written alike.
pub proof fn lemma_decimal_says_the_number(value: nat)
    ensures
        number_of(decimal(value)) == value,
        decimal(value).len() > 0,
        value > 0 ==> decimal(value)[0] != '0',
        forall|i: int|
            0 <= i < decimal(value).len() ==> '0' <= #[trigger] decimal(value)[i] <= '9',
    decreases value,
{
    let text = decimal(value);
    assert('0' as nat == 48 && '9' as nat == 57);
    if value < 10 {
        assert(text.drop_last() =~= Seq::<char>::empty());
        assert(number_of(text.drop_last()) == 0);
    } else {
        lemma_decimal_says_the_number(value / 10);
        let front = decimal(value / 10);
        assert(text.drop_last() =~= front);
        assert(text[0] == front[0]);
        assert forall|i: int| 0 <= i < text.len() implies '0' <= #[trigger] text[i] <= '9' by {
            if i < front.len() {
                assert(text[i] == front[i]);
            }
        }
        assert(value == (value / 10) * 10 + value % 10) by (nonlinear_arith);
    }
}

/// Joined texts stand one behind the other with the separator between them, and nowhere
/// else.
pub proof fn lemma_joined_text(
    first: Seq<Seq<char>>,
    second: Seq<Seq<char>>,
    only: Seq<char>,
    separator: Seq<char>,
)
    ensures
        joined_text(Seq::empty(), separator).len() == 0,
        joined_text(seq![only], separator) == only,
        first.len() > 0 && second.len() > 0 ==> joined_text(first + second, separator)
            == joined_text(first, separator) + separator + joined_text(second, separator),
    decreases second.len(),
{
    if first.len() > 0 && second.len() > 0 {
        let all = first + second;
        assert(all.last() == second.last());
        if second.len() == 1 {
            assert(all.drop_last() =~= first);
        } else {
            assert(all.drop_last() =~= first + second.drop_last());
            lemma_joined_text(first, second.drop_last(), only, separator);
            assert(joined_text(all, separator) =~= joined_text(first, separator) + separator
                + joined_text(second, separator));
        }
    }
}

/// A name ends with a suffix exactly when it is something followed by it.
pub proof fn lemma_ends_with(name: Seq<char>, suffix: Seq<char>, front: Seq<char>)
    ensures
        name == front + suffix ==> ends_with(name, suffix),
        ends_with(name, suffix) ==> name == name.take(name.len() - suffix.len()) + suffix,
{
    if name == front + suffix {
        assert(name.skip(name.len() - suffix.len()) =~= suffix);
    }
    if ends_with(name, suffix) {
        assert(name =~= name.take(name.len() - suffix.len()) + name.skip(
            name.len() - suffix.len(),
        ));
    }
}

/// The system that is named by a suffix is the first, in order of registration, whose
/// name ends with it.
pub proof fn lemma_named_is_the_first(systems: Seq<SystemModel>, suffix: Seq<char>, from: int)
    requires
        0 <= from,
    ensures
        named(systems, suffix, from) is None <==> forall|i: int|
            from <= i < systems.len() ==> !ends_with((#[trigger] systems[i]).name, suffix),
        named(systems, suffix, from) matches Some(at) ==> from <= at < systems.len() && ends_with(
            systems[at].name,
            suffix,
        ) && forall|i: int|
            from <= i < at ==> !ends_with((#[trigger] systems[i]).name, suffix),
    decreases systems.len() - from,
{
    if from < systems.len() {
        lemma_named_is_the_first(systems, suffix, from + 1);
        let own = systems[from];
    }
}

/// Every row that a system matches is either memoized or due.
pub proof fn lemma_matched_rows_are_memoized_or_due<C: RelationshipTarget>(
    system: SystemId,
    world: WorldModel<C>,
    memo: Map<Invocation, MemoModel>,
    params: Seq<ParamModel>,
    states: Seq<Seq<RowState>>,
)
    ensures
        memoized_count(system, world, memo, params, states) + to_run(
            system,
            world,
            memo,
            params,
            states,
        ).len() == states.len(),
    decreases states.len(),
{
    if states.len() > 0 {
        lemma_matched_rows_are_memoized_or_due(system, world, memo, params, states.drop_last());
    }
}

/// What a report says: how many rows a system matches, how many of them would not run
/// again, and whether a store that one of its views reads moved on after a run of it was
/// planned.
pub proof fn lemma_report_counts_rows<C: RelationshipTarget>(
    state: StateModel<C>,
    at: int,
    report: ExplainReport,
    kind: ComponentId,
    owner: Invocation,
)
    requires
        0 <= at < state.systems.len(),
        state.systems[at].id == SystemId(at as usize),
        report_of(state, at, report),
    ensures
        ({
            let system = state.systems[at];
            let world = state.world.snapshot();
            let states = system_states(world, system.params)->Ok_0;
            &&& report.registered
            &&& report.phase == Some(system.phase)
            &&& report.matched_rows == states.len()
            &&& report.matched_rows - report.memoized_rows == to_run(
                system.id,
                world,
                state.memo,
                system.params,
                states,
            ).len()
            &&& (exists|i: int|
                0 <= i < system.views.len() && (#[trigger] system.views[i]).contains(kind))
                && state.memo.contains_key(owner) && owner.system == system.id && world.column(
                kind,
            ).watermark > state.memo[owner].planned_revision ==> report.stale_views > 0
            &&& report.stale_views > 0 ==> exists|moved: ComponentId, run: Invocation|
                #![trigger world.column(moved), state.memo.contains_key(run)]
                state.memo.contains_key(run) && run.system == system.id && world.column(
                    moved,
                ).watermark > state.memo[run].planned_revision && exists|i: int|
                    0 <= i < system.views.len() && (#[trigger] system.views[i]).contains(moved)
        }),
{
    let system = state.systems[at];
    let world = state.world.snapshot();
    let states = system_states(world, system.params)->Ok_0;
    lemma_matched_rows_are_memoized_or_due(system.id, world, state.memo, system.params, states);
    let stale = stale_kinds(world, state.memo, system, SystemId(at as usize));
    let listed = sorted_keys(stale);
    crate::model::lemma_sorted_keys_list(stale);
    if stale.contains(kind) {
        assert(listed.to_set().contains(kind));
        assert(listed.contains(kind));
        assert(listed.len() > 0);
    }
    if listed.len() > 0 {
        let moved = listed[0];
        assert(listed.contains(moved));
        assert(listed.to_set().contains(moved));
        assert(stale.contains(moved));
        let watermark = world.column(moved).watermark;
        let run = choose|run: Invocation| #[trigger]
            state.memo.contains_key(run) && run.system == SystemId(at as usize) && watermark
                > state.memo[run].planned_revision;
        assert(state.memo.contains_key(run) && world.column(moved).watermark
            > state.memo[run].planned_revision);
    }
}

/// Time is charged to the system it was spent on, and to no other; a run counts when it
/// is ready.
pub proof fn lemma_charges_go_to_their_system(
    counters: Seq<SystemStats>,
    system: SystemId,
    nanos: u64,
    ready: bool,
    at: int,
)
    requires
        0 <= at < counters.len(),
        counters[at].plan_nanos + nanos <= u64::MAX,
        counters[at].run_nanos + nanos <= u64::MAX,
        counters[at].runs < u64::MAX,
    ensures
        planning_charged(counters, system, nanos).len() == counters.len(),
        poll_charged(counters, system, nanos, ready).len() == counters.len(),
        at != system.0 ==> planning_charged(counters, system, nanos)[at] == counters[at],
        at != system.0 ==> poll_charged(counters, system, nanos, ready)[at] == counters[at],
        at == system.0 ==> planning_charged(counters, system, nanos)[at] == (SystemStats {
            plan_nanos: (counters[at].plan_nanos + nanos) as u64,
            ..counters[at]
        }),
        at == system.0 ==> poll_charged(counters, system, nanos, ready)[at] == (SystemStats {
            run_nanos: (counters[at].run_nanos + nanos) as u64,
            runs: (counters[at].runs + if ready {
                1int
            } else {
                0int
            }) as u64,
            ..counters[at]
        }),
{
}

/// The slot of a fact, where its family has slots.
pub open spec fn slot_of(fact: FactModel) -> u32 {
    match fact {
        FactModel::Text { slot, .. } => slot,
        FactModel::Count { slot, .. } => slot,
        FactModel::Note { slot, .. } => slot,
        FactModel::Unique { slot, .. } => slot,
        FactModel::Link { slot, .. } => slot,
        FactModel::Linked { slot, .. } => slot,
        _ => 0,
    }
}

/// Whether two facts are of one family.
pub open spec fn same_family(a: FactModel, b: FactModel) -> bool {
    match (a, b) {
        (FactModel::Derived(_), FactModel::Derived(_)) => true,
        (FactModel::Text { .. }, FactModel::Text { .. }) => true,
        (FactModel::Count { .. }, FactModel::Count { .. }) => true,
        (FactModel::Note { .. }, FactModel::Note { .. }) => true,
        (FactModel::Unique { .. }, FactModel::Unique { .. }) => true,
        (FactModel::Link { .. }, FactModel::Link { .. }) => true,
        (FactModel::Linked { .. }, FactModel::Linked { .. }) => true,
        (FactModel::Ephemeral, FactModel::Ephemeral) => true,
        _ => false,
    }
}

/// Facts share a component type exactly when they are of one family and slot. Texts,
/// counts, links and inverses are tracked; only unique numbers are singletons, each slot
/// by itself.
pub proof fn lemma_families_of_facts(a: FactModel, b: FactModel)
    ensures
        <Fact as crate::component::Component>::kind(a)
            == <Fact as crate::component::Component>::kind(b) <==> same_family(a, b) && slot_of(a)
            == slot_of(b),
        <Fact as crate::component::Component>::tracks(
            <Fact as crate::component::Component>::kind(a),
        ) <==> a is Text || a is Count || a is Link || a is Linked,
        <Fact as crate::component::Component>::singleton(
            <Fact as crate::component::Component>::kind(a),
        ) is Some <==> a is Unique,
        a is Unique && b is Unique ==> (<Fact as crate::component::Component>::singleton(
            <Fact as crate::component::Component>::kind(a),
        ) == <Fact as crate::component::Component>::singleton(
            <Fact as crate::component::Component>::kind(b),
        ) <==> slot_of(a) == slot_of(b)),
        <Fact as RelationshipTarget>::is_inverse(<Fact as crate::component::Component>::kind(a))
            <==> a is Linked,
        <Fact as crate::component::Component>::stamp(a) is Some <==> a is Derived || a is Text
            || a is Link || a is Linked,
{
}

/// A link is listed by the inverse of its slot on its target, and an inverse retracts
/// the link of its slot from each of its members.
pub proof fn lemma_links_and_inverses(
    slot: u32,
    target: Entity,
    members: Seq<Entity>,
    at: int,
)
    requires
        0 <= at < members.len(),
    ensures
        ({
            let link = FactModel::Link { slot, target };
            let inverse = FactModel::Linked { slot, members };
            let kind = <Fact as crate::component::Component>::kind(inverse);
            &&& <Fact as crate::component::Component>::edge(link) matches Some(edge) && edge.target
                == target && edge.inverse == kind
            &&& <Fact as crate::component::Component>::edge(inverse) is None
            &&& <Fact as RelationshipTarget>::edge_of(kind)
                == <Fact as crate::component::Component>::kind(link)
            &&& <Fact as RelationshipTarget>::inverse_fact(kind, members) == inverse
            &&& <Fact as RelationshipTarget>::sources(inverse) == members
            &&& <Fact as crate::component::Component>::retracts(inverse).len() == members.len()
            &&& <Fact as crate::component::Component>::retracts(inverse)[at].source == members[at]
            &&& <Fact as crate::component::Component>::retracts(inverse)[at].edge
                == <Fact as crate::component::Component>::kind(link)
        }),
{
}

/// The fingerprint of a fact is the hash of all that it says: the bytes of a text, the
/// target of a link, the members of an inverse, the anchors of a marker.
pub proof fn lemma_fingerprints_of_facts(
    slot: u32,
    text: Seq<u8>,
    target: Entity,
    members: Seq<Entity>,
    anchors: Seq<crate::component::DerivedAnchor>,
)
    ensures
        <Fact as crate::component::Component>::stamp(FactModel::Text { slot, text }) == Some(
            crate::component::hash_of(text),
        ),
        <Fact as crate::component::Component>::stamp(FactModel::Link { slot, target }) == Some(
            crate::component::hash_of(crate::facts::entity_bytes(seq![target])),
        ),
        <Fact as crate::component::Component>::stamp(FactModel::Linked { slot, members }) == Some(
            crate::component::hash_of(crate::facts::entity_bytes(members)),
        ),
        <Fact as crate::component::Component>::stamp(FactModel::Derived(anchors)) == Some(
            crate::component::hash_of(crate::component::anchor_bytes(anchors)),
        ),
{
}

/// Facts are equal only to themselves. Numbers of one family and slot compare as numbers;
/// anything else is at least itself alone.
pub proof fn lemma_facts_compare(a: FactModel, b: FactModel)
    ensures
        <Fact as crate::component::ComparableComponent>::equal(a, b) <==> a == b,
        <Fact as crate::component::ComparableComponent>::at_least(a, a),
        !same_family(a, b) || slot_of(a) != slot_of(b)
            ==> !<Fact as crate::component::ComparableComponent>::at_least(a, b),
        a is Count && b is Count && slot_of(a) == slot_of(b) ==> (
        <Fact as crate::component::ComparableComponent>::at_least(a, b) <==> a->Count_value
            >= b->Count_value),
        a is Note && b is Note && slot_of(a) == slot_of(b) ==> (
        <Fact as crate::component::ComparableComponent>::at_least(a, b) <==> a->Note_value
            >= b->Note_value),
        a is Unique && b is Unique && slot_of(a) == slot_of(b) ==> (
        <Fact as crate::component::ComparableComponent>::at_least(a, b) <==> a->Unique_value
            >= b->Unique_value),
        !(a is Count || a is Note || a is Unique) ==> (
        <Fact as crate::component::ComparableComponent>::at_least(a, b) <==> a == b),
{
}

} // verus!
