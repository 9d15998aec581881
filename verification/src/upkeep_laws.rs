//! What cleaning up removes, what registration makes of a system, and what a caller that
//! walks over rows leaves behind.

use crate::bowl::{answered, copied, stepped, walked};
use crate::commands::OpModel;
use crate::component::{ComponentId, RelationshipEdge, RelationshipRetraction, RelationshipTarget};
use crate::config::{
    cleanup_ops, FunctionSystem, FunctionSystemMarker, IntoSystem, OnComplete, OnCompleteMarker,
    OnSettled, OnSettledMarker, OnStart, OnStartMarker, RunDuring, RunDuringMarker,
};
use crate::conformance::{covers, missing, shape_refused, ShapeError};
use crate::declare::{DeclarationList, ShapeDesc};
use crate::entity::Entity;
use crate::invocation::{Invocation, SystemId};
use crate::memo::MemoModel;
use crate::model::{Cell, WorldModel};
use crate::param::params_view;
use crate::registry::SystemModel;
use crate::schedule_laws::{lemma_what_is_accepted, well_bound};
use crate::seq_laws::{lemma_last, lemma_pushed};
use crate::state::cleanup::{cleaned, swept_outwards};
use crate::state::take::cleaned_each;
use crate::state::StateModel;
use crate::system::{Phase, Wrapper};
use crate::text::texts_view;
use crate::world_laws::{lemma_drop_entry_entry, lemma_members_touch_one_cell, lemma_update_advances};
use crate::write_laws::lemma_write_in_place_is_local;
use vstd::prelude::*;

verus! {

/// Whether every component of `after` was there before.
pub open spec fn fewer<C: RelationshipTarget>(
    before: WorldModel<C>,
    after: WorldModel<C>,
) -> bool {
    forall|kind: ComponentId, entity: Entity|
        (#[trigger] after.entry(kind, entity)) is Some ==> before.entry(kind, entity) is Some
}

proof fn lemma_retract_edge_removes<C: RelationshipTarget>(
    world: WorldModel<C>,
    source: Entity,
    edge: Option<RelationshipEdge>,
)
    requires
        edge matches Some(edge) ==> C::is_inverse(edge.inverse),
    ensures
        fewer(world, world.retract_edge(source, edge)),
{
    if let Some(edge) = edge {
        let after = world.remove_member(edge.inverse, source, edge.target);
        assert forall|kind: ComponentId, entity: Entity|
            (#[trigger] after.entry(kind, entity)) is Some implies world.entry(kind, entity)
            is Some by {
            if kind != edge.inverse || entity.id() != edge.target.id() {
                lemma_members_touch_one_cell(
                    world,
                    edge.inverse,
                    source,
                    edge.target,
                    kind,
                    entity,
                );
            } else {
                crate::entity::lemma_entity_is_its_id(entity, edge.target);
            }
        }
    }
}

proof fn lemma_edge_at_names_an_inverse<C: RelationshipTarget>(
    world: WorldModel<C>,
    kind: ComponentId,
    entity: Entity,
)
    ensures
        world.edge_at(kind, entity) matches Some(edge) ==> C::is_inverse(edge.inverse),
{
    if let Some(entry) = world.entry(kind, entity) {
        C::edge_laws(entry.value);
    }
}

proof fn lemma_dropping_removes<C: RelationshipTarget>(
    world: WorldModel<C>,
    kind: ComponentId,
    entity: Entity,
)
    ensures
        fewer(world, world.drop_entry(kind, entity)),
        fewer(world, world.remove_flat(kind, entity)),
        fewer(world, world.drop_row(kind, entity)),
{
    let dropped = world.drop_entry(kind, entity);
    assert forall|k: ComponentId, e: Entity|
        (#[trigger] dropped.entry(k, e)) is Some implies world.entry(k, e) is Some by {
        lemma_drop_entry_entry(world, kind, entity, k, e);
    }
    let flat = world.remove_flat(kind, entity);
    assert forall|k: ComponentId, e: Entity|
        (#[trigger] flat.entry(k, e)) is Some implies world.entry(k, e) is Some by {
        assert(flat.entry(k, e) == world.entry(k, e) || flat.entry(k, e) == dropped.entry(k, e));
    }
    let row = world.drop_row(kind, entity);
    assert forall|k: ComponentId, e: Entity|
        (#[trigger] row.entry(k, e)) is Some implies world.entry(k, e) is Some by {
        assert(row.entry(k, e) == world.entry(k, e) || row.entry(k, e) == dropped.entry(k, e));
    }
}

/// Removing a component only removes: nothing appears anywhere.
pub proof fn lemma_component_removal_only_removes<C: RelationshipTarget>(
    world: WorldModel<C>,
    kind: ComponentId,
    entity: Entity,
)
    ensures
        fewer(world, world.remove_component(kind, entity)),
{
    lemma_dropping_removes(world, kind, entity);
    lemma_edge_at_names_an_inverse(world, kind, entity);
    lemma_retract_edge_removes(
        world.remove_flat(kind, entity),
        entity,
        world.edge_at(kind, entity),
    );
    let flat = world.remove_flat(kind, entity);
    let after = world.remove_component(kind, entity);
    assert forall|k: ComponentId, e: Entity|
        (#[trigger] after.entry(k, e)) is Some implies world.entry(k, e) is Some by {
        assert(flat.entry(k, e) is Some);
    }
}

proof fn lemma_drop_rows_removes<C: RelationshipTarget>(
    world: WorldModel<C>,
    kinds: Seq<ComponentId>,
    entity: Entity,
)
    ensures
        fewer(world, world.drop_rows(kinds, entity)),
    decreases kinds.len(),
{
    if kinds.len() > 0 {
        let done = world.drop_rows(kinds.drop_last(), entity);
        lemma_drop_rows_removes(world, kinds.drop_last(), entity);
        lemma_dropping_removes(done, kinds.last(), entity);
        let after = world.drop_rows(kinds, entity);
        assert forall|k: ComponentId, e: Entity|
            (#[trigger] after.entry(k, e)) is Some implies world.entry(k, e) is Some by {
            assert(done.entry(k, e) is Some);
        }
    }
}

proof fn lemma_retract_edges_removes<C: RelationshipTarget>(
    world: WorldModel<C>,
    source: Entity,
    edges: Seq<RelationshipEdge>,
)
    requires
        forall|i: int| 0 <= i < edges.len() ==> C::is_inverse((#[trigger] edges[i]).inverse),
    ensures
        fewer(world, world.retract_edges(source, edges)),
    decreases edges.len(),
{
    if edges.len() > 0 {
        let rest = edges.drop_last();
        assert forall|i: int| 0 <= i < rest.len() implies C::is_inverse(
            (#[trigger] rest[i]).inverse,
        ) by {
            assert(rest[i] == edges[i]);
        }
        lemma_retract_edges_removes(world, source, rest);
        let done = world.retract_edges(source, rest);
        assert(C::is_inverse(edges[edges.len() - 1].inverse));
        lemma_retract_edge_removes(done, source, Some(edges.last()));
        let after = world.retract_edges(source, edges);
        assert forall|k: ComponentId, e: Entity|
            (#[trigger] after.entry(k, e)) is Some implies world.entry(k, e) is Some by {
            assert(done.entry(k, e) is Some);
        }
    }
}

proof fn lemma_retract_sources_removes<C: RelationshipTarget>(
    world: WorldModel<C>,
    retractions: Seq<RelationshipRetraction>,
)
    ensures
        fewer(world, world.retract_sources(retractions)),
    decreases retractions.len(),
{
    if retractions.len() > 0 {
        let done = world.retract_sources(retractions.drop_last());
        lemma_retract_sources_removes(world, retractions.drop_last());
        lemma_component_removal_only_removes(
            done,
            retractions.last().edge,
            retractions.last().source,
        );
        let after = world.retract_sources(retractions);
        assert forall|k: ComponentId, e: Entity|
            (#[trigger] after.entry(k, e)) is Some implies world.entry(k, e) is Some by {
            assert(done.entry(k, e) is Some);
        }
    }
}

/// Removing an entity only removes: nothing appears anywhere.
pub proof fn lemma_entity_removal_only_removes<C: RelationshipTarget>(
    world: WorldModel<C>,
    entity: Entity,
)
    ensures
        fewer(world, world.remove_entity(entity)),
{
    let kinds = world.kinds();
    lemma_drop_rows_removes(world, kinds, entity);
    let dropped = world.drop_rows(kinds, entity);
    let gone = dropped.forget(entity);
    let edges = world.edges_on(kinds, entity);
    crate::effect_laws::lemma_edges_on(world, kinds, entity);
    lemma_retract_edges_removes(gone, entity, edges);
    let left = gone.retract_edges(entity, edges);
    let retractions = world.retractions_on(kinds, entity);
    lemma_retract_sources_removes(left, retractions);
    let after = world.remove_entity(entity);
    assert forall|k: ComponentId, e: Entity|
        (#[trigger] after.entry(k, e)) is Some implies world.entry(k, e) is Some by {
        assert(left.entry(k, e) is Some);
        assert(gone.entry(k, e) is Some);
        assert(dropped.entry(k, e) is Some);
    }
}

proof fn lemma_remove_each_owned_removes<C: RelationshipTarget>(
    world: WorldModel<C>,
    owner: Invocation,
    cells: Seq<Cell>,
)
    ensures
        fewer(world, world.remove_each_owned(owner, cells)),
    decreases cells.len(),
{
    if cells.len() > 0 {
        let done = world.remove_each_owned(owner, cells.drop_last());
        let cell = cells.last();
        lemma_remove_each_owned_removes(world, owner, cells.drop_last());
        lemma_dropping_removes(done, cell.0, cell.1);
        lemma_edge_at_names_an_inverse(done, cell.0, cell.1);
        let dropped = done.drop_entry(cell.0, cell.1);
        let noted = dropped.due(crate::model::Hook::Remove, cell.0, cell.1);
        lemma_retract_edge_removes(noted, cell.1, done.edge_at(cell.0, cell.1));
        let after = world.remove_each_owned(owner, cells);
        assert forall|k: ComponentId, e: Entity|
            (#[trigger] after.entry(k, e)) is Some implies world.entry(k, e) is Some by {
            if done.owns(owner, cell) {
                assert(noted.entry(k, e) is Some);
                assert(dropped.entry(k, e) is Some);
            }
            assert(done.entry(k, e) is Some);
        }
    }
}

proof fn lemma_remove_derived_of_removes<C: RelationshipTarget>(
    world: WorldModel<C>,
    owners: Seq<Invocation>,
)
    ensures
        fewer(world, world.remove_derived_of(owners)),
    decreases owners.len(),
{
    if owners.len() > 0 {
        let done = world.remove_derived_of(owners.drop_last());
        let owner = owners.last();
        lemma_remove_derived_of_removes(world, owners.drop_last());
        let start = WorldModel {
            spawns: done.spawns.remove(owner),
            owned: done.owned.remove(owner),
            ..done
        };
        lemma_remove_each_owned_removes(
            start,
            owner,
            crate::model::outputs(done.owned, owner),
        );
        let after = world.remove_derived_of(owners);
        assert forall|k: ComponentId, e: Entity|
            (#[trigger] after.entry(k, e)) is Some implies world.entry(k, e) is Some by {
            assert(start.entry(k, e) is Some);
            assert(done.entry(k, e) is Some);
        }
    }
}

proof fn lemma_swept_outwards_removes<C: RelationshipTarget>(
    world: WorldModel<C>,
    memo: Map<Invocation, MemoModel>,
    frontier: Seq<Entity>,
    seen: Seq<Entity>,
    rounds: Seq<Seq<Invocation>>,
)
    requires
        swept_outwards(world, memo, frontier, seen, rounds) is Some,
    ensures
        fewer(world, swept_outwards(world, memo, frontier, seen, rounds)->Some_0.0),
    decreases rounds.len(),
{
    if frontier.len() > 0 {
        let owners = rounds[0];
        let further = crate::state::cleanup::unseen(
            crate::world::swept_each(world, owners),
            seen,
        );
        let swept = world.remove_derived_of(owners);
        lemma_remove_derived_of_removes(world, owners);
        lemma_swept_outwards_removes(
            swept,
            crate::invocation::untouched(memo, frontier),
            further,
            seen + further,
            rounds.drop_first(),
        );
        let after = swept_outwards(world, memo, frontier, seen, rounds)->Some_0.0;
        assert forall|k: ComponentId, e: Entity|
            (#[trigger] after.entry(k, e)) is Some implies world.entry(k, e) is Some by {
            assert(swept.entry(k, e) is Some);
        }
    }
}

/// Cleaning up an entity only removes: nothing appears anywhere.
pub proof fn lemma_cleaning_only_removes<C: RelationshipTarget>(
    before: StateModel<C>,
    after: StateModel<C>,
    entity: Entity,
)
    requires
        cleaned(before, after, entity),
    ensures
        fewer(before.world, after.world),
{
    let rounds = choose|rounds: Seq<Seq<Invocation>>|
        #![trigger swept_outwards(before.world, before.memo, seq![entity], Seq::empty(), rounds)]
        swept_outwards(before.world, before.memo, seq![entity], Seq::empty(), rounds) matches Some(
            swept,
        ) && after == crate::state::cleanup::uprooted(before, swept.0, swept.1, entity);
    lemma_swept_outwards_removes(
        before.world,
        before.memo,
        seq![entity],
        Seq::empty(),
        rounds,
    );
    let world = swept_outwards(
        before.world,
        before.memo,
        seq![entity],
        Seq::empty(),
        rounds,
    )->Some_0.0;
    lemma_entity_removal_only_removes(world, entity);
    let removed = world.remove_entity(entity);
    lemma_remove_derived_of_removes(removed, world.owners_on(world.kinds(), entity));
    assert forall|k: ComponentId, e: Entity|
        (#[trigger] after.world.entry(k, e)) is Some implies before.world.entry(k, e) is Some by {
        assert(removed.entry(k, e) is Some);
        assert(world.entry(k, e) is Some);
    }
}

/// Every entity that was to be cleaned up is gone, and nothing appeared.
pub proof fn lemma_cleaned_entities_are_gone<C: RelationshipTarget>(
    before: StateModel<C>,
    after: StateModel<C>,
    entities: Seq<Entity>,
    entity: Entity,
    kind: ComponentId,
)
    requires
        cleaned_each(before, after, entities),
    ensures
        fewer(before.world, after.world),
        entities.contains(entity) ==> after.world.entry(kind, entity) is None,
    decreases entities.len(),
{
    if entities.len() > 0 {
        let middle = choose|middle: StateModel<C>|
            cleaned_each(before, middle, entities.drop_last()) && #[trigger] cleaned(
                middle,
                after,
                entities.last(),
            );
        lemma_cleaned_entities_are_gone(before, middle, entities.drop_last(), entity, kind);
        lemma_cleaning_only_removes(middle, after, entities.last());
        lemma_last(entities, entity);
        assert forall|k: ComponentId, e: Entity|
            (#[trigger] after.world.entry(k, e)) is Some implies before.world.entry(k, e)
            is Some by {
            assert(middle.world.entry(k, e) is Some);
        }
        if entities.last() == entity {
            let row = Invocation { system: SystemId(0), keys: seq![entity] };
            assert(row.keys[0] == entity);
            crate::state::cleanup::lemma_cleaned_entity_is_gone(middle, after, entity, row);
            assert(!after.world.has(kind, entity));
        } else if entities.contains(entity) {
            assert(after.world.entry(kind, entity) is Some ==> middle.world.entry(kind, entity)
                is Some);
        }
    }
}

/// Whether the marker on `entity` is out of date: it has no anchor, or one whose entity
/// has no revision now or another than the marker recorded.
pub open spec fn out_of_date<C: RelationshipTarget>(
    world: WorldModel<C>,
    entity: Entity,
) -> bool {
    world.entry(C::anchor_kind(), entity) matches Some(entry) && (C::anchored(
        entry.value,
    ) matches Some(anchors) && (anchors.len() == 0 || exists|i: int|
        0 <= i < anchors.len() && ((#[trigger] anchors[i]).revision is None || anchors[i].revision
            != world.entity_revision(anchors[i].entity))))
}

/// The cleanup of derived entities removes exactly those whose marker is out of date, and
/// does nothing else.
pub proof fn lemma_cleanup_removes_what_is_out_of_date<C: RelationshipTarget>(
    world: WorldModel<C>,
    entities: Seq<Entity>,
    entity: Entity,
    op: OpModel<C>,
)
    ensures
        cleanup_ops(world, entities).contains(op) ==> op is RemoveEntity,
        cleanup_ops(world, entities).contains(OpModel::<C>::RemoveEntity { entity })
            <==> entities.contains(entity) && out_of_date(world, entity),
    decreases entities.len(),
{
    if entities.len() > 0 {
        let rest = entities.drop_last();
        let last = entities.last();
        lemma_cleanup_removes_what_is_out_of_date(world, rest, entity, op);
        lemma_last(entities, entity);
        let own = OpModel::<C>::RemoveEntity { entity: last };
        lemma_pushed(cleanup_ops(world, rest), own, op);
        lemma_pushed(cleanup_ops(world, rest), own, OpModel::<C>::RemoveEntity { entity });
        assert(crate::config::outdated(world, last) <==> out_of_date(world, last)) by {
            if let Some(entry) = world.entry(C::anchor_kind(), last) {
                if let Some(anchors) = C::anchored(entry.value) {
                    let now = world.anchor_revisions(anchors);
                    if exists|i: int|
                        0 <= i < anchors.len() && ((#[trigger] anchors[i]).revision is None
                            || anchors[i].revision != world.entity_revision(anchors[i].entity)) {
                        let i = choose|i: int|
                            0 <= i < anchors.len() && ((#[trigger] anchors[i]).revision is None
                                || anchors[i].revision != world.entity_revision(
                                anchors[i].entity,
                            ));
                        assert(now[i] == world.entity_revision(anchors[i].entity));
                    }
                }
            }
        }
    }
}

/// A function is registered exactly when each of its parameters may stand next to the
/// others. It is then an evaluate system under its number, without hooks, that was never
/// planned: its first plan is a full one.
pub proof fn lemma_registered_function<K>(
    system: FunctionSystem,
    id: SystemId,
    log: Seq<Cell>,
    epoch: u64,
)
    requires
        epoch != u64::MAX,
    ensures
        ({
            let made = <FunctionSystem as IntoSystem<K, FunctionSystemMarker>>::registered(
                system,
                id,
            );
            let params = params_view(system.params@);
            &&& made is Ok <==> forall|i: int|
                0 <= i < params.len() ==> #[trigger] well_bound(params, i)
            &&& made matches Ok(made) ==> {
                &&& made.id == id
                &&& made.name == system.name@
                &&& made.params == params
                &&& made.phase == Phase::Evaluate
                &&& made.wrappers.len() == 0
                &&& made.forced.len() == 0
                &&& made.mark == 0
                &&& made.hint(log, epoch) is None
            }
        }),
{
    lemma_what_is_accepted(params_view(system.params@));
}

/// A hook is added to a system that is accepted without it: it stands outermost, and its
/// callback behind those of the system.
pub proof fn lemma_registered_hooks<S, K, D, M>(
    start: OnStart<S, K, D>,
    complete: OnComplete<S, K, D>,
    settled: OnSettled<S, K, D>,
    id: SystemId,
) where S: IntoSystem<K, M>, D: DeclarationList
    ensures
        hook_added(
            start.system.registered(id),
            <OnStart<S, K, D> as IntoSystem<K, (OnStartMarker, M)>>::registered(start, id),
            Wrapper::Start,
        ),
        hook_added(
            complete.system.registered(id),
            <OnComplete<S, K, D> as IntoSystem<K, (OnCompleteMarker, M)>>::registered(
                complete,
                id,
            ),
            Wrapper::Complete,
        ),
        hook_added(
            settled.system.registered(id),
            <OnSettled<S, K, D> as IntoSystem<K, (OnSettledMarker, M)>>::registered(settled, id),
            Wrapper::Settled,
        ),
        <OnStart<S, K, D> as IntoSystem<K, (OnStartMarker, M)>>::callbacks(start)
            == start.system.callbacks().push(start.callback),
        <OnComplete<S, K, D> as IntoSystem<K, (OnCompleteMarker, M)>>::callbacks(complete)
            == complete.system.callbacks().push(complete.callback),
        <OnSettled<S, K, D> as IntoSystem<K, (OnSettledMarker, M)>>::callbacks(settled)
            == settled.system.callbacks().push(settled.callback),
{
}

/// Whether `after` is `before` with `wrapper` around it.
pub open spec fn hook_added(
    before: Result<SystemModel, crate::param::BindingError>,
    after: Result<SystemModel, crate::param::BindingError>,
    wrapper: Wrapper,
) -> bool {
    match (before, after) {
        (Ok(before), Ok(after)) => {
            &&& after.wrappers == before.wrappers.push(wrapper)
            &&& after.id == before.id
            &&& after.name == before.name
            &&& after.params == before.params
            &&& after.phase == before.phase
            &&& after.interest == before.interest
            &&& after.mark == 0
            &&& after.epoch == u64::MAX
        },
        (Err(before), Err(after)) => after == before,
        _ => false,
    }
}

/// A system that is given a phase runs in that phase; nothing else about it changes.
pub proof fn lemma_registered_phase<S, K, M>(system: RunDuring<S>, id: SystemId) where
    S: IntoSystem<K, M>,

    ensures
        ({
            let plain = system.system.registered(id);
            let made = <RunDuring<S> as IntoSystem<K, (RunDuringMarker, M)>>::registered(
                system,
                id,
            );
            &&& made is Ok <==> plain is Ok
            &&& made matches Ok(made) ==> {
                &&& made.phase == system.phase
                &&& made == (SystemModel { phase: system.phase, ..plain->Ok_0 })
            }
            &&& <RunDuring<S> as IntoSystem<K, (RunDuringMarker, M)>>::callbacks(system)
                == system.system.callbacks()
        }),
{
}

/// Removing the component that holds a singleton key frees the key, so that the next
/// insert may go to any entity; other keys stay where they are.
pub proof fn lemma_removed_singleton_is_free<C: RelationshipTarget>(
    world: WorldModel<C>,
    kind: ComponentId,
    entity: Entity,
    key: ComponentId,
    other: ComponentId,
)
    requires
        C::singleton(kind) == Some(key),
        world.entry(kind, entity) is Some,
        world.singletons.contains_key(key),
        world.singletons[key] == entity.id(),
        other != key,
    ensures
        ({
            let after = world.remove_flat(kind, entity);
            &&& !after.singletons.contains_key(key)
            &&& after.singletons.contains_key(other) <==> world.singletons.contains_key(other)
            &&& world.singletons.contains_key(other) ==> after.singletons[other]
                == world.singletons[other]
        }),
{
}

/// Why a write does not conform is told in one way only: of the shapes that cover it, the
/// first that lacks least; where none does, the first that covers most.
pub proof fn lemma_refusals_agree<C: RelationshipTarget>(
    world: WorldModel<C>,
    schema: Seq<ShapeDesc>,
    entity: Entity,
    kinds: Seq<ComponentId>,
    a: ShapeError,
    b: ShapeError,
    at: int,
)
    requires
        shape_refused(world, schema, entity, kinds, a),
        shape_refused(world, schema, entity, kinds, b),
    ensures
        a is Incomplete <==> b is Incomplete,
        a is Unmatched <==> b is Unmatched,
        a matches ShapeError::Incomplete { shape, missing: names } ==> b->Incomplete_shape == shape
            && texts_view(names@) == texts_view(b->Incomplete_missing@),
        a matches ShapeError::Unmatched { shape, .. } ==> b->Unmatched_shape == shape,
        a is Incomplete && 0 <= at < schema.len() && covers(schema[at], kinds)
            ==> a->Incomplete_missing@.len() <= missing(
            world,
            schema[at].required@,
            entity,
        ).len(),
        a is NoShapes <==> schema.len() == 0,
{
    if let ShapeError::Incomplete { shape, missing: names } = a {
        let own = schema[shape as int];
        assert(texts_view(names@).len() == names@.len());
        if let ShapeError::Incomplete { shape: other, missing: theirs } = b {
            let their = schema[other as int];
            assert(texts_view(theirs@).len() == theirs@.len());
        }
    }
    if let ShapeError::Incomplete { shape: other, missing: theirs } = b {
        let their = schema[other as int];
    }
    if let ShapeError::Unmatched { shape, extra } = a {
        let own = schema[shape as int];
    }
    if let ShapeError::Unmatched { shape: other, extra } = b {
        let their = schema[other as int];
    }
}

proof fn lemma_copied_stays_consistent<C: RelationshipTarget>(
    state: StateModel<C>,
    entity: Entity,
    fact: C::Model,
)
    requires
        state.world.consistent(),
    ensures
        copied(state, entity, fact).world.consistent(),
{
    let unshared = state.world.unshared(C::kind(fact), entity);
    assert(unshared.consistent()) by {
        if let Some(entry) = state.world.entry(C::kind(fact), entity) {
            assert(C::kind(entry.value) == C::kind(fact));
        }
    }
    lemma_update_advances(unshared, entity, fact);
}

/// A caller that walks over rows and answers each with a value of the component it walks
/// over writes these answers, each to its row and on top of the value that stood there,
/// and nothing else but inverses.
pub proof fn lemma_walk_writes_its_answers<C: RelationshipTarget, Func: Fn(Entity, &C) -> C>(
    func: Func,
    kind: ComponentId,
    before: StateModel<C>,
    after: StateModel<C>,
    rows: Seq<Entity>,
    other_kind: ComponentId,
    other: Entity,
)
    requires
        walked(func, kind, before, after, rows),
        before.world.consistent(),
        rows.no_duplicates(),
        !C::is_inverse(kind),
        !C::is_inverse(other_kind),
        forall|row: Entity, seen: C, value: C| #[trigger]
            call_ensures(func, (row, &seen), value) ==> C::kind(value.model()) == kind,
    ensures
        after.world.consistent(),
        !(other_kind == kind && rows.contains(other)) ==> after.world.entry(other_kind, other)
            == before.world.entry(other_kind, other),
        rows.contains(other) ==> match before.world.entry(kind, other) {
            None => after.world.entry(kind, other) is None,
            Some(old) => exists|value: C| #[trigger]
                answered(func, other, old.value, value) && (after.world.entry(
                    kind,
                    other,
                ) matches Some(entry) && entry.value == value.model() && entry.owner == old.owner
                    && entry.origin == old.origin),
        },
    decreases rows.len(),
{
    if rows.len() > 0 {
        let rest = rows.drop_last();
        let row = rows.last();
        let middle = choose|middle: StateModel<C>|
            walked(func, kind, before, middle, rest) && #[trigger] stepped(
                func,
                kind,
                middle,
                after,
                row,
            );
        lemma_walk_writes_its_answers(func, kind, before, middle, rest, other_kind, other);
        lemma_walk_writes_its_answers(func, kind, before, middle, rest, kind, row);
        lemma_last(rows, other);
        assert(!rest.contains(row)) by {
            if rest.contains(row) {
                let i = choose|i: int| 0 <= i < rest.len() && rest[i] == row;
                assert(rows[i] == rows[rows.len() - 1]);
            }
        }
        if let Some(entry) = middle.world.entry(kind, row) {
            let value = choose|value: C| #[trigger]
                answered(func, row, entry.value, value) && after == copied(
                    middle,
                    row,
                    value.model(),
                );
            let seen = choose|seen: C|
                (#[trigger] seen.model()) == entry.value && call_ensures(func, (row, &seen), value);
            assert(C::kind(value.model()) == kind);
            lemma_copied_stays_consistent(middle, row, value.model());
            let written = middle.world.update_copied(row, value.model());
            lemma_write_in_place_is_local(middle.world, row, value.model(), other_kind, other);
            lemma_write_in_place_is_local(middle.world, row, value.model(), kind, other);
            assert(written.entry(other_kind, other) is Some
                <==> middle.world.entry(other_kind, other) is Some);
            assert(written.entry(kind, other) is Some <==> middle.world.entry(kind, other) is Some);
            assert(after.world.entry(other_kind, other) == written.entry(other_kind, other));
            assert(after.world.entry(kind, other) == written.entry(kind, other));
            if other == row {
                assert(before.world.entry(kind, row) == Some(entry));
                assert(answered(func, other, entry.value, value));
            } else if rest.contains(other) {
                if let Some(old) = before.world.entry(kind, other) {
                    let earlier = choose|earlier: C| #[trigger]
                        answered(func, other, old.value, earlier) && (middle.world.entry(
                            kind,
                            other,
                        ) matches Some(found) && found.value == earlier.model() && found.owner
                            == old.owner && found.origin == old.origin);
                    assert(answered(func, other, old.value, earlier));
                    assert(after.world.entry(kind, other) == middle.world.entry(kind, other));
                }
            }
        }
    }
}

} // verus!
