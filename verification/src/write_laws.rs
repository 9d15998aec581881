//! What writes do: each is read back, nothing else moves, and what an invocation
//! derives is replaced as a unit.

use crate::commands::{
    apply_base_ops, apply_op, apply_ops, insert_facts, refused, registered, singleton_keys,
    spawn_target, BaseOpModel, OpModel,
};
use crate::commit::{immediate, replace_outputs};
use crate::component::{captured, ComponentId, RelationshipEdge, RelationshipRetraction, RelationshipTarget};
use crate::entity::Entity;
use crate::invocation::{untouched, Invocation};
use crate::memo::MemoModel;
use crate::model::{outputs, unindex_cell, Cell, Hook, Origin, PendingAnchor, WorldModel};
use crate::ownership_laws::{
    accounted, exact, lemma_flush_accounted, lemma_insert_accounted,
    lemma_output_replacement_is_exact, lemma_remove_component_accounted,
    lemma_remove_entity_accounted,
};
use crate::seq_laws::{lemma_last, lemma_pushed};
use crate::state::cleanup::{cleaned, forgotten, swept_outwards};
use crate::state::inputs::bundle_inputs;
use crate::state::StateModel;
use crate::system::OutputModel;
use crate::world_laws::{
    lemma_drop_entry_entry, lemma_insert_advances, lemma_members_touch_one_cell, lemma_put_entry,
};
use vstd::prelude::*;

verus! {

proof fn lemma_relink_elsewhere<C: RelationshipTarget>(
    world: WorldModel<C>,
    entity: Entity,
    before: Option<RelationshipEdge>,
    after: Option<RelationshipEdge>,
    kind: ComponentId,
    other: Entity,
)
    requires
        !C::is_inverse(kind),
        before matches Some(edge) ==> C::is_inverse(edge.inverse),
        after matches Some(edge) ==> C::is_inverse(edge.inverse),
    ensures
        world.relink(entity, before, after).entry(kind, other) == world.entry(kind, other),
        world.retract_edge(entity, before).entry(kind, other) == world.entry(kind, other),
{
    let retracted = world.retract_edge(entity, before);
    if let Some(edge) = before {
        lemma_members_touch_one_cell(world, edge.inverse, entity, edge.target, kind, other);
    }
    if let Some(edge) = after {
        lemma_members_touch_one_cell(retracted, edge.inverse, entity, edge.target, kind, other);
    }
}

/// Inserting a value that is not refused stores it, as its caller or its invocation
/// put it. Apart from inverses, which follow edges, no other component moves.
pub proof fn lemma_insert_is_local<C: RelationshipTarget>(
    world: WorldModel<C>,
    entity: Entity,
    value: C::Model,
    origin: Origin,
    owner: Option<Invocation>,
    kind: ComponentId,
    other: Entity,
)
    requires
        world.consistent(),
        C::anchored(value) is None,
        !world.refuses(entity, value),
        !C::is_inverse(kind),
    ensures
        ({
            let after = world.insert(entity, value, origin, owner);
            if kind == C::kind(value) && other == entity {
                after.entry(kind, other) matches Some(entry) && entry.value == value
                    && entry.fingerprint == C::stamp(value) && entry.origin == origin
                    && entry.owner == owner
            } else {
                after.entry(kind, other) == world.entry(kind, other)
            }
        }),
{
    let put = world.put(entity, value, origin, owner);
    let own = C::kind(value);
    lemma_put_entry(world, entity, value, origin, owner, kind, other);
    C::edge_laws(value);
    let before = world.edge_at(own, entity);
    if let Some(old) = world.entry(own, entity) {
        C::edge_laws(old.value);
    }
    lemma_relink_elsewhere(put, entity, before, C::edge(value), kind, other);
}

/// Of the components of a bundle that is inserted on an entity, each is read back,
/// unless a later one is of the same type. Markers of what something was derived from
/// wait for the end of the buffer.
pub proof fn lemma_bundle_is_read_back<C: RelationshipTarget>(
    world: WorldModel<C>,
    entity: Entity,
    facts: Seq<C::Model>,
    origin: Origin,
    owner: Option<Invocation>,
    kind: ComponentId,
    other: Entity,
)
    requires
        world.consistent(),
        insert_facts(world, entity, facts, origin, owner).1 is Ok,
        !C::is_inverse(kind),
    ensures
        ({
            let after = insert_facts(world, entity, facts, origin, owner).0;
            &&& after.consistent()
            &&& forall|i: int|
                0 <= i < facts.len() && C::kind(#[trigger] facts[i]) == kind && C::anchored(
                    facts[i],
                ) is None && (forall|j: int|
                    i < j < facts.len() ==> C::kind(#[trigger] facts[j]) != kind) ==> (after.entry(
                    kind,
                    entity,
                ) matches Some(entry) && entry.value == facts[i] && entry.origin == origin
                    && entry.owner == owner)
            &&& other != entity || (forall|i: int|
                0 <= i < facts.len() ==> C::kind(#[trigger] facts[i]) != kind) ==> after.entry(
                kind,
                other,
            ) == world.entry(kind, other)
        }),
    decreases facts.len(),
{
    if facts.len() > 0 {
        let rest = facts.drop_last();
        let last = facts.last();
        let done = insert_facts(world, entity, rest, origin, owner);
        let after = insert_facts(world, entity, facts, origin, owner).0;
        assert(facts[facts.len() - 1] == last);
        lemma_bundle_is_read_back(world, entity, rest, origin, owner, kind, other);
        lemma_insert_advances(done.0, entity, last, origin, owner);
        assert(refused(done.0.verdict(entity, last)) is Ok);
        if C::anchored(last) is None {
            lemma_insert_is_local(done.0, entity, last, origin, owner, kind, other);
            lemma_insert_is_local(done.0, entity, last, origin, owner, kind, entity);
        }
        assert forall|i: int|
            0 <= i < facts.len() && C::kind(#[trigger] facts[i]) == kind && C::anchored(facts[i])
                is None && (forall|j: int|
                i < j < facts.len() ==> C::kind(#[trigger] facts[j]) != kind) implies (after.entry(
            kind,
            entity,
        ) matches Some(entry) && entry.value == facts[i] && entry.origin == origin && entry.owner
            == owner) by {
            if i < rest.len() {
                assert(rest[i] == facts[i]);
                assert(C::kind(facts[facts.len() - 1]) != kind);
                assert forall|j: int| i < j < rest.len() implies C::kind(#[trigger] rest[j])
                    != kind by {
                    assert(rest[j] == facts[j]);
                }
            }
        }
        if other != entity || (forall|i: int|
            0 <= i < facts.len() ==> C::kind(#[trigger] facts[i]) != kind) {
            if other == entity {
                assert forall|i: int| 0 <= i < rest.len() implies C::kind(#[trigger] rest[i])
                    != kind by {
                    assert(rest[i] == facts[i]);
                }
                assert(C::kind(facts[facts.len() - 1]) != kind);
            }
        }
    }
}

/// A bundle that a caller inserts is one input per component, on that entity and in
/// order; applying them is inserting the bundle as base facts.
pub proof fn lemma_bundle_inputs_insert_the_bundle<C: RelationshipTarget>(
    world: WorldModel<C>,
    entity: Entity,
    facts: Seq<C::Model>,
)
    ensures
        bundle_inputs::<C>(entity, facts).len() == facts.len(),
        apply_base_ops(world, bundle_inputs::<C>(entity, facts)) == insert_facts(
            world,
            entity,
            facts,
            Origin::Base,
            None,
        ),
    decreases facts.len(),
{
    if facts.len() > 0 {
        let ops = bundle_inputs::<C>(entity, facts);
        assert(ops.drop_last() =~= bundle_inputs::<C>(entity, facts.drop_last()));
        assert(ops.last() == BaseOpModel::<C>::Insert { entity, fact: facts.last() });
        lemma_bundle_inputs_insert_the_bundle(world, entity, facts.drop_last());
    }
}

/// Inputs one list behind the other are applied one behind the other, up to the first
/// that is refused.
pub proof fn lemma_inputs_in_turn<C: RelationshipTarget>(
    world: WorldModel<C>,
    first: Seq<BaseOpModel<C>>,
    second: Seq<BaseOpModel<C>>,
)
    ensures
        apply_base_ops(world, first + second) == if apply_base_ops(world, first).1 is Ok {
            apply_base_ops(apply_base_ops(world, first).0, second)
        } else {
            apply_base_ops(world, first)
        },
    decreases second.len(),
{
    if second.len() == 0 {
        assert(first + second =~= first);
    } else {
        assert((first + second).drop_last() =~= first + second.drop_last());
        lemma_inputs_in_turn(world, first, second.drop_last());
    }
}

/// Operations one list behind the other are applied one behind the other, up to the
/// first that is refused.
pub proof fn lemma_operations_in_turn<C: RelationshipTarget>(
    world: WorldModel<C>,
    first: Seq<OpModel<C>>,
    second: Seq<OpModel<C>>,
    owner: Invocation,
)
    ensures
        apply_ops(world, first + second, owner) == if apply_ops(world, first, owner).1 is Ok {
            apply_ops(apply_ops(world, first, owner).0, second, owner)
        } else {
            apply_ops(world, first, owner)
        },
    decreases second.len(),
{
    if second.len() == 0 {
        assert(first + second =~= first);
    } else {
        assert((first + second).drop_last() =~= first + second.drop_last());
        lemma_operations_in_turn(world, first, second.drop_last(), owner);
    }
}

/// What an operation of an invocation does, unless it is refused: an insert is read
/// back as a derived component of that invocation; a spawn puts its components on the
/// entity that holds the singleton key of the bundle, or else on the reserved one; what
/// is removed is gone.
pub proof fn lemma_operation_is_read_back<C: RelationshipTarget>(
    world: WorldModel<C>,
    op: OpModel<C>,
    owner: Invocation,
    kind: ComponentId,
)
    requires
        world.consistent(),
        !C::is_inverse(kind),
        apply_op(world, op, owner).1 is Ok,
    ensures
        ({
            let after = apply_op(world, op, owner).0;
            match op {
                OpModel::Insert { entity, fact } => C::kind(fact) == kind && C::anchored(fact)
                    is None ==> (after.entry(kind, entity) matches Some(entry) && entry.value
                    == fact && entry.origin == Origin::Derived && entry.owner == Some(owner)),
                OpModel::Spawn { facts, reserved } => {
                    let keys = singleton_keys::<C>(facts);
                    let target = if keys.len() == 1 && world.singletons.contains_key(keys[0]) {
                        Entity::of(world.singletons[keys[0]])
                    } else {
                        reserved
                    };
                    &&& keys.len() <= 1
                    &&& forall|i: int|
                        0 <= i < facts.len() && C::kind(#[trigger] facts[i]) == kind
                            && C::anchored(facts[i]) is None && (forall|j: int|
                            i < j < facts.len() ==> C::kind(#[trigger] facts[j]) != kind) ==> (
                        after.entry(kind, target) matches Some(entry) && entry.value == facts[i]
                            && entry.origin == Origin::Derived && entry.owner == Some(owner))
                },
                OpModel::RemoveEntity { entity } => after.entry(kind, entity) is None,
                OpModel::RemoveComponent { kind: gone, entity } => gone == kind ==> after.entry(
                    kind,
                    entity,
                ) is None,
            }
        }),
{
    match op {
        OpModel::Insert { entity, fact } => {
            if C::kind(fact) == kind && C::anchored(fact) is None {
                lemma_insert_is_local(
                    world,
                    entity,
                    fact,
                    Origin::Derived,
                    Some(owner),
                    kind,
                    entity,
                );
            }
        },
        OpModel::Spawn { facts, reserved } => {
            let target = spawn_target(world, facts, reserved);
            let ready = registered(world, facts, reserved).record_spawn(owner, target);
            assert(ready.stores == world.stores);
            assert(ready.consistent());
            lemma_bundle_is_read_back(
                ready,
                target,
                facts,
                Origin::Derived,
                Some(owner),
                kind,
                target,
            );
        },
        OpModel::RemoveEntity { entity } => {
            crate::world_laws::lemma_removed_entity_is_bare(world, entity);
            assert(!world.remove_entity(entity).has(kind, entity));
        },
        OpModel::RemoveComponent { kind: gone, entity } => {
            if gone == kind {
                crate::world_laws::lemma_remove_component_removes(
                    world,
                    kind,
                    entity,
                    kind,
                    entity,
                );
            }
        },
    }
}

/// Removing a component that is no inverse takes that one, and moves nothing else but
/// inverses, which follow edges.
pub proof fn lemma_removal_is_local<C: RelationshipTarget>(
    world: WorldModel<C>,
    kind: ComponentId,
    entity: Entity,
    other_kind: ComponentId,
    other: Entity,
)
    requires
        !C::is_inverse(other_kind),
    ensures
        world.remove_component(kind, entity).entry(other_kind, other) == if other_kind == kind
            && other == entity {
            None
        } else {
            world.entry(other_kind, other)
        },
{
    lemma_drop_entry_entry(world, kind, entity, other_kind, other);
    if let Some(entry) = world.entry(kind, entity) {
        C::edge_laws(entry.value);
    }
    lemma_relink_elsewhere(
        world.remove_flat(kind, entity),
        entity,
        world.edge_at(kind, entity),
        None,
        other_kind,
        other,
    );
}

/// Replacing a value in place, from outside or by a system, stores the new one where
/// the old one was, with the same owner and origin. It counts as a change exactly when
/// the type is tracked and the fingerprint was absent or differs; then the component
/// gets a new revision, the next one of the world. Apart from inverses no other component moves, and
/// an entity that lacks the component is left alone.
pub proof fn lemma_write_in_place_is_local<C: RelationshipTarget>(
    world: WorldModel<C>,
    entity: Entity,
    value: C::Model,
    kind: ComponentId,
    other: Entity,
)
    requires
        world.consistent(),
        !C::is_inverse(kind),
    ensures
        forall|after: WorldModel<C>|
            #![trigger after.entry(kind, other)]
            after == world.update(entity, value) || after == world.reconcile(entity, value)
                || after == world.update_copied(entity, value) ==> match world.entry(
                kind,
                other,
            ) {
                None => after.entry(kind, other) is None,
                Some(old) => if kind == C::kind(value) && other == entity {
                    let changed = C::tracks(kind) && (old.fingerprint is None || old.fingerprint
                        != C::stamp(value));
                    after.entry(kind, other) matches Some(entry) && {
                        &&& entry.value == value
                        &&& entry.fingerprint == C::stamp(value)
                        &&& entry.origin == old.origin
                        &&& entry.owner == old.owner
                        &&& entry.revision == if changed {
                            crate::model::next(world.revision)
                        } else {
                            old.revision
                        }
                    }
                } else {
                    after.entry(kind, other) == Some(old)
                },
            },
{
    let own = C::kind(value);
    C::edge_laws(value);
    if let Some(entry) = world.entry(own, entity) {
        C::edge_laws(entry.value);
    }
    if own == kind && other.id() == entity.id() {
        crate::entity::lemma_entity_is_its_id(other, entity);
    }
    let before = world.edge_at(own, entity);
    lemma_relink_elsewhere(
        world.update_flat(entity, value),
        entity,
        before,
        C::edge(value),
        kind,
        other,
    );
    lemma_relink_elsewhere(
        world.reconcile_flat(entity, value),
        entity,
        before,
        C::edge(value),
        kind,
        other,
    );
    let unshared = world.unshared(own, entity);
    lemma_relink_elsewhere(
        unshared.update_flat(entity, value),
        entity,
        unshared.edge_at(own, entity),
        C::edge(value),
        kind,
        other,
    );
}

/// A singleton component goes to one entity at a time: an insert on another one is
/// refused and changes nothing; an accepted one makes its entity the holder.
pub proof fn lemma_singletons_have_one_holder<C: RelationshipTarget>(
    world: WorldModel<C>,
    entity: Entity,
    value: C::Model,
    origin: Origin,
    owner: Option<Invocation>,
    key: ComponentId,
)
    requires
        C::singleton(C::kind(value)) == Some(key),
        C::anchored(value) is None,
    ensures
        ({
            let held = world.singletons.contains_key(key) && world.singletons[key] != entity.id();
            let put = world.put(entity, value, origin, owner);
            &&& world.refuses(entity, value) <==> held
            &&& held ==> world.insert(entity, value, origin, owner) == world
            &&& held ==> (world.verdict(entity, value) matches Err(conflict)
                && conflict.existing.id() == world.singletons[key])
            &&& !held ==> world.verdict(entity, value) is Ok && put.singletons.contains_key(key)
                && put.singletons[key] == entity.id()
        }),
{
}

/// Whether `after` lists no output of `owner` that `before` does not list, and
/// nothing waits there that did not.
spec fn no_more<C: RelationshipTarget>(
    before: WorldModel<C>,
    after: WorldModel<C>,
    owner: Invocation,
) -> bool {
    &&& after.pending == before.pending
    &&& forall|cell: Cell| #[trigger]
        outputs(after.owned, owner).contains(cell) ==> outputs(before.owned, owner).contains(cell)
}

proof fn lemma_unindex_lists_no_more(
    owned: Map<Invocation, Seq<Cell>>,
    from: Invocation,
    gone: Cell,
    owner: Invocation,
)
    ensures
        forall|cell: Cell| #[trigger]
            outputs(unindex_cell(owned, from, gone), owner).contains(cell) ==> outputs(
                owned,
                owner,
            ).contains(cell),
{
    assert forall|cell: Cell| #[trigger]
        outputs(unindex_cell(owned, from, gone), owner).contains(cell) implies outputs(
        owned,
        owner,
    ).contains(cell) by {
        if owner == from && owned.contains_key(from) {
            let all = owned[from];
            let rest = crate::model::without_cell(all, gone);
            assert(rest.contains(cell));
            let i = choose|i: int| 0 <= i < rest.len() && rest[i] == cell;
            if all.contains(gone) {
                let at = all.index_of(gone);
                if i < at {
                    assert(all[i] == cell);
                } else {
                    assert(all[i + 1] == cell);
                }
            }
        }
    }
}

proof fn lemma_put_lists<C: RelationshipTarget>(
    world: WorldModel<C>,
    entity: Entity,
    value: C::Model,
    origin: Origin,
    by: Option<Invocation>,
    owner: Invocation,
)
    ensures
        world.put(entity, value, origin, by).pending == world.pending,
        by != Some(owner) ==> no_more(world, world.put(entity, value, origin, by), owner),
        forall|cell: Cell| #[trigger]
            outputs(world.put(entity, value, origin, by).owned, owner).contains(cell) ==> outputs(
                world.owned,
                owner,
            ).contains(cell) || (by == Some(owner) && cell == (C::kind(value), entity)),
{
    let kind = C::kind(value);
    let here = (kind, entity);
    let after = world.put(entity, value, origin, by);
    let previous = match world.entry(kind, entity) {
        Some(old) => old.owner,
        None => None,
    };
    let released = match previous {
        Some(previous) => if by != Some(previous) {
            unindex_cell(world.owned, previous, here)
        } else {
            world.owned
        },
        None => world.owned,
    };
    if let Some(previous) = previous {
        lemma_unindex_lists_no_more(world.owned, previous, here, owner);
    }
    assert forall|cell: Cell| #[trigger] outputs(after.owned, owner).contains(cell) implies outputs(
        world.owned,
        owner,
    ).contains(cell) || (by == Some(owner) && cell == here) by {
        if by == Some(owner) {
            lemma_pushed(outputs(released, owner), here, cell);
        }
        assert(outputs(released, owner).contains(cell) ==> outputs(world.owned, owner).contains(
            cell,
        ));
    }
}

proof fn lemma_remove_flat_lists<C: RelationshipTarget>(
    world: WorldModel<C>,
    kind: ComponentId,
    entity: Entity,
    owner: Invocation,
)
    ensures
        no_more(world, world.remove_flat(kind, entity), owner),
        no_more(world, world.drop_row(kind, entity), owner),
{
    if let Some(entry) = world.entry(kind, entity) {
        if let Some(from) = entry.owner {
            lemma_unindex_lists_no_more(world.owned, from, (kind, entity), owner);
        }
    }
}

proof fn lemma_members_list<C: RelationshipTarget>(
    world: WorldModel<C>,
    inverse: ComponentId,
    source: Entity,
    target: Entity,
    owner: Invocation,
)
    ensures
        no_more(world, world.add_member(inverse, source, target), owner),
        no_more(world, world.remove_member(inverse, source, target), owner),
{
    let members = world.members(inverse, target);
    lemma_put_lists(
        world,
        target,
        C::inverse_fact(inverse, crate::model::with_member(members, source)),
        Origin::Base,
        None,
        owner,
    );
    lemma_put_lists(
        world,
        target,
        C::inverse_fact(inverse, crate::model::without_member(members, source)),
        Origin::Base,
        None,
        owner,
    );
    lemma_remove_flat_lists(world, inverse, target, owner);
}

proof fn lemma_relink_lists<C: RelationshipTarget>(
    world: WorldModel<C>,
    entity: Entity,
    before: Option<RelationshipEdge>,
    after: Option<RelationshipEdge>,
    owner: Invocation,
)
    ensures
        no_more(world, world.retract_edge(entity, before), owner),
        no_more(world, world.relink(entity, before, after), owner),
{
    let retracted = world.retract_edge(entity, before);
    if let Some(edge) = before {
        lemma_members_list(world, edge.inverse, entity, edge.target, owner);
    }
    if let Some(edge) = after {
        lemma_members_list(retracted, edge.inverse, entity, edge.target, owner);
    }
}

proof fn lemma_remove_component_lists<C: RelationshipTarget>(
    world: WorldModel<C>,
    kind: ComponentId,
    entity: Entity,
    owner: Invocation,
)
    ensures
        no_more(world, world.remove_component(kind, entity), owner),
{
    lemma_remove_flat_lists(world, kind, entity, owner);
    lemma_relink_lists(
        world.remove_flat(kind, entity),
        entity,
        world.edge_at(kind, entity),
        None,
        owner,
    );
}

proof fn lemma_drop_rows_list<C: RelationshipTarget>(
    world: WorldModel<C>,
    kinds: Seq<ComponentId>,
    entity: Entity,
    owner: Invocation,
)
    ensures
        no_more(world, world.drop_rows(kinds, entity), owner),
    decreases kinds.len(),
{
    if kinds.len() > 0 {
        lemma_drop_rows_list(world, kinds.drop_last(), entity, owner);
        lemma_remove_flat_lists(
            world.drop_rows(kinds.drop_last(), entity),
            kinds.last(),
            entity,
            owner,
        );
    }
}

proof fn lemma_retract_edges_list<C: RelationshipTarget>(
    world: WorldModel<C>,
    source: Entity,
    edges: Seq<RelationshipEdge>,
    owner: Invocation,
)
    ensures
        no_more(world, world.retract_edges(source, edges), owner),
    decreases edges.len(),
{
    if edges.len() > 0 {
        lemma_retract_edges_list(world, source, edges.drop_last(), owner);
        lemma_relink_lists(
            world.retract_edges(source, edges.drop_last()),
            source,
            Some(edges.last()),
            None,
            owner,
        );
    }
}

proof fn lemma_retract_sources_list<C: RelationshipTarget>(
    world: WorldModel<C>,
    retractions: Seq<RelationshipRetraction>,
    owner: Invocation,
)
    ensures
        no_more(world, world.retract_sources(retractions), owner),
    decreases retractions.len(),
{
    if retractions.len() > 0 {
        lemma_retract_sources_list(world, retractions.drop_last(), owner);
        lemma_remove_component_lists(
            world.retract_sources(retractions.drop_last()),
            retractions.last().edge,
            retractions.last().source,
            owner,
        );
    }
}

proof fn lemma_remove_entity_lists<C: RelationshipTarget>(
    world: WorldModel<C>,
    entity: Entity,
    owner: Invocation,
)
    ensures
        no_more(world, world.remove_entity(entity), owner),
{
    let kinds = world.kinds();
    lemma_drop_rows_list(world, kinds, entity, owner);
    let gone = world.drop_rows(kinds, entity).forget(entity);
    let edges = world.edges_on(kinds, entity);
    lemma_retract_edges_list(gone, entity, edges, owner);
    lemma_retract_sources_list(
        gone.retract_edges(entity, edges),
        world.retractions_on(kinds, entity),
        owner,
    );
}

proof fn lemma_remove_stale_lists<C: RelationshipTarget>(
    world: WorldModel<C>,
    from: Invocation,
    previous: Seq<Cell>,
    owner: Invocation,
)
    ensures
        no_more(world, world.remove_stale(from, previous), owner),
    decreases previous.len(),
{
    if previous.len() > 0 {
        lemma_remove_stale_lists(world, from, previous.drop_last(), owner);
        let done = world.remove_stale(from, previous.drop_last());
        let cell = previous.last();
        let dropped = done.drop_entry(cell.0, cell.1).due(Hook::Remove, cell.0, cell.1);
        lemma_relink_lists(dropped, cell.1, done.edge_at(cell.0, cell.1), None, owner);
    }
}

/// Whether an operation writes `cell`. A bundle with a singleton goes to the entity
/// that holds the key.
pub open spec fn op_writes<C: RelationshipTarget>(op: OpModel<C>, cell: Cell) -> bool {
    match op {
        OpModel::Insert { entity, fact } => cell == (C::kind(fact), entity),
        OpModel::Spawn { facts, reserved } => {
            &&& exists|i: int| 0 <= i < facts.len() && C::kind(#[trigger] facts[i]) == cell.0
            &&& cell.1 == reserved || exists|i: int|
                0 <= i < facts.len() && C::singleton(C::kind(#[trigger] facts[i])) is Some
        },
        _ => false,
    }
}

/// Whether one of `ops` writes `cell`.
pub open spec fn some_writes<C: RelationshipTarget>(ops: Seq<OpModel<C>>, cell: Cell) -> bool {
    exists|i: int| 0 <= i < ops.len() && #[trigger] op_writes(ops[i], cell)
}

/// Whether what `owner` lists, or has waiting, is written by `ops`, or was listed
/// before.
spec fn lists_writes<C: RelationshipTarget>(
    before: WorldModel<C>,
    after: WorldModel<C>,
    owner: Invocation,
    ops: Seq<OpModel<C>>,
) -> bool {
    &&& forall|cell: Cell| #[trigger]
        outputs(after.owned, owner).contains(cell) ==> outputs(before.owned, owner).contains(cell)
            || some_writes(ops, cell)
    &&& forall|i: int|
        0 <= i < after.pending.len() ==> waits_for((#[trigger] after.pending[i]), owner, ops)
}

/// Whether a marker that waits is a derived one of `owner` that `ops` write.
spec fn waits_for<C: RelationshipTarget>(
    pending: PendingAnchor,
    owner: Invocation,
    ops: Seq<OpModel<C>>,
) -> bool {
    &&& pending.owner == Some(owner)
    &&& pending.origin == Origin::Derived
    &&& some_writes(ops, (C::anchor_kind(), pending.entity))
}

proof fn lemma_more_ops_write<C: RelationshipTarget>(
    ops: Seq<OpModel<C>>,
    op: OpModel<C>,
    cell: Cell,
)
    ensures
        some_writes(ops.push(op), cell) <==> (some_writes(ops, cell) || op_writes(op, cell)),
{
    let all = ops.push(op);
    if some_writes(ops, cell) {
        let i = choose|i: int| 0 <= i < ops.len() && #[trigger] op_writes(ops[i], cell);
        assert(op_writes(all[i], cell));
    }
    if some_writes(all, cell) {
        let i = choose|i: int| 0 <= i < all.len() && #[trigger] op_writes(all[i], cell);
        if i < ops.len() {
            assert(op_writes(ops[i], cell));
        }
    }
    if op_writes(op, cell) {
        assert(op_writes(all[ops.len() as int], cell));
    }
}

proof fn lemma_no_more_lists_writes<C: RelationshipTarget>(
    start: WorldModel<C>,
    before: WorldModel<C>,
    after: WorldModel<C>,
    owner: Invocation,
    ops: Seq<OpModel<C>>,
    op: OpModel<C>,
)
    requires
        lists_writes(start, before, owner, ops),
        no_more(before, after, owner),
    ensures
        lists_writes(start, after, owner, ops.push(op)),
{
    assert forall|cell: Cell| #[trigger] outputs(after.owned, owner).contains(cell) implies outputs(
        start.owned,
        owner,
    ).contains(cell) || some_writes(ops.push(op), cell) by {
        lemma_more_ops_write(ops, op, cell);
        assert(outputs(before.owned, owner).contains(cell));
    }
    assert forall|i: int| 0 <= i < after.pending.len() implies waits_for(
        (#[trigger] after.pending[i]),
        owner,
        ops.push(op),
    ) by {
        assert(waits_for(before.pending[i], owner, ops));
        lemma_more_ops_write(ops, op, (C::anchor_kind(), after.pending[i].entity));
    }
}

proof fn lemma_insert_lists_writes<C: RelationshipTarget>(
    start: WorldModel<C>,
    before: WorldModel<C>,
    entity: Entity,
    fact: C::Model,
    owner: Invocation,
    ops: Seq<OpModel<C>>,
)
    requires
        lists_writes(start, before, owner, ops),
        some_writes(ops, (C::kind(fact), entity)),
    ensures
        lists_writes(
            start,
            before.insert(entity, fact, Origin::Derived, Some(owner)),
            owner,
            ops,
        ),
{
    let after = before.insert(entity, fact, Origin::Derived, Some(owner));
    let put = before.put(entity, fact, Origin::Derived, Some(owner));
    C::marker_laws(fact);
    lemma_put_lists(before, entity, fact, Origin::Derived, Some(owner), owner);
    lemma_relink_lists(
        put,
        entity,
        before.edge_at(C::kind(fact), entity),
        C::edge(fact),
        owner,
    );
    assert forall|cell: Cell| #[trigger] outputs(after.owned, owner).contains(cell) implies outputs(
        start.owned,
        owner,
    ).contains(cell) || some_writes(ops, cell) by {
        assert(outputs(before.owned, owner).contains(cell) || cell == (C::kind(fact), entity));
    }
    assert forall|i: int| 0 <= i < after.pending.len() implies waits_for(
        (#[trigger] after.pending[i]),
        owner,
        ops,
    ) by {
        if i < before.pending.len() {
            assert(waits_for(before.pending[i], owner, ops));
        }
    }
}

proof fn lemma_facts_list_writes<C: RelationshipTarget>(
    start: WorldModel<C>,
    before: WorldModel<C>,
    entity: Entity,
    facts: Seq<C::Model>,
    owner: Invocation,
    ops: Seq<OpModel<C>>,
)
    requires
        lists_writes(start, before, owner, ops),
        forall|i: int|
            0 <= i < facts.len() ==> some_writes(ops, (C::kind(#[trigger] facts[i]), entity)),
    ensures
        lists_writes(
            start,
            insert_facts(before, entity, facts, Origin::Derived, Some(owner)).0,
            owner,
            ops,
        ),
    decreases facts.len(),
{
    if facts.len() > 0 {
        let rest = facts.drop_last();
        assert forall|i: int| 0 <= i < rest.len() implies some_writes(
            ops,
            (C::kind(#[trigger] rest[i]), entity),
        ) by {
            assert(rest[i] == facts[i]);
        }
        lemma_facts_list_writes(start, before, entity, rest, owner, ops);
        assert(some_writes(ops, (C::kind(facts[facts.len() - 1]), entity)));
        lemma_insert_lists_writes(
            start,
            insert_facts(before, entity, rest, Origin::Derived, Some(owner)).0,
            entity,
            facts.last(),
            owner,
            ops,
        );
    }
}

proof fn lemma_singleton_keys_exist<C: RelationshipTarget>(facts: Seq<C::Model>)
    ensures
        singleton_keys::<C>(facts).len() > 0 <==> exists|i: int|
            0 <= i < facts.len() && C::singleton(C::kind(#[trigger] facts[i])) is Some,
    decreases facts.len(),
{
    if facts.len() > 0 {
        let rest = facts.drop_last();
        lemma_singleton_keys_exist::<C>(rest);
        if singleton_keys::<C>(rest).len() > 0 {
            let i = choose|i: int|
                0 <= i < rest.len() && C::singleton(C::kind(#[trigger] rest[i])) is Some;
            assert(C::singleton(C::kind(facts[i])) is Some);
        }
        if exists|i: int|
            0 <= i < facts.len() && C::singleton(C::kind(#[trigger] facts[i])) is Some {
            let i = choose|i: int|
                0 <= i < facts.len() && C::singleton(C::kind(#[trigger] facts[i])) is Some;
            if i < rest.len() {
                assert(C::singleton(C::kind(rest[i])) is Some);
            }
        }
        if C::singleton(C::kind(facts.last())) is Some {
            assert(C::singleton(C::kind(facts[facts.len() - 1])) is Some);
        }
    }
}

proof fn lemma_ops_list_writes<C: RelationshipTarget>(
    world: WorldModel<C>,
    ops: Seq<OpModel<C>>,
    owner: Invocation,
    spared: Set<Cell>,
)
    requires
        world.pending.len() == 0,
        accounted(world, owner, spared),
    ensures
        lists_writes(world, apply_ops(world, ops, owner).0, owner, ops),
        accounted(apply_ops(world, ops, owner).0, owner, spared),
    decreases ops.len(),
{
    if ops.len() > 0 {
        let rest = ops.drop_last();
        let op = ops.last();
        assert(ops =~= rest.push(op));
        lemma_ops_list_writes(world, rest, owner, spared);
        let done = apply_ops(world, rest, owner).0;
        lemma_no_more_lists_writes(world, done, done, owner, rest, op);
        match op {
            OpModel::Insert { entity, fact } => {
                lemma_more_ops_write(rest, op, (C::kind(fact), entity));
                lemma_insert_lists_writes(world, done, entity, fact, owner, ops);
                lemma_insert_accounted(
                    done,
                    entity,
                    fact,
                    Origin::Derived,
                    Some(owner),
                    owner,
                    spared,
                );
            },
            OpModel::Spawn { facts, reserved } => {
                let target = spawn_target(done, facts, reserved);
                let ready = registered(done, facts, reserved).record_spawn(owner, target);
                lemma_singleton_keys_exist::<C>(facts);
                assert forall|i: int| 0 <= i < facts.len() implies some_writes(
                    ops,
                    (C::kind(#[trigger] facts[i]), target),
                ) by {
                    lemma_more_ops_write(rest, op, (C::kind(facts[i]), target));
                    assert(op_writes(op, (C::kind(facts[i]), target)));
                }
                assert(no_more(done, ready, owner));
                lemma_no_more_lists_writes(world, done, ready, owner, rest, op);
                crate::ownership_laws::lemma_same_stores_accounted(done, ready, owner, spared);
                lemma_facts_list_writes(world, ready, target, facts, owner, ops);
                lemma_facts_accounted(ready, target, facts, owner, spared);
            },
            OpModel::RemoveEntity { entity } => {
                lemma_remove_entity_lists(done, entity, owner);
                lemma_no_more_lists_writes(
                    world,
                    done,
                    done.remove_entity(entity),
                    owner,
                    rest,
                    op,
                );
                lemma_remove_entity_accounted(done, entity, owner, spared);
            },
            OpModel::RemoveComponent { kind, entity } => {
                lemma_remove_component_lists(done, kind, entity, owner);
                lemma_no_more_lists_writes(
                    world,
                    done,
                    done.remove_component(kind, entity),
                    owner,
                    rest,
                    op,
                );
                lemma_remove_component_accounted(done, kind, entity, owner, spared);
            },
        }
    }
}

proof fn lemma_facts_accounted<C: RelationshipTarget>(
    world: WorldModel<C>,
    entity: Entity,
    facts: Seq<C::Model>,
    owner: Invocation,
    spared: Set<Cell>,
)
    requires
        accounted(world, owner, spared),
    ensures
        accounted(
            insert_facts(world, entity, facts, Origin::Derived, Some(owner)).0,
            owner,
            spared,
        ),
    decreases facts.len(),
{
    if facts.len() > 0 {
        lemma_facts_accounted(world, entity, facts.drop_last(), owner, spared);
        lemma_insert_accounted(
            insert_facts(world, entity, facts.drop_last(), Origin::Derived, Some(owner)).0,
            entity,
            facts.last(),
            Origin::Derived,
            Some(owner),
            owner,
            spared,
        );
    }
}

proof fn lemma_flush_lists_writes<C: RelationshipTarget>(
    start: WorldModel<C>,
    world: WorldModel<C>,
    pending: Seq<PendingAnchor>,
    owner: Invocation,
    ops: Seq<OpModel<C>>,
)
    requires
        lists_writes(start, world, owner, ops),
        world.pending.len() == 0,
        forall|i: int| 0 <= i < pending.len() ==> waits_for((#[trigger] pending[i]), owner, ops),
    ensures
        lists_writes(start, world.flush_each(pending), owner, ops),
    decreases pending.len(),
{
    if pending.len() > 0 {
        let rest = pending.drop_last();
        assert forall|i: int| 0 <= i < rest.len() implies waits_for(
            (#[trigger] rest[i]),
            owner,
            ops,
        ) by {
            assert(rest[i] == pending[i]);
        }
        lemma_flush_lists_writes(start, world, rest, owner, ops);
        let done = world.flush_each(rest);
        let p = pending.last();
        assert(waits_for(pending[pending.len() - 1], owner, ops));
        let fact = C::anchor_fact(captured(p.anchors, done.anchor_revisions(p.anchors)));
        C::anchor_laws(captured(p.anchors, done.anchor_revisions(p.anchors)));
        let put = done.put(p.entity, fact, p.origin, p.owner);
        let after = done.insert_now(p.entity, fact, p.origin, p.owner);
        lemma_put_lists(done, p.entity, fact, p.origin, p.owner, owner);
        lemma_relink_lists(
            put,
            p.entity,
            done.edge_at(C::kind(fact), p.entity),
            C::edge(fact),
            owner,
        );
        assert forall|cell: Cell| #[trigger]
            outputs(after.owned, owner).contains(cell) implies outputs(start.owned, owner).contains(
            cell,
        ) || some_writes(ops, cell) by {
            assert(outputs(done.owned, owner).contains(cell) || cell == (
                C::anchor_kind(),
                p.entity,
            ));
        }
        assert forall|i: int| 0 <= i < after.pending.len() implies waits_for(
            (#[trigger] after.pending[i]),
            owner,
            ops,
        ) by {
            assert(waits_for(done.pending[i], owner, ops));
        }
    }
}

/// What an invocation derives is replaced as a unit when it runs again: every
/// component that it owns afterwards was written by an operation of this run. What it
/// derived before and did not write again is gone.
pub proof fn lemma_rerun_replaces_outputs<C: RelationshipTarget>(
    world: WorldModel<C>,
    output: OutputModel<C>,
    defer: bool,
    cell: Cell,
)
    requires
        exact(world),
        world.pending.len() == 0,
        replace_outputs(world, output, defer).1 is Ok,
    ensures
        exact(replace_outputs(world, output, defer).0),
        replace_outputs(world, output, defer).0.owns(output.owner, cell) ==> some_writes(
            immediate(output.ops, defer),
            cell,
        ),
{
    let owner = output.owner;
    let ops = immediate(output.ops, defer);
    let previous = outputs(world.owned, owner);
    let taken = WorldModel { owned: world.owned.remove(owner), ..world };
    lemma_output_replacement_starts(world, owner);
    lemma_ops_list_writes(taken, ops, owner, previous.to_set());
    let applied = apply_ops(taken, ops, owner).0;
    let started = WorldModel { pending: Seq::<PendingAnchor>::empty(), ..applied };
    assert(lists_writes(taken, started, owner, ops));
    lemma_flush_lists_writes(taken, started, applied.pending, owner, ops);
    crate::ownership_laws::lemma_same_stores_accounted(
        applied,
        started,
        owner,
        previous.to_set(),
    );
    assert forall|i: int| 0 <= i < applied.pending.len() implies (
    #[trigger] applied.pending[i]).origin == Origin::Derived || applied.pending[i].owner is None by {
        assert(waits_for(applied.pending[i], owner, ops));
    }
    lemma_flush_accounted(started, applied.pending, owner, previous.to_set());
    let flushed = applied.flush();
    let finished = flushed.finish_spawns(owner);
    crate::ownership_laws::lemma_same_stores_accounted(
        flushed,
        finished,
        owner,
        previous.to_set(),
    );
    lemma_output_replacement_is_exact(world, finished, owner);
    let after = finished.remove_stale(owner, previous);
    lemma_remove_stale_lists(finished, owner, previous, owner);
    if after.owns(owner, cell) {
        assert(outputs(after.owned, owner).contains(cell));
        assert(outputs(finished.owned, owner).contains(cell));
        assert(outputs(flushed.owned, owner).contains(cell));
        assert(!outputs(taken.owned, owner).contains(cell));
    }
}

proof fn lemma_output_replacement_starts<C: RelationshipTarget>(
    world: WorldModel<C>,
    owner: Invocation,
)
    requires
        exact(world),
    ensures
        accounted(
            WorldModel { owned: world.owned.remove(owner), ..world },
            owner,
            outputs(world.owned, owner).to_set(),
        ),
{
    let previous = outputs(world.owned, owner);
    let taken = WorldModel { owned: world.owned.remove(owner), ..world };
    assert forall|o: Invocation, c: Cell|
        #![trigger outputs(taken.owned, o).contains(c)]
        #![trigger taken.owns(o, c)]
        (outputs(taken.owned, o).contains(c) ==> taken.owns(o, c)) && (taken.owns(o, c) ==> outputs(
            taken.owned,
            o,
        ).contains(c) || (o == owner && previous.to_set().contains(c))) by {
        assert(taken.entry(c.0, c.1) == world.entry(c.0, c.1));
        assert(world.owns(o, c) <==> outputs(world.owned, o).contains(c));
    }
}

proof fn lemma_stale_without_index<C: RelationshipTarget>(
    world: WorldModel<C>,
    owner: Invocation,
    cells: Seq<Cell>,
)
    requires
        forall|cell: Cell| !#[trigger] outputs(world.owned, owner).contains(cell),
    ensures
        world.remove_each_owned(owner, cells) == world.remove_stale(owner, cells),
    decreases cells.len(),
{
    if cells.len() > 0 {
        lemma_stale_without_index(world, owner, cells.drop_last());
        lemma_remove_stale_lists(world, owner, cells.drop_last(), owner);
    }
}

/// What an invocation derived goes when it is dropped, all of it; no other invocation
/// gains anything by it.
pub proof fn lemma_dropped_invocation_owns_nothing<C: RelationshipTarget>(
    world: WorldModel<C>,
    owner: Invocation,
    other: Invocation,
    cell: Cell,
)
    requires
        exact(world),
    ensures
        exact(world.remove_derived_owned(owner)),
        !world.remove_derived_owned(owner).owns(owner, cell),
        world.remove_derived_owned(owner).owns(other, cell) ==> world.owns(other, cell),
{
    let previous = outputs(world.owned, owner);
    let taken = WorldModel { owned: world.owned.remove(owner), ..world };
    let start = WorldModel { spawns: world.spawns.remove(owner), ..taken };
    lemma_output_replacement_starts(world, owner);
    crate::ownership_laws::lemma_same_stores_accounted(taken, start, owner, previous.to_set());
    assert forall|c: Cell| !#[trigger] outputs(start.owned, owner).contains(c) by {}
    lemma_stale_without_index(start, owner, previous);
    lemma_output_replacement_is_exact(world, start, owner);
    let after = world.remove_derived_owned(owner);
    assert(after == start.remove_stale(owner, previous));
    lemma_remove_stale_lists(start, owner, previous, owner);
    lemma_remove_stale_lists(start, owner, previous, other);
    if after.owns(owner, cell) {
        assert(outputs(after.owned, owner).contains(cell));
    }
    if after.owns(other, cell) && other != owner {
        assert(outputs(after.owned, other).contains(cell));
        assert(outputs(start.owned, other).contains(cell));
        assert(outputs(world.owned, other).contains(cell));
    }
}

/// Dropping several invocations leaves none of them anything that they derived, and no
/// other invocation gains anything by it.
pub proof fn lemma_dropped_invocations_own_nothing<C: RelationshipTarget>(
    world: WorldModel<C>,
    owners: Seq<Invocation>,
    other: Invocation,
    cell: Cell,
)
    requires
        exact(world),
    ensures
        exact(world.remove_derived_of(owners)),
        owners.contains(other) ==> !world.remove_derived_of(owners).owns(other, cell),
        world.remove_derived_of(owners).owns(other, cell) ==> world.owns(other, cell),
    decreases owners.len(),
{
    if owners.len() > 0 {
        let rest = owners.drop_last();
        lemma_dropped_invocations_own_nothing(world, rest, other, cell);
        lemma_dropped_invocation_owns_nothing(
            world.remove_derived_of(rest),
            owners.last(),
            other,
            cell,
        );
        lemma_last(owners, other);
    }
}

proof fn lemma_swept_outwards_owns_nothing<C: RelationshipTarget>(
    world: WorldModel<C>,
    memo: Map<Invocation, MemoModel>,
    frontier: Seq<Entity>,
    seen: Seq<Entity>,
    rounds: Seq<Seq<Invocation>>,
    other: Invocation,
    cell: Cell,
)
    requires
        exact(world),
        swept_outwards(world, memo, frontier, seen, rounds) is Some,
    ensures
        ({
            let after = swept_outwards(world, memo, frontier, seen, rounds)->Some_0;
            &&& exact(after.0)
            &&& other.touched_by(frontier) ==> !after.0.owns(other, cell)
                && !after.1.contains_key(other)
            &&& after.0.owns(other, cell) ==> world.owns(other, cell)
            &&& after.1.contains_key(other) ==> memo.contains_key(other) && after.1[other]
                == memo[other]
        }),
    decreases rounds.len(),
{
    if frontier.len() > 0 {
        let owners = rounds[0];
        let further = crate::state::cleanup::unseen(
            crate::world::swept_each(world, owners),
            seen,
        );
        let swept = world.remove_derived_of(owners);
        lemma_dropped_invocations_own_nothing(world, owners, other, cell);
        lemma_swept_outwards_owns_nothing(
            swept,
            untouched(memo, frontier),
            further,
            seen + further,
            rounds.drop_first(),
            other,
            cell,
        );
        if other.touched_by(frontier) && world.owns(other, cell) {
            assert(outputs(world.owned, other).contains(cell));
            assert(world.owned.contains_key(other));
            assert(owners.contains(other));
        }
    } else {
        assert(!other.touched_by(frontier)) by {
            if other.touched_by(frontier) {
                let i = choose|i: int|
                    0 <= i < other.keys.len() && frontier.contains(#[trigger] other.keys[i]);
            }
        }
    }
}

/// A cleaned entity is gone with all that was derived from it: no invocation that had it
/// as a row keeps a component that it derived, or its record. No other invocation gains
/// a component or a record by it.
pub proof fn lemma_cleaning_removes_what_was_derived<C: RelationshipTarget>(
    before: StateModel<C>,
    after: StateModel<C>,
    entity: Entity,
    owner: Invocation,
    cell: Cell,
)
    requires
        cleaned(before, after, entity),
        exact(before.world),
    ensures
        exact(after.world),
        owner.keys.contains(entity) ==> !after.world.owns(owner, cell) && !after.memo.contains_key(
            owner,
        ),
        after.world.owns(owner, cell) ==> before.world.owns(owner, cell),
        after.memo.contains_key(owner) ==> before.memo.contains_key(owner) && after.memo[owner]
            == before.memo[owner],
        after.inputs == before.inputs,
        after.systems == before.systems,
        after.pending == before.pending,
{
    let rounds = choose|rounds: Seq<Seq<Invocation>>|
        #![trigger swept_outwards(before.world, before.memo, seq![entity], Seq::empty(), rounds)]
        swept_outwards(before.world, before.memo, seq![entity], Seq::empty(), rounds) matches Some(
            swept,
        ) && after == crate::state::cleanup::uprooted(before, swept.0, swept.1, entity);
    let swept = swept_outwards(
        before.world,
        before.memo,
        seq![entity],
        Seq::empty(),
        rounds,
    )->Some_0;
    lemma_swept_outwards_owns_nothing(
        before.world,
        before.memo,
        seq![entity],
        Seq::empty(),
        rounds,
        owner,
        cell,
    );
    if owner.keys.contains(entity) {
        let i = choose|i: int| 0 <= i < owner.keys.len() && owner.keys[i] == entity;
        assert(seq![entity][0] == entity);
        assert(seq![entity].contains(owner.keys[i]));
        assert(owner.touched_by(seq![entity]));
    }
    let world = swept.0;
    let owners = world.owners_on(world.kinds(), entity);
    let none = Set::<Cell>::empty();
    crate::ownership_laws::lemma_exact_is_accounted(world, owner);
    lemma_remove_entity_accounted(world, entity, owner, none);
    crate::ownership_laws::lemma_exact_is_accounted(world.remove_entity(entity), owner);
    lemma_remove_entity_lists(world, entity, owner);
    lemma_dropped_invocations_own_nothing(world.remove_entity(entity), owners, owner, cell);
    if after.world.owns(owner, cell) {
        assert(outputs(world.remove_entity(entity).owned, owner).contains(cell));
        assert(outputs(world.owned, owner).contains(cell));
        assert(world.owns(owner, cell));
    }
    lemma_forgotten_records(untouched(swept.1, seq![entity]), owners, owner);
}

/// The records that are left when `owners` are forgotten are those of the others.
pub proof fn lemma_forgotten_records(
    memo: Map<Invocation, MemoModel>,
    owners: Seq<Invocation>,
    other: Invocation,
)
    ensures
        forgotten(memo, owners).contains_key(other) <==> memo.contains_key(other)
            && !owners.contains(other),
        forgotten(memo, owners).contains_key(other) ==> forgotten(memo, owners)[other]
            == memo[other],
    decreases owners.len(),
{
    if owners.len() > 0 {
        lemma_forgotten_records(memo, owners.drop_last(), other);
        lemma_last(owners, other);
    }
}

proof fn lemma_nothing_to_sweep<C: RelationshipTarget>(
    before: StateModel<C>,
    after: StateModel<C>,
    entity: Entity,
)
    requires
        cleaned(before, after, entity),
        forall|other: Invocation| #[trigger]
            before.world.owned.contains_key(other) ==> !other.keys.contains(entity),
    ensures
        after == crate::state::cleanup::uprooted(
            before,
            before.world,
            untouched(before.memo, seq![entity]),
            entity,
        ),
        forall|other: Invocation|
            other.touched_by(seq![entity]) <==> #[trigger] other.keys.contains(entity),
{
    let frontier = seq![entity];
    let rounds = choose|rounds: Seq<Seq<Invocation>>|
        #![trigger swept_outwards(before.world, before.memo, seq![entity], Seq::empty(), rounds)]
        swept_outwards(before.world, before.memo, seq![entity], Seq::empty(), rounds) matches Some(
            swept,
        ) && after == crate::state::cleanup::uprooted(before, swept.0, swept.1, entity);
    let owners = rounds[0];
    assert(frontier[0] == entity);
    assert forall|other: Invocation|
        other.touched_by(frontier) <==> #[trigger] other.keys.contains(entity) by {
        if other.touched_by(frontier) {
            let i = choose|i: int|
                0 <= i < other.keys.len() && frontier.contains(#[trigger] other.keys[i]);
            assert(other.keys[i] == entity);
        }
        if other.keys.contains(entity) {
            let i = choose|i: int| 0 <= i < other.keys.len() && other.keys[i] == entity;
            assert(frontier.contains(other.keys[i]));
        }
    }
    assert(owners.len() == 0) by {
        if owners.len() > 0 {
            assert(owners.contains(owners[0]));
            assert(before.world.owned.contains_key(owners[0]));
            assert(owners[0].keys.contains(entity));
        }
    }
    assert(crate::world::swept_each(before.world, owners).len() == 0);
    assert(before.world.remove_derived_of(owners) == before.world);
    let further = crate::state::cleanup::unseen(
        crate::world::swept_each(before.world, owners),
        Seq::empty(),
    );
    assert(further.len() == 0);
    let rest = rounds.drop_first();
    assert(swept_outwards(
        before.world,
        untouched(before.memo, frontier),
        further,
        Seq::<Entity>::empty() + further,
        rest,
    ) is Some);
}

/// Where nothing was derived from an entity and nothing on it was derived, cleaning it is
/// removing it: nothing else is swept, and only the records of its rows go.
pub proof fn lemma_cleaning_reaches_no_further<C: RelationshipTarget>(
    before: StateModel<C>,
    after: StateModel<C>,
    entity: Entity,
    owner: Invocation,
)
    requires
        cleaned(before, after, entity),
        forall|other: Invocation| #[trigger]
            before.world.owned.contains_key(other) ==> !other.keys.contains(entity),
        forall|kind: ComponentId|
            (#[trigger] before.world.entry(kind, entity)) matches Some(entry) ==> entry.owner
                is None,
    ensures
        after.world == before.world.remove_entity(entity),
        after.memo.contains_key(owner) <==> before.memo.contains_key(owner)
            && !owner.keys.contains(entity),
{
    lemma_nothing_to_sweep(before, after, entity);
    lemma_no_owner_on(before.world, before.world.kinds(), entity);
}

/// An invocation that derived a component on a cleaned entity is dropped with it: all
/// that it derived goes, wherever it stands, and so does its record.
pub proof fn lemma_cleaning_drops_the_makers<C: RelationshipTarget>(
    before: StateModel<C>,
    after: StateModel<C>,
    entity: Entity,
    kind: ComponentId,
    maker: Invocation,
    cell: Cell,
)
    requires
        cleaned(before, after, entity),
        exact(before.world),
        forall|other: Invocation| #[trigger]
            before.world.owned.contains_key(other) ==> !other.keys.contains(entity),
        before.world.owns(maker, (kind, entity)),
    ensures
        !after.world.owns(maker, cell),
        !after.memo.contains_key(maker),
{
    lemma_nothing_to_sweep(before, after, entity);
    let world = before.world;
    let kinds = world.kinds();
    let owners = world.owners_on(kinds, entity);
    crate::model::lemma_sorted_keys_list(world.stores.dom());
    assert(kinds.to_set().contains(kind));
    let i = choose|i: int| 0 <= i < kinds.len() && kinds[i] == kind;
    lemma_owner_on(world, kinds, entity, i);
    crate::ownership_laws::lemma_exact_is_accounted(world, maker);
    lemma_remove_entity_accounted(world, entity, maker, Set::empty());
    crate::ownership_laws::lemma_exact_is_accounted(world.remove_entity(entity), maker);
    lemma_dropped_invocations_own_nothing(world.remove_entity(entity), owners, maker, cell);
    lemma_forgotten_records(
        untouched(untouched(before.memo, seq![entity]), seq![entity]),
        owners,
        maker,
    );
}

proof fn lemma_owner_on<C: RelationshipTarget>(
    world: WorldModel<C>,
    kinds: Seq<ComponentId>,
    entity: Entity,
    at: int,
)
    requires
        0 <= at < kinds.len(),
        world.entry(kinds[at], entity) is Some,
        world.entry(kinds[at], entity)->Some_0.owner is Some,
    ensures
        world.owners_on(kinds, entity).contains(
            world.entry(kinds[at], entity)->Some_0.owner->Some_0,
        ),
    decreases kinds.len(),
{
    let rest = kinds.drop_last();
    let owner = world.entry(kinds[at], entity)->Some_0.owner->Some_0;
    if at < rest.len() {
        assert(rest[at] == kinds[at]);
        lemma_owner_on(world, rest, entity, at);
    }
    if let Some(entry) = world.entry(kinds.last(), entity) {
        if let Some(last) = entry.owner {
            lemma_pushed(world.owners_on(rest, entity), last, owner);
        }
    }
}

proof fn lemma_no_owner_on<C: RelationshipTarget>(
    world: WorldModel<C>,
    kinds: Seq<ComponentId>,
    entity: Entity,
)
    requires
        forall|kind: ComponentId|
            (#[trigger] world.entry(kind, entity)) matches Some(entry) ==> entry.owner is None,
    ensures
        world.owners_on(kinds, entity).len() == 0,
    decreases kinds.len(),
{
    if kinds.len() > 0 {
        lemma_no_owner_on(world, kinds.drop_last(), entity);
    }
}

/// What an input does, unless it is refused: an insert is read back as a fact of the
/// caller that nobody owns; what is removed is gone. Only an insert can be refused, and
/// exactly when another entity holds its singleton key; then nothing changes.
pub proof fn lemma_input_is_read_back<C: RelationshipTarget>(
    world: WorldModel<C>,
    op: BaseOpModel<C>,
    kind: ComponentId,
)
    requires
        world.consistent(),
        !C::is_inverse(kind),
    ensures
        ({
            let done = apply_base_ops(world, seq![op]);
            match op {
                BaseOpModel::Insert { entity, fact } => {
                    &&& done.1 is Err <==> world.refuses(entity, fact)
                    &&& done.1 is Err ==> done.0 == world
                    &&& done.1 is Ok && C::kind(fact) == kind && C::anchored(fact) is None ==> (
                    done.0.entry(kind, entity) matches Some(entry) && entry.value == fact
                        && entry.origin == Origin::Base && entry.owner is None)
                },
                BaseOpModel::RemoveComponent { kind: gone, entity } => {
                    &&& done.1 is Ok
                    &&& gone == kind ==> done.0.entry(kind, entity) is None
                },
                BaseOpModel::RemoveEntity { entity } => {
                    &&& done.1 is Ok
                    &&& done.0.entry(kind, entity) is None
                },
            }
        }),
{
    let ops = seq![op];
    assert(ops.drop_last() =~= Seq::<BaseOpModel<C>>::empty());
    assert(ops.last() == op);
    assert(apply_base_ops(world, Seq::<BaseOpModel<C>>::empty()) == (
        world,
        Ok::<(), crate::commands::ApplyError>(()),
    ));
    match op {
        BaseOpModel::Insert { entity, fact } => {
            if C::anchored(fact) is None && !world.refuses(entity, fact) && C::kind(fact) == kind {
                lemma_insert_is_local(world, entity, fact, Origin::Base, None, kind, entity);
            }
        },
        BaseOpModel::RemoveComponent { kind: gone, entity } => {
            lemma_removal_is_local(world, gone, entity, kind, entity);
        },
        BaseOpModel::RemoveEntity { entity } => {
            crate::world_laws::lemma_removed_entity_is_bare(world, entity);
            assert(!world.remove_entity(entity).has(kind, entity));
        },
    }
}

/// An operation is refused exactly when it inserts a singleton that another entity holds,
/// or spawns a bundle with two keys, or one of the bundle's components is refused in turn.
pub proof fn lemma_when_an_operation_is_refused<C: RelationshipTarget>(
    world: WorldModel<C>,
    op: OpModel<C>,
    owner: Invocation,
)
    ensures
        match op {
            OpModel::Insert { entity, fact } => {
                &&& apply_op(world, op, owner).1 is Err <==> world.refuses(entity, fact)
                &&& world.refuses(entity, fact) ==> apply_op(world, op, owner).0 == world
            },
            OpModel::Spawn { facts, .. } => {
                &&& singleton_keys::<C>(facts).len() > 1 ==> apply_op(world, op, owner) == (
                    world,
                    Err::<(), crate::commands::ApplyError>(
                        crate::commands::ApplyError::SeveralSingletons,
                    ),
                )
                &&& facts.len() == 0 ==> apply_op(world, op, owner).1 is Ok
            },
            _ => apply_op(world, op, owner).1 is Ok,
        },
{
}

/// Whether two worlds have the same spawn slots, used and unused.
spec fn same_slots<C: RelationshipTarget>(before: WorldModel<C>, after: WorldModel<C>) -> bool {
    after.spawns == before.spawns && after.cursors == before.cursors
}

proof fn lemma_relink_keeps_slots<C: RelationshipTarget>(
    world: WorldModel<C>,
    entity: Entity,
    before: Option<RelationshipEdge>,
    after: Option<RelationshipEdge>,
)
    ensures
        same_slots(world, world.retract_edge(entity, before)),
        same_slots(world, world.relink(entity, before, after)),
{
}

proof fn lemma_insert_facts_keeps_slots<C: RelationshipTarget>(
    world: WorldModel<C>,
    entity: Entity,
    facts: Seq<C::Model>,
    origin: Origin,
    owner: Option<Invocation>,
)
    ensures
        same_slots(world, insert_facts(world, entity, facts, origin, owner).0),
    decreases facts.len(),
{
    if facts.len() > 0 {
        let done = insert_facts(world, entity, facts.drop_last(), origin, owner).0;
        let last = facts.last();
        lemma_insert_facts_keeps_slots(world, entity, facts.drop_last(), origin, owner);
        lemma_relink_keeps_slots(
            done.put(entity, last, origin, owner),
            entity,
            done.edge_at(C::kind(last), entity),
            C::edge(last),
        );
    }
}

/// A spawn takes the next slot of its invocation, for the entity that it spawned on; the
/// slots before it and those of other invocations stay.
pub proof fn lemma_spawn_takes_its_slot<C: RelationshipTarget>(
    world: WorldModel<C>,
    facts: Seq<C::Model>,
    reserved: Entity,
    owner: Invocation,
    other: Invocation,
    at: int,
)
    requires
        singleton_keys::<C>(facts).len() <= 1,
        world.cursor(owner) <= world.slots(owner).len(),
        world.cursor(owner) < usize::MAX,
        other != owner,
    ensures
        ({
            let after = apply_op(world, OpModel::Spawn { facts, reserved }, owner).0;
            let slot = world.cursor(owner);
            &&& after.cursor(owner) == slot + 1
            &&& after.slots(owner).len() > slot
            &&& after.slots(owner)[slot as int] == spawn_target(world, facts, reserved)
            &&& 0 <= at < slot ==> after.slots(owner)[at] == world.slots(owner)[at]
            &&& after.slots(other) == world.slots(other)
            &&& after.cursor(other) == world.cursor(other)
        }),
{
    let target = spawn_target(world, facts, reserved);
    let ready = registered(world, facts, reserved).record_spawn(owner, target);
    lemma_insert_facts_keeps_slots(ready, target, facts, Origin::Derived, Some(owner));
}

proof fn lemma_remove_stale_keeps_slots<C: RelationshipTarget>(
    world: WorldModel<C>,
    owner: Invocation,
    previous: Seq<Cell>,
)
    ensures
        same_slots(world, world.remove_stale(owner, previous)),
    decreases previous.len(),
{
    if previous.len() > 0 {
        let done = world.remove_stale(owner, previous.drop_last());
        let cell = previous.last();
        lemma_remove_stale_keeps_slots(world, owner, previous.drop_last());
        lemma_relink_keeps_slots(
            done.drop_entry(cell.0, cell.1).due(Hook::Remove, cell.0, cell.1),
            cell.1,
            done.edge_at(cell.0, cell.1),
            None,
        );
    }
}

/// When a run is committed its invocation starts over with its slots, and has no more of
/// them than the run spawned entities.
pub proof fn lemma_commit_closes_the_slots<C: RelationshipTarget>(
    world: WorldModel<C>,
    output: OutputModel<C>,
    defer: bool,
)
    requires
        replace_outputs(world, output, defer).1 is Ok,
    ensures
        ({
            let taken = WorldModel { owned: world.owned.remove(output.owner), ..world };
            let applied = apply_ops(taken, immediate(output.ops, defer), output.owner).0.flush();
            let after = replace_outputs(world, output, defer).0;
            &&& after.cursor(output.owner) == 0
            &&& after.slots(output.owner).len() <= applied.cursor(output.owner)
            &&& after.slots(output.owner).is_prefix_of(applied.slots(output.owner))
        }),
{
    let taken = WorldModel { owned: world.owned.remove(output.owner), ..world };
    let applied = apply_ops(taken, immediate(output.ops, defer), output.owner).0.flush();
    let finished = applied.finish_spawns(output.owner);
    lemma_remove_stale_keeps_slots(
        finished,
        output.owner,
        outputs(world.owned, output.owner),
    );
}

} // verus!
