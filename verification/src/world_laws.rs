//! What holds of worlds whatever is done to them.

use crate::component::{
    captured, ComponentId, DerivedAnchor, RelationshipEdge, RelationshipRetraction,
    RelationshipTarget,
};
use crate::entity::Entity;
use crate::invocation::Invocation;
use crate::model::{
    later, outputs, rank, with_member, without_member, Cell, Entry, Hook, Origin, PendingAnchor,
    WorldModel,
};
use vstd::prelude::*;

verus! {

/// No component is newer than its store's watermark, and no watermark is newer
/// than the world.
pub open spec fn bounded<C: RelationshipTarget>(world: WorldModel<C>) -> bool {
    &&& forall|kind: ComponentId| #[trigger]
        world.stores.contains_key(kind) ==> world.stores[kind].watermark <= world.revision
    &&& forall|kind: ComponentId, id: u64|
        #![trigger world.stores[kind].entries[id]]
        world.stores.contains_key(kind) && world.stores[kind].entries.contains_key(id)
            ==> world.stores[kind].entries[id].revision <= world.stores[kind].watermark
}

/// `after` is reached from `before` by moving forward: counters never go back,
/// revisions stay bounded, and stores stay consistent.
pub open spec fn advances<C: RelationshipTarget>(
    before: WorldModel<C>,
    after: WorldModel<C>,
) -> bool {
    &&& before.revision <= after.revision
    &&& before.mutations <= after.mutations
    &&& bounded(before) ==> bounded(after)
    &&& before.consistent() ==> after.consistent()
}

pub proof fn lemma_put_advances<C: RelationshipTarget>(
    world: WorldModel<C>,
    entity: Entity,
    value: C::Model,
    origin: Origin,
    owner: Option<Invocation>,
)
    ensures
        advances(world, world.put(entity, value, origin, owner)),
{
    let after = world.put(entity, value, origin, owner);
    if world.consistent() {
        assert forall|k: ComponentId, id: u64|
            #![trigger after.stores[k].entries[id]]
            after.stores.contains_key(k) && after.stores[k].entries.contains_key(
                id,
            ) implies C::kind(after.stores[k].entries[id].value) == k && C::stamp(
                after.stores[k].entries[id].value,
            ) == after.stores[k].entries[id].fingerprint by {
            if k != C::kind(value) || id != entity.id() {
                assert(after.stores[k].entries[id] == world.stores[k].entries[id]);
            }
        }
    }
    if bounded(world) {
        let kind = C::kind(value);
        assert forall|k: ComponentId| #[trigger] after.stores.contains_key(k) implies after.stores[k].watermark
            <= after.revision by {
            if k == kind {
                if world.stores.contains_key(kind) {
                    if let Some(old) = world.entry(kind, entity) {
                        assert(old == world.stores[kind].entries[entity.id()]);
                    }
                }
            } else {
                assert(world.stores.contains_key(k));
            }
        }
        assert forall|k: ComponentId, id: u64|
            #![trigger after.stores[k].entries[id]]
            after.stores.contains_key(k) && after.stores[k].entries.contains_key(
                id,
            ) implies after.stores[k].entries[id].revision <= after.stores[k].watermark by {
            if k != kind {
                assert(after.stores[k] == world.stores[k]);
            } else if id != entity.id() {
                assert(after.stores[k].entries[id] == world.column(kind).entries[id]);
                assert(world.stores[k].entries[id].revision <= world.stores[k].watermark);
            }
        }
    }
}

pub proof fn lemma_drop_entry_advances<C: RelationshipTarget>(
    world: WorldModel<C>,
    kind: ComponentId,
    entity: Entity,
)
    ensures
        advances(world, world.drop_entry(kind, entity)),
{
    let after = world.drop_entry(kind, entity);
    if world.consistent() {
        assert forall|k: ComponentId, id: u64|
            #![trigger after.stores[k].entries[id]]
            after.stores.contains_key(k) && after.stores[k].entries.contains_key(
                id,
            ) implies C::kind(after.stores[k].entries[id].value) == k && C::stamp(
                after.stores[k].entries[id].value,
            ) == after.stores[k].entries[id].fingerprint by {
            if k != kind || id != entity.id() {
                assert(after.stores[k].entries[id] == world.stores[k].entries[id]);
            }
        }
    }
    if bounded(world) {
        assert forall|k: ComponentId| #[trigger] after.stores.contains_key(k) implies after.stores[k].watermark
            <= after.revision by {
            if k != kind {
                assert(world.stores.contains_key(k));
            }
        }
        assert forall|k: ComponentId, id: u64|
            #![trigger after.stores[k].entries[id]]
            after.stores.contains_key(k) && after.stores[k].entries.contains_key(
                id,
            ) implies after.stores[k].entries[id].revision <= after.stores[k].watermark by {
            assert(world.stores.contains_key(k));
            assert(after.stores[k].entries[id] == world.stores[k].entries[id]);
        }
    }
}

/// Replacing a value in place only moves the world forward.
pub proof fn lemma_rewrite_advances<C: RelationshipTarget>(
    world: WorldModel<C>,
    entity: Entity,
    value: C::Model,
)
    ensures
        advances(world, world.rewrite(entity, value)),
        advances(world, world.update_flat(entity, value)),
        advances(world, world.reconcile_flat(entity, value)),
{
    let after = world.rewrite(entity, value);
    let kind = C::kind(value);
    if world.consistent() {
        assert forall|k: ComponentId, id: u64|
            #![trigger after.stores[k].entries[id]]
            after.stores.contains_key(k) && after.stores[k].entries.contains_key(
                id,
            ) implies C::kind(after.stores[k].entries[id].value) == k && C::stamp(
                after.stores[k].entries[id].value,
            ) == after.stores[k].entries[id].fingerprint by {
            if k != kind || id != entity.id() {
                assert(after.stores[k].entries[id] == world.stores[k].entries[id]);
            }
        }
    }
    if bounded(world) && world.has(kind, entity) {
        assert(world.stores[kind].entries[entity.id()].revision <= world.stores[kind].watermark);
        assert forall|k: ComponentId| #[trigger] after.stores.contains_key(k) implies after.stores[k].watermark
            <= after.revision by {
            assert(world.stores.contains_key(k));
        }
        assert forall|k: ComponentId, id: u64|
            #![trigger after.stores[k].entries[id]]
            after.stores.contains_key(k) && after.stores[k].entries.contains_key(
                id,
            ) implies after.stores[k].entries[id].revision <= after.stores[k].watermark by {
            assert(world.stores.contains_key(k));
            if k != kind || id != entity.id() {
                assert(after.stores[k].entries[id] == world.stores[k].entries[id]);
            }
        }
    }
}

/// Replacing a value in place, and relinking its edge, only moves the world
/// forward.
pub proof fn lemma_update_advances<C: RelationshipTarget>(
    world: WorldModel<C>,
    entity: Entity,
    value: C::Model,
)
    ensures
        advances(world, world.update(entity, value)),
        advances(world, world.reconcile(entity, value)),
{
    let before = world.edge_at(C::kind(value), entity);
    lemma_rewrite_advances(world, entity, value);
    lemma_relink_advances(world.update_flat(entity, value), entity, before, C::edge(value));
    lemma_relink_advances(world.reconcile_flat(entity, value), entity, before, C::edge(value));
}

proof fn lemma_remove_flat_advances<C: RelationshipTarget>(
    world: WorldModel<C>,
    kind: ComponentId,
    entity: Entity,
)
    ensures
        advances(world, world.remove_flat(kind, entity)),
{
    lemma_drop_entry_advances(world, kind, entity);
    if world.has(kind, entity) {
        let dropped = world.drop_entry(kind, entity);
        let after = world.remove_flat(kind, entity);
        assert(after.stores == dropped.stores && after.revision == dropped.revision);
    }
}

/// Relationship maintenance only moves the world forward.
pub proof fn lemma_members_advance<C: RelationshipTarget>(
    world: WorldModel<C>,
    inverse: ComponentId,
    source: Entity,
    target: Entity,
)
    ensures
        advances(world, world.add_member(inverse, source, target)),
        advances(world, world.remove_member(inverse, source, target)),
{
    let members = world.members(inverse, target);
    let more = C::inverse_fact(inverse, with_member(members, source));
    let less = C::inverse_fact(inverse, without_member(members, source));
    lemma_put_advances(world, target, more, Origin::Base, None);
    lemma_put_advances(world, target, less, Origin::Base, None);
    lemma_remove_flat_advances(world, inverse, target);
}

proof fn lemma_retract_edge_advances<C: RelationshipTarget>(
    world: WorldModel<C>,
    source: Entity,
    edge: Option<RelationshipEdge>,
)
    ensures
        advances(world, world.retract_edge(source, edge)),
{
    if let Some(edge) = edge {
        lemma_members_advance(world, edge.inverse, source, edge.target);
    }
}

pub proof fn lemma_relink_advances<C: RelationshipTarget>(
    world: WorldModel<C>,
    entity: Entity,
    before: Option<RelationshipEdge>,
    after: Option<RelationshipEdge>,
)
    ensures
        advances(world, world.relink(entity, before, after)),
{
    lemma_retract_edge_advances(world, entity, before);
    if let Some(edge) = after {
        lemma_members_advance(
            world.retract_edge(entity, before),
            edge.inverse,
            entity,
            edge.target,
        );
    }
}

/// Inserting only moves the world forward.
pub proof fn lemma_insert_advances<C: RelationshipTarget>(
    world: WorldModel<C>,
    entity: Entity,
    value: C::Model,
    origin: Origin,
    owner: Option<Invocation>,
)
    ensures
        advances(world, world.insert_now(entity, value, origin, owner)),
        advances(world, world.insert(entity, value, origin, owner)),
{
    lemma_put_advances(world, entity, value, origin, owner);
    let put = world.put(entity, value, origin, owner);
    lemma_relink_advances(put, entity, world.edge_at(C::kind(value), entity), C::edge(value));
}

/// Removing a component only moves the world forward.
pub proof fn lemma_remove_component_advances<C: RelationshipTarget>(
    world: WorldModel<C>,
    kind: ComponentId,
    entity: Entity,
)
    ensures
        advances(world, world.remove_component(kind, entity)),
{
    lemma_remove_flat_advances(world, kind, entity);
    lemma_retract_edge_advances(
        world.remove_flat(kind, entity),
        entity,
        world.edge_at(kind, entity),
    );
}

pub proof fn lemma_drop_rows_advances<C: RelationshipTarget>(
    world: WorldModel<C>,
    kinds: Seq<ComponentId>,
    entity: Entity,
)
    ensures
        advances(world, world.drop_rows(kinds, entity)),
    decreases kinds.len(),
{
    if kinds.len() > 0 {
        lemma_drop_rows_advances(world, kinds.drop_last(), entity);
        let rest = world.drop_rows(kinds.drop_last(), entity);
        lemma_drop_entry_advances(rest, kinds.last(), entity);
    }
}

pub proof fn lemma_retract_edges_advances<C: RelationshipTarget>(
    world: WorldModel<C>,
    source: Entity,
    edges: Seq<RelationshipEdge>,
)
    ensures
        advances(world, world.retract_edges(source, edges)),
    decreases edges.len(),
{
    if edges.len() > 0 {
        lemma_retract_edges_advances(world, source, edges.drop_last());
        lemma_retract_edge_advances(
            world.retract_edges(source, edges.drop_last()),
            source,
            Some(edges.last()),
        );
    }
}

proof fn lemma_retract_sources_advances<C: RelationshipTarget>(
    world: WorldModel<C>,
    retractions: Seq<RelationshipRetraction>,
)
    ensures
        advances(world, world.retract_sources(retractions)),
    decreases retractions.len(),
{
    if retractions.len() > 0 {
        lemma_retract_sources_advances(world, retractions.drop_last());
        lemma_remove_component_advances(
            world.retract_sources(retractions.drop_last()),
            retractions.last().edge,
            retractions.last().source,
        );
    }
}

/// Removing an entity only moves the world forward.
pub proof fn lemma_remove_entity_advances<C: RelationshipTarget>(
    world: WorldModel<C>,
    entity: Entity,
)
    ensures
        advances(world, world.remove_entity(entity)),
{
    let kinds = world.kinds();
    lemma_drop_rows_advances(world, kinds, entity);
    let gone = world.drop_rows(kinds, entity).forget(entity);
    lemma_retract_edges_advances(gone, entity, world.edges_on(kinds, entity));
    let unlinked = gone.retract_edges(entity, world.edges_on(kinds, entity));
    lemma_retract_sources_advances(unlinked, world.retractions_on(kinds, entity));
}

/// Giving up derived outputs only moves the world forward.
pub proof fn lemma_remove_owned_advances<C: RelationshipTarget>(
    world: WorldModel<C>,
    owner: Invocation,
    cells: Seq<Cell>,
)
    ensures
        advances(world, world.remove_each_owned(owner, cells)),
        advances(world, world.remove_stale(owner, cells)),
    decreases cells.len(),
{
    if cells.len() > 0 {
        let cell = cells.last();
        lemma_remove_owned_advances(world, owner, cells.drop_last());
        let each = world.remove_each_owned(owner, cells.drop_last());
        lemma_drop_entry_advances(each, cell.0, cell.1);
        lemma_retract_edge_advances(
            each.drop_entry(cell.0, cell.1).due(Hook::Remove, cell.0, cell.1),
            cell.1,
            each.edge_at(cell.0, cell.1),
        );
        let stale = world.remove_stale(owner, cells.drop_last());
        lemma_drop_entry_advances(stale, cell.0, cell.1);
        lemma_retract_edge_advances(
            stale.drop_entry(cell.0, cell.1).due(Hook::Remove, cell.0, cell.1),
            cell.1,
            stale.edge_at(cell.0, cell.1),
        );
    }
}

/// Resolving deferred derived-from markers only moves the world forward.
pub proof fn lemma_flush_advances<C: RelationshipTarget>(
    world: WorldModel<C>,
    pending: Seq<PendingAnchor>,
)
    ensures
        advances(world, world.flush_each(pending)),
    decreases pending.len(),
{
    if pending.len() > 0 {
        lemma_flush_advances(world, pending.drop_last());
        let done = world.flush_each(pending.drop_last());
        let p = pending.last();
        lemma_insert_advances(
            done,
            p.entity,
            C::anchor_fact(captured(p.anchors, done.anchor_revisions(p.anchors))),
            p.origin,
            p.owner,
        );
    }
}

/// Writing an equal fingerprint again keeps the revision of the component and
/// of the world, and counts as no mutation, unless the value is an edge that
/// changes its target.
pub proof fn lemma_equal_write_keeps_revision<C: RelationshipTarget>(
    world: WorldModel<C>,
    entity: Entity,
    value: C::Model,
    origin: Origin,
    owner: Option<Invocation>,
)
    requires
        C::tracks(C::kind(value)),
        world.repeats(entity, value),
        !WorldModel::<C>::retargets(world.edge_at(C::kind(value), entity), C::edge(value)),
    ensures
        ({
            let after = world.insert_now(entity, value, origin, owner);
            let kind = C::kind(value);
            &&& after.revision == world.revision
            &&& after.mutations == world.mutations
            &&& after.entry(kind, entity)->0.revision == world.entry(kind, entity)->0.revision
            &&& after.entry(kind, entity)->0.value == value
            &&& after.column(kind).watermark == later(
                world.column(kind).watermark,
                world.entry(kind, entity)->0.revision,
            )
        }),
{
}

/// Writing a tracked value that is new, or whose fingerprint is absent or
/// different, gives it a revision that no component had before.
pub proof fn lemma_changed_write_is_newest<C: RelationshipTarget>(
    world: WorldModel<C>,
    entity: Entity,
    value: C::Model,
    origin: Origin,
    owner: Option<Invocation>,
)
    requires
        bounded(world),
        world.revision < u64::MAX,
        C::tracks(C::kind(value)),
        !world.repeats(entity, value),
    ensures
        ({
            let after = world.put(entity, value, origin, owner);
            let stamped = after.entry(C::kind(value), entity)->0.revision;
            &&& stamped == world.revision + 1
            &&& forall|kind: ComponentId, other: Entity|
                #![trigger world.entry(kind, other)]
                world.entry(kind, other) matches Some(entry) ==> entry.revision < stamped
        }),
{
    assert forall|kind: ComponentId, other: Entity|
        #![trigger world.entry(kind, other)]
        world.entry(kind, other) matches Some(entry) implies world.entry(kind, other)->0.revision
        < world.revision + 1 by {
        assert(world.stores[kind].entries[other.id()].revision <= world.stores[kind].watermark);
    }
}

/// Untracked writes never move the world's revision.
pub proof fn lemma_untracked_write_keeps_revision<C: RelationshipTarget>(
    world: WorldModel<C>,
    entity: Entity,
    value: C::Model,
    origin: Origin,
    owner: Option<Invocation>,
)
    requires
        !C::tracks(C::kind(value)),
        !WorldModel::<C>::retargets(world.edge_at(C::kind(value), entity), C::edge(value)),
    ensures
        world.insert_now(entity, value, origin, owner).revision == world.revision,
        world.remove_flat(C::kind(value), entity).revision == world.revision,
{
}

pub proof fn lemma_put_entry<C: RelationshipTarget>(
    world: WorldModel<C>,
    entity: Entity,
    value: C::Model,
    origin: Origin,
    owner: Option<Invocation>,
    kind: ComponentId,
    other: Entity,
)
    ensures
        ({
            let after = world.put(entity, value, origin, owner);
            if kind == C::kind(value) && other == entity {
                after.entry(kind, other) == Some(
                    Entry::<C> {
                        value,
                        revision: world.written_revision(entity, value),
                        fingerprint: C::stamp(value),
                        origin,
                        owner,
                        cell: world.fresh_cell(),
                    },
                )
            } else {
                after.entry(kind, other) == world.entry(kind, other)
            }
        }),
{
    if kind == C::kind(value) && other.id() == entity.id() {
        crate::entity::lemma_entity_is_its_id(other, entity);
    }
}

pub proof fn lemma_drop_entry_entry<C: RelationshipTarget>(
    world: WorldModel<C>,
    kind: ComponentId,
    entity: Entity,
    other_kind: ComponentId,
    other: Entity,
)
    ensures
        world.drop_entry(kind, entity).entry(other_kind, other) == if other_kind == kind && other
            == entity {
            None
        } else {
            world.entry(other_kind, other)
        },
{
    if other_kind == kind && other.id() == entity.id() {
        crate::entity::lemma_entity_is_its_id(other, entity);
    }
}

/// Relationship maintenance of inverse `inverse` on `target` touches that one
/// component only.
pub proof fn lemma_members_touch_one_cell<C: RelationshipTarget>(
    world: WorldModel<C>,
    inverse: ComponentId,
    source: Entity,
    target: Entity,
    kind: ComponentId,
    other: Entity,
)
    requires
        C::is_inverse(inverse),
        kind != inverse || other != target,
    ensures
        world.add_member(inverse, source, target).entry(kind, other) == world.entry(kind, other),
        world.remove_member(inverse, source, target).entry(kind, other) == world.entry(kind, other),
{
    let members = world.members(inverse, target);
    let more = with_member(members, source);
    let less = without_member(members, source);
    C::inverse_laws(inverse, more);
    C::inverse_laws(inverse, less);
    lemma_put_entry(world, target, C::inverse_fact(inverse, more), Origin::Base, None, kind, other);
    lemma_put_entry(world, target, C::inverse_fact(inverse, less), Origin::Base, None, kind, other);
    lemma_drop_entry_entry(world, inverse, target, kind, other);
}

/// What was inserted is read back, and an insert that is no edge leaves every
/// other component as it was.
pub proof fn lemma_insert_reads_back<C: RelationshipTarget>(
    world: WorldModel<C>,
    entity: Entity,
    value: C::Model,
    origin: Origin,
    owner: Option<Invocation>,
    kind: ComponentId,
    other: Entity,
)
    requires
        world.consistent(),
        C::anchored(value) is None,
        !world.refuses(entity, value),
    ensures
        ({
            let after = world.insert(entity, value, origin, owner);
            &&& after.entry(C::kind(value), entity) matches Some(entry) && entry.value == value
                && entry.origin == origin && entry.owner == owner
            &&& (C::edge(value) is None && world.edge_at(C::kind(value), entity) is None && (kind
                != C::kind(value) || other != entity)) ==> after.entry(kind, other)
                == world.entry(kind, other)
        }),
{
    let put = world.put(entity, value, origin, owner);
    let own = C::kind(value);
    lemma_put_entry(world, entity, value, origin, owner, own, entity);
    lemma_put_entry(world, entity, value, origin, owner, kind, other);
    C::edge_laws(value);
    let before = world.edge_at(own, entity);
    if let Some(old) = world.entry(own, entity) {
        assert(C::kind(world.stores[own].entries[entity.id()].value) == own);
        C::edge_laws(old.value);
    }
    let retracted = put.retract_edge(entity, before);
    if let Some(edge) = before {
        lemma_members_touch_one_cell(put, edge.inverse, entity, edge.target, own, entity);
    }
    if let Some(edge) = C::edge(value) {
        lemma_members_touch_one_cell(retracted, edge.inverse, entity, edge.target, own, entity);
    }
}

/// Member lists sorted by id, without repetition.
pub open spec fn sorted_members(members: Seq<Entity>) -> bool {
    forall|i: int, j: int| 0 <= i < j < members.len() ==> members[i].id() < members[j].id()
}

proof fn lemma_rank(members: Seq<Entity>, source: Entity)
    requires
        sorted_members(members),
    ensures
        0 <= rank(members, source) <= members.len(),
        forall|i: int| 0 <= i < rank(members, source) ==> members[i].id() < source.id(),
        forall|i: int|
            rank(members, source) <= i < members.len() ==> members[i].id() >= source.id(),
    decreases members.len(),
{
    if members.len() > 0 && members[0].id() < source.id() {
        let rest = members.drop_first();
        assert(sorted_members(rest)) by {
            assert forall|i: int, j: int| 0 <= i < j < rest.len() implies rest[i].id()
                < rest[j].id() by {
                assert(rest[i] == members[i + 1] && rest[j] == members[j + 1]);
            }
        }
        lemma_rank(rest, source);
        let at = rank(members, source);
        assert forall|i: int| 0 <= i < at implies members[i].id() < source.id() by {
            if i > 0 {
                assert(rest[i - 1] == members[i]);
            }
        }
        assert forall|i: int| at <= i < members.len() implies members[i].id() >= source.id() by {
            assert(rest[i - 1] == members[i]);
        }
    }
}

/// A sorted member list stays sorted when a member joins, and then lists
/// exactly the old members and the new one.
pub proof fn lemma_joined_members(members: Seq<Entity>, source: Entity)
    requires
        sorted_members(members),
    ensures
        sorted_members(with_member(members, source)),
        forall|other: Entity|
            with_member(members, source).contains(other) <==> (#[trigger] members.contains(other)
                || other == source),
{
    let after = with_member(members, source);
    if !members.contains(source) {
        lemma_rank(members, source);
        let at = rank(members, source);
        assert forall|i: int| at <= i < members.len() implies members[i].id() > source.id() by {
            if members[i].id() == source.id() {
                crate::entity::lemma_entity_is_its_id(members[i], source);
            }
        }
        assert forall|i: int, j: int| 0 <= i < j < after.len() implies after[i].id()
            < after[j].id() by {}
        assert forall|other: Entity|
            after.contains(other) <==> (#[trigger] members.contains(other) || other == source) by {
            if members.contains(other) {
                let i = choose|i: int| 0 <= i < members.len() && members[i] == other;
                assert(after[if i < at { i } else { i + 1 }] == other);
            }
            assert(after[at] == source);
        }
    }
}

/// A sorted member list stays sorted when a member leaves, and then lists
/// exactly the other members.
pub proof fn lemma_left_members(members: Seq<Entity>, source: Entity)
    requires
        sorted_members(members),
    ensures
        sorted_members(without_member(members, source)),
        forall|other: Entity|
            without_member(members, source).contains(other) <==> (#[trigger] members.contains(other)
                && other != source),
    decreases members.len(),
{
    if members.len() > 0 {
        let rest = members.drop_first();
        assert(sorted_members(rest)) by {
            assert forall|i: int, j: int| 0 <= i < j < rest.len() implies rest[i].id()
                < rest[j].id() by {
                assert(rest[i] == members[i + 1] && rest[j] == members[j + 1]);
            }
        }
        lemma_left_members(rest, source);
        let left = without_member(rest, source);
        let after = without_member(members, source);
        assert forall|other: Entity|
            members.contains(other) <==> (other == members[0] || #[trigger] rest.contains(
                other,
            )) by {
            if members.contains(other) {
                let i = choose|i: int| 0 <= i < members.len() && members[i] == other;
                if i > 0 {
                    assert(rest[i - 1] == other);
                }
            }
            if rest.contains(other) {
                let i = choose|i: int| 0 <= i < rest.len() && rest[i] == other;
                assert(members[i + 1] == other);
            }
        }
        assert forall|other: Entity| #[trigger] rest.contains(other) implies other.id()
            > members[0].id() by {
            let i = choose|i: int| 0 <= i < rest.len() && rest[i] == other;
            assert(members[i + 1] == other);
        }
        if members[0] == source {
            assert(after == rest);
            assert forall|other: Entity|
                after.contains(other) <==> (#[trigger] members.contains(other) && other
                    != source) by {
                assert(rest.contains(other) ==> other.id() > members[0].id());
            }
        } else {
            assert(after =~= seq![members[0]] + left);
            assert forall|i: int, j: int| 0 <= i < j < after.len() implies after[i].id()
                < after[j].id() by {
                if i == 0 {
                    assert(left.contains(left[j - 1]));
                    assert(rest.contains(left[j - 1]));
                } else {
                    assert(left[i - 1].id() < left[j - 1].id());
                }
            }
            assert forall|other: Entity|
                after.contains(other) <==> (#[trigger] members.contains(other) && other
                    != source) by {
                if rest.contains(other) {
                    assert(left.contains(other) == (other != source));
                } else {
                    assert(!left.contains(other)) by {
                        if left.contains(other) {
                            assert(rest.contains(other));
                        }
                    }
                }
                if after.contains(other) {
                    let i = choose|i: int| 0 <= i < after.len() && after[i] == other;
                    if i > 0 {
                        assert(left[i - 1] == other);
                        assert(left.contains(other));
                    }
                }
                if left.contains(other) {
                    let i = choose|i: int| 0 <= i < left.len() && left[i] == other;
                    assert(after[i + 1] == other);
                }
                assert(after[0] == members[0]);
            }
        }
    }
}

/// Adding a member lists it on the target, with everything listed before, in
/// order.
pub proof fn lemma_add_member_lists<C: RelationshipTarget>(
    world: WorldModel<C>,
    inverse: ComponentId,
    source: Entity,
    target: Entity,
)
    requires
        C::is_inverse(inverse),
    ensures
        ({
            let before = world.members(inverse, target);
            let after = world.add_member(inverse, source, target).members(inverse, target);
            &&& after == with_member(before, source)
            &&& sorted_members(before) ==> sorted_members(after)
        }),
{
    let members = world.members(inverse, target);
    let more = with_member(members, source);
    C::inverse_laws(inverse, more);
    lemma_put_entry(
        world,
        target,
        C::inverse_fact(inverse, more),
        Origin::Base,
        None,
        inverse,
        target,
    );
    if sorted_members(members) {
        lemma_joined_members(members, source);
    }
}

/// Removing a member leaves the others listed in order; an inverse without
/// members is gone.
pub proof fn lemma_remove_member_lists<C: RelationshipTarget>(
    world: WorldModel<C>,
    inverse: ComponentId,
    source: Entity,
    target: Entity,
)
    requires
        C::is_inverse(inverse),
    ensures
        ({
            let before = world.members(inverse, target);
            let after = world.remove_member(inverse, source, target);
            &&& before.contains(source) ==> after.members(inverse, target) == without_member(
                before,
                source,
            )
            &&& !before.contains(source) ==> after == world
            &&& before.contains(source) && without_member(before, source).len() == 0
                ==> !after.has(inverse, target)
            &&& sorted_members(before) ==> sorted_members(after.members(inverse, target))
            &&& sorted_members(before) ==> !after.members(inverse, target).contains(source)
        }),
{
    let members = world.members(inverse, target);
    let less = without_member(members, source);
    C::inverse_laws(inverse, less);
    lemma_put_entry(
        world,
        target,
        C::inverse_fact(inverse, less),
        Origin::Base,
        None,
        inverse,
        target,
    );
    lemma_drop_entry_entry(world, inverse, target, inverse, target);
    if sorted_members(members) {
        lemma_left_members(members, source);
        assert(less.contains(source) <==> (members.contains(source) && source != source));
    }
    if members.contains(source) && less.len() == 0 {
        assert(world.has(inverse, target));
        assert(less =~= Seq::<Entity>::empty());
    }
}

/// Inserting an edge lists its entity on the target; the target it pointed at
/// before lists it no longer. The lists stay sorted.
pub proof fn lemma_edge_insert_maintains_inverse<C: RelationshipTarget>(
    world: WorldModel<C>,
    entity: Entity,
    value: C::Model,
    origin: Origin,
    owner: Option<Invocation>,
)
    requires
        C::edge(value) is Some,
        C::anchored(value) is None,
        !world.refuses(entity, value),
        sorted_members(world.members(C::edge(value)->0.inverse, C::edge(value)->0.target)),
        world.edge_at(C::kind(value), entity) matches Some(old) ==> {
            &&& old.inverse == C::edge(value)->0.inverse
            &&& sorted_members(world.members(old.inverse, old.target))
            &&& world.members(old.inverse, old.target).contains(entity)
        },
    ensures
        ({
            let edge = C::edge(value)->0;
            let after = world.insert(entity, value, origin, owner);
            &&& after.members(edge.inverse, edge.target).contains(entity)
            &&& sorted_members(after.members(edge.inverse, edge.target))
            &&& world.edge_at(C::kind(value), entity) matches Some(old) ==> old.target
                != edge.target ==> !after.members(old.inverse, old.target).contains(entity)
        }),
{
    let kind = C::kind(value);
    let edge = C::edge(value)->0;
    let put = world.put(entity, value, origin, owner);
    let before = world.edge_at(kind, entity);
    C::edge_laws(value);
    lemma_put_entry(world, entity, value, origin, owner, edge.inverse, edge.target);
    assert(put.members(edge.inverse, edge.target) == world.members(edge.inverse, edge.target));
    let retracted = put.retract_edge(entity, before);
    if let Some(old) = before {
        lemma_put_entry(world, entity, value, origin, owner, old.inverse, old.target);
        assert(put.members(old.inverse, old.target) == world.members(old.inverse, old.target));
        if old.target != edge.target {
            lemma_remove_member_lists(put, old.inverse, entity, old.target);
            lemma_members_touch_one_cell(
                put,
                old.inverse,
                entity,
                old.target,
                edge.inverse,
                edge.target,
            );
            lemma_add_member_lists(retracted, edge.inverse, entity, edge.target);
            lemma_members_touch_one_cell(
                retracted,
                edge.inverse,
                entity,
                edge.target,
                old.inverse,
                old.target,
            );
            lemma_joined_members(retracted.members(edge.inverse, edge.target), entity);
            assert(retracted.members(edge.inverse, edge.target).contains(entity)
                || !retracted.members(edge.inverse, edge.target).contains(entity));
        }
    } else {
        lemma_add_member_lists(put, edge.inverse, entity, edge.target);
        lemma_joined_members(put.members(edge.inverse, edge.target), entity);
        assert(put.members(edge.inverse, edge.target).contains(entity) || !put.members(
            edge.inverse,
            edge.target,
        ).contains(entity));
    }
}

/// Inserting an edge that points where it pointed touches no inverse.
pub proof fn lemma_same_edge_touches_nothing<C: RelationshipTarget>(
    world: WorldModel<C>,
    entity: Entity,
    value: C::Model,
    origin: Origin,
    owner: Option<Invocation>,
    kind: ComponentId,
    other: Entity,
)
    requires
        world.edge_at(C::kind(value), entity) == C::edge(value),
        kind != C::kind(value) || other != entity,
    ensures
        world.insert_now(entity, value, origin, owner).entry(kind, other) == world.entry(
            kind,
            other,
        ),
{
    lemma_put_entry(world, entity, value, origin, owner, kind, other);
}

/// Whether `entity` carries no component at all.
pub open spec fn bare<C: RelationshipTarget>(world: WorldModel<C>, entity: Entity) -> bool {
    forall|kind: ComponentId| !#[trigger] world.has(kind, entity)
}

proof fn lemma_retract_keeps_bare<C: RelationshipTarget>(
    world: WorldModel<C>,
    source: Entity,
    edge: Option<RelationshipEdge>,
    entity: Entity,
)
    requires
        bare(world, entity),
        edge matches Some(edge) ==> C::is_inverse(edge.inverse),
    ensures
        bare(world.retract_edge(source, edge), entity),
{
    if let Some(edge) = edge {
        if edge.target == entity {
            assert(!world.has(edge.inverse, entity));
            assert(world.members(edge.inverse, entity) =~= Seq::<Entity>::empty());
        } else {
            assert forall|kind: ComponentId| !#[trigger] world.remove_member(
                edge.inverse,
                source,
                edge.target,
            ).has(kind, entity) by {
                lemma_members_touch_one_cell(
                    world,
                    edge.inverse,
                    source,
                    edge.target,
                    kind,
                    entity,
                );
                assert(!world.has(kind, entity));
            }
        }
    }
}

proof fn lemma_remove_component_keeps_bare<C: RelationshipTarget>(
    world: WorldModel<C>,
    kind: ComponentId,
    owner: Entity,
    entity: Entity,
)
    requires
        bare(world, entity),
    ensures
        bare(world.remove_component(kind, owner), entity),
{
    let after = world.remove_flat(kind, owner);
    assert forall|k: ComponentId| !#[trigger] after.has(k, entity) by {
        assert(!world.has(k, entity));
        lemma_drop_entry_entry(world, kind, owner, k, entity);
    }
    if let Some(entry) = world.entry(kind, owner) {
        C::edge_laws(entry.value);
    }
    lemma_retract_keeps_bare(after, owner, world.edge_at(kind, owner), entity);
}

proof fn lemma_edges_on_name_inverses<C: RelationshipTarget>(
    world: WorldModel<C>,
    kinds: Seq<ComponentId>,
    entity: Entity,
)
    ensures
        forall|i: int|
            0 <= i < world.edges_on(kinds, entity).len() ==> C::is_inverse(
                (#[trigger] world.edges_on(kinds, entity)[i]).inverse,
            ),
    decreases kinds.len(),
{
    if kinds.len() > 0 {
        lemma_edges_on_name_inverses(world, kinds.drop_last(), entity);
        if let Some(entry) = world.entry(kinds.last(), entity) {
            C::edge_laws(entry.value);
        }
        let rest = world.edges_on(kinds.drop_last(), entity);
        let all = world.edges_on(kinds, entity);
        assert forall|i: int| 0 <= i < all.len() implies C::is_inverse(
            (#[trigger] all[i]).inverse,
        ) by {
            if i < rest.len() {
                assert(all[i] == rest[i]);
            }
        }
    }
}

proof fn lemma_retract_edges_keeps_bare<C: RelationshipTarget>(
    world: WorldModel<C>,
    source: Entity,
    edges: Seq<RelationshipEdge>,
    entity: Entity,
)
    requires
        bare(world, entity),
        forall|i: int| 0 <= i < edges.len() ==> C::is_inverse((#[trigger] edges[i]).inverse),
    ensures
        bare(world.retract_edges(source, edges), entity),
    decreases edges.len(),
{
    if edges.len() > 0 {
        let rest = edges.drop_last();
        assert forall|i: int| 0 <= i < rest.len() implies C::is_inverse(
            (#[trigger] rest[i]).inverse,
        ) by {
            assert(rest[i] == edges[i]);
        }
        lemma_retract_edges_keeps_bare(world, source, rest, entity);
        assert(edges.last() == edges[edges.len() - 1]);
        lemma_retract_keeps_bare(
            world.retract_edges(source, rest),
            source,
            Some(edges.last()),
            entity,
        );
    }
}

proof fn lemma_retract_sources_keeps_bare<C: RelationshipTarget>(
    world: WorldModel<C>,
    retractions: Seq<RelationshipRetraction>,
    entity: Entity,
)
    requires
        bare(world, entity),
    ensures
        bare(world.retract_sources(retractions), entity),
    decreases retractions.len(),
{
    if retractions.len() > 0 {
        lemma_retract_sources_keeps_bare(world, retractions.drop_last(), entity);
        lemma_remove_component_keeps_bare(
            world.retract_sources(retractions.drop_last()),
            retractions.last().edge,
            retractions.last().source,
            entity,
        );
    }
}

/// A removed entity carries nothing any more, holds no singleton key, and is
/// noted as removed.
pub proof fn lemma_removed_entity_is_bare<C: RelationshipTarget>(
    world: WorldModel<C>,
    entity: Entity,
)
    ensures
        bare(world.remove_entity(entity), entity),
        ({
            let gone = world.drop_rows(world.kinds(), entity).forget(entity);
            &&& forall|key: ComponentId| #[trigger]
                gone.singletons.contains_key(key) ==> gone.singletons[key] != entity.id()
            &&& gone.removed.last() == entity
        }),
{
    let kinds = world.kinds();
    crate::model::lemma_sorted_keys_list(world.stores.dom());
    let dropped = world.drop_rows(kinds, entity);
    let gone = dropped.forget(entity);
    assert forall|kind: ComponentId| !#[trigger] gone.has(kind, entity) by {
        crate::world::lemma_drop_rows_empties(world, kinds, entity, kind);
        if world.has(kind, entity) {
            assert(kinds.to_set().contains(kind));
        }
        assert(gone.has(kind, entity) == dropped.has(kind, entity));
    }
    lemma_edges_on_name_inverses(world, kinds, entity);
    lemma_retract_edges_keeps_bare(gone, entity, world.edges_on(kinds, entity), entity);
    lemma_retract_sources_keeps_bare(
        gone.retract_edges(entity, world.edges_on(kinds, entity)),
        world.retractions_on(kinds, entity),
        entity,
    );
}

/// Giving up derived outputs leaves a bare entity bare.
pub proof fn lemma_give_up_keeps_bare<C: RelationshipTarget>(
    world: WorldModel<C>,
    owner: Invocation,
    cells: Seq<Cell>,
    entity: Entity,
)
    requires
        bare(world, entity),
    ensures
        bare(world.remove_each_owned(owner, cells), entity),
    decreases cells.len(),
{
    if cells.len() > 0 {
        let rest = world.remove_each_owned(owner, cells.drop_last());
        let cell = cells.last();
        lemma_give_up_keeps_bare(world, owner, cells.drop_last(), entity);
        if rest.owns(owner, cell) {
            let dropped = rest.drop_entry(cell.0, cell.1).due(Hook::Remove, cell.0, cell.1);
            assert forall|k: ComponentId| !#[trigger] dropped.has(k, entity) by {
                assert(!rest.has(k, entity));
                lemma_drop_entry_entry(rest, cell.0, cell.1, k, entity);
            }
            if let Some(entry) = rest.entry(cell.0, cell.1) {
                C::edge_laws(entry.value);
            }
            lemma_retract_keeps_bare(dropped, cell.1, rest.edge_at(cell.0, cell.1), entity);
        }
    }
}

/// A component that was removed, or that was not there, is not there.
pub proof fn lemma_remove_component_removes<C: RelationshipTarget>(
    world: WorldModel<C>,
    kind: ComponentId,
    entity: Entity,
    lost: ComponentId,
    from: Entity,
)
    requires
        !C::is_inverse(lost),
        !world.has(lost, from) || (kind == lost && entity == from),
    ensures
        !world.remove_component(kind, entity).has(lost, from),
{
    let after = world.remove_flat(kind, entity);
    lemma_drop_entry_entry(world, kind, entity, lost, from);
    assert(!after.has(lost, from));
    if let Some(entry) = world.entry(kind, entity) {
        C::edge_laws(entry.value);
        if let Some(edge) = C::edge(entry.value) {
            lemma_members_touch_one_cell(after, edge.inverse, entity, edge.target, lost, from);
        }
    }
}

/// When a relationship target is removed, every edge component named by its
/// retractions is removed from its source.
pub proof fn lemma_removed_target_retracts_edges<C: RelationshipTarget>(
    world: WorldModel<C>,
    retractions: Seq<RelationshipRetraction>,
    i: int,
)
    requires
        0 <= i < retractions.len(),
        !C::is_inverse(retractions[i].edge),
    ensures
        !world.retract_sources(retractions).has(retractions[i].edge, retractions[i].source),
    decreases retractions.len(),
{
    let rest = retractions.drop_last();
    let done = world.retract_sources(rest);
    if i < rest.len() {
        assert(rest[i] == retractions[i]);
        lemma_removed_target_retracts_edges(world, rest, i);
    }
    lemma_remove_component_removes(
        done,
        retractions.last().edge,
        retractions.last().source,
        retractions[i].edge,
        retractions[i].source,
    );
}

/// The entity revision is the newest revision of the tracked components it
/// carries, and absent if it carries none.
pub proof fn lemma_entity_revision_is_newest<C: RelationshipTarget>(
    world: WorldModel<C>,
    kinds: Seq<ComponentId>,
    entity: Entity,
)
    ensures
        match world.newest(kinds, entity) {
            None => forall|kind: ComponentId| #[trigger]
                kinds.contains(kind) && C::tracks(kind) ==> !world.has(kind, entity),
            Some(revision) => {
                &&& forall|kind: ComponentId| #[trigger]
                    kinds.contains(kind) && C::tracks(kind) && world.has(kind, entity)
                        ==> world.entry(kind, entity)->0.revision <= revision
                &&& exists|kind: ComponentId| #[trigger]
                    kinds.contains(kind) && C::tracks(kind) && world.has(kind, entity)
                        && world.entry(kind, entity)->0.revision == revision
            },
        },
    decreases kinds.len(),
{
    if kinds.len() > 0 {
        let rest = kinds.drop_last();
        let last = kinds.last();
        lemma_entity_revision_is_newest(world, rest, entity);
        assert forall|kind: ComponentId| #[trigger] kinds.contains(kind) <==> (rest.contains(kind)
            || kind == last) by {
            if rest.contains(kind) {
                let j = choose|j: int| 0 <= j < rest.len() && rest[j] == kind;
                assert(kinds[j] == kind);
            }
            if kinds.contains(kind) {
                let j = choose|j: int| 0 <= j < kinds.len() && kinds[j] == kind;
                if j < rest.len() {
                    assert(rest[j] == kind);
                }
            }
            assert(kinds[kinds.len() - 1] == last);
        }
        assert(kinds.contains(last));
        if let Some(revision) = world.newest(rest, entity) {
            let witness = choose|kind: ComponentId| #[trigger]
                rest.contains(kind) && C::tracks(kind) && world.has(kind, entity) && world.entry(
                    kind,
                    entity,
                )->0.revision == revision;
            assert(kinds.contains(witness));
        }
    }
}

/// Two worlds that agree on the tracked components of an entity agree on its
/// revision.
pub proof fn lemma_entity_revision_depends_on_tracked<C: RelationshipTarget>(
    a: WorldModel<C>,
    b: WorldModel<C>,
    entity: Entity,
)
    requires
        forall|kind: ComponentId| #[trigger]
            C::tracks(kind) ==> a.entry(kind, entity) == b.entry(kind, entity),
    ensures
        a.entity_revision(entity) == b.entity_revision(entity),
{
    crate::model::lemma_sorted_keys_list(a.stores.dom());
    crate::model::lemma_sorted_keys_list(b.stores.dom());
    lemma_entity_revision_is_newest(a, a.kinds(), entity);
    lemma_entity_revision_is_newest(b, b.kinds(), entity);
    assert forall|kind: ComponentId| C::tracks(kind) && a.has(kind, entity) implies (
    #[trigger] a.kinds().contains(kind) && b.kinds().contains(kind) && b.has(kind, entity)) by {
        assert(a.entry(kind, entity) == b.entry(kind, entity));
        assert(a.kinds().to_set().contains(kind));
        assert(b.kinds().to_set().contains(kind));
    }
    assert forall|kind: ComponentId| C::tracks(kind) && b.has(kind, entity) implies (
    #[trigger] b.kinds().contains(kind) && a.kinds().contains(kind) && a.has(kind, entity)) by {
        assert(a.entry(kind, entity) == b.entry(kind, entity));
        assert(a.kinds().to_set().contains(kind));
        assert(b.kinds().to_set().contains(kind));
    }
    let ra = a.newest(a.kinds(), entity);
    let rb = b.newest(b.kinds(), entity);
    if ra is Some {
        let witness = choose|kind: ComponentId| #[trigger]
            a.kinds().contains(kind) && C::tracks(kind) && a.has(kind, entity) && a.entry(
                kind,
                entity,
            )->0.revision == ra->0;
        assert(b.kinds().contains(witness));
        assert(a.entry(witness, entity) == b.entry(witness, entity));
    }
    if rb is Some {
        let witness = choose|kind: ComponentId| #[trigger]
            b.kinds().contains(kind) && C::tracks(kind) && b.has(kind, entity) && b.entry(
                kind,
                entity,
            )->0.revision == rb->0;
        assert(a.kinds().contains(witness));
        assert(a.entry(witness, entity) == b.entry(witness, entity));
    }
}

proof fn lemma_anchor_insert_is_flat<C: RelationshipTarget>(
    world: WorldModel<C>,
    entity: Entity,
    anchors: Seq<DerivedAnchor>,
    origin: Origin,
    owner: Option<Invocation>,
    kind: ComponentId,
    other: Entity,
)
    requires
        world.consistent(),
    ensures
        ({
            let fact = C::anchor_fact(anchors);
            let after = world.insert_now(entity, fact, origin, owner);
            &&& after.entry(C::anchor_kind(), entity) matches Some(entry) && entry.value == fact
            &&& (kind != C::anchor_kind() || other != entity) ==> after.entry(kind, other)
                == world.entry(kind, other)
            &&& after.consistent()
        }),
{
    let fact = C::anchor_fact(anchors);
    C::anchor_laws(anchors);
    C::marker_laws(fact);
    let own = C::anchor_kind();
    lemma_put_entry(world, entity, fact, origin, owner, own, entity);
    lemma_put_entry(world, entity, fact, origin, owner, kind, other);
    lemma_insert_advances(world, entity, fact, origin, owner);
    if let Some(old) = world.entry(own, entity) {
        assert(world.stores[own].entries[entity.id()] == old);
        C::marker_laws(old.value);
    }
}

proof fn lemma_flush_keeps_the_rest<C: RelationshipTarget>(
    world: WorldModel<C>,
    pending: Seq<PendingAnchor>,
    kind: ComponentId,
    other: Entity,
)
    requires
        world.consistent(),
    ensures
        world.flush_each(pending).consistent(),
        (kind != C::anchor_kind() || forall|i: int|
            0 <= i < pending.len() ==> (#[trigger] pending[i]).entity != other)
            ==> world.flush_each(pending).entry(kind, other) == world.entry(kind, other),
    decreases pending.len(),
{
    if pending.len() > 0 {
        let rest = pending.drop_last();
        let p = pending.last();
        lemma_flush_keeps_the_rest(world, rest, kind, other);
        let done = world.flush_each(rest);
        lemma_anchor_insert_is_flat(
            done,
            p.entity,
            captured(p.anchors, done.anchor_revisions(p.anchors)),
            p.origin,
            p.owner,
            kind,
            other,
        );
        if forall|i: int| 0 <= i < pending.len() ==> (#[trigger] pending[i]).entity != other {
            assert(p == pending[pending.len() - 1]);
            assert forall|i: int| 0 <= i < rest.len() implies (#[trigger] rest[i]).entity
                != other by {
                assert(rest[i] == pending[i]);
            }
        }
    }
}

/// Resolving deferred derived-from markers changes no entity's revision.
pub proof fn lemma_flush_keeps_entity_revisions<C: RelationshipTarget>(
    world: WorldModel<C>,
    pending: Seq<PendingAnchor>,
    entity: Entity,
)
    requires
        world.consistent(),
    ensures
        world.flush_each(pending).entity_revision(entity) == world.entity_revision(entity),
{
    let after = world.flush_each(pending);
    assert forall|kind: ComponentId| #[trigger] C::tracks(kind) implies world.entry(kind, entity)
        == after.entry(kind, entity) by {
        C::anchor_laws(Seq::empty());
        C::marker_laws(C::anchor_fact(Seq::empty()));
        lemma_flush_keeps_the_rest(world, pending, kind, entity);
    }
    lemma_entity_revision_depends_on_tracked(after, world, entity);
}

/// Anchors are resolved against the fully written world: after a flush, the
/// marker of every entity that was last written by `pending[i]` holds the
/// revisions its anchors have now, whatever order the buffer was in.
pub proof fn lemma_flush_captures_current_revisions<C: RelationshipTarget>(
    world: WorldModel<C>,
    pending: Seq<PendingAnchor>,
    i: int,
)
    requires
        world.consistent(),
        0 <= i < pending.len(),
        forall|j: int| i < j < pending.len() ==> (#[trigger] pending[j]).entity != pending[i].entity,
    ensures
        ({
            let after = world.flush_each(pending);
            let anchors = pending[i].anchors;
            after.entry(C::anchor_kind(), pending[i].entity) matches Some(entry) && entry.value
                == C::anchor_fact(captured(anchors, after.anchor_revisions(anchors)))
        }),
    decreases pending.len(),
{
    let rest = pending.drop_last();
    let done = world.flush_each(rest);
    let after = world.flush_each(pending);
    let p = pending.last();
    let anchors = pending[i].anchors;
    lemma_flush_keeps_the_rest(world, rest, C::anchor_kind(), p.entity);
    assert forall|other: Entity| #[trigger] done.entity_revision(other) == after.entity_revision(
        other,
    ) by {
        lemma_flush_keeps_entity_revisions(world, rest, other);
        lemma_flush_keeps_entity_revisions(world, pending, other);
    }
    assert(done.anchor_revisions(anchors) =~= after.anchor_revisions(anchors));
    lemma_anchor_insert_is_flat(
        done,
        p.entity,
        captured(p.anchors, done.anchor_revisions(p.anchors)),
        p.origin,
        p.owner,
        C::anchor_kind(),
        pending[i].entity,
    );
    if i < rest.len() {
        assert forall|j: int| i < j < rest.len() implies (#[trigger] rest[j]).entity
            != rest[i].entity by {
            assert(rest[j] == pending[j]);
        }
        assert(rest[i] == pending[i]);
        lemma_flush_captures_current_revisions(world, rest, i);
        assert(pending[pending.len() - 1].entity != pending[i].entity);
    }
}

} // verus!
