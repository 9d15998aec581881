//! What the write log and the store watermarks say of a world's past: nothing
//! that planning depends on changes without leaving its mark in both.

use crate::commands::{apply_base_op, apply_base_ops, apply_op, apply_ops, insert_facts};
use crate::commands::{registered, spawn_target, BaseOpModel, OpModel};
use crate::component::{captured, ComponentId, RelationshipEdge, RelationshipRetraction,
    RelationshipTarget};
use crate::entity::Entity;
use crate::invocation::Invocation;
use crate::model::{with_member, without_member, Cell, Hook, Origin, PendingAnchor, WorldModel};
use crate::world_laws::{advances, bounded, lemma_drop_entry_advances, lemma_put_advances,
    lemma_rewrite_advances};
use vstd::prelude::*;

verus! {

/// Whether `kind` on `entity` is as present, and at the same revision, in both
/// worlds.
pub open spec fn same_row<C: RelationshipTarget>(
    before: WorldModel<C>,
    after: WorldModel<C>,
    kind: ComponentId,
    entity: Entity,
) -> bool {
    match (before.entry(kind, entity), after.entry(kind, entity)) {
        (Some(a), Some(b)) => a.revision == b.revision,
        (None, None) => true,
        _ => false,
    }
}

/// The cells logged since `before`.
pub open spec fn logged_since<C: RelationshipTarget>(
    before: WorldModel<C>,
    after: WorldModel<C>,
) -> Seq<Cell> {
    after.log.skip(before.log.len() as int)
}

/// The log of `after` continues that of `before`, and every row that is absent
/// from the continuation is unchanged.
pub open spec fn log_covers<C: RelationshipTarget>(
    before: WorldModel<C>,
    after: WorldModel<C>,
) -> bool {
    &&& before.log.len() <= after.log.len()
    &&& after.log.take(before.log.len() as int) == before.log
    &&& forall|kind: ComponentId, entity: Entity|
        !logged_since(before, after).contains((kind, entity)) ==> #[trigger] same_row(
            before,
            after,
            kind,
            entity,
        )
}

/// Watermarks never go back, and the watermark of a tracked store and the world's
/// revision move whenever one of its rows does, as long as the revision counter
/// has not run out.
pub open spec fn marks_cover<C: RelationshipTarget>(
    before: WorldModel<C>,
    after: WorldModel<C>,
) -> bool {
    &&& forall|kind: ComponentId|
        (#[trigger] before.column(kind)).watermark <= after.column(kind).watermark
    &&& bounded(before) && after.revision < u64::MAX ==> forall|kind: ComponentId, entity: Entity|
        C::tracks(kind) && !(#[trigger] same_row(before, after, kind, entity))
            ==> before.column(kind).watermark < after.column(kind).watermark && before.revision
            < after.revision
    &&& bounded(before) && after.revision < u64::MAX ==> forall|kind: ComponentId|
        C::tracks(kind) && (#[trigger] before.column(kind)).watermark < after.column(
            kind,
        ).watermark ==> before.revision < after.revision
}

/// `after` is reached from `before` by recorded steps.
pub open spec fn recorded<C: RelationshipTarget>(
    before: WorldModel<C>,
    after: WorldModel<C>,
) -> bool {
    &&& advances(before, after)
    &&& log_covers(before, after)
    &&& marks_cover(before, after)
}

/// Recorded steps compose.
pub proof fn lemma_recorded_trans<C: RelationshipTarget>(
    a: WorldModel<C>,
    b: WorldModel<C>,
    c: WorldModel<C>,
)
    requires
        recorded(a, b),
        recorded(b, c),
    ensures
        recorded(a, c),
{
    assert(c.log.take(a.log.len() as int) =~= a.log) by {
        assert(c.log.take(b.log.len() as int).take(a.log.len() as int) =~= c.log.take(
            a.log.len() as int,
        ));
    }
    let ab = logged_since(a, b);
    let bc = logged_since(b, c);
    let ac = logged_since(a, c);
    assert(c.log =~= b.log + bc) by {
        assert(c.log.take(b.log.len() as int) + bc =~= c.log);
    }
    assert(ac =~= ab + bc);
    assert forall|kind: ComponentId, entity: Entity|
        !ac.contains((kind, entity)) implies #[trigger] same_row(a, c, kind, entity) by {
        if ab.contains((kind, entity)) {
            let i = choose|i: int| 0 <= i < ab.len() && ab[i] == (kind, entity);
            assert(ac[i] == (kind, entity));
        }
        if bc.contains((kind, entity)) {
            let i = choose|i: int| 0 <= i < bc.len() && bc[i] == (kind, entity);
            assert(ac[ab.len() + i] == (kind, entity));
        }
        assert(same_row(a, b, kind, entity));
        assert(same_row(b, c, kind, entity));
    }
    assert forall|kind: ComponentId|
        (#[trigger] a.column(kind)).watermark <= c.column(kind).watermark by {
        assert(a.column(kind).watermark <= b.column(kind).watermark);
        assert(b.column(kind).watermark <= c.column(kind).watermark);
    }
    if bounded(a) && c.revision < u64::MAX {
        assert forall|kind: ComponentId, entity: Entity|
            C::tracks(kind) && !(#[trigger] same_row(a, c, kind, entity)) implies a.column(
            kind,
        ).watermark < c.column(kind).watermark && a.revision < c.revision by {
            assert(a.column(kind).watermark <= b.column(kind).watermark);
            assert(b.column(kind).watermark <= c.column(kind).watermark);
            if same_row(a, b, kind, entity) {
                assert(!same_row(b, c, kind, entity));
            }
        }
    }
}

/// A step that leaves the stores, the log and the counters alone is recorded.
pub proof fn lemma_aside_recorded<C: RelationshipTarget>(before: WorldModel<C>, after: WorldModel<C>)
    requires
        before.stores == after.stores,
        before.log == after.log,
        before.revision == after.revision,
        before.mutations == after.mutations,
    ensures
        recorded(before, after),
{
    assert(after.log.take(before.log.len() as int) =~= before.log);
    assert forall|kind: ComponentId|
        (#[trigger] before.column(kind)).watermark <= after.column(kind).watermark by {
        assert(before.column(kind) == after.column(kind));
    }
}

/// A step that touches one cell, logs it, and moves the cell's watermark when it
/// changes it.
spec fn touches<C: RelationshipTarget>(
    before: WorldModel<C>,
    after: WorldModel<C>,
    kind: ComponentId,
    entity: Entity,
) -> bool {
    &&& advances(before, after)
    &&& after.log == before.log.push((kind, entity))
    &&& forall|k: ComponentId, e: Entity|
        (k != kind || e.id() != entity.id()) ==> #[trigger] same_row(before, after, k, e)
    &&& forall|k: ComponentId| k != kind ==> #[trigger] after.column(k) == before.column(k)
    &&& before.column(kind).watermark <= after.column(kind).watermark
    &&& bounded(before) && after.revision < u64::MAX && C::tracks(kind) && !same_row(
        before,
        after,
        kind,
        entity,
    ) ==> before.column(kind).watermark < after.column(kind).watermark && before.revision
        < after.revision
    &&& bounded(before) && after.revision < u64::MAX && C::tracks(kind) && before.column(
        kind,
    ).watermark < after.column(kind).watermark ==> before.revision < after.revision
}

proof fn lemma_touch_recorded<C: RelationshipTarget>(
    before: WorldModel<C>,
    after: WorldModel<C>,
    kind: ComponentId,
    entity: Entity,
)
    requires
        touches(before, after, kind, entity),
    ensures
        recorded(before, after),
{
    assert(after.log.take(before.log.len() as int) =~= before.log);
    let since = logged_since(before, after);
    assert(since =~= seq![(kind, entity)]);
    assert forall|k: ComponentId, e: Entity|
        !since.contains((k, e)) implies #[trigger] same_row(before, after, k, e) by {
        if k == kind && e.id() == entity.id() {
            assert(since[0] == (k, e));
        }
    }
    assert forall|k: ComponentId|
        (#[trigger] before.column(k)).watermark <= after.column(k).watermark by {
        if k != kind {
            assert(after.column(k) == before.column(k));
        }
    }
    if bounded(before) && after.revision < u64::MAX {
        assert forall|k: ComponentId, e: Entity|
            C::tracks(k) && !(#[trigger] same_row(before, after, k, e)) implies before.column(
            k,
        ).watermark < after.column(k).watermark && before.revision < after.revision by {
            assert(k == kind && e.id() == entity.id());
            assert(e == entity);
        }
    }
}

proof fn lemma_put_recorded<C: RelationshipTarget>(
    world: WorldModel<C>,
    entity: Entity,
    value: C::Model,
    origin: Origin,
    owner: Option<Invocation>,
)
    ensures
        recorded(world, world.put(entity, value, origin, owner)),
{
    let after = world.put(entity, value, origin, owner);
    let kind = C::kind(value);
    lemma_put_advances(world, entity, value, origin, owner);
    assert forall|k: ComponentId, e: Entity|
        (k != kind || e.id() != entity.id()) implies #[trigger] same_row(world, after, k, e) by {}
    assert forall|k: ComponentId| k != kind implies #[trigger] after.column(k) == world.column(
        k,
    ) by {}
    if bounded(world) && after.revision < u64::MAX && C::tracks(kind) {
        if world.stores.contains_key(kind) {
            assert(world.stores[kind].watermark <= world.revision);
            if world.stores[kind].entries.contains_key(entity.id()) {
                assert(world.stores[kind].entries[entity.id()].revision
                    <= world.stores[kind].watermark);
            }
        }
    }
    assert(touches(world, after, kind, entity));
    lemma_touch_recorded(world, after, kind, entity);
}

proof fn lemma_drop_entry_recorded<C: RelationshipTarget>(
    world: WorldModel<C>,
    kind: ComponentId,
    entity: Entity,
)
    ensures
        recorded(world, world.drop_entry(kind, entity)),
{
    let after = world.drop_entry(kind, entity);
    lemma_drop_entry_advances(world, kind, entity);
    assert forall|k: ComponentId, e: Entity|
        (k != kind || e.id() != entity.id()) implies #[trigger] same_row(world, after, k, e) by {}
    assert forall|k: ComponentId| k != kind implies #[trigger] after.column(k) == world.column(
        k,
    ) by {}
    if bounded(world) && after.revision < u64::MAX && C::tracks(kind) {
        if world.stores.contains_key(kind) {
            assert(world.stores[kind].watermark <= world.revision);
        }
    }
    assert(touches(world, after, kind, entity));
    lemma_touch_recorded(world, after, kind, entity);
}

proof fn lemma_update_flat_recorded<C: RelationshipTarget>(
    world: WorldModel<C>,
    entity: Entity,
    value: C::Model,
)
    ensures
        recorded(world, world.update_flat(entity, value)),
        recorded(world, world.reconcile_flat(entity, value)),
{
    let kind = C::kind(value);
    lemma_rewrite_advances(world, entity, value);
    let rewritten = world.rewrite(entity, value);
    assert forall|k: ComponentId, e: Entity|
        (k != kind || e.id() != entity.id()) implies #[trigger] same_row(
        world,
        rewritten,
        k,
        e,
    ) by {}
    assert forall|k: ComponentId| k != kind implies #[trigger] rewritten.column(k) == world.column(
        k,
    ) by {}
    if bounded(world) && world.stores.contains_key(kind) {
        assert(world.stores[kind].watermark <= world.revision);
    }
    let reconciled = world.reconcile_flat(entity, value);
    if world.stores.contains_key(kind) {
        assert forall|k: ComponentId, e: Entity|
            (k != kind || e.id() != entity.id()) implies #[trigger] same_row(
            world,
            reconciled,
            k,
            e,
        ) by {
            assert(same_row(world, rewritten, k, e));
        }
        assert forall|k: ComponentId| k != kind implies #[trigger] reconciled.column(k)
            == world.column(k) by {
            assert(rewritten.column(k) == world.column(k));
        }
        assert(touches(world, reconciled, kind, entity));
        lemma_touch_recorded(world, reconciled, kind, entity);
    } else {
        lemma_aside_recorded(world, reconciled);
    }
    let updated = world.update_flat(entity, value);
    if world.changes(entity, value) {
        assert forall|k: ComponentId, e: Entity|
            (k != kind || e.id() != entity.id()) implies #[trigger] same_row(
            world,
            updated,
            k,
            e,
        ) by {
            assert(same_row(world, rewritten, k, e));
        }
        assert forall|k: ComponentId| k != kind implies #[trigger] updated.column(k)
            == world.column(k) by {
            assert(rewritten.column(k) == world.column(k));
        }
        assert(touches(world, updated, kind, entity));
        lemma_touch_recorded(world, updated, kind, entity);
    } else {
        assert(updated.log.take(world.log.len() as int) =~= world.log);
        assert forall|k: ComponentId, e: Entity| #[trigger] same_row(world, updated, k, e) by {
            if k != kind || e.id() != entity.id() {
                assert(same_row(world, rewritten, k, e));
            }
        }
        assert forall|k: ComponentId|
            (#[trigger] world.column(k)).watermark <= updated.column(k).watermark by {
            if k != kind {
                assert(rewritten.column(k) == world.column(k));
            }
        }
    }
}

/// Replacing a value in place is recorded.
pub proof fn lemma_update_recorded<C: RelationshipTarget>(
    world: WorldModel<C>,
    entity: Entity,
    value: C::Model,
)
    ensures
        recorded(world, world.update(entity, value)),
        recorded(world, world.reconcile(entity, value)),
{
    let kind = C::kind(value);
    let before = world.edge_at(kind, entity);
    let updated = world.update_flat(entity, value);
    let reconciled = world.reconcile_flat(entity, value);
    lemma_update_flat_recorded(world, entity, value);
    lemma_aside_recorded(world, world);
    if world.has(kind, entity) {
        lemma_relink_recorded(updated, entity, before, C::edge(value));
        lemma_relink_recorded(reconciled, entity, before, C::edge(value));
        lemma_recorded_trans(world, updated, world.update(entity, value));
        lemma_recorded_trans(world, reconciled, world.reconcile(entity, value));
    }
}

proof fn lemma_remove_flat_recorded<C: RelationshipTarget>(
    world: WorldModel<C>,
    kind: ComponentId,
    entity: Entity,
)
    ensures
        recorded(world, world.remove_flat(kind, entity)),
{
    if world.has(kind, entity) {
        let dropped = world.drop_entry(kind, entity);
        let after = world.remove_flat(kind, entity);
        lemma_drop_entry_recorded(world, kind, entity);
        lemma_aside_recorded(dropped, after);
        lemma_recorded_trans(world, dropped, after);
    } else {
        lemma_aside_recorded(world, world.remove_flat(kind, entity));
    }
}

proof fn lemma_flat_recorded<C: RelationshipTarget>(
    world: WorldModel<C>,
    entity: Entity,
    value: C::Model,
    origin: Origin,
    owner: Option<Invocation>,
)
    ensures
        recorded(world, world.insert_flat(entity, value, origin, owner)),
{
    let put = world.put(entity, value, origin, owner);
    let after = world.insert_flat(entity, value, origin, owner);
    lemma_put_recorded(world, entity, value, origin, owner);
    lemma_aside_recorded(put, after);
    lemma_recorded_trans(world, put, after);
}

proof fn lemma_members_recorded<C: RelationshipTarget>(
    world: WorldModel<C>,
    inverse: ComponentId,
    source: Entity,
    target: Entity,
)
    ensures
        recorded(world, world.add_member(inverse, source, target)),
        recorded(world, world.remove_member(inverse, source, target)),
{
    let members = world.members(inverse, target);
    lemma_aside_recorded(world, world);
    lemma_flat_recorded(
        world,
        target,
        C::inverse_fact(inverse, with_member(members, source)),
        Origin::Base,
        None,
    );
    lemma_flat_recorded(
        world,
        target,
        C::inverse_fact(inverse, without_member(members, source)),
        Origin::Base,
        None,
    );
    lemma_remove_flat_recorded(world, inverse, target);
}

proof fn lemma_retract_edge_recorded<C: RelationshipTarget>(
    world: WorldModel<C>,
    source: Entity,
    edge: Option<RelationshipEdge>,
)
    ensures
        recorded(world, world.retract_edge(source, edge)),
{
    match edge {
        Some(edge) => lemma_members_recorded(world, edge.inverse, source, edge.target),
        None => lemma_aside_recorded(world, world),
    }
}

proof fn lemma_relink_recorded<C: RelationshipTarget>(
    world: WorldModel<C>,
    entity: Entity,
    before: Option<RelationshipEdge>,
    after: Option<RelationshipEdge>,
)
    ensures
        recorded(world, world.relink(entity, before, after)),
{
    lemma_aside_recorded(world, world);
    let retracted = world.retract_edge(entity, before);
    lemma_retract_edge_recorded(world, entity, before);
    if let Some(edge) = after {
        let added = retracted.add_member(edge.inverse, entity, edge.target);
        lemma_members_recorded(retracted, edge.inverse, entity, edge.target);
        lemma_recorded_trans(world, retracted, added);
    }
}

/// Inserting is recorded.
pub proof fn lemma_insert_recorded<C: RelationshipTarget>(
    world: WorldModel<C>,
    entity: Entity,
    value: C::Model,
    origin: Origin,
    owner: Option<Invocation>,
)
    ensures
        recorded(world, world.insert_now(entity, value, origin, owner)),
        recorded(world, world.insert(entity, value, origin, owner)),
{
    let kind = C::kind(value);
    let put = world.put(entity, value, origin, owner);
    let linked = put.relink(entity, world.edge_at(kind, entity), C::edge(value));
    let after = linked.due(Hook::Insert, kind, entity);
    lemma_put_recorded(world, entity, value, origin, owner);
    lemma_relink_recorded(put, entity, world.edge_at(kind, entity), C::edge(value));
    lemma_recorded_trans(world, put, linked);
    lemma_aside_recorded(linked, after);
    lemma_recorded_trans(world, linked, after);
    if C::anchored(value) is Some || world.refuses(entity, value) {
        lemma_aside_recorded(world, world.insert(entity, value, origin, owner));
    }
}

/// Removing a component is recorded.
pub proof fn lemma_remove_component_recorded<C: RelationshipTarget>(
    world: WorldModel<C>,
    kind: ComponentId,
    entity: Entity,
)
    ensures
        recorded(world, world.remove_component(kind, entity)),
{
    let removed = world.remove_flat(kind, entity);
    let edge = world.edge_at(kind, entity);
    lemma_remove_flat_recorded(world, kind, entity);
    lemma_retract_edge_recorded(removed, entity, edge);
    lemma_recorded_trans(world, removed, removed.retract_edge(entity, edge));
}

proof fn lemma_drop_rows_recorded<C: RelationshipTarget>(
    world: WorldModel<C>,
    kinds: Seq<ComponentId>,
    entity: Entity,
)
    ensures
        recorded(world, world.drop_rows(kinds, entity)),
    decreases kinds.len(),
{
    if kinds.len() == 0 {
        lemma_aside_recorded(world, world);
    } else {
        let rest = world.drop_rows(kinds.drop_last(), entity);
        let kind = kinds.last();
        lemma_drop_rows_recorded(world, kinds.drop_last(), entity);
        if rest.has(kind, entity) {
            let dropped = rest.drop_entry(kind, entity);
            let after = rest.drop_row(kind, entity);
            lemma_drop_entry_recorded(rest, kind, entity);
            lemma_aside_recorded(dropped, after);
            lemma_recorded_trans(rest, dropped, after);
            lemma_recorded_trans(world, rest, after);
        }
    }
}

proof fn lemma_retract_edges_recorded<C: RelationshipTarget>(
    world: WorldModel<C>,
    source: Entity,
    edges: Seq<RelationshipEdge>,
)
    ensures
        recorded(world, world.retract_edges(source, edges)),
    decreases edges.len(),
{
    if edges.len() == 0 {
        lemma_aside_recorded(world, world);
    } else {
        let rest = world.retract_edges(source, edges.drop_last());
        lemma_retract_edges_recorded(world, source, edges.drop_last());
        lemma_retract_edge_recorded(rest, source, Some(edges.last()));
        lemma_recorded_trans(world, rest, rest.retract_edge(source, Some(edges.last())));
    }
}

proof fn lemma_retract_sources_recorded<C: RelationshipTarget>(
    world: WorldModel<C>,
    retractions: Seq<RelationshipRetraction>,
)
    ensures
        recorded(world, world.retract_sources(retractions)),
    decreases retractions.len(),
{
    if retractions.len() == 0 {
        lemma_aside_recorded(world, world);
    } else {
        let rest = world.retract_sources(retractions.drop_last());
        let last = retractions.last();
        lemma_retract_sources_recorded(world, retractions.drop_last());
        lemma_remove_component_recorded(rest, last.edge, last.source);
        lemma_recorded_trans(world, rest, rest.remove_component(last.edge, last.source));
    }
}

/// Removing an entity is recorded.
pub proof fn lemma_remove_entity_recorded<C: RelationshipTarget>(
    world: WorldModel<C>,
    entity: Entity,
)
    ensures
        recorded(world, world.remove_entity(entity)),
{
    let kinds = world.kinds();
    let dropped = world.drop_rows(kinds, entity);
    let gone = dropped.forget(entity);
    let edges = world.edges_on(kinds, entity);
    let unlinked = gone.retract_edges(entity, edges);
    let retractions = world.retractions_on(kinds, entity);
    lemma_drop_rows_recorded(world, kinds, entity);
    lemma_aside_recorded(dropped, gone);
    lemma_recorded_trans(world, dropped, gone);
    lemma_retract_edges_recorded(gone, entity, edges);
    lemma_recorded_trans(world, gone, unlinked);
    lemma_retract_sources_recorded(unlinked, retractions);
    lemma_recorded_trans(world, unlinked, unlinked.retract_sources(retractions));
}

proof fn lemma_remove_owned_recorded<C: RelationshipTarget>(
    world: WorldModel<C>,
    owner: Invocation,
    cell: Cell,
)
    ensures
        recorded(world, world.remove_owned(owner, cell)),
{
    if world.owns(owner, cell) {
        let dropped = world.drop_entry(cell.0, cell.1);
        let due = dropped.due(Hook::Remove, cell.0, cell.1);
        let edge = world.edge_at(cell.0, cell.1);
        lemma_drop_entry_recorded(world, cell.0, cell.1);
        lemma_aside_recorded(dropped, due);
        lemma_recorded_trans(world, dropped, due);
        lemma_retract_edge_recorded(due, cell.1, edge);
        lemma_recorded_trans(world, due, due.retract_edge(cell.1, edge));
    } else {
        lemma_aside_recorded(world, world);
    }
}

/// Giving up derived outputs is recorded.
pub proof fn lemma_give_up_recorded<C: RelationshipTarget>(
    world: WorldModel<C>,
    owner: Invocation,
    cells: Seq<Cell>,
)
    ensures
        recorded(world, world.remove_each_owned(owner, cells)),
        recorded(world, world.remove_stale(owner, cells)),
    decreases cells.len(),
{
    if cells.len() == 0 {
        lemma_aside_recorded(world, world);
    } else {
        lemma_give_up_recorded(world, owner, cells.drop_last());
        let each = world.remove_each_owned(owner, cells.drop_last());
        lemma_remove_owned_recorded(each, owner, cells.last());
        lemma_recorded_trans(world, each, each.remove_owned(owner, cells.last()));
        let stale = world.remove_stale(owner, cells.drop_last());
        lemma_remove_owned_recorded(stale, owner, cells.last());
        lemma_recorded_trans(world, stale, stale.remove_owned(owner, cells.last()));
    }
}

proof fn lemma_flush_each_recorded<C: RelationshipTarget>(
    world: WorldModel<C>,
    pending: Seq<PendingAnchor>,
)
    ensures
        recorded(world, world.flush_each(pending)),
    decreases pending.len(),
{
    if pending.len() == 0 {
        lemma_aside_recorded(world, world);
    } else {
        let done = world.flush_each(pending.drop_last());
        let p = pending.last();
        let fact = C::anchor_fact(captured(p.anchors, done.anchor_revisions(p.anchors)));
        lemma_flush_each_recorded(world, pending.drop_last());
        lemma_insert_recorded(done, p.entity, fact, p.origin, p.owner);
        lemma_recorded_trans(world, done, done.insert_now(p.entity, fact, p.origin, p.owner));
    }
}

/// Resolving deferred derived-from markers is recorded.
pub proof fn lemma_flush_recorded<C: RelationshipTarget>(world: WorldModel<C>)
    ensures
        recorded(world, world.flush()),
{
    let cleared = WorldModel { pending: Seq::<PendingAnchor>::empty(), ..world };
    lemma_aside_recorded(world, cleared);
    lemma_flush_each_recorded(cleared, world.pending);
    lemma_recorded_trans(world, cleared, world.flush());
}

/// Reconciling in-place writes is recorded.
pub proof fn lemma_reconcile_recorded<C: RelationshipTarget>(
    world: WorldModel<C>,
    writes: Seq<(Entity, C::Model)>,
)
    ensures
        recorded(world, world.reconcile_each(writes)),
    decreases writes.len(),
{
    if writes.len() == 0 {
        lemma_aside_recorded(world, world);
    } else {
        let rest = world.reconcile_each(writes.drop_last());
        lemma_reconcile_recorded(world, writes.drop_last());
        lemma_update_recorded(rest, writes.last().0, writes.last().1);
        lemma_recorded_trans(world, rest, rest.reconcile(writes.last().0, writes.last().1));
    }
}

proof fn lemma_insert_facts_recorded<C: RelationshipTarget>(
    world: WorldModel<C>,
    entity: Entity,
    facts: Seq<C::Model>,
    origin: Origin,
    owner: Option<Invocation>,
)
    ensures
        recorded(world, insert_facts(world, entity, facts, origin, owner).0),
    decreases facts.len(),
{
    if facts.len() == 0 {
        lemma_aside_recorded(world, world);
    } else {
        let rest = insert_facts(world, entity, facts.drop_last(), origin, owner).0;
        lemma_insert_facts_recorded(world, entity, facts.drop_last(), origin, owner);
        lemma_insert_recorded(rest, entity, facts.last(), origin, owner);
        lemma_recorded_trans(world, rest, rest.insert(entity, facts.last(), origin, owner));
    }
}

proof fn lemma_apply_op_recorded<C: RelationshipTarget>(
    world: WorldModel<C>,
    op: OpModel<C>,
    owner: Invocation,
)
    ensures
        recorded(world, apply_op(world, op, owner).0),
{
    match op {
        OpModel::Insert { entity, fact } => lemma_insert_recorded(
            world,
            entity,
            fact,
            Origin::Derived,
            Some(owner),
        ),
        OpModel::Spawn { facts, reserved } => {
            let target = spawn_target(world, facts, reserved);
            let ready = registered(world, facts, reserved).record_spawn(owner, target);
            lemma_aside_recorded(world, world);
            lemma_aside_recorded(world, ready);
            lemma_insert_facts_recorded(ready, target, facts, Origin::Derived, Some(owner));
            lemma_recorded_trans(
                world,
                ready,
                insert_facts(ready, target, facts, Origin::Derived, Some(owner)).0,
            );
        },
        OpModel::RemoveEntity { entity } => lemma_remove_entity_recorded(world, entity),
        OpModel::RemoveComponent { kind, entity } => lemma_remove_component_recorded(
            world,
            kind,
            entity,
        ),
    }
}

/// Applying a system's buffer is recorded.
pub proof fn lemma_apply_ops_recorded<C: RelationshipTarget>(
    world: WorldModel<C>,
    ops: Seq<OpModel<C>>,
    owner: Invocation,
)
    ensures
        recorded(world, apply_ops(world, ops, owner).0),
    decreases ops.len(),
{
    if ops.len() == 0 {
        lemma_aside_recorded(world, world);
    } else {
        let rest = apply_ops(world, ops.drop_last(), owner).0;
        lemma_apply_ops_recorded(world, ops.drop_last(), owner);
        lemma_apply_op_recorded(rest, ops.last(), owner);
        lemma_recorded_trans(world, rest, apply_op(rest, ops.last(), owner).0);
    }
}

/// Applying a caller's inputs is recorded.
pub proof fn lemma_apply_base_ops_recorded<C: RelationshipTarget>(
    world: WorldModel<C>,
    ops: Seq<BaseOpModel<C>>,
)
    ensures
        recorded(world, apply_base_ops(world, ops).0),
    decreases ops.len(),
{
    if ops.len() == 0 {
        lemma_aside_recorded(world, world);
    } else {
        let rest = apply_base_ops(world, ops.drop_last()).0;
        lemma_apply_base_ops_recorded(world, ops.drop_last());
        match ops.last() {
            BaseOpModel::Insert { entity, fact } => lemma_insert_recorded(
                rest,
                entity,
                fact,
                Origin::Base,
                None,
            ),
            BaseOpModel::RemoveComponent { kind, entity } => lemma_remove_component_recorded(
                rest,
                kind,
                entity,
            ),
            BaseOpModel::RemoveEntity { entity } => lemma_remove_entity_recorded(rest, entity),
        }
        lemma_recorded_trans(world, rest, apply_base_op(rest, ops.last()).0);
    }
}

} // verus!
