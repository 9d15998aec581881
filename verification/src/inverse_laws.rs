//! What holds of relationships whatever is done to a world: each inverse lists
//! exactly the sources of its edge.

use crate::commands::{
    apply_base_ops, apply_op, apply_ops, insert_facts, registered, spawn_target, BaseOpModel, OpModel,
};
use crate::commit::{
    commit_output, commit_outputs, commit_run, delivered, drained, immediate, replace_outputs,
    updates_current, CheckModel, CommitModel,
};
use crate::component::{
    captured, retractions_of, ComponentId, RelationshipEdge, RelationshipRetraction,
    RelationshipTarget,
};
use crate::entity::Entity;
use crate::invocation::Invocation;
use crate::model::{
    outputs, with_member, without_member, Cell, Hook, Origin, PendingAnchor, WorldModel,
};
use crate::state::generation::{apply_held, opened, rolled};
use crate::system::{OutputModel, Phase, RunModel};
use crate::world_laws::{
    lemma_add_member_lists, lemma_drop_entry_advances, lemma_drop_entry_entry,
    lemma_drop_rows_advances, lemma_joined_members, lemma_left_members,
    lemma_members_touch_one_cell, lemma_put_advances, lemma_put_entry, lemma_relink_advances,
    lemma_remove_member_lists, lemma_removed_target_retracts_edges, lemma_retract_edges_advances,
    lemma_rewrite_advances, sorted_members,
};
use vstd::prelude::*;

verus! {

/// Whether every inverse is as relationship maintenance builds it: without an owner,
/// and with its sources listed in ascending order, at least one.
pub open spec fn inverses_built<C: RelationshipTarget>(world: WorldModel<C>) -> bool {
    forall|inverse: ComponentId, target: Entity|
        #![trigger world.entry(inverse, target)]
        C::is_inverse(inverse) ==> (world.entry(inverse, target) matches Some(entry) ==> {
            &&& entry.owner is None
            &&& entry.value == C::inverse_fact(inverse, C::sources(entry.value))
            &&& C::sources(entry.value).len() > 0
            &&& sorted_members(C::sources(entry.value))
        })
}

/// Whether `source` carries the edge that inverse `inverse` lists, and it points at
/// `target`.
pub open spec fn points<C: RelationshipTarget>(
    world: WorldModel<C>,
    inverse: ComponentId,
    target: Entity,
    source: Entity,
) -> bool {
    world.edge_at(C::edge_of(inverse), source) == Some(RelationshipEdge { target, inverse })
}

/// Whether the relationships of a world are kept: every inverse lists exactly the
/// sources whose edge points at its entity, in ascending order, and there is none
/// without a source.
pub open spec fn linked<C: RelationshipTarget>(world: WorldModel<C>) -> bool {
    &&& world.consistent()
    &&& inverses_built(world)
    &&& forall|inverse: ComponentId, target: Entity, source: Entity|
        #![trigger world.members(inverse, target).contains(source)]
        C::is_inverse(inverse) ==> (world.members(inverse, target).contains(source) <==> points(
            world,
            inverse,
            target,
            source,
        ))
}

/// Whether `told` says which sources are listed.
spec fn lists<C: RelationshipTarget>(
    world: WorldModel<C>,
    told: spec_fn(ComponentId, Entity, Entity) -> bool,
) -> bool {
    forall|inverse: ComponentId, target: Entity, source: Entity|
        #![trigger world.members(inverse, target).contains(source)]
        C::is_inverse(inverse) ==> (world.members(inverse, target).contains(source) <==> told(
            inverse,
            target,
            source,
        ))
}

/// What is listed where nothing is listed at `away` and nothing else is amiss.
spec fn pointing<C: RelationshipTarget>(
    world: WorldModel<C>,
    away: Option<Entity>,
) -> spec_fn(ComponentId, Entity, Entity) -> bool {
    |inverse: ComponentId, target: Entity, source: Entity|
        Some(target) != away && points(world, inverse, target, source)
}

/// Whether relationships are kept, but for what points at `away`: nothing is listed
/// there.
spec fn linked_beside<C: RelationshipTarget>(
    world: WorldModel<C>,
    away: Option<Entity>,
) -> bool {
    &&& world.consistent()
    &&& inverses_built(world)
    &&& lists(world, pointing(world, away))
}

proof fn lemma_linked_beside_nothing<C: RelationshipTarget>(world: WorldModel<C>)
    ensures
        linked(world) <==> linked_beside(world, None),
{
    let told = pointing(world, None);
    if linked(world) {
        assert forall|m: ComponentId, t: Entity, s: Entity|
            #![trigger world.members(m, t).contains(s)]
            C::is_inverse(m) implies (world.members(m, t).contains(s) <==> told(m, t, s)) by {}
    }
    if linked_beside(world, None) {
        assert forall|m: ComponentId, t: Entity, s: Entity|
            #![trigger world.members(m, t).contains(s)]
            C::is_inverse(m) implies (world.members(m, t).contains(s) <==> points(
            world,
            m,
            t,
            s,
        )) by {
            assert(world.members(m, t).contains(s) <==> told(m, t, s));
        }
    }
}

/// Whether `after` is `before` but for the component `kind` of `entity`.
spec fn differs_at<C: RelationshipTarget>(
    before: WorldModel<C>,
    after: WorldModel<C>,
    kind: ComponentId,
    entity: Entity,
) -> bool {
    forall|k: ComponentId, e: Entity|
        #![trigger after.entry(k, e)]
        k != kind || e != entity ==> after.entry(k, e) == before.entry(k, e)
}

proof fn lemma_listed_members_sorted<C: RelationshipTarget>(
    world: WorldModel<C>,
    inverse: ComponentId,
    target: Entity,
)
    requires
        inverses_built(world),
        C::is_inverse(inverse),
    ensures
        sorted_members(world.members(inverse, target)),
{
    if let Some(entry) = world.entry(inverse, target) {
    }
}

proof fn lemma_remove_member_unlists<C: RelationshipTarget>(
    world: WorldModel<C>,
    inverse: ComponentId,
    source: Entity,
    target: Entity,
    told: spec_fn(ComponentId, Entity, Entity) -> bool,
)
    requires
        inverses_built(world),
        lists(world, told),
        C::is_inverse(inverse),
    ensures
        inverses_built(world.remove_member(inverse, source, target)),
        lists(
            world.remove_member(inverse, source, target),
            |m: ComponentId, t: Entity, s: Entity|
                told(m, t, s) && !(m == inverse && t == target && s == source),
        ),
{
    let after = world.remove_member(inverse, source, target);
    let members = world.members(inverse, target);
    let less = without_member(members, source);
    lemma_listed_members_sorted(world, inverse, target);
    lemma_left_members(members, source);
    lemma_remove_member_lists(world, inverse, source, target);
    C::inverse_laws(inverse, less);
    assert forall|m: ComponentId, t: Entity|
        #![trigger after.entry(m, t)]
        C::is_inverse(m) implies (after.entry(m, t) matches Some(entry) ==> {
        &&& entry.owner is None
        &&& entry.value == C::inverse_fact(m, C::sources(entry.value))
        &&& C::sources(entry.value).len() > 0
        &&& sorted_members(C::sources(entry.value))
    }) by {
        if m == inverse && t == target {
            lemma_put_entry(
                world,
                target,
                C::inverse_fact(inverse, less),
                Origin::Base,
                None,
                m,
                t,
            );
            lemma_drop_entry_entry(world, inverse, target, m, t);
            assert(world.entry(m, t) == world.entry(m, t));
        } else {
            lemma_members_touch_one_cell(world, inverse, source, target, m, t);
            assert(after.entry(m, t) == world.entry(m, t));
        }
    }
    assert forall|m: ComponentId, t: Entity, s: Entity|
        #![trigger after.members(m, t).contains(s)]
        C::is_inverse(m) implies (after.members(m, t).contains(s) <==> (told(m, t, s) && !(m
        == inverse && t == target && s == source))) by {
        assert(world.members(m, t).contains(s) <==> told(m, t, s));
        if m == inverse && t == target {
            assert(less.contains(s) <==> (members.contains(s) && s != source));
        } else {
            lemma_members_touch_one_cell(world, inverse, source, target, m, t);
        }
    }
}

proof fn lemma_add_member_enlists<C: RelationshipTarget>(
    world: WorldModel<C>,
    inverse: ComponentId,
    source: Entity,
    target: Entity,
    told: spec_fn(ComponentId, Entity, Entity) -> bool,
)
    requires
        inverses_built(world),
        lists(world, told),
        C::is_inverse(inverse),
    ensures
        inverses_built(world.add_member(inverse, source, target)),
        lists(
            world.add_member(inverse, source, target),
            |m: ComponentId, t: Entity, s: Entity|
                told(m, t, s) || (m == inverse && t == target && s == source),
        ),
{
    let after = world.add_member(inverse, source, target);
    let members = world.members(inverse, target);
    let more = with_member(members, source);
    lemma_listed_members_sorted(world, inverse, target);
    lemma_joined_members(members, source);
    lemma_add_member_lists(world, inverse, source, target);
    C::inverse_laws(inverse, more);
    assert(more.contains(source) <==> (members.contains(source) || source == source));
    assert forall|m: ComponentId, t: Entity|
        #![trigger after.entry(m, t)]
        C::is_inverse(m) implies (after.entry(m, t) matches Some(entry) ==> {
        &&& entry.owner is None
        &&& entry.value == C::inverse_fact(m, C::sources(entry.value))
        &&& C::sources(entry.value).len() > 0
        &&& sorted_members(C::sources(entry.value))
    }) by {
        if m == inverse && t == target {
            lemma_put_entry(
                world,
                target,
                C::inverse_fact(inverse, more),
                Origin::Base,
                None,
                m,
                t,
            );
            assert(world.entry(m, t) == world.entry(m, t));
        } else {
            lemma_members_touch_one_cell(world, inverse, source, target, m, t);
            assert(after.entry(m, t) == world.entry(m, t));
        }
    }
    assert forall|m: ComponentId, t: Entity, s: Entity|
        #![trigger after.members(m, t).contains(s)]
        C::is_inverse(m) implies (after.members(m, t).contains(s) <==> (told(m, t, s) || (m
        == inverse && t == target && s == source))) by {
        assert(world.members(m, t).contains(s) <==> told(m, t, s));
        if m == inverse && t == target {
            assert(more.contains(s) <==> (members.contains(s) || s == source));
        } else {
            lemma_members_touch_one_cell(world, inverse, source, target, m, t);
        }
    }
}

/// The edge at a component that is no inverse names an inverse that lists it.
proof fn lemma_edge_names_its_inverse<C: RelationshipTarget>(
    world: WorldModel<C>,
    kind: ComponentId,
    entity: Entity,
)
    requires
        world.consistent(),
    ensures
        world.edge_at(kind, entity) matches Some(edge) ==> {
            &&& C::is_inverse(edge.inverse)
            &&& C::edge_of(edge.inverse) == kind
            &&& !C::is_inverse(kind)
        },
{
    if let Some(entry) = world.entry(kind, entity) {
        assert(C::kind(world.stores[kind].entries[entity.id()].value) == kind);
        C::edge_laws(entry.value);
    }
}

/// Relinking makes up for a change of one component that is no inverse.
proof fn lemma_relink_restores<C: RelationshipTarget>(
    before: WorldModel<C>,
    changed: WorldModel<C>,
    kind: ComponentId,
    entity: Entity,
    away: Option<Entity>,
)
    requires
        linked_beside(before, away),
        changed.edge_at(kind, entity) matches Some(edge) ==> Some(edge.target) != away,
        changed.consistent(),
        !C::is_inverse(kind),
        differs_at(before, changed, kind, entity),
    ensures
        linked_beside(
            changed.relink(
                entity,
                before.edge_at(kind, entity),
                changed.edge_at(kind, entity),
            ),
            away,
        ),
{
    let old_edge = before.edge_at(kind, entity);
    let new_edge = changed.edge_at(kind, entity);
    let after = changed.relink(entity, old_edge, new_edge);
    lemma_edge_names_its_inverse(before, kind, entity);
    lemma_edge_names_its_inverse(changed, kind, entity);
    lemma_relink_advances(changed, entity, old_edge, new_edge);
    let told = pointing(before, away);
    assert(inverses_built(changed)) by {
        assert forall|m: ComponentId, t: Entity|
            #![trigger changed.entry(m, t)]
            C::is_inverse(m) implies (changed.entry(m, t) matches Some(entry) ==> {
            &&& entry.owner is None
            &&& entry.value == C::inverse_fact(m, C::sources(entry.value))
            &&& C::sources(entry.value).len() > 0
            &&& sorted_members(C::sources(entry.value))
        }) by {
            assert(changed.entry(m, t) == before.entry(m, t));
        }
    }
    assert(lists(changed, told)) by {
        assert forall|m: ComponentId, t: Entity, s: Entity|
            #![trigger changed.members(m, t).contains(s)]
            C::is_inverse(m) implies (changed.members(m, t).contains(s) <==> told(m, t, s)) by {
            assert(changed.entry(m, t) == before.entry(m, t));
            assert(before.members(m, t).contains(s) <==> told(m, t, s));
        }
    }
    let retracted = changed.retract_edge(entity, old_edge);
    let less = |m: ComponentId, t: Entity, s: Entity|
        told(m, t, s) && !(Some(RelationshipEdge { target: t, inverse: m }) == old_edge && s
            == entity);
    let more = |m: ComponentId, t: Entity, s: Entity|
        less(m, t, s) || (Some(RelationshipEdge { target: t, inverse: m }) == new_edge && s
            == entity);
    if let Some(edge) = old_edge {
        lemma_remove_member_unlists(changed, edge.inverse, entity, edge.target, told);
    }
    assert(inverses_built(retracted));
    assert(lists(retracted, less));
    if let Some(edge) = new_edge {
        lemma_add_member_enlists(retracted, edge.inverse, entity, edge.target, less);
    }
    let told_after = if WorldModel::<C>::retargets(old_edge, new_edge) {
        more
    } else {
        told
    };
    assert(inverses_built(after));
    assert(lists(after, told_after));
    let told_now = pointing(after, away);
    assert forall|m: ComponentId, t: Entity, s: Entity|
        #![trigger after.members(m, t).contains(s)]
        C::is_inverse(m) implies (after.members(m, t).contains(s) <==> told_now(m, t, s)) by {
        assert(after.members(m, t).contains(s) <==> told_after(m, t, s));
        C::inverse_laws(m, Seq::empty());
        let edge = C::edge_of(m);
        assert(after.entry(edge, s) == changed.entry(edge, s)) by {
            if let Some(gone) = old_edge {
                lemma_members_touch_one_cell(
                    changed,
                    gone.inverse,
                    entity,
                    gone.target,
                    edge,
                    s,
                );
            }
            if let Some(new) = new_edge {
                lemma_members_touch_one_cell(
                    retracted,
                    new.inverse,
                    entity,
                    new.target,
                    edge,
                    s,
                );
            }
        }
        if edge != kind || s != entity {
            assert(changed.entry(edge, s) == before.entry(edge, s));
        }
    }
}

/// The world without anything in it keeps relationships.
pub proof fn lemma_nothing_is_linked<C: RelationshipTarget>()
    ensures
        linked(WorldModel::<C>::nothing()),
{
    let world = WorldModel::<C>::nothing();
    assert forall|inverse: ComponentId, target: Entity, source: Entity|
        #![trigger world.members(inverse, target).contains(source)]
        C::is_inverse(inverse) implies (world.members(inverse, target).contains(source) <==> points(
        world,
        inverse,
        target,
        source,
    )) by {
        assert(world.members(inverse, target) =~= Seq::<Entity>::empty());
    }
}

/// Relationships are a matter of the components alone.
pub proof fn lemma_linked_by_stores<C: RelationshipTarget>(
    before: WorldModel<C>,
    after: WorldModel<C>,
)
    requires
        linked(before),
        after.stores == before.stores,
    ensures
        linked(after),
{
    assert forall|kind: ComponentId, entity: Entity| #[trigger] after.entry(kind, entity)
        == before.entry(kind, entity) by {}
    assert forall|inverse: ComponentId, target: Entity, source: Entity|
        #![trigger after.members(inverse, target).contains(source)]
        C::is_inverse(inverse) implies (after.members(inverse, target).contains(source) <==> points(
        after,
        inverse,
        target,
        source,
    )) by {
        assert(before.members(inverse, target).contains(source) <==> points(
            before,
            inverse,
            target,
            source,
        ));
        assert(after.entry(inverse, target) == before.entry(inverse, target));
        assert(after.entry(C::edge_of(inverse), source) == before.entry(
            C::edge_of(inverse),
            source,
        ));
    }
}

/// Inserting a value keeps relationships, whether it is an edge or not; inverses
/// themselves are nobody's to insert.
pub proof fn lemma_insert_keeps_links<C: RelationshipTarget>(
    world: WorldModel<C>,
    entity: Entity,
    value: C::Model,
    origin: Origin,
    owner: Option<Invocation>,
)
    requires
        linked(world),
        !C::is_inverse(C::kind(value)),
    ensures
        linked(world.insert(entity, value, origin, owner)),
        linked(world.insert_now(entity, value, origin, owner)),
{
    let kind = C::kind(value);
    let put = world.put(entity, value, origin, owner);
    lemma_put_advances(world, entity, value, origin, owner);
    assert forall|k: ComponentId, e: Entity|
        #![trigger put.entry(k, e)]
        k != kind || e != entity implies put.entry(k, e) == world.entry(k, e) by {
        lemma_put_entry(world, entity, value, origin, owner, k, e);
    }
    lemma_put_entry(world, entity, value, origin, owner, kind, entity);
    assert(put.edge_at(kind, entity) == C::edge(value));
    lemma_linked_beside_nothing(world);
    lemma_relink_restores(world, put, kind, entity, None);
    lemma_linked_beside_nothing(
        put.relink(entity, world.edge_at(kind, entity), C::edge(value)),
    );
    let relinked = put.relink(entity, world.edge_at(kind, entity), C::edge(value));
    lemma_linked_by_stores(relinked, relinked.due(Hook::Insert, kind, entity));
    let waiting = world.insert(entity, value, origin, owner);
    if C::anchored(value) is Some {
        lemma_linked_by_stores(world, waiting);
    }
}

proof fn lemma_flush_each_keeps_links<C: RelationshipTarget>(
    world: WorldModel<C>,
    pending: Seq<PendingAnchor>,
)
    requires
        linked(world),
    ensures
        linked(world.flush_each(pending)),
    decreases pending.len(),
{
    if pending.len() > 0 {
        lemma_flush_each_keeps_links(world, pending.drop_last());
        let done = world.flush_each(pending.drop_last());
        let p = pending.last();
        let anchors = captured(p.anchors, done.anchor_revisions(p.anchors));
        C::anchor_laws(anchors);
        C::edge_laws(C::anchor_fact(anchors));
        lemma_insert_keeps_links(done, p.entity, C::anchor_fact(anchors), p.origin, p.owner);
    }
}

/// Writing the markers that waited for the end of a command buffer keeps
/// relationships.
pub proof fn lemma_flush_keeps_links<C: RelationshipTarget>(world: WorldModel<C>)
    requires
        linked(world),
    ensures
        linked(world.flush()),
{
    let started = WorldModel { pending: Seq::<PendingAnchor>::empty(), ..world };
    lemma_linked_by_stores(world, started);
    lemma_flush_each_keeps_links(started, world.pending);
}

/// Dropping one component that is no inverse, and retracting the edge it carried,
/// keeps relationships.
proof fn lemma_drop_keeps_links<C: RelationshipTarget>(
    world: WorldModel<C>,
    dropped: WorldModel<C>,
    kind: ComponentId,
    entity: Entity,
    away: Option<Entity>,
)
    requires
        linked_beside(world, away),
        !C::is_inverse(kind),
        dropped.stores == world.drop_entry(kind, entity).stores,
    ensures
        linked_beside(dropped.retract_edge(entity, world.edge_at(kind, entity)), away),
{
    lemma_drop_entry_advances(world, kind, entity);
    assert(dropped.consistent());
    assert forall|k: ComponentId, e: Entity|
        #![trigger dropped.entry(k, e)]
        k != kind || e != entity implies dropped.entry(k, e) == world.entry(k, e) by {
        lemma_drop_entry_entry(world, kind, entity, k, e);
        assert(dropped.entry(k, e) == world.drop_entry(kind, entity).entry(k, e));
    }
    lemma_drop_entry_entry(world, kind, entity, kind, entity);
    assert(dropped.entry(kind, entity) == world.drop_entry(kind, entity).entry(kind, entity));
    lemma_relink_restores(world, dropped, kind, entity, away);
}

/// Removing a component keeps relationships, whether it is an edge or not; inverses
/// themselves are nobody's to remove.
pub proof fn lemma_remove_component_keeps_links<C: RelationshipTarget>(
    world: WorldModel<C>,
    kind: ComponentId,
    entity: Entity,
)
    requires
        linked(world),
        !C::is_inverse(kind),
    ensures
        linked(world.remove_component(kind, entity)),
{
    if world.has(kind, entity) {
        lemma_linked_beside_nothing(world);
        lemma_drop_keeps_links(world, world.remove_flat(kind, entity), kind, entity, None);
        lemma_linked_beside_nothing(world.remove_component(kind, entity));
    }
}

/// Taking back a derived component keeps relationships: no inverse has an owner.
pub proof fn lemma_remove_owned_keeps_links<C: RelationshipTarget>(
    world: WorldModel<C>,
    owner: Invocation,
    cell: Cell,
)
    requires
        linked(world),
    ensures
        linked(world.remove_owned(owner, cell)),
{
    if world.owns(owner, cell) {
        if C::is_inverse(cell.0) {
            assert(world.entry(cell.0, cell.1) is Some);
        }
        let dropped = world.drop_entry(cell.0, cell.1).due(Hook::Remove, cell.0, cell.1);
        lemma_linked_beside_nothing(world);
        lemma_drop_keeps_links(world, dropped, cell.0, cell.1, None);
        lemma_linked_beside_nothing(world.remove_owned(owner, cell));
    }
}

proof fn lemma_rewrite_entry<C: RelationshipTarget>(
    world: WorldModel<C>,
    entity: Entity,
    value: C::Model,
    kind: ComponentId,
    other: Entity,
)
    requires
        world.has(C::kind(value), entity),
    ensures
        ({
            let after = world.rewrite(entity, value);
            if kind == C::kind(value) && other == entity {
                after.entry(kind, other) matches Some(entry) && entry.value == value
            } else {
                after.entry(kind, other) == world.entry(kind, other)
            }
        }),
{
    if kind == C::kind(value) && other.id() == entity.id() {
        crate::entity::lemma_entity_is_its_id(other, entity);
    }
}

proof fn lemma_rewrite_keeps_links<C: RelationshipTarget>(
    world: WorldModel<C>,
    rewritten: WorldModel<C>,
    entity: Entity,
    value: C::Model,
)
    requires
        linked(world),
        world.has(C::kind(value), entity),
        !C::is_inverse(C::kind(value)),
        rewritten.stores == world.rewrite(entity, value).stores,
    ensures
        linked(
            rewritten.relink(entity, world.edge_at(C::kind(value), entity), C::edge(value)),
        ),
{
    let kind = C::kind(value);
    let plain = world.rewrite(entity, value);
    lemma_rewrite_advances(world, entity, value);
    assert(rewritten.consistent());
    assert forall|k: ComponentId, e: Entity|
        #![trigger rewritten.entry(k, e)]
        k != kind || e != entity implies rewritten.entry(k, e) == world.entry(k, e) by {
        lemma_rewrite_entry(world, entity, value, k, e);
        assert(rewritten.entry(k, e) == plain.entry(k, e));
    }
    lemma_rewrite_entry(world, entity, value, kind, entity);
    assert(rewritten.entry(kind, entity) == plain.entry(kind, entity));
    lemma_linked_beside_nothing(world);
    lemma_relink_restores(world, rewritten, kind, entity, None);
    lemma_linked_beside_nothing(
        rewritten.relink(entity, world.edge_at(kind, entity), C::edge(value)),
    );
}

/// Replacing a value in place, from outside or by a system, keeps relationships:
/// also where an edge points elsewhere now.
pub proof fn lemma_write_in_place_keeps_links<C: RelationshipTarget>(
    world: WorldModel<C>,
    entity: Entity,
    value: C::Model,
)
    requires
        linked(world),
        !C::is_inverse(C::kind(value)),
    ensures
        linked(world.update(entity, value)),
        linked(world.reconcile(entity, value)),
{
    let kind = C::kind(value);
    if world.has(kind, entity) {
        lemma_rewrite_keeps_links(world, world.update_flat(entity, value), entity, value);
        lemma_rewrite_keeps_links(world, world.reconcile_flat(entity, value), entity, value);
    } else {
        lemma_linked_by_stores(world, world.reconcile(entity, value));
    }
}

proof fn lemma_drop_rows_entry<C: RelationshipTarget>(
    world: WorldModel<C>,
    kinds: Seq<ComponentId>,
    entity: Entity,
    kind: ComponentId,
    other: Entity,
)
    requires
        other != entity,
    ensures
        world.drop_rows(kinds, entity).entry(kind, other) == world.entry(kind, other),
    decreases kinds.len(),
{
    if kinds.len() > 0 {
        let done = world.drop_rows(kinds.drop_last(), entity);
        lemma_drop_rows_entry(world, kinds.drop_last(), entity, kind, other);
        lemma_drop_entry_entry(done, kinds.last(), entity, kind, other);
    }
}

proof fn lemma_edges_on_hold<C: RelationshipTarget>(
    world: WorldModel<C>,
    kinds: Seq<ComponentId>,
    entity: Entity,
)
    ensures
        forall|edge: RelationshipEdge| #[trigger]
            world.edges_on(kinds, entity).contains(edge) ==> C::is_inverse(edge.inverse),
        forall|kind: ComponentId|
            #![trigger world.edge_at(kind, entity)]
            kinds.contains(kind) ==> (world.edge_at(kind, entity) matches Some(edge)
                ==> world.edges_on(kinds, entity).contains(edge)),
    decreases kinds.len(),
{
    if kinds.len() > 0 {
        lemma_edges_on_hold(world, kinds.drop_last(), entity);
        if let Some(entry) = world.entry(kinds.last(), entity) {
            C::edge_laws(entry.value);
        }
        let rest = world.edges_on(kinds.drop_last(), entity);
        let all = world.edges_on(kinds, entity);
        assert forall|edge: RelationshipEdge| #[trigger] all.contains(edge) implies C::is_inverse(
            edge.inverse,
        ) by {
            let i = choose|i: int| 0 <= i < all.len() && all[i] == edge;
            if i < rest.len() {
                assert(rest[i] == edge);
                assert(rest.contains(edge));
            }
        }
        assert forall|kind: ComponentId|
            #![trigger world.edge_at(kind, entity)]
            kinds.contains(kind) implies (world.edge_at(kind, entity) matches Some(edge)
            ==> all.contains(edge)) by {
            if let Some(edge) = world.edge_at(kind, entity) {
                if kind == kinds.last() {
                    assert(all[rest.len() as int] == edge);
                } else {
                    let j = choose|j: int| 0 <= j < kinds.len() && kinds[j] == kind;
                    assert(kinds.drop_last()[j] == kind);
                    assert(rest.contains(edge));
                    let i = choose|i: int| 0 <= i < rest.len() && rest[i] == edge;
                    assert(all[i] == edge);
                }
            }
        }
    }
}

proof fn lemma_retract_edges_unlists<C: RelationshipTarget>(
    world: WorldModel<C>,
    source: Entity,
    edges: Seq<RelationshipEdge>,
    told: spec_fn(ComponentId, Entity, Entity) -> bool,
)
    requires
        inverses_built(world),
        lists(world, told),
        forall|edge: RelationshipEdge| #[trigger]
            edges.contains(edge) ==> C::is_inverse(edge.inverse),
    ensures
        inverses_built(world.retract_edges(source, edges)),
        lists(
            world.retract_edges(source, edges),
            |m: ComponentId, t: Entity, s: Entity|
                told(m, t, s) && !(s == source && edges.contains(
                    RelationshipEdge { target: t, inverse: m },
                )),
        ),
        forall|kind: ComponentId, entity: Entity|
            #![trigger world.retract_edges(source, edges).entry(kind, entity)]
            !C::is_inverse(kind) ==> world.retract_edges(source, edges).entry(kind, entity)
                == world.entry(kind, entity),
    decreases edges.len(),
{
    let after = world.retract_edges(source, edges);
    let told_after = |m: ComponentId, t: Entity, s: Entity|
        told(m, t, s) && !(s == source && edges.contains(
            RelationshipEdge { target: t, inverse: m },
        ));
    if edges.len() == 0 {
        assert(lists(after, told_after)) by {
            assert forall|m: ComponentId, t: Entity, s: Entity|
                #![trigger after.members(m, t).contains(s)]
                C::is_inverse(m) implies (after.members(m, t).contains(s) <==> told_after(
                m,
                t,
                s,
            )) by {
                assert(world.members(m, t).contains(s) <==> told(m, t, s));
            }
        }
    } else {
        let rest = edges.drop_last();
        let last = edges.last();
        assert(edges.contains(last));
        assert forall|edge: RelationshipEdge| #[trigger] rest.contains(edge) implies C::is_inverse(
            edge.inverse,
        ) by {
            let i = choose|i: int| 0 <= i < rest.len() && rest[i] == edge;
            assert(edges[i] == edge);
            assert(edges.contains(edge));
        }
        lemma_retract_edges_unlists(world, source, rest, told);
        let done = world.retract_edges(source, rest);
        let told_done = |m: ComponentId, t: Entity, s: Entity|
            told(m, t, s) && !(s == source && rest.contains(
                RelationshipEdge { target: t, inverse: m },
            ));
        assert(lists(done, told_done));
        lemma_remove_member_unlists(done, last.inverse, source, last.target, told_done);
        let told_last = |m: ComponentId, t: Entity, s: Entity|
            told_done(m, t, s) && !(m == last.inverse && t == last.target && s == source);
        assert(lists(after, told_last));
        assert(lists(after, told_after)) by {
            assert forall|m: ComponentId, t: Entity, s: Entity|
                #![trigger after.members(m, t).contains(s)]
                C::is_inverse(m) implies (after.members(m, t).contains(s) <==> told_after(
                m,
                t,
                s,
            )) by {
                assert(after.members(m, t).contains(s) <==> told_last(m, t, s));
                let edge = RelationshipEdge { target: t, inverse: m };
                if edges.contains(edge) && edge != last {
                    let i = choose|i: int| 0 <= i < edges.len() && edges[i] == edge;
                    assert(rest[i] == edge);
                }
                if rest.contains(edge) {
                    let i = choose|i: int| 0 <= i < rest.len() && rest[i] == edge;
                    assert(edges[i] == edge);
                }
            }
        }
        assert forall|kind: ComponentId, entity: Entity|
            #![trigger after.entry(kind, entity)]
            !C::is_inverse(kind) implies after.entry(kind, entity) == world.entry(kind, entity) by {
            lemma_members_touch_one_cell(
                done,
                last.inverse,
                source,
                last.target,
                kind,
                entity,
            );
            assert(done.entry(kind, entity) == world.entry(kind, entity));
        }
    }
}

proof fn lemma_retractions_on_hold<C: RelationshipTarget>(
    world: WorldModel<C>,
    kinds: Seq<ComponentId>,
    entity: Entity,
)
    requires
        world.consistent(),
        inverses_built(world),
    ensures
        forall|one: RelationshipRetraction| #[trigger]
            world.retractions_on(kinds, entity).contains(one) ==> !C::is_inverse(one.edge),
        forall|inverse: ComponentId, source: Entity|
            #![trigger world.members(inverse, entity).contains(source)]
            C::is_inverse(inverse) && kinds.contains(inverse) && world.members(
                inverse,
                entity,
            ).contains(source) ==> world.retractions_on(kinds, entity).contains(
                RelationshipRetraction { source, edge: C::edge_of(inverse) },
            ),
    decreases kinds.len(),
{
    if kinds.len() > 0 {
        let last = kinds.last();
        lemma_retractions_on_hold(world, kinds.drop_last(), entity);
        let rest = world.retractions_on(kinds.drop_last(), entity);
        let all = world.retractions_on(kinds, entity);
        if let Some(entry) = world.entry(last, entity) {
            assert(C::kind(world.stores[last].entries[entity.id()].value) == last);
            C::edge_laws(entry.value);
            if C::is_inverse(last) {
                C::inverse_laws(last, C::sources(entry.value));
                assert(C::retracts(entry.value) == retractions_of(
                    C::sources(entry.value),
                    C::edge_of(last),
                ));
            }
        }
        assert forall|one: RelationshipRetraction| #[trigger]
            all.contains(one) implies !C::is_inverse(one.edge) by {
            let i = choose|i: int| 0 <= i < all.len() && all[i] == one;
            if i < rest.len() {
                assert(rest[i] == one);
                assert(rest.contains(one));
            }
        }
        assert forall|inverse: ComponentId, source: Entity|
            #![trigger world.members(inverse, entity).contains(source)]
            C::is_inverse(inverse) && kinds.contains(inverse) && world.members(
                inverse,
                entity,
            ).contains(source) implies all.contains(
            RelationshipRetraction { source, edge: C::edge_of(inverse) },
        ) by {
            let one = RelationshipRetraction { source, edge: C::edge_of(inverse) };
            let members = world.members(inverse, entity);
            if inverse == last {
                let i = choose|i: int| 0 <= i < members.len() && members[i] == source;
                assert(retractions_of(members, C::edge_of(inverse))[i] == one);
                assert(all[rest.len() + i] == one);
            } else {
                let j = choose|j: int| 0 <= j < kinds.len() && kinds[j] == inverse;
                assert(kinds.drop_last()[j] == inverse);
                assert(rest.contains(one));
                let i = choose|i: int| 0 <= i < rest.len() && rest[i] == one;
                assert(all[i] == one);
            }
        }
    }
}

proof fn lemma_retract_sources_keeps_links<C: RelationshipTarget>(
    world: WorldModel<C>,
    retractions: Seq<RelationshipRetraction>,
    away: Option<Entity>,
)
    requires
        linked_beside(world, away),
        forall|one: RelationshipRetraction| #[trigger]
            retractions.contains(one) ==> !C::is_inverse(one.edge),
    ensures
        linked_beside(world.retract_sources(retractions), away),
        forall|kind: ComponentId, entity: Entity|
            #![trigger world.retract_sources(retractions).entry(kind, entity)]
            !C::is_inverse(kind) ==> (world.retract_sources(retractions).entry(kind, entity) is Some
                ==> world.retract_sources(retractions).entry(kind, entity) == world.entry(
                kind,
                entity,
            )),
    decreases retractions.len(),
{
    if retractions.len() > 0 {
        let rest = retractions.drop_last();
        let last = retractions.last();
        assert(retractions.contains(last));
        assert forall|one: RelationshipRetraction| #[trigger]
            rest.contains(one) implies !C::is_inverse(one.edge) by {
            let i = choose|i: int| 0 <= i < rest.len() && rest[i] == one;
            assert(retractions[i] == one);
            assert(retractions.contains(one));
        }
        lemma_retract_sources_keeps_links(world, rest, away);
        let done = world.retract_sources(rest);
        let after = world.retract_sources(retractions);
        let dropped = done.remove_flat(last.edge, last.source);
        if done.has(last.edge, last.source) {
            lemma_drop_keeps_links(done, dropped, last.edge, last.source, away);
        }
        lemma_edge_names_its_inverse(done, last.edge, last.source);
        assert forall|kind: ComponentId, entity: Entity|
            #![trigger after.entry(kind, entity)]
            !C::is_inverse(kind) implies (after.entry(kind, entity) is Some ==> after.entry(
            kind,
            entity,
        ) == world.entry(kind, entity)) by {
            lemma_drop_entry_entry(done, last.edge, last.source, kind, entity);
            if let Some(edge) = done.edge_at(last.edge, last.source) {
                lemma_members_touch_one_cell(
                    dropped,
                    edge.inverse,
                    last.source,
                    edge.target,
                    kind,
                    entity,
                );
            }
            assert(done.entry(kind, entity) is Some ==> done.entry(kind, entity) == world.entry(
                kind,
                entity,
            ));
        }
    }
}

/// Removing an entity with everything on it keeps relationships: its edges leave
/// their inverses, and the edges that pointed at it are gone.
pub proof fn lemma_remove_entity_keeps_links<C: RelationshipTarget>(
    world: WorldModel<C>,
    entity: Entity,
)
    requires
        linked(world),
    ensures
        linked(world.remove_entity(entity)),
{
    let kinds = world.kinds();
    let edges = world.edges_on(kinds, entity);
    let retractions = world.retractions_on(kinds, entity);
    let away = Some(entity);
    crate::model::lemma_sorted_keys_list(world.stores.dom());
    let gone = world.drop_rows(kinds, entity).forget(entity);
    let unlisted = gone.retract_edges(entity, edges);
    let after = unlisted.retract_sources(retractions);
    assert forall|kind: ComponentId| #[trigger] world.has(kind, entity) implies kinds.contains(
        kind,
    ) by {
        assert(kinds.to_set().contains(kind));
    }
    assert forall|kind: ComponentId, other: Entity|
        #![trigger gone.entry(kind, other)]
        gone.entry(kind, other) == if other == entity {
            None
        } else {
            world.entry(kind, other)
        } by {
        assert(gone.entry(kind, other) == world.drop_rows(kinds, entity).entry(kind, other));
        if other == entity {
            crate::world::lemma_drop_rows_empties(world, kinds, entity, kind);
            assert(world.has(kind, entity) ==> kinds.contains(kind));
        } else {
            lemma_drop_rows_entry(world, kinds, entity, kind, other);
        }
    }
    lemma_drop_rows_advances(world, kinds, entity);
    let listed = |m: ComponentId, t: Entity, s: Entity| t != entity && points(world, m, t, s);
    assert(inverses_built(gone)) by {
        assert forall|m: ComponentId, t: Entity|
            #![trigger gone.entry(m, t)]
            C::is_inverse(m) implies (gone.entry(m, t) matches Some(entry) ==> {
            &&& entry.owner is None
            &&& entry.value == C::inverse_fact(m, C::sources(entry.value))
            &&& C::sources(entry.value).len() > 0
            &&& sorted_members(C::sources(entry.value))
        }) by {
            assert(t != entity ==> gone.entry(m, t) == world.entry(m, t));
        }
    }
    assert(lists(gone, listed)) by {
        assert forall|m: ComponentId, t: Entity, s: Entity|
            #![trigger gone.members(m, t).contains(s)]
            C::is_inverse(m) implies (gone.members(m, t).contains(s) <==> listed(m, t, s)) by {
            assert(world.members(m, t).contains(s) <==> points(world, m, t, s));
            assert(gone.entry(m, t) == if t == entity {
                None
            } else {
                world.entry(m, t)
            });
        }
    }
    lemma_edges_on_hold(world, kinds, entity);
    lemma_retract_edges_unlists(gone, entity, edges, listed);
    lemma_retract_edges_advances(gone, entity, edges);
    assert(gone.consistent());
    let told = pointing(unlisted, away);
    assert(lists(unlisted, told)) by {
        let less = |m: ComponentId, t: Entity, s: Entity|
            listed(m, t, s) && !(s == entity && edges.contains(
                RelationshipEdge { target: t, inverse: m },
            ));
        assert(lists(unlisted, less));
        assert forall|m: ComponentId, t: Entity, s: Entity|
            #![trigger unlisted.members(m, t).contains(s)]
            C::is_inverse(m) implies (unlisted.members(m, t).contains(s) <==> told(m, t, s)) by {
            assert(unlisted.members(m, t).contains(s) <==> less(m, t, s));
            C::inverse_laws(m, Seq::empty());
            let edge = C::edge_of(m);
            assert(unlisted.entry(edge, s) == gone.entry(edge, s));
            assert(gone.entry(edge, s) == if s == entity {
                None
            } else {
                world.entry(edge, s)
            });
            if s == entity && points(world, m, t, s) {
                assert(world.has(edge, entity));
                assert(kinds.contains(edge));
                assert(world.edge_at(edge, entity) is Some);
            }
        }
    }
    lemma_retractions_on_hold(world, kinds, entity);
    lemma_retract_sources_keeps_links(unlisted, retractions, away);
    let told_after = pointing(after, away);
    let told_all = pointing(after, None);
    assert(lists(after, told_all)) by {
        assert forall|m: ComponentId, t: Entity, s: Entity|
            #![trigger after.members(m, t).contains(s)]
            C::is_inverse(m) implies (after.members(m, t).contains(s) <==> told_all(m, t, s)) by {
            assert(after.members(m, t).contains(s) <==> told_after(m, t, s));
            C::inverse_laws(m, Seq::empty());
            let edge = C::edge_of(m);
            if t == entity && points(after, m, t, s) {
                assert(after.entry(edge, s) == unlisted.entry(edge, s));
                assert(unlisted.entry(edge, s) == gone.entry(edge, s));
                assert(gone.entry(edge, s) == world.entry(edge, s));
                assert(points(world, m, t, s));
                assert(world.members(m, t).contains(s));
                assert(world.has(m, entity));
                let one = RelationshipRetraction { source: s, edge };
                assert(retractions.contains(one));
                let i = choose|i: int| 0 <= i < retractions.len() && retractions[i] == one;
                lemma_removed_target_retracts_edges(unlisted, retractions, i);
                assert(!after.has(edge, s));
            }
        }
    }
    assert(linked_beside(after, None));
    lemma_linked_beside_nothing(after);
}

/// Whether a system's operation leaves inverses to relationship maintenance.
pub open spec fn plain_op<C: RelationshipTarget>(op: OpModel<C>) -> bool {
    match op {
        OpModel::Insert { fact, .. } => !C::is_inverse(C::kind(fact)),
        OpModel::Spawn { facts, .. } => forall|i: int|
            0 <= i < facts.len() ==> !C::is_inverse(C::kind(#[trigger] facts[i])),
        OpModel::RemoveComponent { kind, .. } => !C::is_inverse(kind),
        OpModel::RemoveEntity { .. } => true,
    }
}

/// Whether an input leaves inverses to relationship maintenance.
pub open spec fn plain_input<C: RelationshipTarget>(op: BaseOpModel<C>) -> bool {
    match op {
        BaseOpModel::Insert { fact, .. } => !C::is_inverse(C::kind(fact)),
        BaseOpModel::RemoveComponent { kind, .. } => !C::is_inverse(kind),
        BaseOpModel::RemoveEntity { .. } => true,
    }
}

/// Applying inputs keeps relationships, also up to one that is refused.
pub proof fn lemma_inputs_keep_links<C: RelationshipTarget>(
    world: WorldModel<C>,
    inputs: Seq<BaseOpModel<C>>,
)
    requires
        linked(world),
        forall|i: int| 0 <= i < inputs.len() ==> plain_input(#[trigger] inputs[i]),
    ensures
        linked(apply_base_ops(world, inputs).0),
    decreases inputs.len(),
{
    if inputs.len() > 0 {
        let rest = inputs.drop_last();
        assert forall|i: int| 0 <= i < rest.len() implies plain_input(#[trigger] rest[i]) by {
            assert(rest[i] == inputs[i]);
        }
        lemma_inputs_keep_links(world, rest);
        let done = apply_base_ops(world, rest).0;
        assert(plain_input(inputs[inputs.len() - 1]));
        match inputs.last() {
            BaseOpModel::Insert { entity, fact } => {
                lemma_insert_keeps_links(done, entity, fact, Origin::Base, None);
            },
            BaseOpModel::RemoveComponent { kind, entity } => {
                lemma_remove_component_keeps_links(done, kind, entity);
            },
            BaseOpModel::RemoveEntity { entity } => {
                lemma_remove_entity_keeps_links(done, entity);
            },
        }
    }
}

proof fn lemma_facts_keep_links<C: RelationshipTarget>(
    world: WorldModel<C>,
    entity: Entity,
    facts: Seq<C::Model>,
    origin: Origin,
    owner: Option<Invocation>,
)
    requires
        linked(world),
        forall|i: int| 0 <= i < facts.len() ==> !C::is_inverse(C::kind(#[trigger] facts[i])),
    ensures
        linked(insert_facts(world, entity, facts, origin, owner).0),
    decreases facts.len(),
{
    if facts.len() > 0 {
        let rest = facts.drop_last();
        assert forall|i: int| 0 <= i < rest.len() implies !C::is_inverse(
            C::kind(#[trigger] rest[i]),
        ) by {
            assert(rest[i] == facts[i]);
        }
        lemma_facts_keep_links(world, entity, rest, origin, owner);
        let done = insert_facts(world, entity, rest, origin, owner).0;
        assert(!C::is_inverse(C::kind(facts[facts.len() - 1])));
        lemma_insert_keeps_links(done, entity, facts.last(), origin, owner);
    }
}

proof fn lemma_op_keeps_links<C: RelationshipTarget>(
    world: WorldModel<C>,
    op: OpModel<C>,
    owner: Invocation,
)
    requires
        linked(world),
        plain_op(op),
    ensures
        linked(apply_op(world, op, owner).0),
{
    match op {
        OpModel::Insert { entity, fact } => {
            lemma_insert_keeps_links(world, entity, fact, Origin::Derived, Some(owner));
        },
        OpModel::Spawn { facts, reserved } => {
            let target = spawn_target(world, facts, reserved);
            let ready = registered(world, facts, reserved).record_spawn(owner, target);
            lemma_linked_by_stores(world, ready);
            lemma_facts_keep_links(ready, target, facts, Origin::Derived, Some(owner));
        },
        OpModel::RemoveComponent { kind, entity } => {
            lemma_remove_component_keeps_links(world, kind, entity);
        },
        OpModel::RemoveEntity { entity } => {
            lemma_remove_entity_keeps_links(world, entity);
        },
    }
}

proof fn lemma_ops_keep_links<C: RelationshipTarget>(
    world: WorldModel<C>,
    ops: Seq<OpModel<C>>,
    owner: Invocation,
)
    requires
        linked(world),
        forall|i: int| 0 <= i < ops.len() ==> plain_op(#[trigger] ops[i]),
    ensures
        linked(apply_ops(world, ops, owner).0),
    decreases ops.len(),
{
    if ops.len() > 0 {
        let rest = ops.drop_last();
        assert forall|i: int| 0 <= i < rest.len() implies plain_op(#[trigger] rest[i]) by {
            assert(rest[i] == ops[i]);
        }
        lemma_ops_keep_links(world, rest, owner);
        let done = apply_ops(world, rest, owner).0;
        assert(plain_op(ops[ops.len() - 1]));
        lemma_op_keeps_links(done, ops.last(), owner);
    }
}

proof fn lemma_held_keep_links<C: RelationshipTarget>(
    world: WorldModel<C>,
    held: Seq<(Invocation, OpModel<C>)>,
)
    requires
        linked(world),
        forall|i: int| 0 <= i < held.len() ==> plain_op((#[trigger] held[i]).1),
    ensures
        linked(apply_held(world, held).0),
    decreases held.len(),
{
    if held.len() > 0 {
        let rest = held.drop_last();
        assert forall|i: int| 0 <= i < rest.len() implies plain_op((#[trigger] rest[i]).1) by {
            assert(rest[i] == held[i]);
        }
        lemma_held_keep_links(world, rest);
        assert(plain_op(held[held.len() - 1].1));
        lemma_op_keeps_links(apply_held(world, rest).0, held.last().1, held.last().0);
    }
}

/// The start of a generation keeps relationships: what was held back and the inputs
/// that are accepted move the inverses with them.
pub proof fn lemma_opening_keeps_links<C: RelationshipTarget>(
    world: WorldModel<C>,
    held: Seq<(Invocation, OpModel<C>)>,
    inputs: Seq<BaseOpModel<C>>,
)
    requires
        linked(world),
        forall|i: int| 0 <= i < held.len() ==> plain_op((#[trigger] held[i]).1),
        forall|i: int| 0 <= i < inputs.len() ==> plain_input(#[trigger] inputs[i]),
    ensures
        linked(opened(world, held, inputs).0),
{
    lemma_linked_by_stores(world, rolled(world));
    lemma_held_keep_links(rolled(world), held);
    let reinstated = apply_held(rolled(world), held).0;
    lemma_inputs_keep_links(reinstated, inputs);
    let entered = apply_base_ops(reinstated, inputs).0;
    lemma_flush_keeps_links(entered);
    lemma_linked_by_stores(entered.flush(), delivered(drained(entered.flush())));
}

proof fn lemma_immediate_are_plain<C: RelationshipTarget>(ops: Seq<OpModel<C>>, defer: bool)
    requires
        forall|i: int| 0 <= i < ops.len() ==> plain_op(#[trigger] ops[i]),
    ensures
        forall|i: int|
            0 <= i < immediate(ops, defer).len() ==> plain_op(#[trigger] immediate(ops, defer)[i]),
    decreases ops.len(),
{
    if ops.len() > 0 {
        let rest = ops.drop_last();
        assert forall|i: int| 0 <= i < rest.len() implies plain_op(#[trigger] rest[i]) by {
            assert(rest[i] == ops[i]);
        }
        lemma_immediate_are_plain(rest, defer);
        assert(plain_op(ops[ops.len() - 1]));
        let all = immediate(ops, defer);
        let less = immediate(rest, defer);
        assert forall|i: int| 0 <= i < all.len() implies plain_op(#[trigger] all[i]) by {
            if i < less.len() {
                assert(all[i] == less[i]);
            }
        }
    }
}

proof fn lemma_stale_keep_links<C: RelationshipTarget>(
    world: WorldModel<C>,
    owner: Invocation,
    previous: Seq<Cell>,
)
    requires
        linked(world),
    ensures
        linked(world.remove_stale(owner, previous)),
    decreases previous.len(),
{
    if previous.len() > 0 {
        lemma_stale_keep_links(world, owner, previous.drop_last());
        let done = world.remove_stale(owner, previous.drop_last());
        lemma_remove_owned_keeps_links(done, owner, previous.last());
    }
}

/// Whether what a run left leaves inverses to relationship maintenance.
pub open spec fn plain_run<C: RelationshipTarget>(run: RunModel<C>) -> bool {
    &&& forall|i: int|
        0 <= i < run.outputs.len() ==> plain_output(#[trigger] run.outputs[i])
    &&& forall|i: int|
        0 <= i < run.writes.len() ==> !C::is_inverse(C::kind((#[trigger] run.writes[i]).1))
}

/// Whether the operations of an output leave inverses to relationship maintenance.
pub open spec fn plain_output<C: RelationshipTarget>(output: OutputModel<C>) -> bool {
    forall|i: int| 0 <= i < output.ops.len() ==> plain_op(#[trigger] output.ops[i])
}

proof fn lemma_outputs_keep_links<C: RelationshipTarget>(
    world: WorldModel<C>,
    list: Seq<OutputModel<C>>,
    phase: Option<Phase>,
    checks: CheckModel,
)
    requires
        linked(world),
        forall|i: int| 0 <= i < list.len() ==> plain_output(#[trigger] list[i]),
    ensures
        linked(commit_outputs(world, list, phase, checks).0),
    decreases list.len(),
{
    if list.len() > 0 {
        let rest = list.drop_last();
        assert forall|i: int| 0 <= i < rest.len() implies plain_output(#[trigger] rest[i]) by {
            assert(rest[i] == list[i]);
        }
        lemma_outputs_keep_links(world, rest, phase, checks);
        let done = commit_outputs(world, rest, phase, checks).0;
        let output = list.last();
        assert(plain_output(list[list.len() - 1]));
        let defer = phase == Some(Phase::Settle);
        let previous = outputs(done.owned, output.owner);
        let taken = WorldModel { owned: done.owned.remove(output.owner), ..done };
        let applied = apply_ops(taken, immediate(output.ops, defer), output.owner).0;
        let finished = applied.flush().finish_spawns(output.owner);
        lemma_linked_by_stores(done, taken);
        lemma_immediate_are_plain(output.ops, defer);
        lemma_ops_keep_links(taken, immediate(output.ops, defer), output.owner);
        lemma_flush_keeps_links(applied);
        lemma_linked_by_stores(applied.flush(), finished);
        lemma_stale_keep_links(finished, output.owner, previous);
        let replaced = replace_outputs(done, output, defer).0;
        lemma_linked_by_stores(replaced, drained(replaced));
        reveal(commit_output);
    }
}

proof fn lemma_writes_keep_links<C: RelationshipTarget>(
    world: WorldModel<C>,
    writes: Seq<(Entity, C::Model)>,
)
    requires
        linked(world),
        forall|i: int| 0 <= i < writes.len() ==> !C::is_inverse(C::kind((#[trigger] writes[i]).1)),
    ensures
        linked(world.reconcile_each(writes)),
    decreases writes.len(),
{
    if writes.len() > 0 {
        let rest = writes.drop_last();
        assert forall|i: int| 0 <= i < rest.len() implies !C::is_inverse(
            C::kind((#[trigger] rest[i]).1),
        ) by {
            assert(rest[i] == writes[i]);
        }
        lemma_writes_keep_links(world, rest);
        assert(!C::is_inverse(C::kind(writes[writes.len() - 1].1)));
        lemma_write_in_place_keeps_links(
            world.reconcile_each(rest),
            writes.last().0,
            writes.last().1,
        );
    }
}

/// A commit keeps relationships, accepted, refused or out of date: what a run
/// inserts, removes and writes in place moves the inverses with it.
pub proof fn lemma_commit_keeps_links<C: RelationshipTarget>(
    before: CommitModel<C>,
    run: RunModel<C>,
    phase: Option<Phase>,
    checks: CheckModel,
)
    requires
        linked(before.world),
        plain_run(run),
    ensures
        linked(commit_run(before, run, phase, checks).0.world),
{
    reveal(commit_run);
    lemma_writes_keep_links(before.world, run.writes);
    let after = commit_run(before, run, phase, checks).0.world;
    if !updates_current(before.world, run.updates) {
        lemma_linked_by_stores(before.world.reconcile_each(run.writes), after);
    } else {
        let committed = commit_outputs(before.world, run.outputs, phase, checks);
        lemma_outputs_keep_links(before.world, run.outputs, phase, checks);
        if committed.1 is None {
            lemma_writes_keep_links(committed.0, run.writes);
            lemma_linked_by_stores(committed.0.reconcile_each(run.writes), after);
        }
    }
}

} // verus!
