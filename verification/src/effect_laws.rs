//! What else a write brings about: hooks, checks and revisions; and what fingerprints
//! tell apart.

use crate::component::{
    anchor_bytes, anchor_entities, captured, uncaptured, ComponentId, DerivedAnchor, RelationshipEdge, RelationshipRetraction,
    RelationshipTarget,
};
use crate::entity::Entity;
use crate::facts::entity_bytes;
use crate::invocation::Invocation;
use crate::model::{next, Hook, HookRun, Origin, WorldModel};
use crate::seq_laws::{lemma_joined, lemma_last};
use crate::world_laws::{lemma_drop_entry_entry, lemma_members_touch_one_cell};
use crate::write_laws::lemma_removal_is_local;
use vstd::bytes::{lemma_auto_spec_u64_to_from_le_bytes, spec_u64_from_le_bytes, spec_u64_to_le_bytes};
use vstd::prelude::*;

verus! {

/// Whether all hooks that were due still are, in order.
pub open spec fn hooks_stay<C: RelationshipTarget>(
    before: WorldModel<C>,
    after: WorldModel<C>,
) -> bool {
    &&& before.hooks.len() <= after.hooks.len()
    &&& forall|i: int|
        0 <= i < before.hooks.len() ==> #[trigger] after.hooks[i] == before.hooks[i]
}

proof fn lemma_members_keep_hooks<C: RelationshipTarget>(
    world: WorldModel<C>,
    inverse: ComponentId,
    source: Entity,
    target: Entity,
)
    ensures
        hooks_stay(world, world.add_member(inverse, source, target)),
        hooks_stay(world, world.remove_member(inverse, source, target)),
{
}

proof fn lemma_relink_keeps_hooks<C: RelationshipTarget>(
    world: WorldModel<C>,
    entity: Entity,
    before: Option<RelationshipEdge>,
    after: Option<RelationshipEdge>,
)
    ensures
        hooks_stay(world, world.retract_edge(entity, before)),
        hooks_stay(world, world.relink(entity, before, after)),
{
    let retracted = world.retract_edge(entity, before);
    if let Some(edge) = before {
        lemma_members_keep_hooks(world, edge.inverse, entity, edge.target);
    }
    if let Some(edge) = after {
        lemma_members_keep_hooks(retracted, edge.inverse, entity, edge.target);
    }
}

/// An insert that takes place makes the insert hook of the component due, last of all;
/// one that is refused, or a marker that has to wait, makes none due.
pub proof fn lemma_insert_makes_its_hook_due<C: RelationshipTarget>(
    world: WorldModel<C>,
    entity: Entity,
    value: C::Model,
    origin: Origin,
    owner: Option<Invocation>,
)
    ensures
        hooks_stay(world, world.insert(entity, value, origin, owner)),
        C::anchored(value) is None && !world.refuses(entity, value) ==> ({
            let after = world.insert(entity, value, origin, owner);
            after.hooks.len() > world.hooks.len() && after.hooks.last() == (HookRun {
                hook: Hook::Insert,
                kind: C::kind(value),
                entity,
            })
        }),
        C::anchored(value) is Some || world.refuses(entity, value) ==> world.insert(
            entity,
            value,
            origin,
            owner,
        ).hooks == world.hooks,
{
    let put = world.put(entity, value, origin, owner);
    lemma_relink_keeps_hooks(
        put,
        entity,
        world.edge_at(C::kind(value), entity),
        C::edge(value),
    );
}

/// A removal makes the remove hook of the component due when it was there, and does
/// nothing at all when it was not.
pub proof fn lemma_removal_makes_its_hook_due<C: RelationshipTarget>(
    world: WorldModel<C>,
    kind: ComponentId,
    entity: Entity,
)
    ensures
        hooks_stay(world, world.remove_component(kind, entity)),
        world.entry(kind, entity) is Some ==> ({
            let after = world.remove_component(kind, entity);
            after.hooks.len() > world.hooks.len() && after.hooks[world.hooks.len() as int] == (
            HookRun { hook: Hook::Remove, kind, entity })
        }),
        world.entry(kind, entity) is None ==> world.remove_component(kind, entity) == world,
{
    let flat = world.remove_flat(kind, entity);
    let edge = world.edge_at(kind, entity);
    lemma_relink_keeps_hooks(flat, entity, edge, None);
    if world.entry(kind, entity) is Some {
        let at = world.hooks.len() as int;
        assert(flat.hooks[at] == HookRun { hook: Hook::Remove, kind, entity });
        assert(flat.retract_edge(entity, edge).hooks[at] == flat.hooks[at]);
    }
}

proof fn lemma_drop_rows_hooks<C: RelationshipTarget>(
    world: WorldModel<C>,
    kinds: Seq<ComponentId>,
    entity: Entity,
    kind: ComponentId,
)
    ensures
        hooks_stay(world, world.drop_rows(kinds, entity)),
        forall|other: ComponentId, who: Entity|
            #![trigger world.drop_rows(kinds, entity).entry(other, who)]
            world.drop_rows(kinds, entity).entry(other, who) == if who == entity && kinds.contains(
                other,
            ) {
                None
            } else {
                world.entry(other, who)
            },
        kinds.contains(kind) && world.entry(kind, entity) is Some ==> ({
            let after = world.drop_rows(kinds, entity);
            after.hooks.contains(HookRun { hook: Hook::EntityRemove, kind, entity })
                && after.hooks.contains(HookRun { hook: Hook::Remove, kind, entity })
        }),
    decreases kinds.len(),
{
    if kinds.len() > 0 {
        let rest = kinds.drop_last();
        let last = kinds.last();
        lemma_drop_rows_hooks(world, rest, entity, kind);
        let done = world.drop_rows(rest, entity);
        let after = world.drop_rows(kinds, entity);
        lemma_last(kinds, kind);
        assert forall|other: ComponentId, who: Entity|
            #![trigger after.entry(other, who)]
            after.entry(other, who) == if who == entity && kinds.contains(other) {
                None
            } else {
                world.entry(other, who)
            } by {
            lemma_last(kinds, other);
            lemma_drop_entry_entry(done, last, entity, other, who);
            assert(done.entry(other, who) == if who == entity && rest.contains(other) {
                None
            } else {
                world.entry(other, who)
            });
            if who.id() == entity.id() {
                crate::entity::lemma_entity_is_its_id(who, entity);
            }
        }
        let first = HookRun { hook: Hook::EntityRemove, kind, entity };
        let second = HookRun { hook: Hook::Remove, kind, entity };
        if rest.contains(kind) && world.entry(kind, entity) is Some {
            let i = choose|i: int| 0 <= i < done.hooks.len() && done.hooks[i] == first;
            let j = choose|j: int| 0 <= j < done.hooks.len() && done.hooks[j] == second;
            assert(after.hooks[i] == first);
            assert(after.hooks[j] == second);
        } else if kind == last && world.entry(kind, entity) is Some {
            assert(done.entry(kind, entity) == world.entry(kind, entity));
            assert(after.hooks[done.hooks.len() as int] == first);
            assert(after.hooks[done.hooks.len() as int + 1] == second);
        }
    }
}

proof fn lemma_retract_edges_elsewhere<C: RelationshipTarget>(
    world: WorldModel<C>,
    source: Entity,
    edges: Seq<RelationshipEdge>,
    kind: ComponentId,
    other: Entity,
)
    requires
        !C::is_inverse(kind),
        forall|i: int| 0 <= i < edges.len() ==> C::is_inverse((#[trigger] edges[i]).inverse),
    ensures
        world.retract_edges(source, edges).entry(kind, other) == world.entry(kind, other),
        hooks_stay(world, world.retract_edges(source, edges)),
    decreases edges.len(),
{
    if edges.len() > 0 {
        let rest = edges.drop_last();
        assert forall|i: int| 0 <= i < rest.len() implies C::is_inverse(
            (#[trigger] rest[i]).inverse,
        ) by {
            assert(rest[i] == edges[i]);
        }
        lemma_retract_edges_elsewhere(world, source, rest, kind, other);
        let done = world.retract_edges(source, rest);
        let edge = edges.last();
        assert(C::is_inverse(edges[edges.len() - 1].inverse));
        lemma_members_touch_one_cell(done, edge.inverse, source, edge.target, kind, other);
        lemma_members_keep_hooks(done, edge.inverse, source, edge.target);
    }
}

/// The edges on an entity name inverses.
pub proof fn lemma_edges_on<C: RelationshipTarget>(
    world: WorldModel<C>,
    kinds: Seq<ComponentId>,
    entity: Entity,
)
    ensures
        forall|i: int|
            0 <= i < world.edges_on(kinds, entity).len() ==> C::is_inverse(
                (#[trigger] world.edges_on(kinds, entity)[i]).inverse,
            ),
    decreases kinds.len(),
{
    if kinds.len() > 0 {
        let rest = world.edges_on(kinds.drop_last(), entity);
        lemma_edges_on(world, kinds.drop_last(), entity);
        if let Some(entry) = world.entry(kinds.last(), entity) {
            C::edge_laws(entry.value);
        }
        let all = world.edges_on(kinds, entity);
        assert forall|i: int| 0 <= i < all.len() implies C::is_inverse(
            (#[trigger] all[i]).inverse,
        ) by {
            if i < rest.len() {
                assert(all[i] == rest[i]);
            }
        }
    }
}

proof fn lemma_retract_sources_elsewhere<C: RelationshipTarget>(
    world: WorldModel<C>,
    retractions: Seq<RelationshipRetraction>,
    kind: ComponentId,
    other: Entity,
)
    requires
        !C::is_inverse(kind),
    ensures
        world.retract_sources(retractions).entry(kind, other) == if retractions.contains(
            (RelationshipRetraction { source: other, edge: kind }),
        ) {
            None
        } else {
            world.entry(kind, other)
        },
        hooks_stay(world, world.retract_sources(retractions)),
    decreases retractions.len(),
{
    if retractions.len() > 0 {
        let rest = retractions.drop_last();
        let last = retractions.last();
        lemma_retract_sources_elsewhere(world, rest, kind, other);
        let done = world.retract_sources(rest);
        lemma_removal_is_local(done, last.edge, last.source, kind, other);
        lemma_removal_makes_its_hook_due(done, last.edge, last.source);
        lemma_last(retractions, RelationshipRetraction { source: other, edge: kind });
    }
}

proof fn lemma_retractions_on<C: RelationshipTarget>(
    world: WorldModel<C>,
    kinds: Seq<ComponentId>,
    entity: Entity,
    retraction: RelationshipRetraction,
)
    ensures
        world.retractions_on(kinds, entity).contains(retraction) <==> exists|i: int|
            0 <= i < kinds.len() && (world.entry(#[trigger] kinds[i], entity) matches Some(entry)
                && C::retracts(entry.value).contains(retraction)),
    decreases kinds.len(),
{
    if kinds.len() > 0 {
        let rest = kinds.drop_last();
        lemma_retractions_on(world, rest, entity, retraction);
        if let Some(entry) = world.entry(kinds.last(), entity) {
            lemma_joined(
                world.retractions_on(rest, entity),
                C::retracts(entry.value),
                retraction,
            );
        }
        if exists|i: int|
            0 <= i < kinds.len() && (world.entry(#[trigger] kinds[i], entity) matches Some(entry)
                && C::retracts(entry.value).contains(retraction)) {
            let i = choose|i: int|
                0 <= i < kinds.len() && (world.entry(#[trigger] kinds[i], entity) matches Some(
                    entry,
                ) && C::retracts(entry.value).contains(retraction));
            if i < rest.len() {
                assert(world.entry(rest[i], entity) == world.entry(kinds[i], entity));
            }
        }
        if exists|i: int|
            0 <= i < rest.len() && (world.entry(#[trigger] rest[i], entity) matches Some(entry)
                && C::retracts(entry.value).contains(retraction)) {
            let i = choose|i: int|
                0 <= i < rest.len() && (world.entry(#[trigger] rest[i], entity) matches Some(entry)
                    && C::retracts(entry.value).contains(retraction));
            assert(world.entry(kinds[i], entity) == world.entry(rest[i], entity));
        }
        if world.entry(kinds.last(), entity) matches Some(entry) && C::retracts(
            entry.value,
        ).contains(retraction) {
            assert(world.entry(kinds[kinds.len() - 1], entity) is Some);
        }
    }
}

/// Removing an entity takes its components and, from other entities, exactly the edges
/// that its inverses list as pointing at it; inverses follow. Every component of it makes
/// its hooks due.
pub proof fn lemma_entity_removal_is_local<C: RelationshipTarget>(
    world: WorldModel<C>,
    entity: Entity,
    kind: ComponentId,
    other: Entity,
    own: ComponentId,
)
    requires
        !C::is_inverse(kind),
    ensures
        world.remove_entity(entity).entry(kind, other) == if other == entity || exists|
            inverse: ComponentId,
        |
            (#[trigger] world.entry(inverse, entity)) matches Some(entry) && C::retracts(
                entry.value,
            ).contains((RelationshipRetraction { source: other, edge: kind })) {
            None
        } else {
            world.entry(kind, other)
        },
        hooks_stay(world, world.remove_entity(entity)),
        world.entry(own, entity) is Some ==> ({
            let after = world.remove_entity(entity);
            after.hooks.contains(HookRun { hook: Hook::EntityRemove, kind: own, entity })
                && after.hooks.contains(HookRun { hook: Hook::Remove, kind: own, entity })
        }),
{
    let kinds = world.kinds();
    crate::model::lemma_sorted_keys_list(world.stores.dom());
    assert forall|k: ComponentId, e: Entity| (#[trigger] world.entry(k, e)) is Some implies kinds.contains(
        k,
    ) by {
        assert(kinds.to_set().contains(k));
    }
    lemma_drop_rows_hooks(world, kinds, entity, own);
    let dropped = world.drop_rows(kinds, entity);
    let gone = dropped.forget(entity);
    let edges = world.edges_on(kinds, entity);
    lemma_edges_on(world, kinds, entity);
    lemma_retract_edges_elsewhere(gone, entity, edges, kind, other);
    let left = gone.retract_edges(entity, edges);
    let retractions = world.retractions_on(kinds, entity);
    lemma_retract_sources_elsewhere(left, retractions, kind, other);
    let after = world.remove_entity(entity);
    assert(gone.entry(kind, other) == dropped.entry(kind, other));
    let pointing = RelationshipRetraction { source: other, edge: kind };
    lemma_retractions_on(world, kinds, entity, pointing);
    if retractions.contains(pointing) {
        let i = choose|i: int|
            0 <= i < kinds.len() && (world.entry(#[trigger] kinds[i], entity) matches Some(entry)
                && C::retracts(entry.value).contains(pointing));
        assert(world.entry(kinds[i], entity) is Some);
    }
    if exists|inverse: ComponentId|
        (#[trigger] world.entry(inverse, entity)) matches Some(entry) && C::retracts(
            entry.value,
        ).contains(pointing) {
        let inverse = choose|inverse: ComponentId|
            (#[trigger] world.entry(inverse, entity)) matches Some(entry) && C::retracts(
                entry.value,
            ).contains(pointing);
        let i = choose|i: int| 0 <= i < kinds.len() && kinds[i] == inverse;
        assert(world.entry(kinds[i], entity) is Some);
    }
    if other == entity {
        if world.entry(kind, entity) is Some {
            assert(kinds.contains(kind));
        }
        assert(dropped.entry(kind, entity) is None);
    }
    assert(hooks_stay(world, after)) by {
        assert forall|i: int| 0 <= i < world.hooks.len() implies #[trigger] after.hooks[i]
            == world.hooks[i] by {
            assert(dropped.hooks[i] == world.hooks[i]);
            assert(gone.hooks[i] == dropped.hooks[i]);
            assert(left.hooks[i] == gone.hooks[i]);
        }
    }
    if world.entry(own, entity) is Some {
        let first = HookRun { hook: Hook::EntityRemove, kind: own, entity };
        let second = HookRun { hook: Hook::Remove, kind: own, entity };
        let i = choose|i: int| 0 <= i < dropped.hooks.len() && dropped.hooks[i] == first;
        let j = choose|j: int| 0 <= j < dropped.hooks.len() && dropped.hooks[j] == second;
        assert(gone.hooks[i] == first && gone.hooks[j] == second);
        assert(left.hooks[i] == first && left.hooks[j] == second);
        assert(after.hooks[i] == first && after.hooks[j] == second);
    }
}

/// What a derived write leaves to be checked is the component it wrote; what callers
/// write is not checked.
pub proof fn lemma_derived_writes_are_checked<C: RelationshipTarget>(
    world: WorldModel<C>,
    entity: Entity,
    value: C::Model,
    origin: Origin,
    owner: Option<Invocation>,
)
    ensures
        world.put(entity, value, origin, owner).written == if origin == Origin::Derived {
            world.written.push((C::kind(value), entity))
        } else {
            world.written
        },
        world.put(entity, value, origin, owner).log == world.log.push((C::kind(value), entity)),
{
}

/// Dropping a tracked component gives the world and its store a new revision; dropping an
/// untracked one moves neither.
pub proof fn lemma_removal_moves_the_store<C: RelationshipTarget>(
    world: WorldModel<C>,
    kind: ComponentId,
    entity: Entity,
)
    requires
        world.entry(kind, entity) is Some,
        world.revision < u64::MAX,
        world.column(kind).watermark <= world.revision,
    ensures
        C::tracks(kind) ==> world.remove_flat(kind, entity).revision == world.revision + 1,
        C::tracks(kind) ==> world.remove_flat(kind, entity).column(kind).watermark
            == world.revision + 1,
        !C::tracks(kind) ==> world.remove_flat(kind, entity).revision == world.revision,
        !C::tracks(kind) ==> world.remove_flat(kind, entity).column(kind).watermark
            == world.column(kind).watermark,
        world.remove_flat(kind, entity).mutations == next(world.mutations),
{
}

/// What readers get is what the world holds: a snapshot has the same components, with
/// the same revisions, and the same watermarks.
pub proof fn lemma_snapshot_shows_the_world<C: RelationshipTarget>(
    world: WorldModel<C>,
    kind: ComponentId,
    entity: Entity,
)
    ensures
        world.snapshot().entry(kind, entity) == world.entry(kind, entity),
        world.snapshot().column(kind) == world.column(kind),
        world.snapshot().revision == world.revision,
        world.snapshot().mutations == world.mutations,
        world.snapshot().next_entity == world.next_entity,
        world.snapshot().singletons == world.singletons,
        world.snapshot().universe == world.universe,
{
}

/// The bytes behind a fingerprint of entities tell lists of entities apart.
pub proof fn lemma_entity_bytes_tell_apart(a: Seq<Entity>, b: Seq<Entity>)
    requires
        entity_bytes(a) == entity_bytes(b),
    ensures
        a == b,
    decreases a.len(),
{
    lemma_auto_spec_u64_to_from_le_bytes();
    lemma_entity_bytes_length(a);
    lemma_entity_bytes_length(b);
    if a.len() == 0 {
        assert(a =~= b);
    } else {
        let front = entity_bytes(a.drop_last());
        let other = entity_bytes(b.drop_last());
        let whole = entity_bytes(a);
        lemma_entity_bytes_length(a.drop_last());
        lemma_entity_bytes_length(b.drop_last());
        assert(whole.take(front.len() as int) =~= front);
        assert(whole.take(front.len() as int) =~= other);
        assert(whole.skip(front.len() as int) =~= spec_u64_to_le_bytes(a.last().id()));
        assert(whole.skip(front.len() as int) =~= spec_u64_to_le_bytes(b.last().id()));
        assert(a.last().id() == spec_u64_from_le_bytes(spec_u64_to_le_bytes(b.last().id())));
        crate::entity::lemma_entity_is_its_id(a.last(), b.last());
        lemma_entity_bytes_tell_apart(a.drop_last(), b.drop_last());
        assert(a =~= a.drop_last().push(a.last()));
        assert(b =~= b.drop_last().push(b.last()));
    }
}

proof fn lemma_entity_bytes_length(entities: Seq<Entity>)
    ensures
        entity_bytes(entities).len() == 8 * entities.len(),
    decreases entities.len(),
{
    lemma_auto_spec_u64_to_from_le_bytes();
    if entities.len() > 0 {
        lemma_entity_bytes_length(entities.drop_last());
    }
}

/// The bytes of one anchor.
spec fn one_anchor(anchor: DerivedAnchor) -> Seq<u8> {
    spec_u64_to_le_bytes(anchor.entity.id()) + match anchor.revision {
        Some(revision) => seq![1u8] + spec_u64_to_le_bytes(revision),
        None => seq![0u8],
    }
}

proof fn lemma_anchor_bytes_from_the_front(anchors: Seq<DerivedAnchor>)
    requires
        anchors.len() > 0,
    ensures
        anchor_bytes(anchors) == one_anchor(anchors[0]) + anchor_bytes(anchors.drop_first()),
    decreases anchors.len(),
{
    let rest = anchors.drop_last();
    if rest.len() == 0 {
        assert(anchors.drop_first() =~= Seq::<DerivedAnchor>::empty());
        assert(anchor_bytes(rest) =~= Seq::<u8>::empty());
        assert(anchor_bytes(anchors) =~= one_anchor(anchors[0]) + anchor_bytes(
            anchors.drop_first(),
        ));
    } else {
        lemma_anchor_bytes_from_the_front(rest);
        assert(anchors.drop_first().drop_last() =~= rest.drop_first());
        assert(anchors.drop_first().last() == anchors.last());
        assert(anchor_bytes(anchors) =~= one_anchor(anchors[0]) + anchor_bytes(
            anchors.drop_first(),
        ));
    }
}

/// The bytes behind the fingerprint of a marker tell its anchors apart: which entities
/// they are, in which order, and at which revisions.
pub proof fn lemma_anchor_bytes_tell_apart(a: Seq<DerivedAnchor>, b: Seq<DerivedAnchor>)
    requires
        anchor_bytes(a) == anchor_bytes(b),
    ensures
        a == b,
    decreases a.len(),
{
    lemma_auto_spec_u64_to_from_le_bytes();
    if a.len() == 0 || b.len() == 0 {
        if a.len() > 0 {
            lemma_anchor_bytes_from_the_front(a);
            assert(one_anchor(a[0]).len() >= 8);
        }
        if b.len() > 0 {
            lemma_anchor_bytes_from_the_front(b);
            assert(one_anchor(b[0]).len() >= 8);
        }
        assert(a =~= b);
    } else {
        lemma_anchor_bytes_from_the_front(a);
        lemma_anchor_bytes_from_the_front(b);
        let whole = anchor_bytes(a);
        assert(whole.take(8) =~= spec_u64_to_le_bytes(a[0].entity.id()));
        assert(whole.take(8) =~= spec_u64_to_le_bytes(b[0].entity.id()));
        assert(a[0].entity.id() == spec_u64_from_le_bytes(
            spec_u64_to_le_bytes(b[0].entity.id()),
        ));
        crate::entity::lemma_entity_is_its_id(a[0].entity, b[0].entity);
        assert(whole[8] == (if a[0].revision is Some {
            1u8
        } else {
            0u8
        }));
        assert(whole[8] == (if b[0].revision is Some {
            1u8
        } else {
            0u8
        }));
        if a[0].revision is Some {
            let mine = a[0].revision->Some_0;
            let theirs = b[0].revision->Some_0;
            assert(whole.subrange(9, 17) =~= spec_u64_to_le_bytes(mine));
            assert(whole.subrange(9, 17) =~= spec_u64_to_le_bytes(theirs));
            assert(mine == spec_u64_from_le_bytes(spec_u64_to_le_bytes(theirs)));
        }
        assert(a[0] == b[0]);
        let used = one_anchor(a[0]).len() as int;
        assert(whole.skip(used) =~= anchor_bytes(a.drop_first()));
        assert(whole.skip(used) =~= anchor_bytes(b.drop_first()));
        lemma_anchor_bytes_tell_apart(a.drop_first(), b.drop_first());
        assert(a =~= seq![a[0]] + a.drop_first());
        assert(b =~= seq![b[0]] + b.drop_first());
    }
}

/// A marker names the entities it was made for, in order, without revisions until they
/// are captured; capturing keeps the entities.
pub proof fn lemma_markers_name_their_anchors(
    entities: Seq<Entity>,
    revisions: Seq<Option<u64>>,
    at: int,
)
    requires
        0 <= at < entities.len(),
        revisions.len() == entities.len(),
    ensures
        uncaptured(entities).len() == entities.len(),
        uncaptured(entities)[at].entity == entities[at],
        uncaptured(entities)[at].revision is None,
        captured(uncaptured(entities), revisions).len() == entities.len(),
        captured(uncaptured(entities), revisions)[at].entity == entities[at],
        captured(uncaptured(entities), revisions)[at].revision == revisions[at],
        anchor_entities(uncaptured(entities)) == entities,
        anchor_entities(captured(uncaptured(entities), revisions)) == entities,
{
    assert(anchor_entities(uncaptured(entities)) =~= entities);
    assert(anchor_entities(captured(uncaptured(entities), revisions)) =~= entities);
}

} // verus!
