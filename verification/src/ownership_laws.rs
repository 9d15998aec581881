//! The ownership index lists exactly the derived components that each
//! invocation owns.

use crate::component::{captured, ComponentId, RelationshipEdge, RelationshipRetraction, RelationshipTarget};
use crate::entity::Entity;
use crate::invocation::Invocation;
use crate::model::{
    index_cell, outputs, unindex_cell, with_cell, with_member, without_cell, without_member, Cell,
    Hook, Origin, PendingAnchor, WorldModel,
};
use vstd::prelude::*;

verus! {

/// No invocation lists an output twice.
pub open spec fn listed_once(owned: Map<Invocation, Seq<Cell>>) -> bool {
    forall|owner: Invocation| #[trigger] owned.contains_key(owner) ==> owned[owner].no_duplicates()
}

/// The index lists only what is owned, and all of it, except that the cells in
/// `spared` may be missing for `owner`.
pub open spec fn accounted<C: RelationshipTarget>(
    world: WorldModel<C>,
    owner: Invocation,
    spared: Set<Cell>,
) -> bool {
    &&& listed_once(world.owned)
    &&& forall|o: Invocation, cell: Cell| #[trigger]
        outputs(world.owned, o).contains(cell) ==> world.owns(o, cell)
    &&& forall|o: Invocation, cell: Cell| #[trigger]
        world.owns(o, cell) ==> outputs(world.owned, o).contains(cell) || (o == owner
            && spared.contains(cell))
}

/// The index lists exactly what is owned.
pub open spec fn exact<C: RelationshipTarget>(world: WorldModel<C>) -> bool {
    &&& listed_once(world.owned)
    &&& forall|o: Invocation, cell: Cell| #[trigger]
        world.owns(o, cell) <==> outputs(world.owned, o).contains(cell)
}

/// An exact index is accounted with nothing spared.
pub proof fn lemma_exact_is_accounted<C: RelationshipTarget>(
    world: WorldModel<C>,
    owner: Invocation,
)
    ensures
        exact(world) <==> accounted(world, owner, Set::empty()),
{
    if exact(world) {
        assert forall|o: Invocation, cell: Cell| #[trigger]
            outputs(world.owned, o).contains(cell) implies world.owns(o, cell) by {
            assert(world.owns(o, cell) <==> outputs(world.owned, o).contains(cell));
        }
    }
}

proof fn lemma_unindex(
    owned: Map<Invocation, Seq<Cell>>,
    owner: Invocation,
    cell: Cell,
)
    requires
        listed_once(owned),
    ensures
        listed_once(unindex_cell(owned, owner, cell)),
        forall|o: Invocation, c: Cell|
            #![trigger outputs(unindex_cell(owned, owner, cell), o).contains(c)]
            outputs(unindex_cell(owned, owner, cell), o).contains(c) <==> (outputs(
                owned,
                o,
            ).contains(c) && !(o == owner && c == cell)),
{
    let after = unindex_cell(owned, owner, cell);
    if owned.contains_key(owner) {
        let before = owned[owner];
        let rest = without_cell(before, cell);
        if before.contains(cell) {
            let at = before.index_of(cell);
            assert(before[at] == cell && 0 <= at < before.len());
            assert forall|i: int, j: int| 0 <= i < rest.len() && 0 <= j < rest.len() && i
                != j implies rest[i] != rest[j] by {
                assert(rest[i] == before[if i < at { i } else { i + 1 }]);
                assert(rest[j] == before[if j < at { j } else { j + 1 }]);
            }
            assert forall|c: Cell| #[trigger] rest.contains(c) <==> (before.contains(c) && c
                != cell) by {
                if rest.contains(c) {
                    let i = choose|i: int| 0 <= i < rest.len() && rest[i] == c;
                    assert(before[if i < at { i } else { i + 1 }] == c);
                }
                if before.contains(c) && c != cell {
                    let i = choose|i: int| 0 <= i < before.len() && before[i] == c;
                    assert(rest[if i < at { i } else { i - 1 }] == c);
                }
            }
        }
        assert forall|o: Invocation, c: Cell|
            #![trigger outputs(after, o).contains(c)]
            outputs(after, o).contains(c) <==> (outputs(owned, o).contains(c) && !(o == owner && c
                == cell)) by {
            if o == owner {
                assert(rest.contains(c) <==> (before.contains(c) && c != cell));
                if rest.len() == 0 {
                    assert(!rest.contains(c));
                }
            }
        }
    }
}

proof fn lemma_index(
    owned: Map<Invocation, Seq<Cell>>,
    owner: Invocation,
    cell: Cell,
)
    requires
        listed_once(owned),
    ensures
        listed_once(index_cell(owned, owner, cell)),
        forall|o: Invocation, c: Cell|
            #![trigger outputs(index_cell(owned, owner, cell), o).contains(c)]
            outputs(index_cell(owned, owner, cell), o).contains(c) <==> (outputs(
                owned,
                o,
            ).contains(c) || (o == owner && c == cell)),
{
    let after = index_cell(owned, owner, cell);
    let before = outputs(owned, owner);
    let more = with_cell(before, cell);
    assert(before.no_duplicates());
    if !before.contains(cell) {
        assert forall|c: Cell| #[trigger] more.contains(c) <==> (before.contains(c) || c
            == cell) by {
            if before.contains(c) {
                let i = choose|i: int| 0 <= i < before.len() && before[i] == c;
                assert(more[i] == c);
            }
            assert(more[before.len() as int] == cell);
        }
    }
    assert forall|o: Invocation, c: Cell|
        #![trigger outputs(after, o).contains(c)]
        outputs(after, o).contains(c) <==> (outputs(owned, o).contains(c) || (o == owner && c
            == cell)) by {
        if o == owner {
            assert(more.contains(c) <==> (before.contains(c) || c == cell));
        }
    }
}

proof fn lemma_cell_identity<C: RelationshipTarget>(
    world: WorldModel<C>,
    after: WorldModel<C>,
    kind: ComponentId,
    entity: Entity,
    o: Invocation,
    cell: Cell,
)
    requires
        forall|k: ComponentId, id: u64|
            #![trigger after.stores[k].entries[id]]
            #![trigger world.stores[k].entries[id]]
            (k != kind || id != entity.id()) ==> ((after.stores.contains_key(k)
                && after.stores[k].entries.contains_key(id)) == (world.stores.contains_key(k)
                && world.stores[k].entries.contains_key(id))) && ((world.stores.contains_key(k)
                && world.stores[k].entries.contains_key(id)) ==> after.stores[k].entries[id]
                == world.stores[k].entries[id]),
        cell != (kind, entity),
    ensures
        after.owns(o, cell) == world.owns(o, cell),
{
    if cell.0 == kind && cell.1.id() == entity.id() {
        crate::entity::lemma_entity_is_its_id(cell.1, entity);
    }
    let _ = after.stores[cell.0].entries[cell.1.id()];
    assert(after.entry(cell.0, cell.1) == world.entry(cell.0, cell.1));
}

proof fn lemma_put_accounted<C: RelationshipTarget>(
    world: WorldModel<C>,
    entity: Entity,
    value: C::Model,
    origin: Origin,
    by: Option<Invocation>,
    owner: Invocation,
    spared: Set<Cell>,
)
    requires
        accounted(world, owner, spared),
        origin == Origin::Derived || by is None,
    ensures
        accounted(world.put(entity, value, origin, by), owner, spared),
{
    let kind = C::kind(value);
    let cell = (kind, entity);
    let after = world.put(entity, value, origin, by);
    let previous = match world.entry(kind, entity) {
        Some(old) => old.owner,
        None => None,
    };
    let released = match previous {
        Some(p) => if by != Some(p) {
            unindex_cell(world.owned, p, cell)
        } else {
            world.owned
        },
        None => world.owned,
    };
    if previous is Some && by != previous {
        lemma_unindex(world.owned, previous->0, cell);
    }
    if by is Some {
        lemma_index(released, by->0, cell);
    }
    assert forall|o: Invocation, c: Cell|
        #![trigger outputs(after.owned, o).contains(c)]
        #![trigger after.owns(o, c)]
        (outputs(after.owned, o).contains(c) ==> after.owns(o, c)) && (after.owns(o, c)
            ==> outputs(after.owned, o).contains(c) || (o == owner && spared.contains(c))) by {
        assert(outputs(released, o).contains(c) || !outputs(released, o).contains(c));
        let was = outputs(world.owned, o).contains(c);
        if c != cell {
            lemma_cell_identity(world, after, kind, entity, o, c);
            assert(world.owns(o, c) || !world.owns(o, c));
            assert(outputs(after.owned, o).contains(c) == was);
        } else {
            assert(after.entry(kind, entity) is Some);
            assert(after.owns(o, c) <==> (origin == Origin::Derived && by == Some(o)));
            if was {
                assert(world.owns(o, c));
                assert(previous == Some(o));
            }
        }
    }
}

proof fn lemma_drop_accounted<C: RelationshipTarget>(
    world: WorldModel<C>,
    kind: ComponentId,
    entity: Entity,
    owner: Invocation,
    spared: Set<Cell>,
)
    requires
        accounted(world, owner, spared),
    ensures
        accounted(
            WorldModel { owned: world.disowned(kind, entity), ..world.drop_entry(kind, entity) },
            owner,
            spared,
        ),
{
    let cell = (kind, entity);
    let after = WorldModel {
        owned: world.disowned(kind, entity),
        ..world.drop_entry(kind, entity)
    };
    let previous = match world.entry(kind, entity) {
        Some(old) => old.owner,
        None => None,
    };
    if previous is Some {
        lemma_unindex(world.owned, previous->0, cell);
    }
    assert forall|o: Invocation, c: Cell|
        #![trigger outputs(after.owned, o).contains(c)]
        #![trigger after.owns(o, c)]
        (outputs(after.owned, o).contains(c) ==> after.owns(o, c)) && (after.owns(o, c)
            ==> outputs(after.owned, o).contains(c) || (o == owner && spared.contains(c))) by {
        let was = outputs(world.owned, o).contains(c);
        if c != cell {
            lemma_cell_identity(world, after, kind, entity, o, c);
            assert(world.owns(o, c) || !world.owns(o, c));
            assert(outputs(after.owned, o).contains(c) == was);
        } else {
            assert(!after.owns(o, c));
            if was {
                assert(world.owns(o, c));
                assert(previous == Some(o));
            }
        }
    }
}

/// Accounting is a matter of the components and of the index alone.
pub proof fn lemma_same_stores_accounted<C: RelationshipTarget>(
    world: WorldModel<C>,
    after: WorldModel<C>,
    owner: Invocation,
    spared: Set<Cell>,
)
    requires
        accounted(world, owner, spared),
        after.stores == world.stores,
        after.owned == world.owned,
    ensures
        accounted(after, owner, spared),
{
    assert forall|o: Invocation, c: Cell| #[trigger] after.owns(o, c) == world.owns(o, c) by {
        assert(after.entry(c.0, c.1) == world.entry(c.0, c.1));
    }
    assert forall|o: Invocation, c: Cell| #[trigger] outputs(after.owned, o).contains(
        c,
    ) implies after.owns(o, c) by {
        assert(outputs(world.owned, o).contains(c));
        assert(world.owns(o, c));
        assert(after.owns(o, c) == world.owns(o, c));
    }
}

proof fn lemma_remove_flat_accounted<C: RelationshipTarget>(
    world: WorldModel<C>,
    kind: ComponentId,
    entity: Entity,
    owner: Invocation,
    spared: Set<Cell>,
)
    requires
        accounted(world, owner, spared),
    ensures
        accounted(world.remove_flat(kind, entity), owner, spared),
{
    if world.has(kind, entity) {
        lemma_drop_accounted(world, kind, entity, owner, spared);
        lemma_same_stores_accounted(
            WorldModel { owned: world.disowned(kind, entity), ..world.drop_entry(kind, entity) },
            world.remove_flat(kind, entity),
            owner,
            spared,
        );
    }
}

proof fn lemma_flat_accounted<C: RelationshipTarget>(
    world: WorldModel<C>,
    entity: Entity,
    value: C::Model,
    owner: Invocation,
    spared: Set<Cell>,
)
    requires
        accounted(world, owner, spared),
    ensures
        accounted(world.insert_flat(entity, value, Origin::Base, None), owner, spared),
{
    lemma_put_accounted(world, entity, value, Origin::Base, None, owner, spared);
    lemma_same_stores_accounted(
        world.put(entity, value, Origin::Base, None),
        world.insert_flat(entity, value, Origin::Base, None),
        owner,
        spared,
    );
}

proof fn lemma_members_accounted<C: RelationshipTarget>(
    world: WorldModel<C>,
    inverse: ComponentId,
    source: Entity,
    target: Entity,
    owner: Invocation,
    spared: Set<Cell>,
)
    requires
        accounted(world, owner, spared),
    ensures
        accounted(world.add_member(inverse, source, target), owner, spared),
        accounted(world.remove_member(inverse, source, target), owner, spared),
{
    let members = world.members(inverse, target);
    lemma_flat_accounted(
        world,
        target,
        C::inverse_fact(inverse, with_member(members, source)),
        owner,
        spared,
    );
    lemma_flat_accounted(
        world,
        target,
        C::inverse_fact(inverse, without_member(members, source)),
        owner,
        spared,
    );
    lemma_remove_flat_accounted(world, inverse, target, owner, spared);
}

proof fn lemma_retract_accounted<C: RelationshipTarget>(
    world: WorldModel<C>,
    source: Entity,
    edge: Option<RelationshipEdge>,
    owner: Invocation,
    spared: Set<Cell>,
)
    requires
        accounted(world, owner, spared),
    ensures
        accounted(world.retract_edge(source, edge), owner, spared),
{
    if let Some(edge) = edge {
        lemma_members_accounted(world, edge.inverse, source, edge.target, owner, spared);
    }
}

/// Inserting keeps the ownership index accounted for.
pub proof fn lemma_insert_accounted<C: RelationshipTarget>(
    world: WorldModel<C>,
    entity: Entity,
    value: C::Model,
    origin: Origin,
    by: Option<Invocation>,
    owner: Invocation,
    spared: Set<Cell>,
)
    requires
        accounted(world, owner, spared),
        origin == Origin::Derived || by is None,
    ensures
        accounted(world.insert_now(entity, value, origin, by), owner, spared),
        accounted(world.insert(entity, value, origin, by), owner, spared),
{
    let kind = C::kind(value);
    let put = world.put(entity, value, origin, by);
    lemma_put_accounted(world, entity, value, origin, by, owner, spared);
    let before = world.edge_at(kind, entity);
    lemma_retract_accounted(put, entity, before, owner, spared);
    let retracted = put.retract_edge(entity, before);
    if let Some(edge) = C::edge(value) {
        lemma_members_accounted(retracted, edge.inverse, entity, edge.target, owner, spared);
    }
    let linked = put.relink(entity, before, C::edge(value));
    lemma_same_stores_accounted(linked, linked.due(Hook::Insert, kind, entity), owner, spared);
    lemma_same_stores_accounted(
        world,
        WorldModel { pending: world.insert(entity, value, origin, by).pending, ..world },
        owner,
        spared,
    );
}

/// Removing a component keeps the ownership index accounted for.
pub proof fn lemma_remove_component_accounted<C: RelationshipTarget>(
    world: WorldModel<C>,
    kind: ComponentId,
    entity: Entity,
    owner: Invocation,
    spared: Set<Cell>,
)
    requires
        accounted(world, owner, spared),
    ensures
        accounted(world.remove_component(kind, entity), owner, spared),
{
    lemma_remove_flat_accounted(world, kind, entity, owner, spared);
    lemma_retract_accounted(
        world.remove_flat(kind, entity),
        entity,
        world.edge_at(kind, entity),
        owner,
        spared,
    );
}

proof fn lemma_drop_rows_accounted<C: RelationshipTarget>(
    world: WorldModel<C>,
    kinds: Seq<ComponentId>,
    entity: Entity,
    owner: Invocation,
    spared: Set<Cell>,
)
    requires
        accounted(world, owner, spared),
    ensures
        accounted(world.drop_rows(kinds, entity), owner, spared),
    decreases kinds.len(),
{
    if kinds.len() > 0 {
        lemma_drop_rows_accounted(world, kinds.drop_last(), entity, owner, spared);
        let rest = world.drop_rows(kinds.drop_last(), entity);
        let kind = kinds.last();
        if rest.has(kind, entity) {
            lemma_drop_accounted(rest, kind, entity, owner, spared);
            lemma_same_stores_accounted(
                WorldModel { owned: rest.disowned(kind, entity), ..rest.drop_entry(kind, entity) },
                rest.drop_row(kind, entity),
                owner,
                spared,
            );
        }
    }
}

proof fn lemma_retract_edges_accounted<C: RelationshipTarget>(
    world: WorldModel<C>,
    source: Entity,
    edges: Seq<RelationshipEdge>,
    owner: Invocation,
    spared: Set<Cell>,
)
    requires
        accounted(world, owner, spared),
    ensures
        accounted(world.retract_edges(source, edges), owner, spared),
    decreases edges.len(),
{
    if edges.len() > 0 {
        lemma_retract_edges_accounted(world, source, edges.drop_last(), owner, spared);
        lemma_retract_accounted(
            world.retract_edges(source, edges.drop_last()),
            source,
            Some(edges.last()),
            owner,
            spared,
        );
    }
}

proof fn lemma_retract_sources_accounted<C: RelationshipTarget>(
    world: WorldModel<C>,
    retractions: Seq<RelationshipRetraction>,
    owner: Invocation,
    spared: Set<Cell>,
)
    requires
        accounted(world, owner, spared),
    ensures
        accounted(world.retract_sources(retractions), owner, spared),
    decreases retractions.len(),
{
    if retractions.len() > 0 {
        lemma_retract_sources_accounted(world, retractions.drop_last(), owner, spared);
        lemma_remove_component_accounted(
            world.retract_sources(retractions.drop_last()),
            retractions.last().edge,
            retractions.last().source,
            owner,
            spared,
        );
    }
}

/// Removing an entity keeps the ownership index accounted for.
pub proof fn lemma_remove_entity_accounted<C: RelationshipTarget>(
    world: WorldModel<C>,
    entity: Entity,
    owner: Invocation,
    spared: Set<Cell>,
)
    requires
        accounted(world, owner, spared),
    ensures
        accounted(world.remove_entity(entity), owner, spared),
{
    let kinds = world.kinds();
    lemma_drop_rows_accounted(world, kinds, entity, owner, spared);
    let dropped = world.drop_rows(kinds, entity);
    lemma_same_stores_accounted(dropped, dropped.forget(entity), owner, spared);
    let gone = dropped.forget(entity);
    lemma_retract_edges_accounted(gone, entity, world.edges_on(kinds, entity), owner, spared);
    lemma_retract_sources_accounted(
        gone.retract_edges(entity, world.edges_on(kinds, entity)),
        world.retractions_on(kinds, entity),
        owner,
        spared,
    );
}

/// Resolving deferred derived-from markers keeps the ownership index accounted
/// for.
pub proof fn lemma_flush_accounted<C: RelationshipTarget>(
    world: WorldModel<C>,
    pending: Seq<PendingAnchor>,
    owner: Invocation,
    spared: Set<Cell>,
)
    requires
        accounted(world, owner, spared),
        forall|i: int|
            0 <= i < pending.len() ==> (#[trigger] pending[i]).origin == Origin::Derived
                || pending[i].owner is None,
    ensures
        accounted(world.flush_each(pending), owner, spared),
    decreases pending.len(),
{
    if pending.len() > 0 {
        let rest = pending.drop_last();
        assert forall|i: int| 0 <= i < rest.len() implies (#[trigger] rest[i]).origin
            == Origin::Derived || rest[i].owner is None by {
            assert(rest[i] == pending[i]);
        }
        lemma_flush_accounted(world, rest, owner, spared);
        let done = world.flush_each(rest);
        let p = pending.last();
        assert(p == pending[pending.len() - 1]);
        lemma_insert_accounted(
            done,
            p.entity,
            C::anchor_fact(captured(p.anchors, done.anchor_revisions(p.anchors))),
            p.origin,
            p.owner,
            owner,
            spared,
        );
    }
}

/// Giving up one output of `owner` accounts for it: it is no longer owned.
proof fn lemma_remove_owned_accounted<C: RelationshipTarget>(
    world: WorldModel<C>,
    owner: Invocation,
    cell: Cell,
    spared: Set<Cell>,
)
    requires
        accounted(world, owner, spared),
        !outputs(world.owned, owner).contains(cell),
    ensures
        accounted(world.remove_owned(owner, cell), owner, spared.remove(cell)),
{
    let after = world.drop_entry(cell.0, cell.1).due(Hook::Remove, cell.0, cell.1);
    if world.owns(owner, cell) {
        assert(accounted(after, owner, spared.remove(cell))) by {
            assert forall|o: Invocation, c: Cell|
                #![trigger outputs(after.owned, o).contains(c)]
                #![trigger after.owns(o, c)]
                (outputs(after.owned, o).contains(c) ==> after.owns(o, c)) && (after.owns(o, c)
                    ==> outputs(after.owned, o).contains(c) || (o == owner && spared.remove(
                    cell,
                ).contains(c))) by {
                if c != cell {
                    lemma_cell_identity(world, after, cell.0, cell.1, o, c);
                    assert(world.owns(o, c) || !world.owns(o, c));
                    assert(outputs(world.owned, o).contains(c) == outputs(after.owned, o).contains(
                        c,
                    ));
                } else {
                    assert(!after.owns(o, c));
                    if outputs(world.owned, o).contains(c) {
                        assert(world.owns(o, c));
                        assert(o == owner);
                    }
                }
            }
        }
        lemma_retract_accounted(
            after,
            cell.1,
            world.edge_at(cell.0, cell.1),
            owner,
            spared.remove(cell),
        );
    } else {
        assert forall|o: Invocation, c: Cell| #[trigger] world.owns(o, c) implies outputs(
            world.owned,
            o,
        ).contains(c) || (o == owner && spared.remove(cell).contains(c)) by {
            if o == owner && c == cell {
                assert(false);
            }
        }
    }
}

/// Removing what was not emitted again leaves the index exact.
pub proof fn lemma_remove_stale_restores<C: RelationshipTarget>(
    world: WorldModel<C>,
    owner: Invocation,
    previous: Seq<Cell>,
    spared: Set<Cell>,
)
    requires
        accounted(world, owner, spared),
    ensures
        accounted(
            world.remove_stale(owner, previous),
            owner,
            spared.difference(previous.to_set()),
        ),
    decreases previous.len(),
{
    if previous.len() == 0 {
        assert(spared.difference(previous.to_set()) =~= spared);
    } else {
        let rest = previous.drop_last();
        let cell = previous.last();
        lemma_remove_stale_restores(world, owner, rest, spared);
        let done = world.remove_stale(owner, rest);
        let left = spared.difference(rest.to_set());
        assert(left.remove(cell) =~= spared.difference(previous.to_set())) by {
            assert forall|c: Cell| previous.to_set().contains(c) <==> (rest.to_set().contains(c)
                || c == cell) by {
                if rest.contains(c) {
                    let i = choose|i: int| 0 <= i < rest.len() && rest[i] == c;
                    assert(previous[i] == c);
                }
                if previous.contains(c) {
                    let i = choose|i: int| 0 <= i < previous.len() && previous[i] == c;
                    if i < rest.len() {
                        assert(rest[i] == c);
                    }
                }
                assert(previous[previous.len() - 1] == cell);
            }
        }
        if outputs(done.owned, owner).contains(cell) {
            assert forall|o: Invocation, c: Cell| #[trigger] done.owns(o, c) implies outputs(
                done.owned,
                o,
            ).contains(c) || (o == owner && left.remove(cell).contains(c)) by {}
        } else {
            lemma_remove_owned_accounted(done, owner, cell, left);
        }
    }
}

/// Replacing an invocation's outputs is exact: taking its old outputs, writing
/// any commands that keep the index accounted for, and removing what was not
/// emitted again leaves every invocation owning exactly what is listed for it.
pub proof fn lemma_output_replacement_is_exact<C: RelationshipTarget>(
    before: WorldModel<C>,
    written: WorldModel<C>,
    owner: Invocation,
)
    requires
        exact(before),
        accounted(written, owner, outputs(before.owned, owner).to_set()),
    ensures
        accounted(
            WorldModel { owned: before.owned.remove(owner), ..before },
            owner,
            outputs(before.owned, owner).to_set(),
        ),
        exact(written.remove_stale(owner, outputs(before.owned, owner))),
{
    let previous = outputs(before.owned, owner);
    let taken = WorldModel { owned: before.owned.remove(owner), ..before };
    assert(accounted(taken, owner, previous.to_set())) by {
        assert forall|o: Invocation, c: Cell|
            #![trigger outputs(taken.owned, o).contains(c)]
            #![trigger taken.owns(o, c)]
            (outputs(taken.owned, o).contains(c) ==> taken.owns(o, c)) && (taken.owns(o, c)
                ==> outputs(taken.owned, o).contains(c) || (o == owner
                && previous.to_set().contains(c))) by {
            assert(taken.entry(c.0, c.1) == before.entry(c.0, c.1));
            assert(before.owns(o, c) <==> outputs(before.owned, o).contains(c));
        }
    }
    lemma_remove_stale_restores(written, owner, previous, previous.to_set());
    assert(previous.to_set().difference(previous.to_set()) =~= Set::<Cell>::empty());
    lemma_exact_is_accounted(written.remove_stale(owner, previous), owner);
}

/// Emitting every previous output again removes nothing.
pub proof fn lemma_full_rerun_removes_nothing<C: RelationshipTarget>(
    world: WorldModel<C>,
    owner: Invocation,
    previous: Seq<Cell>,
)
    requires
        forall|i: int|
            0 <= i < previous.len() ==> outputs(world.owned, owner).contains(
                #[trigger] previous[i],
            ),
    ensures
        world.remove_stale(owner, previous) == world,
    decreases previous.len(),
{
    if previous.len() > 0 {
        let rest = previous.drop_last();
        assert forall|i: int| 0 <= i < rest.len() implies outputs(world.owned, owner).contains(
            #[trigger] rest[i],
        ) by {
            assert(rest[i] == previous[i]);
        }
        lemma_full_rerun_removes_nothing(world, owner, rest);
        assert(previous.last() == previous[previous.len() - 1]);
    }
}

/// Finishing the spawns of `owner` keeps exactly the entities recorded for it since
/// it last finished as slots, in order, whatever its slots were before and whatever
/// was recorded for others in between: the next run reserves the same ids. It leaves
/// the slots of every other owner alone, and the owner is ready to record again.
pub proof fn lemma_spawn_slots_are_recorded<C: RelationshipTarget>(
    world: WorldModel<C>,
    owner: Invocation,
    records: Seq<(Invocation, Entity)>,
)
    requires
        !world.cursors.contains_key(owner),
        recorded_for(records, owner).len() <= usize::MAX,
    ensures
        ({
            let recorded = record_each(world, records);
            let finished = recorded.finish_spawns(owner);
            &&& finished.slots(owner) == recorded_for(records, owner)
            &&& !finished.cursors.contains_key(owner)
            &&& forall|other: Invocation|
                other != owner ==> #[trigger] finished.slots(other) == recorded.slots(other)
            &&& forall|other: Invocation|
                recorded_for(records, other).len() == 0 ==> #[trigger] recorded.slots(other)
                    == world.slots(other)
        }),
{
    lemma_recorded_prefix(world, owner, records);
    let recorded = record_each(world, records);
    let spawned = recorded_for(records, owner);
    assert(recorded.slots(owner).take(spawned.len() as int) =~= spawned);
    assert(recorded.finish_spawns(owner).slots(owner) =~= spawned);
    assert forall|other: Invocation| recorded_for(records, other).len() == 0 implies #[trigger]
        recorded.slots(other) == world.slots(other) by {
        lemma_unrecorded_keeps_slots(world, other, records);
    }
}

/// Records spawns, one after the other.
pub open spec fn record_each<C: RelationshipTarget>(
    world: WorldModel<C>,
    records: Seq<(Invocation, Entity)>,
) -> WorldModel<C>
    decreases records.len(),
{
    if records.len() == 0 {
        world
    } else {
        record_each(world, records.drop_last()).record_spawn(records.last().0, records.last().1)
    }
}

/// The entities recorded for `owner`, in order.
pub open spec fn recorded_for(records: Seq<(Invocation, Entity)>, owner: Invocation) -> Seq<Entity>
    decreases records.len(),
{
    if records.len() == 0 {
        Seq::empty()
    } else {
        let rest = recorded_for(records.drop_last(), owner);
        if records.last().0 == owner {
            rest.push(records.last().1)
        } else {
            rest
        }
    }
}

proof fn lemma_unrecorded_keeps_slots<C: RelationshipTarget>(
    world: WorldModel<C>,
    owner: Invocation,
    records: Seq<(Invocation, Entity)>,
)
    requires
        recorded_for(records, owner).len() == 0,
    ensures
        record_each(world, records).slots(owner) == world.slots(owner),
    decreases records.len(),
{
    if records.len() > 0 {
        lemma_unrecorded_keeps_slots(world, owner, records.drop_last());
    }
}

proof fn lemma_recorded_prefix<C: RelationshipTarget>(
    world: WorldModel<C>,
    owner: Invocation,
    records: Seq<(Invocation, Entity)>,
)
    requires
        !world.cursors.contains_key(owner),
        recorded_for(records, owner).len() <= usize::MAX,
    ensures
        ({
            let recorded = record_each(world, records);
            let spawned = recorded_for(records, owner);
            &&& recorded.cursor(owner) == spawned.len()
            &&& recorded.slots(owner).len() >= spawned.len()
            &&& forall|i: int| 0 <= i < spawned.len() ==> recorded.slots(owner)[i] == spawned[i]
        }),
    decreases records.len(),
{
    if records.len() > 0 {
        lemma_recorded_prefix(world, owner, records.drop_last());
        let before = record_each(world, records.drop_last());
        let rest = recorded_for(records.drop_last(), owner);
        let recorded = record_each(world, records);
        let spawned = recorded_for(records, owner);
        let slots = recorded.slots(owner);
        if records.last().0 == owner {
            assert(slots == if rest.len() < before.slots(owner).len() {
                before.slots(owner).update(rest.len() as int, spawned.last())
            } else {
                before.slots(owner).push(spawned.last())
            });
            assert forall|i: int| 0 <= i < spawned.len() implies slots[i] == spawned[i] by {
                if i < rest.len() {
                    assert(before.slots(owner)[i] == rest[i]);
                }
            }
        } else {
            assert(slots == before.slots(owner));
        }
    }
}

} // verus!
