//! What holders of query results read: cells are shared with the world.

use crate::component::{ComponentId, RelationshipEdge, RelationshipTarget};
use crate::entity::Entity;
use crate::invocation::Invocation;
use crate::model::{Entry, Origin, WorldModel};
use vstd::prelude::*;

verus! {

/// Whether a cell was given out by `world`.
pub open spec fn given_out<C: RelationshipTarget>(
    world: WorldModel<C>,
    cell: Option<u64>,
) -> bool {
    cell matches Some(cell) ==> cell < world.next_cell
}

proof fn lemma_members_keep_cells<C: RelationshipTarget>(
    world: WorldModel<C>,
    entity: Entity,
    before: Option<RelationshipEdge>,
    after: Option<RelationshipEdge>,
)
    ensures
        world.relink(entity, before, after).cells == world.cells,
        world.retract_edge(entity, before).cells == world.cells,
{
}

/// What is written into a component in place is read by everyone who shares its
/// cell.
pub proof fn lemma_in_place_write_is_read<C: RelationshipTarget>(
    world: WorldModel<C>,
    entity: Entity,
    fact: C::Model,
    seen: Entry<C>,
)
    requires
        world.entry(C::kind(fact), entity) matches Some(entry) && entry.cell == seen.cell,
        seen.cell is Some,
    ensures
        world.update(entity, fact).cell_value(seen.cell, seen.value) == fact,
        world.reconcile(entity, fact).cell_value(seen.cell, seen.value) == fact,
{
    let kind = C::kind(fact);
    lemma_members_keep_cells(
        world.update_flat(entity, fact),
        entity,
        world.edge_at(kind, entity),
        C::edge(fact),
    );
    lemma_members_keep_cells(
        world.reconcile_flat(entity, fact),
        entity,
        world.edge_at(kind, entity),
        C::edge(fact),
    );
}

/// A write into another component leaves a held value alone.
pub proof fn lemma_other_write_is_not_read<C: RelationshipTarget>(
    world: WorldModel<C>,
    entity: Entity,
    fact: C::Model,
    seen: Entry<C>,
)
    requires
        world.entry(C::kind(fact), entity) matches Some(entry) ==> entry.cell is None || entry.cell
            != seen.cell,
    ensures
        world.update(entity, fact).cell_value(seen.cell, seen.value) == world.cell_value(
            seen.cell,
            seen.value,
        ),
        world.reconcile(entity, fact).cell_value(seen.cell, seen.value) == world.cell_value(
            seen.cell,
            seen.value,
        ),
{
    let kind = C::kind(fact);
    lemma_members_keep_cells(
        world.update_flat(entity, fact),
        entity,
        world.edge_at(kind, entity),
        C::edge(fact),
    );
    lemma_members_keep_cells(
        world.reconcile_flat(entity, fact),
        entity,
        world.edge_at(kind, entity),
        C::edge(fact),
    );
}

/// Replacing a component by a changed copy leaves a held value alone.
pub proof fn lemma_copy_is_not_read<C: RelationshipTarget>(
    world: WorldModel<C>,
    entity: Entity,
    fact: C::Model,
    seen: Entry<C>,
)
    requires
        given_out(world, seen.cell),
    ensures
        world.update_copied(entity, fact).cell_value(seen.cell, seen.value) == world.cell_value(
            seen.cell,
            seen.value,
        ),
{
    let unshared = world.unshared(C::kind(fact), entity);
    lemma_other_write_is_not_read(unshared, entity, fact, seen);
}

/// Inserting and removing leave a held value alone.
pub proof fn lemma_insert_and_removal_are_not_read<C: RelationshipTarget>(
    world: WorldModel<C>,
    entity: Entity,
    fact: C::Model,
    origin: Origin,
    owner: Option<Invocation>,
    kind: ComponentId,
    seen: Entry<C>,
)
    ensures
        world.insert(entity, fact, origin, owner).cell_value(seen.cell, seen.value)
            == world.cell_value(seen.cell, seen.value),
        world.remove_component(kind, entity).cell_value(seen.cell, seen.value)
            == world.cell_value(seen.cell, seen.value),
{
    let own = C::kind(fact);
    lemma_members_keep_cells(
        world.put(entity, fact, origin, owner),
        entity,
        world.edge_at(own, entity),
        C::edge(fact),
    );
    lemma_members_keep_cells(
        world.remove_flat(kind, entity),
        entity,
        world.edge_at(kind, entity),
        None,
    );
}

} // verus!
