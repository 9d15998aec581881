//! Queries over the entities of a facet.

use crate::component::RelationshipTarget;
use crate::declare::{parts_view, FacetKind, PartModel};
use crate::entity::Entity;
use crate::model::WorldModel;
use crate::query::{
    observed_components, part_components, row_deps, tracked_of, Dep, QueryModel, QueryPart,
    RowFilter, RowQuery,
};
use vstd::prelude::*;

verus! {

/// The conditions that anchor a row to a facet: it carries the required parts.
pub open spec fn anchors(parts: Seq<PartModel>) -> Seq<RowFilter>
    decreases parts.len(),
{
    if parts.len() == 0 {
        Seq::empty()
    } else {
        let rest = anchors(parts.drop_last());
        if parts.last().optional {
            rest
        } else {
            rest.push(RowFilter::Anchor(parts.last().type_id))
        }
    }
}

/// The conditions under which a row of a facet is observed part by part: a
/// required part by its value, an optional one by its value or its absence.
pub open spec fn observers(parts: Seq<PartModel>) -> Seq<RowFilter> {
    parts.map_values(
        |part: PartModel|
            if part.optional {
                RowFilter::Maybe(part.type_id)
            } else {
                RowFilter::With(part.type_id)
            },
    )
}

/// The query over the entities that carry the required parts of `H`. The parts
/// are not read: no change of their values touches a row.
pub fn facet_rows<H: FacetKind>() -> (query: RowQuery)
    ensures
        query@ == (QueryModel { parts: Seq::empty(), filters: anchors(H::described()) }),
{
    let parts = H::parts();
    let mut filters: Vec<RowFilter> = Vec::new();
    let mut i: usize = 0;
    assert(parts_view(parts@).take(0) =~= Seq::<PartModel>::empty());
    while i < parts.len()
        invariant
            i <= parts@.len(),
            filters@ == anchors(parts_view(parts@).take(i as int)),
        decreases parts@.len() - i,
    {
        let ghost seen = parts_view(parts@).take(i + 1);
        assert(seen.drop_last() =~= parts_view(parts@).take(i as int));
        assert(seen.last() == parts@[i as int]@);
        if !parts[i].optional {
            filters.push(RowFilter::Anchor(parts[i].type_id));
        }
        i = i + 1;
    }
    assert(parts_view(parts@).take(parts@.len() as int) =~= parts_view(parts@));
    let query = RowQuery::new(Vec::new(), filters);
    assert(query@.parts =~= Seq::<QueryPart>::empty());
    query
}

/// The query over the entities that carry the required parts of `H`, every part
/// of which is observed.
pub fn tracked_facet_rows<H: FacetKind>() -> (query: RowQuery)
    ensures
        query@ == (QueryModel { parts: Seq::empty(), filters: observers(H::described()) }),
{
    let parts = H::parts();
    let mut filters: Vec<RowFilter> = Vec::new();
    let mut i: usize = 0;
    while i < parts.len()
        invariant
            i <= parts@.len(),
            filters@ =~= observers(parts_view(parts@)).take(i as int),
        decreases parts@.len() - i,
    {
        assert(parts_view(parts@)[i as int] == parts@[i as int]@);
        let kind = parts[i].type_id;
        filters.push(
            if parts[i].optional {
                RowFilter::Maybe(kind)
            } else {
                RowFilter::With(kind)
            },
        );
        i = i + 1;
    }
    let query = RowQuery::new(Vec::new(), filters);
    assert(query@.parts =~= Seq::<QueryPart>::empty());
    assert(query@.filters =~= observers(parts_view(parts@)));
    query
}

/// Whether `entity` carries the required parts.
pub open spec fn carries<C: RelationshipTarget>(
    world: WorldModel<C>,
    parts: Seq<PartModel>,
    entity: Entity,
) -> bool {
    forall|i: int|
        0 <= i < parts.len() && !(#[trigger] parts[i]).optional ==> world.has(
            parts[i].type_id,
            entity,
        )
}

/// The rows of a facet are the entities that carry its required parts, whether
/// or not the parts are observed.
pub proof fn lemma_facet_rows<C: RelationshipTarget>(
    world: WorldModel<C>,
    parts: Seq<PartModel>,
    entity: Entity,
)
    ensures
        (QueryModel { parts: Seq::empty(), filters: anchors(parts) }).admits(world, entity)
            <==> carries(world, parts, entity),
        (QueryModel { parts: Seq::empty(), filters: observers(parts) }).admits(world, entity)
            <==> carries(world, parts, entity),
    decreases parts.len(),
{
    let anchored = QueryModel { parts: Seq::empty(), filters: anchors(parts) };
    let observed = QueryModel { parts: Seq::empty(), filters: observers(parts) };
    if parts.len() > 0 {
        let rest = parts.drop_last();
        lemma_facet_rows(world, rest, entity);
        let fewer = QueryModel { parts: Seq::<QueryPart>::empty(), filters: anchors(rest) };
        let last = parts.last();
        if anchored.admits(world, entity) {
            assert forall|i: int| 0 <= i < fewer.filters.len() implies (
            #[trigger] fewer.filters[i]).admits(world, entity) by {
                assert(anchored.filters[i] == fewer.filters[i]);
            }
            if !last.optional {
                assert(anchored.filters[fewer.filters.len() as int] == RowFilter::Anchor(
                    last.type_id,
                ));
            }
            assert forall|i: int| 0 <= i < parts.len() && !(
            #[trigger] parts[i]).optional implies world.has(parts[i].type_id, entity) by {
                if i < rest.len() {
                    assert(rest[i] == parts[i]);
                }
            }
        }
        if carries(world, parts, entity) {
            assert forall|i: int| 0 <= i < rest.len() && !(
            #[trigger] rest[i]).optional implies world.has(rest[i].type_id, entity) by {
                assert(parts[i] == rest[i]);
            }
            assert forall|i: int| 0 <= i < anchored.filters.len() implies (
            #[trigger] anchored.filters[i]).admits(world, entity) by {
                if i < fewer.filters.len() {
                    assert(anchored.filters[i] == fewer.filters[i]);
                } else {
                    assert(parts[parts.len() - 1] == last);
                }
            }
        }
    }
    if observed.admits(world, entity) {
        assert forall|i: int| 0 <= i < parts.len() && !(
        #[trigger] parts[i]).optional implies world.has(parts[i].type_id, entity) by {
            assert(observed.filters[i].admits(world, entity));
        }
    }
    if carries(world, parts, entity) {
        assert forall|i: int| 0 <= i < observed.filters.len() implies (
        #[trigger] observed.filters[i]).admits(world, entity) by {
            assert(parts[i].optional || world.has(parts[i].type_id, entity));
        }
    }
}

proof fn lemma_anchors_observe_nothing(parts: Seq<PartModel>)
    ensures
        observed_components(anchors(parts)) == Seq::<u64>::empty(),
    decreases parts.len(),
{
    if parts.len() > 0 {
        lemma_anchors_observe_nothing(parts.drop_last());
        if !parts.last().optional {
            assert(anchors(parts).drop_last() =~= anchors(parts.drop_last()));
        }
    }
}

/// An anchored row observes nothing of its entity.
pub proof fn lemma_anchored_rows_observe_nothing<C: RelationshipTarget>(
    world: WorldModel<C>,
    parts: Seq<PartModel>,
    entity: Entity,
)
    ensures
        (QueryModel { parts: Seq::empty(), filters: anchors(parts) }).deps(world, entity)
            == Seq::<Dep>::empty(),
{
    let query = QueryModel { parts: Seq::empty(), filters: anchors(parts) };
    lemma_anchors_observe_nothing(parts);
    assert(part_components(query.parts) =~= Seq::<u64>::empty());
    assert(tracked_of::<C>(Seq::<u64>::empty()) =~= Seq::<u64>::empty());
    assert(query.tracked_inputs::<C>() =~= Seq::<u64>::empty());
    assert(query.deps(world, entity) =~= Seq::<Dep>::empty());
}

/// A row whose parts are all observed observes each tracked part: its value, or
/// that the entity lacks it.
pub proof fn lemma_tracked_rows_observe_every_part<C: RelationshipTarget>(
    world: WorldModel<C>,
    parts: Seq<PartModel>,
    entity: Entity,
)
    ensures
        (QueryModel { parts: Seq::empty(), filters: observers(parts) }).deps(world, entity)
            == row_deps(
            world,
            tracked_of::<C>(parts.map_values(|part: PartModel| part.type_id)),
            entity,
        ),
{
    let query = QueryModel { parts: Seq::empty(), filters: observers(parts) };
    let kinds = parts.map_values(|part: PartModel| part.type_id);
    lemma_observed_kinds(parts);
    assert(part_components(query.parts) =~= Seq::<u64>::empty());
    assert(tracked_of::<C>(Seq::<u64>::empty()) =~= Seq::<u64>::empty());
    assert(query.tracked_inputs::<C>() =~= tracked_of::<C>(kinds));
}

proof fn lemma_observed_kinds(parts: Seq<PartModel>)
    ensures
        observed_components(observers(parts)) == parts.map_values(
            |part: PartModel| part.type_id,
        ),
    decreases parts.len(),
{
    let kinds = parts.map_values(|part: PartModel| part.type_id);
    if parts.len() > 0 {
        let rest = parts.drop_last();
        lemma_observed_kinds(rest);
        assert(observers(parts).drop_last() =~= observers(rest));
        assert(kinds =~= rest.map_values(|part: PartModel| part.type_id).push(
            parts.last().type_id,
        ));
        assert(observed_components(observers(parts)) =~= kinds);
    } else {
        assert(kinds =~= Seq::<u64>::empty());
    }
}

} // verus!
