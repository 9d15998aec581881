//! What reading a bowl answers: which rows a query has, which of them a filter lets
//! through, and which of them changed.

use crate::component::{
    ComparableComponent, Component, ComponentId, ComponentType, RelationshipTarget,
};
use crate::entity::Entity;
use crate::filter::{
    argument, bound, changed_rows, filtered, with_revisions, Always, ArgMap, FilterExpr,
};
use crate::input_laws::{among_conditions, among_parts, lemma_query_inputs};
use crate::model::{ascending, WorldModel};
use crate::projection::CowQueryParam;
use crate::query::{
    And, Cow, Gte, In, Not, Or, QueryFilter, QueryModel, RowFilter, Where, With, Without,
};
use crate::seq_laws::{lemma_joined, lemma_last, lemma_pushed};
use crate::world::ids;
use vstd::prelude::*;

verus! {

/// Whether `entity` carries everything that a query asks for, and nothing that it
/// excludes.
pub open spec fn fits<C: RelationshipTarget>(
    query: QueryModel,
    world: WorldModel<C>,
    entity: Entity,
) -> bool {
    &&& forall|kind: ComponentId| #[trigger]
        among_parts(query, kind) ==> world.entry(kind, entity) is Some
    &&& forall|kind: ComponentId|
        (#[trigger] query.filters.contains(RowFilter::With(kind))) ==> world.entry(kind, entity)
            is Some
    &&& forall|kind: ComponentId|
        (#[trigger] query.filters.contains(RowFilter::Bound(kind))) ==> world.entry(kind, entity)
            is Some
    &&& forall|kind: ComponentId|
        (#[trigger] query.filters.contains(RowFilter::Anchor(kind))) ==> world.entry(kind, entity)
            is Some
    &&& forall|kind: ComponentId|
        (#[trigger] query.filters.contains(RowFilter::Without(kind))) ==> world.entry(
            kind,
            entity,
        ) is None
}

/// Whether a query asks for a component at all.
pub open spec fn asks(query: QueryModel) -> bool {
    exists|kind: ComponentId| #[trigger] asked(query, kind)
}

/// Whether a query asks for `kind`.
pub open spec fn asked(query: QueryModel, kind: ComponentId) -> bool {
    ||| among_parts(query, kind)
    ||| query.filters.contains(RowFilter::With(kind))
    ||| query.filters.contains(RowFilter::Bound(kind))
    ||| query.filters.contains(RowFilter::Anchor(kind))
}

proof fn lemma_admits_is_fitting<C: RelationshipTarget>(
    query: QueryModel,
    world: WorldModel<C>,
    entity: Entity,
)
    ensures
        query.admits(world, entity) <==> fits(query, world, entity),
{
    if query.admits(world, entity) {
        assert forall|kind: ComponentId| #[trigger] among_parts(query, kind) implies world.entry(
            kind,
            entity,
        ) is Some by {
            let i = choose|i: int|
                0 <= i < query.parts.len() && (#[trigger] query.parts[i]).component == kind;
            assert(world.has(query.parts[i].component, entity));
        }
        assert forall|filter: RowFilter| #[trigger]
            query.filters.contains(filter) implies filter.admits(world, entity) by {
            let i = choose|i: int| 0 <= i < query.filters.len() && query.filters[i] == filter;
            assert(query.filters[i].admits(world, entity));
        }
    }
    if fits(query, world, entity) {
        assert forall|i: int| 0 <= i < query.parts.len() implies world.has(
            (#[trigger] query.parts[i]).component,
            entity,
        ) by {
            assert(among_parts(query, query.parts[i].component));
        }
        assert forall|i: int| 0 <= i < query.filters.len() implies (
        #[trigger] query.filters[i]).admits(world, entity) by {
            let filter = query.filters[i];
            assert(query.filters.contains(filter));
            match filter {
                RowFilter::With(kind) => {
                    assert(query.filters.contains(RowFilter::With(kind)));
                },
                RowFilter::Without(kind) => {
                    assert(query.filters.contains(RowFilter::Without(kind)));
                },
                RowFilter::Bound(kind) => {
                    assert(query.filters.contains(RowFilter::Bound(kind)));
                },
                RowFilter::Anchor(kind) => {
                    assert(query.filters.contains(RowFilter::Anchor(kind)));
                },
                _ => {},
            }
        }
    }
}

proof fn lemma_needs_is_asking(query: QueryModel)
    ensures
        query.needs().len() > 0 <==> asks(query),
{
    let parts = crate::query::part_components(query.parts);
    let required = crate::query::filter_components(query.filters);
    if query.needs().len() > 0 {
        if query.parts.len() > 0 {
            let kind = query.parts[0].component;
            assert(among_parts(query, kind));
            assert(asked(query, kind));
        } else {
            let kind = required[0];
            assert(required.contains(kind));
            crate::query::lemma_filter_components(query.filters, kind);
            let i = choose|i: int|
                0 <= i < query.filters.len() && (#[trigger] query.filters[i]).required() == Some(
                    kind,
                );
            assert(query.filters.contains(query.filters[i]));
            assert(asked(query, kind));
        }
    }
    if asks(query) {
        let kind = choose|kind: ComponentId| #[trigger] asked(query, kind);
        if !among_parts(query, kind) {
            let filter = if query.filters.contains(RowFilter::With(kind)) {
                RowFilter::With(kind)
            } else if query.filters.contains(RowFilter::Bound(kind)) {
                RowFilter::Bound(kind)
            } else {
                RowFilter::Anchor(kind)
            };
            let i = choose|i: int| 0 <= i < query.filters.len() && query.filters[i] == filter;
            assert(query.filters[i].required() == Some(kind));
            crate::query::lemma_filter_components(query.filters, kind);
        }
    }
}

/// The rows of a query are, in ascending order, exactly the entities that carry
/// everything it asks for and nothing that it excludes. A query that asks for
/// nothing ranges over the entities that were handed out.
pub proof fn lemma_rows_are_what_fits<C: RelationshipTarget>(
    query: QueryModel,
    world: WorldModel<C>,
    entity: Entity,
)
    ensures
        ascending(ids(query.rows(world))),
        query.rows(world).contains(entity) <==> (fits(query, world, entity) && (asks(query)
            || entity.id() < world.next_entity)),
{
    crate::query::lemma_rows_list(query, world);
    crate::entity::lemma_entity_is_its_id(Entity::of(entity.id()), entity);
    lemma_admits_is_fitting(query, world, entity);
    lemma_needs_is_asking(query);
}

/// A component without which a query has no row is asked for by one of its parts or
/// conditions, and a system query is conditioned on what its filter type says: the
/// presence of a component, its absence, equality with a sibling's key, membership
/// in a sibling's inverse, or two of these at once.
pub proof fn lemma_conditions_of_filters<
    C: Component,
    T: ComponentType<Universe = C>,
    A: QueryFilter<C>,
    B: QueryFilter<C>,
>(filter: RowFilter)
    ensures
        !<() as QueryFilter<C>>::conditions().contains(filter),
        <With<T> as QueryFilter<C>>::conditions().contains(filter) <==> filter == RowFilter::With(
            T::key(),
        ),
        <Without<T> as QueryFilter<C>>::conditions().contains(filter) <==> filter
            == RowFilter::Without(T::key()),
        <Where<crate::query::Eq<T>> as QueryFilter<C>>::conditions().contains(filter) <==> filter
            == RowFilter::Bound(T::key()),
        <Where<In<T>> as QueryFilter<C>>::conditions().contains(filter) <==> filter
            == RowFilter::Member(T::key()),
        <And<A, B> as QueryFilter<C>>::conditions().contains(filter) <==> (
        A::conditions().contains(filter) || B::conditions().contains(filter)),
{
    lemma_joined(A::conditions(), B::conditions(), filter);
    let with = <With<T> as QueryFilter<C>>::conditions();
    let without = <Without<T> as QueryFilter<C>>::conditions();
    let bound = <Where<crate::query::Eq<T>> as QueryFilter<C>>::conditions();
    let member = <Where<In<T>> as QueryFilter<C>>::conditions();
    assert(with[0] == RowFilter::With(T::key()));
    assert(without[0] == RowFilter::Without(T::key()));
    assert(bound[0] == RowFilter::Bound(T::key()));
    assert(member[0] == RowFilter::Member(T::key()));
}

/// A filter for the presence of a component lets exactly its carriers through, one
/// for its absence exactly the others, and no filter at all lets everything through.
pub proof fn lemma_presence_filters<C: ComparableComponent, T: ComponentType<Universe = C>>(
    world: WorldModel<C>,
    args: ArgMap<C>,
    scope: Option<u64>,
    entity: Entity,
)
    ensures
        ({
            let there = world.entry(T::key(), entity) is Some;
            &&& <With<T> as FilterExpr<C>>::verdict(world, args, scope, entity) == Ok::<
                bool,
                ComponentId,
            >(there)
            &&& <Without<T> as FilterExpr<C>>::verdict(world, args, scope, entity) == Ok::<
                bool,
                ComponentId,
            >(!there)
            &&& <Always as FilterExpr<C>>::verdict(world, args, scope, entity) == Ok::<
                bool,
                ComponentId,
            >(true)
        }),
{
}

/// A filter that compares lets an entity through exactly when it carries the
/// component and its value equals, or is at least, the argument. Only a carrier needs
/// the argument.
pub proof fn lemma_comparing_filters<C: ComparableComponent, T: ComponentType<Universe = C>>(
    world: WorldModel<C>,
    args: ArgMap<C>,
    scope: Option<u64>,
    entity: Entity,
)
    ensures
        ({
            let equals = <crate::query::Eq<T> as FilterExpr<C>>::verdict(
                world,
                args,
                scope,
                entity,
            );
            let reaches = <Gte<T> as FilterExpr<C>>::verdict(world, args, scope, entity);
            let own = args.contains_key((scope, T::key()));
            let shared = args.contains_key((None::<u64>, T::key()));
            match world.entry(T::key(), entity) {
                None => equals == Ok::<bool, ComponentId>(false) && reaches == Ok::<
                    bool,
                    ComponentId,
                >(false),
                Some(entry) => if own {
                    &&& equals == Ok::<bool, ComponentId>(
                        C::equal(entry.value, args[(scope, T::key())]),
                    )
                    &&& reaches == Ok::<bool, ComponentId>(
                        C::at_least(entry.value, args[(scope, T::key())]),
                    )
                } else if shared {
                    &&& equals == Ok::<bool, ComponentId>(
                        C::equal(entry.value, args[(None::<u64>, T::key())]),
                    )
                    &&& reaches == Ok::<bool, ComponentId>(
                        C::at_least(entry.value, args[(None::<u64>, T::key())]),
                    )
                } else {
                    equals == Err::<bool, ComponentId>(T::key()) && reaches == Err::<
                        bool,
                        ComponentId,
                    >(T::key())
                },
            }
        }),
{
}

/// Filters combine as truth values do: of two that can be decided, both let a row
/// through, one of them does, or the one does not. A conjunction is decided by a
/// first part that fails, a disjunction by a first part that passes, whatever the
/// second needs; otherwise what cannot be decided is reported.
pub proof fn lemma_filters_combine<
    C: ComparableComponent,
    A: FilterExpr<C>,
    B: FilterExpr<C>,
>(world: WorldModel<C>, args: ArgMap<C>, scope: Option<u64>, entity: Entity)
    ensures
        ({
            let a = A::verdict(world, args, scope, entity);
            let b = B::verdict(world, args, scope, entity);
            let both = <And<A, B> as FilterExpr<C>>::verdict(world, args, scope, entity);
            let either = <Or<A, B> as FilterExpr<C>>::verdict(world, args, scope, entity);
            let neither = <Not<A> as FilterExpr<C>>::verdict(world, args, scope, entity);
            match (a, b) {
                (Ok(x), Ok(y)) => {
                    &&& both == Ok::<bool, ComponentId>(x && y)
                    &&& either == Ok::<bool, ComponentId>(x || y)
                    &&& neither == Ok::<bool, ComponentId>(!x)
                },
                (Ok(x), Err(kind)) => {
                    &&& both == if x {
                        Err::<bool, ComponentId>(kind)
                    } else {
                        Ok(false)
                    }
                    &&& either == if x {
                        Ok::<bool, ComponentId>(true)
                    } else {
                        Err(kind)
                    }
                    &&& neither == Ok::<bool, ComponentId>(!x)
                },
                (Err(kind), _) => {
                    &&& both == Err::<bool, ComponentId>(kind)
                    &&& either == Err::<bool, ComponentId>(kind)
                    &&& neither == Err::<bool, ComponentId>(kind)
                },
            }
        }),
{
}

/// Negating a disjunction is the conjunction of the negations, and two negations
/// cancel out.
pub proof fn lemma_negated_disjunction<
    C: ComparableComponent,
    A: FilterExpr<C>,
    B: FilterExpr<C>,
>(world: WorldModel<C>, args: ArgMap<C>, scope: Option<u64>, entity: Entity)
    ensures
        <Not<Or<A, B>> as FilterExpr<C>>::verdict(world, args, scope, entity) == <And<
            Not<A>,
            Not<B>,
        > as FilterExpr<C>>::verdict(world, args, scope, entity),
        <Not<Not<A>> as FilterExpr<C>>::verdict(world, args, scope, entity) == A::verdict(
            world,
            args,
            scope,
            entity,
        ),
{
}

/// An argument that is scoped to a query comes before a shared one, and only of the
/// same component type.
pub proof fn lemma_scoped_arguments_come_first<C: Component>(
    args: ArgMap<C>,
    scope: u64,
    kind: ComponentId,
    value: C::Model,
)
    ensures
        argument::<C>(args.insert((Some(scope), kind), value), Some(scope), kind) == Some(value),
        !args.contains_key((Some(scope), kind)) ==> argument::<C>(
            args.insert((None::<u64>, kind), value),
            Some(scope),
            kind,
        ) == Some(value),
        argument::<C>(args.insert((None::<u64>, kind), value), None, kind) == Some(value),
        argument::<C>(args.insert((Some(scope), kind), value), None, kind) == argument::<C>(
            args,
            None,
            kind,
        ),
        !args.contains_key((Some(scope), kind)) && !args.contains_key((None::<u64>, kind))
            ==> argument::<C>(args, Some(scope), kind) is None,
{
}

/// Binding arguments binds each of them under its component type and scope, keeps
/// those that were bound, and binds nothing else. It stops at one that is bound
/// already.
pub proof fn lemma_binding_binds_each<C: Component>(
    args: ArgMap<C>,
    scope: Option<u64>,
    values: Seq<C::Model>,
    key: (Option<u64>, ComponentId),
)
    ensures
        ({
            let (after, fresh) = bound::<C>(args, scope, values);
            &&& args.contains_key(key) ==> after.contains_key(key) && after[key] == args[key]
            &&& fresh ==> forall|i: int|
                0 <= i < values.len() ==> after.contains_key(
                    (scope, C::kind(#[trigger] values[i])),
                ) && after[(scope, C::kind(values[i]))] == values[i] && !args.contains_key(
                    (scope, C::kind(values[i])),
                )
            &&& after.contains_key(key) && !args.contains_key(key) ==> key.0 == scope && exists|
                i: int,
            |
                0 <= i < values.len() && C::kind(#[trigger] values[i]) == key.1 && after[key]
                    == values[i]
            &&& !fresh ==> exists|i: int|
                0 <= i < values.len() && after.contains_key((scope, C::kind(#[trigger] values[i])))
        }),
    decreases values.len(),
{
    if values.len() > 0 {
        let rest = values.drop_last();
        lemma_binding_binds_each::<C>(args, scope, rest, key);
        let done = bound::<C>(args, scope, rest);
        let (after, fresh) = bound::<C>(args, scope, values);
        let last = (scope, C::kind(values.last()));
        assert(values[values.len() - 1] == values.last());
        if fresh {
            assert forall|i: int| 0 <= i < values.len() implies after.contains_key(
                (scope, C::kind(#[trigger] values[i])),
            ) && after[(scope, C::kind(values[i]))] == values[i] && !args.contains_key(
                (scope, C::kind(values[i])),
            ) by {
                if i < rest.len() {
                    assert(rest[i] == values[i]);
                } else {
                    lemma_binding_binds_each::<C>(args, scope, rest, last);
                }
            }
        }
        if after.contains_key(key) && !args.contains_key(key) {
            if done.0.contains_key(key) {
                let i = choose|i: int|
                    0 <= i < rest.len() && C::kind(#[trigger] rest[i]) == key.1 && done.0[key]
                        == rest[i];
                assert(values[i] == rest[i]);
            }
        }
        if !fresh {
            if !done.1 {
                let i = choose|i: int|
                    0 <= i < rest.len() && done.0.contains_key(
                        (scope, C::kind(#[trigger] rest[i])),
                    );
                assert(values[i] == rest[i]);
            }
        }
    }
}

/// Whether a row changed after `cursor`: a tracked component of its row data, or one
/// that a condition looks at, is stored with a later revision.
pub open spec fn moved_on<C: RelationshipTarget>(
    world: WorldModel<C>,
    query: QueryModel,
    row: Entity,
    cursor: u64,
) -> bool {
    exists|kind: ComponentId| #[trigger]
        C::tracks(kind) && (among_parts(query, kind) || among_conditions(query, kind)) && (
        world.entry(kind, row) matches Some(entry) && entry.revision > cursor)
}

/// The rows of a delta are exactly those of which some tracked component has a
/// revision past the cursor, whichever component of the row it is, in the order of
/// the rows.
pub proof fn lemma_delta_is_what_moved_on<C: RelationshipTarget>(
    world: WorldModel<C>,
    query: QueryModel,
    rows: Seq<Entity>,
    cursor: u64,
    row: Entity,
)
    ensures
        changed_rows(world, query, rows, cursor).contains(row) <==> (rows.contains(row)
            && moved_on(world, query, row, cursor)),
        ascending(ids(rows)) ==> ascending(ids(changed_rows(world, query, rows, cursor))),
    decreases rows.len(),
{
    if rows.len() > 0 {
        let rest = rows.drop_last();
        let last = rows.last();
        let fewer = changed_rows(world, query, rest, cursor);
        let all = changed_rows(world, query, rows, cursor);
        lemma_delta_is_what_moved_on(world, query, rest, cursor, row);
        lemma_changed_after(world, query, last, cursor);
        lemma_last(rows, row);
        lemma_pushed(fewer, last, row);
        if ascending(ids(rows)) {
            assert forall|i: int, j: int| 0 <= i < j < ids(rest).len() implies ids(rest)[i]
                < ids(rest)[j] by {
                assert(ids(rows)[i] < ids(rows)[j]);
            }
            assert forall|i: int, j: int| 0 <= i < j < ids(all).len() implies ids(all)[i]
                < ids(all)[j] by {
                if j < fewer.len() {
                    assert(ids(fewer)[i] < ids(fewer)[j]);
                } else {
                    lemma_delta_is_what_moved_on(world, query, rest, cursor, fewer[i]);
                    assert(fewer.contains(fewer[i]));
                    let n = choose|n: int| 0 <= n < rest.len() && rest[n] == fewer[i];
                    assert(ids(rows)[n] < ids(rows)[rows.len() - 1]);
                }
            }
        }
    }
}

proof fn lemma_changed_after<C: RelationshipTarget>(
    world: WorldModel<C>,
    query: QueryModel,
    row: Entity,
    cursor: u64,
)
    ensures
        crate::filter::changed_after(world, query, row, cursor) <==> moved_on(
            world,
            query,
            row,
            cursor,
        ),
{
    let deps = query.deps(world, row);
    let kinds = query.tracked_inputs::<C>();
    if crate::filter::changed_after(world, query, row, cursor) {
        let i = choose|i: int| 0 <= i < deps.len() && (#[trigger] deps[i]).revision > cursor;
        assert(kinds.contains(kinds[i]));
        lemma_query_inputs::<C>(query, kinds[i]);
        assert(C::tracks(kinds[i]));
    }
    if moved_on(world, query, row, cursor) {
        let kind = choose|kind: ComponentId| #[trigger]
            C::tracks(kind) && (among_parts(query, kind) || among_conditions(query, kind)) && (
            world.entry(kind, row) matches Some(entry) && entry.revision > cursor);
        lemma_query_inputs::<C>(query, kind);
        let i = choose|i: int| 0 <= i < kinds.len() && kinds[i] == kind;
        assert(deps[i].revision > cursor);
    }
}

/// A later cursor sees no more than an earlier one, and a cursor at or past the
/// revision of the world sees nothing.
pub proof fn lemma_later_cursors_see_less<C: RelationshipTarget>(
    world: WorldModel<C>,
    query: QueryModel,
    rows: Seq<Entity>,
    early: u64,
    late: u64,
    row: Entity,
)
    requires
        early <= late,
        changed_rows(world, query, rows, late).contains(row),
    ensures
        changed_rows(world, query, rows, early).contains(row),
        crate::world_laws::bounded(world) ==> late < world.revision,
{
    lemma_delta_is_what_moved_on(world, query, rows, late, row);
    lemma_delta_is_what_moved_on(world, query, rows, early, row);
    let kind = choose|kind: ComponentId| #[trigger]
        C::tracks(kind) && (among_parts(query, kind) || among_conditions(query, kind)) && (
        world.entry(kind, row) matches Some(entry) && entry.revision > late);
    let entry = world.entry(kind, row)->0;
    assert(C::tracks(kind) && entry.revision > early);
    assert(moved_on(world, query, row, early));
    if crate::world_laws::bounded(world) {
        assert(world.stores[kind].entries[row.id()] == entry);
    }
}

/// Rows handed out for writing are the rows found, in order, each with the revision
/// that its component has, if it has one.
pub proof fn lemma_handles_show_revisions<C: RelationshipTarget>(
    world: WorldModel<C>,
    kind: ComponentId,
    rows: Seq<Entity>,
    i: int,
)
    requires
        0 <= i < rows.len(),
    ensures
        with_revisions(world, kind, rows).len() == rows.len(),
        with_revisions(world, kind, rows)[i].0 == rows[i],
        with_revisions(world, kind, rows)[i].1 == match world.entry(kind, rows[i]) {
            Some(entry) => Some(entry.revision),
            None => None,
        },
{
}

/// A projection updates the component type that it names.
pub proof fn lemma_projections_update_their_component<
    C: RelationshipTarget,
    T: ComponentType<Universe = C>,
>()
    ensures
        <(Cow<T>,) as CowQueryParam<C>>::updated() == T::key(),
        <(Entity, Cow<T>) as CowQueryParam<C>>::updated() == T::key(),
{
}

/// What a filtered read of a query that asks for something returns is, in ascending
/// order, every entity that fits the query and that the filter lets through.
pub proof fn lemma_filtered_read<C: ComparableComponent, F: FilterExpr<C>>(
    world: WorldModel<C>,
    query: QueryModel,
    args: ArgMap<C>,
    scope: Option<u64>,
    entity: Entity,
)
    requires
        world.consistent(),
        crate::filter::well_typed::<C>(args),
        asks(query),
        filtered::<C, F>(world, query, args, scope) is Ok,
    ensures
        ascending(ids(filtered::<C, F>(world, query, args, scope)->Ok_0)),
        filtered::<C, F>(world, query, args, scope)->Ok_0.contains(entity) <==> (fits(
            query,
            world,
            entity,
        ) && F::verdict(world, args, scope, entity) == Ok::<bool, ComponentId>(true)),
{
    lemma_needs_is_asking(query);
    lemma_rows_are_what_fits(query, world, entity);
    crate::filter::lemma_index_changes_nothing::<C, F>(world, query, args, scope, entity);
}

} // verus!
