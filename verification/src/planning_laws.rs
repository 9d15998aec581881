//! What planning may skip: memoized rows, stores that did not move, and entities
//! that were not written.

use crate::component::{ComponentId, RelationshipTarget};
use crate::entity::Entity;
use crate::invocation::{Invocation, SystemId};
use crate::log_laws::{log_covers, logged_since, recorded, same_row};
use crate::memo::{
    deps_hold, deps_refreshed, invocation_of, memoized, planned_states, to_run, MemoModel,
    PlannedModel,
};
use crate::model::{lemma_sorted_keys_list, sorted_keys, Cell, WorldModel};
use crate::param::{
    always_runs, continued, drivers, expand, hinted_states, needs_prune, next_states, product,
    query_interest, row_states, state_deps, system_delta_shape, system_states, watched, DeltaShape,
    ParamModel, RowState,
};
use crate::binding::system_interest;
use crate::registry::{dirty_ids, entity_ids, SystemModel};
use crate::query::{part_components, tracked_of, Dep, QueryModel, RowFilter};
use crate::world::as_entities;
use crate::world_laws::bounded;
use vstd::prelude::*;

verus! {

proof fn lemma_held_param_deps<C: RelationshipTarget>(
    then: WorldModel<C>,
    now: WorldModel<C>,
    param: ParamModel,
    state: RowState,
)
    requires
        deps_hold(now, param.deps(then, state)),
    ensures
        param.deps(now, state) == param.deps(then, state),
{
    let old = param.deps(then, state);
    let new = param.deps(now, state);
    assert(old.len() == new.len());
    assert forall|i: int| 0 <= i < old.len() implies old[i] == new[i] by {
        assert(old[i].holds(now));
    }
    assert(old =~= new);
}

/// Inputs that still hold are the inputs that would be observed now.
pub proof fn lemma_held_deps_are_observed_again<C: RelationshipTarget>(
    then: WorldModel<C>,
    now: WorldModel<C>,
    params: Seq<ParamModel>,
    state: Seq<RowState>,
)
    requires
        deps_hold(now, state_deps(then, params, state)),
    ensures
        state_deps(now, params, state) == state_deps(then, params, state),
    decreases state.len(),
{
    if state.len() > 0 {
        let rest = state_deps(then, params, state.drop_last());
        let last = params[state.len() - 1].deps(then, state.last());
        let all = state_deps(then, params, state);
        assert(all =~= rest + last);
        assert forall|i: int| 0 <= i < rest.len() implies (#[trigger] rest[i]).holds(now) by {
            assert(all[i] == rest[i]);
        }
        assert forall|i: int| 0 <= i < last.len() implies (#[trigger] last[i]).holds(now) by {
            assert(all[rest.len() + i] == last[i]);
        }
        lemma_held_deps_are_observed_again(then, now, params, state.drop_last());
        lemma_held_param_deps(then, now, params[state.len() - 1], state.last());
    }
}

/// A row whose recorded inputs are all current is skipped by the planner.
pub proof fn lemma_current_memo_skips_row<C: RelationshipTarget>(
    system: SystemId,
    then: WorldModel<C>,
    now: WorldModel<C>,
    memo: Map<Invocation, MemoModel>,
    params: Seq<ParamModel>,
    state: Seq<RowState>,
)
    requires
        !always_runs(params),
        memo.contains_key(invocation_of(system, then, params, state).owner),
        memo[invocation_of(system, then, params, state).owner].deps == state_deps(
            then,
            params,
            state,
        ),
        deps_hold(now, state_deps(then, params, state)),
    ensures
        memoized(memo, params, invocation_of(system, now, params, state)),
{
    lemma_held_deps_are_observed_again(then, now, params, state);
}

/// An invocation's own in-place writes never invalidate its own record: inputs
/// that it wrote are observed at the revision that the write gave them.
pub proof fn lemma_own_writes_keep_memo<C: RelationshipTarget>(
    world: WorldModel<C>,
    deps: Seq<Dep>,
    writes: Seq<Cell>,
)
    requires
        forall|i: int|
            0 <= i < deps.len() ==> (#[trigger] deps[i]).holds(world) || (deps[i].entity is Some
                && writes.contains((deps[i].component, deps[i].entity->0)) && world.has(
                deps[i].component,
                deps[i].entity->0,
            )),
    ensures
        deps_hold(world, deps_refreshed(world, deps, writes)),
{
    let after = deps_refreshed(world, deps, writes);
    assert forall|i: int| 0 <= i < after.len() implies (#[trigger] after[i]).holds(world) by {
        let dep = deps[i];
        assert(dep.holds(world) || dep.entity is Some);
        assert(after[i] == dep.refreshed(world, writes));
    }
}

/// Whether a state's contribution to parameter `param` depends on the same
/// revisions in both worlds: ambient parameters depend on none.
pub open spec fn depends_alike<C: RelationshipTarget>(
    before: WorldModel<C>,
    after: WorldModel<C>,
    param: ParamModel,
    state: RowState,
) -> bool {
    match (param, state) {
        (ParamModel::Query(query), RowState::Row(entity)) => rows_alike(
            before,
            after,
            query.tracked_inputs::<C>(),
            entity,
        ),
        (ParamModel::Outer(query), RowState::Row(entity)) => rows_alike(
            before,
            after,
            query.tracked_inputs::<C>(),
            entity,
        ),
        (ParamModel::Outer(query), RowState::Absent) => forall|kind: ComponentId|
            (part_components(query.parts) + query.bound_kinds()).contains(kind)
                ==> #[trigger] before.column(kind).watermark == after.column(kind).watermark,
        _ => true,
    }
}

/// Whether `entity` carries each of `kinds` at the same revision in both worlds.
pub open spec fn rows_alike<C: RelationshipTarget>(
    before: WorldModel<C>,
    after: WorldModel<C>,
    kinds: Seq<ComponentId>,
    entity: Entity,
) -> bool {
    forall|i: int|
        0 <= i < kinds.len() ==> before.has(#[trigger] kinds[i], entity) && same_row(
            before,
            after,
            kinds[i],
            entity,
        )
}

/// Whatever else moved, among it everything that views read, a row whose tracked
/// inputs did not move observes the same inputs: view movement alone never
/// reruns a row.
pub proof fn lemma_ambient_movement_keeps_inputs<C: RelationshipTarget>(
    before: WorldModel<C>,
    after: WorldModel<C>,
    params: Seq<ParamModel>,
    state: Seq<RowState>,
)
    requires
        state.len() <= params.len(),
        forall|i: int|
            0 <= i < state.len() ==> depends_alike(before, after, #[trigger] params[i], state[i]),
    ensures
        state_deps(before, params, state) == state_deps(after, params, state),
    decreases state.len(),
{
    if state.len() > 0 {
        lemma_ambient_movement_keeps_inputs(before, after, params, state.drop_last());
        let param = params[state.len() - 1];
        assert(depends_alike(before, after, param, state[state.len() - 1]));
        lemma_alike_param_deps(before, after, param, state.last());
    }
}

proof fn lemma_alike_param_deps<C: RelationshipTarget>(
    before: WorldModel<C>,
    after: WorldModel<C>,
    param: ParamModel,
    state: RowState,
)
    requires
        depends_alike(before, after, param, state),
    ensures
        param.deps(before, state) == param.deps(after, state),
{
    let old = param.deps(before, state);
    let new = param.deps(after, state);
    assert(old.len() == new.len());
    assert forall|i: int| 0 <= i < old.len() implies old[i] == new[i] by {
        match (param, state) {
            (ParamModel::Query(query), RowState::Row(entity)) => {
                let kind = query.tracked_inputs::<C>()[i];
                assert(same_row(before, after, kind, entity));
            },
            (ParamModel::Outer(query), RowState::Row(entity)) => {
                let kind = query.tracked_inputs::<C>()[i];
                assert(same_row(before, after, kind, entity));
            },
            (ParamModel::Outer(query), RowState::Absent) => {
                let kinds = part_components(query.parts) + query.bound_kinds();
                assert(kinds.contains(kinds[i]));
                assert(before.column(kinds[i]).watermark == after.column(kinds[i]).watermark);
            },
            _ => {},
        }
    }
    assert(old =~= new);
}

/// What a parameter offers to a product.
pub open spec fn offered<C: RelationshipTarget>(
    world: WorldModel<C>,
    param: ParamModel,
    hint: Option<Seq<Entity>>,
) -> Seq<RowState> {
    match hint {
        Some(hint) => param.states_hinted(world, hint),
        None => param.states(world),
    }
}

/// A state that continues `picked` is `picked` and one more contribution.
pub proof fn lemma_continued_members(picked: Seq<RowState>, more: Seq<RowState>)
    ensures
        forall|state: Seq<RowState>| #[trigger]
            continued(picked, more).contains(state) <==> (state.len() == picked.len() + 1
                && state.drop_last() == picked && more.contains(state.last())),
{
    let all = continued(picked, more);
    assert forall|state: Seq<RowState>| #[trigger] all.contains(state) <==> (state.len()
        == picked.len() + 1 && state.drop_last() == picked && more.contains(state.last())) by {
        if all.contains(state) {
            let i = choose|i: int| 0 <= i < all.len() && all[i] == state;
            assert(state == picked.push(more[i]));
            assert(state.drop_last() =~= picked);
        }
        if state.len() == picked.len() + 1 && state.drop_last() == picked && more.contains(
            state.last(),
        ) {
            let i = choose|i: int| 0 <= i < more.len() && more[i] == state.last();
            assert(all[i] =~= state);
        }
    }
}

proof fn lemma_expand_members<C: RelationshipTarget>(
    world: WorldModel<C>,
    params: Seq<ParamModel>,
    partial: Seq<Seq<RowState>>,
    hint: Option<Seq<Entity>>,
    count: nat,
)
    requires
        count < params.len(),
        forall|i: int| 0 <= i < partial.len() ==> (#[trigger] partial[i]).len() == count,
        !params[count as int].pair_expandable() || hint is Some,
    ensures
        expand(world, params, partial, hint) is Ok,
        forall|state: Seq<RowState>| #[trigger]
            expand(world, params, partial, hint)->Ok_0.contains(state) <==> (state.len() == count
                + 1 && partial.contains(state.drop_last()) && offered(
                world,
                params[count as int],
                hint,
            ).contains(state.last())),
    decreases partial.len(),
{
    if partial.len() > 0 {
        let rest = partial.drop_last();
        lemma_expand_members(world, params, rest, hint, count);
        let picked = partial.last();
        let more = offered(world, params[count as int], hint);
        assert(next_states(world, params, picked, hint) == Ok::<Seq<RowState>, crate::param::JoinError>(more));
        lemma_continued_members(picked, more);
        let done = expand(world, params, rest, hint)->Ok_0;
        let all = expand(world, params, partial, hint)->Ok_0;
        assert(all == done + continued(picked, more));
        assert forall|state: Seq<RowState>| #[trigger] all.contains(state) <==> (state.len()
            == count + 1 && partial.contains(state.drop_last()) && more.contains(
            state.last(),
        )) by {
            assert(all.contains(state) <==> (done.contains(state) || continued(
                picked,
                more,
            ).contains(state))) by {
                let tail = continued(picked, more);
                if all.contains(state) {
                    let i = choose|i: int| 0 <= i < all.len() && all[i] == state;
                    if i < done.len() {
                        assert(done[i] == state);
                    } else {
                        assert(tail[i - done.len()] == state);
                    }
                }
                if done.contains(state) {
                    let i = choose|i: int| 0 <= i < done.len() && done[i] == state;
                    assert(all[i] == state);
                }
                if tail.contains(state) {
                    let i = choose|i: int| 0 <= i < tail.len() && tail[i] == state;
                    assert(all[done.len() + i] == state);
                }
            }
            let front = state.drop_last();
            assert(partial.contains(front) <==> (rest.contains(front) || front == picked)) by {
                if partial.contains(front) {
                    let i = choose|i: int| 0 <= i < partial.len() && partial[i] == front;
                    if i < rest.len() {
                        assert(rest[i] == front);
                    }
                }
                if rest.contains(front) {
                    let i = choose|i: int| 0 <= i < rest.len() && rest[i] == front;
                    assert(partial[i] == front);
                }
                assert(partial[partial.len() - 1] == picked);
            }
        }
    }
}

/// Without joins, the product of the parameters' states holds exactly the states
/// whose every contribution its parameter offers.
pub proof fn lemma_product_members<C: RelationshipTarget>(
    world: WorldModel<C>,
    params: Seq<ParamModel>,
    count: nat,
    hint: Option<Seq<Entity>>,
)
    requires
        count <= params.len(),
        forall|i: int|
            0 <= i < count ==> !(#[trigger] params[i]).pair_expandable() || hint is Some,
    ensures
        product(world, params, count, hint) is Ok,
        forall|state: Seq<RowState>| #[trigger]
            product(world, params, count, hint)->Ok_0.contains(state) <==> (state.len() == count
                && forall|i: int|
                0 <= i < count ==> offered(world, #[trigger] params[i], hint).contains(state[i])),
    decreases count,
{
    if count == 0 {
        let all = product(world, params, 0, hint)->Ok_0;
        assert(all == seq![Seq::<RowState>::empty()]);
        assert forall|state: Seq<RowState>| #[trigger] all.contains(state) <==> state.len() == 0 by {
            assert(all[0] == Seq::<RowState>::empty());
            if state.len() == 0 {
                assert(state =~= Seq::<RowState>::empty());
            }
        }
    } else {
        let less = (count - 1) as nat;
        lemma_product_members(world, params, less, hint);
        let partial = product(world, params, less, hint)->Ok_0;
        assert forall|i: int| 0 <= i < partial.len() implies (#[trigger] partial[i]).len()
            == less by {
            assert(partial.contains(partial[i]));
        }
        lemma_expand_members(world, params, partial, hint, less);
        let all = product(world, params, count, hint)->Ok_0;
        assert forall|state: Seq<RowState>| #[trigger] all.contains(state) <==> (state.len()
            == count && forall|i: int|
            0 <= i < count ==> offered(world, #[trigger] params[i], hint).contains(state[i])) by {
            let front = state.drop_last();
            if all.contains(state) {
                assert(partial.contains(front));
                assert forall|i: int| 0 <= i < count implies offered(
                    world,
                    #[trigger] params[i],
                    hint,
                ).contains(state[i]) by {
                    if i < less {
                        assert(front[i] == state[i]);
                    }
                }
            }
            if state.len() == count && (forall|i: int|
                0 <= i < count ==> offered(world, #[trigger] params[i], hint).contains(
                    state[i],
                )) {
                assert forall|i: int| 0 <= i < less implies offered(
                    world,
                    #[trigger] params[i],
                    hint,
                ).contains(front[i]) by {
                    assert(front[i] == state[i]);
                }
                assert(partial.contains(front));
                assert(offered(world, params[less as int], hint).contains(state[less as int]));
            }
        }
    }
}

/// The states of rows are the rows, one state each.
pub proof fn lemma_row_states_members(rows: Seq<Entity>, state: RowState)
    ensures
        row_states(rows).contains(state) <==> (state matches RowState::Row(entity)
            && rows.contains(entity)),
{
    let all = row_states(rows);
    if all.contains(state) {
        let i = choose|i: int| 0 <= i < all.len() && all[i] == state;
        assert(state == RowState::Row(rows[i]));
    }
    if let RowState::Row(entity) = state {
        if rows.contains(entity) {
            let i = choose|i: int| 0 <= i < rows.len() && rows[i] == entity;
            assert(all[i] == state);
        }
    }
}

/// Whether both worlds agree on every row of `kinds` for `entity`.
pub open spec fn unwritten<C: RelationshipTarget>(
    before: WorldModel<C>,
    after: WorldModel<C>,
    kinds: Seq<ComponentId>,
    entity: Entity,
) -> bool {
    forall|kind: ComponentId| kinds.contains(kind) ==> #[trigger] same_row(
        before,
        after,
        kind,
        entity,
    )
}

/// A row none of whose components of interest was written is a row of both
/// worlds or of neither, and observes the same inputs.
pub proof fn lemma_unwritten_row<C: RelationshipTarget>(
    before: WorldModel<C>,
    after: WorldModel<C>,
    query: QueryModel,
    entity: Entity,
)
    requires
        query_interest(query) is Some,
        unwritten(before, after, query_interest(query)->0, entity),
    ensures
        query.admits(before, entity) <==> query.admits(after, entity),
        query.admits(after, entity) ==> query.deps(before, entity) == query.deps(after, entity),
        query.rows(before).contains(entity) <==> query.rows(after).contains(entity),
{
    let interest = query_interest(query)->0;
    let parts = part_components(query.parts);
    let seen = watched(query.filters);
    assert forall|i: int| 0 <= i < query.parts.len() implies before.has(
        (#[trigger] query.parts[i]).component,
        entity,
    ) == after.has(query.parts[i].component, entity) by {
        assert(interest[i] == query.parts[i].component);
        assert(same_row(before, after, query.parts[i].component, entity));
    }
    assert forall|i: int| 0 <= i < query.filters.len() implies (
    #[trigger] query.filters[i]).admits(before, entity) == query.filters[i].admits(
        after,
        entity,
    ) by {
        assert(interest[parts.len() + i] == seen[i]);
        assert(same_row(before, after, seen[i], entity));
    }
    if query.admits(before, entity) {
        assert forall|i: int| 0 <= i < query.parts.len() implies after.has(
            (#[trigger] query.parts[i]).component,
            entity,
        ) by {
            assert(before.has(query.parts[i].component, entity));
        }
        assert forall|i: int| 0 <= i < query.filters.len() implies (
        #[trigger] query.filters[i]).admits(after, entity) by {
            assert(query.filters[i].admits(before, entity));
        }
    }
    if query.admits(after, entity) {
        assert forall|i: int| 0 <= i < query.parts.len() implies before.has(
            (#[trigger] query.parts[i]).component,
            entity,
        ) by {
            assert(after.has(query.parts[i].component, entity));
        }
        assert forall|i: int| 0 <= i < query.filters.len() implies (
        #[trigger] query.filters[i]).admits(before, entity) by {
            assert(query.filters[i].admits(after, entity));
        }
        lemma_inputs_of_interest::<C>(query);
        let kinds = query.tracked_inputs::<C>();
        let old = query.deps(before, entity);
        let new = query.deps(after, entity);
        assert forall|i: int| 0 <= i < old.len() implies old[i] == new[i] by {
            assert(interest.contains(kinds[i]));
            assert(same_row(before, after, kinds[i], entity));
        }
        assert(old =~= new);
    }
    crate::query::lemma_rows_list(query, before);
    crate::query::lemma_rows_list(query, after);
    assert(query.needs().len() > 0) by {
        assert(query.needs()[0] == parts[0]);
    }
    crate::entity::lemma_entity_is_its_id(Entity::of(entity.id()), entity);
}

proof fn lemma_observed_is_watched(filters: Seq<RowFilter>)
    ensures
        forall|i: int|
            0 <= i < crate::query::observed_components(filters).len() ==> watched(filters).contains(
                #[trigger] crate::query::observed_components(filters)[i],
            ),
    decreases filters.len(),
{
    if filters.len() > 0 {
        let rest = filters.drop_last();
        lemma_observed_is_watched(rest);
        let fewer = crate::query::observed_components(rest);
        let all = crate::query::observed_components(filters);
        assert forall|i: int| 0 <= i < all.len() implies watched(filters).contains(
            #[trigger] all[i],
        ) by {
            if i < fewer.len() {
                assert(all[i] == fewer[i]);
                let j = choose|j: int| 0 <= j < watched(rest).len() && watched(rest)[j] == fewer[i];
                assert(watched(filters)[j] == all[i]);
            } else {
                assert(watched(filters)[filters.len() - 1] == all[i]);
            }
        }
    }
}

proof fn lemma_inputs_of_interest<C: RelationshipTarget>(query: QueryModel)
    requires
        query_interest(query) is Some,
    ensures
        forall|i: int|
            0 <= i < query.tracked_inputs::<C>().len() ==> query_interest(query)->0.contains(
                #[trigger] query.tracked_inputs::<C>()[i],
            ),
{
    let parts = part_components(query.parts);
    let observed = crate::query::observed_components(query.filters);
    let seen = watched(query.filters);
    let interest = query_interest(query)->0;
    lemma_observed_is_watched(query.filters);
    crate::query::lemma_tracked_of::<C>(parts);
    crate::query::lemma_tracked_of::<C>(observed);
    let a = tracked_of::<C>(parts);
    let b = tracked_of::<C>(observed);
    let all = query.tracked_inputs::<C>();
    assert forall|i: int| 0 <= i < all.len() implies interest.contains(#[trigger] all[i]) by {
        if i < a.len() {
            assert(all[i] == a[i]);
            let j = choose|j: int| 0 <= j < parts.len() && parts[j] == a[i];
            assert(interest[j] == a[i]);
        } else {
            let n = i - a.len();
            assert(all[i] == b[n]);
            let j = choose|j: int| 0 <= j < observed.len() && observed[j] == b[n];
            assert(seen.contains(observed[j]));
            let m = choose|m: int| 0 <= m < seen.len() && seen[m] == observed[j];
            assert(interest[parts.len() + m] == b[n]);
        }
    }
}

/// While no store that a query looks at moves, its rows stay the same and so do
/// the inputs they observe. The stores are tracked ones: an untracked component
/// comes and goes without a mark.
pub proof fn lemma_unmoved_stores_keep_rows<C: RelationshipTarget>(
    before: WorldModel<C>,
    after: WorldModel<C>,
    query: QueryModel,
    entity: Entity,
)
    requires
        recorded(before, after),
        bounded(before),
        after.revision < u64::MAX,
        query_interest(query) is Some,
        forall|kind: ComponentId| #[trigger]
            query_interest(query)->0.contains(kind) ==> C::tracks(kind) && after.column(
                kind,
            ).watermark <= before.column(kind).watermark,
    ensures
        query.rows(before).contains(entity) <==> query.rows(after).contains(entity),
        query.rows(after).contains(entity) ==> query.deps(before, entity) == query.deps(
            after,
            entity,
        ),
{
    let interest = query_interest(query)->0;
    assert forall|kind: ComponentId| interest.contains(kind) implies #[trigger] same_row(
        before,
        after,
        kind,
        entity,
    ) by {
        assert(C::tracks(kind));
    }
    lemma_unwritten_row(before, after, query, entity);
    crate::query::lemma_rows_list(query, after);
    crate::entity::lemma_entity_is_its_id(Entity::of(entity.id()), entity);
}

/// The driving query of a delta-eligible system.
pub open spec fn driver(params: Seq<ParamModel>, at: int) -> bool {
    &&& 0 <= at < params.len()
    &&& params[at] is Query
    &&& forall|i: int|
        0 <= i < params.len() && i != at ==> (#[trigger] params[i]) is View
            || params[i] is Commands
}

proof fn lemma_one_driver(params: Seq<ParamModel>, from: int)
    requires
        0 <= from <= params.len(),
        forall|i: int|
            0 <= i < params.len() ==> (#[trigger] params[i]).delta_shape() != DeltaShape::Opaque,
    ensures
        drivers(params, from) == 0 ==> forall|i: int|
            from <= i < params.len() ==> (#[trigger] params[i]).delta_shape()
                == DeltaShape::Inert,
        drivers(params, from) == 1 ==> exists|at: int|
            from <= at < params.len() && (#[trigger] params[at]).delta_shape()
                == DeltaShape::Driver && forall|i: int|
                from <= i < params.len() && i != at ==> (#[trigger] params[i]).delta_shape()
                    == DeltaShape::Inert,
    decreases params.len() - from,
{
    if from < params.len() {
        lemma_one_driver(params, from + 1);
        assert(params[from].delta_shape() != DeltaShape::Opaque);
        if drivers(params, from) == 1 {
            if params[from].delta_shape() == DeltaShape::Driver {
                assert(drivers(params, from + 1) == 0);
                assert(from <= from < params.len());
            } else {
                let at = choose|at: int|
                    from + 1 <= at < params.len() && (#[trigger] params[at]).delta_shape()
                        == DeltaShape::Driver && forall|i: int|
                        from + 1 <= i < params.len() && i != at ==> (
                        #[trigger] params[i]).delta_shape() == DeltaShape::Inert;
                assert(params[at].delta_shape() == DeltaShape::Driver);
            }
        }
    }
}

/// A delta-eligible system is driven by one plain query; everything else it
/// takes is ambient.
pub proof fn lemma_delta_system_has_driver(params: Seq<ParamModel>)
    requires
        system_delta_shape(params) == DeltaShape::Driver,
    ensures
        exists|at: int| #[trigger] driver(params, at),
{
    lemma_one_driver(params, 0);
    let at = choose|at: int|
        0 <= at < params.len() && (#[trigger] params[at]).delta_shape() == DeltaShape::Driver
            && forall|i: int|
            0 <= i < params.len() && i != at ==> (#[trigger] params[i]).delta_shape()
                == DeltaShape::Inert;
    assert(params[at] is Query);
    assert forall|i: int| 0 <= i < params.len() && i != at implies (#[trigger] params[i]) is View
        || params[i] is Commands by {
        assert(params[i].delta_shape() == DeltaShape::Inert);
    }
    assert(driver(params, at));
}

/// A plan holds exactly the invocations on `states` that the memo does not hold.
pub proof fn lemma_to_run_members<C: RelationshipTarget>(
    system: SystemId,
    world: WorldModel<C>,
    memo: Map<Invocation, MemoModel>,
    params: Seq<ParamModel>,
    states: Seq<Seq<RowState>>,
    planned: PlannedModel,
)
    ensures
        to_run(system, world, memo, params, states).contains(planned) <==> (states.contains(
            planned.state,
        ) && planned == invocation_of(system, world, params, planned.state) && !memoized(
            memo,
            params,
            planned,
        )),
    decreases states.len(),
{
    if states.len() > 0 {
        let rest = states.drop_last();
        let last = invocation_of(system, world, params, states.last());
        lemma_to_run_members(system, world, memo, params, rest, planned);
        let fewer = to_run(system, world, memo, params, rest);
        let all = to_run(system, world, memo, params, states);
        assert(states.contains(planned.state) <==> (rest.contains(planned.state) || planned.state
            == states.last())) by {
            if states.contains(planned.state) {
                let i = choose|i: int| 0 <= i < states.len() && states[i] == planned.state;
                if i < rest.len() {
                    assert(rest[i] == planned.state);
                }
            }
            if rest.contains(planned.state) {
                let i = choose|i: int| 0 <= i < rest.len() && rest[i] == planned.state;
                assert(states[i] == planned.state);
            }
            assert(states[states.len() - 1] == states.last());
        }
        assert(all.contains(planned) <==> (fewer.contains(planned) || (!memoized(
            memo,
            params,
            last,
        ) && planned == last))) by {
            if all.contains(planned) {
                let i = choose|i: int| 0 <= i < all.len() && all[i] == planned;
                if i < fewer.len() {
                    assert(fewer[i] == planned);
                }
            }
            if fewer.contains(planned) {
                let i = choose|i: int| 0 <= i < fewer.len() && fewer[i] == planned;
                assert(all[i] == planned);
            }
            if !memoized(memo, params, last) {
                assert(all[fewer.len() as int] == last);
            }
        }
    }
}

/// Planning from the entities written since the last plan misses nothing: an
/// invocation that a full plan would run is in the delta plan, unless the last
/// plan already covered it with the same inputs.
pub proof fn lemma_delta_plan_misses_nothing<C: RelationshipTarget>(
    system: SystemId,
    before: WorldModel<C>,
    now: WorldModel<C>,
    memo: Map<Invocation, MemoModel>,
    params: Seq<ParamModel>,
    at: int,
    hint: Seq<Entity>,
    planned: PlannedModel,
)
    requires
        log_covers(before, now),
        driver(params, at),
        system_delta_shape(params) == DeltaShape::Driver,
        !needs_prune(params),
        params[at].interest() is Some,
        forall|kind: ComponentId, entity: Entity| #[trigger]
            logged_since(before, now).contains((kind, entity)) && params[at].interest()->0.contains(
                kind,
            ) ==> hint.contains(entity),
        system_states(now, params) is Ok,
        to_run(system, now, memo, params, system_states(now, params)->Ok_0).contains(planned),
    ensures
        hinted_states(now, params, hint) is Ok,
        system_states(before, params) is Ok,
        to_run(system, now, memo, params, hinted_states(now, params, hint)->Ok_0).contains(planned)
            || (system_states(before, params)->Ok_0.contains(planned.state) && invocation_of(
            system,
            before,
            params,
            planned.state,
        ) == planned),
{
    let all = system_states(now, params)->Ok_0;
    let state = planned.state;
    lemma_to_run_members(system, now, memo, params, all, planned);
    assert forall|i: int| 0 <= i < params.len() implies !(#[trigger] params[i]).pair_expandable() by {
        assert(params[i].delta_shape() != DeltaShape::Opaque);
    }
    lemma_product_members(now, params, params.len(), None);
    lemma_product_members(before, params, params.len(), None);
    lemma_product_members(now, params, params.len(), Some(hint));
    let hinted = hinted_states(now, params, hint)->Ok_0;
    lemma_to_run_members(system, now, memo, params, hinted, planned);
    let query = params[at]->Query_0;
    assert(offered(now, params[at], None).contains(state[at]));
    lemma_row_states_members(query.rows(now), state[at]);
    let entity = state[at]->Row_0;
    assert(query.rows(now).contains(entity));
    crate::query::lemma_rows_list(query, now);
    crate::entity::lemma_entity_is_its_id(Entity::of(entity.id()), entity);
    if hint.contains(entity) {
        crate::query::lemma_kept(query, now, hint);
        lemma_row_states_members(query.kept(now, hint), state[at]);
        assert forall|i: int| 0 <= i < params.len() implies offered(
            now,
            #[trigger] params[i],
            Some(hint),
        ).contains(state[i]) by {
            assert(offered(now, params[i], None).contains(state[i]));
        }
        assert(hinted.contains(state));
    } else {
        let interest = query_interest(query)->0;
        assert forall|kind: ComponentId| interest.contains(kind) implies #[trigger] same_row(
            before,
            now,
            kind,
            entity,
        ) by {
            if logged_since(before, now).contains((kind, entity)) {
                assert(hint.contains(entity));
            }
        }
        lemma_unwritten_row(before, now, query, entity);
        lemma_row_states_members(query.rows(before), state[at]);
        assert forall|i: int| 0 <= i < params.len() implies offered(
            before,
            #[trigger] params[i],
            None,
        ).contains(state[i]) by {
            assert(offered(now, params[i], None).contains(state[i]));
        }
        assert(system_states(before, params)->Ok_0.contains(state));
        assert forall|i: int| 0 <= i < state.len() implies (#[trigger] params[i]).deps(
            before,
            state[i],
        ) == params[i].deps(now, state[i]) by {
            assert(offered(now, params[i], None).contains(state[i]));
        }
        lemma_same_param_deps(before, now, params, state);
    }
}

proof fn lemma_same_param_deps<C: RelationshipTarget>(
    before: WorldModel<C>,
    now: WorldModel<C>,
    params: Seq<ParamModel>,
    state: Seq<RowState>,
)
    requires
        state.len() <= params.len(),
        forall|i: int|
            0 <= i < state.len() ==> (#[trigger] params[i]).deps(before, state[i])
                == params[i].deps(now, state[i]),
    ensures
        state_deps(before, params, state) == state_deps(now, params, state),
    decreases state.len(),
{
    if state.len() > 0 {
        let front = state.drop_last();
        assert forall|i: int| 0 <= i < front.len() implies (#[trigger] params[i]).deps(
            before,
            front[i],
        ) == params[i].deps(now, front[i]) by {
            assert(front[i] == state[i]);
        }
        lemma_same_param_deps(before, now, params, front);
        assert(params[state.len() - 1].deps(before, state[state.len() - 1])
            == params[state.len() - 1].deps(now, state[state.len() - 1]));
    }
}

proof fn lemma_interest_includes(
    params: Seq<ParamModel>,
    count: nat,
    at: int,
    kind: ComponentId,
)
    requires
        0 <= at < count <= params.len(),
        system_interest(params, count) is Some,
        params[at].interest() is Some,
        params[at].interest()->0.contains(kind),
    ensures
        system_interest(params, count)->0.contains(kind),
    decreases count,
{
    let less = (count - 1) as nat;
    let rest = system_interest(params, less)->0;
    let last = params[count - 1].interest()->0;
    if at < less {
        lemma_interest_includes(params, less, at, kind);
        let i = choose|i: int| 0 <= i < rest.len() && rest[i] == kind;
        assert((rest + last)[i] == kind);
    } else {
        let i = choose|i: int| 0 <= i < last.len() && last[i] == kind;
        assert((rest + last)[rest.len() + i] == kind);
    }
}

/// The rows a delta plan starts from hold every entity that was written in a
/// store of interest since the last plan, and every row that is due again.
pub proof fn lemma_hint_covers_writes(
    system: SystemModel,
    log: Seq<Cell>,
    epoch: u64,
    kind: ComponentId,
    entity: Entity,
)
    requires
        system.hint(log, epoch) is Some,
        system.sound(),
        (system.uncovered(log).contains((kind, entity)) && system.interest->0.contains(kind))
            || system.forced.contains(entity),
    ensures
        system.hint(log, epoch)->0.contains(entity),
{
    let rest = system.uncovered(log);
    let ids = dirty_ids(rest, system.interest->0).union(entity_ids(system.forced));
    crate::entity::lemma_entity_is_its_id(Entity::of(entity.id()), entity);
    if rest.contains((kind, entity)) && system.interest->0.contains(kind) {
        let i = choose|i: int| 0 <= i < rest.len() && rest[i] == (kind, entity);
        assert(rest[i].1.id() == entity.id());
        assert(dirty_ids(rest, system.interest->0).contains(entity.id()));
    } else {
        assert(entity_ids(system.forced).contains(entity.id()));
    }
    lemma_sorted_keys_list(ids);
    let listed = sorted_keys(ids);
    assert(listed.to_set().contains(entity.id()));
    let i = choose|i: int| 0 <= i < listed.len() && listed[i] == entity.id();
    crate::entity::lemma_entity_is_its_id(as_entities(listed)[i], entity);
    assert(as_entities(listed)[i] == entity);
}

/// One wave of a registered system misses nothing: what a full plan would run is
/// planned, unless the system's last plan, at `before`, already covered it with
/// the same inputs.
pub proof fn lemma_wave_misses_nothing<C: RelationshipTarget>(
    system: SystemModel,
    before: WorldModel<C>,
    now: WorldModel<C>,
    memo: Map<Invocation, MemoModel>,
    epoch: u64,
    planned: PlannedModel,
)
    requires
        recorded(before, now),
        system_delta_shape(system.params) == DeltaShape::Driver,
        !needs_prune(system.params),
        system.interest == system_interest(system.params, system.params.len()),
        system.delta ==> system.interest is Some,
        system.position == before.log.len(),
        system_states(now, system.params) is Ok,
        to_run(
            system.id,
            now,
            memo,
            system.params,
            system_states(now, system.params)->Ok_0,
        ).contains(planned),
    ensures
        ({
            let states = planned_states(now, system.params, system.hint(now.log, epoch));
            &&& states is Ok
            &&& to_run(system.id, now, memo, system.params, states->Ok_0).contains(planned) || (
            system_states(before, system.params) is Ok && system_states(
                before,
                system.params,
            )->Ok_0.contains(planned.state) && invocation_of(
                system.id,
                before,
                system.params,
                planned.state,
            ) == planned)
        }),
{
    if let Some(hint) = system.hint(now.log, epoch) {
        lemma_delta_system_has_driver(system.params);
        let at = choose|at: int| #[trigger] driver(system.params, at);
        lemma_every_interest_bounded(system.params, system.params.len(), at);
        assert forall|kind: ComponentId, entity: Entity| #[trigger]
            logged_since(before, now).contains((kind, entity))
                && system.params[at].interest()->0.contains(kind) implies hint.contains(
            entity,
        ) by {
            lemma_interest_includes(system.params, system.params.len(), at, kind);
            lemma_hint_covers_writes(system, now.log, epoch, kind, entity);
        }
        lemma_delta_plan_misses_nothing(
            system.id,
            before,
            now,
            memo,
            system.params,
            at,
            hint,
            planned,
        );
    }
}

proof fn lemma_every_interest_bounded(params: Seq<ParamModel>, count: nat, at: int)
    requires
        0 <= at < count <= params.len(),
        system_interest(params, count) is Some,
    ensures
        params[at].interest() is Some,
    decreases count,
{
    if at < count - 1 {
        lemma_every_interest_bounded(params, (count - 1) as nat, at);
    }
}

} // verus!
