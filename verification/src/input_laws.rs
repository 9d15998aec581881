//! What an invocation's recorded inputs are: everything tracked that it is handed,
//! and nothing else. It reruns exactly when one of them changed.

use crate::access::{Access, AccessKind};
use crate::component::{ComponentId, RelationshipTarget};
use crate::entity::Entity;
use crate::invocation::{Invocation, SystemId};
use crate::memo::{deps_hold, invocation_of, memoized, to_run, MemoModel, PlannedModel};
use crate::model::{Cell, WorldModel};
use crate::param::{state_access, state_deps, state_keys, ParamModel, RowState};
use crate::planning_laws::{lemma_held_deps_are_observed_again, lemma_to_run_members};
use crate::query::{
    bound_of, filter_access, observed_components, part_access, part_components, tracked_of, Dep,
    PartMode, QueryModel, RowFilter,
};
use crate::seq_laws::{lemma_joined, lemma_last, lemma_pushed};
use crate::system::permitted;
use vstd::prelude::*;

verus! {

/// Whether the row data of a query names `kind`.
pub open spec fn among_parts(query: QueryModel, kind: ComponentId) -> bool {
    exists|i: int| 0 <= i < query.parts.len() && (#[trigger] query.parts[i]).component == kind
}

/// Whether a condition of a query looks at the state of `kind` on a row: that it is
/// there, that it equals a key, or whether it is there.
pub open spec fn among_conditions(query: QueryModel, kind: ComponentId) -> bool {
    ||| query.filters.contains(RowFilter::With(kind))
    ||| query.filters.contains(RowFilter::Bound(kind))
    ||| query.filters.contains(RowFilter::Maybe(kind))
}

/// Whether a parameter hands `entity` out as a row of `query`, joined or not.
pub open spec fn hands_out(
    param: ParamModel,
    state: RowState,
    query: QueryModel,
    entity: Entity,
) -> bool {
    &&& param == ParamModel::Query(query) || param == ParamModel::Outer(query)
    &&& state == RowState::Row(entity)
}

/// Whether a body that is handed `state` depends on `kind` of `entity`.
pub open spec fn reads_row<C: RelationshipTarget>(
    params: Seq<ParamModel>,
    state: Seq<RowState>,
    at: int,
    query: QueryModel,
    kind: ComponentId,
    entity: Entity,
) -> bool {
    &&& 0 <= at < state.len()
    &&& hands_out(params[at], state[at], query, entity)
    &&& C::tracks(kind)
    &&& among_parts(query, kind) || among_conditions(query, kind)
}

/// Whether a body that is handed `state` depends on there being no partner with
/// `kind`.
pub open spec fn misses(
    params: Seq<ParamModel>,
    state: Seq<RowState>,
    at: int,
    query: QueryModel,
    kind: ComponentId,
) -> bool {
    &&& 0 <= at < state.len()
    &&& params[at] == ParamModel::Outer(query)
    &&& state[at] == RowState::Absent
    &&& among_parts(query, kind) || query.filters.contains(RowFilter::Bound(kind))
}

/// Whether `dep` tells what `kind` on `entity` is like: its revision, or that it is
/// not there.
pub open spec fn tells<C: RelationshipTarget>(
    dep: Dep,
    world: WorldModel<C>,
    kind: ComponentId,
    entity: Entity,
) -> bool {
    &&& dep.component == kind
    &&& dep.entity == Some(entity)
    &&& match world.entry(kind, entity) {
        Some(entry) => !dep.absent && dep.revision == entry.revision,
        None => dep.absent,
    }
}

/// Whether `dep` tells when the store of `kind` last changed.
pub open spec fn tells_store<C: RelationshipTarget>(
    dep: Dep,
    world: WorldModel<C>,
    kind: ComponentId,
) -> bool {
    &&& dep.component == kind
    &&& dep.entity is None
    &&& dep.revision == world.column(kind).watermark
}

/// Whether a component of a row is the same in both worlds, as far as invalidation
/// goes: there in both at one revision, or in neither.
pub open spec fn same_input<C: RelationshipTarget>(
    before: WorldModel<C>,
    after: WorldModel<C>,
    kind: ComponentId,
    entity: Entity,
) -> bool {
    match (before.entry(kind, entity), after.entry(kind, entity)) {
        (Some(old), Some(new)) => old.revision == new.revision,
        (None, None) => true,
        _ => false,
    }
}

proof fn lemma_tracked_kinds<C: RelationshipTarget>(kinds: Seq<ComponentId>, kind: ComponentId)
    ensures
        tracked_of::<C>(kinds).contains(kind) <==> (kinds.contains(kind) && C::tracks(kind)),
    decreases kinds.len(),
{
    if kinds.len() > 0 {
        lemma_tracked_kinds::<C>(kinds.drop_last(), kind);
        lemma_last(kinds, kind);
        lemma_pushed(tracked_of::<C>(kinds.drop_last()), kinds.last(), kind);
    }
}

proof fn lemma_observed_kinds(filters: Seq<RowFilter>, kind: ComponentId)
    ensures
        observed_components(filters).contains(kind) <==> (filters.contains(RowFilter::With(kind))
            || filters.contains(RowFilter::Bound(kind)) || filters.contains(
            RowFilter::Maybe(kind),
        )),
    decreases filters.len(),
{
    if filters.len() > 0 {
        let rest = filters.drop_last();
        lemma_observed_kinds(rest, kind);
        lemma_last(filters, RowFilter::With(kind));
        lemma_last(filters, RowFilter::Bound(kind));
        lemma_last(filters, RowFilter::Maybe(kind));
        if let Some(last) = filters.last().observes() {
            lemma_pushed(observed_components(rest), last, kind);
        }
    }
}

proof fn lemma_bound_filters(filters: Seq<RowFilter>, kind: ComponentId)
    ensures
        bound_of(filters).contains(kind) <==> filters.contains(RowFilter::Bound(kind)),
    decreases filters.len(),
{
    if filters.len() > 0 {
        let rest = filters.drop_last();
        lemma_bound_filters(rest, kind);
        lemma_last(filters, RowFilter::Bound(kind));
        if let RowFilter::Bound(last) = filters.last() {
            lemma_pushed(bound_of(rest), last, kind);
        }
    }
}

proof fn lemma_part_kinds(query: QueryModel, kind: ComponentId)
    ensures
        part_components(query.parts).contains(kind) <==> among_parts(query, kind),
{
    let kinds = part_components(query.parts);
    if kinds.contains(kind) {
        let i = choose|i: int| 0 <= i < kinds.len() && kinds[i] == kind;
        assert(query.parts[i].component == kind);
    }
    if among_parts(query, kind) {
        let i = choose|i: int|
            0 <= i < query.parts.len() && (#[trigger] query.parts[i]).component == kind;
        assert(kinds[i] == kind);
    }
}

/// The components of a query that a row depends on are the tracked ones among its
/// row data and its conditions.
pub proof fn lemma_query_inputs<C: RelationshipTarget>(query: QueryModel, kind: ComponentId)
    ensures
        query.tracked_inputs::<C>().contains(kind) <==> (C::tracks(kind) && (among_parts(
            query,
            kind,
        ) || among_conditions(query, kind))),
{
    let parts = part_components(query.parts);
    let seen = observed_components(query.filters);
    lemma_tracked_kinds::<C>(parts, kind);
    lemma_tracked_kinds::<C>(seen, kind);
    lemma_part_kinds(query, kind);
    lemma_observed_kinds(query.filters, kind);
    lemma_joined(tracked_of::<C>(parts), tracked_of::<C>(seen), kind);
}

proof fn lemma_state_deps_contain<C: RelationshipTarget>(
    world: WorldModel<C>,
    params: Seq<ParamModel>,
    state: Seq<RowState>,
    dep: Dep,
)
    ensures
        state_deps(world, params, state).contains(dep) <==> exists|at: int|
            0 <= at < state.len() && (#[trigger] params[at]).deps(world, state[at]).contains(dep),
    decreases state.len(),
{
    if state.len() > 0 {
        let rest = state.drop_last();
        let last = state.len() - 1;
        lemma_state_deps_contain(world, params, rest, dep);
        lemma_joined(
            state_deps(world, params, rest),
            params[last].deps(world, state.last()),
            dep,
        );
        if state_deps(world, params, rest).contains(dep) {
            let at = choose|at: int|
                0 <= at < rest.len() && (#[trigger] params[at]).deps(world, rest[at]).contains(
                    dep,
                );
            assert(params[at].deps(world, state[at]).contains(dep));
        }
        if exists|at: int|
            0 <= at < state.len() && (#[trigger] params[at]).deps(world, state[at]).contains(dep) {
            let at = choose|at: int|
                0 <= at < state.len() && (#[trigger] params[at]).deps(
                    world,
                    state[at],
                ).contains(dep);
            if at < last {
                assert(params[at].deps(world, rest[at]).contains(dep));
            }
        }
        if params[last].deps(world, state.last()).contains(dep) {
            assert(params[last].deps(world, state[last]).contains(dep));
        }
    }
}

/// Every tracked component that a body is handed on a row, or that decided about
/// the row, is observed: the row of an outer join as well as that of a plain query.
pub proof fn lemma_handed_rows_are_observed<C: RelationshipTarget>(
    world: WorldModel<C>,
    params: Seq<ParamModel>,
    state: Seq<RowState>,
    at: int,
    query: QueryModel,
    kind: ComponentId,
    entity: Entity,
)
    requires
        state.len() <= params.len(),
        reads_row::<C>(params, state, at, query, kind, entity),
    ensures
        exists|dep: Dep| #[trigger]
            state_deps(world, params, state).contains(dep) && tells(dep, world, kind, entity),
{
    let kinds = query.tracked_inputs::<C>();
    lemma_query_inputs::<C>(query, kind);
    let i = choose|i: int| 0 <= i < kinds.len() && kinds[i] == kind;
    let deps = params[at].deps(world, state[at]);
    let dep = deps[i];
    assert(deps.contains(dep));
    lemma_state_deps_contain(world, params, state, dep);
    assert(tells(dep, world, kind, entity));
}

/// That an outer join found no partner is observed on every store that could hold
/// one: those of its row data and of its keys.
pub proof fn lemma_missing_partners_are_observed<C: RelationshipTarget>(
    world: WorldModel<C>,
    params: Seq<ParamModel>,
    state: Seq<RowState>,
    at: int,
    query: QueryModel,
    kind: ComponentId,
)
    requires
        state.len() <= params.len(),
        misses(params, state, at, query, kind),
    ensures
        exists|dep: Dep| #[trigger]
            state_deps(world, params, state).contains(dep) && tells_store(dep, world, kind),
{
    let parts = part_components(query.parts);
    let kinds = parts + query.bound_kinds();
    lemma_part_kinds(query, kind);
    lemma_bound_filters(query.filters, kind);
    lemma_joined(parts, query.bound_kinds(), kind);
    let i = choose|i: int| 0 <= i < kinds.len() && kinds[i] == kind;
    let deps = params[at].deps(world, state[at]);
    let dep = deps[i];
    assert(deps.contains(dep));
    lemma_state_deps_contain(world, params, state, dep);
    assert(tells_store(dep, world, kind));
}

/// Nothing else is observed: an input is a tracked component of a row that the body
/// is handed, or a store in which an outer join found no partner. What a view reads,
/// and what is not tracked, is none.
pub proof fn lemma_only_inputs_are_observed<C: RelationshipTarget>(
    world: WorldModel<C>,
    params: Seq<ParamModel>,
    state: Seq<RowState>,
    dep: Dep,
)
    requires
        state.len() <= params.len(),
        state_deps(world, params, state).contains(dep),
    ensures
        ({
            ||| exists|at: int, query: QueryModel, entity: Entity| #[trigger]
                reads_row::<C>(params, state, at, query, dep.component, entity) && tells(
                    dep,
                    world,
                    dep.component,
                    entity,
                )
            ||| exists|at: int, query: QueryModel| #[trigger]
                misses(params, state, at, query, dep.component) && tells_store(
                    dep,
                    world,
                    dep.component,
                )
        }),
{
    let kind = dep.component;
    lemma_state_deps_contain(world, params, state, dep);
    let at = choose|at: int|
        0 <= at < state.len() && (#[trigger] params[at]).deps(world, state[at]).contains(dep);
    let deps = params[at].deps(world, state[at]);
    let i = choose|i: int| 0 <= i < deps.len() && deps[i] == dep;
    match (params[at], state[at]) {
        (ParamModel::Query(query), RowState::Row(entity)) => {
            let kinds = query.tracked_inputs::<C>();
            assert(kinds.contains(kinds[i]));
            lemma_query_inputs::<C>(query, kind);
            assert(reads_row::<C>(params, state, at, query, kind, entity));
            assert(tells(dep, world, kind, entity));
        },
        (ParamModel::Outer(query), RowState::Row(entity)) => {
            let kinds = query.tracked_inputs::<C>();
            assert(kinds.contains(kinds[i]));
            lemma_query_inputs::<C>(query, kind);
            assert(reads_row::<C>(params, state, at, query, kind, entity));
            assert(tells(dep, world, kind, entity));
        },
        (ParamModel::Outer(query), RowState::Absent) => {
            let parts = part_components(query.parts);
            let kinds = parts + query.bound_kinds();
            assert(kinds.contains(kinds[i]));
            lemma_part_kinds(query, kind);
            lemma_bound_filters(query.filters, kind);
            lemma_joined(parts, query.bound_kinds(), kind);
            assert(misses(params, state, at, query, kind));
            assert(tells_store(dep, world, kind));
        },
        _ => {},
    }
}

/// What is observed is the case.
pub proof fn lemma_observations_hold<C: RelationshipTarget>(
    world: WorldModel<C>,
    params: Seq<ParamModel>,
    state: Seq<RowState>,
)
    requires
        state.len() <= params.len(),
    ensures
        deps_hold(world, state_deps(world, params, state)),
{
    let deps = state_deps(world, params, state);
    assert forall|i: int| 0 <= i < deps.len() implies (#[trigger] deps[i]).holds(world) by {
        assert(deps.contains(deps[i]));
        lemma_only_inputs_are_observed(world, params, state, deps[i]);
    }
}

/// Whether everything that a body is handed with `state` is the same in both worlds,
/// as far as invalidation goes.
pub open spec fn same_inputs<C: RelationshipTarget>(
    before: WorldModel<C>,
    after: WorldModel<C>,
    params: Seq<ParamModel>,
    state: Seq<RowState>,
) -> bool {
    &&& forall|at: int, query: QueryModel, kind: ComponentId, entity: Entity| #[trigger]
        reads_row::<C>(params, state, at, query, kind, entity) ==> same_input(
            before,
            after,
            kind,
            entity,
        )
    &&& forall|at: int, query: QueryModel, kind: ComponentId| #[trigger]
        misses(params, state, at, query, kind) ==> before.column(kind).watermark == after.column(
            kind,
        ).watermark
}

/// An invocation that ran in one world is passed over in another exactly when all
/// its inputs are the same there: it reruns if, and only if, the revision of a
/// tracked component that it was handed changed, one came or went, or a store moved
/// in which an outer join of it found no partner.
pub proof fn lemma_reruns_exactly_on_changed_inputs<C: RelationshipTarget>(
    system: SystemId,
    before: WorldModel<C>,
    after: WorldModel<C>,
    memo: Map<Invocation, MemoModel>,
    params: Seq<ParamModel>,
    state: Seq<RowState>,
)
    requires
        state.len() <= params.len(),
        forall|i: int| 0 <= i < params.len() ==> (#[trigger] params[i]) != ParamModel::Meta,
        ({
            let planned = invocation_of(system, before, params, state);
            memo.contains_key(planned.owner) && memo[planned.owner].deps == planned.deps
        }),
    ensures
        memoized(memo, params, invocation_of(system, after, params, state)) <==> same_inputs(
            before,
            after,
            params,
            state,
        ),
{
    let then = state_deps(before, params, state);
    let now = state_deps(after, params, state);
    lemma_observations_hold(after, params, state);
    if then == now {
        assert forall|at: int, query: QueryModel, kind: ComponentId, entity: Entity| #[trigger]
            reads_row::<C>(params, state, at, query, kind, entity) implies same_input(
            before,
            after,
            kind,
            entity,
        ) by {
            lemma_handed_rows_are_observed(before, params, state, at, query, kind, entity);
            let dep = choose|dep: Dep| #[trigger]
                then.contains(dep) && tells(dep, before, kind, entity);
            let i = choose|i: int| 0 <= i < now.len() && now[i] == dep;
            assert(now[i].holds(after));
        }
        assert forall|at: int, query: QueryModel, kind: ComponentId| #[trigger]
            misses(params, state, at, query, kind) implies before.column(kind).watermark
            == after.column(kind).watermark by {
            lemma_missing_partners_are_observed(before, params, state, at, query, kind);
            let dep = choose|dep: Dep| #[trigger]
                then.contains(dep) && tells_store(dep, before, kind);
            let i = choose|i: int| 0 <= i < now.len() && now[i] == dep;
            assert(now[i].holds(after));
        }
    }
    if same_inputs(before, after, params, state) {
        assert forall|i: int| 0 <= i < then.len() implies (#[trigger] then[i]).holds(after) by {
            let dep = then[i];
            assert(then.contains(dep));
            lemma_only_inputs_are_observed(before, params, state, dep);
        }
        lemma_held_deps_are_observed_again(before, after, params, state);
    }
}

/// A system with access to world metadata is planned in every pass: nothing that it
/// did is taken as done.
pub proof fn lemma_metadata_readers_always_run(
    memo: Map<Invocation, MemoModel>,
    params: Seq<ParamModel>,
    planned: PlannedModel,
    at: int,
)
    requires
        0 <= at < params.len(),
        params[at] == ParamModel::Meta,
    ensures
        !memoized(memo, params, planned),
{
}

/// An invocation that never ran is not taken as done, whatever it observes.
pub proof fn lemma_first_run_is_due(
    memo: Map<Invocation, MemoModel>,
    params: Seq<ParamModel>,
    planned: PlannedModel,
)
    requires
        !memo.contains_key(planned.owner),
    ensures
        !memoized(memo, params, planned),
{
}

/// A plan holds an invocation for a state if, and only if, the state is one of the
/// system's and the invocation is not up to date; the invocation is of that system
/// and state, and no state is planned more often than it occurs.
pub proof fn lemma_plan_is_what_is_due<C: RelationshipTarget>(
    system: SystemId,
    world: WorldModel<C>,
    memo: Map<Invocation, MemoModel>,
    params: Seq<ParamModel>,
    states: Seq<Seq<RowState>>,
    state: Seq<RowState>,
)
    ensures
        ({
            let plan = to_run(system, world, memo, params, states);
            let due = invocation_of(system, world, params, state);
            &&& plan.contains(due) <==> (states.contains(state) && !memoized(memo, params, due))
            &&& forall|i: int|
                0 <= i < plan.len() ==> (#[trigger] plan[i]).owner.system == system
                    && states.contains(plan[i].state)
            &&& plan.len() <= states.len()
        }),
    decreases states.len(),
{
    let plan = to_run(system, world, memo, params, states);
    lemma_to_run_members(
        system,
        world,
        memo,
        params,
        states,
        invocation_of(system, world, params, state),
    );
    assert forall|i: int| 0 <= i < plan.len() implies (#[trigger] plan[i]).owner.system == system
        && states.contains(plan[i].state) by {
        assert(plan.contains(plan[i]));
        lemma_to_run_members(system, world, memo, params, states, plan[i]);
    }
    if states.len() > 0 {
        lemma_plan_is_what_is_due(system, world, memo, params, states.drop_last(), state);
    }
}

proof fn lemma_keys_contain(params: Seq<ParamModel>, state: Seq<RowState>, entity: Entity)
    ensures
        state_keys(params, state).contains(entity) <==> state.contains(RowState::Row(entity)),
    decreases state.len(),
{
    if state.len() > 0 {
        let rest = state.drop_last();
        lemma_keys_contain(params, rest, entity);
        lemma_last(state, RowState::Row(entity));
        let more = params[state.len() - 1].keys(state.last());
        lemma_joined(state_keys(params, rest), more, entity);
        if state.last() == RowState::Row(entity) {
            assert(more[0] == entity);
        }
    }
}

/// Whether two states hand out rows at the same places, and are the same elsewhere.
pub open spec fn same_places(a: Seq<RowState>, b: Seq<RowState>) -> bool {
    &&& a.len() == b.len()
    &&& forall|i: int|
        0 <= i < a.len() ==> (#[trigger] a[i] is Row && b[i] is Row) || a[i] == b[i]
}

/// An invocation is identified by its rows: its keys are the entities of the rows
/// that it is handed, and two states of a system that differ in a row are different
/// invocations.
pub proof fn lemma_rows_identify_invocations(
    params: Seq<ParamModel>,
    a: Seq<RowState>,
    b: Seq<RowState>,
)
    requires
        same_places(a, b),
    ensures
        forall|entity: Entity| #[trigger]
            state_keys(params, a).contains(entity) <==> a.contains(RowState::Row(entity)),
        state_keys(params, a).len() == state_keys(params, b).len(),
        state_keys(params, a) == state_keys(params, b) <==> a == b,
    decreases a.len(),
{
    assert forall|entity: Entity| #[trigger]
        state_keys(params, a).contains(entity) <==> a.contains(RowState::Row(entity)) by {
        lemma_keys_contain(params, a, entity);
    }
    if a.len() == 0 {
        assert(a =~= b);
    } else {
        let front = a.drop_last();
        let back = b.drop_last();
        assert forall|i: int| 0 <= i < front.len() implies (#[trigger] front[i] is Row
            && back[i] is Row) || front[i] == back[i] by {
            assert(a[i] == front[i] && b[i] == back[i]);
        }
        lemma_rows_identify_invocations(params, front, back);
        let last = a.len() - 1;
        assert((a[last] is Row && b[last] is Row) || a[last] == b[last]);
        let one = params[last].keys(a.last());
        let two = params[last].keys(b.last());
        let x = state_keys(params, front);
        let y = state_keys(params, back);
        assert(one.len() == two.len());
        if x + one == y + two {
            assert(x =~= (x + one).take(x.len() as int));
            assert(y =~= (y + two).take(y.len() as int));
            assert(x == y);
            assert(one =~= (x + one).skip(x.len() as int));
            assert(two =~= (y + two).skip(y.len() as int));
            assert(one == two);
            if a.last() is Row {
                assert(one[0] == two[0]);
            }
            assert(front.push(a.last()) =~= a);
            assert(back.push(b.last()) =~= b);
        }
    }
}

proof fn lemma_state_access_contains(
    params: Seq<ParamModel>,
    state: Seq<RowState>,
    access: Access,
)
    ensures
        state_access(params, state).contains(access) <==> exists|at: int|
            0 <= at < state.len() && (#[trigger] params[at]).access(state[at]).contains(access),
    decreases state.len(),
{
    if state.len() > 0 {
        let rest = state.drop_last();
        let last = state.len() - 1;
        lemma_state_access_contains(params, rest, access);
        lemma_joined(state_access(params, rest), params[last].access(state.last()), access);
        if state_access(params, rest).contains(access) {
            let at = choose|at: int|
                0 <= at < rest.len() && (#[trigger] params[at]).access(rest[at]).contains(access);
            assert(params[at].access(state[at]).contains(access));
        }
        if exists|at: int|
            0 <= at < state.len() && (#[trigger] params[at]).access(state[at]).contains(access) {
            let at = choose|at: int|
                0 <= at < state.len() && (#[trigger] params[at]).access(state[at]).contains(
                    access,
                );
            if at < last {
                assert(params[at].access(rest[at]).contains(access));
            }
        }
        if params[last].access(state.last()).contains(access) {
            assert(params[last].access(state[last]).contains(access));
        }
    }
}

/// Whether a query writes `kind` in place.
pub open spec fn writes_part(query: QueryModel, kind: ComponentId) -> bool {
    exists|i: int|
        0 <= i < query.parts.len() && (#[trigger] query.parts[i]).component == kind
            && query.parts[i].mode == PartMode::Write
}

/// Whether a query looks at `kind` without writing it: in its row data, or in a
/// condition on the row itself.
pub open spec fn looks_at(query: QueryModel, kind: ComponentId) -> bool {
    ||| exists|i: int|
        0 <= i < query.parts.len() && (#[trigger] query.parts[i]).component == kind
            && query.parts[i].mode == PartMode::Read
    ||| query.filters.contains(RowFilter::With(kind))
    ||| query.filters.contains(RowFilter::Without(kind))
    ||| query.filters.contains(RowFilter::Bound(kind))
    ||| query.filters.contains(RowFilter::Anchor(kind))
    ||| query.filters.contains(RowFilter::Maybe(kind))
}

proof fn lemma_filter_access(filters: Seq<RowFilter>, entity: Option<Entity>, access: Access)
    ensures
        filter_access(filters, entity).contains(access) <==> (access.kind == AccessKind::Read
            && access.entity == entity && (filters.contains(RowFilter::With(access.component))
            || filters.contains(RowFilter::Without(access.component)) || filters.contains(
            RowFilter::Bound(access.component),
        ) || filters.contains(RowFilter::Anchor(access.component)) || filters.contains(
            RowFilter::Maybe(access.component),
        ))),
    decreases filters.len(),
{
    if filters.len() > 0 {
        let rest = filters.drop_last();
        let kind = access.component;
        lemma_filter_access(rest, entity, access);
        lemma_last(filters, RowFilter::With(kind));
        lemma_last(filters, RowFilter::Without(kind));
        lemma_last(filters, RowFilter::Bound(kind));
        lemma_last(filters, RowFilter::Anchor(kind));
        lemma_last(filters, RowFilter::Maybe(kind));
        let fewer = filter_access(rest, entity);
        let all = filter_access(filters, entity);
        if all.len() > fewer.len() {
            lemma_pushed(fewer, all.last(), access);
            assert(all =~= fewer.push(all.last()));
        }
    }
}

proof fn lemma_part_access(query: QueryModel, entity: Option<Entity>, access: Access)
    ensures
        part_access(query.parts, entity).contains(access) <==> (access.entity == entity && exists|
            i: int,
        |
            0 <= i < query.parts.len() && (#[trigger] query.parts[i]).component == access.component
                && (query.parts[i].mode == PartMode::Write) == (access.kind == AccessKind::Write)),
{
    let all = part_access(query.parts, entity);
    if all.contains(access) {
        let i = choose|i: int| 0 <= i < all.len() && all[i] == access;
        assert(query.parts[i].component == access.component);
    }
    if access.entity == entity && exists|i: int|
        0 <= i < query.parts.len() && (#[trigger] query.parts[i]).component == access.component
            && (query.parts[i].mode == PartMode::Write) == (access.kind == AccessKind::Write) {
        let i = choose|i: int|
            0 <= i < query.parts.len() && (#[trigger] query.parts[i]).component
                == access.component && (query.parts[i].mode == PartMode::Write) == (access.kind
                == AccessKind::Write);
        assert(all[i] == access);
    }
}

proof fn lemma_query_access(query: QueryModel, entity: Option<Entity>, access: Access)
    ensures
        (part_access(query.parts, entity) + filter_access(query.filters, entity)).contains(access)
            <==> (access.entity == entity && if access.kind == AccessKind::Write {
            writes_part(query, access.component)
        } else {
            looks_at(query, access.component)
        }),
{
    lemma_part_access(query, entity, access);
    lemma_filter_access(query.filters, entity, access);
    lemma_joined(
        part_access(query.parts, entity),
        filter_access(query.filters, entity),
        access,
    );
    if access.kind == AccessKind::Write {
        if writes_part(query, access.component) {
            let i = choose|i: int|
                0 <= i < query.parts.len() && (#[trigger] query.parts[i]).component
                    == access.component && query.parts[i].mode == PartMode::Write;
            assert(query.parts[i].component == access.component);
        }
    }
}

/// Whether a parameter touches rows of `query` with a state: one row, or, for a view
/// and for an outer join without a partner, all of them.
pub open spec fn touches(
    param: ParamModel,
    state: RowState,
    query: QueryModel,
    entity: Option<Entity>,
) -> bool {
    match entity {
        Some(entity) => hands_out(param, state, query, entity),
        None => param == ParamModel::View(query) || (param == ParamModel::Outer(query) && state
            == RowState::Absent),
    }
}

/// The access of an invocation is exactly what its parameters touch: exclusive for
/// the row data that it writes, shared for what it reads and what its conditions
/// look at; the whole store where it reads all rows, or depends on finding none.
pub proof fn lemma_access_is_what_is_touched(
    params: Seq<ParamModel>,
    state: Seq<RowState>,
    access: Access,
)
    requires
        state.len() <= params.len(),
    ensures
        state_access(params, state).contains(access) <==> exists|at: int, query: QueryModel|
            0 <= at < state.len() && #[trigger] touches(
                params[at],
                state[at],
                query,
                access.entity,
            ) && if access.kind == AccessKind::Write {
                writes_part(query, access.component)
            } else {
                looks_at(query, access.component)
            },
{
    lemma_state_access_contains(params, state, access);
    if state_access(params, state).contains(access) {
        let at = choose|at: int|
            0 <= at < state.len() && (#[trigger] params[at]).access(state[at]).contains(access);
        match params[at] {
            ParamModel::Query(query) => {
                match state[at] {
                    RowState::Row(entity) => {
                        lemma_query_access(query, Some(entity), access);
                        assert(touches(params[at], state[at], query, access.entity));
                    },
                    _ => {},
                }
            },
            ParamModel::Outer(query) => {
                match state[at] {
                    RowState::Row(entity) => {
                        lemma_query_access(query, Some(entity), access);
                        assert(touches(params[at], state[at], query, access.entity));
                    },
                    RowState::Absent => {
                        lemma_query_access(query, None, access);
                        assert(touches(params[at], state[at], query, access.entity));
                    },
                    _ => {},
                }
            },
            ParamModel::View(query) => {
                lemma_query_access(query, None, access);
                assert(touches(params[at], state[at], query, access.entity));
            },
            _ => {},
        }
    }
    if exists|at: int, query: QueryModel|
        0 <= at < state.len() && #[trigger] touches(
            params[at],
            state[at],
            query,
            access.entity,
        ) && if access.kind == AccessKind::Write {
            writes_part(query, access.component)
        } else {
            looks_at(query, access.component)
        } {
        let (at, query) = choose|at: int, query: QueryModel|
            0 <= at < state.len() && #[trigger] touches(
                params[at],
                state[at],
                query,
                access.entity,
            ) && if access.kind == AccessKind::Write {
                writes_part(query, access.component)
            } else {
                looks_at(query, access.component)
            };
        lemma_query_access(query, access.entity, access);
        assert(params[at].access(state[at]).contains(access));
    }
}

/// Whether an access list allows writing `cell`: it holds exclusive access to that
/// row.
pub open spec fn may_write(access: Seq<Access>, cell: Cell) -> bool {
    access.contains(
        Access { kind: AccessKind::Write, component: cell.0, entity: Some(cell.1) },
    )
}

proof fn lemma_rows_written(access: Seq<Access>, cell: Cell)
    ensures
        crate::access::rows_written(access).contains(cell) <==> may_write(access, cell),
    decreases access.len(),
{
    if access.len() > 0 {
        let wanted = Access {
            kind: AccessKind::Write,
            component: cell.0,
            entity: Some(cell.1),
        };
        let rest = access.drop_last();
        lemma_rows_written(rest, cell);
        lemma_last(access, wanted);
        let fewer = crate::access::rows_written(rest);
        let all = crate::access::rows_written(access);
        if all.len() > fewer.len() {
            assert(all =~= fewer.push(all.last()));
            lemma_pushed(fewer, all.last(), cell);
        }
    }
}

/// The rows that a list of accesses writes are those it has exclusive access to, and
/// what a body wrote in place is kept exactly where it had that.
pub proof fn lemma_only_exclusive_rows_are_written<C: RelationshipTarget>(
    access: Seq<Access>,
    writes: Seq<(Entity, C::Model)>,
    write: (Entity, C::Model),
)
    ensures
        crate::access::rows_written(access).contains((C::kind(write.1), write.0)) <==> may_write(
            access,
            (C::kind(write.1), write.0),
        ),
        permitted::<C>(access, writes).contains(write) <==> (writes.contains(write) && may_write(
            access,
            (C::kind(write.1), write.0),
        )),
        permitted::<C>(access, writes).len() <= writes.len(),
    decreases writes.len(),
{
    lemma_rows_written(access, (C::kind(write.1), write.0));
    if writes.len() > 0 {
        let rest = writes.drop_last();
        let last = writes.last();
        lemma_only_exclusive_rows_are_written::<C>(access, rest, write);
        lemma_rows_written(access, (C::kind(last.1), last.0));
        lemma_last(writes, write);
        lemma_pushed(permitted::<C>(access, rest), last, write);
    }
}

} // verus!
