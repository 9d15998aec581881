//! What joins give: every combination of rows whose keys agree, and no other.

use crate::component::{ComponentId, RelationshipTarget};
use crate::entity::Entity;
use crate::model::{sorted_keys, WorldModel};
use crate::param::{
    absence_matches, bindings_match, bound_matches, continued, expand, first_key, first_members,
    keys_provided, member_matches, needs_prune, next_states, pair_candidates, pairs_up, product,
    pruned, row_states, stamp_at, state_matches, system_states, Binding, JoinError, ParamModel,
    RowState,
};
use crate::planning_laws::{lemma_continued_members, lemma_row_states_members};
use crate::query::{bound_of, lemma_kept, lemma_rows_list, members_of, PartMode, RowFilter};
use crate::seq_laws::{lemma_joined, lemma_last, lemma_pushed};
use crate::store::stamped_with;
use crate::world::lemma_as_entities;
use vstd::prelude::*;

verus! {

/// Whether the parameter's rows have to agree with a sibling's on `key`.
pub open spec fn asks_key(param: ParamModel, key: ComponentId) -> bool {
    match param {
        ParamModel::Query(query) => query.filters.contains(RowFilter::Bound(key)),
        ParamModel::Outer(query) => query.filters.contains(RowFilter::Bound(key)),
        ParamModel::View(query) => query.filters.contains(RowFilter::Bound(key)),
        _ => false,
    }
}

/// Whether the parameter's rows have to be members of a sibling's inverse `key`.
pub open spec fn asks_membership(param: ParamModel, key: ComponentId) -> bool {
    match param {
        ParamModel::Query(query) => query.filters.contains(RowFilter::Member(key)),
        _ => false,
    }
}

/// Whether parameter `at` has a row here whose data reads `key`.
pub open spec fn hands_key(
    params: Seq<ParamModel>,
    state: Seq<RowState>,
    at: int,
    key: ComponentId,
) -> bool {
    &&& state[at] is Row
    &&& params[at] matches ParamModel::Query(query) && exists|i: int|
        0 <= i < query.parts.len() && (#[trigger] query.parts[i]).component == key
            && query.parts[i].mode == PartMode::Read
}

/// Whether `from` is the first parameter other than `at` that hands out `key`.
pub open spec fn provider(
    params: Seq<ParamModel>,
    state: Seq<RowState>,
    at: int,
    key: ComponentId,
    from: int,
) -> bool {
    &&& 0 <= from < state.len()
    &&& from != at
    &&& hands_key(params, state, from, key)
    &&& forall|j: int| 0 <= j < from && j != at ==> !#[trigger] hands_key(params, state, j, key)
}

/// Whether `entity` and the row of the provider carry the same fingerprint of `key`.
pub open spec fn same_key<C: RelationshipTarget>(
    world: WorldModel<C>,
    params: Seq<ParamModel>,
    state: Seq<RowState>,
    at: int,
    key: ComponentId,
    entity: Entity,
) -> bool {
    exists|from: int| #[trigger]
        provider(params, state, at, key, from) && (world.entry(key, entity) matches Some(mine) && (
        world.entry(key, state[from]->Row_0) matches Some(theirs) && mine.fingerprint is Some
            && mine.fingerprint == theirs.fingerprint))
}

/// Whether the provider's row lists `entity` in its inverse `key`.
pub open spec fn listed<C: RelationshipTarget>(
    world: WorldModel<C>,
    params: Seq<ParamModel>,
    state: Seq<RowState>,
    at: int,
    key: ComponentId,
    entity: Entity,
) -> bool {
    exists|from: int| #[trigger]
        provider(params, state, at, key, from) && C::is_inverse(key) && world.members(
            key,
            state[from]->Row_0,
        ).contains(entity)
}

/// Whether `entity`, as the row of parameter `at`, goes with the rows of the siblings.
pub open spec fn partners<C: RelationshipTarget>(
    world: WorldModel<C>,
    params: Seq<ParamModel>,
    state: Seq<RowState>,
    at: int,
    entity: Entity,
) -> bool {
    &&& forall|key: ComponentId| #[trigger]
        asks_key(params[at], key) ==> same_key(world, params, state, at, key, entity)
    &&& forall|key: ComponentId| #[trigger]
        asks_membership(params[at], key) ==> listed(world, params, state, at, key, entity)
}

/// Whether the provider of `key` has a fingerprint to compare with.
pub open spec fn comparable<C: RelationshipTarget>(
    world: WorldModel<C>,
    params: Seq<ParamModel>,
    state: Seq<RowState>,
    at: int,
    key: ComponentId,
) -> bool {
    exists|from: int| #[trigger]
        provider(params, state, at, key, from) && (world.entry(key, state[from]->Row_0) matches Some(
            theirs,
        ) && theirs.fingerprint is Some)
}

/// Whether what parameter `at` contributes goes with the rows of its siblings: its row
/// is a partner of theirs, or it has none and no row of it would be.
pub open spec fn agrees<C: RelationshipTarget>(
    world: WorldModel<C>,
    params: Seq<ParamModel>,
    state: Seq<RowState>,
    at: int,
) -> bool {
    match state[at] {
        RowState::Row(entity) => partners(world, params, state, at, entity),
        RowState::Absent => {
            &&& forall|key: ComponentId| #[trigger]
                asks_key(params[at], key) ==> comparable(world, params, state, at, key)
            &&& params[at] matches ParamModel::Outer(query) ==> forall|entity: Entity|
                #[trigger]
                query.rows(world).contains(entity) ==> !partners(world, params, state, at, entity)
        },
        RowState::Unit => true,
    }
}

/// Whether a parameter can contribute `state` by itself: a row of its query, its one
/// state where it has no rows, or nothing where it may go without.
pub open spec fn contributes<C: RelationshipTarget>(
    world: WorldModel<C>,
    param: ParamModel,
    state: RowState,
) -> bool {
    match (param, state) {
        (ParamModel::Query(query), RowState::Row(entity)) => query.admits(world, entity) && (
        param.pair_expandable() || query.needs().len() > 0 || entity.id() < world.next_entity),
        (ParamModel::Outer(query), RowState::Row(entity)) => query.admits(world, entity) && (
        query.needs().len() > 0 || entity.id() < world.next_entity),
        (ParamModel::Outer(_), RowState::Absent) => true,
        (ParamModel::View(_), RowState::Unit) => true,
        (ParamModel::Commands(_), RowState::Unit) => true,
        (ParamModel::Meta, RowState::Unit) => true,
        _ => false,
    }
}

proof fn lemma_bound_of(filters: Seq<RowFilter>, key: ComponentId)
    ensures
        bound_of(filters).contains(key) <==> filters.contains(RowFilter::Bound(key)),
        members_of(filters).contains(key) <==> filters.contains(RowFilter::Member(key)),
    decreases filters.len(),
{
    if filters.len() > 0 {
        let rest = filters.drop_last();
        lemma_bound_of(rest, key);
        lemma_last(filters, RowFilter::Bound(key));
        lemma_last(filters, RowFilter::Member(key));
        match filters.last() {
            RowFilter::Bound(kind) => lemma_pushed(bound_of(rest), kind, key),
            RowFilter::Member(kind) => lemma_pushed(members_of(rest), kind, key),
            _ => {},
        }
    }
}

/// The keys and memberships a parameter lists are those it asks for.
pub proof fn lemma_asked(param: ParamModel, key: ComponentId)
    ensures
        param.bound_kinds().contains(key) <==> asks_key(param, key),
        param.member_kinds().contains(key) <==> asks_membership(param, key),
{
    match param {
        ParamModel::Query(query) => lemma_bound_of(query.filters, key),
        ParamModel::Outer(query) => lemma_bound_of(query.filters, key),
        ParamModel::View(query) => lemma_bound_of(query.filters, key),
        _ => {},
    }
}

/// Whether `from` is the first parameter from `start` on, other than `at`, that hands
/// out `key`.
spec fn provider_from(
    params: Seq<ParamModel>,
    state: Seq<RowState>,
    at: int,
    key: ComponentId,
    start: int,
    from: int,
) -> bool {
    &&& start <= from < state.len()
    &&& from != at
    &&& hands_key(params, state, from, key)
    &&& forall|j: int|
        start <= j < from && j != at ==> !#[trigger] hands_key(params, state, j, key)
}

proof fn lemma_first_key_from<C: RelationshipTarget>(
    world: WorldModel<C>,
    params: Seq<ParamModel>,
    state: Seq<RowState>,
    key: ComponentId,
    at: int,
    start: int,
) -> (from: int)
    requires
        0 <= start,
    ensures
        match first_key(world, params, state, key, at, start) {
            Some(stamp) => provider_from(params, state, at, key, start, from) && stamp == stamp_at(
                world,
                key,
                state[from]->Row_0,
            ),
            None => forall|j: int|
                start <= j < state.len() && j != at ==> !#[trigger] hands_key(
                    params,
                    state,
                    j,
                    key,
                ),
        },
        match first_members(world, params, state, key, at, start) {
            Some(members) => C::is_inverse(key) && provider_from(
                params,
                state,
                at,
                key,
                start,
                from,
            ) && members == world.members(key, state[from]->Row_0),
            None => !C::is_inverse(key) || forall|j: int|
                start <= j < state.len() && j != at ==> !#[trigger] hands_key(
                    params,
                    state,
                    j,
                    key,
                ),
        },
    decreases state.len() - start,
{
    if start >= state.len() {
        start
    } else {
        assert(hands_key(params, state, start, key) <==> params[start].provided_key(
            world,
            state[start],
            key,
        ) is Some);
        assert(params[start].provided_members(world, state[start], key) is Some <==> (
        C::is_inverse(key) && hands_key(params, state, start, key)));
        let later = lemma_first_key_from(world, params, state, key, at, start + 1);
        if start != at && hands_key(params, state, start, key) {
            start
        } else {
            later
        }
    }
}

/// What a joined row is compared with: the fingerprint, or the members, on the row of
/// the first other parameter whose data reads the key.
pub proof fn lemma_provider_is_the_first_reader<C: RelationshipTarget>(
    world: WorldModel<C>,
    params: Seq<ParamModel>,
    state: Seq<RowState>,
    key: ComponentId,
    at: int,
    from: int,
)
    ensures
        provider(params, state, at, key, from) ==> first_key(world, params, state, key, at, 0)
            == Some(stamp_at(world, key, state[from]->Row_0)),
        provider(params, state, at, key, from) && C::is_inverse(key) ==> first_members(
            world,
            params,
            state,
            key,
            at,
            0,
        ) == Some(world.members(key, state[from]->Row_0)),
        first_key(world, params, state, key, at, 0) is Some ==> exists|j: int| #[trigger]
            provider(params, state, at, key, j),
        first_members(world, params, state, key, at, 0) is Some ==> C::is_inverse(key)
            && exists|j: int| #[trigger] provider(params, state, at, key, j),
{
    let found = lemma_first_key_from(world, params, state, key, at, 0);
    if first_key(world, params, state, key, at, 0) is Some {
        assert(provider(params, state, at, key, found));
    }
    if provider(params, state, at, key, from) {
        assert(hands_key(params, state, from, key));
        if from < found {
            assert(!hands_key(params, state, from, key));
        }
        if found < from {
            assert(!hands_key(params, state, found, key));
        }
    }
}

proof fn lemma_same_key<C: RelationshipTarget>(
    world: WorldModel<C>,
    params: Seq<ParamModel>,
    state: Seq<RowState>,
    at: int,
    key: ComponentId,
    entity: Entity,
)
    ensures
        same_key(world, params, state, at, key, entity) <==> (stamp_at(world, key, entity) is Some
            && first_key(world, params, state, key, at, 0) == Some(stamp_at(world, key, entity))),
        listed(world, params, state, at, key, entity) <==> (first_members(
            world,
            params,
            state,
            key,
            at,
            0,
        ) matches Some(members) && members.contains(entity)),
        comparable(world, params, state, at, key) <==> (first_key(
            world,
            params,
            state,
            key,
            at,
            0,
        ) matches Some(Some(_))),
{
    lemma_provider_is_the_first_reader(world, params, state, key, at, 0);
    if exists|j: int| #[trigger] provider(params, state, at, key, j) {
        let j = choose|j: int| #[trigger] provider(params, state, at, key, j);
        lemma_provider_is_the_first_reader(world, params, state, key, at, j);
        assert forall|i: int| #[trigger] provider(params, state, at, key, i) implies i == j by {
            assert(hands_key(params, state, i, key));
            assert(hands_key(params, state, j, key));
        }
    }
}

proof fn lemma_bound_matches<C: RelationshipTarget>(
    world: WorldModel<C>,
    params: Seq<ParamModel>,
    state: Seq<RowState>,
    at: int,
    from: int,
)
    requires
        0 <= from,
    ensures
        bound_matches(world, params, state, at, from) == Ok::<bool, JoinError>(true) <==> (
        state[at] matches RowState::Row(entity) ==> forall|i: int|
            from <= i < params[at].bound_kinds().len() ==> same_key(
                world,
                params,
                state,
                at,
                #[trigger] params[at].bound_kinds()[i],
                entity,
            )),
    decreases params[at].bound_kinds().len() - from,
{
    let keys = params[at].bound_kinds();
    if from < keys.len() {
        if let RowState::Row(entity) = state[at] {
            lemma_same_key(world, params, state, at, keys[from], entity);
            lemma_bound_matches(world, params, state, at, from + 1);
        }
    }
}

proof fn lemma_member_matches<C: RelationshipTarget>(
    world: WorldModel<C>,
    params: Seq<ParamModel>,
    state: Seq<RowState>,
    at: int,
    from: int,
)
    requires
        0 <= from,
    ensures
        member_matches(world, params, state, at, from) == Ok::<bool, JoinError>(true) <==> (
        state[at] matches RowState::Row(entity) ==> forall|i: int|
            from <= i < params[at].member_kinds().len() ==> listed(
                world,
                params,
                state,
                at,
                #[trigger] params[at].member_kinds()[i],
                entity,
            )),
    decreases params[at].member_kinds().len() - from,
{
    let keys = params[at].member_kinds();
    if from < keys.len() {
        if let RowState::Row(entity) = state[at] {
            lemma_same_key(world, params, state, at, keys[from], entity);
            lemma_member_matches(world, params, state, at, from + 1);
        }
    }
}

proof fn lemma_row_matches<C: RelationshipTarget>(
    world: WorldModel<C>,
    params: Seq<ParamModel>,
    state: Seq<RowState>,
    at: int,
)
    requires
        state[at] is Row,
    ensures
        (bound_matches(world, params, state, at, 0) == Ok::<bool, JoinError>(true)
            && member_matches(world, params, state, at, 0) == Ok::<bool, JoinError>(true))
            <==> partners(world, params, state, at, state[at]->Row_0),
{
    let entity = state[at]->Row_0;
    let keys = params[at].bound_kinds();
    let lists = params[at].member_kinds();
    lemma_bound_matches(world, params, state, at, 0);
    lemma_member_matches(world, params, state, at, 0);
    if partners(world, params, state, at, entity) {
        assert forall|i: int| 0 <= i < keys.len() implies same_key(
            world,
            params,
            state,
            at,
            #[trigger] keys[i],
            entity,
        ) by {
            lemma_asked(params[at], keys[i]);
            assert(keys.contains(keys[i]));
        }
        assert forall|i: int| 0 <= i < lists.len() implies listed(
            world,
            params,
            state,
            at,
            #[trigger] lists[i],
            entity,
        ) by {
            lemma_asked(params[at], lists[i]);
            assert(lists.contains(lists[i]));
        }
    }
    if bound_matches(world, params, state, at, 0) == Ok::<bool, JoinError>(true)
        && member_matches(world, params, state, at, 0) == Ok::<bool, JoinError>(true) {
        assert forall|key: ComponentId| #[trigger] asks_key(params[at], key) implies same_key(
            world,
            params,
            state,
            at,
            key,
            entity,
        ) by {
            lemma_asked(params[at], key);
            let i = choose|i: int| 0 <= i < keys.len() && keys[i] == key;
            assert(same_key(world, params, state, at, keys[i], entity));
        }
        assert forall|key: ComponentId| #[trigger] asks_membership(params[at], key) implies listed(
            world,
            params,
            state,
            at,
            key,
            entity,
        ) by {
            lemma_asked(params[at], key);
            let i = choose|i: int| 0 <= i < lists.len() && lists[i] == key;
            assert(listed(world, params, state, at, lists[i], entity));
        }
    }
}

proof fn lemma_same_provider(
    params: Seq<ParamModel>,
    state: Seq<RowState>,
    at: int,
    entity: Entity,
)
    requires
        0 <= at < state.len(),
    ensures
        forall|key: ComponentId, from: int| #[trigger]
            provider(params, state.update(at, RowState::Row(entity)), at, key, from) <==> provider(
                params,
                state,
                at,
                key,
                from,
            ),
{
    let other = state.update(at, RowState::Row(entity));
    assert forall|key: ComponentId, from: int| #[trigger]
        provider(params, other, at, key, from) <==> provider(params, state, at, key, from) by {
        assert forall|j: int| 0 <= j < state.len() && j != at implies #[trigger] hands_key(
            params,
            state,
            j,
            key,
        ) == hands_key(params, other, j, key) by {}
        if provider(params, other, at, key, from) {
            assert(hands_key(params, state, from, key));
            assert forall|j: int| 0 <= j < from && j != at implies !#[trigger] hands_key(
                params,
                state,
                j,
                key,
            ) by {
                assert(!hands_key(params, other, j, key));
            }
        }
        if provider(params, state, at, key, from) {
            assert(hands_key(params, other, from, key));
            assert forall|j: int| 0 <= j < from && j != at implies !#[trigger] hands_key(
                params,
                other,
                j,
                key,
            ) by {
                assert(!hands_key(params, state, j, key));
            }
        }
    }
}

proof fn lemma_pairs_up<C: RelationshipTarget>(
    world: WorldModel<C>,
    params: Seq<ParamModel>,
    state: Seq<RowState>,
    at: int,
    entity: Entity,
)
    requires
        0 <= at < state.len(),
    ensures
        pairs_up(world, params, state, at, entity) <==> partners(world, params, state, at, entity),
{
    let other = state.update(at, RowState::Row(entity));
    lemma_row_matches(world, params, other, at);
    lemma_same_provider(params, state, at, entity);
    assert forall|key: ComponentId| #[trigger]
        same_key(world, params, other, at, key, entity) <==> same_key(
            world,
            params,
            state,
            at,
            key,
            entity,
        ) by {
        if same_key(world, params, other, at, key, entity) {
            let from = choose|from: int| #[trigger]
                provider(params, other, at, key, from) && (world.entry(key, entity) matches Some(
                    mine,
                ) && (world.entry(key, other[from]->Row_0) matches Some(theirs)
                    && mine.fingerprint is Some && mine.fingerprint == theirs.fingerprint));
            assert(provider(params, state, at, key, from));
        }
        if same_key(world, params, state, at, key, entity) {
            let from = choose|from: int| #[trigger]
                provider(params, state, at, key, from) && (world.entry(key, entity) matches Some(
                    mine,
                ) && (world.entry(key, state[from]->Row_0) matches Some(theirs)
                    && mine.fingerprint is Some && mine.fingerprint == theirs.fingerprint));
            assert(provider(params, other, at, key, from));
        }
    }
    assert forall|key: ComponentId| #[trigger]
        listed(world, params, other, at, key, entity) <==> listed(
            world,
            params,
            state,
            at,
            key,
            entity,
        ) by {
        if listed(world, params, other, at, key, entity) {
            let from = choose|from: int| #[trigger]
                provider(params, other, at, key, from) && C::is_inverse(key) && world.members(
                    key,
                    other[from]->Row_0,
                ).contains(entity);
            assert(provider(params, state, at, key, from));
        }
        if listed(world, params, state, at, key, entity) {
            let from = choose|from: int| #[trigger]
                provider(params, state, at, key, from) && C::is_inverse(key) && world.members(
                    key,
                    state[from]->Row_0,
                ).contains(entity);
            assert(provider(params, other, at, key, from));
        }
    }
}

proof fn lemma_absence_matches<C: RelationshipTarget>(
    world: WorldModel<C>,
    params: Seq<ParamModel>,
    state: Seq<RowState>,
    at: int,
)
    requires
        0 <= at < state.len(),
        state[at] is Absent,
    ensures
        absence_matches(world, params, state, at) == Ok::<bool, JoinError>(true) <==> agrees(
            world,
            params,
            state,
            at,
        ),
{
    let keys = params[at].bound_kinds();
    assert(keys_provided(world, params, state, at) <==> (forall|key: ComponentId| #[trigger]
        asks_key(params[at], key) ==> comparable(world, params, state, at, key))) by {
        if keys_provided(world, params, state, at) {
            assert forall|key: ComponentId| #[trigger]
                asks_key(params[at], key) implies comparable(world, params, state, at, key) by {
                lemma_asked(params[at], key);
                let i = choose|i: int| 0 <= i < keys.len() && keys[i] == key;
                assert(first_key(world, params, state, keys[i], at, 0) matches Some(Some(_)));
                lemma_same_key(world, params, state, at, key, Entity::of(0));
            }
        }
        if forall|key: ComponentId| #[trigger]
            asks_key(params[at], key) ==> comparable(world, params, state, at, key) {
            assert forall|i: int| 0 <= i < keys.len() implies (first_key(
                world,
                params,
                state,
                #[trigger] keys[i],
                at,
                0,
            ) matches Some(Some(_))) by {
                assert(keys.contains(keys[i]));
                lemma_asked(params[at], keys[i]);
                lemma_same_key(world, params, state, at, keys[i], Entity::of(0));
            }
        }
    }
    if let ParamModel::Outer(query) = params[at] {
        assert forall|entity: Entity| #[trigger] query.rows(world).contains(entity) implies (
        pairs_up(world, params, state, at, entity) <==> partners(
            world,
            params,
            state,
            at,
            entity,
        )) by {
            lemma_pairs_up(world, params, state, at, entity);
        }
    }
}

proof fn lemma_bindings_match<C: RelationshipTarget>(
    world: WorldModel<C>,
    params: Seq<ParamModel>,
    state: Seq<RowState>,
    binding: Binding,
    at: int,
)
    requires
        0 <= at,
    ensures
        bindings_match(world, params, state, binding, at) == Ok::<bool, JoinError>(true) <==> (
        forall|i: int|
            #![trigger params[i]]
            at <= i < params.len() ==> (match binding {
                Binding::Key => bound_matches(world, params, state, i, 0),
                Binding::Membership => member_matches(world, params, state, i, 0),
                Binding::Absence => absence_matches(world, params, state, i),
            }) == Ok::<bool, JoinError>(true)),
    decreases params.len() - at,
{
    if at < params.len() {
        lemma_bindings_match(world, params, state, binding, at + 1);
        let own = params[at];
    }
}

/// A state is kept exactly when every parameter's contribution goes with the rows of
/// its siblings.
pub proof fn lemma_states_are_kept_that_agree<C: RelationshipTarget>(
    world: WorldModel<C>,
    params: Seq<ParamModel>,
    state: Seq<RowState>,
)
    requires
        state.len() == params.len(),
    ensures
        state_matches(world, params, state) == Ok::<bool, JoinError>(true) <==> (forall|i: int|
            0 <= i < params.len() ==> #[trigger] agrees(world, params, state, i)),
{
    lemma_bindings_match(world, params, state, Binding::Key, 0);
    lemma_bindings_match(world, params, state, Binding::Membership, 0);
    lemma_bindings_match(world, params, state, Binding::Absence, 0);
    assert forall|i: int| 0 <= i < params.len() implies (#[trigger] agrees(world, params, state, i)
        <==> (bound_matches(world, params, state, i, 0) == Ok::<bool, JoinError>(true)
        && member_matches(world, params, state, i, 0) == Ok::<bool, JoinError>(true)
        && absence_matches(world, params, state, i) == Ok::<bool, JoinError>(true))) by {
        match state[i] {
            RowState::Row(_) => lemma_row_matches(world, params, state, i),
            RowState::Absent => {
                lemma_absence_matches(world, params, state, i);
                lemma_bound_matches(world, params, state, i, 0);
                lemma_member_matches(world, params, state, i, 0);
            },
            RowState::Unit => {
                lemma_bound_matches(world, params, state, i, 0);
                lemma_member_matches(world, params, state, i, 0);
            },
        }
    }
    if forall|i: int| 0 <= i < params.len() ==> #[trigger] agrees(world, params, state, i) {
        assert forall|i: int| #![trigger params[i]] 0 <= i < params.len() implies (bound_matches(
            world,
            params,
            state,
            i,
            0,
        ) == Ok::<bool, JoinError>(true) && member_matches(world, params, state, i, 0) == Ok::<
            bool,
            JoinError,
        >(true) && absence_matches(world, params, state, i) == Ok::<bool, JoinError>(true)) by {
            assert(agrees(world, params, state, i));
        }
    }
    if state_matches(world, params, state) == Ok::<bool, JoinError>(true) {
        assert forall|i: int| 0 <= i < params.len() implies #[trigger] agrees(
            world,
            params,
            state,
            i,
        ) by {
            let own = params[i];
        }
    }
}

proof fn lemma_pruned<C: RelationshipTarget>(
    world: WorldModel<C>,
    params: Seq<ParamModel>,
    states: Seq<Seq<RowState>>,
    state: Seq<RowState>,
)
    requires
        pruned(world, params, states) is Ok,
    ensures
        pruned(world, params, states)->Ok_0.contains(state) <==> (states.contains(state)
            && state_matches(world, params, state) == Ok::<bool, JoinError>(true)),
    decreases states.len(),
{
    if states.len() > 0 {
        let rest = states.drop_last();
        lemma_pruned(world, params, rest, state);
        lemma_last(states, state);
        lemma_pushed(pruned(world, params, rest)->Ok_0, states.last(), state);
    }
}

proof fn lemma_expanded<C: RelationshipTarget>(
    world: WorldModel<C>,
    params: Seq<ParamModel>,
    partial: Seq<Seq<RowState>>,
    state: Seq<RowState>,
)
    requires
        expand(world, params, partial, None) is Ok,
        state.len() > 0,
    ensures
        partial.contains(state.drop_last()) ==> next_states(
            world,
            params,
            state.drop_last(),
            None,
        ) is Ok,
        expand(world, params, partial, None)->Ok_0.contains(state) <==> (partial.contains(
            state.drop_last(),
        ) && next_states(world, params, state.drop_last(), None)->Ok_0.contains(state.last())),
    decreases partial.len(),
{
    if partial.len() > 0 {
        let rest = partial.drop_last();
        let picked = partial.last();
        lemma_expanded(world, params, rest, state);
        lemma_last(partial, state.drop_last());
        let more = next_states(world, params, picked, None)->Ok_0;
        lemma_continued_members(picked, more);
        lemma_joined(
            expand(world, params, rest, None)->Ok_0,
            continued(picked, more),
            state,
        );
    }
}

proof fn lemma_prefix_provider<C: RelationshipTarget>(
    params: Seq<ParamModel>,
    state: Seq<RowState>,
    at: int,
    key: ComponentId,
    from: int,
)
    requires
        0 <= at < state.len(),
        provider(params, state.take(at), -1, key, from),
    ensures
        provider(params, state, at, key, from),
{
    let front = state.take(at);
    assert(hands_key(params, state, from, key)) by {
        assert(front[from] == state[from]);
        assert(hands_key(params, front, from, key));
    }
    assert forall|j: int| 0 <= j < from && j != at implies !#[trigger] hands_key(
        params,
        state,
        j,
        key,
    ) by {
        assert(front[j] == state[j]);
        assert(!hands_key(params, front, j, key));
    }
}

proof fn lemma_next_contribution<C: RelationshipTarget>(
    world: WorldModel<C>,
    params: Seq<ParamModel>,
    state: Seq<RowState>,
    at: int,
)
    requires
        0 <= at < state.len(),
        state.len() <= params.len(),
        next_states(world, params, state.take(at), None) is Ok,
    ensures
        next_states(world, params, state.take(at), None)->Ok_0.contains(state[at]) <==> (
        contributes(world, params[at], state[at]) && (params[at].pair_expandable() ==> agrees(
            world,
            params,
            state,
            at,
        ))),
{
    let front = state.take(at);
    let param = params[at];
    let own = state[at];
    match param {
        ParamModel::Query(query) => {
            lemma_rows_list(query, world);
            if param.pair_expandable() {
                let candidates = pair_candidates(world, params, front, query)->Ok_0;
                lemma_kept(query, world, candidates);
                lemma_row_states_members(query.kept(world, candidates), own);
                if let RowState::Row(entity) = own {
                    assert(candidates.contains(entity) <==> partners(
                        world,
                        params,
                        state,
                        at,
                        entity,
                    )) by {
                        lemma_candidates_are_partners(world, params, state, at, query, entity);
                    }
                }
            } else {
                lemma_row_states_members(query.rows(world), own);
                if let RowState::Row(entity) = own {
                    crate::entity::lemma_entity_is_its_id(entity, Entity::of(entity.id()));
                }
            }
        },
        ParamModel::Outer(query) => {
            lemma_rows_list(query, world);
            lemma_row_states_members(query.rows(world), own);
            lemma_pushed(row_states(query.rows(world)), RowState::Absent, own);
            if let RowState::Row(entity) = own {
                crate::entity::lemma_entity_is_its_id(entity, Entity::of(entity.id()));
            }
        },
        _ => {
            let only = seq![RowState::Unit];
            assert(param.states(world) == only);
            assert(only[0] == RowState::Unit);
            assert(only.contains(RowState::Unit));
        },
    }
}

proof fn lemma_candidates_are_partners<C: RelationshipTarget>(
    world: WorldModel<C>,
    params: Seq<ParamModel>,
    state: Seq<RowState>,
    at: int,
    query: crate::query::QueryModel,
    entity: Entity,
)
    requires
        0 <= at < state.len(),
        params[at] == ParamModel::Query(query),
        params[at].pair_expandable(),
        pair_candidates(world, params, state.take(at), query) is Ok,
    ensures
        pair_candidates(world, params, state.take(at), query)->Ok_0.contains(entity) <==> partners(
            world,
            params,
            state,
            at,
            entity,
        ),
{
    let front = state.take(at);
    let param = params[at];
    let candidates = pair_candidates(world, params, front, query)->Ok_0;
    let keys = query.bound_kinds();
    let lists = query.member_kinds();
    if lists.len() > 0 {
        let key = lists[0];
        lemma_provider_is_the_first_reader(world, params, front, key, -1, 0);
        let from = choose|j: int| #[trigger] provider(params, front, -1, key, j);
        lemma_provider_is_the_first_reader(world, params, front, key, -1, from);
        lemma_prefix_provider::<C>(params, state, at, key, from);
        lemma_provider_is_the_first_reader(world, params, state, key, at, from);
        lemma_same_key(world, params, state, at, key, entity);
        assert(front[from] == state[from]);
        assert(candidates.contains(entity) <==> listed(world, params, state, at, key, entity));
        assert forall|other: ComponentId| #[trigger] asks_membership(param, other) <==> other
            == key by {
            lemma_asked(param, other);
            assert(lists.contains(lists[0]));
            if lists.contains(other) {
                let i = choose|i: int| 0 <= i < lists.len() && lists[i] == other;
            }
        }
        assert forall|other: ComponentId| !#[trigger] asks_key(param, other) by {
            lemma_asked(param, other);
        }
        assert(asks_membership(param, key));
    } else {
        let key = keys[0];
        lemma_provider_is_the_first_reader(world, params, front, key, -1, 0);
        let from = choose|j: int| #[trigger] provider(params, front, -1, key, j);
        lemma_provider_is_the_first_reader(world, params, front, key, -1, from);
        lemma_prefix_provider::<C>(params, state, at, key, from);
        lemma_provider_is_the_first_reader(world, params, state, key, at, from);
        lemma_same_key(world, params, state, at, key, entity);
        assert(front[from] == state[from]);
        let fingerprint = stamp_at(world, key, state[from]->Row_0)->Some_0;
        let raw = sorted_keys(stamped_with(world.column(key), fingerprint));
        crate::model::lemma_sorted_keys_list(stamped_with(world.column(key), fingerprint));
        lemma_as_entities(raw, entity);
        assert(raw.to_set().contains(entity.id()) <==> raw.contains(entity.id()));
        assert(candidates.contains(entity) <==> stamp_at(world, key, entity) == Some(fingerprint));
        assert(candidates.contains(entity) <==> same_key(world, params, state, at, key, entity));
        assert forall|other: ComponentId| #[trigger] asks_key(param, other) <==> other == key by {
            lemma_asked(param, other);
            assert(keys.contains(keys[0]));
            if keys.contains(other) {
                let i = choose|i: int| 0 <= i < keys.len() && keys[i] == other;
            }
        }
        assert forall|other: ComponentId| !#[trigger] asks_membership(param, other) by {
            lemma_asked(param, other);
        }
        assert(asks_key(param, key));
    }
}

proof fn lemma_product_agrees<C: RelationshipTarget>(
    world: WorldModel<C>,
    params: Seq<ParamModel>,
    count: nat,
    state: Seq<RowState>,
)
    requires
        count <= params.len(),
        state.len() == params.len(),
        product(world, params, count, None) is Ok,
    ensures
        product(world, params, count, None)->Ok_0.contains(state.take(count as int)) <==> (forall|
            i: int,
        |
            #![trigger params[i]]
            0 <= i < count ==> contributes(world, params[i], state[i]) && (
            params[i].pair_expandable() ==> agrees(world, params, state, i))),
    decreases count,
{
    if count == 0 {
        let all = seq![Seq::<RowState>::empty()];
        assert(state.take(0) =~= Seq::<RowState>::empty());
        assert(all[0] == Seq::<RowState>::empty());
        assert(all.contains(state.take(0)));
    } else {
        let less = (count - 1) as nat;
        let partial = product(world, params, less, None)->Ok_0;
        lemma_product_agrees(world, params, less, state);
        let whole = state.take(count as int);
        assert(whole.drop_last() =~= state.take(less as int));
        assert(whole.last() == state[less as int]);
        lemma_expanded(world, params, partial, whole);
        if partial.contains(state.take(less as int)) {
            lemma_next_contribution(world, params, state, less as int);
        }
        let own = params[less as int];
    }
}

proof fn lemma_product_lengths<C: RelationshipTarget>(
    world: WorldModel<C>,
    params: Seq<ParamModel>,
    count: nat,
    state: Seq<RowState>,
)
    requires
        count <= params.len(),
        product(world, params, count, None) is Ok,
        product(world, params, count, None)->Ok_0.contains(state),
    ensures
        state.len() == count,
    decreases count,
{
    if count > 0 {
        let less = (count - 1) as nat;
        let partial = product(world, params, less, None)->Ok_0;
        if state.len() == 0 {
            lemma_expanded_is_longer(world, params, partial, state);
        }
        lemma_expanded(world, params, partial, state);
        lemma_product_lengths(world, params, less, state.drop_last());
    }
}

proof fn lemma_expanded_is_longer<C: RelationshipTarget>(
    world: WorldModel<C>,
    params: Seq<ParamModel>,
    partial: Seq<Seq<RowState>>,
    state: Seq<RowState>,
)
    requires
        expand(world, params, partial, None) is Ok,
        expand(world, params, partial, None)->Ok_0.contains(state),
    ensures
        state.len() > 0,
    decreases partial.len(),
{
    if partial.len() > 0 {
        let rest = partial.drop_last();
        let picked = partial.last();
        let done = expand(world, params, rest, None)->Ok_0;
        let more = next_states(world, params, picked, None)->Ok_0;
        lemma_continued_members(picked, more);
        lemma_joined(done, continued(picked, more), state);
        if done.contains(state) {
            lemma_expanded_is_longer(world, params, rest, state);
        }
    }
}

/// The states of a system are exactly the combinations of its parameters' rows that
/// agree: with a bound key, rows that carry the same fingerprint; with a membership,
/// rows that the provider lists; and an outer join goes without a row exactly where
/// none of its rows would agree.
pub proof fn lemma_joins_give_what_agrees<C: RelationshipTarget>(
    world: WorldModel<C>,
    params: Seq<ParamModel>,
    state: Seq<RowState>,
)
    requires
        system_states(world, params) is Ok,
        forall|i: int|
            0 <= i < params.len() ==> ((#[trigger] params[i]) is Outer ==> exists|key: ComponentId|
                #[trigger]
                asks_key(params[i], key)),
    ensures
        system_states(world, params)->Ok_0.contains(state) <==> {
            &&& state.len() == params.len()
            &&& forall|i: int|
                #![trigger params[i]]
                0 <= i < params.len() ==> contributes(world, params[i], state[i]) && agrees(
                    world,
                    params,
                    state,
                    i,
                )
        },
{
    let count = params.len();
    let all = product(world, params, count, None)->Ok_0;
    if all.contains(state) {
        lemma_product_lengths(world, params, count, state);
    }
    if state.len() == count {
        lemma_product_agrees(world, params, count, state);
        assert(state.take(count as int) =~= state);
        lemma_states_are_kept_that_agree(world, params, state);
        if forall|i: int| 0 <= i < params.len() ==> #[trigger] agrees(world, params, state, i) {
            assert forall|i: int| #![trigger params[i]] 0 <= i < params.len() implies agrees(
                world,
                params,
                state,
                i,
            ) by {}
        }
        if !needs_prune(params) {
            assert forall|i: int|
                #![trigger params[i]]
                0 <= i < params.len() && contributes(world, params[i], state[i])
                    && !params[i].pair_expandable() implies agrees(world, params, state, i) by {
                let param = params[i];
                assert(param.bound_kinds().len() + param.member_kinds().len() == 0);
                assert forall|key: ComponentId| !#[trigger] asks_key(param, key)
                    && !asks_membership(param, key) by {
                    lemma_asked(param, key);
                }
                assert forall|key: ComponentId| !#[trigger] asks_membership(param, key) by {
                    lemma_asked(param, key);
                }
            }
        }
    }
    if needs_prune(params) {
        lemma_pruned(world, params, all, state);
    }
}

} // verus!
