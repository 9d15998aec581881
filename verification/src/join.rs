//! Enumeration of a system's states: products, pair-driven joins and their
//! bindings.

use crate::access::Access;
use crate::component::{ComponentId, RelationshipTarget};
use crate::entity::Entity;
use crate::model::WorldModel;
use crate::param::{
    absence_matches, always_runs, bindings_match, bound_matches, continued, drivers, expand,
    first_key, first_members, hinted_states, member_matches, needs_prune, next_states,
    pair_candidates, pairs_up, params_view, product, pruned, query_interest, row_states,
    state_access, state_admitted, state_deps, state_keys, state_matches, states_view,
    system_delta_shape, system_states, unpaired, watched, Binding, BindingError, DeltaShape, JoinError, Param,
    ParamModel, RowState,
};
use crate::query::{lemma_kept, lemma_rows_list, Dep, RowFilter, RowQuery};
use crate::world::World;
use vstd::prelude::*;

verus! {

fn rows_as_states(rows: &Vec<Entity>) -> (states: Vec<RowState>)
    ensures
        states@ == row_states(rows@),
{
    let mut states: Vec<RowState> = Vec::new();
    let mut i: usize = 0;
    while i < rows.len()
        invariant
            i <= rows@.len(),
            states@ =~= row_states(rows@).take(i as int),
        decreases rows@.len() - i,
    {
        states.push(RowState::Row(rows[i]));
        i = i + 1;
    }
    assert(states@ =~= row_states(rows@));
    states
}

fn unit_state() -> (states: Vec<RowState>)
    ensures
        states@ == seq![RowState::Unit],
{
    let mut states: Vec<RowState> = Vec::new();
    states.push(RowState::Unit);
    assert(states@ =~= seq![RowState::Unit]);
    states
}

impl Param {
    /// The states the parameter enumerates on its own.
    pub fn states<C: RelationshipTarget>(&self, world: &World<C>) -> (states: Vec<RowState>)
        requires
            world.wf(),
        ensures
            states@ == self@.states(world@),
    {
        match self {
            Param::Query(query) => rows_as_states(&query.rows(world)),
            Param::Outer(query) => {
                let mut states = rows_as_states(&query.rows(world));
                states.push(RowState::Absent);
                states
            },
            _ => unit_state(),
        }
    }

    /// The states restricted to candidate rows.
    pub fn states_hinted<C: RelationshipTarget>(&self, world: &World<C>, hint: &Vec<Entity>) -> (states:
        Vec<RowState>)
        requires
            world.wf(),
        ensures
            states@ == self@.states_hinted(world@, hint@),
    {
        match self {
            Param::Query(query) => rows_as_states(&query.rows_from_candidates(world, hint)),
            _ => self.states(world),
        }
    }

    /// The tracked inputs a state observes.
    pub fn deps<C: RelationshipTarget>(&self, world: &World<C>, state: RowState) -> (deps: Vec<Dep>)
        requires
            self@.admits(world@, state),
        ensures
            deps@ == self@.deps(world@, state),
    {
        match (self, state) {
            (Param::Query(query), RowState::Row(entity)) => query.deps(world, entity),
            (Param::Outer(query), RowState::Row(entity)) => query.deps(world, entity),
            (Param::Outer(query), RowState::Absent) => query.absence_deps(world),
            _ => Vec::new(),
        }
    }

    /// The rows a state touches.
    pub fn access(&self, state: RowState) -> (access: Vec<Access>)
        ensures
            access@ == self@.access(state),
    {
        match (self, state) {
            (Param::Query(query), RowState::Row(entity)) => query.access_for(Some(entity)),
            (Param::Outer(query), RowState::Row(entity)) => query.access_for(Some(entity)),
            (Param::Outer(query), RowState::Absent) => query.access_for(None),
            (Param::View(query), _) => query.access_for(None),
            _ => Vec::new(),
        }
    }

    /// The join keys of the parameter's filter.
    pub fn bound_components(&self) -> (kinds: Vec<ComponentId>)
        ensures
            kinds@ == self@.bound_kinds(),
    {
        match self {
            Param::Query(query) => query.bound_components(),
            Param::Outer(query) => query.bound_components(),
            Param::View(query) => query.bound_components(),
            _ => Vec::new(),
        }
    }

    /// The inverses the parameter's rows are drawn from.
    pub fn member_components(&self) -> (kinds: Vec<ComponentId>)
        ensures
            kinds@ == self@.member_kinds(),
    {
        match self {
            Param::Query(query) => query.member_components(),
            _ => Vec::new(),
        }
    }

    /// Whether planning enumerates the parameter's rows from a sibling
    /// provider's pair list.
    pub fn pair_expandable(&self) -> (expandable: bool)
        ensures
            expandable == self@.pair_expandable(),
    {
        match self {
            Param::Query(query) => {
                let bound = query.bound_components().len();
                let member = query.member_components().len();
                (bound == 1 && member == 0) || (bound == 0 && member == 1)
            },
            _ => false,
        }
    }

    /// Whether the parameter's row data reads `key`.
    pub fn provides_key(&self, key: ComponentId) -> (provides: bool)
        ensures
            provides == self@.provides(key),
    {
        match self {
            Param::Query(query) => query.provides_key(key),
            _ => false,
        }
    }

    /// The fingerprint of `key` on the parameter's row, when it reads `key`.
    pub fn provided_key<C: RelationshipTarget>(
        &self,
        world: &World<C>,
        state: RowState,
        key: ComponentId,
    ) -> (provided: Option<Option<u64>>)
        ensures
            provided == self@.provided_key(world@, state, key),
    {
        match state {
            RowState::Row(entity) => if self.provides_key(key) {
                Some(world.fingerprint(key, entity))
            } else {
                None
            },
            _ => None,
        }
    }

    /// The members listed by inverse `key` on the parameter's row, when it
    /// reads `key`.
    pub fn provided_members<C: RelationshipTarget>(
        &self,
        world: &World<C>,
        state: RowState,
        key: ComponentId,
    ) -> (provided: Option<Vec<Entity>>)
        ensures
            match provided {
                Some(members) => self@.provided_members(world@, state, key) == Some(members@),
                None => self@.provided_members(world@, state, key) is None,
            },
    {
        match state {
            RowState::Row(entity) => if self.provides_key(key) && C::inverse_component(key) {
                Some(world.members(key, entity))
            } else {
                None
            },
            _ => None,
        }
    }

    /// The parameter's relation to delta planning.
    pub fn delta_shape(&self) -> (shape: DeltaShape)
        ensures
            shape == self@.delta_shape(),
    {
        match self {
            Param::Query(query) => if query.bound_components().len() == 0
                && query.member_components().len() == 0 {
                DeltaShape::Driver
            } else {
                DeltaShape::Opaque
            },
            Param::Outer(_) => DeltaShape::Opaque,
            Param::View(_) => DeltaShape::Inert,
            Param::Commands(_) => DeltaShape::Inert,
            Param::Meta => DeltaShape::Opaque,
        }
    }

    /// The stores whose movement can change the parameter's rows or inputs.
    pub fn interest_types(&self) -> (interest: Option<Vec<ComponentId>>)
        ensures
            match interest {
                Some(interest) => self@.interest() == Some(interest@),
                None => self@.interest() is None,
            },
    {
        match self {
            Param::Query(query) => interest_of(query),
            Param::Outer(query) => interest_of(query),
            Param::View(_) => Some(Vec::new()),
            Param::Commands(_) => Some(Vec::new()),
            Param::Meta => None,
        }
    }

    /// Rejection of unsupported filter shapes.
    pub fn validate_local(&self) -> (outcome: Result<(), BindingError>)
        ensures
            match outcome {
                Ok(_) => self@.local_error() is None,
                Err(error) => self@.local_error() == Some(error),
            },
    {
        match self {
            Param::Outer(query) => if query.bound_components().len() == 0 {
                Err(BindingError::OuterUnbound)
            } else {
                Ok(())
            },
            Param::View(query) => {
                let bound = query.bound_components();
                if bound.len() > 0 {
                    Err(BindingError::ViewBound(bound[0]))
                } else {
                    Ok(())
                }
            },
            _ => Ok(()),
        }
    }
}

fn interest_of(query: &RowQuery) -> (interest: Option<Vec<ComponentId>>)
    ensures
        match interest {
            Some(interest) => query_interest(query@) == Some(interest@),
            None => query_interest(query@) is None,
        },
{
    if query.parts.len() == 0 {
        return None;
    }
    let mut interest = query.part_kinds();
    let ghost first = interest@;
    let ghost second = watched(query@.filters);
    let mut i: usize = 0;
    while i < query.filters.len()
        invariant
            i <= query.filters@.len(),
            second == watched(query@.filters),
            interest@ =~= first + second.take(i as int),
        decreases query.filters@.len() - i,
    {
        let kind: ComponentId = match query.filters[i] {
            RowFilter::With(kind) => kind,
            RowFilter::Without(kind) => kind,
            RowFilter::Bound(kind) => kind,
            RowFilter::Member(kind) => kind,
            RowFilter::Anchor(kind) => kind,
            RowFilter::Maybe(kind) => kind,
        };
        assert(second[i as int] == kind);
        interest.push(kind);
        i = i + 1;
    }
    assert(second.take(query.filters@.len() as int) =~= second);
    Some(interest)
}

/// The first fingerprint that one of the picked parameters, other than
/// `except`, provides for `key`.
fn find_key<C: RelationshipTarget>(
    world: &World<C>,
    params: &Vec<Param>,
    picked: &Vec<RowState>,
    key: ComponentId,
    except: usize,
) -> (provided: Option<Option<u64>>)
    requires
        picked@.len() <= params@.len(),
    ensures
        provided == first_key(world@, params_view(params@), picked@, key, except as int, 0),
{
    let mut i: usize = 0;
    while i < picked.len()
        invariant
            i <= picked@.len(),
            picked@.len() <= params@.len(),
            first_key(world@, params_view(params@), picked@, key, except as int, 0) == first_key(
                world@,
                params_view(params@),
                picked@,
                key,
                except as int,
                i as int,
            ),
        decreases picked@.len() - i,
    {
        assert(params_view(params@)[i as int] == params@[i as int]@);
        if i != except {
            let provided = params[i].provided_key(world, picked[i], key);
            if provided.is_some() {
                return provided;
            }
        }
        i = i + 1;
    }
    None
}

/// The first member list that one of the picked parameters, other than
/// `except`, provides for `key`.
fn find_members<C: RelationshipTarget>(
    world: &World<C>,
    params: &Vec<Param>,
    picked: &Vec<RowState>,
    key: ComponentId,
    except: usize,
) -> (provided: Option<Vec<Entity>>)
    requires
        picked@.len() <= params@.len(),
    ensures
        match provided {
            Some(members) => first_members(
                world@,
                params_view(params@),
                picked@,
                key,
                except as int,
                0,
            ) == Some(members@),
            None => first_members(
                world@,
                params_view(params@),
                picked@,
                key,
                except as int,
                0,
            ) is None,
        },
{
    let mut i: usize = 0;
    while i < picked.len()
        invariant
            i <= picked@.len(),
            picked@.len() <= params@.len(),
            first_members(world@, params_view(params@), picked@, key, except as int, 0)
                == first_members(
                world@,
                params_view(params@),
                picked@,
                key,
                except as int,
                i as int,
            ),
        decreases picked@.len() - i,
    {
        assert(params_view(params@)[i as int] == params@[i as int]@);
        if i != except {
            let provided = params[i].provided_members(world, picked[i], key);
            if provided.is_some() {
                return provided;
            }
        }
        i = i + 1;
    }
    None
}

proof fn lemma_except_beyond<C: RelationshipTarget>(
    world: WorldModel<C>,
    params: Seq<ParamModel>,
    picked: Seq<RowState>,
    key: ComponentId,
    except: int,
    from: int,
)
    requires
        except >= picked.len(),
        0 <= from,
    ensures
        first_key(world, params, picked, key, except, from) == first_key(
            world,
            params,
            picked,
            key,
            -1,
            from,
        ),
        first_members(world, params, picked, key, except, from) == first_members(
            world,
            params,
            picked,
            key,
            -1,
            from,
        ),
    decreases picked.len() - from,
{
    if from < picked.len() {
        lemma_except_beyond(world, params, picked, key, except, from + 1);
    }
}

/// The rows a joined query pairs with the rows picked before it.
fn find_pairs<C: RelationshipTarget>(
    world: &World<C>,
    params: &Vec<Param>,
    picked: &Vec<RowState>,
    query: &RowQuery,
) -> (candidates: Result<Vec<Entity>, JoinError>)
    requires
        world.wf(),
        picked@.len() <= params@.len(),
        query@.bound_kinds().len() + query@.member_kinds().len() == 1,
    ensures
        match candidates {
            Ok(candidates) => pair_candidates(world@, params_view(params@), picked@, query@) == Ok::<
                Seq<Entity>,
                JoinError,
            >(candidates@),
            Err(error) => pair_candidates(world@, params_view(params@), picked@, query@) == Err::<
                Seq<Entity>,
                JoinError,
            >(error),
        },
{
    let member = query.member_components();
    if member.len() > 0 {
        proof {
            lemma_except_beyond(
                world@,
                params_view(params@),
                picked@,
                member@[0],
                params@.len() as int,
                0,
            );
        }
        match find_members(world, params, picked, member[0], params.len()) {
            Some(members) => Ok(members),
            None => Err(JoinError::ProviderMustPrecede),
        }
    } else {
        let bound = query.bound_components();
        proof {
            lemma_except_beyond(
                world@,
                params_view(params@),
                picked@,
                bound@[0],
                params@.len() as int,
                0,
            );
        }
        match find_key(world, params, picked, bound[0], params.len()) {
            Some(Some(fingerprint)) => Ok(world.fingerprint_candidates(bound[0], fingerprint)),
            Some(None) => Err(JoinError::ProviderNotHashed),
            None => Err(JoinError::ProviderMustPrecede),
        }
    }
}

/// A hint, as a sequence.
pub open spec fn hint_view(hint: Option<&Vec<Entity>>) -> Option<Seq<Entity>> {
    match hint {
        Some(hint) => Some(hint@),
        None => None,
    }
}

/// The states of the next parameter, given the rows picked before it.
fn find_next<C: RelationshipTarget>(
    world: &World<C>,
    params: &Vec<Param>,
    picked: &Vec<RowState>,
    hint: Option<&Vec<Entity>>,
) -> (states: Result<Vec<RowState>, JoinError>)
    requires
        world.wf(),
        picked@.len() < params@.len(),
    ensures
        match states {
            Ok(states) => next_states(world@, params_view(params@), picked@, hint_view(hint)) == Ok::<
                Seq<RowState>,
                JoinError,
            >(states@),
            Err(error) => next_states(world@, params_view(params@), picked@, hint_view(hint))
                == Err::<Seq<RowState>, JoinError>(error),
        },
{
    let param = &params[picked.len()];
    assert(params_view(params@)[picked@.len() as int] == param@);
    match hint {
        Some(hint) => Ok(param.states_hinted(world, hint)),
        None => match param {
            Param::Query(query) => if param.pair_expandable() {
                match find_pairs(world, params, picked, query) {
                    Ok(candidates) => Ok(
                        rows_as_states(&query.rows_from_candidates(world, &candidates)),
                    ),
                    Err(error) => Err(error),
                }
            } else {
                Ok(param.states(world))
            },
            _ => Ok(param.states(world)),
        },
    }
}

fn push_state(picked: &Vec<RowState>, state: RowState) -> (longer: Vec<RowState>)
    ensures
        longer@ == picked@.push(state),
{
    let mut longer: Vec<RowState> = Vec::new();
    let mut i: usize = 0;
    while i < picked.len()
        invariant
            i <= picked@.len(),
            longer@ =~= picked@.take(i as int),
        decreases picked@.len() - i,
    {
        longer.push(picked[i]);
        i = i + 1;
    }
    assert(picked@.take(picked@.len() as int) =~= picked@);
    longer.push(state);
    longer
}

/// Continues every partial state by the states of the next parameter.
fn expand_all<C: RelationshipTarget>(
    world: &World<C>,
    params: &Vec<Param>,
    partial: &Vec<Vec<RowState>>,
    hint: Option<&Vec<Entity>>,
) -> (states: Result<Vec<Vec<RowState>>, JoinError>)
    requires
        world.wf(),
        forall|i: int| 0 <= i < partial@.len() ==> (#[trigger] partial@[i])@.len() < params@.len(),
    ensures
        match states {
            Ok(states) => expand(
                world@,
                params_view(params@),
                states_view(partial@),
                hint_view(hint),
            ) == Ok::<Seq<Seq<RowState>>, JoinError>(states_view(states@)),
            Err(error) => expand(
                world@,
                params_view(params@),
                states_view(partial@),
                hint_view(hint),
            ) == Err::<Seq<Seq<RowState>>, JoinError>(error),
        },
{
    let ghost all = states_view(partial@);
    let ghost models = params_view(params@);
    let mut states: Vec<Vec<RowState>> = Vec::new();
    let mut i: usize = 0;
    assert(all.take(0) =~= Seq::<Seq<RowState>>::empty());
    assert(states_view(states@) =~= Seq::<Seq<RowState>>::empty());
    while i < partial.len()
        invariant
            world.wf(),
            i <= partial@.len(),
            all == states_view(partial@),
            models == params_view(params@),
            forall|j: int|
                0 <= j < partial@.len() ==> (#[trigger] partial@[j])@.len() < params@.len(),
            expand(world@, models, all.take(i as int), hint_view(hint)) == Ok::<
                Seq<Seq<RowState>>,
                JoinError,
            >(states_view(states@)),
        decreases partial@.len() - i,
    {
        assert(all.take(i + 1).drop_last() =~= all.take(i as int));
        assert(all.take(i + 1).last() == partial@[i as int]@);
        assert(partial@[i as int]@.len() < params@.len());
        let more = match find_next(world, params, &partial[i], hint) {
            Ok(more) => more,
            Err(error) => {
                proof {
                    lemma_expand_error(world@, models, all, i + 1, hint_view(hint), error);
                }
                return Err(error);
            },
        };
        let ghost done = states@;
        let ghost appended = continued(partial@[i as int]@, more@);
        let mut n: usize = 0;
        while n < more.len()
            invariant
                n <= more@.len(),
                i < partial@.len(),
                appended == continued(partial@[i as int]@, more@),
                states_view(states@) =~= states_view(done) + appended.take(n as int),
            decreases more@.len() - n,
        {
            let longer = push_state(&partial[i], more[n]);
            let ghost before = states@;
            states.push(longer);
            assert(states_view(states@) =~= states_view(before).push(longer@));
            assert(appended[n as int] == longer@);
            n = n + 1;
        }
        assert(appended.take(more@.len() as int) =~= appended);
        i = i + 1;
    }
    assert(all.take(all.len() as int) =~= all);
    Ok(states)
}

proof fn lemma_expand_error<C: RelationshipTarget>(
    world: WorldModel<C>,
    params: Seq<ParamModel>,
    partial: Seq<Seq<RowState>>,
    n: int,
    hint: Option<Seq<Entity>>,
    error: JoinError,
)
    requires
        0 <= n <= partial.len(),
        expand(world, params, partial.take(n), hint) == Err::<Seq<Seq<RowState>>, JoinError>(error),
    ensures
        expand(world, params, partial, hint) == Err::<Seq<Seq<RowState>>, JoinError>(error),
    decreases partial.len() - n,
{
    if n < partial.len() {
        assert(partial.take(n + 1).drop_last() =~= partial.take(n));
        lemma_expand_error(world, params, partial, n + 1, hint, error);
    } else {
        assert(partial.take(n) =~= partial);
    }
}

/// The product of all parameters' states, in nesting order.
fn full_product<C: RelationshipTarget>(
    world: &World<C>,
    params: &Vec<Param>,
    hint: Option<&Vec<Entity>>,
) -> (states: Result<Vec<Vec<RowState>>, JoinError>)
    requires
        world.wf(),
    ensures
        match states {
            Ok(states) => product(world@, params_view(params@), params@.len(), hint_view(hint))
                == Ok::<Seq<Seq<RowState>>, JoinError>(states_view(states@)),
            Err(error) => product(world@, params_view(params@), params@.len(), hint_view(hint))
                == Err::<Seq<Seq<RowState>>, JoinError>(error),
        },
{
    let ghost models = params_view(params@);
    let mut states: Vec<Vec<RowState>> = Vec::new();
    let start: Vec<RowState> = Vec::new();
    assert(start@ =~= Seq::<RowState>::empty());
    states.push(start);
    assert(states_view(states@) =~= seq![Seq::<RowState>::empty()]);
    let mut count: usize = 0;
    while count < params.len()
        invariant
            world.wf(),
            count <= params@.len(),
            models == params_view(params@),
            forall|j: int| 0 <= j < states@.len() ==> (#[trigger] states@[j])@.len() == count,
            product(world@, models, count as nat, hint_view(hint)) == Ok::<
                Seq<Seq<RowState>>,
                JoinError,
            >(states_view(states@)),
        decreases params@.len() - count,
    {
        let ghost partial = states_view(states@);
        let longer = expand_all(world, params, &states, hint);
        count = count + 1;
        match longer {
            Ok(longer) => {
                proof {
                    lemma_expanded_length(world@, models, partial, hint_view(hint), count - 1);
                    let expanded = expand(world@, models, partial, hint_view(hint))->Ok_0;
                    assert(expanded == states_view(longer@));
                    assert forall|j: int| 0 <= j < longer@.len() implies (
                    #[trigger] longer@[j])@.len() == count by {
                        assert(expanded[j] == longer@[j]@);
                        assert(expanded[j].len() == count);
                    }
                }
                states = longer;
            },
            Err(error) => {
                proof {
                    lemma_product_error(
                        world@,
                        models,
                        count as nat,
                        params@.len(),
                        hint_view(hint),
                        error,
                    );
                }
                return Err(error);
            },
        }
    }
    Ok(states)
}

proof fn lemma_expanded_length<C: RelationshipTarget>(
    world: WorldModel<C>,
    params: Seq<ParamModel>,
    partial: Seq<Seq<RowState>>,
    hint: Option<Seq<Entity>>,
    count: int,
)
    requires
        forall|j: int| 0 <= j < partial.len() ==> (#[trigger] partial[j]).len() == count,
        expand(world, params, partial, hint) is Ok,
    ensures
        forall|j: int|
            0 <= j < expand(world, params, partial, hint)->Ok_0.len() ==> (#[trigger] expand(
                world,
                params,
                partial,
                hint,
            )->Ok_0[j]).len() == count + 1,
    decreases partial.len(),
{
    if partial.len() > 0 {
        let rest = partial.drop_last();
        assert forall|j: int| 0 <= j < rest.len() implies (#[trigger] rest[j]).len() == count by {
            assert(rest[j] == partial[j]);
        }
        lemma_expanded_length(world, params, rest, hint, count);
        let done = expand(world, params, rest, hint)->Ok_0;
        let all = expand(world, params, partial, hint)->Ok_0;
        assert(partial[partial.len() - 1].len() == count);
        assert forall|j: int| 0 <= j < all.len() implies (#[trigger] all[j]).len() == count + 1 by {
            if j < done.len() {
                assert(all[j] == done[j]);
            }
        }
    }
}

proof fn lemma_product_error<C: RelationshipTarget>(
    world: WorldModel<C>,
    params: Seq<ParamModel>,
    n: nat,
    m: nat,
    hint: Option<Seq<Entity>>,
    error: JoinError,
)
    requires
        n <= m,
        product(world, params, n, hint) == Err::<Seq<Seq<RowState>>, JoinError>(error),
    ensures
        product(world, params, m, hint) == Err::<Seq<Seq<RowState>>, JoinError>(error),
    decreases m - n,
{
    if n < m {
        lemma_product_error(world, params, n + 1, m, hint, error);
    }
}

/// Whether parameter `at` meets its bound keys against the rows of its siblings.
fn check_bound<C: RelationshipTarget>(
    world: &World<C>,
    params: &Vec<Param>,
    state: &Vec<RowState>,
    at: usize,
) -> (matched: Result<bool, JoinError>)
    requires
        at < params@.len(),
        state@.len() == params@.len(),
    ensures
        matched == bound_matches(world@, params_view(params@), state@, at as int, 0),
{
    let ghost models = params_view(params@);
    assert(models[at as int] == params@[at as int]@);
    let keys = params[at].bound_components();
    let entity = match state[at] {
        RowState::Row(entity) => entity,
        _ => {
            return Ok(true);
        },
    };
    let mut i: usize = 0;
    while i < keys.len()
        invariant
            i <= keys@.len(),
            at < params@.len(),
            state@.len() == params@.len(),
            models == params_view(params@),
            keys@ == models[at as int].bound_kinds(),
            state@[at as int] == RowState::Row(entity),
            bound_matches(world@, models, state@, at as int, 0) == bound_matches(
                world@,
                models,
                state@,
                at as int,
                i as int,
            ),
        decreases keys@.len() - i,
    {
        let fingerprint: u64 = match world.fingerprint(keys[i], entity) {
            Some(fingerprint) => fingerprint,
            None => {
                return Err(JoinError::KeyNotHashed);
            },
        };
        match find_key(world, params, state, keys[i], at) {
            Some(Some(provider)) => {
                if provider != fingerprint {
                    return Ok(false);
                }
            },
            Some(None) => {
                return Err(JoinError::ProviderNotHashed);
            },
            None => {
                return Ok(false);
            },
        }
        i = i + 1;
    }
    Ok(true)
}

/// Whether parameter `at` meets its membership keys.
fn check_members<C: RelationshipTarget>(
    world: &World<C>,
    params: &Vec<Param>,
    state: &Vec<RowState>,
    at: usize,
) -> (matched: Result<bool, JoinError>)
    requires
        at < params@.len(),
        state@.len() == params@.len(),
    ensures
        matched == member_matches(world@, params_view(params@), state@, at as int, 0),
{
    let ghost models = params_view(params@);
    assert(models[at as int] == params@[at as int]@);
    let keys = params[at].member_components();
    let entity = match state[at] {
        RowState::Row(entity) => entity,
        _ => {
            return Ok(true);
        },
    };
    let mut i: usize = 0;
    while i < keys.len()
        invariant
            i <= keys@.len(),
            at < params@.len(),
            state@.len() == params@.len(),
            models == params_view(params@),
            keys@ == models[at as int].member_kinds(),
            state@[at as int] == RowState::Row(entity),
            member_matches(world@, models, state@, at as int, 0) == member_matches(
                world@,
                models,
                state@,
                at as int,
                i as int,
            ),
        decreases keys@.len() - i,
    {
        match find_members(world, params, state, keys[i], at) {
            Some(members) => {
                let found = crate::invocation::position_of(&members, entity);
                if found.is_none() {
                    return Ok(false);
                }
                assert(members@.contains(entity));
            },
            None => {
                return Err(JoinError::ProviderNotInverse);
            },
        }
        i = i + 1;
    }
    Ok(true)
}

/// Whether no row of an outer join pairs up with the rows of its siblings: each
/// row fails at least one key.
pub fn absent_binding_matches<C: RelationshipTarget>(
    world: &World<C>,
    params: &Vec<Param>,
    state: &Vec<RowState>,
    at: usize,
) -> (holds: bool)
    requires
        world.wf(),
        at < params@.len(),
        state@.len() == params@.len(),
    ensures
        holds == unpaired(world@, params_view(params@), state@, at as int),
{
    let ghost models = params_view(params@);
    assert(models[at as int] == params@[at as int]@);
    let query = match &params[at] {
        Param::Outer(query) => query,
        _ => {
            return true;
        },
    };
    let rows = query.rows(world);
    let mut i: usize = 0;
    while i < rows.len()
        invariant
            world.wf(),
            i <= rows@.len(),
            at < params@.len(),
            state@.len() == params@.len(),
            models == params_view(params@),
            models[at as int] == ParamModel::Outer(query@),
            rows@ == query@.rows(world@),
            forall|j: int|
                0 <= j < i ==> !pairs_up(world@, models, state@, at as int, #[trigger] rows@[j]),
        decreases rows@.len() - i,
    {
        let mut paired = copy_state(state);
        paired.set(at, RowState::Row(rows[i]));
        let bound = match check_bound(world, params, &paired, at) {
            Ok(true) => true,
            _ => false,
        };
        let listed = match check_members(world, params, &paired, at) {
            Ok(true) => true,
            _ => false,
        };
        if bound && listed {
            assert(query@.rows(world@).contains(rows@[i as int]));
            assert(pairs_up(world@, models, state@, at as int, rows@[i as int]));
            return false;
        }
        i = i + 1;
    }
    true
}

/// Whether the absence that parameter `at` stands for is real.
fn check_absence<C: RelationshipTarget>(
    world: &World<C>,
    params: &Vec<Param>,
    state: &Vec<RowState>,
    at: usize,
) -> (matched: Result<bool, JoinError>)
    requires
        world.wf(),
        at < params@.len(),
        state@.len() == params@.len(),
    ensures
        matched == absence_matches(world@, params_view(params@), state@, at as int),
{
    let ghost models = params_view(params@);
    assert(models[at as int] == params@[at as int]@);
    let keys = params[at].bound_components();
    match state[at] {
        RowState::Absent => {},
        _ => {
            return Ok(true);
        },
    }
    let mut i: usize = 0;
    while i < keys.len()
        invariant
            i <= keys@.len(),
            at < params@.len(),
            state@.len() == params@.len(),
            models == params_view(params@),
            keys@ == models[at as int].bound_kinds(),
            state@[at as int] == RowState::Absent,
            forall|j: int|
                0 <= j < i ==> (first_key(
                    world@,
                    models,
                    state@,
                    #[trigger] models[at as int].bound_kinds()[j],
                    at as int,
                    0,
                ) matches Some(Some(_))),
        decreases keys@.len() - i,
    {
        match find_key(world, params, state, keys[i], at) {
            Some(Some(_)) => {},
            _ => {
                assert(models[at as int].bound_kinds()[i as int] == keys@[i as int]);
                return Err(JoinError::ProviderNotHashed);
            },
        }
        i = i + 1;
    }
    Ok(absent_binding_matches(world, params, state, at))
}

fn check_bindings<C: RelationshipTarget>(
    world: &World<C>,
    params: &Vec<Param>,
    state: &Vec<RowState>,
    binding: Binding,
) -> (matched: Result<bool, JoinError>)
    requires
        world.wf(),
        state@.len() == params@.len(),
    ensures
        matched == bindings_match(world@, params_view(params@), state@, binding, 0),
{
    let ghost models = params_view(params@);
    let mut at: usize = 0;
    while at < params.len()
        invariant
            world.wf(),
            at <= params@.len(),
            state@.len() == params@.len(),
            models == params_view(params@),
            bindings_match(world@, models, state@, binding, 0) == bindings_match(
                world@,
                models,
                state@,
                binding,
                at as int,
            ),
        decreases params@.len() - at,
    {
        let here = match binding {
            Binding::Key => check_bound(world, params, state, at),
            Binding::Membership => check_members(world, params, state, at),
            Binding::Absence => check_absence(world, params, state, at),
        };
        match here {
            Ok(true) => {},
            other => {
                return other;
            },
        }
        at = at + 1;
    }
    Ok(true)
}

/// Whether a state satisfies every binding: bound keys, then memberships, then
/// absences.
pub fn binding_matches<C: RelationshipTarget>(
    world: &World<C>,
    params: &Vec<Param>,
    state: &Vec<RowState>,
) -> (matched: Result<bool, JoinError>)
    requires
        world.wf(),
        state@.len() == params@.len(),
    ensures
        matched == state_matches(world@, params_view(params@), state@),
{
    match check_bindings(world, params, state, Binding::Key) {
        Ok(true) => match check_bindings(world, params, state, Binding::Membership) {
            Ok(true) => check_bindings(world, params, state, Binding::Absence),
            other => other,
        },
        other => other,
    }
}

/// Whether the product has to be pruned.
fn prune_needed(params: &Vec<Param>) -> (needed: bool)
    ensures
        needed == needs_prune(params_view(params@)),
{
    let ghost models = params_view(params@);
    let mut i: usize = 0;
    while i < params.len()
        invariant
            i <= params@.len(),
            models == params_view(params@),
            forall|j: int|
                0 <= j < i ==> !((#[trigger] models[j]).bound_kinds().len()
                    + models[j].member_kinds().len() > 0 && !models[j].pair_expandable()),
        decreases params@.len() - i,
    {
        assert(models[i as int] == params@[i as int]@);
        let joined = params[i].bound_components().len() > 0 || params[i].member_components().len()
            > 0;
        if joined && !params[i].pair_expandable() {
            assert(models[i as int].bound_kinds().len() + models[i as int].member_kinds().len() > 0
                && !models[i as int].pair_expandable());
            return true;
        }
        i = i + 1;
    }
    false
}

proof fn lemma_pruned_error<C: RelationshipTarget>(
    world: WorldModel<C>,
    params: Seq<ParamModel>,
    states: Seq<Seq<RowState>>,
    n: int,
    error: JoinError,
)
    requires
        0 <= n <= states.len(),
        pruned(world, params, states.take(n)) == Err::<Seq<Seq<RowState>>, JoinError>(error),
    ensures
        pruned(world, params, states) == Err::<Seq<Seq<RowState>>, JoinError>(error),
    decreases states.len() - n,
{
    if n < states.len() {
        assert(states.take(n + 1).drop_last() =~= states.take(n));
        lemma_pruned_error(world, params, states, n + 1, error);
    } else {
        assert(states.take(n) =~= states);
    }
}

/// Keeps the states that satisfy every binding.
fn prune<C: RelationshipTarget>(
    world: &World<C>,
    params: &Vec<Param>,
    states: Vec<Vec<RowState>>,
) -> (kept: Result<Vec<Vec<RowState>>, JoinError>)
    requires
        world.wf(),
        forall|i: int| 0 <= i < states@.len() ==> (#[trigger] states@[i])@.len() == params@.len(),
    ensures
        match kept {
            Ok(kept) => pruned(world@, params_view(params@), states_view(states@)) == Ok::<
                Seq<Seq<RowState>>,
                JoinError,
            >(states_view(kept@)),
            Err(error) => pruned(world@, params_view(params@), states_view(states@)) == Err::<
                Seq<Seq<RowState>>,
                JoinError,
            >(error),
        },
{
    let ghost all = states_view(states@);
    let ghost models = params_view(params@);
    let mut kept: Vec<Vec<RowState>> = Vec::new();
    let mut i: usize = 0;
    assert(all.take(0) =~= Seq::<Seq<RowState>>::empty());
    assert(states_view(kept@) =~= Seq::<Seq<RowState>>::empty());
    while i < states.len()
        invariant
            world.wf(),
            i <= states@.len(),
            all == states_view(states@),
            models == params_view(params@),
            forall|j: int|
                0 <= j < states@.len() ==> (#[trigger] states@[j])@.len() == params@.len(),
            pruned(world@, models, all.take(i as int)) == Ok::<Seq<Seq<RowState>>, JoinError>(
                states_view(kept@),
            ),
        decreases states@.len() - i,
    {
        assert(all.take(i + 1).drop_last() =~= all.take(i as int));
        assert(all.take(i + 1).last() == states@[i as int]@);
        assert(states@[i as int]@.len() == params@.len());
        match binding_matches(world, params, &states[i]) {
            Ok(true) => {
                let ghost before = kept@;
                let copy = copy_state(&states[i]);
                kept.push(copy);
                assert(states_view(kept@) =~= states_view(before).push(copy@));
            },
            Ok(false) => {},
            Err(error) => {
                proof {
                    lemma_pruned_error(world@, models, all, i + 1, error);
                }
                return Err(error);
            },
        }
        i = i + 1;
    }
    assert(all.take(all.len() as int) =~= all);
    Ok(kept)
}

/// Copies a state.
pub fn copy_state(state: &Vec<RowState>) -> (copy: Vec<RowState>)
    ensures
        copy@ == state@,
{
    let mut copy: Vec<RowState> = Vec::new();
    let mut i: usize = 0;
    while i < state.len()
        invariant
            i <= state@.len(),
            copy@ =~= state@.take(i as int),
        decreases state@.len() - i,
    {
        copy.push(state[i]);
        i = i + 1;
    }
    assert(state@.take(state@.len() as int) =~= state@);
    copy
}

/// The states of a system: the product of its parameters' states, as far as
/// their bindings hold.
pub fn enumerate_states<C: RelationshipTarget>(world: &World<C>, params: &Vec<Param>) -> (states:
    Result<Vec<Vec<RowState>>, JoinError>)
    requires
        world.wf(),
    ensures
        match states {
            Ok(states) => system_states(world@, params_view(params@)) == Ok::<
                Seq<Seq<RowState>>,
                JoinError,
            >(states_view(states@)),
            Err(error) => system_states(world@, params_view(params@)) == Err::<
                Seq<Seq<RowState>>,
                JoinError,
            >(error),
        },
{
    let states = match full_product(world, params, None) {
        Ok(states) => states,
        Err(error) => {
            return Err(error);
        },
    };
    if prune_needed(params) {
        proof {
            lemma_product_admitted(world@, params_view(params@), params@.len(), None);
            assert forall|i: int| 0 <= i < states@.len() implies (#[trigger] states@[i])@.len()
                == params@.len() by {
                assert(states_view(states@)[i] == states@[i]@);
            }
        }
        prune(world, params, states)
    } else {
        Ok(states)
    }
}

/// The states of a system whose driving rows are restricted to `hint`.
pub fn enumerate_hinted<C: RelationshipTarget>(
    world: &World<C>,
    params: &Vec<Param>,
    hint: &Vec<Entity>,
) -> (states: Result<Vec<Vec<RowState>>, JoinError>)
    requires
        world.wf(),
    ensures
        match states {
            Ok(states) => hinted_states(world@, params_view(params@), hint@) == Ok::<
                Seq<Seq<RowState>>,
                JoinError,
            >(states_view(states@)),
            Err(error) => hinted_states(world@, params_view(params@), hint@) == Err::<
                Seq<Seq<RowState>>,
                JoinError,
            >(error),
        },
{
    full_product(world, params, Some(hint))
}

proof fn lemma_next_states_admitted<C: RelationshipTarget>(
    world: WorldModel<C>,
    params: Seq<ParamModel>,
    picked: Seq<RowState>,
    hint: Option<Seq<Entity>>,
)
    requires
        picked.len() < params.len(),
        next_states(world, params, picked, hint) is Ok,
    ensures
        forall|i: int|
            0 <= i < next_states(world, params, picked, hint)->Ok_0.len() ==> (params[picked.len() as int]).admits(
                world,
                #[trigger] next_states(world, params, picked, hint)->Ok_0[i],
            ),
{
    let param = params[picked.len() as int];
    let states = next_states(world, params, picked, hint)->Ok_0;
    assert forall|i: int| 0 <= i < states.len() implies param.admits(world, #[trigger] states[i]) by {
        match param {
            ParamModel::Query(query) => {
                if param.pair_expandable() && hint is None {
                    let candidates = pair_candidates(world, params, picked, query)->Ok_0;
                    lemma_kept(query, world, candidates);
                    assert(query.kept(world, candidates).contains(
                        query.kept(world, candidates)[i],
                    ));
                } else if hint is Some {
                    lemma_kept(query, world, hint->0);
                    assert(query.kept(world, hint->0).contains(query.kept(world, hint->0)[i]));
                } else {
                    lemma_rows_list(query, world);
                    let row = query.rows(world)[i];
                    assert(query.rows(world).contains(row));
                    crate::entity::lemma_entity_is_its_id(Entity::of(row.id()), row);
                }
            },
            ParamModel::Outer(query) => {
                lemma_rows_list(query, world);
                if i < query.rows(world).len() {
                    let row = query.rows(world)[i];
                    assert(query.rows(world).contains(row));
                    crate::entity::lemma_entity_is_its_id(Entity::of(row.id()), row);
                }
            },
            _ => {},
        }
    }
}

proof fn lemma_expand_admitted<C: RelationshipTarget>(
    world: WorldModel<C>,
    params: Seq<ParamModel>,
    partial: Seq<Seq<RowState>>,
    hint: Option<Seq<Entity>>,
    count: int,
)
    requires
        0 <= count < params.len(),
        expand(world, params, partial, hint) is Ok,
        forall|i: int|
            0 <= i < partial.len() ==> (#[trigger] partial[i]).len() == count && state_admitted(
                world,
                params,
                partial[i],
            ),
    ensures
        forall|i: int|
            0 <= i < expand(world, params, partial, hint)->Ok_0.len() ==> (#[trigger] expand(
                world,
                params,
                partial,
                hint,
            )->Ok_0[i]).len() == count + 1 && state_admitted(
                world,
                params,
                expand(world, params, partial, hint)->Ok_0[i],
            ),
    decreases partial.len(),
{
    if partial.len() > 0 {
        let rest = partial.drop_last();
        let last = partial.last();
        assert forall|i: int| 0 <= i < rest.len() implies (#[trigger] rest[i]).len() == count
            && state_admitted(world, params, rest[i]) by {
            assert(rest[i] == partial[i]);
        }
        lemma_expand_admitted(world, params, rest, hint, count);
        assert(partial[partial.len() - 1] == last);
        lemma_next_states_admitted(world, params, last, hint);
        let done = expand(world, params, rest, hint)->Ok_0;
        let more = next_states(world, params, last, hint)->Ok_0;
        let all = expand(world, params, partial, hint)->Ok_0;
        assert forall|i: int| 0 <= i < all.len() implies (#[trigger] all[i]).len() == count + 1
            && state_admitted(world, params, all[i]) by {
            if i < done.len() {
                assert(all[i] == done[i]);
            } else {
                let state = more[i - done.len()];
                assert(all[i] == last.push(state));
                assert(params[last.len() as int].admits(world, state));
                assert forall|j: int| 0 <= j < all[i].len() implies (#[trigger] params[j]).admits(
                    world,
                    all[i][j],
                ) by {
                    if j < last.len() {
                        assert(params[j].admits(world, last[j]));
                    }
                }
            }
        }
    }
}

/// Every state of the product has one admissible contribution per parameter.
pub proof fn lemma_product_admitted<C: RelationshipTarget>(
    world: WorldModel<C>,
    params: Seq<ParamModel>,
    count: nat,
    hint: Option<Seq<Entity>>,
)
    requires
        count <= params.len(),
        product(world, params, count, hint) is Ok,
    ensures
        forall|i: int|
            0 <= i < product(world, params, count, hint)->Ok_0.len() ==> (#[trigger] product(
                world,
                params,
                count,
                hint,
            )->Ok_0[i]).len() == count && state_admitted(
                world,
                params,
                product(world, params, count, hint)->Ok_0[i],
            ),
    decreases count,
{
    if count > 0 {
        lemma_product_admitted(world, params, (count - 1) as nat, hint);
        lemma_expand_admitted(
            world,
            params,
            product(world, params, (count - 1) as nat, hint)->Ok_0,
            hint,
            count - 1,
        );
    }
}

proof fn lemma_pruned_subset<C: RelationshipTarget>(
    world: WorldModel<C>,
    params: Seq<ParamModel>,
    states: Seq<Seq<RowState>>,
)
    requires
        pruned(world, params, states) is Ok,
    ensures
        forall|i: int|
            0 <= i < pruned(world, params, states)->Ok_0.len() ==> states.contains(
                #[trigger] pruned(world, params, states)->Ok_0[i],
            ) && state_matches(world, params, pruned(world, params, states)->Ok_0[i]) == Ok::<
                bool,
                JoinError,
            >(true),
    decreases states.len(),
{
    if states.len() > 0 {
        let rest = states.drop_last();
        lemma_pruned_subset(world, params, rest);
        let fewer = pruned(world, params, rest)->Ok_0;
        let all = pruned(world, params, states)->Ok_0;
        assert forall|i: int| 0 <= i < all.len() implies states.contains(#[trigger] all[i])
            && state_matches(world, params, all[i]) == Ok::<bool, JoinError>(true) by {
            if i < fewer.len() {
                assert(all[i] == fewer[i]);
                let j = choose|j: int| 0 <= j < rest.len() && rest[j] == fewer[i];
                assert(states[j] == all[i]);
            } else {
                assert(states[states.len() - 1] == all[i]);
            }
        }
    }
}

/// Every state of a system has one admissible contribution per parameter.
pub proof fn lemma_states_admitted<C: RelationshipTarget>(
    world: WorldModel<C>,
    params: Seq<ParamModel>,
)
    requires
        system_states(world, params) is Ok,
    ensures
        forall|i: int|
            0 <= i < system_states(world, params)->Ok_0.len() ==> (#[trigger] system_states(
                world,
                params,
            )->Ok_0[i]).len() == params.len() && state_admitted(
                world,
                params,
                system_states(world, params)->Ok_0[i],
            ),
{
    lemma_product_admitted(world, params, params.len(), None);
    let all = product(world, params, params.len(), None)->Ok_0;
    if needs_prune(params) {
        lemma_pruned_subset(world, params, all);
        let kept = system_states(world, params)->Ok_0;
        assert forall|i: int| 0 <= i < kept.len() implies (#[trigger] kept[i]).len()
            == params.len() && state_admitted(world, params, kept[i]) by {
            assert(all.contains(kept[i]));
            let j = choose|j: int| 0 <= j < all.len() && all[j] == kept[i];
            assert(all[j].len() == params.len());
        }
    }
}

/// Whether some parameter runs in every pass.
pub fn always_run(params: &Vec<Param>) -> (always: bool)
    ensures
        always == always_runs(params_view(params@)),
{
    let ghost models = params_view(params@);
    let mut i: usize = 0;
    while i < params.len()
        invariant
            i <= params@.len(),
            models == params_view(params@),
            forall|j: int| 0 <= j < i ==> !((#[trigger] models[j]) is Meta),
        decreases params@.len() - i,
    {
        assert(models[i as int] == params@[i as int]@);
        match params[i] {
            Param::Meta => {
                assert(models[i as int] is Meta);
                return true;
            },
            _ => {},
        }
        i = i + 1;
    }
    false
}

/// The entity keys of a state.
pub fn keys_of_state(state: &Vec<RowState>, params: &Vec<Param>) -> (keys: Vec<Entity>)
    requires
        state@.len() <= params@.len(),
    ensures
        keys@ == state_keys(params_view(params@), state@),
{
    let ghost models = params_view(params@);
    let mut keys: Vec<Entity> = Vec::new();
    let mut i: usize = 0;
    assert(state@.take(0) =~= Seq::<RowState>::empty());
    while i < state.len()
        invariant
            i <= state@.len() <= params@.len(),
            models == params_view(params@),
            keys@ == state_keys(models, state@.take(i as int)),
        decreases state@.len() - i,
    {
        assert(state@.take(i + 1).drop_last() =~= state@.take(i as int));
        match state[i] {
            RowState::Row(entity) => {
                let ghost before = keys@;
                keys.push(entity);
                assert(keys@ =~= before + seq![entity]);
            },
            _ => {
                assert(keys@ =~= keys@ + Seq::<Entity>::empty());
            },
        }
        i = i + 1;
    }
    assert(state@.take(state@.len() as int) =~= state@);
    keys
}

/// The tracked inputs of a state.
pub fn deps_of_state<C: RelationshipTarget>(
    world: &World<C>,
    params: &Vec<Param>,
    state: &Vec<RowState>,
) -> (deps: Vec<Dep>)
    requires
        state_admitted(world@, params_view(params@), state@),
    ensures
        deps@ == state_deps(world@, params_view(params@), state@),
{
    let ghost models = params_view(params@);
    let mut deps: Vec<Dep> = Vec::new();
    let mut i: usize = 0;
    assert(state@.take(0) =~= Seq::<RowState>::empty());
    while i < state.len()
        invariant
            i <= state@.len() <= params@.len(),
            models == params_view(params@),
            state_admitted(world@, models, state@),
            deps@ == state_deps(world@, models, state@.take(i as int)),
        decreases state@.len() - i,
    {
        assert(state@.take(i + 1).drop_last() =~= state@.take(i as int));
        assert(models[i as int] == params@[i as int]@);
        assert(models[i as int].admits(world@, state@[i as int]));
        let mut more = params[i].deps(world, state[i]);
        deps.append(&mut more);
        i = i + 1;
    }
    assert(state@.take(state@.len() as int) =~= state@);
    deps
}

/// The rows a state touches.
pub fn access_of_state(params: &Vec<Param>, state: &Vec<RowState>) -> (access: Vec<Access>)
    requires
        state@.len() <= params@.len(),
    ensures
        access@ == state_access(params_view(params@), state@),
{
    let ghost models = params_view(params@);
    let mut access: Vec<Access> = Vec::new();
    let mut i: usize = 0;
    assert(state@.take(0) =~= Seq::<RowState>::empty());
    while i < state.len()
        invariant
            i <= state@.len() <= params@.len(),
            models == params_view(params@),
            access@ == state_access(models, state@.take(i as int)),
        decreases state@.len() - i,
    {
        assert(state@.take(i + 1).drop_last() =~= state@.take(i as int));
        assert(models[i as int] == params@[i as int]@);
        let mut more = params[i].access(state[i]);
        access.append(&mut more);
        i = i + 1;
    }
    assert(state@.take(state@.len() as int) =~= state@);
    access
}

/// The delta shape of a whole parameter list.
pub fn delta_shape_of(params: &Vec<Param>) -> (shape: DeltaShape)
    ensures
        shape == system_delta_shape(params_view(params@)),
{
    let ghost models = params_view(params@);
    let mut found: usize = 0;
    let mut i: usize = 0;
    while i < params.len()
        invariant
            i <= params@.len(),
            found <= i,
            models == params_view(params@),
            forall|j: int|
                0 <= j < i ==> (#[trigger] models[j]).delta_shape() != DeltaShape::Opaque,
            drivers(models, 0) == found + drivers(models, i as int),
        decreases params@.len() - i,
    {
        assert(models[i as int] == params@[i as int]@);
        match params[i].delta_shape() {
            DeltaShape::Opaque => {
                assert(models[i as int].delta_shape() == DeltaShape::Opaque);
                return DeltaShape::Opaque;
            },
            DeltaShape::Driver => {
                found = found + 1;
            },
            DeltaShape::Inert => {},
        }
        i = i + 1;
    }
    if found == 1 {
        DeltaShape::Driver
    } else {
        DeltaShape::Opaque
    }
}

} // verus!
