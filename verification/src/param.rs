//! System parameters: the rows each one contributes, and the product of all of
//! them.

use crate::access::Access;
use crate::component::{ComponentId, RelationshipTarget};
use crate::entity::Entity;
use crate::model::{sorted_keys, WorldModel};
use crate::query::{part_components, Dep, QueryModel, RowFilter, RowQuery};
use crate::store::stamped_with;
use crate::world::{as_entities, World};
use vstd::prelude::*;

verus! {

/// How a parameter relates to delta (dirty-entity) planning.
#[derive(Debug, Clone, Copy, PartialEq, Eq, Structural)]
pub enum DeltaShape {
    /// Contributes a single state, never entity rows: compatible with a sibling
    /// driver's hint.
    Inert,
    /// Drives entity rows and can enumerate them from a dirty-entity hint.
    Driver,
    /// Cannot be hinted: the owning system always plans fully.
    Opaque,
}

/// One parameter of a system.
#[derive(Debug)]
pub enum Param {
    /// One state per matching row.
    Query(RowQuery),
    /// Outer join: one state per matching row, and one for the case that no row
    /// matches the provider.
    Outer(RowQuery),
    /// Ambient read access; contributes no dependency.
    View(RowQuery),
    /// Buffered writes; `None` declares nothing about what is written.
    Commands(Option<Vec<ComponentId>>),
    /// World metadata; runs in every pass.
    Meta,
}

/// Mathematical content of a [`Param`].
#[verifier::ext_equal]
pub enum ParamModel {
    Query(QueryModel),
    Outer(QueryModel),
    View(QueryModel),
    Commands(Option<Seq<ComponentId>>),
    Meta,
}

impl View for Param {
    type V = ParamModel;

    open spec fn view(&self) -> ParamModel {
        match self {
            Param::Query(query) => ParamModel::Query(query@),
            Param::Outer(query) => ParamModel::Outer(query@),
            Param::View(query) => ParamModel::View(query@),
            Param::Commands(declared) => ParamModel::Commands(
                match declared {
                    Some(declared) => Some(declared@),
                    None => None,
                },
            ),
            Param::Meta => ParamModel::Meta,
        }
    }
}

/// The parameters of a system.
pub open spec fn params_view(params: Seq<Param>) -> Seq<ParamModel> {
    params.map_values(|param: Param| param@)
}

/// What one parameter contributes to one invocation.
#[derive(Debug, Clone, Copy)]
pub enum RowState {
    /// An ambient parameter's only state.
    Unit,
    /// A query row.
    Row(Entity),
    /// An outer join without a matching row.
    Absent,
}

/// The contributions of all parameters, state by state.
pub open spec fn states_view(states: Seq<Vec<RowState>>) -> Seq<Seq<RowState>> {
    states.map_values(|state: Vec<RowState>| state@)
}

/// Why rows could not be joined.
#[derive(Debug, Clone, Copy, PartialEq, Eq, Structural)]
pub enum JoinError {
    /// A bound key component has no fingerprint.
    KeyNotHashed,
    /// The provider's key component has no fingerprint.
    ProviderNotHashed,
    /// The provider comes after the joined query in the parameter list.
    ProviderMustPrecede,
    /// The provider reads no maintained inverse.
    ProviderNotInverse,
}

/// Why parameters cannot be registered together.
#[derive(Debug, Clone, Copy, PartialEq, Eq, Structural)]
pub enum BindingError {
    /// An outer join has no bound key.
    OuterUnbound,
    /// A view has a bound key.
    ViewBound(ComponentId),
    /// A bound key does not have exactly one sibling that reads it.
    Providers { key: ComponentId, found: usize },
}

/// The query rows as parameter states.
pub open spec fn row_states(rows: Seq<Entity>) -> Seq<RowState> {
    rows.map_values(|row: Entity| RowState::Row(row))
}

impl ParamModel {
    /// The states the parameter enumerates on its own.
    pub open spec fn states<C: RelationshipTarget>(self, world: WorldModel<C>) -> Seq<RowState> {
        match self {
            ParamModel::Query(query) => row_states(query.rows(world)),
            ParamModel::Outer(query) => row_states(query.rows(world)).push(RowState::Absent),
            _ => seq![RowState::Unit],
        }
    }

    /// The states restricted to candidate rows.
    pub open spec fn states_hinted<C: RelationshipTarget>(
        self,
        world: WorldModel<C>,
        hint: Seq<Entity>,
    ) -> Seq<RowState> {
        match self {
            ParamModel::Query(query) => row_states(query.kept(world, hint)),
            _ => self.states(world),
        }
    }

    /// The entity keys a state adds to the invocation's identity.
    pub open spec fn keys(self, state: RowState) -> Seq<Entity> {
        match state {
            RowState::Row(entity) => seq![entity],
            _ => Seq::empty(),
        }
    }

    /// Whether a state can come from this parameter.
    pub open spec fn admits<C: RelationshipTarget>(
        self,
        world: WorldModel<C>,
        state: RowState,
    ) -> bool {
        match (self, state) {
            (ParamModel::Query(query), RowState::Row(entity)) => query.admits(world, entity),
            (ParamModel::Outer(query), RowState::Row(entity)) => query.admits(world, entity),
            (ParamModel::Outer(_), RowState::Absent) => true,
            (ParamModel::View(_), RowState::Unit) => true,
            (ParamModel::Commands(_), RowState::Unit) => true,
            (ParamModel::Meta, RowState::Unit) => true,
            _ => false,
        }
    }

    /// The tracked inputs a state observes.
    pub open spec fn deps<C: RelationshipTarget>(
        self,
        world: WorldModel<C>,
        state: RowState,
    ) -> Seq<Dep> {
        match (self, state) {
            (ParamModel::Query(query), RowState::Row(entity)) => query.deps(world, entity),
            (ParamModel::Outer(query), RowState::Row(entity)) => query.deps(world, entity),
            (ParamModel::Outer(query), RowState::Absent) => query.absence_deps(world),
            _ => Seq::empty(),
        }
    }

    /// The rows a state touches.
    pub open spec fn access(self, state: RowState) -> Seq<Access> {
        match (self, state) {
            (ParamModel::Query(query), RowState::Row(entity)) => query.access(entity),
            (ParamModel::Outer(query), RowState::Row(entity)) => query.access(entity),
            (ParamModel::Outer(query), RowState::Absent) => query.access_all(),
            (ParamModel::View(query), _) => query.access_all(),
            _ => Seq::empty(),
        }
    }

    /// The join keys of the parameter's filter.
    pub open spec fn bound_kinds(self) -> Seq<ComponentId> {
        match self {
            ParamModel::Query(query) => query.bound_kinds(),
            ParamModel::Outer(query) => query.bound_kinds(),
            ParamModel::View(query) => query.bound_kinds(),
            _ => Seq::empty(),
        }
    }

    /// The inverses the parameter's rows are drawn from.
    pub open spec fn member_kinds(self) -> Seq<ComponentId> {
        match self {
            ParamModel::Query(query) => query.member_kinds(),
            _ => Seq::empty(),
        }
    }

    /// Whether planning enumerates the parameter's rows from a sibling
    /// provider's pair list.
    pub open spec fn pair_expandable(self) -> bool {
        match self {
            ParamModel::Query(query) => query.bound_kinds().len() + query.member_kinds().len() == 1,
            _ => false,
        }
    }

    /// Whether the parameter's row data reads `key`.
    pub open spec fn provides(self, key: ComponentId) -> bool {
        match self {
            ParamModel::Query(query) => query.reads(key),
            _ => false,
        }
    }

    /// The fingerprint of `key` on the parameter's row, when it reads `key`.
    pub open spec fn provided_key<C: RelationshipTarget>(
        self,
        world: WorldModel<C>,
        state: RowState,
        key: ComponentId,
    ) -> Option<Option<u64>> {
        match state {
            RowState::Row(entity) => if self.provides(key) {
                Some(stamp_at(world, key, entity))
            } else {
                None
            },
            _ => None,
        }
    }

    /// The members listed by inverse `key` on the parameter's row, when it
    /// reads `key`.
    pub open spec fn provided_members<C: RelationshipTarget>(
        self,
        world: WorldModel<C>,
        state: RowState,
        key: ComponentId,
    ) -> Option<Seq<Entity>> {
        match state {
            RowState::Row(entity) => if self.provides(key) && C::is_inverse(key) {
                Some(world.members(key, entity))
            } else {
                None
            },
            _ => None,
        }
    }

    /// The parameter's relation to delta planning.
    pub open spec fn delta_shape(self) -> DeltaShape {
        match self {
            ParamModel::Query(query) => if query.bound_kinds().len() == 0
                && query.member_kinds().len() == 0 {
                DeltaShape::Driver
            } else {
                DeltaShape::Opaque
            },
            ParamModel::Outer(_) => DeltaShape::Opaque,
            ParamModel::View(_) => DeltaShape::Inert,
            ParamModel::Commands(_) => DeltaShape::Inert,
            ParamModel::Meta => DeltaShape::Opaque,
        }
    }

    /// The stores whose movement can change the parameter's rows or inputs;
    /// `None` when that cannot be bounded.
    pub open spec fn interest(self) -> Option<Seq<ComponentId>> {
        match self {
            ParamModel::Query(query) => query_interest(query),
            ParamModel::Outer(query) => query_interest(query),
            ParamModel::View(_) => Some(Seq::empty()),
            ParamModel::Commands(_) => Some(Seq::empty()),
            ParamModel::Meta => None,
        }
    }

    /// Why the parameter is refused by itself.
    pub open spec fn local_error(self) -> Option<BindingError> {
        match self {
            ParamModel::Outer(query) => if query.bound_kinds().len() == 0 {
                Some(BindingError::OuterUnbound)
            } else {
                None
            },
            ParamModel::View(query) => if query.bound_kinds().len() > 0 {
                Some(BindingError::ViewBound(query.bound_kinds()[0]))
            } else {
                None
            },
            _ => None,
        }
    }

    /// The component types the parameter may emit; `None` is the wildcard.
    pub open spec fn declared(self) -> Option<Seq<ComponentId>> {
        match self {
            ParamModel::Commands(declared) => declared,
            _ => Some(Seq::empty()),
        }
    }
}

/// The fingerprint of `key` on `entity`.
pub open spec fn stamp_at<C: RelationshipTarget>(
    world: WorldModel<C>,
    key: ComponentId,
    entity: Entity,
) -> Option<u64> {
    match world.entry(key, entity) {
        Some(entry) => entry.fingerprint,
        None => None,
    }
}

/// The components a filter looks at.
pub open spec fn watched(filters: Seq<RowFilter>) -> Seq<ComponentId> {
    filters.map_values(
        |filter: RowFilter|
            match filter {
                RowFilter::With(kind) => kind,
                RowFilter::Without(kind) => kind,
                RowFilter::Bound(kind) => kind,
                RowFilter::Member(kind) => kind,
                RowFilter::Anchor(kind) => kind,
                RowFilter::Maybe(kind) => kind,
            },
    )
}

/// The stores a query looks at; unbounded for a query without row data.
pub open spec fn query_interest(query: QueryModel) -> Option<Seq<ComponentId>> {
    if query.parts.len() == 0 {
        None
    } else {
        Some(part_components(query.parts) + watched(query.filters))
    }
}

/// The first fingerprint that one of the parameters from `from` on, other than
/// `except`, provides for `key`.
pub open spec fn first_key<C: RelationshipTarget>(
    world: WorldModel<C>,
    params: Seq<ParamModel>,
    picked: Seq<RowState>,
    key: ComponentId,
    except: int,
    from: int,
) -> Option<Option<u64>>
    decreases picked.len() - from,
{
    if from < 0 || from >= picked.len() {
        None
    } else {
        let provided = params[from].provided_key(world, picked[from], key);
        if from != except && provided is Some {
            provided
        } else {
            first_key(world, params, picked, key, except, from + 1)
        }
    }
}

/// The first member list that one of the parameters from `from` on, other than
/// `except`, provides for `key`.
pub open spec fn first_members<C: RelationshipTarget>(
    world: WorldModel<C>,
    params: Seq<ParamModel>,
    picked: Seq<RowState>,
    key: ComponentId,
    except: int,
    from: int,
) -> Option<Seq<Entity>>
    decreases picked.len() - from,
{
    if from < 0 || from >= picked.len() {
        None
    } else {
        let provided = params[from].provided_members(world, picked[from], key);
        if from != except && provided is Some {
            provided
        } else {
            first_members(world, params, picked, key, except, from + 1)
        }
    }
}

/// The rows a joined query pairs with the rows picked before it.
pub open spec fn pair_candidates<C: RelationshipTarget>(
    world: WorldModel<C>,
    params: Seq<ParamModel>,
    picked: Seq<RowState>,
    query: QueryModel,
) -> Result<Seq<Entity>, JoinError> {
    if query.member_kinds().len() > 0 {
        match first_members(world, params, picked, query.member_kinds()[0], -1, 0) {
            Some(members) => Ok(members),
            None => Err(JoinError::ProviderMustPrecede),
        }
    } else {
        let key = query.bound_kinds()[0];
        match first_key(world, params, picked, key, -1, 0) {
            Some(Some(fingerprint)) => Ok(
                as_entities(sorted_keys(stamped_with(world.column(key), fingerprint))),
            ),
            Some(None) => Err(JoinError::ProviderNotHashed),
            None => Err(JoinError::ProviderMustPrecede),
        }
    }
}

/// The states of the next parameter, given the rows picked before it.
pub open spec fn next_states<C: RelationshipTarget>(
    world: WorldModel<C>,
    params: Seq<ParamModel>,
    picked: Seq<RowState>,
    hint: Option<Seq<Entity>>,
) -> Result<Seq<RowState>, JoinError> {
    let param = params[picked.len() as int];
    match param {
        ParamModel::Query(query) => if param.pair_expandable() && hint is None {
            match pair_candidates(world, params, picked, query) {
                Ok(candidates) => Ok(row_states(query.kept(world, candidates))),
                Err(error) => Err(error),
            }
        } else {
            match hint {
                Some(hint) => Ok(param.states_hinted(world, hint)),
                None => Ok(param.states(world)),
            }
        },
        _ => match hint {
            Some(hint) => Ok(param.states_hinted(world, hint)),
            None => Ok(param.states(world)),
        },
    }
}

/// `picked` continued by each of `more`.
pub open spec fn continued(picked: Seq<RowState>, more: Seq<RowState>) -> Seq<Seq<RowState>> {
    more.map_values(|state: RowState| picked.push(state))
}

/// Continues every partial state by the states of the next parameter.
pub open spec fn expand<C: RelationshipTarget>(
    world: WorldModel<C>,
    params: Seq<ParamModel>,
    partial: Seq<Seq<RowState>>,
    hint: Option<Seq<Entity>>,
) -> Result<Seq<Seq<RowState>>, JoinError>
    decreases partial.len(),
{
    if partial.len() == 0 {
        Ok(Seq::empty())
    } else {
        match expand(world, params, partial.drop_last(), hint) {
            Err(error) => Err(error),
            Ok(done) => match next_states(world, params, partial.last(), hint) {
                Err(error) => Err(error),
                Ok(more) => Ok(done + continued(partial.last(), more)),
            },
        }
    }
}

/// The product of the first `count` parameters' states, in nesting order.
pub open spec fn product<C: RelationshipTarget>(
    world: WorldModel<C>,
    params: Seq<ParamModel>,
    count: nat,
    hint: Option<Seq<Entity>>,
) -> Result<Seq<Seq<RowState>>, JoinError>
    decreases count,
{
    if count == 0 {
        Ok(seq![Seq::<RowState>::empty()])
    } else {
        match product(world, params, (count - 1) as nat, hint) {
            Err(error) => Err(error),
            Ok(partial) => expand(world, params, partial, hint),
        }
    }
}

/// Whether parameter `at` meets its bound keys from `from` on, against the rows
/// of its siblings.
pub open spec fn bound_matches<C: RelationshipTarget>(
    world: WorldModel<C>,
    params: Seq<ParamModel>,
    state: Seq<RowState>,
    at: int,
    from: int,
) -> Result<bool, JoinError>
    decreases params[at].bound_kinds().len() - from,
{
    let keys = params[at].bound_kinds();
    if from < 0 || from >= keys.len() {
        Ok(true)
    } else {
        match state[at] {
            RowState::Row(entity) => match stamp_at(world, keys[from], entity) {
                None => Err(JoinError::KeyNotHashed),
                Some(fingerprint) => match first_key(world, params, state, keys[from], at, 0) {
                    Some(Some(provider)) => if provider == fingerprint {
                        bound_matches(world, params, state, at, from + 1)
                    } else {
                        Ok(false)
                    },
                    Some(None) => Err(JoinError::ProviderNotHashed),
                    None => Ok(false),
                },
            },
            _ => Ok(true),
        }
    }
}

/// Whether parameter `at` meets its membership keys from `from` on.
pub open spec fn member_matches<C: RelationshipTarget>(
    world: WorldModel<C>,
    params: Seq<ParamModel>,
    state: Seq<RowState>,
    at: int,
    from: int,
) -> Result<bool, JoinError>
    decreases params[at].member_kinds().len() - from,
{
    let keys = params[at].member_kinds();
    if from < 0 || from >= keys.len() {
        Ok(true)
    } else {
        match state[at] {
            RowState::Row(entity) => match first_members(
                world,
                params,
                state,
                keys[from],
                at,
                0,
            ) {
                Some(members) => if members.contains(entity) {
                    member_matches(world, params, state, at, from + 1)
                } else {
                    Ok(false)
                },
                None => Err(JoinError::ProviderNotInverse),
            },
            _ => Ok(true),
        }
    }
}

/// Whether every bound key of parameter `at` has a provider with a fingerprint.
pub open spec fn keys_provided<C: RelationshipTarget>(
    world: WorldModel<C>,
    params: Seq<ParamModel>,
    state: Seq<RowState>,
    at: int,
) -> bool {
    forall|i: int|
        0 <= i < params[at].bound_kinds().len() ==> (first_key(
            world,
            params,
            state,
            #[trigger] params[at].bound_kinds()[i],
            at,
            0,
        ) matches Some(Some(_)))
}

/// Whether `entity`, as the row of parameter `at`, meets all keys of the parameter
/// at once.
pub open spec fn pairs_up<C: RelationshipTarget>(
    world: WorldModel<C>,
    params: Seq<ParamModel>,
    state: Seq<RowState>,
    at: int,
    entity: Entity,
) -> bool {
    let paired = state.update(at, RowState::Row(entity));
    bound_matches(world, params, paired, at, 0) == Ok::<bool, JoinError>(true) && member_matches(
        world,
        params,
        paired,
        at,
        0,
    ) == Ok::<bool, JoinError>(true)
}

/// Whether no row of an outer join pairs up with the rows of its siblings.
pub open spec fn unpaired<C: RelationshipTarget>(
    world: WorldModel<C>,
    params: Seq<ParamModel>,
    state: Seq<RowState>,
    at: int,
) -> bool {
    match params[at] {
        ParamModel::Outer(query) => forall|entity: Entity| #[trigger]
            query.rows(world).contains(entity) ==> !pairs_up(world, params, state, at, entity),
        _ => true,
    }
}

/// Whether the absence that parameter `at` stands for is real: no row of it meets
/// all of its keys.
pub open spec fn absence_matches<C: RelationshipTarget>(
    world: WorldModel<C>,
    params: Seq<ParamModel>,
    state: Seq<RowState>,
    at: int,
) -> Result<bool, JoinError> {
    match state[at] {
        RowState::Absent => if keys_provided(world, params, state, at) {
            Ok(unpaired(world, params, state, at))
        } else {
            Err(JoinError::ProviderNotHashed)
        },
        _ => Ok(true),
    }
}

/// Which of a state's bindings is checked.
#[derive(Debug, Clone, Copy, PartialEq, Eq, Structural)]
pub enum Binding {
    Key,
    Membership,
    Absence,
}

/// Whether the parameters from `at` on meet their bindings of one kind.
pub open spec fn bindings_match<C: RelationshipTarget>(
    world: WorldModel<C>,
    params: Seq<ParamModel>,
    state: Seq<RowState>,
    binding: Binding,
    at: int,
) -> Result<bool, JoinError>
    decreases params.len() - at,
{
    if at < 0 || at >= params.len() {
        Ok(true)
    } else {
        let here = match binding {
            Binding::Key => bound_matches(world, params, state, at, 0),
            Binding::Membership => member_matches(world, params, state, at, 0),
            Binding::Absence => absence_matches(world, params, state, at),
        };
        match here {
            Ok(true) => bindings_match(world, params, state, binding, at + 1),
            other => other,
        }
    }
}

/// Whether a state satisfies every binding: bound keys, then memberships, then
/// absences.
pub open spec fn state_matches<C: RelationshipTarget>(
    world: WorldModel<C>,
    params: Seq<ParamModel>,
    state: Seq<RowState>,
) -> Result<bool, JoinError> {
    match bindings_match(world, params, state, Binding::Key, 0) {
        Ok(true) => match bindings_match(world, params, state, Binding::Membership, 0) {
            Ok(true) => bindings_match(world, params, state, Binding::Absence, 0),
            other => other,
        },
        other => other,
    }
}

/// The states that satisfy every binding, in order.
pub open spec fn pruned<C: RelationshipTarget>(
    world: WorldModel<C>,
    params: Seq<ParamModel>,
    states: Seq<Seq<RowState>>,
) -> Result<Seq<Seq<RowState>>, JoinError>
    decreases states.len(),
{
    if states.len() == 0 {
        Ok(Seq::empty())
    } else {
        match pruned(world, params, states.drop_last()) {
            Err(error) => Err(error),
            Ok(kept) => match state_matches(world, params, states.last()) {
                Err(error) => Err(error),
                Ok(true) => Ok(kept.push(states.last())),
                Ok(false) => Ok(kept),
            },
        }
    }
}

/// Whether the product has to be pruned: a joined parameter is not enumerated
/// from its provider's pair list.
pub open spec fn needs_prune(params: Seq<ParamModel>) -> bool {
    exists|i: int|
        0 <= i < params.len() && (#[trigger] params[i]).bound_kinds().len()
            + params[i].member_kinds().len() > 0 && !params[i].pair_expandable()
}

/// The states of a system: the product of its parameters' states, as far as
/// their bindings hold.
pub open spec fn system_states<C: RelationshipTarget>(
    world: WorldModel<C>,
    params: Seq<ParamModel>,
) -> Result<Seq<Seq<RowState>>, JoinError> {
    match product(world, params, params.len(), None) {
        Err(error) => Err(error),
        Ok(states) => if needs_prune(params) {
            pruned(world, params, states)
        } else {
            Ok(states)
        },
    }
}

/// The states of a system whose driving rows are restricted to `hint`.
pub open spec fn hinted_states<C: RelationshipTarget>(
    world: WorldModel<C>,
    params: Seq<ParamModel>,
    hint: Seq<Entity>,
) -> Result<Seq<Seq<RowState>>, JoinError> {
    product(world, params, params.len(), Some(hint))
}

/// The entity keys of a state: those of its parameters, in order.
pub open spec fn state_keys(params: Seq<ParamModel>, state: Seq<RowState>) -> Seq<Entity>
    decreases state.len(),
{
    if state.len() == 0 {
        Seq::empty()
    } else {
        state_keys(params, state.drop_last()) + params[state.len() - 1].keys(state.last())
    }
}

/// The tracked inputs of a state: those of its parameters, in order.
pub open spec fn state_deps<C: RelationshipTarget>(
    world: WorldModel<C>,
    params: Seq<ParamModel>,
    state: Seq<RowState>,
) -> Seq<Dep>
    decreases state.len(),
{
    if state.len() == 0 {
        Seq::empty()
    } else {
        state_deps(world, params, state.drop_last()) + params[state.len() - 1].deps(
            world,
            state.last(),
        )
    }
}

/// The rows a state touches: those of its parameters, in order.
pub open spec fn state_access(params: Seq<ParamModel>, state: Seq<RowState>) -> Seq<Access>
    decreases state.len(),
{
    if state.len() == 0 {
        Seq::empty()
    } else {
        state_access(params, state.drop_last()) + params[state.len() - 1].access(state.last())
    }
}

/// Whether a state is made of one admissible contribution per parameter.
pub open spec fn state_admitted<C: RelationshipTarget>(
    world: WorldModel<C>,
    params: Seq<ParamModel>,
    state: Seq<RowState>,
) -> bool {
    &&& state.len() <= params.len()
    &&& forall|i: int|
        0 <= i < state.len() ==> (#[trigger] params[i]).admits(world, state[i])
}

/// Whether some parameter runs in every pass.
pub open spec fn always_runs(params: Seq<ParamModel>) -> bool {
    exists|i: int| 0 <= i < params.len() && (#[trigger] params[i]) is Meta
}

/// How many of the parameters from `from` on drive rows.
pub open spec fn drivers(params: Seq<ParamModel>, from: int) -> nat
    decreases params.len() - from,
{
    if from < 0 || from >= params.len() {
        0
    } else {
        drivers(params, from + 1) + if params[from].delta_shape() == DeltaShape::Driver {
            1nat
        } else {
            0nat
        }
    }
}

/// A system can plan from a dirty-entity hint when exactly one parameter drives
/// rows and every other one is inert.
pub open spec fn system_delta_shape(params: Seq<ParamModel>) -> DeltaShape {
    if (exists|i: int|
        0 <= i < params.len() && (#[trigger] params[i]).delta_shape() == DeltaShape::Opaque)
        || drivers(params, 0) != 1 {
        DeltaShape::Opaque
    } else {
        DeltaShape::Driver
    }
}

} // verus!
