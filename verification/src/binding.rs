//! Registration-time checks and summaries of a system's parameters.

use crate::component::ComponentId;
use crate::declare::{joined, merge_declarations, types_view};
use crate::param::{params_view, BindingError, JoinError, Param, ParamModel};
use crate::query::part_components;
use crate::text::{decimal, decimal_text};
use vstd::prelude::*;
use vstd::string::StringExecFns;

verus! {

/// The first local error among the parameters from `from` on.
pub open spec fn first_local_error(params: Seq<ParamModel>, from: int) -> Option<BindingError>
    decreases params.len() - from,
{
    if from < 0 || from >= params.len() {
        None
    } else if params[from].local_error() is Some {
        params[from].local_error()
    } else {
        first_local_error(params, from + 1)
    }
}

/// How many of the parameters from `from` on, other than `except`, read `key`.
pub open spec fn providers(
    params: Seq<ParamModel>,
    key: ComponentId,
    except: int,
    from: int,
) -> nat
    decreases params.len() - from,
{
    if from < 0 || from >= params.len() {
        0
    } else {
        providers(params, key, except, from + 1) + if from != except && params[from].provides(
            key,
        ) {
            1nat
        } else {
            0nat
        }
    }
}

/// The join keys of a parameter: its bound keys, then the inverses its rows are
/// drawn from.
pub open spec fn join_keys(param: ParamModel) -> Seq<ComponentId> {
    param.bound_kinds() + param.member_kinds()
}

/// The first of `keys` from `from` on that parameter `at` joins on without
/// exactly one provider.
pub open spec fn first_unprovided(
    params: Seq<ParamModel>,
    at: int,
    keys: Seq<ComponentId>,
    from: int,
) -> Option<BindingError>
    decreases keys.len() - from,
{
    if from < 0 || from >= keys.len() {
        None
    } else {
        let found = providers(params, keys[from], at, 0);
        if found != 1 {
            Some(BindingError::Providers { key: keys[from], found: found as usize })
        } else {
            first_unprovided(params, at, keys, from + 1)
        }
    }
}

/// The first join key of the parameters from `from` on without exactly one
/// provider.
pub open spec fn first_unbound(params: Seq<ParamModel>, from: int) -> Option<BindingError>
    decreases params.len() - from,
{
    if from < 0 || from >= params.len() {
        None
    } else {
        let error = first_unprovided(params, from, join_keys(params[from]), 0);
        if error is Some {
            error
        } else {
            first_unbound(params, from + 1)
        }
    }
}

/// Why the parameters cannot be registered together: a parameter that is refused
/// by itself, else a join key without exactly one sibling that reads it.
pub open spec fn binding_error(params: Seq<ParamModel>) -> Option<BindingError> {
    let local = first_local_error(params, 0);
    if local is Some {
        local
    } else {
        first_unbound(params, 0)
    }
}

fn count_providers(params: &Vec<Param>, key: ComponentId, except: usize) -> (found: usize)
    ensures
        found == providers(params_view(params@), key, except as int, 0),
{
    let ghost models = params_view(params@);
    let mut found: usize = 0;
    let mut i: usize = 0;
    while i < params.len()
        invariant
            i <= params@.len(),
            found <= i,
            models == params_view(params@),
            providers(models, key, except as int, 0) == found + providers(
                models,
                key,
                except as int,
                i as int,
            ),
        decreases params@.len() - i,
    {
        assert(models[i as int] == params@[i as int]@);
        if i != except && params[i].provides_key(key) {
            found = found + 1;
        }
        i = i + 1;
    }
    found
}

fn find_unprovided(params: &Vec<Param>, at: usize, keys: &Vec<ComponentId>) -> (error: Option<
    BindingError,
>)
    ensures
        error == first_unprovided(params_view(params@), at as int, keys@, 0),
{
    let ghost models = params_view(params@);
    let mut i: usize = 0;
    while i < keys.len()
        invariant
            i <= keys@.len(),
            models == params_view(params@),
            first_unprovided(models, at as int, keys@, 0) == first_unprovided(
                models,
                at as int,
                keys@,
                i as int,
            ),
        decreases keys@.len() - i,
    {
        let found = count_providers(params, keys[i], at);
        if found != 1 {
            return Some(BindingError::Providers { key: keys[i], found });
        }
        i = i + 1;
    }
    None
}

/// Validates a system's parameters against each other, at registration.
pub fn validate_bindings(params: &Vec<Param>) -> (outcome: Result<(), BindingError>)
    ensures
        match outcome {
            Ok(_) => binding_error(params_view(params@)) is None,
            Err(error) => binding_error(params_view(params@)) == Some(error),
        },
{
    let ghost models = params_view(params@);
    let mut i: usize = 0;
    while i < params.len()
        invariant
            i <= params@.len(),
            models == params_view(params@),
            first_local_error(models, 0) == first_local_error(models, i as int),
        decreases params@.len() - i,
    {
        assert(models[i as int] == params@[i as int]@);
        if let Err(error) = params[i].validate_local() {
            return Err(error);
        }
        i = i + 1;
    }
    let mut i: usize = 0;
    while i < params.len()
        invariant
            i <= params@.len(),
            models == params_view(params@),
            first_local_error(models, 0) is None,
            first_unbound(models, 0) == first_unbound(models, i as int),
        decreases params@.len() - i,
    {
        assert(models[i as int] == params@[i as int]@);
        let mut keys = params[i].bound_components();
        let mut members = params[i].member_components();
        keys.append(&mut members);
        assert(keys@ =~= join_keys(models[i as int]));
        if let Some(error) = find_unprovided(params, i, &keys) {
            return Err(error);
        }
        i = i + 1;
    }
    Ok(())
}

impl BindingError {
    /// The error in words; `name` is the name of the component it speaks of.
    pub open spec fn wording(self, name: Seq<char>) -> Seq<char> {
        match self {
            BindingError::OuterUnbound =>
                "`Option<Query<..>>` is an outer join and needs a bound `Where<Eq<..>>` filter; for a maybe-present component on the row itself use `Option<&T>` in the tuple instead"@,
            BindingError::ViewBound(_) => "`View` does not support bound `Where<Eq<"@ + name
                + ">>` yet; bind on a `Query` and filter view rows inside the system"@,
            BindingError::Providers { found, .. } => "bound `Where<Eq<"@ + name
                + ">>` needs exactly one sibling query param reading `&"@ + name + "`; found "@
                + decimal(found as nat),
        }
    }

    /// The error in words; `name` is the name of the component it speaks of.
    pub fn message(&self, name: &str) -> (text: String)
        ensures
            text@ == self.wording(name@),
    {
        match self {
            BindingError::OuterUnbound => String::from_str(
                "`Option<Query<..>>` is an outer join and needs a bound `Where<Eq<..>>` filter; for a maybe-present component on the row itself use `Option<&T>` in the tuple instead",
            ),
            BindingError::ViewBound(_) => {
                let mut text = String::from_str("`View` does not support bound `Where<Eq<");
                text.append(name);
                text.append(">>` yet; bind on a `Query` and filter view rows inside the system");
                text
            },
            BindingError::Providers { found, .. } => {
                let mut text = String::from_str("bound `Where<Eq<");
                text.append(name);
                text.append(">>` needs exactly one sibling query param reading `&");
                text.append(name);
                text.append("`; found ");
                let count = decimal_text(*found as u64);
                text.append(count.as_str());
                text
            },
        }
    }
}

impl JoinError {
    /// The error in words.
    pub open spec fn wording(self) -> Seq<char> {
        match self {
            JoinError::KeyNotHashed => "bound `Where<Eq<..>>` key component must be `#[component(hash)]` so rows can join on fingerprints"@,
            JoinError::ProviderNotHashed => "bound `Where<Eq<..>>` provider component must be `#[component(hash)]` so rows can join on fingerprints"@,
            JoinError::ProviderMustPrecede => "bound join provider must precede the joined query in the system's parameter list (pair-driven planning reads the provider's pair list while building the product)"@,
            JoinError::ProviderNotInverse => "`Where<In<..>>` provider must read a maintained relationship inverse (`relationship_members` returned nothing for the bound set component)"@,
        }
    }

    /// The error in words.
    pub fn message(&self) -> (text: String)
        ensures
            text@ == self.wording(),
    {
        match self {
            JoinError::KeyNotHashed => String::from_str(
                "bound `Where<Eq<..>>` key component must be `#[component(hash)]` so rows can join on fingerprints",
            ),
            JoinError::ProviderNotHashed => String::from_str(
                "bound `Where<Eq<..>>` provider component must be `#[component(hash)]` so rows can join on fingerprints",
            ),
            JoinError::ProviderMustPrecede => String::from_str(
                "bound join provider must precede the joined query in the system's parameter list (pair-driven planning reads the provider's pair list while building the product)",
            ),
            JoinError::ProviderNotInverse => String::from_str(
                "`Where<In<..>>` provider must read a maintained relationship inverse (`relationship_members` returned nothing for the bound set component)",
            ),
        }
    }
}

/// The stores that all parameters together look at; `None` when one of them
/// cannot be bounded.
pub open spec fn system_interest(params: Seq<ParamModel>, count: nat) -> Option<Seq<ComponentId>>
    decreases count,
{
    if count == 0 {
        Some(Seq::empty())
    } else {
        joined(
            system_interest(params, (count - 1) as nat),
            params[count - 1].interest(),
        )
    }
}

/// The component types that all parameters together may emit; `None` is the
/// wildcard.
pub open spec fn system_outputs(params: Seq<ParamModel>, count: nat) -> Option<Seq<ComponentId>>
    decreases count,
{
    if count == 0 {
        Some(Seq::empty())
    } else {
        joined(system_outputs(params, (count - 1) as nat), params[count - 1].declared())
    }
}

/// The component set of every view among the first `count` parameters.
pub open spec fn system_views(params: Seq<ParamModel>, count: nat) -> Seq<Seq<ComponentId>>
    decreases count,
{
    if count == 0 {
        Seq::empty()
    } else {
        let rest = system_views(params, (count - 1) as nat);
        match params[count - 1] {
            ParamModel::View(query) => rest.push(part_components(query.parts)),
            _ => rest,
        }
    }
}

/// The stores whose movement can change what the system plans.
pub fn interest_types(params: &Vec<Param>) -> (interest: Option<Vec<ComponentId>>)
    ensures
        types_view(interest) == system_interest(params_view(params@), params@.len()),
{
    let ghost models = params_view(params@);
    let mut interest: Option<Vec<ComponentId>> = Some(Vec::new());
    let mut i: usize = 0;
    while i < params.len()
        invariant
            i <= params@.len(),
            models == params_view(params@),
            types_view(interest) == system_interest(models, i as nat),
        decreases params@.len() - i,
    {
        assert(models[i as int] == params@[i as int]@);
        interest = merge_declarations(interest, params[i].interest_types());
        i = i + 1;
    }
    interest
}

fn copy_types(types: &Vec<ComponentId>) -> (copy: Vec<ComponentId>)
    ensures
        copy@ == types@,
{
    let mut copy: Vec<ComponentId> = Vec::new();
    let mut i: usize = 0;
    while i < types.len()
        invariant
            i <= types@.len(),
            copy@ =~= types@.take(i as int),
        decreases types@.len() - i,
    {
        copy.push(types[i]);
        i = i + 1;
    }
    assert(types@.take(types@.len() as int) =~= types@);
    copy
}

/// The component types the system declares that it may emit.
pub fn declared_outputs(params: &Vec<Param>) -> (outputs: Option<Vec<ComponentId>>)
    ensures
        types_view(outputs) == system_outputs(params_view(params@), params@.len()),
{
    let ghost models = params_view(params@);
    let mut outputs: Option<Vec<ComponentId>> = Some(Vec::new());
    let mut i: usize = 0;
    while i < params.len()
        invariant
            i <= params@.len(),
            models == params_view(params@),
            types_view(outputs) == system_outputs(models, i as nat),
        decreases params@.len() - i,
    {
        assert(models[i as int] == params@[i as int]@);
        let declared = match &params[i] {
            Param::Commands(declared) => match declared {
                Some(types) => Some(copy_types(types)),
                None => None,
            },
            _ => Some(Vec::new()),
        };
        assert(types_view(declared) == models[i as int].declared());
        outputs = merge_declarations(outputs, declared);
        i = i + 1;
    }
    outputs
}

/// What a list of component sets lists.
pub open spec fn sets_view(sets: Seq<Vec<ComponentId>>) -> Seq<Seq<ComponentId>> {
    sets.map_values(|set: Vec<ComponentId>| set@)
}

/// The component sets the system reads ambiently, one per view: the components
/// an entity must carry to appear in it.
pub fn view_sets(params: &Vec<Param>) -> (sets: Vec<Vec<ComponentId>>)
    ensures
        sets_view(sets@) == system_views(params_view(params@), params@.len()),
{
    let ghost models = params_view(params@);
    let mut sets: Vec<Vec<ComponentId>> = Vec::new();
    let mut i: usize = 0;
    assert(sets_view(sets@) =~= Seq::<Seq<ComponentId>>::empty());
    while i < params.len()
        invariant
            i <= params@.len(),
            models == params_view(params@),
            sets_view(sets@) == system_views(models, i as nat),
        decreases params@.len() - i,
    {
        assert(models[i as int] == params@[i as int]@);
        if let Param::View(query) = &params[i] {
            let ghost before = sets@;
            let kinds = query.part_kinds();
            sets.push(kinds);
            assert(sets_view(sets@) =~= sets_view(before).push(kinds@));
        }
        i = i + 1;
    }
    sets
}

/// Registered joins are total: once the parameters are accepted, every join key
/// of a parameter is read by exactly one sibling.
pub proof fn lemma_accepted_joins_have_one_provider(
    params: Seq<ParamModel>,
    at: int,
    index: int,
)
    requires
        binding_error(params) is None,
        0 <= at < params.len(),
        0 <= index < join_keys(params[at]).len(),
    ensures
        providers(params, join_keys(params[at])[index], at, 0) == 1,
{
    lemma_bound_from(params, 0, at);
    lemma_provided_from(params, at, join_keys(params[at]), 0, index);
}

proof fn lemma_bound_from(params: Seq<ParamModel>, from: int, at: int)
    requires
        0 <= from <= at < params.len(),
        first_unbound(params, from) is None,
    ensures
        first_unprovided(params, at, join_keys(params[at]), 0) is None,
    decreases at - from,
{
    if from < at {
        lemma_bound_from(params, from + 1, at);
    }
}

proof fn lemma_provided_from(
    params: Seq<ParamModel>,
    at: int,
    keys: Seq<ComponentId>,
    from: int,
    index: int,
)
    requires
        0 <= from <= index < keys.len(),
        first_unprovided(params, at, keys, from) is None,
    ensures
        providers(params, keys[index], at, 0) == 1,
    decreases index - from,
{
    if from < index {
        lemma_provided_from(params, at, keys, from + 1, index);
    }
}

} // verus!
