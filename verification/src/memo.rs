//! Memoized planning: which invocations of a system must run.

use crate::access::Access;
use crate::component::RelationshipTarget;
use crate::entity::Entity;
use crate::invocation::{Invocation, InvocationMap, SystemId, SystemInvocation};
use crate::join::{
    access_of_state, always_run, deps_of_state, enumerate_hinted, enumerate_states, hint_view,
    keys_of_state, lemma_states_admitted,
};
use crate::model::{Cell, WorldModel};
use crate::param::{
    always_runs, hinted_states, params_view, state_access, state_admitted, state_deps, state_keys,
    states_view, system_states, JoinError, Param, ParamModel, RowState,
};
use crate::query::Dep;
use crate::world::World;
use vstd::prelude::*;

verus! {

impl Dep {
    /// Whether two dependencies observed the same revision of the same input.
    pub fn same(&self, other: &Dep) -> (same: bool)
        ensures
            same == (*self == *other),
    {
        let entities_agree = match (self.entity, other.entity) {
            (Some(a), Some(b)) => a.same(b),
            (None, None) => true,
            _ => false,
        };
        self.component == other.component && entities_agree && self.revision == other.revision
            && self.absent == other.absent
    }
}

/// Memoized dependency record of one invocation: the tracked inputs it observed
/// the last time it ran.
#[derive(Debug)]
pub struct MemoEntry {
    deps: Vec<Dep>,
    planned_revision: u64,
}

/// What a [`MemoEntry`] records.
#[verifier::ext_equal]
pub struct MemoModel {
    pub deps: Seq<Dep>,
    pub planned_revision: u64,
}

/// The memo table: the record of every invocation that has run.
pub type MemoTable = InvocationMap<MemoEntry>;

impl View for MemoEntry {
    type V = MemoModel;

    closed spec fn view(&self) -> MemoModel {
        MemoModel { deps: self.deps@, planned_revision: self.planned_revision }
    }
}

/// Whether every dependency still holds.
pub open spec fn deps_hold<C: RelationshipTarget>(world: WorldModel<C>, deps: Seq<Dep>) -> bool {
    forall|i: int| 0 <= i < deps.len() ==> (#[trigger] deps[i]).holds(world)
}

/// The dependencies after their own invocation wrote `writes`.
pub open spec fn deps_refreshed<C: RelationshipTarget>(
    world: WorldModel<C>,
    deps: Seq<Dep>,
    writes: Seq<Cell>,
) -> Seq<Dep> {
    deps.map_values(|dep: Dep| dep.refreshed(world, writes))
}

impl MemoModel {
    /// The record after its own invocation wrote `writes`.
    pub open spec fn refreshed<C: RelationshipTarget>(
        self,
        world: WorldModel<C>,
        writes: Seq<Cell>,
    ) -> MemoModel {
        MemoModel { deps: deps_refreshed(world, self.deps, writes), ..self }
    }
}

impl MemoEntry {
    /// Records the inputs an invocation observed, and the world revision it was
    /// planned from.
    pub fn new(deps: Vec<Dep>, planned_revision: u64) -> (entry: Self)
        ensures
            entry@ == (MemoModel { deps: deps@, planned_revision }),
    {
        MemoEntry { deps, planned_revision }
    }

    /// World revision of the snapshot the invocation last planned from.
    pub fn planned_revision(&self) -> (revision: u64)
        ensures
            revision == self@.planned_revision,
    {
        self.planned_revision
    }

    /// Whether every recorded input is still current.
    pub fn is_current<C: RelationshipTarget>(&self, snapshot: &World<C>) -> (current: bool)
        ensures
            current == deps_hold(snapshot@, self@.deps),
    {
        let mut i: usize = 0;
        while i < self.deps.len()
            invariant
                i <= self.deps@.len(),
                forall|j: int| 0 <= j < i ==> (#[trigger] self.deps@[j]).holds(snapshot@),
            decreases self.deps@.len() - i,
        {
            if !self.deps[i].is_current(snapshot) {
                assert(!self@.deps[i as int].holds(snapshot@));
                return false;
            }
            i = i + 1;
        }
        true
    }

    /// Whether the record lists exactly `deps`.
    pub fn matches(&self, deps: &Vec<Dep>) -> (same: bool)
        ensures
            same == (self@.deps == deps@),
    {
        if self.deps.len() != deps.len() {
            return false;
        }
        let mut i: usize = 0;
        while i < deps.len()
            invariant
                i <= deps@.len(),
                self.deps@.len() == deps@.len(),
                forall|j: int| 0 <= j < i ==> self.deps@[j] == deps@[j],
            decreases deps@.len() - i,
        {
            if !self.deps[i].same(&deps[i]) {
                assert(self@.deps[i as int] != deps@[i as int]);
                return false;
            }
            i = i + 1;
        }
        assert(self@.deps =~= deps@);
        true
    }

    /// Refreshes the inputs that this invocation wrote itself, absorbing the
    /// post-commit revisions: an invocation's own write is its output, not a
    /// changed input.
    pub fn refresh_written<C: RelationshipTarget>(&mut self, world: &World<C>, writes: &Vec<Cell>)
        ensures
            final(self)@ == old(self)@.refreshed(world@, writes@),
    {
        let mut deps: Vec<Dep> = Vec::new();
        let mut i: usize = 0;
        while i < self.deps.len()
            invariant
                i <= self.deps@.len(),
                *self == *old(self),
                deps@ =~= deps_refreshed(world@, self.deps@, writes@).take(i as int),
            decreases self.deps@.len() - i,
        {
            let mut dep = self.deps[i];
            dep.refresh_written(world, writes);
            deps.push(dep);
            i = i + 1;
        }
        assert(deps@ =~= deps_refreshed(world@, self.deps@, writes@));
        self.deps = deps;
    }
}

/// One invocation that must run.
#[derive(Debug)]
pub struct PlannedInvocation {
    pub state: Vec<RowState>,
    pub owner: SystemInvocation,
    pub deps: Vec<Dep>,
    pub access: Vec<Access>,
}

/// What a [`PlannedInvocation`] plans.
#[verifier::ext_equal]
pub struct PlannedModel {
    pub state: Seq<RowState>,
    pub owner: Invocation,
    pub deps: Seq<Dep>,
    pub access: Seq<Access>,
}

impl View for PlannedInvocation {
    type V = PlannedModel;

    open spec fn view(&self) -> PlannedModel {
        PlannedModel {
            state: self.state@,
            owner: self.owner@,
            deps: self.deps@,
            access: self.access@,
        }
    }
}

/// What a list of planned invocations plans.
pub open spec fn planned_view(planned: Seq<PlannedInvocation>) -> Seq<PlannedModel> {
    planned.map_values(|invocation: PlannedInvocation| invocation@)
}

/// The plan of one system: the invocations that must run, and whether the
/// system has any rows at all.
#[derive(Debug)]
pub struct PlannedRun {
    pub completed: bool,
    pub invocations: Vec<PlannedInvocation>,
}

/// The invocation of `system` on a state of its parameters.
pub open spec fn invocation_of<C: RelationshipTarget>(
    system: SystemId,
    world: WorldModel<C>,
    params: Seq<ParamModel>,
    state: Seq<RowState>,
) -> PlannedModel {
    PlannedModel {
        state,
        owner: Invocation { system, keys: state_keys(params, state) },
        deps: state_deps(world, params, state),
        access: state_access(params, state),
    }
}

/// Whether the memo already holds the planned invocation: it ran before, and it
/// would observe the same inputs again.
pub open spec fn memoized(
    memo: Map<Invocation, MemoModel>,
    params: Seq<ParamModel>,
    planned: PlannedModel,
) -> bool {
    &&& !always_runs(params)
    &&& memo.contains_key(planned.owner)
    &&& memo[planned.owner].deps == planned.deps
}

/// The invocations on `states` that the memo does not hold, in order.
pub open spec fn to_run<C: RelationshipTarget>(
    system: SystemId,
    world: WorldModel<C>,
    memo: Map<Invocation, MemoModel>,
    params: Seq<ParamModel>,
    states: Seq<Seq<RowState>>,
) -> Seq<PlannedModel>
    decreases states.len(),
{
    if states.len() == 0 {
        Seq::empty()
    } else {
        let rest = to_run(system, world, memo, params, states.drop_last());
        let planned = invocation_of(system, world, params, states.last());
        if memoized(memo, params, planned) {
            rest
        } else {
            rest.push(planned)
        }
    }
}

/// The states a plan ranges over: all of them, or those on the hinted rows.
pub open spec fn planned_states<C: RelationshipTarget>(
    world: WorldModel<C>,
    params: Seq<ParamModel>,
    hint: Option<Seq<Entity>>,
) -> Result<Seq<Seq<RowState>>, JoinError> {
    match hint {
        Some(hint) => hinted_states(world, params, hint),
        None => system_states(world, params),
    }
}

/// Number of `states` whose invocation the memo holds.
pub open spec fn memoized_count<C: RelationshipTarget>(
    system: SystemId,
    world: WorldModel<C>,
    memo: Map<Invocation, MemoModel>,
    params: Seq<ParamModel>,
    states: Seq<Seq<RowState>>,
) -> nat
    decreases states.len(),
{
    if states.len() == 0 {
        0
    } else {
        memoized_count(system, world, memo, params, states.drop_last()) + if memoized(
            memo,
            params,
            invocation_of(system, world, params, states.last()),
        ) {
            1nat
        } else {
            0nat
        }
    }
}

fn plan_state<C: RelationshipTarget>(
    system: SystemId,
    snapshot: &World<C>,
    params: &Vec<Param>,
    state: Vec<RowState>,
) -> (planned: PlannedInvocation)
    requires
        state_admitted(snapshot@, params_view(params@), state@),
    ensures
        planned@ == invocation_of(system, snapshot@, params_view(params@), state@),
{
    let owner = SystemInvocation::new(system, keys_of_state(&state, params));
    let deps = deps_of_state(snapshot, params, &state);
    let access = access_of_state(params, &state);
    PlannedInvocation { state, owner, deps, access }
}

fn is_memoized(memo: &MemoTable, params: &Vec<Param>, planned: &PlannedInvocation) -> (held: bool)
    requires
        memo.wf(),
    ensures
        held == memoized(memo@, params_view(params@), planned@),
{
    if always_run(params) {
        return false;
    }
    match memo.get(&planned.owner) {
        Some(entry) => entry.matches(&planned.deps),
        None => false,
    }
}

/// Plans a system over all its rows.
pub fn plan_invocations<C: RelationshipTarget>(
    system: SystemId,
    snapshot: &World<C>,
    params: &Vec<Param>,
    memo: &MemoTable,
) -> (plan: Result<PlannedRun, JoinError>)
    requires
        snapshot.wf(),
        memo.wf(),
    ensures
        match plan {
            Ok(plan) => system_states(snapshot@, params_view(params@)) matches Ok(states)
                && plan.completed == (states.len() > 0) && planned_view(plan.invocations@)
                == to_run(system, snapshot@, memo@, params_view(params@), states),
            Err(error) => system_states(snapshot@, params_view(params@)) == Err::<
                Seq<Seq<RowState>>,
                JoinError,
            >(error),
        },
{
    plan_invocations_hinted(system, snapshot, params, memo, None)
}

/// Plans a system over all its rows, or over the hinted ones only.
///
/// A row is planned when the system runs in every pass, when the row was never
/// run, or when it would observe other inputs than it did last time.
pub fn plan_invocations_hinted<C: RelationshipTarget>(
    system: SystemId,
    snapshot: &World<C>,
    params: &Vec<Param>,
    memo: &MemoTable,
    hint: Option<&Vec<Entity>>,
) -> (plan: Result<PlannedRun, JoinError>)
    requires
        snapshot.wf(),
        memo.wf(),
    ensures
        match plan {
            Ok(plan) => planned_states(
                snapshot@,
                params_view(params@),
                hint_view(hint),
            ) matches Ok(states) && plan.completed == (states.len() > 0) && planned_view(
                plan.invocations@,
            ) == to_run(system, snapshot@, memo@, params_view(params@), states),
            Err(error) => planned_states(snapshot@, params_view(params@), hint_view(hint)) == Err::<
                Seq<Seq<RowState>>,
                JoinError,
            >(error),
        },
{
    let found = match hint {
        Some(hint) => enumerate_hinted(snapshot, params, hint),
        None => enumerate_states(snapshot, params),
    };
    let mut rest = match found {
        Ok(states) => states,
        Err(error) => {
            return Err(error);
        },
    };
    let completed = rest.len() > 0;
    let ghost models = params_view(params@);
    let ghost states = states_view(rest@);
    let ghost total = rest@.len();
    proof {
        lemma_planned_states_admitted(snapshot@, models, hint_view(hint));
        let found = planned_states(snapshot@, models, hint_view(hint))->Ok_0;
        assert forall|i: int| 0 <= i < states.len() implies state_admitted(
            snapshot@,
            models,
            #[trigger] states[i],
        ) by {
            assert(found[i] == states[i]);
        }
    }
    let mut invocations: Vec<PlannedInvocation> = Vec::new();
    let ghost mut done: int = 0;
    assert(states.take(0) =~= Seq::<Seq<RowState>>::empty());
    assert(planned_view(invocations@) =~= Seq::<PlannedModel>::empty());
    while rest.len() > 0
        invariant
            memo.wf(),
            models == params_view(params@),
            0 <= done,
            done + rest@.len() == total,
            states.len() == total,
            states_view(rest@) =~= states.skip(done),
            forall|i: int|
                0 <= i < states.len() ==> state_admitted(snapshot@, models, #[trigger] states[i]),
            planned_view(invocations@) == to_run(
                system,
                snapshot@,
                memo@,
                models,
                states.take(done),
            ),
        decreases rest@.len(),
    {
        let ghost held = rest@;
        let state = rest.remove(0);
        assert(states_view(held)[0] == states.skip(done)[0]);
        assert(state@ == states[done]);
        assert(states.take(done + 1).drop_last() =~= states.take(done));
        assert(states_view(rest@) =~= states_view(held).drop_first());
        assert(states.skip(done + 1) =~= states.skip(done).drop_first());
        let planned = plan_state(system, snapshot, params, state);
        if !is_memoized(memo, params, &planned) {
            let ghost before = invocations@;
            invocations.push(planned);
            assert(planned_view(invocations@) =~= planned_view(before).push(planned@));
        }
        proof {
            done = done + 1;
        }
    }
    assert(states.take(done) =~= states);
    Ok(PlannedRun { completed, invocations })
}

proof fn lemma_planned_states_admitted<C: RelationshipTarget>(
    world: WorldModel<C>,
    params: Seq<ParamModel>,
    hint: Option<Seq<Entity>>,
)
    requires
        planned_states(world, params, hint) is Ok,
    ensures
        forall|i: int|
            0 <= i < planned_states(world, params, hint)->Ok_0.len() ==> state_admitted(
                world,
                params,
                #[trigger] planned_states(world, params, hint)->Ok_0[i],
            ),
{
    match hint {
        Some(hint) => {
            crate::join::lemma_product_admitted(world, params, params.len(), Some(hint));
        },
        None => {
            lemma_states_admitted(world, params);
        },
    }
}

/// Counts a system's rows: how many match, and how many of those the planner
/// would skip because the inputs they recorded are unchanged.
pub fn count_rows<C: RelationshipTarget>(
    system: SystemId,
    snapshot: &World<C>,
    params: &Vec<Param>,
    memo: &MemoTable,
) -> (counts: Result<(usize, usize), JoinError>)
    requires
        snapshot.wf(),
        memo.wf(),
    ensures
        match counts {
            Ok(counts) => system_states(snapshot@, params_view(params@)) matches Ok(states)
                && counts.0 == states.len() && counts.1 == memoized_count(
                system,
                snapshot@,
                memo@,
                params_view(params@),
                states,
            ),
            Err(error) => system_states(snapshot@, params_view(params@)) == Err::<
                Seq<Seq<RowState>>,
                JoinError,
            >(error),
        },
{
    let mut rest = match enumerate_states(snapshot, params) {
        Ok(states) => states,
        Err(error) => {
            return Err(error);
        },
    };
    let matched = rest.len();
    let ghost models = params_view(params@);
    let ghost states = states_view(rest@);
    let ghost total = rest@.len();
    proof {
        lemma_states_admitted(snapshot@, models);
        let found = system_states(snapshot@, models)->Ok_0;
        assert forall|i: int| 0 <= i < states.len() implies state_admitted(
            snapshot@,
            models,
            #[trigger] states[i],
        ) by {
            assert(found[i] == states[i]);
        }
    }
    let mut held: usize = 0;
    let ghost mut done: int = 0;
    assert(states.take(0) =~= Seq::<Seq<RowState>>::empty());
    while rest.len() > 0
        invariant
            memo.wf(),
            models == params_view(params@),
            0 <= done,
            held <= done,
            done + rest@.len() == total,
            total == matched,
            states.len() == total,
            states_view(rest@) =~= states.skip(done),
            forall|i: int|
                0 <= i < states.len() ==> state_admitted(snapshot@, models, #[trigger] states[i]),
            held == memoized_count(system, snapshot@, memo@, models, states.take(done)),
        decreases rest@.len(),
    {
        let ghost before = rest@;
        let state = rest.remove(0);
        assert(states_view(before)[0] == states.skip(done)[0]);
        assert(state@ == states[done]);
        assert(states.take(done + 1).drop_last() =~= states.take(done));
        assert(states_view(rest@) =~= states_view(before).drop_first());
        assert(states.skip(done + 1) =~= states.skip(done).drop_first());
        let planned = plan_state(system, snapshot, params, state);
        if is_memoized(memo, params, &planned) {
            held = held + 1;
        }
        proof {
            done = done + 1;
        }
    }
    assert(states.take(done) =~= states);
    Ok((matched, held))
}

} // verus!
