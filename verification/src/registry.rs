//! Registered systems: what one looks at, when it must be planned again, and
//! from which rows.

use crate::binding::{
    binding_error, declared_outputs, interest_types, sets_view, system_interest, system_outputs,
    system_views, validate_bindings, view_sets,
};
use crate::component::{ComponentId, RelationshipTarget};
use crate::declare::{joined, merge_declarations, types_view};
use crate::entity::Entity;
use crate::invocation::{Invocation, SystemId, SystemInvocation};
use crate::join::{delta_shape_of, enumerate_states};
use crate::keys::{lists, set_elements};
use crate::memo::{
    count_rows, memoized_count, plan_invocations, plan_invocations_hinted, planned_states,
    planned_view, to_run, MemoTable, PlannedInvocation,
};
use crate::model::{later, sorted_keys, Cell, WorldModel};
use crate::param::{
    params_view, system_delta_shape, system_states, DeltaShape, JoinError, Param, ParamModel,
    RowState,
};
use crate::param::BindingError;
use crate::system::{Phase, Wrapper};
use crate::world::{as_entities, World};
use std::collections::BTreeSet;
use vstd::prelude::*;

verus! {

/// A registered system.
#[derive(Debug)]
pub struct BoxedSystem {
    pub id: SystemId,
    pub name: &'static str,
    pub params: Vec<Param>,
    pub phase: Phase,
    /// One component set per view: the components an entity must carry to appear
    /// in it.
    pub view_sets: Vec<Vec<ComponentId>>,
    /// Component types the system declared it may emit; `None` is the wildcard.
    pub declared_outputs: Option<Vec<ComponentId>>,
    /// The stores whose movement can change what the system plans; `None` means
    /// that it is planned in every wave.
    pub interest: Option<Vec<ComponentId>>,
    /// The highest watermark of those stores at the last plan.
    pub planned_mark: u64,
    /// Whether the system can plan from a dirty-entity hint.
    pub delta_eligible: bool,
    /// The plan epoch that `log_pos` belongs to; `u64::MAX` makes the next plan
    /// a full one.
    pub plan_epoch: u64,
    /// Write-log entries before this were covered by the last plan.
    pub log_pos: usize,
    /// Rows to plan again although nothing was written to them.
    pub forced: Vec<Entity>,
    /// The hooks around the system, innermost first.
    pub wrappers: Vec<Wrapper>,
}

/// What a [`BoxedSystem`] knows, profiling aside.
#[verifier::ext_equal]
pub struct SystemModel {
    pub id: SystemId,
    pub name: Seq<char>,
    pub params: Seq<ParamModel>,
    pub phase: Phase,
    pub views: Seq<Seq<ComponentId>>,
    pub outputs: Option<Seq<ComponentId>>,
    pub interest: Option<Seq<ComponentId>>,
    pub mark: u64,
    pub delta: bool,
    pub epoch: u64,
    pub position: usize,
    pub forced: Seq<Entity>,
    pub wrappers: Seq<Wrapper>,
}

impl View for BoxedSystem {
    type V = SystemModel;

    open spec fn view(&self) -> SystemModel {
        SystemModel {
            id: self.id,
            name: self.name@,
            params: params_view(self.params@),
            phase: self.phase,
            views: sets_view(self.view_sets@),
            outputs: types_view(self.declared_outputs),
            interest: types_view(self.interest),
            mark: self.planned_mark,
            delta: self.delta_eligible,
            epoch: self.plan_epoch,
            position: self.log_pos,
            forced: self.forced@,
            wrappers: self.wrappers@,
        }
    }
}

/// What a list of systems knows.
pub open spec fn systems_view(systems: Seq<BoxedSystem>) -> Seq<SystemModel> {
    systems.map_values(|system: BoxedSystem| system@)
}

/// The highest watermark among `kinds`.
pub open spec fn interest_mark<C: RelationshipTarget>(
    world: WorldModel<C>,
    kinds: Seq<ComponentId>,
) -> u64
    decreases kinds.len(),
{
    if kinds.len() == 0 {
        0
    } else {
        later(interest_mark(world, kinds.drop_last()), world.column(kinds.last()).watermark)
    }
}

/// The ids of the entities that `log` mentions in one of `kinds`.
pub open spec fn dirty_ids(log: Seq<Cell>, kinds: Seq<ComponentId>) -> Set<u64> {
    Set::new(
        |id: u64|
            exists|i: int|
                0 <= i < log.len() && (#[trigger] log[i]).1.id() == id && kinds.contains(log[i].0),
    )
}

/// The ids of `entities`.
pub open spec fn entity_ids(entities: Seq<Entity>) -> Set<u64> {
    Set::new(|id: u64| entities.contains(Entity::of(id)))
}

impl SystemModel {
    /// A system as registration leaves it: never planned.
    pub open spec fn fresh(id: SystemId, name: Seq<char>, params: Seq<ParamModel>) -> SystemModel {
        let interest = system_interest(params, params.len());
        SystemModel {
            id,
            name,
            params,
            phase: Phase::Evaluate,
            views: system_views(params, params.len()),
            outputs: system_outputs(params, params.len()),
            interest,
            mark: 0,
            delta: system_delta_shape(params) == DeltaShape::Driver && interest is Some,
            epoch: u64::MAX,
            position: 0,
            forced: Seq::empty(),
            wrappers: Seq::empty(),
        }
    }

    /// The system inside one more hook; the hook's declaration joins the
    /// system's.
    pub open spec fn wrapped(self, wrapper: Wrapper, declared: Option<Seq<ComponentId>>) -> SystemModel {
        SystemModel {
            outputs: joined(self.outputs, declared),
            wrappers: self.wrappers.push(wrapper),
            mark: 0,
            epoch: u64::MAX,
            position: 0,
            ..self
        }
    }

    /// Whether the planner must consider the system: one of its stores moved past
    /// the last planned mark, or its interest is unbounded.
    pub open spec fn must_plan<C: RelationshipTarget>(self, world: WorldModel<C>) -> bool {
        match self.interest {
            Some(kinds) => interest_mark(world, kinds) > self.mark,
            None => true,
        }
    }

    /// The system after the planner took it up.
    pub open spec fn marked<C: RelationshipTarget>(self, world: WorldModel<C>) -> SystemModel {
        match self.interest {
            Some(kinds) => SystemModel { mark: interest_mark(world, kinds), ..self },
            None => self,
        }
    }

    /// The system with every planning mark cleared: the next plan is full.
    pub open spec fn unplanned(self) -> SystemModel {
        SystemModel { mark: 0, epoch: u64::MAX, ..self }
    }

    /// The system with the rows `keys` due again. An invocation without row keys
    /// makes the next plan a full one.
    pub open spec fn forced_on(self, keys: Seq<Entity>) -> SystemModel {
        if keys.len() == 0 {
            self.unplanned()
        } else {
            SystemModel { mark: 0, forced: self.forced + keys, ..self }
        }
    }

    /// The part of the write log that the last plan did not cover.
    pub open spec fn uncovered(self, log: Seq<Cell>) -> Seq<Cell> {
        if self.position <= log.len() {
            log.skip(self.position as int)
        } else {
            Seq::empty()
        }
    }

    /// The rows to plan from: the entities written since the last plan and those
    /// that are due again, ascending; `None` makes it a full plan.
    pub open spec fn hint(self, log: Seq<Cell>, epoch: u64) -> Option<Seq<Entity>> {
        if self.delta && self.epoch == epoch {
            Some(
                as_entities(
                    sorted_keys(
                        dirty_ids(self.uncovered(log), self.interest->0).union(
                            entity_ids(self.forced),
                        ),
                    ),
                ),
            )
        } else {
            None
        }
    }

    /// The system after it was planned against a log of `len` entries.
    pub open spec fn planned(self, len: nat, epoch: u64) -> SystemModel {
        SystemModel {
            forced: Seq::empty(),
            position: if self.delta {
                len as usize
            } else {
                self.position
            },
            epoch: if self.delta {
                epoch
            } else {
                self.epoch
            },
            ..self
        }
    }

    /// Whether a hook runs around each batch of the system.
    pub open spec fn batched(self) -> bool {
        self.wrappers.contains(Wrapper::Start) || self.wrappers.contains(Wrapper::Complete)
    }

    /// Whether the outermost hook waits for the settle.
    pub open spec fn settles(self) -> bool {
        self.wrappers.len() > 0 && self.wrappers.last() == Wrapper::Settled
    }

    /// Only a system with bounded interest plans from hints.
    pub open spec fn sound(self) -> bool {
        self.delta ==> self.interest is Some
    }
}

impl BoxedSystem {
    /// Whether the system can only be delta-planned when its interest is bounded.
    pub open spec fn wf(&self) -> bool {
        self@.sound()
    }

    /// Registers a system: validates its parameters against each other, and
    /// summarises what it reads and writes.
    pub fn new(id: SystemId, name: &'static str, params: Vec<Param>) -> (system: Result<
        BoxedSystem,
        BindingError,
    >)
        ensures
            match system {
                Ok(system) => {
                    &&& binding_error(params_view(params@)) is None
                    &&& system@ == SystemModel::fresh(id, name@, params_view(params@))
                    &&& system.wf()
                },
                Err(error) => binding_error(params_view(params@)) == Some(error),
            },
    {
        if let Err(error) = validate_bindings(&params) {
            return Err(error);
        }
        let views = view_sets(&params);
        let outputs = declared_outputs(&params);
        let interest = interest_types(&params);
        let driven = match delta_shape_of(&params) {
            DeltaShape::Driver => true,
            _ => false,
        };
        let bounded = interest.is_some();
        let system = BoxedSystem {
            id,
            name,
            params,
            phase: Phase::Evaluate,
            view_sets: views,
            declared_outputs: outputs,
            interest,
            planned_mark: 0,
            delta_eligible: driven && bounded,
            plan_epoch: u64::MAX,
            log_pos: 0,
            forced: Vec::new(),
            wrappers: Vec::new(),
        };
        assert(system@ =~= SystemModel::fresh(id, name@, params_view(params@)));
        Ok(system)
    }

    /// Wraps the system in a hook that may emit `declared`.
    pub fn wrapped(self, wrapper: Wrapper, declared: Option<Vec<ComponentId>>) -> (system: BoxedSystem)
        requires
            self.wf(),
        ensures
            system.wf(),
            system@ == self@.wrapped(wrapper, types_view(declared)),
    {
        let mut system = self;
        system.declared_outputs = merge_declarations(system.declared_outputs, declared);
        system.wrappers.push(wrapper);
        system.planned_mark = 0;
        system.plan_epoch = u64::MAX;
        system.log_pos = 0;
        system
    }

    /// Runs the system during `phase`.
    pub fn run_during(self, phase: Phase) -> (system: BoxedSystem)
        requires
            self.wf(),
        ensures
            system.wf(),
            system@ == (SystemModel { phase, ..self@ }),
    {
        let mut system = self;
        system.phase = phase;
        system
    }

    fn current_mark<C: RelationshipTarget>(&self, snapshot: &World<C>) -> (mark: Option<u64>)
        ensures
            mark == match self@.interest {
                Some(kinds) => Some(interest_mark(snapshot@, kinds)),
                None => None,
            },
    {
        match &self.interest {
            None => None,
            Some(kinds) => {
                let mut mark: u64 = 0;
                let mut i: usize = 0;
                assert(kinds@.take(0) =~= Seq::<ComponentId>::empty());
                while i < kinds.len()
                    invariant
                        i <= kinds@.len(),
                        mark == interest_mark(snapshot@, kinds@.take(i as int)),
                    decreases kinds@.len() - i,
                {
                    assert(kinds@.take(i + 1).drop_last() =~= kinds@.take(i as int));
                    let watermark = snapshot.store_watermark(kinds[i]);
                    if watermark > mark {
                        mark = watermark;
                    }
                    i = i + 1;
                }
                assert(kinds@.take(kinds@.len() as int) =~= kinds@);
                Some(mark)
            },
        }
    }

    /// Whether the planner must consider the system; no mark moves.
    pub fn peek_needs_planning<C: RelationshipTarget>(&self, snapshot: &World<C>) -> (due: bool)
        ensures
            due == self@.must_plan(snapshot@),
    {
        match self.current_mark(snapshot) {
            Some(mark) => mark > self.planned_mark,
            None => true,
        }
    }

    /// Whether the planner must consider the system; the mark advances to the
    /// snapshot's level when it must.
    pub fn needs_planning<C: RelationshipTarget>(&mut self, snapshot: &World<C>) -> (due: bool)
        requires
            old(self).wf(),
        ensures
            final(self).wf(),
            due == old(self)@.must_plan(snapshot@),
            final(self)@ == if due {
                old(self)@.marked(snapshot@)
            } else {
                old(self)@
            },
    {
        match self.current_mark(snapshot) {
            Some(mark) => if mark > self.planned_mark {
                self.planned_mark = mark;
                true
            } else {
                false
            },
            None => true,
        }
    }

    /// Clears every planning mark: the next wave plans the system in full.
    pub fn reset_planned_mark(&mut self)
        requires
            old(self).wf(),
        ensures
            final(self).wf(),
            final(self)@ == old(self)@.unplanned(),
    {
        self.planned_mark = 0;
        self.plan_epoch = u64::MAX;
    }

    /// Makes the row of a deferred or discarded invocation due again, although
    /// nothing may be written to it.
    pub fn force_replan(&mut self, keys: &Vec<Entity>)
        requires
            old(self).wf(),
        ensures
            final(self).wf(),
            final(self)@ == old(self)@.forced_on(keys@),
    {
        if keys.len() == 0 {
            self.reset_planned_mark();
        } else {
            self.planned_mark = 0;
            let mut more = crate::invocation::copy_entities(keys);
            self.forced.append(&mut more);
        }
    }

    /// Drains the rows that are due again.
    pub fn take_forced_dirty(&mut self) -> (rows: Vec<Entity>)
        requires
            old(self).wf(),
        ensures
            final(self).wf(),
            rows@ == old(self)@.forced,
            final(self)@ == (SystemModel { forced: Seq::empty(), ..old(self)@ }),
    {
        let mut rows: Vec<Entity> = Vec::new();
        rows.append(&mut self.forced);
        rows
    }

    /// The rows to plan from, given the write log of `epoch`.
    pub fn delta_hint(&self, log: &Vec<Cell>, epoch: u64) -> (hint: Option<Vec<Entity>>)
        requires
            self.wf(),
        ensures
            match hint {
                Some(hint) => self@.hint(log@, epoch) == Some(hint@),
                None => self@.hint(log@, epoch) is None,
            },
    {
        if !self.delta_eligible || self.plan_epoch != epoch {
            return None;
        }
        let mut ids: BTreeSet<u64> = BTreeSet::new();
        if let Some(kinds) = &self.interest {
            let ghost start = if self.log_pos <= log@.len() {
                self.log_pos as int
            } else {
                log@.len() as int
            };
            let mut i: usize = if self.log_pos <= log.len() {
                self.log_pos
            } else {
                log.len()
            };
            while i < log.len()
                invariant
                    start <= i <= log@.len(),
                    forall|id: u64|
                        ids@.contains(id) <==> exists|j: int|
                            start <= j < i && (#[trigger] log@[j]).1.id() == id && kinds@.contains(
                                log@[j].0,
                            ),
                decreases log@.len() - i,
            {
                let ghost before = ids@;
                let hit = lists(kinds, log[i].0);
                if hit {
                    ids.insert(log[i].1.raw());
                }
                proof {
                    assert forall|id: u64|
                        ids@.contains(id) <==> exists|j: int|
                            start <= j < i + 1 && (#[trigger] log@[j]).1.id() == id
                                && kinds@.contains(log@[j].0) by {
                        if before.contains(id) {
                            let j = choose|j: int|
                                start <= j < i && (#[trigger] log@[j]).1.id() == id
                                    && kinds@.contains(log@[j].0);
                            assert(start <= j < i + 1 && log@[j].1.id() == id);
                        }
                        if hit && id == log@[i as int].1.id() {
                            assert(start <= i < i + 1 && log@[i as int].1.id() == id);
                        }
                    }
                }
                i = i + 1;
            }
            proof {
                let rest = self@.uncovered(log@);
                assert(ids@ =~= dirty_ids(rest, kinds@)) by {
                    assert forall|id: u64|
                        ids@.contains(id) <==> dirty_ids(rest, kinds@).contains(id) by {
                        if ids@.contains(id) {
                            let j = choose|j: int|
                                start <= j < log@.len() && (#[trigger] log@[j]).1.id() == id
                                    && kinds@.contains(log@[j].0);
                            assert(rest[j - start] == log@[j]);
                        }
                        if dirty_ids(rest, kinds@).contains(id) {
                            let j = choose|j: int|
                                0 <= j < rest.len() && (#[trigger] rest[j]).1.id() == id
                                    && kinds@.contains(rest[j].0);
                            assert(log@[start + j] == rest[j]);
                        }
                    }
                }
            }
        }
        let ghost written = ids@;
        let mut i: usize = 0;
        while i < self.forced.len()
            invariant
                i <= self.forced@.len(),
                forall|id: u64| #[trigger]
                    ids@.contains(id) <==> written.contains(id) || self.forced@.take(
                        i as int,
                    ).contains(Entity::of(id)),
            decreases self.forced@.len() - i,
        {
            let ghost before = ids@;
            let entity = self.forced[i];
            ids.insert(entity.raw());
            proof {
                let less = self.forced@.take(i as int);
                let more = self.forced@.take(i + 1);
                assert(more =~= less.push(entity));
                assert forall|id: u64| #[trigger]
                    ids@.contains(id) <==> written.contains(id) || self.forced@.take(
                        i + 1,
                    ).contains(Entity::of(id)) by {
                    let other: Entity = Entity::of(id);
                    assert(other.id() == id);
                    assert(before.contains(id) <==> written.contains(id) || less.contains(other));
                    assert(ids@.contains(id) <==> before.contains(id) || id == entity.id());
                    if less.contains(other) {
                        let j = choose|j: int| 0 <= j < less.len() && less[j] == other;
                        assert(more[j] == other);
                    }
                    if more.contains(other) {
                        let j = choose|j: int| 0 <= j < more.len() && more[j] == other;
                        if j < less.len() {
                            assert(less[j] == other);
                        } else {
                            assert(entity == other);
                        }
                    }
                    if id == entity.id() {
                        crate::entity::lemma_entity_is_its_id(other, entity);
                        assert(more[i as int] == other);
                    }
                }
            }
            i = i + 1;
        }
        assert(self.forced@.take(self.forced@.len() as int) =~= self.forced@);
        let listed = set_elements(&ids);
        let hint = crate::world::entities_of(&listed);
        proof {
            assert(ids@ =~= dirty_ids(self@.uncovered(log@), self@.interest->0).union(
                entity_ids(self@.forced),
            ));
        }
        Some(hint)
    }

    /// Plans the system for one wave: from the rows written since its last plan
    /// when it can, from all its rows otherwise.
    pub fn plan_wave<C: RelationshipTarget>(
        &mut self,
        snapshot: &World<C>,
        memo: &MemoTable,
        log: &Vec<Cell>,
        epoch: u64,
    ) -> (plan: Result<Vec<PlannedInvocation>, JoinError>)
        requires
            old(self).wf(),
            snapshot.wf(),
            memo.wf(),
        ensures
            final(self).wf(),
            final(self)@ == old(self)@.planned(log@.len(), epoch),
            match plan {
                Ok(plan) => planned_states(
                    snapshot@,
                    old(self)@.params,
                    old(self)@.hint(log@, epoch),
                ) matches Ok(states) && planned_view(plan@) == to_run(
                    old(self)@.id,
                    snapshot@,
                    memo@,
                    old(self)@.params,
                    states,
                ),
                Err(error) => planned_states(
                    snapshot@,
                    old(self)@.params,
                    old(self)@.hint(log@, epoch),
                ) == Err::<Seq<Seq<RowState>>, JoinError>(error),
            },
    {
        let hint = self.delta_hint(log, epoch);
        let _ = self.take_forced_dirty();
        let plan = match &hint {
            Some(rows) => plan_invocations_hinted(self.id, snapshot, &self.params, memo, Some(rows)),
            None => plan_invocations_hinted(self.id, snapshot, &self.params, memo, None),
        };
        if self.delta_eligible {
            self.log_pos = log.len();
            self.plan_epoch = epoch;
        }
        match plan {
            Ok(plan) => Ok(plan.invocations),
            Err(error) => Err(error),
        }
    }

    /// Whether a full plan would run anything.
    pub fn has_work<C: RelationshipTarget>(&self, snapshot: &World<C>, memo: &MemoTable) -> (work:
        Result<bool, JoinError>)
        requires
            snapshot.wf(),
            memo.wf(),
        ensures
            match work {
                Ok(work) => system_states(snapshot@, self@.params) matches Ok(states) && work == (
                to_run(self@.id, snapshot@, memo@, self@.params, states).len() > 0),
                Err(error) => system_states(snapshot@, self@.params) == Err::<
                    Seq<Seq<RowState>>,
                    JoinError,
                >(error),
            },
    {
        match plan_invocations(self.id, snapshot, &self.params, memo) {
            Ok(plan) => {
                assert(planned_view(plan.invocations@).len() == plan.invocations@.len());
                Ok(plan.invocations.len() > 0)
            },
            Err(error) => Err(error),
        }
    }

    /// Counts the system's rows: how many match, and how many of those are up to
    /// date.
    pub fn row_counts<C: RelationshipTarget>(&self, snapshot: &World<C>, memo: &MemoTable) -> (counts:
        Result<(usize, usize), JoinError>)
        requires
            snapshot.wf(),
            memo.wf(),
        ensures
            match counts {
                Ok(counts) => system_states(snapshot@, self@.params) matches Ok(states) && counts.0
                    == states.len() && counts.1 == memoized_count(
                    self@.id,
                    snapshot@,
                    memo@,
                    self@.params,
                    states,
                ),
                Err(error) => system_states(snapshot@, self@.params) == Err::<
                    Seq<Seq<RowState>>,
                    JoinError,
                >(error),
            },
    {
        count_rows(self.id, snapshot, &self.params, memo)
    }

    /// How many rows of the system match.
    pub fn matched_rows<C: RelationshipTarget>(&self, snapshot: &World<C>) -> (matched: Result<
        usize,
        JoinError,
    >)
        requires
            snapshot.wf(),
        ensures
            match matched {
                Ok(matched) => system_states(snapshot@, self@.params) matches Ok(states) && matched
                    == states.len(),
                Err(error) => system_states(snapshot@, self@.params) == Err::<
                    Seq<Seq<RowState>>,
                    JoinError,
                >(error),
            },
    {
        match enumerate_states(snapshot, &self.params) {
            Ok(states) => {
                assert(crate::param::states_view(states@).len() == states@.len());
                Ok(states.len())
            },
            Err(error) => Err(error),
        }
    }

    /// The owner of what the system's hooks emit.
    pub fn hook_owner(&self) -> (owner: SystemInvocation)
        ensures
            owner@ == (Invocation { system: self@.id, keys: Seq::empty() }),
    {
        let keys: Vec<Entity> = Vec::new();
        let owner = SystemInvocation::new(self.id, keys);
        assert(owner@.keys =~= Seq::<Entity>::empty());
        owner
    }

    /// Whether the settled hook of the system is due: its rows are all up to
    /// date, there are some, and the hook has not emitted yet. `live` is the live
    /// world, which alone knows what is owned.
    pub fn settled_due<C: RelationshipTarget>(
        &self,
        live: &World<C>,
        snapshot: &World<C>,
        memo: &MemoTable,
    ) -> (due: Result<bool, JoinError>)
        requires
            live.wf(),
            snapshot.wf(),
            memo.wf(),
        ensures
            match due {
                Ok(due) => if self@.settles() {
                    system_states(snapshot@, self@.params) matches Ok(states) && due == (
                    states.len() > 0 && to_run(
                        self@.id,
                        snapshot@,
                        memo@,
                        self@.params,
                        states,
                    ).len() == 0 && crate::model::outputs(
                        live@.owned,
                        Invocation { system: self@.id, keys: Seq::empty() },
                    ).len() == 0)
                } else {
                    !due
                },
                Err(error) => self@.settles() && system_states(snapshot@, self@.params) == Err::<
                    Seq<Seq<RowState>>,
                    JoinError,
                >(error),
            },
    {
        if self.wrappers.len() == 0 {
            return Ok(false);
        }
        match self.wrappers[self.wrappers.len() - 1] {
            Wrapper::Settled => {},
            _ => {
                return Ok(false);
            },
        }
        match plan_invocations(self.id, snapshot, &self.params, memo) {
            Ok(plan) => {
                assert(planned_view(plan.invocations@).len() == plan.invocations@.len());
                let owner = self.hook_owner();
                Ok(plan.completed && plan.invocations.len() == 0 && !live.has_derived_owned(&owner))
            },
            Err(error) => Err(error),
        }
    }

    /// Whether a hook runs around each batch of the system.
    pub fn is_batched(&self) -> (batched: bool)
        ensures
            batched == self@.batched(),
    {
        let mut i: usize = 0;
        while i < self.wrappers.len()
            invariant
                i <= self.wrappers@.len(),
                forall|j: int|
                    0 <= j < i ==> (#[trigger] self.wrappers@[j]) == Wrapper::Settled,
            decreases self.wrappers@.len() - i,
        {
            match self.wrappers[i] {
                Wrapper::Settled => {},
                Wrapper::Start => {
                    assert(self@.wrappers[i as int] == Wrapper::Start);
                    return true;
                },
                Wrapper::Complete => {
                    assert(self@.wrappers[i as int] == Wrapper::Complete);
                    return true;
                },
            }
            i = i + 1;
        }
        false
    }
}

} // verus!
