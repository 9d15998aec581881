//! The state behind a bowl: the world, its systems and memo table, queued inputs,
//! and the bookkeeping of generations, epochs and preemption.

use crate::commands::{base_ops_view, BaseCommandOp, BaseOpModel, CommandOp, OpModel};
use crate::commit::{held_view, schema_view, CheckModel};
use crate::component::{Component, ComponentId, RelationshipTarget};
use crate::declare::ShapeDesc;
use crate::entity::Entity;
use crate::invocation::{Invocation, InvocationMap, SystemId, SystemInvocation};
use crate::memo::{MemoModel, MemoTable};
use crate::model::{next, WorldModel};
use crate::registry::{systems_view, BoxedSystem, SystemModel};
use crate::system::SystemStats;
use crate::world::{Snapshot, World};
use std::sync::Arc;
use vstd::prelude::*;

pub mod bodies;
pub mod hooks;
pub mod builder;
pub mod cleanup;
pub mod course;
pub mod engine;
pub mod explain;
pub mod generation;
pub mod inputs;
pub mod settle;
pub mod take;
pub mod wave;

verus! {

/// Names a suspended caller, who is woken by it.
pub type Ticket = u64;

/// World counters identifying the state a snapshot was taken at.
pub type SnapshotKey = (u64, u64, u64);

/// The state behind a bowl.
pub struct State<C> {
    world: World<C>,
    snapshot_cache: Option<(SnapshotKey, Arc<Snapshot<C>>)>,
    systems: Vec<BoxedSystem>,
    stats: Vec<SystemStats>,
    memo: MemoTable,
    completed_generation: u64,
    running_generation: Option<u64>,
    next_generation: u64,
    pending_generation: Option<u64>,
    pending_inputs: Vec<BaseCommandOp<C>>,
    deferred_inputs: Vec<(u64, BaseCommandOp<C>)>,
    deferred_settle: Vec<(SystemInvocation, CommandOp<C>)>,
    schema: Option<Vec<ShapeDesc>>,
    checked: bool,
    input_seq: u64,
    settling: usize,
    preempt_window: bool,
    preempt_restart: bool,
    preempt_waiters: usize,
    waiters: Vec<(u64, Ticket)>,
    boundary_waiters: Vec<Ticket>,
    settled_revision: u64,
    settled_snapshot: Option<Arc<Snapshot<C>>>,
    settle_watchers: Vec<Ticket>,
    normal_clean: bool,
    startup_ran: bool,
}

/// What a [`State`] holds.
#[verifier::ext_equal]
#[verifier::reject_recursive_types(C)]
pub struct StateModel<C: Component> {
    pub world: WorldModel<C>,
    pub systems: Seq<SystemModel>,
    /// What each system has cost so far.
    pub counters: Seq<SystemStats>,
    pub memo: Map<Invocation, MemoModel>,
    pub completed: u64,
    pub running: Option<u64>,
    pub next: u64,
    pub pending: Option<u64>,
    /// Inputs that the next generation drains.
    pub inputs: Seq<BaseOpModel<C>>,
    /// Inputs that arrived during an epoch, with their arrival sequence.
    pub deferred: Seq<(u64, BaseOpModel<C>)>,
    /// What settle-phase systems emitted for the next run.
    pub held: Seq<(Invocation, OpModel<C>)>,
    pub schema: Option<Seq<ShapeDesc>>,
    pub checked: bool,
    pub sequence: u64,
    /// Callers that are driving an epoch.
    pub settling: usize,
    /// The runner is paused at a preemption boundary.
    pub window: bool,
    /// The next generation restarts through the startup phase.
    pub restart: bool,
    /// Callers that wait for a preemption boundary.
    pub preempting: usize,
    pub waiters: Seq<(u64, Ticket)>,
    pub boundary: Seq<Ticket>,
    pub settled_revision: u64,
    pub retained: Option<WorldModel<C>>,
    pub watchers: Seq<Ticket>,
    pub clean: bool,
    pub started: bool,
}

/// What a list of deferred inputs holds.
pub open spec fn deferred_view<C: Component>(deferred: Seq<(u64, BaseCommandOp<C>)>) -> Seq<
    (u64, BaseOpModel<C>),
> {
    deferred.map_values(|entry: (u64, BaseCommandOp<C>)| (entry.0, entry.1@))
}

impl<C: RelationshipTarget> View for State<C> {
    type V = StateModel<C>;

    closed spec fn view(&self) -> StateModel<C> {
        StateModel {
            world: self.world@,
            systems: systems_view(self.systems@),
            counters: self.stats@,
            memo: self.memo@,
            completed: self.completed_generation,
            running: self.running_generation,
            next: self.next_generation,
            pending: self.pending_generation,
            inputs: base_ops_view(self.pending_inputs@),
            deferred: deferred_view(self.deferred_inputs@),
            held: held_view(self.deferred_settle@),
            schema: schema_view(self.schema),
            checked: self.checked,
            sequence: self.input_seq,
            settling: self.settling,
            window: self.preempt_window,
            restart: self.preempt_restart,
            preempting: self.preempt_waiters,
            waiters: self.waiters@,
            boundary: self.boundary_waiters@,
            settled_revision: self.settled_revision,
            retained: match self.settled_snapshot {
                Some(snapshot) => Some(snapshot@),
                None => None,
            },
            watchers: self.settle_watchers@,
            clean: self.normal_clean,
            started: self.startup_ran,
        }
    }
}

/// The counters of a world.
pub open spec fn key_of<C: RelationshipTarget>(world: WorldModel<C>) -> SnapshotKey {
    (world.next_entity, world.revision, world.mutations)
}

fn snapshot_key<C: RelationshipTarget>(world: &World<C>) -> (key: SnapshotKey)
    ensures
        key == key_of(world@),
{
    (world.next_entity_raw(), world.revision_raw(), world.mutations_raw())
}

/// Registered systems carry the id of their position.
pub open spec fn numbered(systems: Seq<SystemModel>) -> bool {
    forall|i: int|
        0 <= i < systems.len() ==> (#[trigger] systems[i]).id == SystemId(i as usize)
            && systems[i].sound()
}

impl<C: RelationshipTarget> StateModel<C> {
    /// The state of a fresh bowl: generation zero is complete, and the first
    /// input belongs to generation one.
    pub open spec fn initial(checked: bool) -> StateModel<C> {
        StateModel {
            world: WorldModel::nothing(),
            systems: Seq::empty(),
            counters: Seq::empty(),
            memo: Map::empty(),
            completed: 0,
            running: None,
            next: 1,
            pending: None,
            inputs: Seq::empty(),
            deferred: Seq::empty(),
            held: Seq::empty(),
            schema: None,
            checked,
            sequence: 0,
            settling: 0,
            window: false,
            restart: false,
            preempting: 0,
            waiters: Seq::empty(),
            boundary: Seq::empty(),
            settled_revision: 0,
            retained: None,
            watchers: Seq::empty(),
            clean: true,
            started: false,
        }
    }

    /// The state with a pending generation: the one that is pending already, else
    /// the next one.
    pub open spec fn pended(self) -> StateModel<C> {
        StateModel {
            pending: match self.pending {
                Some(generation) => Some(generation),
                None => Some(self.next),
            },
            ..self
        }
    }

    /// Whether nothing is pending, running, or changed since the last settle.
    pub open spec fn is_settled(self) -> bool {
        self.pending is None && self.running is None && self.world.revision
            == self.settled_revision
    }

    /// What commits are checked against.
    pub open spec fn checks(self) -> CheckModel {
        CheckModel { systems: self.systems, schema: self.schema, checked: self.checked }
    }

    /// The state with `inputs` queued for the pending generation.
    pub open spec fn queued(self, inputs: Seq<BaseOpModel<C>>) -> StateModel<C> {
        (StateModel { inputs: self.inputs + inputs, ..self }).pended()
    }

    /// The state with `inputs` left to the next epoch.
    pub open spec fn postponed(self, inputs: Seq<BaseOpModel<C>>) -> StateModel<C> {
        let tag = next(self.sequence);
        StateModel { sequence: tag, deferred: self.deferred + tagged(inputs, tag), ..self }
    }
}

/// Inputs with their arrival sequence.
pub open spec fn tagged<C: Component>(inputs: Seq<BaseOpModel<C>>, tag: u64) -> Seq<
    (u64, BaseOpModel<C>),
> {
    inputs.map_values(|input: BaseOpModel<C>| (tag, input))
}

impl<C: RelationshipTarget> State<C> {
    /// The world, the memo table and the systems are well-formed, and a cached
    /// snapshot is a snapshot of the world as it is.
    pub closed spec fn wf(&self) -> bool {
        &&& self.world.wf()
        &&& self.memo.wf()
        &&& numbered(self@.systems)
        &&& self.stats@.len() == self.systems@.len()
        &&& match self.snapshot_cache {
            Some((key, snapshot)) => {
                &&& key == key_of(self.world@)
                &&& snapshot.wf()
                &&& snapshot@ == self.world@.snapshot()
            },
            None => true,
        }
        &&& match self.settled_snapshot {
            Some(snapshot) => snapshot.wf(),
            None => true,
        }
    }

    /// Creates the state of an empty bowl. `checked` turns the checks on derived
    /// writes on.
    pub fn new(checked: bool) -> (state: Self)
        ensures
            state.wf(),
            state@ == StateModel::<C>::initial(checked),
    {
        let state = State {
            world: World::new(),
            snapshot_cache: None,
            systems: Vec::new(),
            stats: Vec::new(),
            memo: InvocationMap::new(),
            completed_generation: 0,
            running_generation: None,
            next_generation: 1,
            pending_generation: None,
            pending_inputs: Vec::new(),
            deferred_inputs: Vec::new(),
            deferred_settle: Vec::new(),
            schema: None,
            checked,
            input_seq: 0,
            settling: 0,
            preempt_window: false,
            preempt_restart: false,
            preempt_waiters: 0,
            waiters: Vec::new(),
            boundary_waiters: Vec::new(),
            settled_revision: 0,
            settled_snapshot: None,
            settle_watchers: Vec::new(),
            normal_clean: true,
            startup_ran: false,
        };
        assert(state@ =~= StateModel::<C>::initial(checked)) by {
            assert(state@.systems =~= Seq::<SystemModel>::empty());
            assert(state@.inputs =~= Seq::<BaseOpModel<C>>::empty());
            assert(state@.deferred =~= Seq::<(u64, BaseOpModel<C>)>::empty());
            assert(state@.held =~= Seq::<(Invocation, OpModel<C>)>::empty());
        }
        state
    }

    /// The current world snapshot. Repeated reads of an unchanged world share
    /// one.
    pub fn snapshot(&mut self) -> (snapshot: Arc<Snapshot<C>>)
        requires
            old(self).wf(),
        ensures
            final(self).wf(),
            final(self)@ == old(self)@,
            snapshot.wf(),
            snapshot@ == old(self)@.world.snapshot(),
    {
        let key = snapshot_key(&self.world);
        if let Some((cached_key, snapshot)) = &self.snapshot_cache {
            if cached_key.0 == key.0 && cached_key.1 == key.1 && cached_key.2 == key.2 {
                return Arc::clone(snapshot);
            }
        }
        let snapshot = Arc::new(self.world.snapshot());
        self.snapshot_cache = Some((key, Arc::clone(&snapshot)));
        snapshot
    }

    /// Retains a snapshot of the settled world for readers that tolerate a stale
    /// view.
    pub fn refresh_settled_snapshot(&mut self)
        requires
            old(self).wf(),
        ensures
            final(self).wf(),
            final(self)@ == (StateModel {
                retained: Some(old(self)@.world.snapshot()),
                ..old(self)@
            }),
    {
        let snapshot = self.snapshot();
        self.settled_snapshot = Some(snapshot);
    }

    /// The id that the next entity gets.
    pub fn next_entity(&self) -> (next_entity: u64)
        ensures
            next_entity == self@.world.next_entity,
    {
        self.world.next_entity_raw()
    }

    /// The live value of a component.
    pub fn get(&self, kind: ComponentId, entity: Entity) -> (value: Option<&C>)
        ensures
            match value {
                Some(value) => self@.world.entry(kind, entity) matches Some(entry) && entry.value
                    == value.model(),
                None => !self@.world.has(kind, entity),
            },
    {
        self.world.get(kind, entity)
    }

    /// The snapshot retained at the last settle, else a snapshot of the world as
    /// it is.
    pub fn last_settled(&mut self) -> (snapshot: Arc<Snapshot<C>>)
        requires
            old(self).wf(),
        ensures
            final(self).wf(),
            final(self)@ == old(self)@,
            snapshot.wf(),
            snapshot@ == match old(self)@.retained {
                Some(retained) => retained,
                None => old(self)@.world.snapshot(),
            },
    {
        match &self.settled_snapshot {
            Some(snapshot) => Arc::clone(snapshot),
            None => self.snapshot(),
        }
    }
}

} // verus!
