//! The database: inserts, systems and queries.

use crate::commands::Bundle;
use crate::component::{ComparableComponent, Component, ComponentId, ComponentType};
use crate::entity::{Entity, Untyped};
use crate::filter::Always;
use crate::invocation::{Invocation, SystemId, SystemInvocation};
use crate::model::Origin;
use crate::pipeline::commands::{shared, Commands, OpModel};
use crate::pipeline::config::{
    CompleteCallback, ConfigModel, IntoSystemConfig, SystemConfig, SystemHandle,
};
use crate::pipeline::cleanup::EphemeralComponent;
use crate::pipeline::filter::{BindingMap, Bindings, FilterExpr};
use crate::pipeline::order::{after_view, system_order, system_order_of, After, OrderError};
use crate::pipeline::rows::{GoneComponent, RowShape, ShapeModel};
use crate::pipeline::run::{continued, Data, DataModel, SystemBody};
use crate::pipeline::tables::{SweepModel, Tables, TablesModel};
use std::sync::Arc;
use vstd::prelude::*;

verus! {

/// How often all systems are run before they are taken not to settle.
pub const ROUND_LIMIT: u64 = u64::MAX;

/// Why a database cannot answer.
#[derive(Clone, Copy, Debug, PartialEq, Eq, Structural)]
pub enum DbError {
    /// The systems cannot be ordered.
    Order(OrderError),
    /// A system took a component that a later row of the same run needed.
    Gone(GoneComponent),
    /// The systems never come to rest.
    Unsettled,
    /// A filter needs a value of this component type, and none is bound.
    Unbound(ComponentId),
}

/// Whether the callbacks can write `ops`, one behind the other.
pub open spec fn completions<C: Component, K: CompleteCallback<C>>(
    callbacks: Seq<K>,
    ops: Seq<OpModel<C>>,
) -> bool
    decreases callbacks.len(),
{
    if callbacks.len() == 0 {
        ops.len() == 0
    } else {
        exists|last: Seq<OpModel<C>>| #[trigger]
            callbacks.last().writes(last) && last.len() <= ops.len() && ops.skip(
                ops.len() - last.len(),
            ) == last && completions::<C, K>(
                callbacks.drop_last(),
                ops.take(ops.len() - last.len()),
            )
    }
}

/// The invocation that owns what the callbacks of a system insert.
pub open spec fn completion_owner(system: SystemId) -> Invocation {
    Invocation { system, keys: Seq::empty() }
}

/// The systems that each system runs after, by number.
pub open spec fn after_of<S, K>(systems: Seq<ConfigModel<S, K>>) -> After {
    systems.map_values(
        |config: ConfigModel<S, K>| config.after.map_values(|handle: SystemHandle| handle.0.0),
    )
}

impl<C: Component> DataModel<C> {
    /// The callbacks of a system wrote `ops`: what they inserted before is replaced.
    pub open spec fn completed(self, system: SystemId, ops: Seq<OpModel<C>>) -> Self {
        DataModel {
            tables: self.tables.swept(
                SweepModel::Owned(completion_owner(system)),
            ).applied_all(ops, completion_owner(system)),
            ..self
        }
    }

    /// Whether running a system, and its callbacks if it ran for at least one row,
    /// can have `outcome`.
    pub open spec fn entry_run<S: SystemBody<C>, K: CompleteCallback<C>>(
        self,
        system: SystemId,
        config: ConfigModel<S, K>,
        outcome: Result<(Self, bool), GoneComponent>,
    ) -> bool {
        exists|ran: Result<(Self, bool), GoneComponent>| #[trigger]
            self.system_run(system, config.system, ran) && match ran {
                Ok((after, true)) => if config.on_complete.len() > 0 {
                    exists|ops: Seq<OpModel<C>>| #[trigger]
                        completions::<C, K>(config.on_complete, ops) && outcome == Ok::<
                            (Self, bool),
                            GoneComponent,
                        >((after.completed(system, ops), true))
                } else {
                    outcome == ran
                },
                _ => outcome == ran,
            }
    }

    /// Whether running the systems of `order`, one after the other, can have
    /// `outcome`.
    pub open spec fn round<S: SystemBody<C>, K: CompleteCallback<C>>(
        self,
        systems: Seq<ConfigModel<S, K>>,
        order: Seq<usize>,
        outcome: Result<(Self, bool), GoneComponent>,
    ) -> bool
        decreases order.len(),
    {
        if order.len() == 0 {
            outcome == Ok::<(Self, bool), GoneComponent>((self, false))
        } else {
            exists|before: Result<(Self, bool), GoneComponent>|
                self.round(systems, order.drop_last(), before) && #[trigger] ran_then(
                    before,
                    SystemId(order.last()),
                    systems[order.last() as int],
                    outcome,
                )
        }
    }

    /// Whether running all systems, round after round until a round runs nothing,
    /// can have `outcome`.
    pub open spec fn settled<S: SystemBody<C>, K: CompleteCallback<C>>(
        self,
        systems: Seq<ConfigModel<S, K>>,
        order: Seq<usize>,
        rounds: nat,
        outcome: Result<Self, DbError>,
    ) -> bool
        decreases rounds,
    {
        if rounds == 0 {
            outcome == Err::<Self, DbError>(DbError::Unsettled)
        } else {
            exists|round: Result<(Self, bool), GoneComponent>| #[trigger]
                self.round(systems, order, round) && match round {
                    Err(gone) => outcome == Err::<Self, DbError>(DbError::Gone(gone)),
                    Ok((after, true)) => after.settled(
                        systems,
                        order,
                        (rounds - 1) as nat,
                        outcome,
                    ),
                    Ok((after, false)) => outcome == Ok::<Self, DbError>(after),
                }
        }
    }

    /// Whether running all systems until nothing is left to run can have
    /// `outcome`.
    pub open spec fn materialized<S: SystemBody<C>, K: CompleteCallback<C>>(
        self,
        systems: Seq<ConfigModel<S, K>>,
        outcome: Result<Self, DbError>,
    ) -> bool {
        match system_order_of(after_of(systems)) {
            Err(error) => outcome == Err::<Self, DbError>(DbError::Order(error)),
            Ok(order) => self.settled(systems, order, ROUND_LIMIT as nat, outcome),
        }
    }
}

/// Whether running one more system, after what `before` says, can have `outcome`.
pub open spec fn ran_then<C: Component, S: SystemBody<C>, K: CompleteCallback<C>>(
    before: Result<(DataModel<C>, bool), GoneComponent>,
    system: SystemId,
    config: ConfigModel<S, K>,
    outcome: Result<(DataModel<C>, bool), GoneComponent>,
) -> bool {
    match before {
        Err(gone) => outcome == Err::<(DataModel<C>, bool), GoneComponent>(gone),
        Ok((data, progress)) => exists|step: Result<(DataModel<C>, bool), GoneComponent>|
            #[trigger]
            data.entry_run(system, config, step) && outcome == continued(step, progress),
    }
}

/// Configured systems by what they are.
pub open spec fn configs_view<S, K>(systems: Seq<SystemConfig<S, K>>) -> Seq<ConfigModel<S, K>> {
    systems.map_values(|config: SystemConfig<S, K>| config@)
}

/// What a database is.
#[verifier::ext_equal]
#[verifier::reject_recursive_types(C)]
#[verifier::reject_recursive_types(S)]
#[verifier::reject_recursive_types(K)]
pub struct DbModel<C: Component, S, K> {
    pub data: DataModel<C>,
    pub systems: Seq<ConfigModel<S, K>>,
}

/// A database: components, and the systems that derive more of them.
pub struct Db<C, S, K> {
    pub(crate) data: Data<C>,
    pub(crate) systems: Vec<SystemConfig<S, K>>,
}

impl<C: Component, S, K> View for Db<C, S, K> {
    type V = DbModel<C, S, K>;

    closed spec fn view(&self) -> DbModel<C, S, K> {
        DbModel { data: self.data@, systems: configs_view(self.systems@) }
    }
}

impl<C: Component> DataModel<C> {
    /// Components were inserted by a caller.
    pub open spec fn with_base(self, entity: Entity, values: Seq<C::Model>) -> Self {
        DataModel { tables: self.tables.put_all(entity, values, Origin::Base, None), ..self }
    }
}

impl<C: Component, S: SystemBody<C>, K: CompleteCallback<C>> Db<C, S, K> {
    /// The stored data is well-formed.
    pub closed spec fn wf(&self) -> bool {
        self.data.wf()
    }

    /// An empty database.
    pub fn new() -> (db: Self)
        ensures
            db.wf(),
            db@.systems == Seq::<ConfigModel<S, K>>::empty(),
            db@.data == (DataModel::<C> {
                tables: TablesModel::empty(),
                memo: Map::empty(),
                order: Seq::empty(),
            }),
    {
        let db = Db { data: Data::new(), systems: Vec::new() };
        assert(db@.systems =~= Seq::<ConfigModel<S, K>>::empty());
        db
    }

    /// Registers a system.
    pub fn add_system<M, I: IntoSystemConfig<S, K, M>>(&mut self, system: I) -> (handle:
        SystemHandle)
        requires
            old(self).wf(),
        ensures
            final(self).wf(),
            handle == SystemHandle(SystemId(old(self)@.systems.len() as usize)),
            old(self)@.systems.len() <= usize::MAX,
            final(self)@ == (DbModel {
                systems: old(self)@.systems.push(system.config()),
                ..old(self)@
            }),
    {
        let handle = SystemHandle(SystemId(self.systems.len()));
        let ghost before = self@;
        self.systems.push(system.into_system_config());
        assert(self@.systems =~= before.systems.push(system.config()));
        handle
    }

    /// Inserts a bundle on a fresh entity.
    pub fn insert<B: Bundle<Universe = C>>(&mut self, bundle: B) -> (entity: Entity)
        requires
            old(self).wf(),
        ensures
            final(self).wf(),
            entity == Entity::<Untyped>::of(old(self)@.data.tables.next_entity),
            final(self)@.systems == old(self)@.systems,
            final(self)@.data == (DataModel {
                tables: old(self)@.data.tables.spawned(),
                ..old(self)@.data
            }).with_base(entity, bundle.facts()),
    {
        let values = shared(bundle.into_values());
        let entity = self.data.tables.spawn_empty();
        self.data.tables.insert_all(entity, &values, Origin::Base, &None);
        entity
    }

    /// Inserts a component on an entity.
    pub fn insert_component<T: ComponentType<Universe = C>>(&mut self, entity: Entity, component: T)
        requires
            old(self).wf(),
        ensures
            final(self).wf(),
            final(self)@.systems == old(self)@.systems,
            final(self)@.data == (DataModel {
                tables: old(self)@.data.tables.put(
                    entity,
                    component.meaning(),
                    Origin::Base,
                    None,
                ),
                ..old(self)@.data
            }),
    {
        self.data.tables.insert(entity, Arc::new(component.erase()), Origin::Base, None);
    }

    /// The component `T` of an entity, as it is stored now.
    pub fn peek<T: ComponentType<Universe = C>>(&self, entity: Entity) -> (value: Option<&C>)
        ensures
            match value {
                Some(value) => self@.data.tables.entry(T::key(), entity) matches Some(entry)
                    && entry.value == value.model(),
                None => self@.data.tables.entry(T::key(), entity) is None,
            },
    {
        self.data.tables.get(T::component_type(), entity)
    }

    fn run_entry(&mut self, index: usize) -> (ran: Result<bool, GoneComponent>)
        requires
            old(self).wf(),
            index < old(self)@.systems.len(),
        ensures
            final(self).wf(),
            final(self)@.systems == old(self)@.systems,
            match ran {
                Ok(ran) => old(self)@.data.entry_run(
                    SystemId(index),
                    old(self)@.systems[index as int],
                    Ok((final(self)@.data, ran)),
                ),
                Err(gone) => old(self)@.data.entry_run(
                    SystemId(index),
                    old(self)@.systems[index as int],
                    Err(gone),
                ),
            },
    {
        let system = SystemId(index);
        let ghost config = self.systems@[index as int]@;
        let ghost start = self@.data;
        let ran = match self.data.run_system(system, &self.systems[index].system) {
            Ok(ran) => ran,
            Err(gone) => {
                assert(start.system_run(system, config.system, Err(gone)));
                return Err(gone);
            },
        };
        assert(start.system_run(system, config.system, Ok((self@.data, ran))));
        if ran && self.systems[index].on_complete.len() > 0 {
            let callbacks = &self.systems[index].on_complete;
            let mut commands = Commands::new();
            let mut i: usize = 0;
            while i < callbacks.len()
                invariant
                    i <= callbacks@.len(),
                    completions::<C, K>(callbacks@.take(i as int), commands@),
                decreases callbacks@.len() - i,
            {
                let ghost before = commands@;
                assert(callbacks@.take(i + 1).drop_last() =~= callbacks@.take(i as int));
                callbacks[i].run(&mut commands);
                proof {
                    let last = commands@.skip(before.len() as int);
                    assert(callbacks@.take(i + 1).last().writes(last));
                    assert(commands@.skip(commands@.len() - last.len()) =~= last);
                    assert(commands@.take(commands@.len() - last.len()) =~= before);
                }
                i = i + 1;
            }
            assert(callbacks@.take(callbacks@.len() as int) =~= callbacks@);
            let owner = SystemInvocation::new(system, Vec::new());
            assert(owner@ =~= completion_owner(system));
            let ghost filled = commands@;
            assert(completions::<C, K>(config.on_complete, filled));
            let ops = commands.into_ops();
            self.data.tables.remove_derived_owned(&owner);
            self.data.tables.apply_all(&ops, &owner);
        }
        Ok(ran)
    }

    fn run_round(&mut self, order: &Vec<usize>) -> (progress: Result<bool, GoneComponent>)
        requires
            old(self).wf(),
            forall|i: int|
                0 <= i < order@.len() ==> (#[trigger] order@[i]) < old(self)@.systems.len(),
        ensures
            final(self).wf(),
            final(self)@.systems == old(self)@.systems,
            match progress {
                Ok(progress) => old(self)@.data.round(
                    old(self)@.systems,
                    order@,
                    Ok((final(self)@.data, progress)),
                ),
                Err(gone) => old(self)@.data.round(old(self)@.systems, order@, Err(gone)),
            },
    {
        let ghost start = self@;
        let mut progress = false;
        let mut i: usize = 0;
        while i < order.len()
            invariant
                i <= order@.len(),
                start == old(self)@,
                self.wf(),
                self@.systems == start.systems,
                forall|i: int|
                    0 <= i < order@.len() ==> (#[trigger] order@[i]) < start.systems.len(),
                start.data.round(
                    start.systems,
                    order@.take(i as int),
                    Ok((self@.data, progress)),
                ),
            decreases order@.len() - i,
        {
            assert(order@.take(i + 1).drop_last() =~= order@.take(i as int));
            assert(order@.take(i + 1).last() == order@[i as int]);
            let ghost before = self@.data;
            let ghost earlier = progress;
            let entry = self.run_entry(order[i]);
            proof {
                let step: Result<(DataModel<C>, bool), GoneComponent> = match entry {
                    Ok(ran) => Ok((self@.data, ran)),
                    Err(gone) => Err(gone),
                };
                let more = order@.take(i + 1);
                assert(before.entry_run(
                    SystemId(more.last()),
                    start.systems[more.last() as int],
                    step,
                ));
                lemma_ran_then(
                    before,
                    earlier,
                    SystemId(more.last()),
                    start.systems[more.last() as int],
                    step,
                );
                assert(start.data.round(start.systems, more, continued(step, earlier)));
            }
            match entry {
                Ok(ran) => {
                    progress = progress || ran;
                },
                Err(gone) => {
                    proof {
                        lemma_round_ends(start.data, start.systems, order@, i + 1, gone);
                    }
                    return Err(gone);
                },
            }
            i = i + 1;
        }
        assert(order@.take(order@.len() as int) =~= order@);
        Ok(progress)
    }

    fn after_lists(&self) -> (after: Vec<Vec<usize>>)
        ensures
            after_view(after@) == after_of(self@.systems),
    {
        let ghost wanted = after_of(self@.systems);
        let mut after: Vec<Vec<usize>> = Vec::new();
        let mut i: usize = 0;
        while i < self.systems.len()
            invariant
                i <= self.systems@.len(),
                wanted == after_of(self@.systems),
                after@.len() == i,
                forall|j: int| 0 <= j < i ==> (#[trigger] after@[j])@ == wanted[j],
            decreases self.systems@.len() - i,
        {
            let handles = &self.systems[i].after;
            let mut list: Vec<usize> = Vec::new();
            let mut j: usize = 0;
            while j < handles.len()
                invariant
                    j <= handles@.len(),
                    list@ =~= handles@.map_values(|handle: SystemHandle| handle.0.0).take(j as int),
                decreases handles@.len() - j,
            {
                list.push(handles[j].0.0);
                j = j + 1;
            }
            assert(list@ =~= wanted[i as int]);
            after.push(list);
            i = i + 1;
        }
        assert(after_view(after@) =~= wanted);
        after
    }

    /// Runs the systems until nothing is left to run.
    pub fn materialize(&mut self) -> (outcome: Result<(), DbError>)
        requires
            old(self).wf(),
        ensures
            final(self).wf(),
            final(self)@.systems == old(self)@.systems,
            match outcome {
                Ok(_) => old(self)@.data.materialized(old(self)@.systems, Ok(final(self)@.data)),
                Err(error) => old(self)@.data.materialized(old(self)@.systems, Err(error))
                    && !(error is Unbound),
            },
    {
        let ghost start = self@;
        let after = self.after_lists();
        let order = match system_order(&after) {
            Ok(order) => order,
            Err(error) => {
                return Err(DbError::Order(error));
            },
        };
        let count: usize = after.len();
        proof {
            assert(after_view(after@).len() == count);
            assert(count == after_of(self@.systems).len());
            crate::pipeline::order::lemma_order_respects_run_after(after_view(after@));
        }
        let mut left: u64 = ROUND_LIMIT;
        while left > 0
            invariant
                start == old(self)@,
                self.wf(),
                self@.systems == start.systems,
                system_order_of(after_of(start.systems)) == Ok::<Seq<usize>, OrderError>(order@),
                forall|i: int|
                    0 <= i < order@.len() ==> (#[trigger] order@[i]) < start.systems.len(),
                forall|outcome: Result<DataModel<C>, DbError>| #[trigger]
                    self@.data.settled(start.systems, order@, left as nat, outcome)
                        ==> start.data.settled(
                        start.systems,
                        order@,
                        ROUND_LIMIT as nat,
                        outcome,
                    ),
            decreases left,
        {
            let ghost before = self@.data;
            let round = self.run_round(&order);
            proof {
                let step: Result<(DataModel<C>, bool), GoneComponent> = match round {
                    Ok(progress) => Ok((self@.data, progress)),
                    Err(gone) => Err(gone),
                };
                assert(before.round(start.systems, order@, step));
                let outcome: Result<DataModel<C>, DbError> = match round {
                    Ok(_) => Ok(self@.data),
                    Err(gone) => Err(DbError::Gone(gone)),
                };
                if !(round matches Ok(true)) {
                    assert(before.settled(start.systems, order@, left as nat, outcome));
                }
            }
            match round {
                Ok(progress) => {
                    if !progress {
                        return Ok(());
                    }
                },
                Err(gone) => {
                    return Err(DbError::Gone(gone));
                },
            }
            let ghost rounds = left as nat;
            left = left - 1;
            assert forall|outcome: Result<DataModel<C>, DbError>| #[trigger]
                self@.data.settled(
                    start.systems,
                    order@,
                    left as nat,
                    outcome,
                ) implies start.data.settled(
                start.systems,
                order@,
                ROUND_LIMIT as nat,
                outcome,
            ) by {
                let step: Result<(DataModel<C>, bool), GoneComponent> = Ok((self@.data, true));
                assert(step->Ok_0.0 == self@.data);
                assert(before.round(start.systems, order@, step));
                assert(before.settled(start.systems, order@, rounds, outcome));
            }
        }
        assert(self@.data.settled(start.systems, order@, 0, Err(DbError::Unsettled)));
        Err(DbError::Unsettled)
    }

    /// The component `T` of an entity, once the systems have run.
    pub fn get<T: ComponentType<Universe = C>>(&mut self, entity: Entity) -> (value: Result<
        Option<&C>,
        DbError,
    >)
        requires
            old(self).wf(),
        ensures
            final(self).wf(),
            final(self)@.systems == old(self)@.systems,
            match value {
                Ok(value) => old(self)@.data.materialized(
                    old(self)@.systems,
                    Ok(final(self)@.data),
                ) && match value {
                    Some(value) => final(self)@.data.tables.entry(T::key(), entity) matches Some(
                        entry,
                    ) && entry.value == value.model(),
                    None => final(self)@.data.tables.entry(T::key(), entity) is None,
                },
                Err(error) => old(self)@.data.materialized(old(self)@.systems, Err(error)),
            },
    {
        match self.materialize() {
            Ok(_) => Ok(self.peek::<T>(entity)),
            Err(error) => Err(error),
        }
    }
}

/// The rows of a query that pass its filter, in order; the first row that cannot
/// be decided ends it.
pub open spec fn passing<C: ComparableComponent, F: FilterExpr<C>>(
    tables: TablesModel<C>,
    bindings: BindingMap<C>,
    rows: Seq<Entity>,
) -> Result<Seq<Entity>, ComponentId>
    decreases rows.len(),
{
    if rows.len() == 0 {
        Ok(Seq::empty())
    } else {
        match passing::<C, F>(tables, bindings, rows.drop_last()) {
            Err(kind) => Err(kind),
            Ok(kept) => match F::verdict(tables, bindings, rows.last()) {
                Err(kind) => Err(kind),
                Ok(true) => Ok(kept.push(rows.last())),
                Ok(false) => Ok(kept),
            },
        }
    }
}

/// The rows of a shape as entities.
pub open spec fn row_entities<C: Component>(shape: ShapeModel, tables: TablesModel<C>) -> Seq<
    Entity,
> {
    shape.rows(tables).map_values(|id: u64| Entity::of(id))
}

/// The row of a shape for one entity, if it is one.
pub open spec fn row_of<C: Component>(
    shape: ShapeModel,
    tables: TablesModel<C>,
    entity: Entity,
) -> Seq<Entity> {
    if shape.admits(tables, entity.id()) {
        seq![entity]
    } else {
        Seq::empty()
    }
}

impl<C: ComparableComponent> FilterExpr<C> for Always {
    open spec fn verdict(tables: TablesModel<C>, bindings: BindingMap<C>, entity: Entity) -> Result<
        bool,
        ComponentId,
    > {
        Ok(true)
    }

    open spec fn observes(tables: TablesModel<C>, entity: Entity) -> Seq<crate::query::Dep> {
        Seq::empty()
    }

    fn matches(entity: Entity, tables: &Tables<C>, bindings: &Bindings<C>) -> (passes: Result<
        bool,
        ComponentId,
    >) {
        Ok(true)
    }

    fn deps(entity: Entity, tables: &Tables<C>) -> (deps: Vec<crate::query::Dep>) {
        Vec::new()
    }
}

proof fn lemma_failed_row<C: ComparableComponent, F: FilterExpr<C>>(
    tables: TablesModel<C>,
    bindings: BindingMap<C>,
    rows: Seq<Entity>,
    done: int,
)
    requires
        0 <= done <= rows.len(),
        passing::<C, F>(tables, bindings, rows.take(done)) is Err,
    ensures
        passing::<C, F>(tables, bindings, rows) == passing::<C, F>(
            tables,
            bindings,
            rows.take(done),
        ),
    decreases rows.len() - done,
{
    if done == rows.len() {
        assert(rows.take(done) =~= rows);
    } else {
        assert(rows.take(done + 1).drop_last() =~= rows.take(done));
        lemma_failed_row::<C, F>(tables, bindings, rows, done + 1);
    }
}

fn keep_passing<C: ComparableComponent, F: FilterExpr<C>>(
    tables: &Tables<C>,
    bindings: &Bindings<C>,
    rows: &Vec<Entity>,
) -> (kept: Result<Vec<Entity>, ComponentId>)
    ensures
        match kept {
            Ok(kept) => passing::<C, F>(tables@, bindings@, rows@) == Ok::<
                Seq<Entity>,
                ComponentId,
            >(kept@),
            Err(kind) => passing::<C, F>(tables@, bindings@, rows@) == Err::<
                Seq<Entity>,
                ComponentId,
            >(kind),
        },
{
    let mut kept: Vec<Entity> = Vec::new();
    let mut i: usize = 0;
    assert(rows@.take(0) =~= Seq::<Entity>::empty());
    while i < rows.len()
        invariant
            i <= rows@.len(),
            passing::<C, F>(tables@, bindings@, rows@.take(i as int)) == Ok::<
                Seq<Entity>,
                ComponentId,
            >(kept@),
        decreases rows@.len() - i,
    {
        assert(rows@.take(i + 1).drop_last() =~= rows@.take(i as int));
        assert(rows@.take(i + 1).last() == rows@[i as int]);
        match F::matches(rows[i], tables, bindings) {
            Ok(true) => {
                kept.push(rows[i]);
            },
            Ok(false) => {},
            Err(kind) => {
                proof {
                    lemma_failed_row::<C, F>(tables@, bindings@, rows@, i + 1);
                }
                return Err(kind);
            },
        }
        i = i + 1;
    }
    assert(rows@.take(rows@.len() as int) =~= rows@);
    Ok(kept)
}

/// A query that is being built: the row shape, and the values bound so far.
pub struct QueryBuilder<'db, C, S, K> {
    pub db: &'db mut Db<C, S, K>,
    pub bindings: Bindings<C>,
    pub shape: RowShape,
}

/// A query for the rows of one inserted entity.
pub struct InsertedQueryBuilder<'db, C, S, K> {
    pub db: &'db mut Db<C, S, K>,
    pub entity: Entity,
    pub bindings: Bindings<C>,
    pub shape: RowShape,
}

/// The rows of an inserted entity, and whether ephemeral entities are to be
/// cleaned up once they are not needed any more.
pub struct InsertedQueryResult {
    pub rows: Vec<Entity>,
    pub cleanup_ephemeral: bool,
}

impl InsertedQueryResult {
    /// How many rows there are.
    pub fn len(&self) -> (len: usize)
        ensures
            len == self.rows@.len(),
    {
        self.rows.len()
    }

    /// Whether there are none.
    pub fn is_empty(&self) -> (empty: bool)
        ensures
            empty == (self.rows@.len() == 0),
    {
        self.rows.len() == 0
    }

    /// Gives the rows back, and cleans ephemeral entities up if that is due.
    pub fn release<C: EphemeralComponent, S: SystemBody<C>, K: CompleteCallback<C>>(
        self,
        db: &mut Db<C, S, K>,
    )
        requires
            old(db).wf(),
        ensures
            final(db).wf(),
            final(db)@.systems == old(db)@.systems,
            final(db)@.data == if self.cleanup_ephemeral {
                old(db)@.data.cleaned(C::ephemeral())
            } else {
                old(db)@.data
            },
    {
        if self.cleanup_ephemeral {
            db.data.cleanup_ephemeral_entities(C::ephemeral_id());
        }
    }
}

impl<'db, C: ComparableComponent, S: SystemBody<C>, K: CompleteCallback<C>> QueryBuilder<
    'db,
    C,
    S,
    K,
> {
    /// Binds a value for the filter.
    pub fn bind<T: ComponentType<Universe = C>>(self, value: T) -> (builder: Self)
        ensures
            builder.db == self.db,
            builder.shape == self.shape,
            builder.bindings@ == self.bindings@.insert(C::kind(value.meaning()), value.meaning()),
    {
        let mut builder = self;
        builder.bindings.insert(value.erase());
        builder
    }

    /// Runs the systems, and collects the rows that pass the filter.
    pub fn collect<F: FilterExpr<C>>(self) -> (rows: Result<Vec<Entity>, DbError>)
        requires
            self.db.wf(),
            self.shape@.wf(),
        ensures
            final(self.db).wf(),
            final(self.db)@.systems == old(self.db)@.systems,
            ({
                let data = final(self.db)@.data;
                let kept = passing::<C, F>(
                    data.tables,
                    self.bindings@,
                    row_entities(self.shape@, data.tables),
                );
                match rows {
                    Ok(rows) => old(self.db)@.data.materialized(old(self.db)@.systems, Ok(data))
                        && kept == Ok::<Seq<Entity>, ComponentId>(rows@),
                    Err(DbError::Unbound(kind)) => old(self.db)@.data.materialized(
                        old(self.db)@.systems,
                        Ok(data),
                    ) && kept == Err::<Seq<Entity>, ComponentId>(kind),
                    Err(error) => old(self.db)@.data.materialized(
                        old(self.db)@.systems,
                        Err(error),
                    ),
                }
            }),
    {
        if let Err(error) = self.db.materialize() {
            return Err(error);
        }
        let rows = self.shape.rows(&self.db.data.tables);
        proof {
            let wanted = row_entities(self.shape@, self.db@.data.tables);
            assert(rows@ =~= wanted) by {
                assert(crate::world::ids(rows@) == self.shape@.rows(self.db@.data.tables));
                assert forall|i: int| 0 <= i < rows@.len() implies rows@[i] == wanted[i] by {
                    assert(crate::world::ids(rows@)[i] == rows@[i].id());
                    crate::entity::lemma_entity_is_its_id(rows@[i], wanted[i]);
                }
            }
        }
        match keep_passing::<C, F>(&self.db.data.tables, &self.bindings, &rows) {
            Ok(rows) => Ok(rows),
            Err(kind) => Err(DbError::Unbound(kind)),
        }
    }
}

impl<
    'db,
    C: ComparableComponent + EphemeralComponent,
    S: SystemBody<C>,
    K: CompleteCallback<C>,
> InsertedQueryBuilder<'db, C, S, K> {
    /// Binds a value for the filter.
    pub fn bind<T: ComponentType<Universe = C>>(self, value: T) -> (builder: Self)
        ensures
            builder.db == self.db,
            builder.entity == self.entity,
            builder.shape == self.shape,
            builder.bindings@ == self.bindings@.insert(C::kind(value.meaning()), value.meaning()),
    {
        let mut builder = self;
        builder.bindings.insert(value.erase());
        builder
    }

    /// Runs the systems, and collects the row of the inserted entity if it passes
    /// the filter.
    pub fn collect<F: FilterExpr<C>>(self) -> (result: Result<InsertedQueryResult, DbError>)
        requires
            self.db.wf(),
            self.shape@.wf(),
        ensures
            final(self.db).wf(),
            final(self.db)@.systems == old(self.db)@.systems,
            ({
                let data = final(self.db)@.data;
                let kept = passing::<C, F>(
                    data.tables,
                    self.bindings@,
                    row_of(self.shape@, data.tables, self.entity),
                );
                match result {
                    Ok(result) => old(self.db)@.data.materialized(old(self.db)@.systems, Ok(data))
                        && kept == Ok::<Seq<Entity>, ComponentId>(result.rows@)
                        && result.cleanup_ephemeral == !data.tables.table(
                        C::ephemeral(),
                    ).dom().is_empty(),
                    Err(DbError::Unbound(kind)) => old(self.db)@.data.materialized(
                        old(self.db)@.systems,
                        Ok(data),
                    ) && kept == Err::<Seq<Entity>, ComponentId>(kind),
                    Err(error) => old(self.db)@.data.materialized(
                        old(self.db)@.systems,
                        Err(error),
                    ),
                }
            }),
    {
        if let Err(error) = self.db.materialize() {
            return Err(error);
        }
        let tables = &self.db.data.tables;
        let mut rows: Vec<Entity> = Vec::new();
        if (!self.shape.joined || self.entity.raw() < tables.next_entity())
            && self.shape.first_gone(tables, self.entity).is_none() {
            rows.push(self.entity);
        }
        proof {
            crate::entity::lemma_entity_is_its_id(
                Entity::of(self.entity.id()),
                self.entity,
            );
            assert(rows@ =~= row_of(self.shape@, self.db@.data.tables, self.entity));
        }
        match keep_passing::<C, F>(tables, &self.bindings, &rows) {
            Ok(rows) => Ok(
                InsertedQueryResult {
                    rows,
                    cleanup_ephemeral: self.db.data.has_ephemeral_entities(C::ephemeral_id()),
                },
            ),
            Err(kind) => Err(DbError::Unbound(kind)),
        }
    }

    /// Runs the systems, takes the component `T` of the inserted entity out, with
    /// the entity, and cleans ephemeral entities up. There is no row for an entity
    /// without the component.
    pub fn collect_owned<T: ComponentType<Universe = C>>(self) -> (taken: Result<
        Vec<(Entity, Arc<C>)>,
        DbError,
    >)
        requires
            self.db.wf(),
        ensures
            final(self.db).wf(),
            final(self.db)@.systems == old(self.db)@.systems,
            match taken {
                Ok(taken) => exists|data: DataModel<C>| #[trigger]
                    old(self.db)@.data.materialized(old(self.db)@.systems, Ok(data)) && ({
                        &&& match data.tables.entry(T::key(), self.entity) {
                            Some(entry) => taken@.len() == 1 && taken@[0].0 == self.entity
                                && taken@[0].1.model() == entry.value,
                            None => taken@.len() == 0,
                        }
                        &&& final(self.db)@.data == data.taken(T::key(), self.entity).tidied(
                            C::ephemeral(),
                        )
                    }),
                Err(error) => old(self.db)@.data.materialized(
                    old(self.db)@.systems,
                    Err(error),
                ),
            },
    {
        if let Err(error) = self.db.materialize() {
            return Err(error);
        }
        let ghost data = self.db@.data;
        assert(old(self.db)@.data.materialized(old(self.db)@.systems, Ok(data)));
        let mut taken: Vec<(Entity, Arc<C>)> = Vec::new();
        if let Some(value) = self.db.data.take_component(T::component_type(), self.entity) {
            taken.push((self.entity, value));
        }
        if self.db.data.has_ephemeral_entities(C::ephemeral_id()) {
            self.db.data.cleanup_ephemeral_entities(C::ephemeral_id());
        }
        Ok(taken)
    }

    /// Runs the systems, takes the component `T` of the inserted entity out, and
    /// cleans ephemeral entities up.
    pub fn one<T: ComponentType<Universe = C>>(self) -> (taken: Result<Option<Arc<C>>, DbError>)
        requires
            self.db.wf(),
        ensures
            final(self.db).wf(),
            final(self.db)@.systems == old(self.db)@.systems,
            match taken {
                Ok(taken) => exists|data: DataModel<C>| #[trigger]
                    old(self.db)@.data.materialized(old(self.db)@.systems, Ok(data)) && ({
                        &&& match taken {
                            Some(value) => data.tables.entry(T::key(), self.entity) matches Some(
                                entry,
                            ) && entry.value == value.model(),
                            None => data.tables.entry(T::key(), self.entity) is None,
                        }
                        &&& final(self.db)@.data == data.taken(T::key(), self.entity).tidied(
                            C::ephemeral(),
                        )
                    }),
                Err(error) => old(self.db)@.data.materialized(
                    old(self.db)@.systems,
                    Err(error),
                ),
            },
    {
        match self.collect_owned::<T>() {
            Ok(mut taken) => match taken.pop() {
                Some((_, value)) => Ok(Some(value)),
                None => Ok(None),
            },
            Err(error) => Err(error),
        }
    }
}

impl<C: ComparableComponent, S: SystemBody<C>, K: CompleteCallback<C>> Db<C, S, K> {
    /// A query for the rows of a shape.
    pub fn query<'db>(&'db mut self, shape: RowShape) -> (builder: QueryBuilder<'db, C, S, K>)
        ensures
            *builder.db == *old(self),
            *final(builder.db) == *final(self),
            builder.bindings@ == BindingMap::<C>::empty(),
            builder.shape == shape,
    {
        QueryBuilder { db: self, bindings: Bindings::new(), shape }
    }

    /// A query for the row of one entity.
    pub fn query_inserted<'db>(&'db mut self, entity: Entity, shape: RowShape) -> (builder:
        InsertedQueryBuilder<'db, C, S, K>)
        ensures
            *builder.db == *old(self),
            *final(builder.db) == *final(self),
            builder.entity == entity,
            builder.bindings@ == BindingMap::<C>::empty(),
            builder.shape == shape,
    {
        InsertedQueryBuilder { db: self, entity, bindings: Bindings::new(), shape }
    }

    /// The stored components and what each invocation observed.
    pub fn data(&self) -> (data: &Data<C>)
        ensures
            data@ == self@.data,
    {
        &self.data
    }
}

proof fn lemma_ran_then<C: Component, S: SystemBody<C>, K: CompleteCallback<C>>(
    data: DataModel<C>,
    progress: bool,
    system: SystemId,
    config: ConfigModel<S, K>,
    step: Result<(DataModel<C>, bool), GoneComponent>,
)
    requires
        data.entry_run(system, config, step),
    ensures
        ran_then(Ok((data, progress)), system, config, continued(step, progress)),
{
    let before: Result<(DataModel<C>, bool), GoneComponent> = Ok((data, progress));
    assert(before->Ok_0.0 == data);
    assert(ran_then(before, system, config, continued(step, progress)));
}

proof fn lemma_round_ends<C: Component, S: SystemBody<C>, K: CompleteCallback<C>>(
    data: DataModel<C>,
    systems: Seq<ConfigModel<S, K>>,
    order: Seq<usize>,
    done: int,
    gone: GoneComponent,
)
    requires
        0 <= done <= order.len(),
        data.round(systems, order.take(done), Err(gone)),
    ensures
        data.round(systems, order, Err(gone)),
    decreases order.len() - done,
{
    if done == order.len() {
        assert(order.take(done) =~= order);
    } else {
        let failed: Result<(DataModel<C>, bool), GoneComponent> = Err(gone);
        let more = order.take(done + 1);
        assert(more.drop_last() =~= order.take(done));
        assert(ran_then(
            failed,
            SystemId(more.last()),
            systems[more.last() as int],
            failed,
        ));
        assert(data.round(systems, more, failed));
        lemma_round_ends(data, systems, order, done + 1, gone);
    }
}

impl<C: Component> DataModel<C> {
    /// The data once ephemeral entities were cleaned up, if there are any.
    pub open spec fn tidied(self, ephemeral: ComponentId) -> Self {
        if self.tables.table(ephemeral).dom().is_empty() {
            self
        } else {
            self.cleaned(ephemeral)
        }
    }
}

} // verus!
