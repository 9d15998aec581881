//! A bowl: the state of a program together with what its systems do, driven by
//! its callers.

use crate::cell_laws::{given_out, lemma_copy_is_not_read, lemma_in_place_write_is_read};
use crate::commands::{
    apply_base_op, apply_base_ops, facts_of, ApplyError, BaseOpModel, Bundle,
};
use crate::commit::delivered;
use crate::component::{
    Component, ComparableComponent, ComponentId, ComponentType, RelationshipTarget,
};
use crate::entity::Entity;
use crate::evaluation::{CommitLimit, DEFAULT_COMMIT_LIMIT};
use crate::filter::{
    changed_rows, changed_since, external_filtered_rows, external_mut_rows, filtered,
    lemma_passing, looked_at, with_revisions, ArgMap, ExternalQueryFilter, QueryArgs,
};
use crate::model::{Entry, Origin, WorldModel};
use crate::param::{system_states, JoinError};
use crate::projection::{carriers, carriers_of, query_of, CowQueryParam, ExternalReadQueryParam};
use crate::query::{lemma_kept, lemma_rows_list, QueryModel, RowQuery};
use crate::state::cleanup::cleaned;
use crate::state::bodies::SystemBodies;
use crate::state::course::Trail;
use crate::state::engine::EngineError;
use crate::state::explain::{explains_up_to, named, report_of, ExplainReport, ProfileEntry};
use crate::state::generation::{apply_held, rolled, MutationStep};
use crate::state::inputs::{
    bundle_inputs, insert_refused, insert_target, insert_target_world, Inserted, PreemptWaiter,
};
use crate::state::take::{cleaned_each, resettled, take_all, taken_from, TakeBundle, TakeError};
use crate::state::{State, StateModel, Ticket};
use crate::world::Snapshot;
use crate::world_laws::lemma_insert_reads_back;
use std::sync::Arc;
use vstd::prelude::*;

verus! {

/// Why a scoop has no result.
#[derive(Debug)]
pub enum ScoopError {
    /// The bowl did not settle.
    Unsettled(EngineError),
    /// A filter compares with an argument that was not bound.
    Unbound(ComponentId),
}

/// The rows of an external query, over the snapshot that they were read from.
pub struct QueryResult<C> {
    snapshot: Arc<Snapshot<C>>,
    query: RowQuery,
    rows: Vec<Entity>,
}

/// What a [`QueryResult`] holds.
#[verifier::ext_equal]
#[verifier::reject_recursive_types(C)]
pub struct ResultModel<C: Component> {
    pub world: WorldModel<C>,
    pub query: QueryModel,
    pub rows: Seq<Entity>,
}

impl<C: RelationshipTarget> View for QueryResult<C> {
    type V = ResultModel<C>;

    closed spec fn view(&self) -> ResultModel<C> {
        ResultModel { world: self.snapshot@, query: self.query@, rows: self.rows@ }
    }
}

impl<C: RelationshipTarget> QueryResult<C> {
    /// Every row carries what the query reads.
    pub closed spec fn wf(&self) -> bool {
        forall|i: int|
            0 <= i < self@.rows.len() ==> self@.query.admits(self@.world, #[trigger] self@.rows[i])
    }

    /// The number of rows.
    pub fn len(&self) -> (len: usize)
        ensures
            len == self@.rows.len(),
    {
        self.rows.len()
    }

    /// Whether the query found nothing.
    pub fn is_empty(&self) -> (empty: bool)
        ensures
            empty == (self@.rows.len() == 0),
    {
        self.rows.len() == 0
    }

    /// The rows, in order.
    pub fn rows(&self) -> (rows: &Vec<Entity>)
        ensures
            rows@ == self@.rows,
    {
        &self.rows
    }

    /// The value of `T` on `entity`, read through `bowl`, which the rows were read
    /// from. The result shares its cells with the bowl: what was written into a
    /// component in place since then is read, while a component that was replaced
    /// or removed is read as it was.
    pub fn get<'a, B: SystemBodies<C>, T: ComponentType<Universe = C>>(
        &'a self,
        bowl: &'a Bowl<C, B>,
        entity: Entity,
    ) -> (value: Option<&'a C>)
        ensures
            match (value, self@.world.entry(T::key(), entity)) {
                (Some(value), Some(seen)) => value.model() == bowl@.state.world.cell_value(
                    seen.cell,
                    seen.value,
                ),
                (None, None) => true,
                _ => false,
            },
    {
        self.get_in::<T>(&bowl.state, entity)
    }

    /// The value of `T` on `entity`, read through `state`, which the rows were read
    /// from.
    pub fn get_in<'a, T: ComponentType<Universe = C>>(
        &'a self,
        state: &'a State<C>,
        entity: Entity,
    ) -> (value: Option<&'a C>)
        ensures
            match (value, self@.world.entry(T::key(), entity)) {
                (Some(value), Some(seen)) => value.model() == state@.world.cell_value(
                    seen.cell,
                    seen.value,
                ),
                (None, None) => true,
                _ => false,
            },
    {
        match self.snapshot.entry(T::component_type(), entity) {
            Some(seen) => Some(state.cell_value(seen)),
            None => None,
        }
    }

    /// Keeps only the rows whose tracked components changed after `cursor`.
    pub fn changed_since(&mut self, cursor: u64)
        requires
            old(self).wf(),
        ensures
            final(self).wf(),
            final(self)@ == (ResultModel {
                rows: changed_rows(old(self)@.world, old(self)@.query, old(self)@.rows, cursor),
                ..old(self)@
            }),
    {
        let ghost before = self@;
        self.rows = changed_since(&self.snapshot, &self.query, &self.rows, cursor);
        proof {
            lemma_changed_rows_are_rows(before.world, before.query, before.rows, cursor);
            assert forall|i: int| 0 <= i < self@.rows.len() implies self@.query.admits(
                self@.world,
                #[trigger] self@.rows[i],
            ) by {
                assert(self@.rows.contains(self@.rows[i]));
                let j = choose|j: int|
                    0 <= j < before.rows.len() && before.rows[j] == self@.rows[i];
                assert(before.query.admits(before.world, before.rows[j]));
            }
        }
    }
}

/// Rows that changed are among the rows.
pub proof fn lemma_changed_rows_are_rows<C: RelationshipTarget>(
    world: WorldModel<C>,
    query: QueryModel,
    rows: Seq<Entity>,
    cursor: u64,
)
    ensures
        forall|row: Entity| #[trigger]
            changed_rows(world, query, rows, cursor).contains(row) ==> rows.contains(row),
    decreases rows.len(),
{
    if rows.len() > 0 {
        lemma_changed_rows_are_rows(world, query, rows.drop_last(), cursor);
        let rest = changed_rows(world, query, rows.drop_last(), cursor);
        assert forall|row: Entity| #[trigger]
            changed_rows(world, query, rows, cursor).contains(row) implies rows.contains(row) by {
            let all = changed_rows(world, query, rows, cursor);
            let j = choose|j: int| 0 <= j < all.len() && all[j] == row;
            if row == rows.last() {
                assert(rows[rows.len() - 1] == row);
            } else {
                assert(rest[j] == row);
                assert(rest.contains(row));
                let k = choose|k: int|
                    0 <= k < rows.drop_last().len() && rows.drop_last()[k] == row;
                assert(rows[k] == row);
            }
        }
    }
}

/// What an external query finds carries what the query reads.
pub proof fn lemma_found_rows_are_admitted<C: ComparableComponent, F: crate::filter::FilterExpr<C>>(
    world: WorldModel<C>,
    query: QueryModel,
    args: ArgMap<C>,
    scope: Option<u64>,
)
    requires
        filtered::<C, F>(world, query, args, scope) is Ok,
    ensures
        forall|row: Entity| #[trigger]
            filtered::<C, F>(world, query, args, scope)->Ok_0.contains(row) ==> query.admits(
                world,
                row,
            ),
{
    let rows = looked_at::<C, F>(world, query, args, scope)->Ok_0;
    lemma_passing::<C, F>(world, args, scope, rows);
    assert forall|row: Entity| #[trigger]
        filtered::<C, F>(world, query, args, scope)->Ok_0.contains(row) implies query.admits(
        world,
        row,
    ) by {
        assert(rows.contains(row));
        match F::narrowed(world, args, scope) {
            Ok(Some(list)) => {
                lemma_kept(query, world, list);
            },
            _ => {
                lemma_rows_list(query, world);
                crate::entity::lemma_entity_is_its_id(Entity::of(row.id()), row);
            },
        }
    }
}

/// A live write access to one component of one entity, as an external query saw
/// it. The handle does nothing by itself.
#[derive(Debug, Clone, Copy)]
pub struct Mut {
    pub entity: Entity,
    pub kind: ComponentId,
    /// The revision that the query saw.
    pub revision: Option<u64>,
}

/// An entity that is closed together with everything that was derived for it.
#[derive(Debug)]
pub struct BoundEntity {
    entity: Entity,
}

impl BoundEntity {
    /// The entity.
    pub closed spec fn bound(&self) -> Entity {
        self.entity
    }

    /// The entity.
    pub fn entity(&self) -> (entity: Entity)
        ensures
            entity == self.bound(),
    {
        self.entity
    }
}

/// The bowl: its state, the bodies of its systems, its commit guardrail, and the
/// bound entities whose handles are gone.
pub struct Bowl<C, B> {
    state: State<C>,
    bodies: B,
    limit: CommitLimit,
    dropped: Vec<Entity>,
    woken: Vec<Ticket>,
}

/// What a [`Bowl`] holds.
#[verifier::ext_equal]
#[verifier::reject_recursive_types(C)]
pub struct BowlModel<C: Component, B> {
    pub state: StateModel<C>,
    /// The bodies of the systems.
    pub bodies: B,
    pub limit: CommitLimit,
    /// Bound entities to clean up after the next settle.
    pub dropped: Seq<Entity>,
    /// Callers who watch for settles, to be woken because a read settled the bowl.
    pub woken: Seq<Ticket>,
}

impl<C: RelationshipTarget, B: SystemBodies<C>> View for Bowl<C, B> {
    type V = BowlModel<C, B>;

    closed spec fn view(&self) -> BowlModel<C, B> {
        BowlModel {
            state: self.state@,
            bodies: self.bodies,
            limit: self.limit,
            dropped: self.dropped@,
            woken: self.woken@,
        }
    }
}

/// Whether a settle of `before` can end in `after`, with `woken` to be woken and the
/// bodies as they are in `bodies`: in the same state, and with no body run, when it
/// was settled already; else in one that an epoch leads to, that is settled, and
/// from which the epoch has been left. If there was anything to drive, the systems
/// had come to rest before.
pub open spec fn settles<C: RelationshipTarget, B: SystemBodies<C>>(
    before: BowlModel<C, B>,
    woken: Seq<Ticket>,
    after: StateModel<C>,
    bodies: B,
) -> bool {
    let state = before.state;
    if state.is_settled() && state.deferred.len() == 0 {
        after == state.retaining() && woken.len() == 0 && bodies == before.bodies
    } else {
        exists|settled: StateModel<C>, spent: nat| #[trigger]
            state.entered().epoch_leads(
                state.sequence,
                before.limit,
                Trail { bodies: before.bodies, spent: 0 },
                woken,
                settled,
                Trail { bodies, spent },
            ) && settled.settled_at(state.sequence) && after == settled.leaving() && (
            state.pending is Some ==> exists|calm: StateModel<C>| #[trigger]
                calm.settles_into(settled))
    }
}

/// Whether a settle of `before` can fail with `error` and leave `after`, with the
/// bodies as they are in `bodies`: there is something to settle, and the epoch that
/// drives it fails with that world. Nothing is left running.
pub open spec fn unsettles<C: RelationshipTarget, B: SystemBodies<C>>(
    before: BowlModel<C, B>,
    error: EngineError,
    after: StateModel<C>,
    bodies: B,
) -> bool {
    let state = before.state;
    &&& !(state.is_settled() && state.deferred.len() == 0)
    &&& state.entered().epoch_fails(
        state.sequence,
        before.limit,
        Trail { bodies: before.bodies, spent: 0 },
        error,
        after.world,
        bodies,
    )
    &&& error matches EngineError::Budget(error) ==> before.limit.exhausted(error)
    &&& after.running is None
    &&& after.settling == state.settling
}

/// Whether `after` is `before` without `entities` and everything scoped to them.
pub open spec fn tidied<C: RelationshipTarget>(
    before: StateModel<C>,
    after: StateModel<C>,
    entities: Seq<Entity>,
) -> bool {
    exists|cleared: StateModel<C>| #[trigger]
        cleaned_each(before, cleared, entities) && after == resettled(
            cleared,
            before.is_settled(),
        )
}

/// Whether `after` is `before` once components were taken off a bound entity and
/// the entity was closed.
pub open spec fn took<C: RelationshipTarget>(
    before: StateModel<C>,
    after: StateModel<C>,
    wanted: Seq<(ComponentId, bool)>,
    entity: Entity,
) -> bool {
    exists|cleared: StateModel<C>| #[trigger]
        cleaned(taken_from(before, wanted, entity), cleared, entity) && after == resettled(
            cleared,
            before.is_settled(),
        )
}

/// The state after an external write of `fact` on `entity`: a changed value calls
/// for another generation.
pub open spec fn mutated<C: RelationshipTarget>(
    state: StateModel<C>,
    entity: Entity,
    fact: C::Model,
) -> StateModel<C> {
    written(state, state.world.update(entity, fact), state.world.moves(entity, fact))
}

/// The state after an external write of a changed copy, `fact`, on `entity`: results
/// that are held keep the value that they saw.
pub open spec fn copied<C: RelationshipTarget>(
    state: StateModel<C>,
    entity: Entity,
    fact: C::Model,
) -> StateModel<C> {
    written(state, state.world.update_copied(entity, fact), state.world.moves(entity, fact))
}

/// The state once an external write led to `world`.
pub open spec fn written<C: RelationshipTarget>(
    state: StateModel<C>,
    world: WorldModel<C>,
    moved: bool,
) -> StateModel<C> {
    let updated = StateModel { world: delivered(world), ..state };
    if moved {
        (StateModel { clean: false, ..updated }).pended()
    } else {
        updated
    }
}

/// Whether `value` is an answer of `func` on a component that means `fact`.
pub open spec fn answered<C: RelationshipTarget, Func: Fn(Entity, &C) -> C>(
    func: Func,
    row: Entity,
    fact: C::Model,
    value: C,
) -> bool {
    exists|seen: C|
        (#[trigger] seen.model()) == fact && call_ensures(func, (row, &seen), value)
}

/// Whether `after` is `before` once `func` was applied to component `kind` of
/// `row`; a row that does not carry it is passed over.
pub open spec fn stepped<C: RelationshipTarget, Func: Fn(Entity, &C) -> C>(
    func: Func,
    kind: ComponentId,
    before: StateModel<C>,
    after: StateModel<C>,
    row: Entity,
) -> bool {
    match before.world.entry(kind, row) {
        None => after == before,
        Some(entry) => exists|value: C| #[trigger]
            answered(func, row, entry.value, value) && after == copied(
                before,
                row,
                value.model(),
            ),
    }
}

/// Whether `after` is `before` once `func` was applied to component `kind` of
/// each row in turn.
pub open spec fn walked<C: RelationshipTarget, Func: Fn(Entity, &C) -> C>(
    func: Func,
    kind: ComponentId,
    before: StateModel<C>,
    after: StateModel<C>,
    rows: Seq<Entity>,
) -> bool
    decreases rows.len(),
{
    if rows.len() == 0 {
        after == before
    } else {
        exists|middle: StateModel<C>|
            walked(func, kind, before, middle, rows.drop_last()) && #[trigger] stepped(
                func,
                kind,
                middle,
                after,
                rows.last(),
            )
    }
}

impl<C: RelationshipTarget, B: SystemBodies<C>> BowlModel<C, B> {
    /// Whether inputs are pending that are accepted, and there is nothing to do but
    /// to apply them.
    pub open spec fn plain(self) -> bool {
        &&& self.state.opens_alone()
        &&& self.state.deferred.len() == 0
        &&& self.dropped.len() == 0
    }

    /// Whether `after` is this bowl once it settled and the bound entities whose
    /// handles are gone were cleaned up.
    pub open spec fn readied(self, after: BowlModel<C, B>) -> bool {
        &&& after.limit == self.limit
        &&& after.dropped == Seq::<Entity>::empty()
        &&& exists|settled: StateModel<C>, woken: Seq<Ticket>| #[trigger]
            settles(self, woken, settled, after.bodies) && tidied(
                settled,
                after.state,
                self.dropped,
            ) && after.woken == self.woken + woken
    }
}

/// Cleaning up bound entities touches neither a run nor an epoch.
proof fn lemma_tidied_keeps_course<C: RelationshipTarget>(
    before: StateModel<C>,
    after: StateModel<C>,
    entities: Seq<Entity>,
)
    requires
        cleaned_each(before, after, entities),
    ensures
        after.running == before.running,
        after.settling == before.settling,
    decreases entities.len(),
{
    if entities.len() > 0 {
        let middle = choose|middle: StateModel<C>|
            cleaned_each(before, middle, entities.drop_last()) && #[trigger] cleaned(
                middle,
                after,
                entities.last(),
            );
        lemma_tidied_keeps_course(before, middle, entities.drop_last());
    }
}

impl<C: RelationshipTarget, B: SystemBodies<C>> Bowl<C, B> {
    /// The state is well-formed, and nothing is running between calls.
    pub closed spec fn wf(&self) -> bool {
        &&& self.state.wf()
        &&& self.state@.running is None
        &&& self.state@.settling == 0
    }

    /// A bowl over a state that nobody is driving.
    pub fn new(state: State<C>, bodies: B) -> (bowl: Self)
        requires
            state.wf(),
            state@.running is None,
            state@.settling == 0,
        ensures
            bowl.wf(),
            bowl@ == (BowlModel {
                state: state@,
                bodies,
                limit: CommitLimit::Max(DEFAULT_COMMIT_LIMIT),
                dropped: Seq::empty(),
                woken: Seq::empty(),
            }),
    {
        let bowl = Bowl {
            state,
            bodies,
            limit: CommitLimit::Max(DEFAULT_COMMIT_LIMIT),
            dropped: Vec::new(),
            woken: Vec::new(),
        };
        assert(bowl@.dropped =~= Seq::<Entity>::empty());
        assert(bowl@.woken =~= Seq::<Ticket>::empty());
        bowl
    }

    /// Sets the guardrail for the settles to come.
    pub fn set_commit_limit(&mut self, limit: CommitLimit)
        requires
            old(self).wf(),
        ensures
            final(self).wf(),
            final(self)@ == (BowlModel { limit, ..old(self)@ }),
    {
        self.limit = limit;
    }

    /// The current commit guardrail.
    pub fn commit_limit(&self) -> (limit: CommitLimit)
        ensures
            limit == self@.limit,
    {
        self.limit
    }

    /// Queues a bundle as input on a new entity, or on the entity that carries the
    /// bundle's singleton.
    pub fn insert<T: Bundle<Universe = C>>(&mut self, bundle: T) -> (entity: Result<
        Entity,
        ApplyError,
    >)
        requires
            old(self).wf(),
        ensures
            final(self).wf(),
            inserted_on(old(self)@, final(self)@, bundle.facts(), None, entity),
    {
        let values = bundle.into_values();
        self.insert_values(values, None)
    }

    /// Queues a bundle as input on `target`.
    pub fn insert_on<T: Bundle<Universe = C>>(&mut self, target: Entity, bundle: T) -> (entity:
        Result<Entity, ApplyError>)
        requires
            old(self).wf(),
        ensures
            final(self).wf(),
            inserted_on(old(self)@, final(self)@, bundle.facts(), Some(target), entity),
    {
        let values = bundle.into_values();
        self.insert_values(values, Some(target))
    }

    fn insert_values(&mut self, values: Vec<C>, target: Option<Entity>) -> (entity: Result<
        Entity,
        ApplyError,
    >)
        requires
            old(self).wf(),
        ensures
            final(self).wf(),
            inserted_on(old(self)@, final(self)@, facts_of(values@), target, entity),
    {
        match self.state.insert(values, false, target) {
            Ok(Inserted::Queued { entity, .. }) => Ok(entity),
            Ok(Inserted::Boundary { entity, .. }) => Ok(entity),
            Err(error) => Err(error),
        }
    }

    /// Queues the removal of component `T` of `entity`.
    pub fn remove<T: ComponentType<Universe = C>>(&mut self, entity: Entity)
        requires
            old(self).wf(),
        ensures
            final(self).wf(),
            final(self)@ == (BowlModel {
                state: old(self)@.state.queued(
                    seq![BaseOpModel::<C>::RemoveComponent { kind: T::key(), entity }],
                ),
                ..old(self)@
            }),
    {
        let _ = self.state.remove_component(T::component_type(), entity, false);
    }

    /// Queues the removal of `entity` and everything on it.
    pub fn despawn(&mut self, entity: Entity)
        requires
            old(self).wf(),
        ensures
            final(self).wf(),
            final(self)@ == (BowlModel {
                state: old(self)@.state.queued(
                    seq![BaseOpModel::<C>::RemoveEntity { entity }],
                ),
                ..old(self)@
            }),
    {
        let _ = self.state.despawn(entity, false);
    }

    /// Drives the bowl until it is settled. The tickets of the callers who watch
    /// for settles are returned.
    pub fn settle(&mut self) -> (watchers: Result<Vec<Ticket>, EngineError>)
        requires
            old(self).wf(),
        ensures
            final(self).wf(),
            final(self)@.limit == old(self)@.limit,
            final(self)@.dropped == old(self)@.dropped,
            final(self)@.woken == old(self)@.woken,
            match watchers {
                Ok(watchers) => settles(
                    old(self)@,
                    watchers@,
                    final(self)@.state,
                    final(self)@.bodies,
                ),
                Err(error) => unsettles(old(self)@, error, final(self)@.state, final(self)@.bodies),
            },
            old(self)@.state.opens_alone() && old(self)@.state.deferred.len() == 0 ==> watchers is Ok
                && final(self)@.state.world == old(self)@.state.opening(),
    {
        self.state.settle(&mut self.bodies, self.limit)
    }

    /// Cleans up the bound entities whose handles are gone.
    fn tidy(&mut self)
        requires
            old(self).wf(),
        ensures
            final(self).wf(),
            final(self)@.limit == old(self)@.limit,
            final(self)@.dropped == Seq::<Entity>::empty(),
            final(self)@.woken == old(self)@.woken,
            final(self)@.bodies == old(self)@.bodies,
            tidied(old(self)@.state, final(self)@.state, old(self)@.dropped),
    {
        let ghost before = self@;
        let mut dropped: Vec<Entity> = Vec::new();
        std::mem::swap(&mut dropped, &mut self.dropped);
        self.state.cleanup_all(&dropped);
        proof {
            let cleared = choose|cleared: StateModel<C>| #[trigger]
                cleaned_each(before.state, cleared, dropped@) && self.state@ == resettled(
                    cleared,
                    before.state.is_settled(),
                );
            lemma_tidied_keeps_course(before.state, cleared, dropped@);
            assert(self@.dropped =~= Seq::<Entity>::empty());
        }
    }

    /// Settles, then cleans up the bound entities whose handles are gone.
    fn ready(&mut self) -> (ready: Result<(), EngineError>)
        requires
            old(self).wf(),
        ensures
            final(self).wf(),
            ready is Ok ==> old(self)@.readied(final(self)@),
            ready matches Err(error) ==> {
                &&& unsettles(old(self)@, error, final(self)@.state, final(self)@.bodies)
                &&& final(self)@.limit == old(self)@.limit
                &&& final(self)@.dropped == old(self)@.dropped
                &&& final(self)@.woken == old(self)@.woken
            },
            old(self)@.plain() ==> ready is Ok && final(self)@.state.world == old(self)@.state.opening(),
    {
        let mut watchers = match self.settle() {
            Ok(watchers) => watchers,
            Err(error) => {
                return Err(error);
            },
        };
        let ghost settled = self@.state;
        assert(settles(old(self)@, watchers@, settled, self@.bodies));
        self.woken.append(&mut watchers);
        self.tidy();
        Ok(())
    }

    /// Settles, and hands out the settled world for one or more reads.
    pub fn settled(&mut self) -> (snapshot: Result<Arc<Snapshot<C>>, EngineError>)
        requires
            old(self).wf(),
        ensures
            final(self).wf(),
            match snapshot {
                Ok(snapshot) => old(self)@.readied(final(self)@) && snapshot.wf() && snapshot@
                    == final(self)@.state.world.snapshot(),
                Err(error) => {
                    &&& unsettles(old(self)@, error, final(self)@.state, final(self)@.bodies)
                    &&& final(self)@.limit == old(self)@.limit
                    &&& final(self)@.dropped == old(self)@.dropped
                    &&& final(self)@.woken == old(self)@.woken
                },
            },
    {
        if let Err(error) = self.ready() {
            return Err(error);
        }
        Ok(self.state.snapshot())
    }

    /// What a snapshot of the bowl shows is what is read through the bowl.
    pub proof fn lemma_fresh_snapshot(&self)
        requires
            self.wf(),
        ensures
            fresh(self@.state.world.snapshot(), self@.state.world),
    {
        let world = self@.state.world;
        self.state.lemma_cells_kept();
        assert forall|kind: ComponentId, entity: Entity|
            #![trigger world.snapshot().entry(kind, entity)]
            world.snapshot().entry(kind, entity) matches Some(entry) ==> world.cell_value(
                entry.cell,
                entry.value,
            ) == entry.value by {
            if world.snapshot().entry(kind, entity) is Some {
                assert(world.stores[kind].entries.contains_key(entity.id()));
                assert(world.stores[kind].entries[entity.id()] == world.entry(kind, entity)->0);
            }
        }
    }

    /// What the settled revision is.
    pub fn settled_revision(&self) -> (revision: u64)
        ensures
            revision == self@.state.settled_revision,
    {
        self.state.settled_revision()
    }
}

/// Reads the rows of `Q` that pass `F` from `snapshot`. Several queries can read
/// from the same one: each has a result of its own.
pub fn read_from<C: ComparableComponent, Q: ExternalReadQueryParam<C>, F: ExternalQueryFilter<C>>(
    snapshot: Arc<Snapshot<C>>,
    args: &QueryArgs<C>,
    scope: Option<u64>,
) -> (result: Result<QueryResult<C>, ComponentId>)
    requires
        snapshot.wf(),
        args.wf(),
    ensures
        found::<C, Q, F>(snapshot@, args@, scope, result),
{
    let query = query_of::<C, Q>();
    match external_filtered_rows::<C, F::Expr>(&snapshot, &query, args, scope) {
        Ok(rows) => {
            let result = QueryResult { snapshot, query, rows };
            proof {
                let list = filtered::<C, F::Expr>(result@.world, result@.query, args@, scope);
                lemma_found_rows_are_admitted::<C, F::Expr>(
                    result@.world,
                    result@.query,
                    args@,
                    scope,
                );
                assert forall|i: int| 0 <= i < result@.rows.len() implies result@.query.admits(
                    result@.world,
                    #[trigger] result@.rows[i],
                ) by {
                    assert(list->Ok_0.contains(result@.rows[i]));
                }
            }
            Ok(result)
        },
        Err(kind) => Err(kind),
    }
}

/// What became of inputs on `target`: on a new entity without one. The bundle is
/// refused when it carries more than one singleton.
pub open spec fn inserted_on<C: RelationshipTarget, B: SystemBodies<C>>(
    before: BowlModel<C, B>,
    after: BowlModel<C, B>,
    facts: Seq<C::Model>,
    target: Option<Entity>,
    outcome: Result<Entity, ApplyError>,
) -> bool {
    match outcome {
        Err(error) => {
            &&& insert_refused::<C>(facts, target)
            &&& error is SeveralSingletons
            &&& after == before
        },
        Ok(entity) => {
            let ready = StateModel {
                world: insert_target_world(before.state.world, facts, target),
                ..before.state
            };
            &&& !insert_refused::<C>(facts, target)
            &&& entity == insert_target(before.state.world, facts, target)
            &&& after == BowlModel {
                state: ready.queued(bundle_inputs::<C>(entity, facts)),
                ..before
            }
        },
    }
}

/// Whether what was seen in `seen` is what is read through `world`: nothing was
/// written in place since.
pub open spec fn fresh<C: RelationshipTarget>(seen: WorldModel<C>, world: WorldModel<C>) -> bool {
    forall|kind: ComponentId, entity: Entity|
        #![trigger seen.entry(kind, entity)]
        seen.entry(kind, entity) matches Some(entry) ==> world.cell_value(entry.cell, entry.value)
            == entry.value
}

/// The query over the rows of `Q`.
pub open spec fn query_model<C: Component, Q: ExternalReadQueryParam<C>>() -> QueryModel {
    QueryModel { parts: Q::row_parts(), filters: Seq::empty() }
}

/// What reading `Q` under `F` from `world` finds.
pub open spec fn found<C: ComparableComponent, Q: ExternalReadQueryParam<C>, F: ExternalQueryFilter<
    C,
>>(
    world: WorldModel<C>,
    args: ArgMap<C>,
    scope: Option<u64>,
    result: Result<QueryResult<C>, ComponentId>,
) -> bool {
    let rows = filtered::<C, F::Expr>(world, query_model::<C, Q>(), args, scope);
    match result {
        Ok(result) => {
            &&& result.wf()
            &&& rows == Ok::<Seq<Entity>, ComponentId>(result@.rows)
            &&& result@.world == world
            &&& result@.query == query_model::<C, Q>()
        },
        Err(kind) => rows == Err::<Seq<Entity>, ComponentId>(kind),
    }
}

impl<C: ComparableComponent, B: SystemBodies<C>> Bowl<C, B> {
    /// Settles, then reads the rows of `Q` that pass `F`. Scoped arguments come
    /// before shared ones.
    pub fn scoop<Q: ExternalReadQueryParam<C>, F: ExternalQueryFilter<C>>(
        &mut self,
        args: &QueryArgs<C>,
        scope: Option<u64>,
    ) -> (result: Result<QueryResult<C>, ScoopError>)
        requires
            old(self).wf(),
            args.wf(),
        ensures
            final(self).wf(),
            scooped::<C, B, Q, F>(old(self)@, final(self)@, args@, scope, result),
            old(self)@.plain() ==> {
                &&& !(result matches Err(ScoopError::Unsettled(_)))
                &&& final(self)@.state.world == old(self)@.state.opening()
            },
    {
        if let Err(error) = self.ready() {
            return Err(ScoopError::Unsettled(error));
        }
        let snapshot = self.state.snapshot();
        proof {
            self.lemma_fresh_snapshot();
        }
        match read_from::<C, Q, F>(snapshot, args, scope) {
            Ok(result) => Ok(result),
            Err(kind) => Err(ScoopError::Unbound(kind)),
        }
    }

    /// Reads the rows of `Q` that pass `F` from the world as it was when the bowl
    /// last settled, without settling. Without such a world, the rows are read
    /// from the current one.
    pub fn last_settled<Q: ExternalReadQueryParam<C>, F: ExternalQueryFilter<C>>(
        &mut self,
        args: &QueryArgs<C>,
        scope: Option<u64>,
    ) -> (result: Result<QueryResult<C>, ComponentId>)
        requires
            old(self).wf(),
            args.wf(),
        ensures
            final(self).wf(),
            final(self)@ == old(self)@,
            found::<C, Q, F>(
                match old(self)@.state.retained {
                    Some(retained) => retained,
                    None => old(self)@.state.world.snapshot(),
                },
                args@,
                scope,
                result,
            ),
    {
        let snapshot = self.state.last_settled();
        read_from::<C, Q, F>(snapshot, args, scope)
    }

    /// Settles, then reads only the rows of `Q` whose tracked components changed
    /// after `cursor`.
    pub fn changed_since<Q: ExternalReadQueryParam<C>, F: ExternalQueryFilter<C>>(
        &mut self,
        args: &QueryArgs<C>,
        scope: Option<u64>,
        cursor: u64,
    ) -> (result: Result<QueryResult<C>, ScoopError>)
        requires
            old(self).wf(),
            args.wf(),
        ensures
            final(self).wf(),
            match result {
                Ok(result) => exists|all: QueryResult<C>| #[trigger]
                    scooped::<C, B, Q, F>(old(self)@, final(self)@, args@, scope, Ok(all))
                        && result.wf() && result@ == (ResultModel {
                        rows: changed_rows(all@.world, all@.query, all@.rows, cursor),
                        ..all@
                    }),
                Err(error) => scooped::<C, B, Q, F>(
                    old(self)@,
                    final(self)@,
                    args@,
                    scope,
                    Err(error),
                ),
            },
    {
        match self.scoop::<Q, F>(args, scope) {
            Ok(result) => {
                let ghost all = result;
                let mut result = result;
                result.changed_since(cursor);
                assert(scooped::<C, B, Q, F>(old(self)@, self@, args@, scope, Ok(all)));
                Ok(result)
            },
            Err(error) => Err(error),
        }
    }

    /// Settles, reads the rows of `Q` that pass `F`, then removes the row
    /// entities with everything scoped to them. The result stays readable.
    pub fn drain<Q: ExternalReadQueryParam<C>, F: ExternalQueryFilter<C>>(
        &mut self,
        args: &QueryArgs<C>,
        scope: Option<u64>,
    ) -> (result: Result<QueryResult<C>, ScoopError>)
        requires
            old(self).wf(),
            args.wf(),
        ensures
            final(self).wf(),
            match result {
                Ok(result) => exists|read: BowlModel<C, B>| #[trigger]
                    scooped::<C, B, Q, F>(old(self)@, read, args@, scope, Ok(result))
                        && final(self)@.limit == read.limit
                        && final(self)@.dropped == read.dropped && final(self)@.woken == read.woken
                        && final(self)@.bodies == read.bodies && tidied(
                        read.state,
                        final(self)@.state,
                        result@.rows,
                    ),
                Err(error) => scooped::<C, B, Q, F>(
                    old(self)@,
                    final(self)@,
                    args@,
                    scope,
                    Err(error),
                ),
            },
    {
        match self.scoop::<Q, F>(args, scope) {
            Ok(result) => {
                let ghost read = self@;
                self.state.cleanup_all(&result.rows);
                proof {
                    let cleared = choose|cleared: StateModel<C>| #[trigger]
                        cleaned_each(read.state, cleared, result@.rows) && self.state@
                            == resettled(cleared, read.state.is_settled());
                    lemma_tidied_keeps_course(read.state, cleared, result@.rows);
                    assert(scooped::<C, B, Q, F>(old(self)@, read, args@, scope, Ok(result)));
                }
                Ok(result)
            },
            Err(error) => Err(error),
        }
    }
}

/// What a scoop of `Q` under `F` does: the bowl is settled and tidied, and the
/// rows are read from what it holds then. What they show is what is read through the
/// bowl, until something is written in place.
pub open spec fn scooped<
    C: ComparableComponent,
    B: SystemBodies<C>,
    Q: ExternalReadQueryParam<C>,
    F: ExternalQueryFilter<C>,
>(
    before: BowlModel<C, B>,
    after: BowlModel<C, B>,
    args: ArgMap<C>,
    scope: Option<u64>,
    result: Result<QueryResult<C>, ScoopError>,
) -> bool {
    match result {
        Ok(result) => before.readied(after) && found::<C, Q, F>(
            after.state.world.snapshot(),
            args,
            scope,
            Ok(result),
        ) && fresh(result@.world, after.state.world),
        Err(ScoopError::Unbound(kind)) => before.readied(after) && found::<C, Q, F>(
            after.state.world.snapshot(),
            args,
            scope,
            Err(kind),
        ),
        Err(ScoopError::Unsettled(error)) => {
            &&& unsettles(before, error, after.state, after.bodies)
            &&& after.limit == before.limit
            &&& after.dropped == before.dropped
            &&& after.woken == before.woken
        },
    }
}

impl<C: ComparableComponent, B: SystemBodies<C>> Bowl<C, B> {
    /// Settles, then replaces the component that `Q` updates on every row that
    /// passes `F` by what `func` makes of it, on the live world. Results that are
    /// held keep the values that they saw.
    pub fn for_each<Q: CowQueryParam<C>, F: ExternalQueryFilter<C>, Func: Fn(Entity, &C) -> C>(
        &mut self,
        args: &QueryArgs<C>,
        scope: Option<u64>,
        func: Func,
    ) -> (outcome: Result<(), ScoopError>)
        requires
            old(self).wf(),
            args.wf(),
            forall|row: Entity, value: &C| call_requires(func, (row, value)),
        ensures
            final(self).wf(),
            match outcome {
                Ok(_) => exists|read: BowlModel<C, B>| #[trigger]
                    old(self)@.readied(read) && final(self)@.limit == read.limit
                        && final(self)@.dropped == read.dropped && final(self)@.woken == read.woken
                        && final(self)@.bodies == read.bodies && (filtered::<C, F::Expr>(
                        read.state.world.snapshot(),
                        carriers(Q::updated()),
                        args@,
                        scope,
                    ) matches Ok(rows) && walked(
                        func,
                        Q::updated(),
                        read.state,
                        final(self)@.state,
                        rows,
                    )),
                Err(ScoopError::Unbound(kind)) => old(self)@.readied(final(self)@) && filtered::<
                    C,
                    F::Expr,
                >(
                    final(self)@.state.world.snapshot(),
                    carriers(Q::updated()),
                    args@,
                    scope,
                ) == Err::<Seq<Entity>, ComponentId>(kind),
                Err(ScoopError::Unsettled(error)) => {
                    &&& unsettles(old(self)@, error, final(self)@.state, final(self)@.bodies)
                    &&& final(self)@.limit == old(self)@.limit
                    &&& final(self)@.dropped == old(self)@.dropped
                    &&& final(self)@.woken == old(self)@.woken
                },
            },
    {
        if let Err(error) = self.ready() {
            return Err(ScoopError::Unsettled(error));
        }
        let kind = Q::updated_kind();
        let query = carriers_of(kind);
        let snapshot = self.state.snapshot();
        let rows = match external_filtered_rows::<C, F::Expr>(&snapshot, &query, args, scope) {
            Ok(rows) => rows,
            Err(missing) => {
                return Err(ScoopError::Unbound(missing));
            },
        };
        let ghost read = self@;
        let mut i: usize = 0;
        assert(rows@.take(0) =~= Seq::<Entity>::empty());
        while i < rows.len()
            invariant
                i <= rows@.len(),
                self.wf(),
                self@.limit == read.limit,
                self@.dropped == read.dropped,
                self@.woken == read.woken,
                self@.bodies == read.bodies,
                kind == Q::updated(),
                forall|row: Entity, value: &C| call_requires(func, (row, value)),
                walked(func, kind, read.state, self@.state, rows@.take(i as int)),
            decreases rows@.len() - i,
        {
            let ghost middle = self@.state;
            let row = rows[i];
            proof {
                assert(rows@.take(i + 1).drop_last() =~= rows@.take(i as int));
                assert(rows@.take(i + 1).last() == row);
            }
            let answer = match self.state.get(kind, row) {
                Some(seen) => {
                    let value = func(row, seen);
                    assert(answered(func, row, middle.world.entry(kind, row)->0.value, value)) by {
                        assert(seen.model() == middle.world.entry(kind, row)->0.value);
                    }
                    Some(value)
                },
                None => None,
            };
            if let Some(value) = answer {
                let _ = self.state.apply_component_copy(row, value);
                assert(self.state@ == copied(middle, row, value.model()));
            }
            assert(stepped(func, kind, middle, self@.state, row));
            i = i + 1;
        }
        proof {
            assert(rows@.take(rows@.len() as int) =~= rows@);
            assert(old(self)@.readied(read));
        }
        Ok(())
    }

    /// Settles, then hands out a live write access to component `T` of every row
    /// that carries it and passes `F`.
    pub fn scoop_mut<T: ComponentType<Universe = C>, F: ExternalQueryFilter<C>>(
        &mut self,
        args: &QueryArgs<C>,
        scope: Option<u64>,
    ) -> (handles: Result<Vec<Mut>, ScoopError>)
        requires
            old(self).wf(),
            args.wf(),
        ensures
            final(self).wf(),
            ({
                let world = final(self)@.state.world.snapshot();
                let rows = filtered::<C, F::Expr>(world, carriers(T::key()), args@, scope);
                match handles {
                    Ok(handles) => old(self)@.readied(final(self)@) && (rows matches Ok(list)
                        && handles@ == handles_of(T::key(), with_revisions(world, T::key(), list))),
                    Err(ScoopError::Unbound(kind)) => old(self)@.readied(final(self)@) && rows
                        == Err::<Seq<Entity>, ComponentId>(kind),
                    Err(ScoopError::Unsettled(error)) => {
                        &&& unsettles(old(self)@, error, final(self)@.state, final(self)@.bodies)
                        &&& final(self)@.limit == old(self)@.limit
                        &&& final(self)@.dropped == old(self)@.dropped
                        &&& final(self)@.woken == old(self)@.woken
                    },
                }
            }),
    {
        if let Err(error) = self.ready() {
            return Err(ScoopError::Unsettled(error));
        }
        let kind = T::component_type();
        let query = carriers_of(kind);
        let snapshot = self.state.snapshot();
        match external_mut_rows::<C, F::Expr>(&snapshot, kind, &query, args, scope) {
            Ok(rows) => {
                let mut handles: Vec<Mut> = Vec::new();
                let mut i: usize = 0;
                while i < rows.len()
                    invariant
                        i <= rows@.len(),
                        handles@ =~= handles_of(kind, rows@).take(i as int),
                    decreases rows@.len() - i,
                {
                    handles.push(Mut { entity: rows[i].0, kind, revision: rows[i].1 });
                    i = i + 1;
                }
                assert(handles@ =~= handles_of(kind, rows@));
                Ok(handles)
            },
            Err(missing) => Err(ScoopError::Unbound(missing)),
        }
    }

    /// Replaces the component behind `handle` by what `func` makes of it, only if
    /// it still has the revision that the handle saw, and returns what `func` gives
    /// besides. `None` means that the component moved on or is gone.
    pub fn with_original<R, Func: Fn(Entity, &C) -> (C, R)>(&mut self, handle: &Mut, func: Func) -> (result:
        Option<R>)
        requires
            old(self).wf(),
            forall|row: Entity, value: &C| call_requires(func, (row, value)),
        ensures
            final(self).wf(),
            final(self)@.limit == old(self)@.limit,
            final(self)@.dropped == old(self)@.dropped,
            final(self)@.woken == old(self)@.woken,
            final(self)@.bodies == old(self)@.bodies,
            ({
                let now = match old(self)@.state.world.entry(handle.kind, handle.entity) {
                    Some(entry) => Some(entry.revision),
                    None => None,
                };
                if now == handle.revision {
                    wrote(
                        func,
                        handle.kind,
                        handle.entity,
                        old(self)@.state,
                        final(self)@.state,
                        result,
                    )
                } else {
                    result is None && final(self)@ == old(self)@
                }
            }),
    {
        let mut waiter = PreemptWaiter::new(false);
        let step = self.state.mutation_step(
            &mut waiter,
            handle.kind,
            handle.entity,
            Some(handle.revision),
        );
        match step {
            MutationStep::Ready => self.write_through(handle, func),
            _ => None,
        }
    }

    /// Replaces the component behind `handle` by what `func` makes of it, whatever
    /// its revision, and returns what `func` gives besides. `None` means that the
    /// component is gone.
    pub fn with_latest<R, Func: Fn(Entity, &C) -> (C, R)>(&mut self, handle: &Mut, func: Func) -> (result:
        Option<R>)
        requires
            old(self).wf(),
            forall|row: Entity, value: &C| call_requires(func, (row, value)),
        ensures
            final(self).wf(),
            final(self)@.limit == old(self)@.limit,
            final(self)@.dropped == old(self)@.dropped,
            final(self)@.woken == old(self)@.woken,
            final(self)@.bodies == old(self)@.bodies,
            wrote(
                func,
                handle.kind,
                handle.entity,
                old(self)@.state,
                final(self)@.state,
                result,
            ),
    {
        let mut waiter = PreemptWaiter::new(false);
        let step = self.state.mutation_step(&mut waiter, handle.kind, handle.entity, None);
        match step {
            MutationStep::Ready => self.write_through(handle, func),
            _ => None,
        }
    }

    fn write_through<R, Func: Fn(Entity, &C) -> (C, R)>(&mut self, handle: &Mut, func: Func) -> (result:
        Option<R>)
        requires
            old(self).wf(),
            forall|row: Entity, value: &C| call_requires(func, (row, value)),
        ensures
            final(self).wf(),
            final(self)@.limit == old(self)@.limit,
            final(self)@.dropped == old(self)@.dropped,
            final(self)@.woken == old(self)@.woken,
            final(self)@.bodies == old(self)@.bodies,
            wrote(
                func,
                handle.kind,
                handle.entity,
                old(self)@.state,
                final(self)@.state,
                result,
            ),
    {
        let ghost before = self@.state;
        let reply = match self.state.get(handle.kind, handle.entity) {
            Some(seen) => func(handle.entity, seen),
            None => {
                return None;
            },
        };
        let ghost given = reply;
        let (value, result) = reply;
        let _ = self.state.apply_component_mutation(handle.entity, value);
        assert(self.state@ == mutated(before, handle.entity, given.0.model()));
        Some(result)
    }
}

/// Whether `after` is `before` once `func` was applied to component `kind` of
/// `entity`, and `result` is what it gave besides; `None` means that the entity
/// does not carry the component.
pub open spec fn wrote<C: RelationshipTarget, R, Func: Fn(Entity, &C) -> (C, R)>(
    func: Func,
    kind: ComponentId,
    entity: Entity,
    before: StateModel<C>,
    after: StateModel<C>,
    result: Option<R>,
) -> bool {
    match before.world.entry(kind, entity) {
        None => result is None && after == before,
        Some(entry) => exists|seen: C, reply: (C, R)|
            #![trigger call_ensures(func, (entity, &seen), reply)]
            seen.model() == entry.value && call_ensures(func, (entity, &seen), reply) && after
                == mutated(before, entity, reply.0.model()) && result == Some(reply.1),
    }
}

/// Live write accesses to component `kind` of rows with their revisions.
pub open spec fn handles_of(kind: ComponentId, rows: Seq<(Entity, Option<u64>)>) -> Seq<Mut> {
    rows.map_values(|row: (Entity, Option<u64>)| Mut { entity: row.0, kind, revision: row.1 })
}

impl<C: RelationshipTarget, B: SystemBodies<C>> Bowl<C, B> {
    /// Binds an entity to a handle: when the handle goes, so does the entity.
    pub fn bind(&self, entity: Entity) -> (bound: BoundEntity)
        ensures
            bound.bound() == entity,
    {
        BoundEntity { entity }
    }

    /// Gives a bound entity up: the next operation cleans it up after settling.
    pub fn close(&mut self, bound: BoundEntity)
        requires
            old(self).wf(),
        ensures
            final(self).wf(),
            final(self)@ == (BowlModel {
                dropped: old(self)@.dropped.push(bound.bound()),
                ..old(self)@
            }),
    {
        self.dropped.push(bound.entity);
    }

    /// Settles, takes the requested components off a bound entity, then closes
    /// it.
    ///
    /// Required components fail the take when they are absent. The entity and
    /// everything scoped to it are cleaned up regardless of success.
    pub fn take<T: TakeBundle<Universe = C>>(&mut self, bound: BoundEntity) -> (taken: Result<
        Result<T::Output, TakeError>,
        EngineError,
    >)
        requires
            old(self).wf(),
        ensures
            final(self).wf(),
            final(self)@.limit == old(self)@.limit,
            match taken {
                Ok(taken) => exists|
                    settled: StateModel<C>,
                    closed: StateModel<C>,
                    woken: Seq<Ticket>,
                |
                    #![trigger settles(old(self)@, woken, settled, final(self)@.bodies), tidied(closed, final(self)@.state, old(self)@.dropped)]
                    settles(old(self)@, woken, settled, final(self)@.bodies) && final(self)@.woken
                        == old(self)@.woken + woken && took(
                        settled,
                        closed,
                        T::wanted(),
                        bound.bound(),
                    ) && tidied(closed, final(self)@.state, old(self)@.dropped) && ({
                        let after = take_all(settled.world, T::wanted(), bound.bound());
                        match taken {
                            Ok(output) => after.1 == Ok::<Seq<Option<C::Model>>, ComponentId>(
                                T::contents(output),
                            ),
                            Err(error) => after.1 matches Err(kind) && error.subject()
                                == bound.bound() && error.lacking() == C::label(kind),
                        }
                    }),
                Err(error) => {
                    &&& unsettles(old(self)@, error, final(self)@.state, final(self)@.bodies)
                    &&& final(self)@.dropped == old(self)@.dropped.push(bound.bound())
                    &&& final(self)@.woken == old(self)@.woken
                },
            },
    {
        let mut watchers = match self.settle() {
            Ok(watchers) => watchers,
            Err(error) => {
                self.dropped.push(bound.entity);
                return Err(error);
            },
        };
        let ghost settled = self@.state;
        let ghost woken = watchers@;
        self.woken.append(&mut watchers);
        let taken = self.state.take_bound::<T>(bound.entity);
        let ghost closed = self@.state;
        proof {
            let cleared = choose|cleared: StateModel<C>| #[trigger]
                cleaned(taken_from(settled, T::wanted(), bound.entity), cleared, bound.entity)
                    && closed == resettled(cleared, settled.is_settled());
            assert(cleared.running == settled.running);
        }
        self.tidy();
        proof {
            assert(settles(old(self)@, woken, settled, self@.bodies));
            assert(took(settled, closed, T::wanted(), bound.bound()));
            assert(tidied(closed, self@.state, old(self)@.dropped));
        }
        Ok(taken)
    }
}

impl<C: RelationshipTarget, B: SystemBodies<C>> Bowl<C, B> {
    /// How far a system has come: the rows it matches, and those it has seen.
    pub fn explain(&mut self, system: &str) -> (report: Result<ExplainReport, JoinError>)
        requires
            old(self).wf(),
        ensures
            final(self).wf(),
            final(self)@ == old(self)@,
            match named(old(self)@.state.systems, system@, 0) {
                None => report == Ok::<ExplainReport, JoinError>(
                    ExplainReport {
                        registered: false,
                        phase: None,
                        matched_rows: 0,
                        memoized_rows: 0,
                        stale_views: 0,
                    },
                ),
                Some(at) => match report {
                    Ok(report) => report_of(old(self)@.state, at, report),
                    Err(error) => system_states(
                        old(self)@.state.world.snapshot(),
                        old(self)@.state.systems[at].params,
                    ) == Err::<Seq<Seq<crate::param::RowState>>, JoinError>(error),
                },
            },
    {
        self.state.explain(system)
    }

    /// Cumulative profile of every system, in registration order.
    pub fn profile_all(&self) -> (profile: Vec<ProfileEntry>)
        requires
            self.wf(),
        ensures
            profile@.len() == self@.state.systems.len(),
            self@.state.counters.len() == self@.state.systems.len(),
            forall|i: int|
                0 <= i < profile@.len() ==> (#[trigger] profile@[i]).name@
                    == self@.state.systems[i].name && profile@[i].shows(
                    self@.state.counters[i],
                ),
    {
        self.state.profile_all()
    }

    /// Explains every system, in registration order.
    pub fn explain_all(&mut self) -> (reports: Result<Vec<(&'static str, ExplainReport)>, JoinError>)
        requires
            old(self).wf(),
        ensures
            final(self).wf(),
            final(self)@ == old(self)@,
            match reports {
                Ok(reports) => {
                    &&& reports@.len() == old(self)@.state.systems.len()
                    &&& forall|i: int|
                        0 <= i < reports@.len() ==> (#[trigger] reports@[i]).0@
                            == old(self)@.state.systems[i].name && report_of(
                            old(self)@.state,
                            i,
                            reports@[i].1,
                        )
                },
                Err(error) => exists|i: int|
                    0 <= i < old(self)@.state.systems.len() && explains_up_to(
                        old(self)@.state,
                        i,
                    ) && system_states(
                        old(self)@.state.world.snapshot(),
                        (#[trigger] old(self)@.state.systems[i]).params,
                    ) == Err::<Seq<Seq<crate::param::RowState>>, JoinError>(error),
            },
    {
        self.state.explain_all()
    }

    /// Takes the callers to be woken because a read settled the bowl.
    pub fn take_woken(&mut self) -> (woken: Vec<Ticket>)
        requires
            old(self).wf(),
        ensures
            final(self).wf(),
            woken@ == old(self)@.woken,
            final(self)@ == (BowlModel { woken: Seq::empty(), ..old(self)@ }),
    {
        let mut woken: Vec<Ticket> = Vec::new();
        std::mem::swap(&mut woken, &mut self.woken);
        assert(self@.woken =~= Seq::<Ticket>::empty());
        woken
    }

    /// Registers a ticket of a caller who is to be woken by the next settle that
    /// settles anything: [`Bowl::settle`] returns it, and after a read
    /// [`Bowl::take_woken`] does.
    pub fn next_settle(&mut self, ticket: Ticket)
        requires
            old(self).wf(),
        ensures
            final(self).wf(),
            final(self)@ == (BowlModel {
                state: StateModel {
                    watchers: old(self)@.state.watchers.push(ticket),
                    ..old(self)@.state
                },
                ..old(self)@
            }),
    {
        self.state.next_settle(ticket);
    }
}

/// A bowl that has settled, with nothing pending, runs no body when it is settled
/// again: the bodies stay as they are, nobody is woken, and the state keeps all that
/// it holds, but for the world that is retained for readers of the last settle.
pub proof fn lemma_second_settle_runs_nothing<C: RelationshipTarget, B: SystemBodies<C>>(
    before: BowlModel<C, B>,
    woken: Seq<Ticket>,
    between: BowlModel<C, B>,
    woken_again: Seq<Ticket>,
    after: StateModel<C>,
    bodies: B,
)
    requires
        settles(before, woken, between.state, between.bodies),
        between.state.pending is None,
        between.state.deferred.len() == 0,
        settles(between, woken_again, after, bodies),
    ensures
        bodies == between.bodies,
        woken_again.len() == 0,
        after == between.state.retaining(),
{
    assert(between.state.is_settled());
}

/// Reading a settled bowl changes nothing that it holds, and runs no body; only the
/// world is retained for readers of the last settle.
pub proof fn lemma_reading_at_rest<C: RelationshipTarget, B: SystemBodies<C>>(
    before: BowlModel<C, B>,
    after: BowlModel<C, B>,
)
    requires
        before.state.is_settled(),
        before.state.deferred.len() == 0,
        before.dropped == Seq::<Entity>::empty(),
        before.readied(after),
    ensures
        after == (BowlModel { state: before.state.retaining(), ..before }),
{
    let (settled, woken) = choose|settled: StateModel<C>, woken: Seq<Ticket>| #[trigger]
        settles(before, woken, settled, after.bodies) && tidied(
            settled,
            after.state,
            before.dropped,
        ) && after.woken == before.woken + woken;
    assert(settled == before.state.retaining());
    assert(before.woken + woken =~= before.woken);
    assert(after.state =~= before.state.retaining());
}

/// A write through a live access is read by every result that shares the
/// component's cell, and by results that are read later.
pub proof fn lemma_live_write_is_read_by_held_results<C: RelationshipTarget>(
    state: StateModel<C>,
    entity: Entity,
    fact: C::Model,
    seen: Entry<C>,
)
    requires
        state.world.entry(C::kind(fact), entity) matches Some(entry) && entry.cell == seen.cell,
        seen.cell is Some,
    ensures
        mutated(state, entity, fact).world.cell_value(seen.cell, seen.value) == fact,
{
    lemma_in_place_write_is_read(state.world, entity, fact, seen);
}

/// A write of a changed copy is read by no result that was read before.
pub proof fn lemma_copied_write_keeps_held_results<C: RelationshipTarget>(
    state: StateModel<C>,
    entity: Entity,
    fact: C::Model,
    seen: Entry<C>,
)
    requires
        given_out(state.world, seen.cell),
    ensures
        copied(state, entity, fact).world.cell_value(seen.cell, seen.value)
            == state.world.cell_value(seen.cell, seen.value),
{
    lemma_copy_is_not_read(state.world, entity, fact, seen);
}

/// A write that leaves the value's fingerprint alone, and its edge where it points,
/// does not call for another generation.
pub proof fn lemma_equal_write_stays_clean<C: RelationshipTarget>(
    state: StateModel<C>,
    entity: Entity,
    fact: C::Model,
)
    requires
        state.world.has(C::kind(fact), entity),
        !state.world.moves(entity, fact),
    ensures
        mutated(state, entity, fact).pending == state.pending,
        mutated(state, entity, fact).clean == state.clean,
{
}

/// What was inserted is read back: in a bowl without systems, a queued value that
/// is not refused is accepted, and the settled world holds it.
pub proof fn lemma_inserted_value_is_read_back<C: RelationshipTarget>(
    state: StateModel<C>,
    entity: Entity,
    fact: C::Model,
)
    requires
        state.systems.len() == 0,
        state.inputs.len() == 0,
        state.held.len() == 0,
        state.world.pending.len() == 0,
        state.world.consistent(),
        C::anchored(fact) is None,
        !state.world.refuses(entity, fact),
    ensures
        ({
            let queued = state.queued(seq![BaseOpModel::<C>::Insert { entity, fact }]);
            &&& queued.opens_alone()
            &&& queued.opening().entry(C::kind(fact), entity) matches Some(entry) && entry.value
                == fact
        }),
{
    let ops = seq![BaseOpModel::<C>::Insert { entity, fact }];
    let queued = state.queued(ops);
    let world = rolled(state.world);
    assert(state.inputs + ops =~= ops);
    assert(apply_held(world, state.held) == (world, Ok::<(), ApplyError>(())));
    assert(ops.drop_last() =~= Seq::<BaseOpModel<C>>::empty());
    assert(apply_base_ops(world, ops.drop_last()) == (world, Ok::<(), ApplyError>(())));
    assert(world.stores == state.world.stores);
    assert(world.consistent());
    lemma_insert_reads_back(world, entity, fact, Origin::Base, None, C::kind(fact), entity);
    let after = apply_base_ops(world, ops);
    assert(after == apply_base_op(world, ops.last()));
}

} // verus!
