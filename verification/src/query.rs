//! Queries over component rows: which rows match, what they depend on, and what
//! they touch.

use crate::access::{Access, AccessKind};
use crate::component::{Component, ComponentId, ComponentType, RelationshipTarget};
use crate::entity::Entity;
use crate::model::{ascending, lemma_sorted_keys, sorted_keys, Cell, WorldModel};
use crate::world::{as_entities, ids, World};
use std::marker::PhantomData;
use vstd::prelude::*;

verus! {

/// A tracked system input: the row data of one invocation.
///
/// Each row discovered by the query and accepted by filter `F` contributes
/// invocation keys, memoized input revisions, and the values passed to the
/// system.
pub struct Query<T, F = ()> {
    item: T,
    _filter: PhantomData<F>,
}

impl<T, F> Query<T, F> {
    /// The row data.
    pub closed spec fn row(self) -> T {
        self.item
    }

    /// Wraps the row data of one invocation.
    pub fn new(item: T) -> (query: Self)
        ensures
            query.row() == item,
    {
        Query { item, _filter: PhantomData }
    }

    /// Returns the row data selected by this query.
    pub fn item(self) -> (item: T)
        ensures
            item == self.row(),
    {
        self.item
    }

    /// Borrows the row data selected by this query.
    pub fn as_item(&self) -> (item: &T)
        ensures
            *item == self.row(),
    {
        &self.item
    }
}

/// Exclusive in-place access to one component row inside a system.
pub struct MutRef<'a, T> {
    entity: Entity,
    value: &'a mut T,
}

impl<'a, T> MutRef<'a, T> {
    /// The entity the row belongs to.
    pub closed spec fn row(self) -> Entity {
        self.entity
    }

    /// The access to the row's value.
    pub closed spec fn held(self) -> &'a mut T {
        self.value
    }

    /// The row's value.
    pub open spec fn value(self) -> T {
        *self.held()
    }

    /// Wraps exclusive access to the row of `entity`: what is left in it at the end
    /// is left in the row.
    pub fn new(entity: Entity, value: &'a mut T) -> (access: MutRef<'a, T>)
        ensures
            access.row() == entity,
            access.value() == *old(value),
            *final(access.held()) == *final(value),
    {
        MutRef { entity, value }
    }

    /// The row's value.
    pub fn get(&self) -> (value: &T)
        ensures
            *value == self.value(),
    {
        &*self.value
    }

    /// Replaces the row's value in place.
    pub fn set(&mut self, value: T)
        ensures
            final(self).row() == old(self).row(),
            final(self).value() == value,
            *final(final(self).held()) == *final(old(self).held()),
    {
        *self.value = value;
    }

    /// Entity this row belongs to.
    pub fn entity(&self) -> (entity: Entity)
        ensures
            entity == self.row(),
    {
        self.entity
    }
}

/// Assigns a type-level name to an external query, so that one request can bind
/// different runtime arguments of one component type.
#[derive(Debug)]
pub struct Named<Tag, S>(PhantomData<(Tag, S)>);

/// Filter that requires `T` to be present without fetching it.
#[derive(Debug)]
pub struct With<T>(PhantomData<T>);

/// Filter wrapper: runtime arguments for external queries, join bindings for
/// system queries.
#[derive(Debug)]
pub struct Where<F>(PhantomData<F>);

/// Requires component `T` on the row entity to equal the bound argument.
#[derive(Debug)]
pub struct Eq<T>(PhantomData<T>);

/// Requires component `T` on the row entity to be greater than or equal to the
/// bound argument.
#[derive(Debug)]
pub struct Gte<T>(PhantomData<T>);

/// Requires the row entity to be a member of the maintained inverse `T` that a
/// sibling query reads.
#[derive(Debug)]
pub struct In<T>(PhantomData<T>);

/// Boolean conjunction of two filter expressions.
#[derive(Debug)]
pub struct And<A, B>(PhantomData<(A, B)>);

/// Boolean disjunction of two filter expressions.
#[derive(Debug)]
pub struct Or<A, B>(PhantomData<(A, B)>);

/// Boolean negation of one filter expression.
#[derive(Debug)]
pub struct Not<F>(PhantomData<F>);

/// Requires component `T` to be absent from the row entity.
#[derive(Debug)]
pub struct Without<T>(PhantomData<T>);

/// Clone-on-write component projection for external update queries.
#[derive(Debug)]
pub struct Cow<T>(PhantomData<T>);

/// One tracked input of a memoized invocation: the revision of a component row,
/// or the watermark of a whole store when `entity` is `None`. A row may also be
/// observed without the component: then `absent` is set.
#[derive(Debug, Clone, Copy)]
pub struct Dep {
    pub component: ComponentId,
    pub entity: Option<Entity>,
    pub revision: u64,
    pub absent: bool,
}

impl Dep {
    /// Whether what was observed is still the case.
    pub open spec fn holds<C: RelationshipTarget>(self, world: WorldModel<C>) -> bool {
        match self.entity {
            Some(entity) => match world.entry(self.component, entity) {
                Some(entry) => !self.absent && entry.revision == self.revision,
                None => self.absent,
            },
            None => world.column(self.component).watermark == self.revision,
        }
    }

    /// The dependency after its own invocation wrote `writes`: a written row is
    /// observed at the revision that the write gave it.
    pub open spec fn refreshed<C: RelationshipTarget>(
        self,
        world: WorldModel<C>,
        writes: Seq<Cell>,
    ) -> Dep {
        match self.entity {
            Some(entity) => if writes.contains((self.component, entity)) && world.has(
                self.component,
                entity,
            ) {
                Dep {
                    revision: world.entry(self.component, entity)->0.revision,
                    absent: false,
                    ..self
                }
            } else {
                self
            },
            None => self,
        }
    }

    /// Whether what was observed is still the case.
    pub fn is_current<C: RelationshipTarget>(&self, snapshot: &World<C>) -> (current: bool)
        ensures
            current == self.holds(snapshot@),
    {
        match self.entity {
            Some(entity) => match snapshot.revision(self.component, entity) {
                Some(revision) => !self.absent && revision == self.revision,
                None => self.absent,
            },
            None => snapshot.store_watermark(self.component) == self.revision,
        }
    }

    /// Absorbs the post-commit revision when the row was written by the owning
    /// invocation itself.
    pub fn refresh_written<C: RelationshipTarget>(&mut self, world: &World<C>, writes: &Vec<Cell>)
        ensures
            *final(self) == old(self).refreshed(world@, writes@),
    {
        if let Some(entity) = self.entity {
            let mut written = false;
            let mut i: usize = 0;
            let component = self.component;
            while i < writes.len()
                invariant
                    i <= writes@.len(),
                    *self == *old(self),
                    component == self.component,
                    written == writes@.take(i as int).contains((component, entity)),
                decreases writes@.len() - i,
            {
                let hit = writes[i].0 == component && writes[i].1.raw() == entity.raw();
                if hit {
                    written = true;
                }
                proof {
                    let before = writes@.take(i as int);
                    let now = writes@.take(i + 1);
                    assert(now =~= before.push(writes@[i as int]));
                    if hit {
                        crate::entity::lemma_entity_is_its_id(writes@[i as int].1, entity);
                        assert(now[i as int] == (component, entity));
                    }
                    if before.contains((component, entity)) {
                        let j = choose|j: int|
                            0 <= j < before.len() && before[j] == (component, entity);
                        assert(now[j] == (component, entity));
                    }
                }
                i = i + 1;
            }
            assert(writes@.take(writes@.len() as int) =~= writes@);
            if written {
                if let Some(revision) = world.revision(self.component, entity) {
                    self.revision = revision;
                    self.absent = false;
                }
            }
        }
    }

    /// The observed revision.
    pub fn revision_raw(&self) -> (revision: u64)
        ensures
            revision == self.revision,
    {
        self.revision
    }
}

/// How a query reads one component of its rows.
#[derive(Debug, Clone, Copy, PartialEq, Eq, Structural)]
pub enum PartMode {
    /// Shared access.
    Read,
    /// Exclusive in-place access.
    Write,
}

/// One component in a query's row data.
#[derive(Debug, Clone, Copy)]
pub struct QueryPart {
    pub component: ComponentId,
    pub mode: PartMode,
}

/// One condition on a query's rows.
#[derive(Debug, Clone, Copy)]
pub enum RowFilter {
    /// The row carries the component.
    With(ComponentId),
    /// The row lacks the component.
    Without(ComponentId),
    /// The row carries the component, with the fingerprint that the component
    /// has on the row of the one sibling query that reads it.
    Bound(ComponentId),
    /// The row's entity is listed by the maintained inverse on the row of the
    /// one sibling query that reads it.
    Member(ComponentId),
    /// The row carries the component, whatever its value is: a change of the
    /// value is no change of the row.
    Anchor(ComponentId),
    /// The row is observed with the component or without it: both its value and
    /// its absence are inputs.
    Maybe(ComponentId),
}

/// Additional predicate applied to query rows without changing the row data:
/// the conditions a filter type stands for.
pub trait QueryFilter<C: Component>: Sized {
    /// The conditions, in order.
    spec fn conditions() -> Seq<RowFilter>;

    /// The conditions, in order.
    fn filters() -> (filters: Vec<RowFilter>)
        ensures
            filters@ == Self::conditions(),
    ;
}

impl<C: Component> QueryFilter<C> for () {
    open spec fn conditions() -> Seq<RowFilter> {
        Seq::empty()
    }

    fn filters() -> (filters: Vec<RowFilter>) {
        Vec::new()
    }
}

impl<C: Component, T: ComponentType<Universe = C>> QueryFilter<C> for With<T> {
    open spec fn conditions() -> Seq<RowFilter> {
        seq![RowFilter::With(T::key())]
    }

    fn filters() -> (filters: Vec<RowFilter>) {
        let mut filters: Vec<RowFilter> = Vec::new();
        filters.push(RowFilter::With(T::component_type()));
        assert(filters@ =~= seq![RowFilter::With(T::key())]);
        filters
    }
}

impl<C: Component, T: ComponentType<Universe = C>> QueryFilter<C> for Without<T> {
    open spec fn conditions() -> Seq<RowFilter> {
        seq![RowFilter::Without(T::key())]
    }

    fn filters() -> (filters: Vec<RowFilter>) {
        let mut filters: Vec<RowFilter> = Vec::new();
        filters.push(RowFilter::Without(T::component_type()));
        assert(filters@ =~= seq![RowFilter::Without(T::key())]);
        filters
    }
}

impl<C: Component, T: ComponentType<Universe = C>> QueryFilter<C> for Where<Eq<T>> {
    open spec fn conditions() -> Seq<RowFilter> {
        seq![RowFilter::Bound(T::key())]
    }

    fn filters() -> (filters: Vec<RowFilter>) {
        let mut filters: Vec<RowFilter> = Vec::new();
        filters.push(RowFilter::Bound(T::component_type()));
        assert(filters@ =~= seq![RowFilter::Bound(T::key())]);
        filters
    }
}

impl<C: Component, T: ComponentType<Universe = C>> QueryFilter<C> for Where<In<T>> {
    open spec fn conditions() -> Seq<RowFilter> {
        seq![RowFilter::Member(T::key())]
    }

    fn filters() -> (filters: Vec<RowFilter>) {
        let mut filters: Vec<RowFilter> = Vec::new();
        filters.push(RowFilter::Member(T::component_type()));
        assert(filters@ =~= seq![RowFilter::Member(T::key())]);
        filters
    }
}

impl<C: Component, A: QueryFilter<C>, B: QueryFilter<C>> QueryFilter<C> for And<A, B> {
    open spec fn conditions() -> Seq<RowFilter> {
        A::conditions() + B::conditions()
    }

    fn filters() -> (filters: Vec<RowFilter>) {
        let mut filters = A::filters();
        let mut more = B::filters();
        filters.append(&mut more);
        filters
    }
}

impl RowFilter {
    /// Whether `entity` meets the condition, as far as its own row decides.
    pub open spec fn admits<C: RelationshipTarget>(
        self,
        world: WorldModel<C>,
        entity: Entity,
    ) -> bool {
        match self {
            RowFilter::With(kind) => world.has(kind, entity),
            RowFilter::Without(kind) => !world.has(kind, entity),
            RowFilter::Bound(kind) => world.has(kind, entity),
            RowFilter::Member(_) => true,
            RowFilter::Anchor(kind) => world.has(kind, entity),
            RowFilter::Maybe(_) => true,
        }
    }

    /// The component the condition requires on the row.
    pub open spec fn required(self) -> Option<ComponentId> {
        match self {
            RowFilter::With(kind) => Some(kind),
            RowFilter::Bound(kind) => Some(kind),
            RowFilter::Anchor(kind) => Some(kind),
            _ => None,
        }
    }

    /// The component whose state on the row the condition observes.
    pub open spec fn observes(self) -> Option<ComponentId> {
        match self {
            RowFilter::With(kind) => Some(kind),
            RowFilter::Bound(kind) => Some(kind),
            RowFilter::Maybe(kind) => Some(kind),
            _ => None,
        }
    }

    /// Whether `entity` meets the condition, as far as its own row decides.
    pub fn matches<C: RelationshipTarget>(&self, world: &World<C>, entity: Entity) -> (admitted: bool)
        ensures
            admitted == self.admits(world@, entity),
    {
        match *self {
            RowFilter::With(kind) => world.has(kind, entity),
            RowFilter::Without(kind) => !world.has(kind, entity),
            RowFilter::Bound(kind) => world.has(kind, entity),
            RowFilter::Member(_) => true,
            RowFilter::Anchor(kind) => world.has(kind, entity),
            RowFilter::Maybe(_) => true,
        }
    }

    /// The component the condition requires on the row.
    pub fn required_component(&self) -> (kind: Option<ComponentId>)
        ensures
            kind == self.required(),
    {
        match *self {
            RowFilter::With(kind) => Some(kind),
            RowFilter::Bound(kind) => Some(kind),
            RowFilter::Anchor(kind) => Some(kind),
            _ => None,
        }
    }

    /// The component whose state on the row the condition observes.
    pub fn observed_component(&self) -> (kind: Option<ComponentId>)
        ensures
            kind == self.observes(),
    {
        match *self {
            RowFilter::With(kind) => Some(kind),
            RowFilter::Bound(kind) => Some(kind),
            RowFilter::Maybe(kind) => Some(kind),
            _ => None,
        }
    }
}

/// A query over rows: the components its rows carry and the conditions on them.
#[derive(Debug)]
pub struct RowQuery {
    pub parts: Vec<QueryPart>,
    pub filters: Vec<RowFilter>,
}

/// Mathematical content of a [`RowQuery`].
#[verifier::ext_equal]
pub struct QueryModel {
    pub parts: Seq<QueryPart>,
    pub filters: Seq<RowFilter>,
}

impl View for RowQuery {
    type V = QueryModel;

    open spec fn view(&self) -> QueryModel {
        QueryModel { parts: self.parts@, filters: self.filters@ }
    }
}

impl QueryModel {
    /// The components a row must carry.
    pub open spec fn needs(self) -> Seq<ComponentId> {
        part_components(self.parts) + filter_components(self.filters)
    }

    /// Whether `entity` is a row of the query.
    pub open spec fn admits<C: RelationshipTarget>(
        self,
        world: WorldModel<C>,
        entity: Entity,
    ) -> bool {
        &&& forall|i: int|
            0 <= i < self.parts.len() ==> world.has((#[trigger] self.parts[i]).component, entity)
        &&& forall|i: int|
            0 <= i < self.filters.len() ==> (#[trigger] self.filters[i]).admits(world, entity)
    }

    /// The ids of the query's rows. A query that requires no component ranges
    /// over the ids allocated so far.
    pub open spec fn row_ids<C: RelationshipTarget>(self, world: WorldModel<C>) -> Set<u64> {
        Set::new(
            |id: u64|
                self.admits(world, Entity::of(id)) && (self.needs().len() > 0 || id
                    < world.next_entity),
        )
    }

    /// The query's rows, ascending.
    pub open spec fn rows<C: RelationshipTarget>(self, world: WorldModel<C>) -> Seq<Entity> {
        as_entities(sorted_keys(self.row_ids(world)))
    }

    /// The candidates that are rows of the query, in the given order.
    pub open spec fn kept<C: RelationshipTarget>(
        self,
        world: WorldModel<C>,
        candidates: Seq<Entity>,
    ) -> Seq<Entity>
        decreases candidates.len(),
    {
        if candidates.len() == 0 {
            Seq::empty()
        } else {
            let rest = self.kept(world, candidates.drop_last());
            if self.admits(world, candidates.last()) {
                rest.push(candidates.last())
            } else {
                rest
            }
        }
    }

    /// The tracked components a row depends on: its data, then its conditions.
    pub open spec fn tracked_inputs<C: RelationshipTarget>(self) -> Seq<ComponentId> {
        tracked_of::<C>(part_components(self.parts)) + tracked_of::<C>(
            observed_components(self.filters),
        )
    }

    /// The tracked component revisions that invalidate a row when they change.
    pub open spec fn deps<C: RelationshipTarget>(
        self,
        world: WorldModel<C>,
        entity: Entity,
    ) -> Seq<Dep> {
        row_deps(world, self.tracked_inputs::<C>(), entity)
    }

    /// The component rows a row's invocation touches.
    pub open spec fn access(self, entity: Entity) -> Seq<Access> {
        part_access(self.parts, Some(entity)) + filter_access(self.filters, Some(entity))
    }

    /// The whole stores the query touches.
    pub open spec fn access_all(self) -> Seq<Access> {
        part_access(self.parts, None) + filter_access(self.filters, None)
    }

    /// The components bound to a sibling query, in order.
    pub open spec fn bound_kinds(self) -> Seq<ComponentId> {
        bound_of(self.filters)
    }

    /// The inverses whose members the rows are drawn from, in order.
    pub open spec fn member_kinds(self) -> Seq<ComponentId> {
        members_of(self.filters)
    }

    /// Whether the query's row data reads `kind`.
    pub open spec fn reads(self, kind: ComponentId) -> bool {
        exists|i: int|
            0 <= i < self.parts.len() && (#[trigger] self.parts[i]).component == kind
                && self.parts[i].mode == PartMode::Read
    }

    /// The watermarks of every store that could hold a partner row.
    pub open spec fn absence_deps<C: RelationshipTarget>(self, world: WorldModel<C>) -> Seq<Dep> {
        store_deps(world, part_components(self.parts) + self.bound_kinds())
    }
}

/// The components of the row data.
pub open spec fn part_components(parts: Seq<QueryPart>) -> Seq<ComponentId> {
    parts.map_values(|part: QueryPart| part.component)
}

/// The components that conditions require.
pub open spec fn filter_components(filters: Seq<RowFilter>) -> Seq<ComponentId>
    decreases filters.len(),
{
    if filters.len() == 0 {
        Seq::empty()
    } else {
        let rest = filter_components(filters.drop_last());
        match filters.last().required() {
            Some(kind) => rest.push(kind),
            None => rest,
        }
    }
}

/// The components whose state on a row conditions observe.
pub open spec fn observed_components(filters: Seq<RowFilter>) -> Seq<ComponentId>
    decreases filters.len(),
{
    if filters.len() == 0 {
        Seq::empty()
    } else {
        let rest = observed_components(filters.drop_last());
        match filters.last().observes() {
            Some(kind) => rest.push(kind),
            None => rest,
        }
    }
}

/// The components bound to a sibling query.
pub open spec fn bound_of(filters: Seq<RowFilter>) -> Seq<ComponentId>
    decreases filters.len(),
{
    if filters.len() == 0 {
        Seq::empty()
    } else {
        let rest = bound_of(filters.drop_last());
        match filters.last() {
            RowFilter::Bound(kind) => rest.push(kind),
            _ => rest,
        }
    }
}

/// The inverses that rows are drawn from.
pub open spec fn members_of(filters: Seq<RowFilter>) -> Seq<ComponentId>
    decreases filters.len(),
{
    if filters.len() == 0 {
        Seq::empty()
    } else {
        let rest = members_of(filters.drop_last());
        match filters.last() {
            RowFilter::Member(kind) => rest.push(kind),
            _ => rest,
        }
    }
}

/// The component types of `kinds` that take part in invalidation.
pub open spec fn tracked_of<C: RelationshipTarget>(kinds: Seq<ComponentId>) -> Seq<ComponentId>
    decreases kinds.len(),
{
    if kinds.len() == 0 {
        Seq::empty()
    } else {
        let rest = tracked_of::<C>(kinds.drop_last());
        if C::tracks(kinds.last()) {
            rest.push(kinds.last())
        } else {
            rest
        }
    }
}

/// What there is to observe of `kind` on `entity`: its revision, or that the
/// entity lacks it.
pub open spec fn observation<C: RelationshipTarget>(
    world: WorldModel<C>,
    kind: ComponentId,
    entity: Entity,
) -> Dep {
    match world.entry(kind, entity) {
        Some(entry) => Dep {
            component: kind,
            entity: Some(entity),
            revision: entry.revision,
            absent: false,
        },
        None => Dep { component: kind, entity: Some(entity), revision: 0, absent: true },
    }
}

/// What there is to observe of `kinds` on `entity`.
pub open spec fn row_deps<C: RelationshipTarget>(
    world: WorldModel<C>,
    kinds: Seq<ComponentId>,
    entity: Entity,
) -> Seq<Dep> {
    kinds.map_values(|kind: ComponentId| observation(world, kind, entity))
}

/// The watermarks of `kinds`.
pub open spec fn store_deps<C: RelationshipTarget>(
    world: WorldModel<C>,
    kinds: Seq<ComponentId>,
) -> Seq<Dep> {
    kinds.map_values(
        |kind: ComponentId|
            Dep {
                component: kind,
                entity: None::<Entity>,
                revision: world.column(kind).watermark,
                absent: false,
            },
    )
}

/// The access that row data needs.
pub open spec fn part_access(parts: Seq<QueryPart>, entity: Option<Entity>) -> Seq<Access> {
    parts.map_values(
        |part: QueryPart|
            Access {
                kind: if part.mode == PartMode::Write {
                    AccessKind::Write
                } else {
                    AccessKind::Read
                },
                component: part.component,
                entity,
            },
    )
}

/// The access that conditions need.
pub open spec fn filter_access(filters: Seq<RowFilter>, entity: Option<Entity>) -> Seq<Access>
    decreases filters.len(),
{
    if filters.len() == 0 {
        Seq::empty()
    } else {
        let rest = filter_access(filters.drop_last(), entity);
        match filters.last() {
            RowFilter::With(component) => rest.push(
                Access { kind: AccessKind::Read, component, entity },
            ),
            RowFilter::Without(component) => rest.push(
                Access { kind: AccessKind::Read, component, entity },
            ),
            RowFilter::Bound(component) => rest.push(
                Access { kind: AccessKind::Read, component, entity },
            ),
            RowFilter::Member(_) => rest,
            RowFilter::Anchor(component) => rest.push(
                Access { kind: AccessKind::Read, component, entity },
            ),
            RowFilter::Maybe(component) => rest.push(
                Access { kind: AccessKind::Read, component, entity },
            ),
        }
    }
}

/// The components that conditions require are those that one of them requires.
pub proof fn lemma_filter_components(filters: Seq<RowFilter>, kind: ComponentId)
    ensures
        filter_components(filters).contains(kind) <==> exists|i: int|
            0 <= i < filters.len() && (#[trigger] filters[i]).required() == Some(kind),
    decreases filters.len(),
{
    if filters.len() > 0 {
        let rest = filters.drop_last();
        lemma_filter_components(rest, kind);
        let all = filter_components(filters);
        let fewer = filter_components(rest);
        if all.contains(kind) {
            let j = choose|j: int| 0 <= j < all.len() && all[j] == kind;
            if j < fewer.len() {
                assert(fewer[j] == kind);
                let i = choose|i: int|
                    0 <= i < rest.len() && (#[trigger] rest[i]).required() == Some(kind);
                assert(filters[i].required() == Some(kind));
            } else {
                assert(filters[filters.len() - 1].required() == Some(kind));
            }
        }
        if exists|i: int| 0 <= i < filters.len() && (#[trigger] filters[i]).required() == Some(kind) {
            let i = choose|i: int|
                0 <= i < filters.len() && (#[trigger] filters[i]).required() == Some(kind);
            if i < rest.len() {
                assert(rest[i].required() == Some(kind));
                let j = choose|j: int| 0 <= j < fewer.len() && fewer[j] == kind;
                assert(all[j] == kind);
            } else {
                assert(all[all.len() - 1] == kind);
            }
        }
    }
}

/// A row carries everything the query requires.
pub proof fn lemma_rows_carry_requirements<C: RelationshipTarget>(
    query: QueryModel,
    world: WorldModel<C>,
    entity: Entity,
)
    requires
        query.admits(world, entity),
    ensures
        forall|i: int|
            0 <= i < query.needs().len() ==> world.has(#[trigger] query.needs()[i], entity),
{
    let parts = part_components(query.parts);
    let required = filter_components(query.filters);
    assert forall|i: int| 0 <= i < query.needs().len() implies world.has(
        #[trigger] query.needs()[i],
        entity,
    ) by {
        if i < parts.len() {
            assert(query.needs()[i] == query.parts[i].component);
        } else {
            let kind = query.needs()[i];
            assert(required[i - parts.len()] == kind);
            lemma_filter_components(query.filters, kind);
            let j = choose|j: int|
                0 <= j < query.filters.len() && (#[trigger] query.filters[j]).required() == Some(
                    kind,
                );
            assert(query.filters[j].admits(world, entity));
        }
    }
}

/// Only tracked component types of the list are listed.
pub proof fn lemma_tracked_of<C: RelationshipTarget>(kinds: Seq<ComponentId>)
    ensures
        forall|i: int|
            0 <= i < tracked_of::<C>(kinds).len() ==> kinds.contains(
                #[trigger] tracked_of::<C>(kinds)[i],
            ) && C::tracks(tracked_of::<C>(kinds)[i]),
    decreases kinds.len(),
{
    if kinds.len() > 0 {
        let rest = kinds.drop_last();
        lemma_tracked_of::<C>(rest);
        let all = tracked_of::<C>(kinds);
        let fewer = tracked_of::<C>(rest);
        assert forall|i: int| 0 <= i < all.len() implies kinds.contains(#[trigger] all[i])
            && C::tracks(all[i]) by {
            if i < fewer.len() {
                assert(all[i] == fewer[i]);
                let j = choose|j: int| 0 <= j < rest.len() && rest[j] == fewer[i];
                assert(kinds[j] == all[i]);
            } else {
                assert(kinds[kinds.len() - 1] == all[i]);
            }
        }
    }
}

/// Candidates are kept exactly when they are rows; an ascending list stays
/// ascending.
pub proof fn lemma_kept<C: RelationshipTarget>(
    query: QueryModel,
    world: WorldModel<C>,
    candidates: Seq<Entity>,
)
    ensures
        forall|entity: Entity| #[trigger]
            query.kept(world, candidates).contains(entity) <==> (candidates.contains(entity)
                && query.admits(world, entity)),
        ascending(ids(candidates)) ==> ascending(ids(query.kept(world, candidates))),
    decreases candidates.len(),
{
    if candidates.len() > 0 {
        let rest = candidates.drop_last();
        let last = candidates.last();
        lemma_kept(query, world, rest);
        let fewer = query.kept(world, rest);
        let all = query.kept(world, candidates);
        assert forall|entity: Entity| #[trigger] all.contains(entity) <==> (candidates.contains(
            entity,
        ) && query.admits(world, entity)) by {
            assert(candidates.contains(entity) <==> (rest.contains(entity) || entity == last)) by {
                if rest.contains(entity) {
                    let j = choose|j: int| 0 <= j < rest.len() && rest[j] == entity;
                    assert(candidates[j] == entity);
                }
                if candidates.contains(entity) {
                    let j = choose|j: int| 0 <= j < candidates.len() && candidates[j] == entity;
                    if j < rest.len() {
                        assert(rest[j] == entity);
                    }
                }
                assert(candidates[candidates.len() - 1] == last);
            }
            if fewer.contains(entity) {
                let j = choose|j: int| 0 <= j < fewer.len() && fewer[j] == entity;
                assert(all[j] == entity);
            }
            if all.contains(entity) {
                let j = choose|j: int| 0 <= j < all.len() && all[j] == entity;
                if j < fewer.len() {
                    assert(fewer[j] == entity);
                    assert(fewer.contains(entity));
                }
            }
            if query.admits(world, last) {
                assert(all[fewer.len() as int] == last);
            }
        }
        if ascending(ids(candidates)) {
            assert forall|i: int, j: int| 0 <= i < j < ids(rest).len() implies ids(rest)[i]
                < ids(rest)[j] by {
                assert(ids(candidates)[i] < ids(candidates)[j]);
            }
            assert forall|i: int, j: int| 0 <= i < j < ids(all).len() implies ids(all)[i]
                < ids(all)[j] by {
                if j < fewer.len() {
                    assert(ids(fewer)[i] < ids(fewer)[j]);
                } else {
                    assert(all[j] == last);
                    assert(fewer.contains(fewer[i]));
                    assert(rest.contains(fewer[i]));
                    let n = choose|n: int| 0 <= n < rest.len() && rest[n] == fewer[i];
                    assert(ids(candidates)[n] < ids(candidates)[candidates.len() - 1]);
                }
            }
        }
    }
}

/// Keeping the rows of an ascending list that misses none of them gives exactly
/// the query's rows.
pub proof fn lemma_kept_superset_is_rows<C: RelationshipTarget>(
    query: QueryModel,
    world: WorldModel<C>,
    candidates: Seq<Entity>,
)
    requires
        ascending(ids(candidates)),
        forall|entity: Entity| #[trigger]
            query.row_ids(world).contains(entity.id()) ==> candidates.contains(entity),
        query.needs().len() == 0 ==> forall|i: int|
            0 <= i < candidates.len() ==> (#[trigger] candidates[i]).id() < world.next_entity,
    ensures
        query.kept(world, candidates) == query.rows(world),
{
    lemma_kept(query, world, candidates);
    let kept = query.kept(world, candidates);
    let raw = ids(kept);
    let wanted = query.row_ids(world);
    assert(raw.to_set() =~= wanted) by {
        assert forall|id: u64| raw.to_set().contains(id) <==> wanted.contains(id) by {
            let entity: Entity = Entity::of(id);
            if raw.contains(id) {
                let j = choose|j: int| 0 <= j < raw.len() && raw[j] == id;
                crate::entity::lemma_entity_is_its_id(kept[j], entity);
                assert(kept.contains(entity));
                assert(candidates.contains(entity));
                let n = choose|n: int| 0 <= n < candidates.len() && candidates[n] == entity;
                assert(candidates[n].id() == id);
            }
            if wanted.contains(id) {
                assert(entity.id() == id);
                assert(wanted.contains(entity.id()));
                assert(candidates.contains(entity));
                assert(kept.contains(entity));
                let j = choose|j: int| 0 <= j < kept.len() && kept[j] == entity;
                assert(raw[j] == id);
            }
        }
    }
    lemma_sorted_keys(raw, wanted);
    assert(as_entities(raw) =~= kept) by {
        assert forall|i: int| 0 <= i < kept.len() implies as_entities(raw)[i] == kept[i] by {
            crate::entity::lemma_entity_is_its_id(as_entities(raw)[i], kept[i]);
        }
    }
}

/// The rows of a query are its admitted entities, ascending.
pub proof fn lemma_rows_list<C: RelationshipTarget>(query: QueryModel, world: WorldModel<C>)
    ensures
        ascending(ids(query.rows(world))),
        forall|entity: Entity| #[trigger]
            query.rows(world).contains(entity) <==> query.row_ids(world).contains(entity.id()),
{
    let raw = sorted_keys(query.row_ids(world));
    crate::model::lemma_sorted_keys_list(query.row_ids(world));
    let rows = query.rows(world);
    assert(ids(rows) =~= raw);
    assert forall|entity: Entity| #[trigger] rows.contains(entity) <==> query.row_ids(
        world,
    ).contains(entity.id()) by {
        if rows.contains(entity) {
            let j = choose|j: int| 0 <= j < rows.len() && rows[j] == entity;
            assert(raw[j] == entity.id());
            assert(raw.to_set().contains(entity.id()));
        }
        if query.row_ids(world).contains(entity.id()) {
            assert(raw.to_set().contains(entity.id()));
            let j = choose|j: int| 0 <= j < raw.len() && raw[j] == entity.id();
            crate::entity::lemma_entity_is_its_id(rows[j], entity);
        }
    }
}

} // verus!
