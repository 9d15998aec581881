//! Filters of database queries, with values bound at query time.

use crate::component::{ComparableComponent, Component, ComponentId, ComponentType};
use crate::entity::Entity;
use crate::pipeline::tables::{Tables, TablesModel};
use crate::query::{And, Dep, Gte, Not, Or, With, Without};
use vstd::prelude::*;

verus! {

/// The values bound to a query, by component type.
pub struct Bindings<C> {
    values: Vec<C>,
}

/// What bindings are.
pub type BindingMap<C> = Map<ComponentId, <C as Component>::Model>;

/// Values by their component types, later ones over earlier ones.
pub open spec fn bound_by<C: Component>(values: Seq<C>) -> BindingMap<C>
    decreases values.len(),
{
    if values.len() == 0 {
        Map::empty()
    } else {
        bound_by(values.drop_last()).insert(
            C::kind(values.last().model()),
            values.last().model(),
        )
    }
}

impl<C: Component> View for Bindings<C> {
    type V = BindingMap<C>;

    closed spec fn view(&self) -> BindingMap<C> {
        bound_by(self.values@)
    }
}

impl<C: Component> Bindings<C> {
    /// Nothing bound.
    pub fn new() -> (bindings: Self)
        ensures
            bindings@ == BindingMap::<C>::empty(),
    {
        Bindings { values: Vec::new() }
    }

    /// Binds a value, in place of an earlier one of its type.
    pub fn insert(&mut self, value: C)
        ensures
            final(self)@ == old(self)@.insert(C::kind(value.model()), value.model()),
    {
        self.values.push(value);
        assert(self.values@.drop_last() =~= old(self).values@);
    }

    /// The value bound for a component type.
    pub fn get(&self, kind: ComponentId) -> (value: Option<&C>)
        ensures
            match value {
                Some(value) => self@.contains_key(kind) && self@[kind] == value.model(),
                None => !self@.contains_key(kind),
            },
    {
        let mut i: usize = self.values.len();
        assert(self.values@.take(self.values@.len() as int) =~= self.values@);
        while i > 0
            invariant
                i <= self.values@.len(),
                self@.contains_key(kind) == bound_by(self.values@.take(i as int)).contains_key(
                    kind,
                ),
                self@.contains_key(kind) ==> self@[kind] == bound_by(
                    self.values@.take(i as int),
                )[kind],
            decreases i,
        {
            i = i - 1;
            assert(self.values@.take(i + 1).drop_last() =~= self.values@.take(i as int));
            if self.values[i].component_id() == kind {
                return Some(&self.values[i]);
            }
        }
        None
    }
}

/// What a row that has the component observes of it: its revision, if it is
/// tracked.
pub open spec fn dep_if_present<C: Component>(
    tables: TablesModel<C>,
    kind: ComponentId,
    entity: Entity,
) -> Seq<Dep> {
    match tables.entry(kind, entity) {
        Some(entry) if C::tracks(kind) => seq![
            Dep {
                component: kind,
                entity: Some(entity),
                revision: entry.revision,
                absent: false,
            },
        ],
        _ => Seq::empty(),
    }
}

fn component_dep_if_present<C: Component>(
    tables: &Tables<C>,
    kind: ComponentId,
    entity: Entity,
) -> (deps: Vec<Dep>)
    ensures
        deps@ == dep_if_present(tables@, kind, entity),
{
    let mut deps: Vec<Dep> = Vec::new();
    if C::is_tracked(kind) {
        if let Some(revision) = tables.revision(kind, entity) {
            deps.push(
                Dep { component: kind, entity: Some(entity), revision, absent: false },
            );
        }
    }
    assert(deps@ =~= dep_if_present(tables@, kind, entity));
    deps
}

/// A filter on rows. A value that is needed and not bound is reported by its
/// component type.
pub trait FilterExpr<C: ComparableComponent>: Sized {
    /// Whether a row passes.
    spec fn verdict(tables: TablesModel<C>, bindings: BindingMap<C>, entity: Entity) -> Result<
        bool,
        ComponentId,
    >;

    /// What the filter observes of a row.
    spec fn observes(tables: TablesModel<C>, entity: Entity) -> Seq<Dep>;

    /// Whether a row passes.
    fn matches(entity: Entity, tables: &Tables<C>, bindings: &Bindings<C>) -> (passes: Result<
        bool,
        ComponentId,
    >)
        ensures
            passes == Self::verdict(tables@, bindings@, entity),
    ;

    /// What the filter observes of a row.
    fn deps(entity: Entity, tables: &Tables<C>) -> (deps: Vec<Dep>)
        ensures
            deps@ == Self::observes(tables@, entity),
    ;
}

impl<C: ComparableComponent, T: ComponentType<Universe = C>> FilterExpr<C> for crate::query::Eq<T> {
    open spec fn verdict(tables: TablesModel<C>, bindings: BindingMap<C>, entity: Entity) -> Result<
        bool,
        ComponentId,
    > {
        match tables.entry(T::key(), entity) {
            None => Ok(false),
            Some(entry) => if bindings.contains_key(T::key()) {
                Ok(C::equal(entry.value, bindings[T::key()]))
            } else {
                Err(T::key())
            },
        }
    }

    open spec fn observes(tables: TablesModel<C>, entity: Entity) -> Seq<Dep> {
        dep_if_present(tables, T::key(), entity)
    }

    fn matches(entity: Entity, tables: &Tables<C>, bindings: &Bindings<C>) -> (passes: Result<
        bool,
        ComponentId,
    >) {
        let kind: ComponentId = T::component_type();
        match tables.get(kind, entity) {
            None => Ok(false),
            Some(value) => match bindings.get(kind) {
                Some(bound) => Ok(value.equals(bound)),
                None => Err(kind),
            },
        }
    }

    fn deps(entity: Entity, tables: &Tables<C>) -> (deps: Vec<Dep>) {
        component_dep_if_present(tables, T::component_type(), entity)
    }
}

impl<C: ComparableComponent, T: ComponentType<Universe = C>> FilterExpr<C> for Gte<T> {
    open spec fn verdict(tables: TablesModel<C>, bindings: BindingMap<C>, entity: Entity) -> Result<
        bool,
        ComponentId,
    > {
        match tables.entry(T::key(), entity) {
            None => Ok(false),
            Some(entry) => if bindings.contains_key(T::key()) {
                Ok(C::at_least(entry.value, bindings[T::key()]))
            } else {
                Err(T::key())
            },
        }
    }

    open spec fn observes(tables: TablesModel<C>, entity: Entity) -> Seq<Dep> {
        dep_if_present(tables, T::key(), entity)
    }

    fn matches(entity: Entity, tables: &Tables<C>, bindings: &Bindings<C>) -> (passes: Result<
        bool,
        ComponentId,
    >) {
        let kind: ComponentId = T::component_type();
        match tables.get(kind, entity) {
            None => Ok(false),
            Some(value) => match bindings.get(kind) {
                Some(bound) => Ok(value.is_at_least(bound)),
                None => Err(kind),
            },
        }
    }

    fn deps(entity: Entity, tables: &Tables<C>) -> (deps: Vec<Dep>) {
        component_dep_if_present(tables, T::component_type(), entity)
    }
}

impl<C: ComparableComponent, T: ComponentType<Universe = C>> FilterExpr<C> for With<T> {
    open spec fn verdict(tables: TablesModel<C>, bindings: BindingMap<C>, entity: Entity) -> Result<
        bool,
        ComponentId,
    > {
        Ok(tables.has(T::key(), entity))
    }

    open spec fn observes(tables: TablesModel<C>, entity: Entity) -> Seq<Dep> {
        dep_if_present(tables, T::key(), entity)
    }

    fn matches(entity: Entity, tables: &Tables<C>, bindings: &Bindings<C>) -> (passes: Result<
        bool,
        ComponentId,
    >) {
        Ok(tables.has(T::component_type(), entity))
    }

    fn deps(entity: Entity, tables: &Tables<C>) -> (deps: Vec<Dep>) {
        component_dep_if_present(tables, T::component_type(), entity)
    }
}

impl<C: ComparableComponent, T: ComponentType<Universe = C>> FilterExpr<C> for Without<T> {
    open spec fn verdict(tables: TablesModel<C>, bindings: BindingMap<C>, entity: Entity) -> Result<
        bool,
        ComponentId,
    > {
        Ok(!tables.has(T::key(), entity))
    }

    open spec fn observes(tables: TablesModel<C>, entity: Entity) -> Seq<Dep> {
        Seq::empty()
    }

    fn matches(entity: Entity, tables: &Tables<C>, bindings: &Bindings<C>) -> (passes: Result<
        bool,
        ComponentId,
    >) {
        Ok(!tables.has(T::component_type(), entity))
    }

    fn deps(entity: Entity, tables: &Tables<C>) -> (deps: Vec<Dep>) {
        Vec::new()
    }
}

impl<C: ComparableComponent, A: FilterExpr<C>, B: FilterExpr<C>> FilterExpr<C> for And<A, B> {
    open spec fn verdict(tables: TablesModel<C>, bindings: BindingMap<C>, entity: Entity) -> Result<
        bool,
        ComponentId,
    > {
        match A::verdict(tables, bindings, entity) {
            Ok(true) => B::verdict(tables, bindings, entity),
            other => other,
        }
    }

    open spec fn observes(tables: TablesModel<C>, entity: Entity) -> Seq<Dep> {
        A::observes(tables, entity) + B::observes(tables, entity)
    }

    fn matches(entity: Entity, tables: &Tables<C>, bindings: &Bindings<C>) -> (passes: Result<
        bool,
        ComponentId,
    >) {
        match A::matches(entity, tables, bindings) {
            Ok(true) => B::matches(entity, tables, bindings),
            other => other,
        }
    }

    fn deps(entity: Entity, tables: &Tables<C>) -> (deps: Vec<Dep>) {
        let mut deps = A::deps(entity, tables);
        let mut more = B::deps(entity, tables);
        deps.append(&mut more);
        deps
    }
}

impl<C: ComparableComponent, A: FilterExpr<C>, B: FilterExpr<C>> FilterExpr<C> for Or<A, B> {
    open spec fn verdict(tables: TablesModel<C>, bindings: BindingMap<C>, entity: Entity) -> Result<
        bool,
        ComponentId,
    > {
        match A::verdict(tables, bindings, entity) {
            Ok(false) => B::verdict(tables, bindings, entity),
            other => other,
        }
    }

    open spec fn observes(tables: TablesModel<C>, entity: Entity) -> Seq<Dep> {
        A::observes(tables, entity) + B::observes(tables, entity)
    }

    fn matches(entity: Entity, tables: &Tables<C>, bindings: &Bindings<C>) -> (passes: Result<
        bool,
        ComponentId,
    >) {
        match A::matches(entity, tables, bindings) {
            Ok(false) => B::matches(entity, tables, bindings),
            other => other,
        }
    }

    fn deps(entity: Entity, tables: &Tables<C>) -> (deps: Vec<Dep>) {
        let mut deps = A::deps(entity, tables);
        let mut more = B::deps(entity, tables);
        deps.append(&mut more);
        deps
    }
}

impl<C: ComparableComponent, F: FilterExpr<C>> FilterExpr<C> for Not<F> {
    open spec fn verdict(tables: TablesModel<C>, bindings: BindingMap<C>, entity: Entity) -> Result<
        bool,
        ComponentId,
    > {
        match F::verdict(tables, bindings, entity) {
            Ok(passes) => Ok(!passes),
            Err(kind) => Err(kind),
        }
    }

    open spec fn observes(tables: TablesModel<C>, entity: Entity) -> Seq<Dep> {
        F::observes(tables, entity)
    }

    fn matches(entity: Entity, tables: &Tables<C>, bindings: &Bindings<C>) -> (passes: Result<
        bool,
        ComponentId,
    >) {
        match F::matches(entity, tables, bindings) {
            Ok(passes) => Ok(!passes),
            Err(kind) => Err(kind),
        }
    }

    fn deps(entity: Entity, tables: &Tables<C>) -> (deps: Vec<Dep>) {
        F::deps(entity, tables)
    }
}

} // verus!
