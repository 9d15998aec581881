//! What an external query reads: its row data as types.

use crate::component::{Component, ComponentId, ComponentType, RelationshipTarget};
use crate::entity::Entity;
use crate::query::{Cow, PartMode, QueryModel, QueryPart, RowFilter, RowQuery};
use vstd::prelude::*;

verus! {

/// State of one query row: the entity it stands for.
pub trait EntityQueryState {
    /// The entity the row stands for.
    spec fn row(&self) -> Entity;

    /// The entity the row stands for.
    fn entity(&self) -> (entity: Entity)
        ensures
            entity == self.row(),
    ;
}

impl EntityQueryState for Entity {
    open spec fn row(&self) -> Entity {
        *self
    }

    fn entity(&self) -> (entity: Entity) {
        *self
    }
}

/// Query tuple parts that an external snapshot result can read.
pub trait ExternalReadQueryPart<C: Component> {
    /// The component type the part reads.
    spec fn read_kind() -> ComponentId;

    /// The component type the part reads.
    fn part_kind() -> (kind: ComponentId)
        ensures
            kind == Self::read_kind(),
    ;
}

impl<'a, C: Component, T: ComponentType<Universe = C>> ExternalReadQueryPart<C> for &'a T {
    open spec fn read_kind() -> ComponentId {
        T::key()
    }

    fn part_kind() -> (kind: ComponentId) {
        T::component_type()
    }
}

/// Shared access to one component.
pub open spec fn reads(kind: ComponentId) -> QueryPart {
    QueryPart { component: kind, mode: PartMode::Read }
}

fn read_part(kind: ComponentId) -> (part: QueryPart)
    ensures
        part == reads(kind),
{
    QueryPart { component: kind, mode: PartMode::Read }
}

/// Query params that an external snapshot result can read: an entity, one
/// component, or an entity with one to eight components.
pub trait ExternalReadQueryParam<C: Component> {
    /// The row data of the query.
    spec fn row_parts() -> Seq<QueryPart>;

    /// The row data of the query.
    fn query_parts() -> (parts: Vec<QueryPart>)
        ensures
            parts@ == Self::row_parts(),
    ;
}

impl<C: Component> ExternalReadQueryParam<C> for Entity {
    open spec fn row_parts() -> Seq<QueryPart> {
        Seq::empty()
    }

    fn query_parts() -> (parts: Vec<QueryPart>) {
        Vec::new()
    }
}

impl<'a, C: Component, T: ComponentType<Universe = C>> ExternalReadQueryParam<C> for &'a T {
    open spec fn row_parts() -> Seq<QueryPart> {
        seq![reads(T::key())]
    }

    fn query_parts() -> (parts: Vec<QueryPart>) {
        let mut parts: Vec<QueryPart> = Vec::new();
        parts.push(read_part(T::component_type()));
        parts
    }
}

impl<C: Component, P0: ExternalReadQueryPart<C>> ExternalReadQueryParam<C> for (Entity, P0) {
    open spec fn row_parts() -> Seq<QueryPart> {
        seq![reads(P0::read_kind())]
    }

    fn query_parts() -> (parts: Vec<QueryPart>) {
        let mut parts: Vec<QueryPart> = Vec::new();
        parts.push(read_part(P0::part_kind()));
        parts
    }
}

impl<C: Component, P0: ExternalReadQueryPart<C>, P1: ExternalReadQueryPart<C>> ExternalReadQueryParam<C> for (Entity, P0, P1) {
    open spec fn row_parts() -> Seq<QueryPart> {
        seq![reads(P0::read_kind()), reads(P1::read_kind())]
    }

    fn query_parts() -> (parts: Vec<QueryPart>) {
        let mut parts: Vec<QueryPart> = Vec::new();
        parts.push(read_part(P0::part_kind()));
        parts.push(read_part(P1::part_kind()));
        parts
    }
}

impl<C: Component, P0: ExternalReadQueryPart<C>, P1: ExternalReadQueryPart<C>, P2: ExternalReadQueryPart<C>> ExternalReadQueryParam<C> for (Entity, P0, P1, P2) {
    open spec fn row_parts() -> Seq<QueryPart> {
        seq![reads(P0::read_kind()), reads(P1::read_kind()), reads(P2::read_kind())]
    }

    fn query_parts() -> (parts: Vec<QueryPart>) {
        let mut parts: Vec<QueryPart> = Vec::new();
        parts.push(read_part(P0::part_kind()));
        parts.push(read_part(P1::part_kind()));
        parts.push(read_part(P2::part_kind()));
        parts
    }
}

impl<C: Component, P0: ExternalReadQueryPart<C>, P1: ExternalReadQueryPart<C>, P2: ExternalReadQueryPart<C>, P3: ExternalReadQueryPart<C>> ExternalReadQueryParam<C> for (Entity, P0, P1, P2, P3) {
    open spec fn row_parts() -> Seq<QueryPart> {
        seq![reads(P0::read_kind()), reads(P1::read_kind()), reads(P2::read_kind()), reads(P3::read_kind())]
    }

    fn query_parts() -> (parts: Vec<QueryPart>) {
        let mut parts: Vec<QueryPart> = Vec::new();
        parts.push(read_part(P0::part_kind()));
        parts.push(read_part(P1::part_kind()));
        parts.push(read_part(P2::part_kind()));
        parts.push(read_part(P3::part_kind()));
        parts
    }
}

impl<C: Component, P0: ExternalReadQueryPart<C>, P1: ExternalReadQueryPart<C>, P2: ExternalReadQueryPart<C>, P3: ExternalReadQueryPart<C>, P4: ExternalReadQueryPart<C>> ExternalReadQueryParam<C> for (Entity, P0, P1, P2, P3, P4) {
    open spec fn row_parts() -> Seq<QueryPart> {
        seq![reads(P0::read_kind()), reads(P1::read_kind()), reads(P2::read_kind()), reads(P3::read_kind()), reads(P4::read_kind())]
    }

    fn query_parts() -> (parts: Vec<QueryPart>) {
        let mut parts: Vec<QueryPart> = Vec::new();
        parts.push(read_part(P0::part_kind()));
        parts.push(read_part(P1::part_kind()));
        parts.push(read_part(P2::part_kind()));
        parts.push(read_part(P3::part_kind()));
        parts.push(read_part(P4::part_kind()));
        parts
    }
}

impl<C: Component, P0: ExternalReadQueryPart<C>, P1: ExternalReadQueryPart<C>, P2: ExternalReadQueryPart<C>, P3: ExternalReadQueryPart<C>, P4: ExternalReadQueryPart<C>, P5: ExternalReadQueryPart<C>> ExternalReadQueryParam<C> for (Entity, P0, P1, P2, P3, P4, P5) {
    open spec fn row_parts() -> Seq<QueryPart> {
        seq![reads(P0::read_kind()), reads(P1::read_kind()), reads(P2::read_kind()), reads(P3::read_kind()), reads(P4::read_kind()), reads(P5::read_kind())]
    }

    fn query_parts() -> (parts: Vec<QueryPart>) {
        let mut parts: Vec<QueryPart> = Vec::new();
        parts.push(read_part(P0::part_kind()));
        parts.push(read_part(P1::part_kind()));
        parts.push(read_part(P2::part_kind()));
        parts.push(read_part(P3::part_kind()));
        parts.push(read_part(P4::part_kind()));
        parts.push(read_part(P5::part_kind()));
        parts
    }
}

impl<C: Component, P0: ExternalReadQueryPart<C>, P1: ExternalReadQueryPart<C>, P2: ExternalReadQueryPart<C>, P3: ExternalReadQueryPart<C>, P4: ExternalReadQueryPart<C>, P5: ExternalReadQueryPart<C>, P6: ExternalReadQueryPart<C>> ExternalReadQueryParam<C> for (Entity, P0, P1, P2, P3, P4, P5, P6) {
    open spec fn row_parts() -> Seq<QueryPart> {
        seq![reads(P0::read_kind()), reads(P1::read_kind()), reads(P2::read_kind()), reads(P3::read_kind()), reads(P4::read_kind()), reads(P5::read_kind()), reads(P6::read_kind())]
    }

    fn query_parts() -> (parts: Vec<QueryPart>) {
        let mut parts: Vec<QueryPart> = Vec::new();
        parts.push(read_part(P0::part_kind()));
        parts.push(read_part(P1::part_kind()));
        parts.push(read_part(P2::part_kind()));
        parts.push(read_part(P3::part_kind()));
        parts.push(read_part(P4::part_kind()));
        parts.push(read_part(P5::part_kind()));
        parts.push(read_part(P6::part_kind()));
        parts
    }
}

impl<C: Component, P0: ExternalReadQueryPart<C>, P1: ExternalReadQueryPart<C>, P2: ExternalReadQueryPart<C>, P3: ExternalReadQueryPart<C>, P4: ExternalReadQueryPart<C>, P5: ExternalReadQueryPart<C>, P6: ExternalReadQueryPart<C>, P7: ExternalReadQueryPart<C>> ExternalReadQueryParam<C> for (Entity, P0, P1, P2, P3, P4, P5, P6, P7) {
    open spec fn row_parts() -> Seq<QueryPart> {
        seq![reads(P0::read_kind()), reads(P1::read_kind()), reads(P2::read_kind()), reads(P3::read_kind()), reads(P4::read_kind()), reads(P5::read_kind()), reads(P6::read_kind()), reads(P7::read_kind())]
    }

    fn query_parts() -> (parts: Vec<QueryPart>) {
        let mut parts: Vec<QueryPart> = Vec::new();
        parts.push(read_part(P0::part_kind()));
        parts.push(read_part(P1::part_kind()));
        parts.push(read_part(P2::part_kind()));
        parts.push(read_part(P3::part_kind()));
        parts.push(read_part(P4::part_kind()));
        parts.push(read_part(P5::part_kind()));
        parts.push(read_part(P6::part_kind()));
        parts.push(read_part(P7::part_kind()));
        parts
    }
}

/// The query over the rows of `Q`, without further conditions.
pub fn query_of<C: Component, Q: ExternalReadQueryParam<C>>() -> (query: RowQuery)
    ensures
        query@ == (QueryModel { parts: Q::row_parts(), filters: Seq::<RowFilter>::empty() }),
{
    let query = RowQuery::new(Q::query_parts(), Vec::new());
    assert(query@.filters =~= Seq::<RowFilter>::empty());
    query
}

/// Query-shaped clone-on-write projection over the live world: the component
/// whose value an update replaces row by row.
pub trait CowQueryParam<C: RelationshipTarget> {
    /// The component type the projection updates.
    spec fn updated() -> ComponentId;

    /// The component type the projection updates.
    fn updated_kind() -> (kind: ComponentId)
        ensures
            kind == Self::updated(),
    ;
}

impl<C: RelationshipTarget, T: ComponentType<Universe = C>> CowQueryParam<C> for (Cow<T>,) {
    open spec fn updated() -> ComponentId {
        T::key()
    }

    fn updated_kind() -> (kind: ComponentId) {
        T::component_type()
    }
}

impl<C: RelationshipTarget, T: ComponentType<Universe = C>> CowQueryParam<C> for (Entity, Cow<T>) {
    open spec fn updated() -> ComponentId {
        T::key()
    }

    fn updated_kind() -> (kind: ComponentId) {
        T::component_type()
    }
}

/// The query over the rows that carry `kind`, reading it.
pub open spec fn carriers(kind: ComponentId) -> QueryModel {
    QueryModel { parts: seq![reads(kind)], filters: Seq::empty() }
}

/// The query over the rows that carry `kind`, reading it.
pub fn carriers_of(kind: ComponentId) -> (query: RowQuery)
    ensures
        query@ == carriers(kind),
{
    let mut parts: Vec<QueryPart> = Vec::new();
    parts.push(read_part(kind));
    let query = RowQuery::new(parts, Vec::new());
    assert(query@ =~= carriers(kind));
    query
}

} // verus!
