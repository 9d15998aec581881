//! Entity identity.

use std::marker::PhantomData;
use vstd::prelude::*;

verus! {

/// Marker for an entity handle with no shape claim: plain identity.
#[derive(Debug, Clone, Copy, PartialEq, Eq, PartialOrd, Ord, Hash)]
pub struct Untyped;

/// Copyable identity for a row of components.
///
/// An `Entity` is only an id: it grants neither ownership nor permission to
/// destroy. The type parameter is a facet: `Entity<H>` claims that the entity
/// conforms at least to shape `H`. Bare `Entity` is the untyped handle.
#[derive(Debug, PartialOrd, Ord, Hash)]
pub struct Entity<H = Untyped>(pub u64, pub PhantomData<H>);

impl<H> Entity<H> {
    /// The numeric id behind the handle.
    pub open spec fn id(self) -> u64 {
        self.0
    }

    /// The handle with the given numeric id.
    pub open spec fn of(raw: u64) -> Self {
        Entity(raw, PhantomData)
    }

    /// Builds the handle for a numeric id.
    pub fn from_raw(raw: u64) -> (entity: Self)
        ensures
            entity == Self::of(raw),
            entity.id() == raw,
    {
        Entity(raw, PhantomData)
    }

    /// Returns the underlying numeric id for debugging and display.
    pub fn raw(self) -> (raw: u64)
        ensures
            raw == self.id(),
    {
        self.0
    }

    /// Drops the facet claim, yielding the plain identity handle.
    pub fn untyped(self) -> (entity: Entity)
        ensures
            entity == Entity::<Untyped>::of(self.id()),
            entity.id() == self.id(),
    {
        Entity(self.0, PhantomData)
    }

    /// Reinterprets the handle under a different facet claim.
    pub fn retype<H2>(self) -> (entity: Entity<H2>)
        ensures
            entity == Entity::<H2>::of(self.id()),
            entity.id() == self.id(),
    {
        Entity(self.0, PhantomData)
    }

    /// Whether two handles name the same entity, whatever their facets claim.
    pub fn same<H2>(self, other: Entity<H2>) -> (same: bool)
        ensures
            same == (self.id() == other.id()),
    {
        self.0 == other.0
    }
}

impl<H> Clone for Entity<H> {
    fn clone(&self) -> (copy: Self)
        ensures
            copy == *self,
    {
        *self
    }
}

impl<H> Copy for Entity<H> {

}

impl<H> PartialEq for Entity<H> {
    fn eq(&self, other: &Self) -> (same: bool) {
        self.0 == other.0
    }
}

impl<H> vstd::std_specs::cmp::PartialEqSpecImpl for Entity<H> {
    open spec fn obeys_eq_spec() -> bool {
        true
    }

    open spec fn eq_spec(&self, other: &Self) -> bool {
        self.id() == other.id()
    }
}

impl<H> Eq for Entity<H> {

}

/// A handle is its id: two handles of one facet with equal ids are equal.
pub broadcast proof fn lemma_entity_is_its_id<H>(a: Entity<H>, b: Entity<H>)
    requires
        #[trigger] a.id() == #[trigger] b.id(),
    ensures
        a == b,
{
}

/// Dropping a facet claim and making another never changes which entity is named.
pub proof fn lemma_retype_keeps_identity<H, H2>(entity: Entity<H>)
    ensures
        Entity::<H>::of(Entity::<H2>::of(entity.id()).id()) == entity,
{
}

} // verus!
