//! Component values, relationship edges and derived-fact anchors.

use crate::entity::Entity;
use std::collections::hash_map::DefaultHasher;
use std::hash::Hasher;
use std::marker::PhantomData;
use vstd::prelude::*;
use vstd::std_specs::hash::DefaultHasherAdditionalSpecFns;

verus! {

/// Identity of a component type: which store a value belongs to.
pub type ComponentId = u64;

/// Context passed to component lifecycle hooks.
#[derive(Debug, Clone, Copy)]
pub struct ComponentHookContext {
    entity: Entity,
}

impl ComponentHookContext {
    /// The entity the hook runs for.
    pub closed spec fn subject(self) -> Entity {
        self.entity
    }

    pub(crate) fn new(entity: Entity) -> (context: Self)
        ensures
            context.subject() == entity,
    {
        ComponentHookContext { entity }
    }

    /// Entity whose component lifecycle changed.
    pub fn entity(self) -> (entity: Entity)
        ensures
            entity == self.subject(),
    {
        self.entity
    }
}

/// Data that can be attached to an [`Entity`].
///
/// One implementing type is the universe of everything a world can store:
/// each value belongs to exactly one component type, named by a
/// [`ComponentId`]. What the engine knows of a component type it asks by id;
/// what it knows of a value it asks of the value.
pub trait Component: Sized {
    /// What a value means: the mathematical side of the universe.
    type Model;

    /// The meaning of this value.
    spec fn model(&self) -> Self::Model;

    /// The component type a value belongs to.
    spec fn kind(fact: Self::Model) -> ComponentId;

    /// A component type's name.
    spec fn label(kind: ComponentId) -> Seq<char>;

    /// Whether a component type takes part in revision-based invalidation.
    spec fn tracks(kind: ComponentId) -> bool;

    /// A value's fingerprint.
    spec fn stamp(fact: Self::Model) -> Option<u64>;

    /// The singleton key a component type registers its entity under.
    spec fn singleton(kind: ComponentId) -> Option<ComponentId>;

    /// The relationship edge a value carries.
    spec fn edge(fact: Self::Model) -> Option<RelationshipEdge>;

    /// The edges that point at the entity carrying a value, when the value is
    /// a maintained inverse.
    spec fn retracts(fact: Self::Model) -> Seq<RelationshipRetraction>;

    /// The anchors, when a value is a [`DerivedFrom`].
    spec fn anchored(fact: Self::Model) -> Option<Seq<DerivedAnchor>>;

    /// The component type of [`DerivedFrom`] markers.
    spec fn anchor_kind() -> ComponentId;

    /// The value that a [`DerivedFrom`] with these anchors is stored as.
    spec fn anchor_fact(anchors: Seq<DerivedAnchor>) -> Self::Model;

    /// The marker built from anchors carries them, and is fingerprinted over
    /// them.
    proof fn anchor_laws(anchors: Seq<DerivedAnchor>)
        ensures
            Self::kind(Self::anchor_fact(anchors)) == Self::anchor_kind(),
            Self::anchored(Self::anchor_fact(anchors)) == Some(anchors),
            Self::stamp(Self::anchor_fact(anchors)) == Some(anchor_stamp(anchors)),
    ;

    /// Derived-from markers are a component type of their own: untracked, no
    /// singleton and no edge.
    proof fn marker_laws(fact: Self::Model)
        ensures
            Self::kind(fact) == Self::anchor_kind() <==> Self::anchored(fact) is Some,
            Self::kind(fact) == Self::anchor_kind() ==> Self::edge(fact) is None,
            !Self::tracks(Self::anchor_kind()),
            Self::singleton(Self::anchor_kind()) is None,
    ;

    /// The component type of the value.
    fn component_id(&self) -> (id: ComponentId)
        ensures
            id == Self::kind(self.model()),
    ;

    /// The name of a component type.
    fn component_name(kind: ComponentId) -> (name: &'static str)
        ensures
            name@ == Self::label(kind),
    ;

    /// Whether this component type participates in revision-based
    /// invalidation.
    fn is_tracked(kind: ComponentId) -> (tracks: bool)
        ensures
            tracks == Self::tracks(kind),
    ;

    /// Optional stable fingerprint for avoiding revision bumps on equal writes.
    ///
    /// `Some(hash)` means that inserting the same fingerprint again keeps the
    /// previous revision. `None` means that every tracked insert is a new
    /// value.
    fn fingerprint(&self) -> (fingerprint: Option<u64>)
        ensures
            fingerprint == Self::stamp(self.model()),
    ;

    /// The singleton key of a component type.
    fn singleton_key(kind: ComponentId) -> (key: Option<ComponentId>)
        ensures
            key == Self::singleton(kind),
    ;

    /// If this value is a relationship edge, the entity it points at and the
    /// inverse component kept on that entity.
    fn relationship_edge(&self) -> (edge: Option<RelationshipEdge>)
        ensures
            edge == Self::edge(self.model()),
    ;

    /// If this value is a maintained inverse, one retraction per source.
    fn relationship_retractions(&self) -> (retractions: Vec<RelationshipRetraction>)
        ensures
            retractions@ == Self::retracts(self.model()),
    ;

    /// The anchors of a [`DerivedFrom`] value.
    fn derived_from(&self) -> (derived: Option<DerivedFrom>)
        ensures
            match derived {
                Some(derived) => Self::anchored(self.model()) == Some(derived@),
                None => Self::anchored(self.model()) is None,
            },
    ;

    /// The component value of a [`DerivedFrom`].
    fn from_derived(derived: DerivedFrom) -> (value: Self)
        ensures
            value.model() == Self::anchor_fact(derived@),
    ;

    /// Runs after a component of type `kind` is inserted or replaced on an
    /// entity.
    fn on_insert(_kind: ComponentId, _context: ComponentHookContext) {
    }

    /// Runs when a component of type `kind` is removed from an entity.
    fn on_remove(_kind: ComponentId, _context: ComponentHookContext) {
    }

    /// Runs before a component of type `kind` is removed as part of removing
    /// the whole entity.
    fn on_entity_remove(_kind: ComponentId, _context: ComponentHookContext) {
    }
}

/// The maintained side of relationships: engine-written components on target
/// entities listing every source that points at them, ordered by entity id.
pub trait RelationshipTarget: Component {
    /// Whether a component type is a maintained inverse.
    spec fn is_inverse(kind: ComponentId) -> bool;

    /// The sources a maintained inverse lists.
    spec fn sources(fact: Self::Model) -> Seq<Entity>;

    /// The edge component whose values inverse component `inverse` lists.
    spec fn edge_of(inverse: ComponentId) -> ComponentId;

    /// The value of inverse `inverse` listing `members`.
    spec fn inverse_fact(inverse: ComponentId, members: Seq<Entity>) -> Self::Model;

    /// An edge names the inverse component that lists its values, no value of an
    /// inverse component is itself an edge, a singleton or a derived-from marker,
    /// and only inverses retract edges.
    proof fn edge_laws(fact: Self::Model)
        ensures
            Self::edge(fact) matches Some(edge) ==> Self::is_inverse(edge.inverse)
                && Self::edge_of(edge.inverse) == Self::kind(fact),
            !Self::is_inverse(Self::kind(fact)) ==> Self::retracts(fact).len() == 0,
            Self::is_inverse(Self::kind(fact)) ==> {
                &&& Self::edge(fact) is None
                &&& Self::anchored(fact) is None
                &&& Self::singleton(Self::kind(fact)) is None
            },
    ;

    /// The value built for an inverse lists exactly the members it was built
    /// from, and the edge that it lists is no inverse.
    proof fn inverse_laws(inverse: ComponentId, members: Seq<Entity>)
        requires
            Self::is_inverse(inverse),
        ensures
            !Self::is_inverse(Self::edge_of(inverse)),
            Self::kind(Self::inverse_fact(inverse, members)) == inverse,
            Self::sources(Self::inverse_fact(inverse, members)) == members,
            Self::retracts(Self::inverse_fact(inverse, members)) == retractions_of(
                members,
                Self::edge_of(inverse),
            ),
    ;

    /// Whether a component type is a maintained inverse.
    fn inverse_component(kind: ComponentId) -> (inverse: bool)
        ensures
            inverse == Self::is_inverse(kind),
    ;

    /// The edge component whose values point at this inverse's entities.
    fn edge_component(inverse: ComponentId) -> (edge: ComponentId)
        ensures
            edge == Self::edge_of(inverse),
    ;

    /// Builds the inverse `inverse` from its member list, sorted by entity id.
    fn from_members(inverse: ComponentId, members: Vec<Entity>) -> (value: Self)
        requires
            Self::is_inverse(inverse),
        ensures
            value.model() == Self::inverse_fact(inverse, members@),
    ;

    /// The current member list, sorted by entity id.
    fn members(&self) -> (members: Vec<Entity>)
        ensures
            members@ == Self::sources(self.model()),
    ;
}

/// Component values that runtime filters can compare.
pub trait ComparableComponent: RelationshipTarget {
    /// Whether two values of one component type are equal.
    spec fn equal(a: Self::Model, b: Self::Model) -> bool;

    /// Whether the first of two values of one component type is greater than or
    /// equal to the second.
    spec fn at_least(a: Self::Model, b: Self::Model) -> bool;

    /// Equal values have equal fingerprints.
    proof fn equal_laws(a: Self::Model, b: Self::Model)
        requires
            Self::kind(a) == Self::kind(b),
            Self::equal(a, b),
        ensures
            Self::stamp(a) == Self::stamp(b),
    ;

    /// Whether this value equals `other`.
    fn equals(&self, other: &Self) -> (equal: bool)
        ensures
            equal == Self::equal(self.model(), other.model()),
    ;

    /// Whether this value is greater than or equal to `other`.
    fn is_at_least(&self, other: &Self) -> (at_least: bool)
        ensures
            at_least == Self::at_least(self.model(), other.model()),
    ;
}

/// A component type known at compile time, and its way into the universe it
/// belongs to.
pub trait ComponentType: Sized {
    /// The universe the component type belongs to.
    type Universe: Component;

    /// The component type's id.
    spec fn key() -> ComponentId;

    /// What the value means in the universe.
    spec fn meaning(self) -> <Self::Universe as Component>::Model;

    /// The component type's id.
    fn component_type() -> (id: ComponentId)
        ensures
            id == Self::key(),
    ;

    /// Moves the value into the universe.
    fn erase(self) -> (value: Self::Universe)
        ensures
            value.model() == self.meaning(),
            Self::Universe::kind(value.model()) == Self::key(),
    ;
}

/// Maintenance handle produced by a relationship edge component: which entity
/// it points at, and which inverse component of that entity lists it.
#[derive(Debug, Clone, Copy)]
pub struct RelationshipEdge {
    pub target: Entity,
    pub inverse: ComponentId,
}

impl RelationshipEdge {
    /// Builds the handle for an edge pointing at `target`, maintaining inverse
    /// component `inverse`.
    pub fn new(target: Entity, inverse: ComponentId) -> (edge: Self)
        ensures
            edge == (RelationshipEdge { target, inverse }),
    {
        RelationshipEdge { target, inverse }
    }
}

/// One source's edge retraction, applied when a relationship target entity is
/// removed.
#[derive(Debug, Clone, Copy)]
pub struct RelationshipRetraction {
    pub source: Entity,
    pub edge: ComponentId,
}

impl RelationshipRetraction {
    /// Builds the retraction removing edge component `edge` from `source`.
    pub fn new(source: Entity, edge: ComponentId) -> (retraction: Self)
        ensures
            retraction == (RelationshipRetraction { source, edge }),
    {
        RelationshipRetraction { source, edge }
    }
}

/// The retractions of a whole inverse, one per member, in member order.
pub open spec fn retractions_of(members: Seq<Entity>, edge: ComponentId) -> Seq<
    RelationshipRetraction,
> {
    members.map_values(|source: Entity| RelationshipRetraction { source, edge })
}

/// The retractions for a whole inverse, one per member.
pub fn relationship_retractions_for(members: &Vec<Entity>, edge: ComponentId) -> (retractions: Vec<
    RelationshipRetraction,
>)
    ensures
        retractions@ == retractions_of(members@, edge),
{
    let mut retractions: Vec<RelationshipRetraction> = Vec::new();
    let mut i: usize = 0;
    while i < members.len()
        invariant
            i <= members.len(),
            retractions@ == retractions_of(members@.take(i as int), edge),
        decreases members.len() - i,
    {
        retractions.push(RelationshipRetraction::new(members[i], edge));
        i = i + 1;
        assert(retractions_of(members@.take(i as int), edge) =~= retractions_of(
            members@.take(i - 1),
            edge,
        ).push(RelationshipRetraction { source: members@[i - 1], edge }));
    }
    assert(members@.take(members@.len() as int) =~= members@);
    retractions
}

/// Marker component that routes a bundle through the singleton index for `T`.
#[derive(Debug)]
pub struct Singleton<T> {
    _marker: PhantomData<T>,
}

impl<T> Clone for Singleton<T> {
    fn clone(&self) -> (copy: Self)
        ensures
            copy == *self,
    {
        *self
    }
}

impl<T> Copy for Singleton<T> {

}

impl<T> Singleton<T> {
    /// The one marker value for `T`.
    pub closed spec fn marker() -> Self {
        Singleton { _marker: PhantomData }
    }

    /// Creates a singleton marker keyed by component type `T`.
    pub fn new() -> (marker: Self)
        ensures
            marker == Self::marker(),
    {
        Singleton { _marker: PhantomData }
    }

    /// The key that the marker routes by: the component type of `T`.
    pub fn singleton_key() -> (key: Option<ComponentId>) where T: ComponentType
        ensures
            key == Some(T::key()),
    {
        Some(T::component_type())
    }
}

/// One source entity of a derived fact, with the revision captured for it.
#[derive(Debug, Clone, Copy)]
pub struct DerivedAnchor {
    pub entity: Entity,
    pub revision: Option<u64>,
}

/// Marks an entity as derived from one or more source entities.
///
/// The revision of each source entity is captured when the component is
/// inserted; the derived entity is stale once any source entity changes or is
/// removed. Anchors are entity-scoped: a change of any tracked component on a
/// source counts.
#[derive(Debug)]
pub struct DerivedFrom {
    anchors: Vec<DerivedAnchor>,
}

impl View for DerivedFrom {
    type V = Seq<DerivedAnchor>;

    closed spec fn view(&self) -> Seq<DerivedAnchor> {
        self.anchors@
    }
}

/// Anchors on `entities` with no revision captured yet.
pub open spec fn uncaptured(entities: Seq<Entity>) -> Seq<DerivedAnchor> {
    entities.map_values(|entity: Entity| DerivedAnchor { entity, revision: None::<u64> })
}

/// The anchors with their revisions replaced by `revisions`, position by
/// position.
pub open spec fn captured(anchors: Seq<DerivedAnchor>, revisions: Seq<Option<u64>>) -> Seq<
    DerivedAnchor,
> {
    Seq::new(
        anchors.len(),
        |i: int| DerivedAnchor { entity: anchors[i].entity, revision: revisions[i] },
    )
}

/// Whether every anchor was captured and still has the revision it was
/// captured at. A fact derived from nothing is never current.
pub open spec fn anchors_current(anchors: Seq<DerivedAnchor>, revisions: Seq<Option<u64>>) -> bool {
    &&& anchors.len() > 0
    &&& forall|i: int|
        0 <= i < anchors.len() ==> (#[trigger] anchors[i]).revision is Some && anchors[i].revision
            == revisions[i]
}

impl Clone for DerivedFrom {
    fn clone(&self) -> (copy: Self)
        ensures
            copy@ == self@,
    {
        let mut anchors: Vec<DerivedAnchor> = Vec::new();
        let mut i: usize = 0;
        while i < self.anchors.len()
            invariant
                i <= self.anchors.len(),
                anchors@ =~= self.anchors@.take(i as int),
            decreases self.anchors.len() - i,
        {
            anchors.push(self.anchors[i]);
            i = i + 1;
        }
        assert(self.anchors@.take(self.anchors@.len() as int) =~= self.anchors@);
        DerivedFrom { anchors }
    }
}

impl DerivedFrom {
    /// Marks this entity as derived from one source entity.
    pub fn new(entity: Entity) -> (derived: Self)
        ensures
            derived@ == uncaptured(seq![entity]),
    {
        let mut entities: Vec<Entity> = Vec::new();
        entities.push(entity);
        assert(entities@ =~= seq![entity]);
        Self::many(entities)
    }

    /// Marks this entity as derived from every source entity in `entities`.
    pub fn many(entities: Vec<Entity>) -> (derived: Self)
        ensures
            derived@ == uncaptured(entities@),
    {
        let mut anchors: Vec<DerivedAnchor> = Vec::new();
        let mut i: usize = 0;
        while i < entities.len()
            invariant
                i <= entities.len(),
                anchors@ == uncaptured(entities@.take(i as int)),
            decreases entities.len() - i,
        {
            anchors.push(DerivedAnchor { entity: entities[i], revision: None });
            i = i + 1;
            assert(uncaptured(entities@.take(i as int)) =~= uncaptured(entities@.take(i - 1)).push(
                DerivedAnchor { entity: entities@[i - 1], revision: None },
            ));
        }
        assert(entities@.take(entities@.len() as int) =~= entities@);
        DerivedFrom { anchors }
    }

    /// Source entities this derived output is attached to.
    pub fn entities(&self) -> (entities: Vec<Entity>)
        ensures
            entities@ == anchor_entities(self@),
    {
        let mut entities: Vec<Entity> = Vec::new();
        let mut i: usize = 0;
        while i < self.anchors.len()
            invariant
                i <= self.anchors.len(),
                entities@ == anchor_entities(self.anchors@.take(i as int)),
            decreases self.anchors.len() - i,
        {
            entities.push(self.anchors[i].entity);
            i = i + 1;
            assert(anchor_entities(self.anchors@.take(i as int)) =~= anchor_entities(
                self.anchors@.take(i - 1),
            ).push(self.anchors@[i - 1].entity));
        }
        assert(self.anchors@.take(self.anchors@.len() as int) =~= self.anchors@);
        entities
    }

    /// Captures one revision per anchor.
    pub fn capture(&mut self, revisions: &Vec<Option<u64>>)
        requires
            revisions@.len() == old(self)@.len(),
        ensures
            final(self)@ == captured(old(self)@, revisions@),
    {
        let mut anchors: Vec<DerivedAnchor> = Vec::new();
        let mut i: usize = 0;
        while i < self.anchors.len()
            invariant
                i <= self.anchors@.len(),
                self.anchors@.len() == revisions@.len(),
                self.anchors@ == old(self)@,
                anchors@ =~= captured(self.anchors@, revisions@).take(i as int),
            decreases self.anchors@.len() - i,
        {
            anchors.push(DerivedAnchor { entity: self.anchors[i].entity, revision: revisions[i] });
            i = i + 1;
        }
        assert(captured(self.anchors@, revisions@).take(self.anchors@.len() as int) =~= captured(
            self.anchors@,
            revisions@,
        ));
        self.anchors = anchors;
    }

    /// Whether every captured anchor still has the given current revision.
    pub fn is_current_revision(&self, revisions: &Vec<Option<u64>>) -> (current: bool)
        requires
            revisions@.len() == self@.len(),
        ensures
            current == anchors_current(self@, revisions@),
    {
        if self.anchors.len() == 0 {
            return false;
        }
        let mut i: usize = 0;
        while i < self.anchors.len()
            invariant
                i <= self.anchors@.len(),
                self.anchors@.len() == revisions@.len(),
                forall|j: int|
                    0 <= j < i ==> (#[trigger] self.anchors@[j]).revision is Some
                        && self.anchors@[j].revision == revisions@[j],
            decreases self.anchors@.len() - i,
        {
            let same = match (self.anchors[i].revision, revisions[i]) {
                (Some(a), Some(b)) => a == b,
                _ => false,
            };
            if !same {
                assert(!(self@[i as int].revision is Some && self@[i as int].revision
                    == revisions@[i as int]));
                return false;
            }
            i = i + 1;
        }
        true
    }

    /// Whether two markers have the same anchors, captured at the same
    /// revisions.
    pub fn same(&self, other: &Self) -> (same: bool)
        ensures
            same == (self@ == other@),
    {
        if self.anchors.len() != other.anchors.len() {
            return false;
        }
        let mut i: usize = 0;
        while i < self.anchors.len()
            invariant
                i <= self.anchors@.len(),
                self.anchors@.len() == other.anchors@.len(),
                forall|j: int| 0 <= j < i ==> self.anchors@[j] == other.anchors@[j],
            decreases self.anchors@.len() - i,
        {
            let revisions_agree = match (self.anchors[i].revision, other.anchors[i].revision) {
                (Some(a), Some(b)) => a == b,
                (None, None) => true,
                _ => false,
            };
            if !self.anchors[i].entity.same(other.anchors[i].entity) || !revisions_agree {
                assert(self@[i as int] != other@[i as int]);
                return false;
            }
            i = i + 1;
        }
        assert(self@ =~= other@);
        true
    }

    /// Fingerprints the captured anchors, so that deriving again from unchanged
    /// sources keeps the stored entry untouched.
    pub fn fingerprint(&self) -> (fingerprint: Option<u64>)
        ensures
            fingerprint == Some(anchor_stamp(self@)),
    {
        let mut bytes: Vec<u8> = Vec::new();
        let mut i: usize = 0;
        assert(anchor_bytes(self.anchors@.take(0)) =~= Seq::<u8>::empty());
        while i < self.anchors.len()
            invariant
                i <= self.anchors@.len(),
                bytes@ == anchor_bytes(self.anchors@.take(i as int)),
            decreases self.anchors@.len() - i,
        {
            let anchor = self.anchors[i];
            let mut id = vstd::bytes::u64_to_le_bytes(anchor.entity.raw());
            bytes.append(&mut id);
            match anchor.revision {
                Some(revision) => {
                    bytes.push(1);
                    let mut stamp = vstd::bytes::u64_to_le_bytes(revision);
                    bytes.append(&mut stamp);
                },
                None => {
                    bytes.push(0);
                },
            }
            i = i + 1;
            assert(self.anchors@.take(i as int).drop_last() =~= self.anchors@.take(i - 1));
            assert(bytes@ =~= anchor_bytes(self.anchors@.take(i as int)));
        }
        assert(self.anchors@.take(self.anchors@.len() as int) =~= self.anchors@);
        Some(hash_component(bytes.as_slice()))
    }
}

/// The source entities of a list of anchors.
pub open spec fn anchor_entities(anchors: Seq<DerivedAnchor>) -> Seq<Entity> {
    anchors.map_values(|anchor: DerivedAnchor| anchor.entity)
}

/// The bytes that stand for a list of anchors in a fingerprint.
pub open spec fn anchor_bytes(anchors: Seq<DerivedAnchor>) -> Seq<u8>
    decreases anchors.len(),
{
    if anchors.len() == 0 {
        Seq::empty()
    } else {
        let last = anchors.last();
        anchor_bytes(anchors.drop_last()) + vstd::bytes::spec_u64_to_le_bytes(last.entity.id()) + (
        match last.revision {
            Some(revision) => seq![1u8] + vstd::bytes::spec_u64_to_le_bytes(revision),
            None => seq![0u8],
        })
    }
}

/// The fingerprint of a list of anchors.
pub open spec fn anchor_stamp(anchors: Seq<DerivedAnchor>) -> u64 {
    hash_of(anchor_bytes(anchors))
}

/// What the default hasher makes of one write of `bytes`.
pub open spec fn hash_of(bytes: Seq<u8>) -> u64 {
    DefaultHasher::spec_finish(seq![bytes])
}

/// Convenience helper for implementing [`Component::fingerprint`]: hashes the
/// bytes that stand for a value.
pub fn hash_component(value: &[u8]) -> (hash: u64)
    ensures
        hash == hash_of(value@),
{
    let mut hasher = DefaultHasher::new();
    hasher.write(value);
    assert(hasher@ =~= seq![value@]);
    hasher.finish()
}

/// A derived fact is current just after its anchors are captured if, and only
/// if, it has anchors and every source entity exists.
pub proof fn lemma_fresh_capture_is_current(
    anchors: Seq<DerivedAnchor>,
    revisions: Seq<Option<u64>>,
)
    requires
        anchors.len() == revisions.len(),
    ensures
        anchors_current(captured(anchors, revisions), revisions) <==> (anchors.len() > 0
            && forall|i: int| 0 <= i < revisions.len() ==> (#[trigger] revisions[i]) is Some),
{
    let now = captured(anchors, revisions);
    if anchors_current(now, revisions) {
        assert forall|i: int| 0 <= i < revisions.len() implies (#[trigger] revisions[i]) is Some by {
            assert(now[i].revision is Some);
        }
    }
}

/// A change of any anchored source makes the derived fact stale.
pub proof fn lemma_changed_source_is_stale(
    anchors: Seq<DerivedAnchor>,
    before: Seq<Option<u64>>,
    after: Seq<Option<u64>>,
    i: int,
)
    requires
        anchors.len() == before.len(),
        anchors.len() == after.len(),
        0 <= i < anchors.len(),
        before[i] != after[i],
    ensures
        !anchors_current(captured(anchors, before), after),
{
    assert(captured(anchors, before)[i].revision == before[i]);
}

} // verus!
