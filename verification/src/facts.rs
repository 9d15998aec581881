//! A ready-made universe of components, for programs whose data fits into
//! texts, counters and links.
//!
//! Each variant of [`Fact`] is a family of component types, told apart by a
//! slot number; the family decides how the engine treats the component.

use crate::component::{
    hash_component, relationship_retractions_for, ComparableComponent, Component, ComponentId,
    ComponentType, DerivedAnchor, DerivedFrom, RelationshipEdge, RelationshipRetraction,
    RelationshipTarget,
};
use crate::entity::Entity;
use crate::invocation::{copy_entities, same_entities};
use crate::pipeline::cleanup::EphemeralComponent;
use vstd::prelude::*;

verus! {

/// A component value.
#[derive(Debug)]
pub enum Fact {
    /// The anchors of a derived entity.
    Derived(DerivedFrom),
    /// A tracked text, fingerprinted over its bytes: writing an equal text
    /// again changes nothing.
    Text { slot: u32, text: Vec<u8> },
    /// A tracked number without a fingerprint: every write is a new value.
    Count { slot: u32, value: u64 },
    /// A number outside revision tracking.
    Note { slot: u32, value: u64 },
    /// A number outside revision tracking that at most one entity carries: the
    /// marker of a singleton.
    Unique { slot: u32, value: u64 },
    /// An edge to another entity, listed there by the `Linked` of the same
    /// slot, fingerprinted over the entity.
    Link { slot: u32, target: Entity },
    /// The maintained inverse of the `Link` of the same slot, fingerprinted over
    /// its members.
    Linked { slot: u32, members: Vec<Entity> },
    /// Marks an entity that lives until the query that it was inserted for is
    /// answered.
    Ephemeral,
}

/// What a [`Fact`] means.
#[verifier::ext_equal]
pub enum FactModel {
    Derived(Seq<DerivedAnchor>),
    Text { slot: u32, text: Seq<u8> },
    Count { slot: u32, value: u64 },
    Note { slot: u32, value: u64 },
    Unique { slot: u32, value: u64 },
    Link { slot: u32, target: Entity },
    Linked { slot: u32, members: Seq<Entity> },
    Ephemeral,
}

/// The family of the derived-from marker.
pub const DERIVED: u64 = 0;

/// The family of texts.
pub const TEXT: u64 = 1;

/// The family of counters.
pub const COUNT: u64 = 2;

/// The family of notes.
pub const NOTE: u64 = 3;

/// The family of singletons.
pub const UNIQUE: u64 = 4;

/// The family of links.
pub const LINK: u64 = 5;

/// The family of maintained inverses.
pub const LINKED: u64 = 6;

/// The family of the marker of ephemeral entities.
pub const EPHEMERAL: u64 = 7;

/// The component type of slot `slot` in family `family`.
pub open spec fn id_of(family: u64, slot: u32) -> ComponentId {
    (slot * 8 + family) as u64
}

/// The component type of slot `slot` in family `family`.
pub fn component_of(family: u64, slot: u32) -> (id: ComponentId)
    requires
        family < 8,
    ensures
        id == id_of(family, slot),
{
    (slot as u64) * 8 + family
}

/// The component type of `Link` whose inverse is `inverse`.
pub open spec fn link_of(inverse: ComponentId) -> ComponentId {
    if inverse > 0 {
        (inverse - 1) as u64
    } else {
        0
    }
}

/// The bytes that stand for a list of entities in a fingerprint.
pub open spec fn entity_bytes(entities: Seq<Entity>) -> Seq<u8>
    decreases entities.len(),
{
    if entities.len() == 0 {
        Seq::empty()
    } else {
        entity_bytes(entities.drop_last()) + vstd::bytes::spec_u64_to_le_bytes(
            entities.last().id(),
        )
    }
}

fn bytes_of(entities: &Vec<Entity>) -> (bytes: Vec<u8>)
    ensures
        bytes@ == entity_bytes(entities@),
{
    let mut bytes: Vec<u8> = Vec::new();
    let mut i: usize = 0;
    assert(entities@.take(0) =~= Seq::<Entity>::empty());
    while i < entities.len()
        invariant
            i <= entities@.len(),
            bytes@ == entity_bytes(entities@.take(i as int)),
        decreases entities@.len() - i,
    {
        let mut id = vstd::bytes::u64_to_le_bytes(entities[i].raw());
        bytes.append(&mut id);
        assert(entities@.take(i + 1).drop_last() =~= entities@.take(i as int));
        i = i + 1;
        assert(bytes@ =~= entity_bytes(entities@.take(i as int)));
    }
    assert(entities@.take(entities@.len() as int) =~= entities@);
    bytes
}

impl Component for Fact {
    type Model = FactModel;

    open spec fn model(&self) -> FactModel {
        match self {
            Fact::Derived(derived) => FactModel::Derived(derived@),
            Fact::Text { slot, text } => FactModel::Text { slot: *slot, text: text@ },
            Fact::Count { slot, value } => FactModel::Count { slot: *slot, value: *value },
            Fact::Note { slot, value } => FactModel::Note { slot: *slot, value: *value },
            Fact::Unique { slot, value } => FactModel::Unique { slot: *slot, value: *value },
            Fact::Link { slot, target } => FactModel::Link { slot: *slot, target: *target },
            Fact::Linked { slot, members } => FactModel::Linked { slot: *slot, members: members@ },
            Fact::Ephemeral => FactModel::Ephemeral,
        }
    }

    open spec fn kind(fact: FactModel) -> ComponentId {
        match fact {
            FactModel::Derived(_) => DERIVED,
            FactModel::Text { slot, .. } => id_of(TEXT, slot),
            FactModel::Count { slot, .. } => id_of(COUNT, slot),
            FactModel::Note { slot, .. } => id_of(NOTE, slot),
            FactModel::Unique { slot, .. } => id_of(UNIQUE, slot),
            FactModel::Link { slot, .. } => id_of(LINK, slot),
            FactModel::Linked { slot, .. } => id_of(LINKED, slot),
            FactModel::Ephemeral => EPHEMERAL,
        }
    }

    open spec fn label(kind: ComponentId) -> Seq<char> {
        if kind % 8 == DERIVED {
            "Derived"@
        } else if kind % 8 == TEXT {
            "Text"@
        } else if kind % 8 == COUNT {
            "Count"@
        } else if kind % 8 == NOTE {
            "Note"@
        } else if kind % 8 == UNIQUE {
            "Unique"@
        } else if kind % 8 == LINK {
            "Link"@
        } else if kind % 8 == LINKED {
            "Linked"@
        } else {
            "Ephemeral"@
        }
    }

    open spec fn tracks(kind: ComponentId) -> bool {
        kind % 8 != DERIVED && kind % 8 != NOTE && kind % 8 != UNIQUE && kind % 8 != EPHEMERAL
    }

    open spec fn stamp(fact: FactModel) -> Option<u64> {
        match fact {
            FactModel::Derived(anchors) => Some(crate::component::anchor_stamp(anchors)),
            FactModel::Text { text, .. } => Some(crate::component::hash_of(text)),
            FactModel::Link { target, .. } => Some(
                crate::component::hash_of(entity_bytes(seq![target])),
            ),
            FactModel::Linked { members, .. } => Some(
                crate::component::hash_of(entity_bytes(members)),
            ),
            _ => None,
        }
    }

    open spec fn singleton(kind: ComponentId) -> Option<ComponentId> {
        if kind % 8 == UNIQUE {
            Some(kind)
        } else {
            None
        }
    }

    open spec fn edge(fact: FactModel) -> Option<RelationshipEdge> {
        match fact {
            FactModel::Link { slot, target } => Some(
                RelationshipEdge { target, inverse: id_of(LINKED, slot) },
            ),
            _ => None,
        }
    }

    open spec fn retracts(fact: FactModel) -> Seq<RelationshipRetraction> {
        match fact {
            FactModel::Linked { slot, members } => crate::component::retractions_of(
                members,
                id_of(LINK, slot),
            ),
            _ => Seq::empty(),
        }
    }

    open spec fn anchored(fact: FactModel) -> Option<Seq<DerivedAnchor>> {
        match fact {
            FactModel::Derived(anchors) => Some(anchors),
            _ => None,
        }
    }

    open spec fn anchor_kind() -> ComponentId {
        DERIVED
    }

    open spec fn anchor_fact(anchors: Seq<DerivedAnchor>) -> FactModel {
        FactModel::Derived(anchors)
    }

    proof fn anchor_laws(anchors: Seq<DerivedAnchor>) {
    }

    proof fn marker_laws(fact: FactModel) {
    }

    fn component_id(&self) -> (id: ComponentId) {
        match self {
            Fact::Derived(_) => DERIVED,
            Fact::Text { slot, .. } => component_of(TEXT, *slot),
            Fact::Count { slot, .. } => component_of(COUNT, *slot),
            Fact::Note { slot, .. } => component_of(NOTE, *slot),
            Fact::Unique { slot, .. } => component_of(UNIQUE, *slot),
            Fact::Link { slot, .. } => component_of(LINK, *slot),
            Fact::Linked { slot, .. } => component_of(LINKED, *slot),
            Fact::Ephemeral => EPHEMERAL,
        }
    }

    fn component_name(kind: ComponentId) -> (name: &'static str) {
        if kind % 8 == DERIVED {
            "Derived"
        } else if kind % 8 == TEXT {
            "Text"
        } else if kind % 8 == COUNT {
            "Count"
        } else if kind % 8 == NOTE {
            "Note"
        } else if kind % 8 == UNIQUE {
            "Unique"
        } else if kind % 8 == LINK {
            "Link"
        } else if kind % 8 == LINKED {
            "Linked"
        } else {
            "Ephemeral"
        }
    }

    fn is_tracked(kind: ComponentId) -> (tracks: bool) {
        kind % 8 != DERIVED && kind % 8 != NOTE && kind % 8 != UNIQUE && kind % 8 != EPHEMERAL
    }

    fn fingerprint(&self) -> (fingerprint: Option<u64>) {
        match self {
            Fact::Derived(derived) => derived.fingerprint(),
            Fact::Text { text, .. } => Some(hash_component(text.as_slice())),
            Fact::Link { target, .. } => {
                let mut list: Vec<Entity> = Vec::new();
                list.push(*target);
                assert(list@ =~= seq![*target]);
                Some(hash_component(bytes_of(&list).as_slice()))
            },
            Fact::Linked { members, .. } => Some(hash_component(bytes_of(members).as_slice())),
            _ => None,
        }
    }

    fn singleton_key(kind: ComponentId) -> (key: Option<ComponentId>) {
        if kind % 8 == UNIQUE {
            Some(kind)
        } else {
            None
        }
    }

    fn relationship_edge(&self) -> (edge: Option<RelationshipEdge>) {
        match self {
            Fact::Link { slot, target } => Some(
                RelationshipEdge::new(*target, component_of(LINKED, *slot)),
            ),
            _ => None,
        }
    }

    fn relationship_retractions(&self) -> (retractions: Vec<RelationshipRetraction>) {
        match self {
            Fact::Linked { slot, members } => relationship_retractions_for(
                members,
                component_of(LINK, *slot),
            ),
            _ => Vec::new(),
        }
    }

    fn derived_from(&self) -> (derived: Option<DerivedFrom>) {
        match self {
            Fact::Derived(derived) => Some(derived.clone()),
            _ => None,
        }
    }

    fn from_derived(derived: DerivedFrom) -> (value: Self) {
        Fact::Derived(derived)
    }
}

impl RelationshipTarget for Fact {
    open spec fn is_inverse(kind: ComponentId) -> bool {
        kind % 8 == LINKED && kind / 8 <= u32::MAX
    }

    open spec fn sources(fact: FactModel) -> Seq<Entity> {
        match fact {
            FactModel::Linked { members, .. } => members,
            _ => Seq::empty(),
        }
    }

    open spec fn edge_of(inverse: ComponentId) -> ComponentId {
        link_of(inverse)
    }

    open spec fn inverse_fact(inverse: ComponentId, members: Seq<Entity>) -> FactModel {
        FactModel::Linked { slot: (inverse / 8) as u32, members }
    }

    proof fn edge_laws(fact: FactModel) {
    }

    proof fn inverse_laws(inverse: ComponentId, members: Seq<Entity>) {
        let slot = (inverse / 8) as u32;
        assert(id_of(LINKED, slot) == inverse);
        assert(id_of(LINK, slot) == link_of(inverse));
    }

    fn inverse_component(kind: ComponentId) -> (inverse: bool) {
        kind % 8 == LINKED && kind / 8 <= u32::MAX as u64
    }

    fn edge_component(inverse: ComponentId) -> (edge: ComponentId) {
        if inverse > 0 {
            inverse - 1
        } else {
            0
        }
    }

    fn from_members(inverse: ComponentId, members: Vec<Entity>) -> (value: Self) {
        Fact::Linked { slot: (inverse / 8) as u32, members }
    }

    fn members(&self) -> (members: Vec<Entity>) {
        match self {
            Fact::Linked { members, .. } => copy_entities(members),
            _ => Vec::new(),
        }
    }
}

/// Whether two byte strings are equal.
pub fn same_bytes(a: &Vec<u8>, b: &Vec<u8>) -> (same: bool)
    ensures
        same == (a@ == b@),
{
    if a.len() != b.len() {
        return false;
    }
    let mut i: usize = 0;
    while i < a.len()
        invariant
            i <= a@.len(),
            a@.len() == b@.len(),
            forall|j: int| 0 <= j < i ==> a@[j] == b@[j],
        decreases a@.len() - i,
    {
        if a[i] != b[i] {
            assert(a@[i as int] != b@[i as int]);
            return false;
        }
        i = i + 1;
    }
    assert(a@ =~= b@);
    true
}

impl ComparableComponent for Fact {
    open spec fn equal(a: FactModel, b: FactModel) -> bool {
        a == b
    }

    open spec fn at_least(a: FactModel, b: FactModel) -> bool {
        match (a, b) {
            (
                FactModel::Count { slot: p, value: v },
                FactModel::Count { slot: q, value: w },
            ) => p == q && v >= w,
            (
                FactModel::Note { slot: p, value: v },
                FactModel::Note { slot: q, value: w },
            ) => p == q && v >= w,
            (
                FactModel::Unique { slot: p, value: v },
                FactModel::Unique { slot: q, value: w },
            ) => p == q && v >= w,
            _ => a == b,
        }
    }

    proof fn equal_laws(a: FactModel, b: FactModel) {
    }

    fn equals(&self, other: &Self) -> (equal: bool) {
        match (self, other) {
            (Fact::Derived(a), Fact::Derived(b)) => a.same(b),
            (Fact::Text { slot: p, text: a }, Fact::Text { slot: q, text: b }) => *p == *q
                && same_bytes(a, b),
            (Fact::Count { slot: p, value: a }, Fact::Count { slot: q, value: b }) => *p == *q && *a
                == *b,
            (Fact::Note { slot: p, value: a }, Fact::Note { slot: q, value: b }) => *p == *q && *a
                == *b,
            (Fact::Unique { slot: p, value: a }, Fact::Unique { slot: q, value: b }) => *p == *q
                && *a == *b,
            (Fact::Link { slot: p, target: a }, Fact::Link { slot: q, target: b }) => *p == *q
                && a.same(*b),
            (Fact::Linked { slot: p, members: a }, Fact::Linked { slot: q, members: b }) => *p
                == *q && same_entities(a, b),
            (Fact::Ephemeral, Fact::Ephemeral) => true,
            _ => false,
        }
    }

    fn is_at_least(&self, other: &Self) -> (at_least: bool) {
        match (self, other) {
            (Fact::Count { slot: p, value: a }, Fact::Count { slot: q, value: b }) => *p == *q && *a
                >= *b,
            (Fact::Note { slot: p, value: a }, Fact::Note { slot: q, value: b }) => *p == *q && *a
                >= *b,
            (Fact::Unique { slot: p, value: a }, Fact::Unique { slot: q, value: b }) => *p == *q
                && *a >= *b,
            _ => self.equals(other),
        }
    }
}

impl EphemeralComponent for Fact {
    open spec fn ephemeral() -> ComponentId {
        EPHEMERAL
    }

    proof fn ephemeral_laws() {
    }

    fn ephemeral_id() -> (kind: ComponentId) {
        EPHEMERAL
    }
}

/// The marker of ephemeral entities, as a component type of its own.
#[derive(Debug, Clone, Copy)]
pub struct Ephemeral;

impl ComponentType for Ephemeral {
    type Universe = Fact;

    open spec fn key() -> ComponentId {
        EPHEMERAL
    }

    open spec fn meaning(self) -> FactModel {
        FactModel::Ephemeral
    }

    fn component_type() -> (id: ComponentId) {
        EPHEMERAL
    }

    fn erase(self) -> (value: Fact) {
        Fact::Ephemeral
    }
}

/// The text of slot `SLOT`, as a component type of its own.
#[derive(Debug)]
pub struct Text<const SLOT: u32>(pub Vec<u8>);

impl<const SLOT: u32> ComponentType for Text<SLOT> {
    type Universe = Fact;

    open spec fn key() -> ComponentId {
        id_of(TEXT, SLOT)
    }

    open spec fn meaning(self) -> FactModel {
        FactModel::Text { slot: SLOT, text: self.0@ }
    }

    fn component_type() -> (id: ComponentId) {
        component_of(TEXT, SLOT)
    }

    fn erase(self) -> (value: Fact) {
        Fact::Text { slot: SLOT, text: self.0 }
    }
}

/// The counter of slot `SLOT`, as a component type of its own.
#[derive(Debug)]
pub struct Count<const SLOT: u32>(pub u64);

impl<const SLOT: u32> ComponentType for Count<SLOT> {
    type Universe = Fact;

    open spec fn key() -> ComponentId {
        id_of(COUNT, SLOT)
    }

    open spec fn meaning(self) -> FactModel {
        FactModel::Count { slot: SLOT, value: self.0 }
    }

    fn component_type() -> (id: ComponentId) {
        component_of(COUNT, SLOT)
    }

    fn erase(self) -> (value: Fact) {
        Fact::Count { slot: SLOT, value: self.0 }
    }
}

/// The note of slot `SLOT`, as a component type of its own.
#[derive(Debug, Clone, Copy)]
pub struct Note<const SLOT: u32>(pub u64);

impl<const SLOT: u32> ComponentType for Note<SLOT> {
    type Universe = Fact;

    open spec fn key() -> ComponentId {
        id_of(NOTE, SLOT)
    }

    open spec fn meaning(self) -> FactModel {
        FactModel::Note { slot: SLOT, value: self.0 }
    }

    fn component_type() -> (id: ComponentId) {
        component_of(NOTE, SLOT)
    }

    fn erase(self) -> (value: Fact) {
        Fact::Note { slot: SLOT, value: self.0 }
    }
}

/// The singleton of slot `SLOT`, as a component type of its own.
#[derive(Debug)]
pub struct Unique<const SLOT: u32>(pub u64);

impl<const SLOT: u32> ComponentType for Unique<SLOT> {
    type Universe = Fact;

    open spec fn key() -> ComponentId {
        id_of(UNIQUE, SLOT)
    }

    open spec fn meaning(self) -> FactModel {
        FactModel::Unique { slot: SLOT, value: self.0 }
    }

    fn component_type() -> (id: ComponentId) {
        component_of(UNIQUE, SLOT)
    }

    fn erase(self) -> (value: Fact) {
        Fact::Unique { slot: SLOT, value: self.0 }
    }
}

/// The link of slot `SLOT`, as a component type of its own.
#[derive(Debug)]
pub struct Link<const SLOT: u32>(pub Entity);

impl<const SLOT: u32> ComponentType for Link<SLOT> {
    type Universe = Fact;

    open spec fn key() -> ComponentId {
        id_of(LINK, SLOT)
    }

    open spec fn meaning(self) -> FactModel {
        FactModel::Link { slot: SLOT, target: self.0 }
    }

    fn component_type() -> (id: ComponentId) {
        component_of(LINK, SLOT)
    }

    fn erase(self) -> (value: Fact) {
        Fact::Link { slot: SLOT, target: self.0 }
    }
}

/// The maintained inverse of slot `SLOT`, as a component type of its own.
#[derive(Debug)]
pub struct Linked<const SLOT: u32>(pub Vec<Entity>);

impl<const SLOT: u32> ComponentType for Linked<SLOT> {
    type Universe = Fact;

    open spec fn key() -> ComponentId {
        id_of(LINKED, SLOT)
    }

    open spec fn meaning(self) -> FactModel {
        FactModel::Linked { slot: SLOT, members: self.0@ }
    }

    fn component_type() -> (id: ComponentId) {
        component_of(LINKED, SLOT)
    }

    fn erase(self) -> (value: Fact) {
        Fact::Linked { slot: SLOT, members: self.0 }
    }
}

} // verus!
