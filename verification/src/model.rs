//! The mathematical model of a world: what every operation does to it.

use crate::component::{
    captured, Component, ComponentId, DerivedAnchor, RelationshipEdge, RelationshipRetraction,
    RelationshipTarget,
};
use crate::entity::Entity;
use crate::invocation::Invocation;
use vstd::prelude::*;

verus! {

/// Whether a component was inserted by a caller or derived by a system.
#[derive(Debug, Clone, Copy, PartialEq, Eq, Structural)]
pub enum Origin {
    Base,
    Derived,
}

/// Which lifecycle hook runs.
#[derive(Debug, Clone, Copy, PartialEq, Eq, Structural)]
pub enum Hook {
    Insert,
    Remove,
    EntityRemove,
}

/// One due run of a lifecycle hook.
#[derive(Debug, Clone, Copy)]
pub struct HookRun {
    pub hook: Hook,
    pub kind: ComponentId,
    pub entity: Entity,
}

/// A singleton component was inserted on an entity while another entity holds
/// its key.
#[derive(Debug, Clone, Copy)]
pub struct SingletonConflict {
    pub component: ComponentId,
    pub existing: Entity,
}

/// A component type on an entity: one cell of the world.
pub type Cell = (ComponentId, Entity);

/// Model of one stored component.
#[verifier::ext_equal]
pub struct Entry<C: Component> {
    pub value: C::Model,
    pub revision: u64,
    pub fingerprint: Option<u64>,
    pub origin: Origin,
    pub owner: Option<Invocation>,
    /// The number of the cell that holds the value. Snapshots share cells with the
    /// world: what is written into one in place is read through all of them. There
    /// is no number left for the last cells of a world that has used them all up;
    /// those are shared with nothing.
    pub cell: Option<u64>,
}

/// Model of one component type's store.
#[verifier::ext_equal]
#[verifier::reject_recursive_types(C)]
pub struct Column<C: Component> {
    pub entries: Map<u64, Entry<C>>,
    pub watermark: u64,
}

/// Model of a derived-from insert that waits for the end of its buffer.
#[verifier::ext_equal]
pub struct PendingAnchor {
    pub entity: Entity,
    pub anchors: Seq<DerivedAnchor>,
    pub origin: Origin,
    pub owner: Option<Invocation>,
}

/// Model of a world.
#[verifier::ext_equal]
#[verifier::reject_recursive_types(C)]
pub struct WorldModel<C: Component> {
    pub next_entity: u64,
    pub revision: u64,
    pub mutations: u64,
    pub stores: Map<ComponentId, Column<C>>,
    pub singletons: Map<ComponentId, u64>,
    pub owned: Map<Invocation, Seq<Cell>>,
    pub spawns: Map<Invocation, Seq<Entity>>,
    pub cursors: Map<Invocation, usize>,
    pub removed: Seq<Entity>,
    pub pending: Seq<PendingAnchor>,
    pub written: Seq<Cell>,
    pub universe: Option<Set<ComponentId>>,
    pub log: Seq<Cell>,
    pub epoch: u64,
    pub hooks: Seq<HookRun>,
    /// What was last written in place into a cell.
    pub cells: Map<u64, C::Model>,
    /// The number of the next cell.
    pub next_cell: u64,
}

/// The counter value after `counter`; the last one stays where it is.
pub open spec fn next(counter: u64) -> u64 {
    if counter == u64::MAX {
        counter
    } else {
        (counter + 1) as u64
    }
}

/// The larger of two counter values.
pub open spec fn later(a: u64, b: u64) -> u64 {
    if a < b {
        b
    } else {
        a
    }
}

/// `cells` with `cell` appended unless it is there already.
pub open spec fn with_cell(cells: Seq<Cell>, cell: Cell) -> Seq<Cell> {
    if cells.contains(cell) {
        cells
    } else {
        cells.push(cell)
    }
}

/// `cells` with `cell` taken out.
pub open spec fn without_cell(cells: Seq<Cell>, cell: Cell) -> Seq<Cell> {
    if cells.contains(cell) {
        cells.remove(cells.index_of(cell))
    } else {
        cells
    }
}

/// The ownership index with `cell` added to the outputs of `owner`.
pub open spec fn index_cell(
    owned: Map<Invocation, Seq<Cell>>,
    owner: Invocation,
    cell: Cell,
) -> Map<Invocation, Seq<Cell>> {
    owned.insert(owner, with_cell(outputs(owned, owner), cell))
}

/// The ownership index with `cell` dropped from the outputs of `owner`.
pub open spec fn unindex_cell(
    owned: Map<Invocation, Seq<Cell>>,
    owner: Invocation,
    cell: Cell,
) -> Map<Invocation, Seq<Cell>> {
    if !owned.contains_key(owner) {
        owned
    } else {
        let rest = without_cell(owned[owner], cell);
        if rest.len() == 0 {
            owned.remove(owner)
        } else {
            owned.insert(owner, rest)
        }
    }
}

/// The outputs the index lists for `owner`.
pub open spec fn outputs(owned: Map<Invocation, Seq<Cell>>, owner: Invocation) -> Seq<Cell> {
    if owned.contains_key(owner) {
        owned[owner]
    } else {
        Seq::empty()
    }
}

/// Number of leading members whose id is below that of `source`.
pub open spec fn rank(members: Seq<Entity>, source: Entity) -> int
    decreases members.len(),
{
    if members.len() == 0 || members[0].id() >= source.id() {
        0
    } else {
        1 + rank(members.drop_first(), source)
    }
}

/// The member list with `source` in its place.
pub open spec fn with_member(members: Seq<Entity>, source: Entity) -> Seq<Entity> {
    if members.contains(source) {
        members
    } else {
        members.insert(rank(members, source), source)
    }
}

/// The member list without the first occurrence of `source`.
pub open spec fn without_member(members: Seq<Entity>, source: Entity) -> Seq<Entity>
    decreases members.len(),
{
    if members.len() == 0 {
        members
    } else if members[0] == source {
        members.drop_first()
    } else {
        seq![members[0]] + without_member(members.drop_first(), source)
    }
}

/// Strictly ascending sequences of keys.
pub open spec fn ascending(keys: Seq<u64>) -> bool {
    forall|i: int, j: int| 0 <= i < j < keys.len() ==> keys[i] < keys[j]
}

/// The keys below `bound` in ascending order.
pub open spec fn keys_below(keys: Set<u64>, bound: nat) -> Seq<u64>
    decreases bound,
{
    if bound == 0 {
        Seq::empty()
    } else {
        let rest = keys_below(keys, (bound - 1) as nat);
        let key = (bound - 1) as u64;
        if keys.contains(key) {
            rest.push(key)
        } else {
            rest
        }
    }
}

/// The keys of a set in ascending order.
pub open spec fn sorted_keys(keys: Set<u64>) -> Seq<u64> {
    keys_below(keys, (u64::MAX + 1) as nat)
}

proof fn lemma_keys_below(keys: Set<u64>, bound: nat)
    requires
        bound <= u64::MAX + 1,
    ensures
        ascending(keys_below(keys, bound)),
        forall|key: u64| #[trigger]
            keys_below(keys, bound).contains(key) <==> keys.contains(key) && key < bound,
    decreases bound,
{
    if bound > 0 {
        let rest = keys_below(keys, (bound - 1) as nat);
        lemma_keys_below(keys, (bound - 1) as nat);
        let last = (bound - 1) as u64;
        let all = keys_below(keys, bound);
        assert forall|i: int, j: int| 0 <= i < j < all.len() implies all[i] < all[j] by {
            assert(rest.contains(all[i]));
            if j < rest.len() {
                assert(rest[i] < rest[j]);
            }
        }
        assert forall|key: u64| #[trigger] all.contains(key) <==> keys.contains(key) && key
            < bound by {
            if rest.contains(key) {
                let i = choose|i: int| 0 <= i < rest.len() && rest[i] == key;
                assert(all[i] == key);
            }
            if all.contains(key) {
                let i = choose|i: int| 0 <= i < all.len() && all[i] == key;
                if i < rest.len() {
                    assert(rest[i] == key);
                    assert(rest.contains(key));
                }
            }
            if keys.contains(key) && key == last {
                assert(all[rest.len() as int] == key);
            }
        }
    }
}

/// The sorted listing of a set is ascending and lists exactly its elements.
pub proof fn lemma_sorted_keys_list(keys: Set<u64>)
    ensures
        ascending(sorted_keys(keys)),
        sorted_keys(keys).to_set() == keys,
{
    lemma_keys_below(keys, (u64::MAX + 1) as nat);
    assert(sorted_keys(keys).to_set() =~= keys);
}

/// Ascending sequences with the same elements are the same sequence.
pub proof fn lemma_ascending_unique(a: Seq<u64>, b: Seq<u64>)
    requires
        ascending(a),
        ascending(b),
        a.to_set() == b.to_set(),
    ensures
        a == b,
    decreases a.len(),
{
    if a.len() == 0 {
        if b.len() > 0 {
            assert(b.to_set().contains(b[0]));
            assert(a.to_set().contains(b[0]));
        }
        assert(a =~= b);
    } else {
        assert(a.to_set().contains(a.last()));
        assert(b.to_set().contains(a.last()));
        let i = choose|i: int| 0 <= i < b.len() && b[i] == a.last();
        assert(b.to_set().contains(b.last()));
        assert(a.to_set().contains(b.last()));
        let j = choose|j: int| 0 <= j < a.len() && a[j] == b.last();
        assert(a.last() == b.last());
        let a1 = a.drop_last();
        let b1 = b.drop_last();
        assert(a1.to_set() =~= b1.to_set()) by {
            assert forall|x: u64| a1.to_set().contains(x) <==> b1.to_set().contains(x) by {
                if a1.contains(x) {
                    let k = choose|k: int| 0 <= k < a1.len() && a1[k] == x;
                    assert(a[k] == x);
                    assert(a.to_set().contains(x));
                    assert(b.to_set().contains(x));
                    let l = choose|l: int| 0 <= l < b.len() && b[l] == x;
                    assert(b1[l] == x);
                }
                if b1.contains(x) {
                    let k = choose|k: int| 0 <= k < b1.len() && b1[k] == x;
                    assert(b[k] == x);
                    assert(b.to_set().contains(x));
                    assert(a.to_set().contains(x));
                    let l = choose|l: int| 0 <= l < a.len() && a[l] == x;
                    assert(a1[l] == x);
                }
            }
        }
        lemma_ascending_unique(a1, b1);
        assert(a =~= a1.push(a.last()));
        assert(b =~= b1.push(b.last()));
    }
}

/// A listing of a set in ascending order is its sorted listing.
pub proof fn lemma_sorted_keys(listing: Seq<u64>, keys: Set<u64>)
    requires
        ascending(listing),
        listing.to_set() == keys,
    ensures
        sorted_keys(keys) == listing,
{
    lemma_sorted_keys_list(keys);
    lemma_ascending_unique(sorted_keys(keys), listing);
}

impl<C: RelationshipTarget> WorldModel<C> {
    /// The world without anything in it.
    pub open spec fn nothing() -> Self {
        WorldModel {
            next_entity: 0,
            revision: 0,
            mutations: 0,
            stores: Map::empty(),
            singletons: Map::empty(),
            owned: Map::empty(),
            spawns: Map::empty(),
            cursors: Map::empty(),
            removed: Seq::empty(),
            pending: Seq::empty(),
            written: Seq::empty(),
            universe: None,
            log: Seq::empty(),
            epoch: 0,
            hooks: Seq::empty(),
            cells: Map::empty(),
            next_cell: 0,
        }
    }

    /// Every store holds values of its own component type, each with the
    /// fingerprint of the stored value.
    pub open spec fn consistent(self) -> bool {
        forall|kind: ComponentId, id: u64|
            #![trigger self.stores[kind].entries[id]]
            self.stores.contains_key(kind) && self.stores[kind].entries.contains_key(id) ==> {
                &&& C::kind(self.stores[kind].entries[id].value) == kind
                &&& C::stamp(self.stores[kind].entries[id].value)
                    == self.stores[kind].entries[id].fingerprint
            }
    }

    /// The cell that the next stored value gets.
    pub open spec fn fresh_cell(self) -> Option<u64> {
        if self.next_cell < u64::MAX {
            Some(self.next_cell)
        } else {
            None
        }
    }

    /// What a cell holds, if it held `seen` when it was looked at: what was last
    /// written into it in place.
    pub open spec fn cell_value(self, cell: Option<u64>, seen: C::Model) -> C::Model {
        match cell {
            Some(cell) => if self.cells.contains_key(cell) {
                self.cells[cell]
            } else {
                seen
            },
            None => seen,
        }
    }

    /// Every stored value has a cell of its own, which holds it.
    pub open spec fn cells_kept(self) -> bool {
        cells_fit(self.stores, self.cells, self.next_cell)
    }

    /// The entry of component `kind` on `entity`.
    pub open spec fn entry(self, kind: ComponentId, entity: Entity) -> Option<Entry<C>> {
        if self.stores.contains_key(kind) && self.stores[kind].entries.contains_key(entity.id()) {
            Some(self.stores[kind].entries[entity.id()])
        } else {
            None
        }
    }

    /// Whether `entity` carries a component of type `kind`.
    pub open spec fn has(self, kind: ComponentId, entity: Entity) -> bool {
        self.entry(kind, entity) is Some
    }

    /// The store of component `kind`; empty while nothing was stored.
    pub open spec fn column(self, kind: ComponentId) -> Column<C> {
        if self.stores.contains_key(kind) {
            self.stores[kind]
        } else {
            Column { entries: Map::empty(), watermark: 0 }
        }
    }

    /// The component types that have a store, ascending.
    pub open spec fn kinds(self) -> Seq<ComponentId> {
        sorted_keys(self.stores.dom())
    }

    /// Whether writing `value` on `entity` would repeat the stored fingerprint.
    pub open spec fn repeats(self, entity: Entity, value: C::Model) -> bool {
        match self.entry(C::kind(value), entity) {
            Some(old) => old.fingerprint is Some && old.fingerprint == C::stamp(value),
            None => false,
        }
    }

    /// Whether component `kind` may be registered on `entity`: its singleton
    /// key, if any, is free or already held by the same entity.
    pub open spec fn registrable(self, kind: ComponentId, entity: Entity) -> bool {
        match C::singleton(kind) {
            Some(key) => self.singletons.contains_key(key) ==> self.singletons[key] == entity.id(),
            None => true,
        }
    }

    /// The revision stamped on `value` when it is written on `entity`.
    pub open spec fn written_revision(self, entity: Entity, value: C::Model) -> u64 {
        let kind = C::kind(value);
        if !C::tracks(kind) {
            self.revision
        } else if self.repeats(entity, value) {
            self.entry(kind, entity)->0.revision
        } else {
            next(self.revision)
        }
    }

    /// The ownership index after `cell` passes to `owner`.
    pub open spec fn reowned(
        self,
        kind: ComponentId,
        entity: Entity,
        origin: Origin,
        owner: Option<Invocation>,
    ) -> Map<Invocation, Seq<Cell>> {
        let previous = match self.entry(kind, entity) {
            Some(old) => old.owner,
            None => None,
        };
        let released = match previous {
            Some(previous) => if owner != Some(previous) {
                unindex_cell(self.owned, previous, (kind, entity))
            } else {
                self.owned
            },
            None => self.owned,
        };
        match owner {
            Some(owner) => if origin == Origin::Derived {
                index_cell(released, owner, (kind, entity))
            } else {
                released
            },
            None => released,
        }
    }

    /// Writes `value` on `entity`, leaving relationships and hooks aside.
    pub open spec fn put(
        self,
        entity: Entity,
        value: C::Model,
        origin: Origin,
        owner: Option<Invocation>,
    ) -> Self {
        let kind = C::kind(value);
        let kept = self.repeats(entity, value);
        let stamped = self.written_revision(entity, value);
        let column = self.column(kind);
        WorldModel {
            revision: if C::tracks(kind) && !kept {
                next(self.revision)
            } else {
                self.revision
            },
            mutations: if kept {
                self.mutations
            } else {
                next(self.mutations)
            },
            stores: self.stores.insert(
                kind,
                Column {
                    entries: column.entries.insert(
                        entity.id(),
                        Entry {
                            value,
                            revision: stamped,
                            fingerprint: C::stamp(value),
                            origin,
                            owner,
                            cell: self.fresh_cell(),
                        },
                    ),
                    watermark: later(column.watermark, stamped),
                },
            ),
            singletons: match C::singleton(kind) {
                Some(key) => self.singletons.insert(key, entity.id()),
                None => self.singletons,
            },
            owned: self.reowned(kind, entity, origin, owner),
            written: if origin == Origin::Derived {
                self.written.push((kind, entity))
            } else {
                self.written
            },
            log: self.log.push((kind, entity)),
            next_cell: next(self.next_cell),
            ..self
        }
    }

    /// Makes a hook run due.
    pub open spec fn due(self, hook: Hook, kind: ComponentId, entity: Entity) -> Self {
        WorldModel { hooks: self.hooks.push(HookRun { hook, kind, entity }), ..self }
    }

    /// Writes a value that is neither an edge nor deferred.
    pub open spec fn insert_flat(
        self,
        entity: Entity,
        value: C::Model,
        origin: Origin,
        owner: Option<Invocation>,
    ) -> Self {
        self.put(entity, value, origin, owner).due(Hook::Insert, C::kind(value), entity)
    }

    /// The sources listed by inverse `inverse` on `target`.
    pub open spec fn members(self, inverse: ComponentId, target: Entity) -> Seq<Entity> {
        match self.entry(inverse, target) {
            Some(entry) => C::sources(entry.value),
            None => Seq::empty(),
        }
    }

    /// Adds `source` to inverse `inverse` on `target`. The inverse is a base
    /// fact without an owner.
    pub open spec fn add_member(
        self,
        inverse: ComponentId,
        source: Entity,
        target: Entity,
    ) -> Self {
        let members = self.members(inverse, target);
        if members.contains(source) {
            self
        } else {
            self.insert_flat(
                target,
                C::inverse_fact(inverse, with_member(members, source)),
                Origin::Base,
                None,
            )
        }
    }

    /// Removes `source` from inverse `inverse` on `target`; an emptied inverse
    /// is removed outright.
    pub open spec fn remove_member(
        self,
        inverse: ComponentId,
        source: Entity,
        target: Entity,
    ) -> Self {
        let members = self.members(inverse, target);
        if !members.contains(source) {
            self
        } else {
            let rest = without_member(members, source);
            if rest.len() == 0 {
                self.remove_flat(inverse, target)
            } else {
                self.insert_flat(target, C::inverse_fact(inverse, rest), Origin::Base, None)
            }
        }
    }

    /// Drops the entry of `kind` on `entity` from its store.
    pub open spec fn drop_entry(self, kind: ComponentId, entity: Entity) -> Self {
        let column = self.column(kind);
        let revision = if C::tracks(kind) {
            next(self.revision)
        } else {
            self.revision
        };
        WorldModel {
            revision,
            mutations: next(self.mutations),
            stores: self.stores.insert(
                kind,
                Column {
                    entries: column.entries.remove(entity.id()),
                    watermark: if C::tracks(kind) {
                        later(column.watermark, revision)
                    } else {
                        column.watermark
                    },
                },
            ),
            log: self.log.push((kind, entity)),
            ..self
        }
    }

    /// The ownership index without the outputs that the entry of `kind` on
    /// `entity` stands for.
    pub open spec fn disowned(self, kind: ComponentId, entity: Entity) -> Map<
        Invocation,
        Seq<Cell>,
    > {
        match self.entry(kind, entity) {
            Some(entry) => match entry.owner {
                Some(owner) => unindex_cell(self.owned, owner, (kind, entity)),
                None => self.owned,
            },
            None => self.owned,
        }
    }

    /// The singleton index without the registration of `kind` on `entity`.
    pub open spec fn unregistered(self, kind: ComponentId, entity: Entity) -> Map<
        ComponentId,
        u64,
    > {
        match C::singleton(kind) {
            Some(key) => if self.singletons.contains_key(key) && self.singletons[key]
                == entity.id() {
                self.singletons.remove(key)
            } else {
                self.singletons
            },
            None => self.singletons,
        }
    }

    /// Removes a component that is no edge.
    pub open spec fn remove_flat(self, kind: ComponentId, entity: Entity) -> Self {
        if !self.has(kind, entity) {
            self
        } else {
            WorldModel {
                owned: self.disowned(kind, entity),
                singletons: self.unregistered(kind, entity),
                ..self.drop_entry(kind, entity).due(Hook::Remove, kind, entity)
            }
        }
    }

    /// The edge carried by the entry of `kind` on `entity`.
    pub open spec fn edge_at(self, kind: ComponentId, entity: Entity) -> Option<
        RelationshipEdge,
    > {
        match self.entry(kind, entity) {
            Some(entry) => C::edge(entry.value),
            None => None,
        }
    }

    /// Retracts `source` from the inverse that `edge` maintains.
    pub open spec fn retract_edge(self, source: Entity, edge: Option<RelationshipEdge>) -> Self {
        match edge {
            Some(edge) => self.remove_member(edge.inverse, source, edge.target),
            None => self,
        }
    }

    /// Removes one component and retracts the edge it carried.
    pub open spec fn remove_component(self, kind: ComponentId, entity: Entity) -> Self {
        self.remove_flat(kind, entity).retract_edge(entity, self.edge_at(kind, entity))
    }

    /// Whether one edge points elsewhere than another.
    pub open spec fn retargets(
        before: Option<RelationshipEdge>,
        after: Option<RelationshipEdge>,
    ) -> bool {
        match (before, after) {
            (Some(before), Some(after)) => before != after,
            (None, None) => false,
            _ => true,
        }
    }

    /// Keeps inverses current when an edge component changes on `entity`. An
    /// unchanged target touches nothing.
    pub open spec fn relink(
        self,
        entity: Entity,
        before: Option<RelationshipEdge>,
        after: Option<RelationshipEdge>,
    ) -> Self {
        if !Self::retargets(before, after) {
            self
        } else {
            let retracted = self.retract_edge(entity, before);
            match after {
                Some(edge) => retracted.add_member(edge.inverse, entity, edge.target),
                None => retracted,
            }
        }
    }

    /// Inserts a component that is not deferred.
    pub open spec fn insert_now(
        self,
        entity: Entity,
        value: C::Model,
        origin: Origin,
        owner: Option<Invocation>,
    ) -> Self {
        let kind = C::kind(value);
        self.put(entity, value, origin, owner).relink(
            entity,
            self.edge_at(kind, entity),
            C::edge(value),
        ).due(Hook::Insert, kind, entity)
    }

    /// Whether inserting `value` on `entity` is refused: its singleton key is
    /// held by another entity. A deferred insert is refused only later.
    pub open spec fn refuses(self, entity: Entity, value: C::Model) -> bool {
        C::anchored(value) is None && !self.registrable(C::kind(value), entity)
    }

    /// What inserting `value` on `entity` reports: the singleton conflict when
    /// the insert is refused.
    pub open spec fn verdict(self, entity: Entity, value: C::Model) -> Result<
        (),
        SingletonConflict,
    > {
        if self.refuses(entity, value) {
            let kind = C::kind(value);
            Err(
                SingletonConflict {
                    component: kind,
                    existing: Entity::of(self.singletons[C::singleton(kind)->0]),
                },
            )
        } else {
            Ok(())
        }
    }

    /// Inserts a component. A derived-from marker waits for the end of the
    /// command buffer, so that its anchors are resolved against the fully
    /// written world.
    pub open spec fn insert(
        self,
        entity: Entity,
        value: C::Model,
        origin: Origin,
        owner: Option<Invocation>,
    ) -> Self {
        match C::anchored(value) {
            Some(anchors) => WorldModel {
                pending: self.pending.push(PendingAnchor { entity, anchors, origin, owner }),
                ..self
            },
            None => if self.refuses(entity, value) {
                self
            } else {
                self.insert_now(entity, value, origin, owner)
            },
        }
    }

    /// The newest revision of a tracked component among `kinds` on `entity`.
    pub open spec fn newest(self, kinds: Seq<ComponentId>, entity: Entity) -> Option<u64>
        decreases kinds.len(),
    {
        if kinds.len() == 0 {
            None
        } else {
            let rest = self.newest(kinds.drop_last(), entity);
            match self.entry(kinds.last(), entity) {
                Some(entry) => if C::tracks(kinds.last()) {
                    match rest {
                        Some(revision) => Some(later(revision, entry.revision)),
                        None => Some(entry.revision),
                    }
                } else {
                    rest
                },
                None => rest,
            }
        }
    }

    /// The newest revision of a tracked component on `entity`.
    pub open spec fn entity_revision(self, entity: Entity) -> Option<u64> {
        self.newest(self.kinds(), entity)
    }

    /// The current revision of every anchored entity.
    pub open spec fn anchor_revisions(self, anchors: Seq<DerivedAnchor>) -> Seq<Option<u64>> {
        Seq::new(anchors.len(), |i: int| self.entity_revision(anchors[i].entity))
    }

    /// Applies the first `n` deferred derived-from inserts of `pending`.
    pub open spec fn flush_each(self, pending: Seq<PendingAnchor>) -> Self
        decreases pending.len(),
    {
        if pending.len() == 0 {
            self
        } else {
            let done = self.flush_each(pending.drop_last());
            let p = pending.last();
            done.insert_now(
                p.entity,
                C::anchor_fact(captured(p.anchors, done.anchor_revisions(p.anchors))),
                p.origin,
                p.owner,
            )
        }
    }

    /// Applies the deferred derived-from inserts.
    pub open spec fn flush(self) -> Self {
        (WorldModel { pending: Seq::<PendingAnchor>::empty(), ..self }).flush_each(self.pending)
    }

    /// The edges carried by `entity` in `kinds`, in that order.
    pub open spec fn edges_on(self, kinds: Seq<ComponentId>, entity: Entity) -> Seq<
        RelationshipEdge,
    >
        decreases kinds.len(),
    {
        if kinds.len() == 0 {
            Seq::empty()
        } else {
            let rest = self.edges_on(kinds.drop_last(), entity);
            match self.edge_at(kinds.last(), entity) {
                Some(edge) => rest.push(edge),
                None => rest,
            }
        }
    }

    /// The retractions implied by `entity` in `kinds`, in that order.
    pub open spec fn retractions_on(self, kinds: Seq<ComponentId>, entity: Entity) -> Seq<
        RelationshipRetraction,
    >
        decreases kinds.len(),
    {
        if kinds.len() == 0 {
            Seq::empty()
        } else {
            let rest = self.retractions_on(kinds.drop_last(), entity);
            match self.entry(kinds.last(), entity) {
                Some(entry) => rest + C::retracts(entry.value),
                None => rest,
            }
        }
    }

    /// The owners of the components of `entity` in `kinds`, in that order.
    pub open spec fn owners_on(self, kinds: Seq<ComponentId>, entity: Entity) -> Seq<Invocation>
        decreases kinds.len(),
    {
        if kinds.len() == 0 {
            Seq::empty()
        } else {
            let rest = self.owners_on(kinds.drop_last(), entity);
            match self.entry(kinds.last(), entity) {
                Some(entry) => match entry.owner {
                    Some(owner) => rest.push(owner),
                    None => rest,
                },
                None => rest,
            }
        }
    }

    /// Drops one component of an entity that is removed as a whole.
    pub open spec fn drop_row(self, kind: ComponentId, entity: Entity) -> Self {
        if !self.has(kind, entity) {
            self
        } else {
            WorldModel {
                owned: self.disowned(kind, entity),
                ..self.drop_entry(kind, entity).due(Hook::EntityRemove, kind, entity).due(
                    Hook::Remove,
                    kind,
                    entity,
                )
            }
        }
    }

    /// Drops the components of `entity` in `kinds`, in that order.
    pub open spec fn drop_rows(self, kinds: Seq<ComponentId>, entity: Entity) -> Self
        decreases kinds.len(),
    {
        if kinds.len() == 0 {
            self
        } else {
            self.drop_rows(kinds.drop_last(), entity).drop_row(kinds.last(), entity)
        }
    }

    /// Forgets `entity` in the singleton index and notes its removal.
    pub open spec fn forget(self, entity: Entity) -> Self {
        WorldModel {
            singletons: self.singletons.restrict(
                Set::new(|key: ComponentId| self.singletons[key] != entity.id()),
            ),
            removed: self.removed.push(entity),
            ..self
        }
    }

    /// Retracts `source` from the inverses that `edges` maintain.
    pub open spec fn retract_edges(self, source: Entity, edges: Seq<RelationshipEdge>) -> Self
        decreases edges.len(),
    {
        if edges.len() == 0 {
            self
        } else {
            self.retract_edges(source, edges.drop_last()).retract_edge(source, Some(edges.last()))
        }
    }

    /// Removes the edge components that `retractions` name.
    pub open spec fn retract_sources(self, retractions: Seq<RelationshipRetraction>) -> Self
        decreases retractions.len(),
    {
        if retractions.len() == 0 {
            self
        } else {
            self.retract_sources(retractions.drop_last()).remove_component(
                retractions.last().edge,
                retractions.last().source,
            )
        }
    }

    /// Removes every component of `entity`; its edges leave their targets'
    /// inverses, and the edges that pointed at it are removed.
    pub open spec fn remove_entity(self, entity: Entity) -> Self {
        self.drop_rows(self.kinds(), entity).forget(entity).retract_edges(
            entity,
            self.edges_on(self.kinds(), entity),
        ).retract_sources(self.retractions_on(self.kinds(), entity))
    }

    /// Whether `owner` still owns the derived component in `cell`.
    pub open spec fn owns(self, owner: Invocation, cell: Cell) -> bool {
        match self.entry(cell.0, cell.1) {
            Some(entry) => entry.origin == Origin::Derived && entry.owner == Some(owner),
            None => false,
        }
    }

    /// Removes one derived component if `owner` still owns it.
    pub open spec fn remove_owned(self, owner: Invocation, cell: Cell) -> Self {
        if !self.owns(owner, cell) {
            self
        } else {
            self.drop_entry(cell.0, cell.1).due(Hook::Remove, cell.0, cell.1).retract_edge(
                cell.1,
                self.edge_at(cell.0, cell.1),
            )
        }
    }

    /// Removes the derived components in `cells` that `owner` still owns.
    pub open spec fn remove_each_owned(self, owner: Invocation, cells: Seq<Cell>) -> Self
        decreases cells.len(),
    {
        if cells.len() == 0 {
            self
        } else {
            self.remove_each_owned(owner, cells.drop_last()).remove_owned(owner, cells.last())
        }
    }

    /// Removes everything `owner` derived and forgets its spawn slots.
    pub open spec fn remove_derived_owned(self, owner: Invocation) -> Self {
        (WorldModel {
            spawns: self.spawns.remove(owner),
            owned: self.owned.remove(owner),
            ..self
        }).remove_each_owned(owner, outputs(self.owned, owner))
    }

    /// Removes the outputs in `previous` that `owner` did not emit again.
    pub open spec fn remove_stale(self, owner: Invocation, previous: Seq<Cell>) -> Self
        decreases previous.len(),
    {
        if previous.len() == 0 {
            self
        } else {
            let done = self.remove_stale(owner, previous.drop_last());
            if outputs(done.owned, owner).contains(previous.last()) {
                done
            } else {
                done.remove_owned(owner, previous.last())
            }
        }
    }

    /// Removes what each of `owners` derived, one after the other.
    pub open spec fn remove_derived_of(self, owners: Seq<Invocation>) -> Self
        decreases owners.len(),
    {
        if owners.len() == 0 {
            self
        } else {
            self.remove_derived_of(owners.drop_last()).remove_derived_owned(owners.last())
        }
    }

    /// Records a spawn of `owner` in its next slot.
    pub open spec fn record_spawn(self, owner: Invocation, entity: Entity) -> Self {
        let cursor = self.cursor(owner);
        let slots = self.slots(owner);
        WorldModel {
            cursors: self.cursors.insert(
                owner,
                if cursor == usize::MAX {
                    cursor
                } else {
                    (cursor + 1) as usize
                },
            ),
            spawns: self.spawns.insert(
                owner,
                if cursor < slots.len() {
                    slots.update(cursor as int, entity)
                } else {
                    slots.push(entity)
                },
            ),
            ..self
        }
    }

    /// How many spawns of `owner` the current commit has recorded.
    pub open spec fn cursor(self, owner: Invocation) -> usize {
        if self.cursors.contains_key(owner) {
            self.cursors[owner]
        } else {
            0
        }
    }

    /// The spawn slots of `owner`, in spawn order.
    pub open spec fn slots(self, owner: Invocation) -> Seq<Entity> {
        if self.spawns.contains_key(owner) {
            self.spawns[owner]
        } else {
            Seq::empty()
        }
    }

    /// Ends the spawn phase of a commit: unused trailing slots are dropped.
    pub open spec fn finish_spawns(self, owner: Invocation) -> Self {
        let cursor = self.cursor(owner);
        let slots = self.slots(owner);
        let kept = if cursor < slots.len() {
            slots.take(cursor as int)
        } else {
            slots
        };
        WorldModel {
            cursors: self.cursors.remove(owner),
            spawns: if kept.len() == 0 {
                self.spawns.remove(owner)
            } else {
                self.spawns.insert(owner, kept)
            },
            ..self
        }
    }

    /// Whether replacing the entry of `kind` on `entity` by a value in place
    /// counts as a change: the type is tracked and the fingerprint was absent
    /// or differs.
    pub open spec fn changes(self, entity: Entity, value: C::Model) -> bool {
        let kind = C::kind(value);
        match self.entry(kind, entity) {
            Some(entry) => C::tracks(kind) && (entry.fingerprint is None || entry.fingerprint
                != C::stamp(value)),
            None => false,
        }
    }

    /// Replaces a stored value in place: everything that shares its cell reads the
    /// new one. Ownership and origin are untouched, and so are inverses.
    pub open spec fn rewrite(self, entity: Entity, value: C::Model) -> Self {
        let kind = C::kind(value);
        match self.entry(kind, entity) {
            None => self,
            Some(entry) => {
                let changed = self.changes(entity, value);
                let revision = if changed {
                    next(self.revision)
                } else {
                    self.revision
                };
                WorldModel {
                    revision,
                    stores: self.stores.insert(
                        kind,
                        Column {
                            entries: self.stores[kind].entries.insert(
                                entity.id(),
                                Entry {
                                    value,
                                    fingerprint: C::stamp(value),
                                    revision: if changed {
                                        revision
                                    } else {
                                        entry.revision
                                    },
                                    ..entry
                                },
                            ),
                            watermark: if changed {
                                later(self.stores[kind].watermark, revision)
                            } else {
                                self.stores[kind].watermark
                            },
                        },
                    ),
                    cells: match entry.cell {
                        Some(cell) => self.cells.insert(cell, value),
                        None => self.cells,
                    },
                    ..self
                }
            },
        }
    }

    /// Moves the value of `kind` on `entity` into a cell of its own, which no
    /// snapshot shares.
    pub open spec fn unshared(self, kind: ComponentId, entity: Entity) -> Self {
        match self.entry(kind, entity) {
            None => self,
            Some(entry) => WorldModel {
                stores: self.stores.insert(
                    kind,
                    Column {
                        entries: self.stores[kind].entries.insert(
                            entity.id(),
                            Entry { cell: self.fresh_cell(), ..entry },
                        ),
                        ..self.stores[kind]
                    },
                ),
                next_cell: next(self.next_cell),
                ..self
            },
        }
    }

    /// Whether replacing the entry of `kind` on `entity` by a value in place moves
    /// the world: the value changed, or its edge points elsewhere.
    pub open spec fn moves(self, entity: Entity, value: C::Model) -> bool {
        let kind = C::kind(value);
        self.has(kind, entity) && (self.changes(entity, value) || Self::retargets(
            self.edge_at(kind, entity),
            C::edge(value),
        ))
    }

    /// Replaces a stored value from outside, without regard to inverses; the write
    /// log sees changes only.
    pub open spec fn update_flat(self, entity: Entity, value: C::Model) -> Self {
        let after = self.rewrite(entity, value);
        if self.changes(entity, value) {
            WorldModel { log: after.log.push((C::kind(value), entity)), ..after }
        } else {
            after
        }
    }

    /// Replaces a stored value from outside. An edge that points elsewhere now
    /// leaves the inverse of its old target and joins that of the new one.
    pub open spec fn update(self, entity: Entity, value: C::Model) -> Self {
        let kind = C::kind(value);
        if self.has(kind, entity) {
            self.update_flat(entity, value).relink(
                entity,
                self.edge_at(kind, entity),
                C::edge(value),
            )
        } else {
            self
        }
    }

    /// Replaces a stored value from outside by a changed copy: snapshots keep the
    /// value that they saw.
    pub open spec fn update_copied(self, entity: Entity, value: C::Model) -> Self {
        self.unshared(C::kind(value), entity).update(entity, value)
    }

    /// Reconciles one row that a finished invocation mutated in place, without
    /// regard to inverses; the write log sees every row whose store exists.
    pub open spec fn reconcile_flat(self, entity: Entity, value: C::Model) -> Self {
        let kind = C::kind(value);
        if !self.stores.contains_key(kind) {
            self
        } else {
            let after = self.rewrite(entity, value);
            WorldModel { log: after.log.push((kind, entity)), ..after }
        }
    }

    /// Reconciles one row that a finished invocation mutated in place. An edge
    /// that points elsewhere now leaves the inverse of its old target and joins
    /// that of the new one.
    pub open spec fn reconcile(self, entity: Entity, value: C::Model) -> Self {
        let kind = C::kind(value);
        let after = self.reconcile_flat(entity, value);
        if self.has(kind, entity) {
            after.relink(entity, self.edge_at(kind, entity), C::edge(value))
        } else {
            after
        }
    }

    /// Reconciles the rows in `writes`, in that order.
    pub open spec fn reconcile_each(self, writes: Seq<(Entity, C::Model)>) -> Self
        decreases writes.len(),
    {
        if writes.len() == 0 {
            self
        } else {
            self.reconcile_each(writes.drop_last()).reconcile(writes.last().0, writes.last().1)
        }
    }

    /// The structural part that a snapshot keeps; commit bookkeeping is left
    /// out.
    pub open spec fn snapshot(self) -> Self {
        WorldModel {
            owned: Map::empty(),
            cursors: Map::empty(),
            removed: Seq::empty(),
            pending: Seq::empty(),
            written: Seq::empty(),
            log: Seq::empty(),
            hooks: Seq::empty(),
            cells: Map::empty(),
            ..self
        }
    }
}

/// Whether stored values and cells fit: every value has a cell of its own, which
/// holds it, and whose number was given out.
pub open spec fn cells_fit<C: Component>(
    stores: Map<ComponentId, Column<C>>,
    cells: Map<u64, C::Model>,
    next_cell: u64,
) -> bool {
    &&& forall|kind: ComponentId, id: u64|
        #![trigger stores[kind].entries[id]]
        stores.contains_key(kind) && stores[kind].entries.contains_key(id) ==> (
        stores[kind].entries[id].cell matches Some(cell) ==> {
            &&& cell < next_cell
            &&& cells.contains_key(cell) ==> cells[cell] == stores[kind].entries[id].value
        })
    &&& forall|kind: ComponentId, id: u64, other: ComponentId, other_id: u64|
        #![trigger stores[kind].entries[id], stores[other].entries[other_id]]
        stores.contains_key(kind) && stores[kind].entries.contains_key(id) && stores.contains_key(
            other,
        ) && stores[other].entries.contains_key(other_id) && stores[kind].entries[id].cell is Some
            && stores[kind].entries[id].cell == stores[other].entries[other_id].cell ==> kind
            == other && id == other_id
    &&& forall|cell: u64| #[trigger] cells.contains_key(cell) ==> cell < next_cell
}

/// Storing a value in a new cell keeps cells apart.
pub proof fn lemma_put_keeps_cells<C: RelationshipTarget>(
    world: WorldModel<C>,
    entity: Entity,
    value: C::Model,
    origin: Origin,
    owner: Option<Invocation>,
)
    requires
        world.cells_kept(),
    ensures
        world.put(entity, value, origin, owner).cells_kept(),
{
}

/// Dropping a value keeps cells apart.
pub proof fn lemma_drop_entry_keeps_cells<C: RelationshipTarget>(
    world: WorldModel<C>,
    kind: ComponentId,
    entity: Entity,
)
    requires
        world.cells_kept(),
    ensures
        world.drop_entry(kind, entity).cells_kept(),
{
}

/// Writing in place keeps cells apart.
pub proof fn lemma_rewrite_keeps_cells<C: RelationshipTarget>(
    world: WorldModel<C>,
    entity: Entity,
    value: C::Model,
)
    requires
        world.cells_kept(),
    ensures
        world.rewrite(entity, value).cells_kept(),
{
}

/// Moving a value into a new cell keeps cells apart.
pub proof fn lemma_unshared_keeps_cells<C: RelationshipTarget>(
    world: WorldModel<C>,
    kind: ComponentId,
    entity: Entity,
)
    requires
        world.cells_kept(),
    ensures
        world.unshared(kind, entity).cells_kept(),
{
}

} // verus!
