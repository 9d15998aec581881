//! Component storage for the live world and structural snapshots.

use crate::component::{
    Component, ComponentHookContext, ComponentId, DerivedFrom, RelationshipEdge,
    RelationshipRetraction, RelationshipTarget,
};
use crate::entity::Entity;
use crate::invocation::{
    copy_entities, copy_owner, owner_view, position_of, Invocation, InvocationMap, SystemInvocation,
};
use crate::keys::map_keys;
use crate::model::{
    ascending, lemma_drop_entry_keeps_cells, lemma_put_keeps_cells, lemma_rewrite_keeps_cells,
    lemma_unshared_keeps_cells, next, outputs, rank, sorted_keys, with_cell, with_member, without_cell,
    without_member, Cell, Column, Hook, HookRun, Origin, PendingAnchor, WorldModel,
    SingletonConflict,
};
use crate::presence::PresenceIndex;
use crate::store::{stamped_with, ComponentEntry, Store};
use std::collections::BTreeMap;
use std::sync::Arc;
use vstd::prelude::*;

verus! {

/// A derived-from insert deferred until its command buffer has fully applied.
pub struct PendingDerivedFrom {
    entity: Entity,
    derived: DerivedFrom,
    origin: Origin,
    owner: Option<SystemInvocation>,
}

impl View for PendingDerivedFrom {
    type V = PendingAnchor;

    closed spec fn view(&self) -> PendingAnchor {
        PendingAnchor {
            entity: self.entity,
            anchors: self.derived@,
            origin: self.origin,
            owner: owner_view(self.owner),
        }
    }
}

/// Component storage.
pub struct World<C> {
    next_entity: u64,
    revision: u64,
    mutations: u64,
    stores: BTreeMap<ComponentId, Store<C>>,
    singleton_entities: BTreeMap<ComponentId, u64>,
    derived_owners: InvocationMap<Vec<Cell>>,
    derived_spawns: InvocationMap<Vec<Entity>>,
    spawn_cursors: InvocationMap<usize>,
    removed_entities: Vec<Entity>,
    pending_derived_from: Vec<PendingDerivedFrom>,
    written_derived: Vec<Cell>,
    presence: Option<PresenceIndex>,
    write_log: Vec<Cell>,
    plan_epoch: u64,
    hooks: Vec<HookRun>,
    cells: BTreeMap<u64, Arc<C>>,
    next_cell: u64,
}

/// Structural read source for one generation.
pub type Snapshot<C> = World<C>;

/// How large the write log may grow before the plan epoch rolls.
pub const WRITE_LOG_BUDGET: usize = 4096;

impl<C: RelationshipTarget> View for World<C> {
    type V = WorldModel<C>;

    closed spec fn view(&self) -> WorldModel<C> {
        WorldModel {
            next_entity: self.next_entity,
            revision: self.revision,
            mutations: self.mutations,
            stores: Map::new(
                |kind: ComponentId| self.stores@.contains_key(kind),
                |kind: ComponentId| self.stores@[kind]@,
            ),
            singletons: self.singleton_entities@,
            owned: self.derived_owners@,
            spawns: self.derived_spawns@,
            cursors: self.spawn_cursors@,
            removed: self.removed_entities@,
            pending: self.pending_derived_from@.map_values(|p: PendingDerivedFrom| p@),
            written: self.written_derived@,
            universe: match self.presence {
                Some(presence) => Some(presence.universe()),
                None => None,
            },
            log: self.write_log@,
            epoch: self.plan_epoch,
            hooks: self.hooks@,
            cells: Map::new(
                |cell: u64| self.cells@.contains_key(cell),
                |cell: u64| self.cells@[cell].model(),
            ),
            next_cell: self.next_cell,
        }
    }
}

pub(crate) fn find_cell(cells: &Vec<Cell>, cell: Cell) -> (at: Option<usize>)
    ensures
        match at {
            Some(i) => i < cells@.len() && cells@[i as int] == cell,
            None => !cells@.contains(cell),
        },
{
    let mut i: usize = 0;
    while i < cells.len()
        invariant
            i <= cells@.len(),
            forall|j: int| 0 <= j < i ==> cells@[j] != cell,
        decreases cells@.len() - i,
    {
        if cells[i].0 == cell.0 && cells[i].1.raw() == cell.1.raw() {
            assert(cells@[i as int] == cell) by {
                crate::entity::lemma_entity_is_its_id(cells@[i as int].1, cell.1);
            }
            return Some(i);
        }
        i = i + 1;
    }
    None
}

/// Copies a list of cells.
pub fn copy_cells(cells: &Vec<Cell>) -> (copy: Vec<Cell>)
    ensures
        copy@ == cells@,
{
    let mut copy: Vec<Cell> = Vec::new();
    let mut i: usize = 0;
    while i < cells.len()
        invariant
            i <= cells@.len(),
            copy@ =~= cells@.take(i as int),
        decreases cells@.len() - i,
    {
        copy.push(cells[i]);
        i = i + 1;
    }
    assert(cells@.take(cells@.len() as int) =~= cells@);
    copy
}

fn bump(counter: u64) -> (after: u64)
    ensures
        after == next(counter),
{
    if counter == u64::MAX {
        counter
    } else {
        counter + 1
    }
}

fn edge_retargets<C: RelationshipTarget>(
    before: Option<RelationshipEdge>,
    after: Option<RelationshipEdge>,
) -> (retargets: bool)
    ensures
        retargets == WorldModel::<C>::retargets(before, after),
{
    proof {
        if let (Some(x), Some(y)) = (before, after) {
            if x.target.id() == y.target.id() {
                crate::entity::lemma_entity_is_its_id(x.target, y.target);
            }
        }
    }
    match (before, after) {
        (Some(before), Some(after)) => before.inverse != after.inverse || !before.target.same(
            after.target,
        ),
        (None, None) => false,
        _ => true,
    }
}

impl<C: RelationshipTarget> World<C> {
    /// Every store's index is exact.
    pub closed spec fn stores_wf(&self) -> bool {
        forall|kind: ComponentId| #[trigger]
            self.stores@.contains_key(kind) ==> self.stores@[kind].wf()
    }

    /// The bookkeeping maps are well formed and list no output twice.
    pub closed spec fn owners_wf(&self) -> bool {
        &&& self.derived_owners.wf()
        &&& self.derived_spawns.wf()
        &&& self.spawn_cursors.wf()
        &&& forall|owner: Invocation| #[trigger]
            self.derived_owners@.contains_key(owner)
                ==> self.derived_owners@[owner].no_duplicates()
    }

    /// The presence bits mirror the stores within the universe.
    pub closed spec fn presence_wf(&self) -> bool {
        match self.presence {
            Some(presence) => {
                &&& presence.wf()
                &&& forall|kind: ComponentId, entity: Entity| #[trigger]
                    presence.has(kind, entity) <==> (presence.universe().contains(kind)
                        && self@.has(kind, entity))
            },
            None => true,
        }
    }

    /// Every index of the world agrees with its stores.
    pub open spec fn wf(&self) -> bool {
        &&& self.stores_wf()
        &&& self.owners_wf()
        &&& self.presence_wf()
        &&& self@.consistent()
        &&& self@.cells_kept()
    }

    /// Creates an empty world.
    pub fn new() -> (world: Self)
        ensures
            world.wf(),
            world@ == WorldModel::<C>::nothing(),
    {
        let world = World {
            next_entity: 0,
            revision: 0,
            mutations: 0,
            stores: BTreeMap::new(),
            singleton_entities: BTreeMap::new(),
            derived_owners: InvocationMap::new(),
            derived_spawns: InvocationMap::new(),
            spawn_cursors: InvocationMap::new(),
            removed_entities: Vec::new(),
            pending_derived_from: Vec::new(),
            written_derived: Vec::new(),
            presence: None,
            write_log: Vec::new(),
            plan_epoch: 0,
            hooks: Vec::new(),
            cells: BTreeMap::new(),
            next_cell: 0,
        };
        assert(world@.cells =~= Map::<u64, C::Model>::empty());
        assert(world@.stores =~= Map::<ComponentId, Column<C>>::empty());
        assert(world@.pending =~= Seq::<PendingAnchor>::empty());
        world
    }

    fn unindex_derived(&mut self, owner: &SystemInvocation, kind: ComponentId, entity: Entity)
        requires
            old(self).stores_wf(),
            old(self).owners_wf(),
        ensures
            final(self).stores_wf(),
            final(self).owners_wf(),
            old(self).presence_wf() ==> final(self).presence_wf(),
            final(self)@ == (WorldModel {
                owned: crate::model::unindex_cell(old(self)@.owned, owner@, (kind, entity)),
                ..old(self)@
            }),
    {
        if let Some(mut outputs) = self.derived_owners.remove(owner) {
            let ghost before = outputs@;
            if let Some(at) = find_cell(&outputs, (kind, entity)) {
                outputs.remove(at);
                proof {
                    assert(before.contains((kind, entity)));
                    assert(before.index_of((kind, entity)) == at);
                }
            }
            assert(outputs@ == without_cell(before, (kind, entity)));
            if outputs.len() > 0 {
                self.derived_owners.insert(owner.duplicate(), outputs);
            }
            assert(self@.owned =~= crate::model::unindex_cell(
                old(self)@.owned,
                owner@,
                (kind, entity),
            ));
        }
        assert(self@.stores == old(self)@.stores);
    }

    fn index_derived(&mut self, owner: SystemInvocation, kind: ComponentId, entity: Entity)
        requires
            old(self).stores_wf(),
            old(self).owners_wf(),
        ensures
            final(self).stores_wf(),
            final(self).owners_wf(),
            old(self).presence_wf() ==> final(self).presence_wf(),
            final(self)@ == (WorldModel {
                owned: crate::model::index_cell(old(self)@.owned, owner@, (kind, entity)),
                ..old(self)@
            }),
    {
        let mut outputs = match self.derived_owners.remove(&owner) {
            Some(outputs) => outputs,
            None => Vec::new(),
        };
        let ghost before = outputs@;
        assert(before == crate::model::outputs(old(self)@.owned, owner@));
        assert(before.no_duplicates());
        if find_cell(&outputs, (kind, entity)).is_none() {
            outputs.push((kind, entity));
        }
        assert(outputs@ == with_cell(before, (kind, entity)));
        self.derived_owners.insert(owner, outputs);
        assert(self@.owned =~= crate::model::index_cell(
            old(self)@.owned,
            owner@,
            (kind, entity),
        ));
        assert(self@.stores == old(self)@.stores);
    }
}

impl<C: RelationshipTarget> World<C> {
    fn presence_set(&mut self, kind: ComponentId, entity: Entity, present: bool)
        requires
            old(self).presence matches Some(presence) ==> presence.wf(),
        ensures
            final(self)@ == old(self)@,
            final(self).stores == old(self).stores,
            final(self).derived_owners == old(self).derived_owners,
            final(self).derived_spawns == old(self).derived_spawns,
            final(self).spawn_cursors == old(self).spawn_cursors,
            final(self).presence is Some == old(self).presence is Some,
            final(self).presence matches Some(presence) ==> {
                &&& presence.wf()
                &&& presence.universe() == old(self).presence->0.universe()
                &&& forall|k: ComponentId, e: Entity| #[trigger]
                    presence.has(k, e) <==> if k == kind && e == entity {
                        present && presence.universe().contains(kind)
                    } else {
                        old(self).presence->0.has(k, e)
                    }
            },
    {
        let mut presence = self.presence.take();
        if let Some(index) = &mut presence {
            index.set(kind, entity, present);
        }
        self.presence = presence;
    }

    /// Writes a value on an entity: registers its singleton key, stamps its
    /// revision, and keeps every index current.
    fn put(
        &mut self,
        entity: Entity,
        value: C,
        origin: Origin,
        owner: Option<SystemInvocation>,
    ) -> (previous_edge: Option<RelationshipEdge>)
        requires
            old(self).wf(),
            old(self)@.registrable(C::kind(value.model()), entity),
        ensures
            final(self).wf(),
            final(self)@ == old(self)@.put(entity, value.model(), origin, owner_view(owner)),
            previous_edge == old(self)@.edge_at(C::kind(value.model()), entity),
    {
        let ghost fact = value.model();
        let ghost before = *self;
        let kind = value.component_id();
        if let Some(key) = C::singleton_key(kind) {
            self.singleton_entities.insert(key, entity.raw());
        }
        let fingerprint = value.fingerprint();
        let mut store = match self.stores.remove(&kind) {
            Some(store) => store,
            None => Store::new(),
        };
        assert(store.wf());
        assert(store@ == before@.column(kind));
        let (kept, old_revision): (bool, u64) = match store.get(entity.raw()) {
            Some(entry) => (
                match (entry.fingerprint, fingerprint) {
                    (Some(old), Some(new)) => old == new,
                    _ => false,
                },
                entry.revision,
            ),
            None => (false, 0),
        };
        assert(kept == before@.repeats(entity, fact));
        let tracks = C::is_tracked(kind);
        if tracks && !kept {
            self.revision = bump(self.revision);
        }
        let stamped: u64 = if tracks && kept {
            old_revision
        } else {
            self.revision
        };
        assert(stamped == before@.written_revision(entity, fact));
        if !kept {
            self.mutations = bump(self.mutations);
        }
        if origin == Origin::Derived {
            self.written_derived.push((kind, entity));
        }
        self.write_log.push((kind, entity));
        store.bump_watermark(stamped);
        let new_owner = copy_owner(&owner);
        let cell = self.take_cell();
        let previous = store.insert(
            entity.raw(),
            ComponentEntry {
                value: Arc::new(value),
                revision: stamped,
                fingerprint,
                origin,
                owner,
                cell,
            },
        );
        self.stores.insert(kind, store);
        self.presence_set(kind, entity, true);
        let previous_edge = match &previous {
            Some(entry) => entry.value.relationship_edge(),
            None => None,
        };
        let previous_owner = match previous {
            Some(entry) => entry.owner,
            None => None,
        };
        let ghost middle = WorldModel { owned: before@.owned, ..before@.put(
            entity,
            fact,
            origin,
            owner_view(new_owner),
        ) };
        proof {
            assert(self@.stores =~= middle.stores);
            assert(self@.cells == before@.cells);
            assert(self@ == middle);
            lemma_put_keeps_cells(before@, entity, fact, origin, owner_view(new_owner));
            assert(self.presence_wf()) by {
                if let Some(presence) = self.presence {
                    assert forall|k: ComponentId, e: Entity| #[trigger]
                        presence.has(k, e) <==> (presence.universe().contains(k) && self@.has(
                            k,
                            e,
                        )) by {
                        if e.id() == entity.id() {
                            crate::entity::lemma_entity_is_its_id(e, entity);
                        }
                        assert(before.presence->0.has(k, e) <==> (presence.universe().contains(k)
                            && before@.has(k, e)));
                    }
                }
            }
        }
        if let Some(previous_owner) = &previous_owner {
            let released = match &new_owner {
                Some(new_owner) => !previous_owner.same(new_owner),
                None => true,
            };
            if released {
                self.unindex_derived(previous_owner, kind, entity);
            }
        }
        if origin == Origin::Derived {
            if let Some(new_owner) = new_owner {
                self.index_derived(new_owner, kind, entity);
            }
        }
        previous_edge
    }

    /// Gives out the number of the next cell.
    fn take_cell(&mut self) -> (cell: Option<u64>)
        ensures
            cell == old(self)@.fresh_cell(),
            *final(self) == (World { next_cell: final(self).next_cell, ..*old(self) }),
            final(self).next_cell == next(old(self)@.next_cell),
    {
        let cell = if self.next_cell < u64::MAX {
            Some(self.next_cell)
        } else {
            None
        };
        self.next_cell = bump(self.next_cell);
        cell
    }

    fn due(&mut self, hook: Hook, kind: ComponentId, entity: Entity)
        ensures
            final(self)@ == old(self)@.due(hook, kind, entity),
            old(self).wf() ==> final(self).wf(),
    {
        self.hooks.push(HookRun { hook, kind, entity });
        assert(self@.stores == old(self)@.stores);
    }

    /// Takes the entry of `kind` on `entity` out of its store, with the
    /// revision bump and the log entry that every removal makes.
    fn drop_entry(&mut self, kind: ComponentId, entity: Entity) -> (removed: ComponentEntry<C>)
        requires
            old(self).wf(),
            old(self)@.has(kind, entity),
        ensures
            final(self).wf(),
            final(self)@ == old(self)@.drop_entry(kind, entity),
            Some(removed@) == old(self)@.entry(kind, entity),
    {
        let ghost before = *self;
        let mut store = match self.stores.remove(&kind) {
            Some(store) => store,
            None => Store::new(),
        };
        let removed = store.remove(entity.raw());
        self.write_log.push((kind, entity));
        self.mutations = bump(self.mutations);
        if C::is_tracked(kind) {
            self.revision = bump(self.revision);
            store.bump_watermark(self.revision);
        }
        self.stores.insert(kind, store);
        self.presence_set(kind, entity, false);
        proof {
            lemma_drop_entry_keeps_cells(before@, kind, entity);
            assert(self@.cells == before@.cells);
            assert(self@.stores =~= before@.drop_entry(kind, entity).stores);
            assert(self.presence_wf()) by {
                if let Some(presence) = self.presence {
                    assert forall|k: ComponentId, e: Entity| #[trigger]
                        presence.has(k, e) <==> (presence.universe().contains(k) && self@.has(
                            k,
                            e,
                        )) by {
                        if e.id() == entity.id() {
                            crate::entity::lemma_entity_is_its_id(e, entity);
                        }
                        assert(before.presence->0.has(k, e) <==> (presence.universe().contains(k)
                            && before@.has(k, e)));
                    }
                }
            }
        }
        match removed {
            Some(removed) => removed,
            None => {
                assert(false);
                vstd::pervasive::unreached()
            },
        }
    }

    fn remove_flat(&mut self, kind: ComponentId, entity: Entity) -> (removed: Option<
        ComponentEntry<C>,
    >)
        requires
            old(self).wf(),
        ensures
            final(self).wf(),
            final(self)@ == old(self)@.remove_flat(kind, entity),
            match removed {
                Some(removed) => Some(removed@) == old(self)@.entry(kind, entity),
                None => !old(self)@.has(kind, entity),
            },
    {
        if !self.has(kind, entity) {
            return None;
        }
        let removed = self.drop_entry(kind, entity);
        self.due(Hook::Remove, kind, entity);
        if let Some(owner) = &removed.owner {
            self.unindex_derived(owner, kind, entity);
        }
        let ghost middle = *self;
        if let Some(key) = C::singleton_key(kind) {
            let registered = match self.singleton_entities.get(&key) {
                Some(existing) => *existing == entity.raw(),
                None => false,
            };
            if registered {
                self.singleton_entities.remove(&key);
            }
        }
        assert(self@.stores == middle@.stores);
        assert(self@ =~= old(self)@.remove_flat(kind, entity));
        Some(removed)
    }

    /// Returns whether an entity has a component of type `kind`.
    pub fn has(&self, kind: ComponentId, entity: Entity) -> (present: bool)
        ensures
            present == self@.has(kind, entity),
    {
        match self.stores.get(&kind) {
            Some(store) => store.contains(entity.raw()),
            None => false,
        }
    }

    /// Borrows the stored entry.
    pub fn entry(&self, kind: ComponentId, entity: Entity) -> (entry: Option<&ComponentEntry<C>>)
        ensures
            match entry {
                Some(entry) => self@.entry(kind, entity) == Some(entry@),
                None => self@.entry(kind, entity) is None,
            },
    {
        match self.stores.get(&kind) {
            Some(store) => store.get(entity.raw()),
            None => None,
        }
    }

    fn edge_at(&self, kind: ComponentId, entity: Entity) -> (edge: Option<RelationshipEdge>)
        ensures
            edge == self@.edge_at(kind, entity),
    {
        match self.entry(kind, entity) {
            Some(entry) => entry.value.relationship_edge(),
            None => None,
        }
    }

    /// The sources that inverse `inverse` lists on `target`, sorted by id.
    pub fn members(&self, inverse: ComponentId, target: Entity) -> (members: Vec<Entity>)
        ensures
            members@ == self@.members(inverse, target),
    {
        match self.entry(inverse, target) {
            Some(entry) => entry.value.members(),
            None => Vec::new(),
        }
    }
}

/// Puts `source` into a member list at its place by id.
fn insert_member(members: &mut Vec<Entity>, source: Entity)
    requires
        !old(members)@.contains(source),
    ensures
        final(members)@ == with_member(old(members)@, source),
{
    let mut at: usize = 0;
    assert(members@.skip(0) =~= members@);
    while at < members.len() && members[at].raw() < source.raw()
        invariant
            at <= members@.len(),
            members@ == old(members)@,
            rank(members@, source) == at + rank(members@.skip(at as int), source),
        decreases members@.len() - at,
    {
        assert(members@.skip(at as int).drop_first() =~= members@.skip(at + 1));
        assert(members@.skip(at as int)[0] == members@[at as int]);
        at = at + 1;
    }
    assert(members@.skip(at as int).len() == 0 || members@.skip(at as int)[0]
        == members@[at as int]);
    members.insert(at, source);
}

/// Takes the first occurrence of `source` out of a member list.
fn remove_member_at(members: &mut Vec<Entity>, at: usize, source: Entity)
    requires
        at < old(members)@.len(),
        old(members)@[at as int] == source,
        forall|j: int| 0 <= j < at ==> old(members)@[j] != source,
    ensures
        final(members)@ == without_member(old(members)@, source),
{
    proof {
        lemma_without_member(members@, at as int, source);
    }
    members.remove(at);
}

proof fn lemma_without_member(members: Seq<Entity>, at: int, source: Entity)
    requires
        0 <= at < members.len(),
        members[at] == source,
        forall|j: int| 0 <= j < at ==> members[j] != source,
    ensures
        without_member(members, source) == members.remove(at),
    decreases at,
{
    if at == 0 {
        assert(members.drop_first() =~= members.remove(0));
    } else {
        let rest = members.drop_first();
        assert forall|j: int| 0 <= j < at - 1 implies rest[j] != source by {
            assert(rest[j] == members[j + 1]);
        }
        lemma_without_member(rest, at - 1, source);
        assert(seq![members[0]] + rest.remove(at - 1) =~= members.remove(at));
    }
}

impl<C: RelationshipTarget> World<C> {
    /// Adds `source` to the maintained inverse `inverse` on `target`, keeping
    /// the member list sorted by entity id. Idempotent. The inverse is written
    /// as a base fact with no owner, so derived-output diffing never touches
    /// it.
    pub fn relationship_add_member(
        &mut self,
        inverse: ComponentId,
        source: Entity,
        target: Entity,
    )
        requires
            old(self).wf(),
            C::is_inverse(inverse),
        ensures
            final(self).wf(),
            final(self)@ == old(self)@.add_member(inverse, source, target),
    {
        let mut members = self.members(inverse, target);
        if position_of(&members, source).is_some() {
            assert(members@.contains(source));
            return ;
        }
        insert_member(&mut members, source);
        proof {
            C::inverse_laws(inverse, members@);
            C::edge_laws(C::inverse_fact(inverse, members@));
        }
        let value = C::from_members(inverse, members);
        let _ = self.put(target, value, Origin::Base, None);
        self.due(Hook::Insert, inverse, target);
    }

    /// Removes `source` from the maintained inverse `inverse` on `target`,
    /// removing the inverse outright when it empties. Tolerates a missing
    /// inverse.
    pub fn relationship_remove_member(
        &mut self,
        inverse: ComponentId,
        source: Entity,
        target: Entity,
    )
        requires
            old(self).wf(),
            C::is_inverse(inverse),
        ensures
            final(self).wf(),
            final(self)@ == old(self)@.remove_member(inverse, source, target),
    {
        let mut members = self.members(inverse, target);
        let at: usize = match position_of(&members, source) {
            Some(at) => at,
            None => {
                return ;
            },
        };
        assert(members@.contains(source));
        remove_member_at(&mut members, at, source);
        if members.len() == 0 {
            let _ = self.remove_flat(inverse, target);
        } else {
            proof {
                C::inverse_laws(inverse, members@);
                C::edge_laws(C::inverse_fact(inverse, members@));
            }
            let value = C::from_members(inverse, members);
            let _ = self.put(target, value, Origin::Base, None);
            self.due(Hook::Insert, inverse, target);
        }
    }

    fn retract_edge(&mut self, source: Entity, edge: Option<RelationshipEdge>)
        requires
            old(self).wf(),
            edge matches Some(edge) ==> C::is_inverse(edge.inverse),
        ensures
            final(self).wf(),
            final(self)@ == old(self)@.retract_edge(source, edge),
    {
        if let Some(edge) = edge {
            self.relationship_remove_member(edge.inverse, source, edge.target);
        }
    }

    fn relink(
        &mut self,
        entity: Entity,
        before: Option<RelationshipEdge>,
        after: Option<RelationshipEdge>,
    )
        requires
            old(self).wf(),
            before matches Some(edge) ==> C::is_inverse(edge.inverse),
            after matches Some(edge) ==> C::is_inverse(edge.inverse),
        ensures
            final(self).wf(),
            final(self)@ == old(self)@.relink(entity, before, after),
    {
        if edge_retargets::<C>(before, after) {
            self.retract_edge(entity, before);
            if let Some(edge) = after {
                self.relationship_add_member(edge.inverse, entity, edge.target);
            }
        }
    }

    fn insert_now(
        &mut self,
        entity: Entity,
        value: C,
        origin: Origin,
        owner: Option<SystemInvocation>,
    )
        requires
            old(self).wf(),
            old(self)@.registrable(C::kind(value.model()), entity),
        ensures
            final(self).wf(),
            final(self)@ == old(self)@.insert_now(entity, value.model(), origin, owner_view(owner)),
    {
        let kind = value.component_id();
        let edge = value.relationship_edge();
        proof {
            C::edge_laws(value.model());
            if let Some(entry) = self@.entry(kind, entity) {
                C::edge_laws(entry.value);
            }
        }
        let previous_edge = self.put(entity, value, origin, owner);
        self.relink(entity, previous_edge, edge);
        self.due(Hook::Insert, kind, entity);
    }

    /// Inserts a component and updates revision metadata.
    ///
    /// If the fingerprint is unchanged, the existing revision is reused.
    /// Otherwise tracked components bump the world's revision counter. A
    /// derived-from marker is deferred until [`World::flush_derived_from`]. An
    /// insert of a singleton component whose key another entity holds is
    /// refused, and changes nothing.
    pub fn insert(
        &mut self,
        entity: Entity,
        value: C,
        origin: Origin,
        owner: Option<SystemInvocation>,
    ) -> (outcome: Result<(), SingletonConflict>)
        requires
            old(self).wf(),
        ensures
            final(self).wf(),
            final(self)@ == old(self)@.insert(entity, value.model(), origin, owner_view(owner)),
            outcome == old(self)@.verdict(entity, value.model()),
    {
        if let Some(derived) = value.derived_from() {
            let ghost before = *self;
            let pending = PendingDerivedFrom { entity, derived, origin, owner };
            let ghost waiting = pending@;
            self.pending_derived_from.push(pending);
            assert(self@.pending =~= before@.pending.push(waiting));
            assert(self@.stores == before@.stores);
            return Ok(());
        }
        let kind = value.component_id();
        if let Some(key) = C::singleton_key(kind) {
            if let Some(existing) = self.singleton_entities.get(&key) {
                if *existing != entity.raw() {
                    return Err(
                        SingletonConflict { component: kind, existing: Entity::from_raw(*existing) },
                    );
                }
            }
        }
        self.insert_now(entity, value, origin, owner);
        Ok(())
    }

    /// Inserts a base input component.
    pub fn insert_base(&mut self, entity: Entity, value: C) -> (outcome: Result<
        (),
        SingletonConflict,
    >)
        requires
            old(self).wf(),
        ensures
            final(self).wf(),
            final(self)@ == old(self)@.insert(entity, value.model(), Origin::Base, None),
            outcome == old(self)@.verdict(entity, value.model()),
    {
        self.insert(entity, value, Origin::Base, None)
    }

    /// Inserts a system-derived component owned by `owner`.
    pub fn insert_derived(&mut self, entity: Entity, value: C, owner: &SystemInvocation) -> (outcome:
        Result<(), SingletonConflict>)
        requires
            old(self).wf(),
        ensures
            final(self).wf(),
            final(self)@ == old(self)@.insert(
                entity,
                value.model(),
                Origin::Derived,
                Some(owner@),
            ),
            outcome == old(self)@.verdict(entity, value.model()),
    {
        self.insert(entity, value, Origin::Derived, Some(owner.duplicate()))
    }

    /// Removes one component and returns the stored value.
    pub fn remove_component(&mut self, kind: ComponentId, entity: Entity) -> (value: Option<Arc<C>>)
        requires
            old(self).wf(),
        ensures
            final(self).wf(),
            final(self)@ == old(self)@.remove_component(kind, entity),
            match value {
                Some(value) => old(self)@.entry(kind, entity) matches Some(entry) && value.model()
                    == entry.value,
                None => !old(self)@.has(kind, entity),
            },
    {
        match self.remove_flat(kind, entity) {
            Some(removed) => {
                let edge = removed.value.relationship_edge();
                proof {
                    C::edge_laws(removed.value.model());
                }
                self.retract_edge(entity, edge);
                Some(removed.value)
            },
            None => None,
        }
    }
}

impl<C: RelationshipTarget> World<C> {
    /// The component types that have a store, ascending.
    pub fn kinds(&self) -> (kinds: Vec<ComponentId>)
        ensures
            kinds@ == self@.kinds(),
            ascending(kinds@),
            kinds@.to_set() == self@.stores.dom(),
    {
        assert(self@.stores.dom() =~= self.stores@.dom());
        map_keys(&self.stores)
    }

    /// Returns the current entity revision: the newest revision of a tracked
    /// component attached to the entity.
    pub fn entity_revision(&self, entity: Entity) -> (revision: Option<u64>)
        ensures
            revision == self@.entity_revision(entity),
    {
        let kinds = self.kinds();
        let mut newest: Option<u64> = None;
        let mut i: usize = 0;
        assert(kinds@.take(0) =~= Seq::<ComponentId>::empty());
        while i < kinds.len()
            invariant
                i <= kinds@.len(),
                newest == self@.newest(kinds@.take(i as int), entity),
            decreases kinds@.len() - i,
        {
            let kind = kinds[i];
            if C::is_tracked(kind) {
                if let Some(entry) = self.entry(kind, entity) {
                    newest = match newest {
                        Some(revision) => if revision < entry.revision {
                            Some(entry.revision)
                        } else {
                            Some(revision)
                        },
                        None => Some(entry.revision),
                    };
                }
            }
            i = i + 1;
            assert(kinds@.take(i as int).drop_last() =~= kinds@.take(i - 1));
        }
        assert(kinds@.take(kinds@.len() as int) =~= kinds@);
        newest
    }

    /// The current revision of every anchored entity.
    pub fn anchor_revisions(&self, derived: &DerivedFrom) -> (revisions: Vec<Option<u64>>)
        ensures
            revisions@ == self@.anchor_revisions(derived@),
    {
        let entities = derived.entities();
        let mut revisions: Vec<Option<u64>> = Vec::new();
        let mut i: usize = 0;
        while i < entities.len()
            invariant
                i <= entities@.len(),
                entities@ == crate::component::anchor_entities(derived@),
                revisions@ =~= self@.anchor_revisions(derived@).take(i as int),
            decreases entities@.len() - i,
        {
            assert(entities@[i as int] == derived@[i as int].entity);
            revisions.push(self.entity_revision(entities[i]));
            i = i + 1;
        }
        assert(revisions@ =~= self@.anchor_revisions(derived@));
        revisions
    }

    /// Whether a derived fact's anchors are all unchanged.
    pub fn is_current(&self, derived: &DerivedFrom) -> (current: bool)
        ensures
            current == crate::component::anchors_current(
                derived@,
                self@.anchor_revisions(derived@),
            ),
    {
        let revisions = self.anchor_revisions(derived);
        derived.is_current_revision(&revisions)
    }

    /// Applies the deferred derived-from inserts, capturing anchor revisions
    /// against the fully written world.
    pub fn flush_derived_from(&mut self)
        requires
            old(self).wf(),
        ensures
            final(self).wf(),
            final(self)@ == old(self)@.flush(),
            final(self)@.pending.len() == 0,
    {
        let ghost before = *self;
        let mut pending: Vec<PendingDerivedFrom> = Vec::new();
        std::mem::swap(&mut pending, &mut self.pending_derived_from);
        let ghost start = *self;
        let ghost waiting = before@.pending;
        proof {
            assert(start@.pending =~= Seq::<PendingAnchor>::empty());
            assert(start@.stores == before@.stores);
            assert(start.wf());
            assert(waiting =~= pending@.map_values(|p: PendingDerivedFrom| p@));
            assert(waiting.take(0) =~= Seq::<PendingAnchor>::empty());
        }
        let mut i: usize = 0;
        while i < pending.len()
            invariant
                i <= pending@.len(),
                waiting == pending@.map_values(|p: PendingDerivedFrom| p@),
                self.wf(),
                self@ == start@.flush_each(waiting.take(i as int)),
                self@.pending.len() == 0,
            decreases pending@.len() - i,
        {
            let ghost done = *self;
            let mut derived = pending[i].derived.clone();
            let revisions = self.anchor_revisions(&derived);
            derived.capture(&revisions);
            proof {
                assert(waiting[i as int] == pending@[i as int]@);
                C::anchor_laws(derived@);
                C::marker_laws(C::anchor_fact(derived@));
                assert(waiting.take(i + 1).drop_last() =~= waiting.take(i as int));
            }
            let value = C::from_derived(derived);
            let owner = copy_owner(&pending[i].owner);
            self.insert_now(pending[i].entity, value, pending[i].origin, owner);
            proof {
                lemma_insert_now_keeps_pending(
                    done@,
                    pending@[i as int].entity,
                    value.model(),
                    pending@[i as int].origin,
                    owner_view(owner),
                );
            }
            i = i + 1;
        }
        assert(waiting.take(waiting.len() as int) =~= waiting);
        assert(start@ =~= WorldModel { pending: Seq::<PendingAnchor>::empty(), ..before@ });
    }
}

proof fn lemma_member_ops_keep_pending<C: RelationshipTarget>(
    world: WorldModel<C>,
    inverse: ComponentId,
    source: Entity,
    target: Entity,
)
    ensures
        world.add_member(inverse, source, target).pending == world.pending,
        world.remove_member(inverse, source, target).pending == world.pending,
{
}

proof fn lemma_insert_now_keeps_pending<C: RelationshipTarget>(
    world: WorldModel<C>,
    entity: Entity,
    value: C::Model,
    origin: Origin,
    owner: Option<Invocation>,
)
    ensures
        world.insert_now(entity, value, origin, owner).pending == world.pending,
{
    let put = world.put(entity, value, origin, owner);
    let before = world.edge_at(C::kind(value), entity);
    if let Some(edge) = before {
        lemma_member_ops_keep_pending(put, edge.inverse, entity, edge.target);
    }
    if let Some(edge) = C::edge(value) {
        lemma_member_ops_keep_pending(
            put.retract_edge(entity, before),
            edge.inverse,
            entity,
            edge.target,
        );
    }
}

impl<C: RelationshipTarget> World<C> {
    /// Removes every component attached to `entity`, and returns the owners of
    /// those that were derived.
    ///
    /// Relationship maintenance is collected before anything is removed and
    /// applied after the whole entity is gone: this entity's edges retract from
    /// their targets, and every edge that pointed at it is removed.
    pub fn remove_entity(&mut self, entity: Entity) -> (owners: Vec<SystemInvocation>)
        requires
            old(self).wf(),
        ensures
            final(self).wf(),
            final(self)@ == old(self)@.remove_entity(entity),
            owners@.map_values(|owner: SystemInvocation| owner@) == old(self)@.owners_on(
                old(self)@.kinds(),
                entity,
            ),
    {
        let ghost before = *self;
        let kinds = self.kinds();
        let (edges, retractions) = self.relationship_ops(&kinds, entity);
        let owners = self.drop_rows(&kinds, entity);
        proof {
            assert forall|kind: ComponentId| !#[trigger] self@.has(kind, entity) by {
                lemma_drop_rows_empties(before@, kinds@, entity, kind);
                if before@.has(kind, entity) {
                    assert(kinds@.to_set().contains(kind));
                }
            }
        }
        self.forget(entity);
        let ghost gone = self@;
        let mut i: usize = 0;
        assert(edges@.take(0) =~= Seq::<RelationshipEdge>::empty());
        while i < edges.len()
            invariant
                i <= edges@.len(),
                self.wf(),
                forall|j: int| 0 <= j < edges@.len() ==> C::is_inverse((#[trigger] edges@[j]).inverse),
                self@ == gone.retract_edges(entity, edges@.take(i as int)),
            decreases edges@.len() - i,
        {
            self.retract_edge(entity, Some(edges[i]));
            i = i + 1;
            assert(edges@.take(i as int).drop_last() =~= edges@.take(i - 1));
        }
        assert(edges@.take(edges@.len() as int) =~= edges@);
        let ghost unlinked = self@;
        let mut n: usize = 0;
        assert(retractions@.take(0) =~= Seq::<RelationshipRetraction>::empty());
        while n < retractions.len()
            invariant
                n <= retractions@.len(),
                self.wf(),
                self@ == unlinked.retract_sources(retractions@.take(n as int)),
            decreases retractions@.len() - n,
        {
            let _ = self.remove_component(retractions[n].edge, retractions[n].source);
            n = n + 1;
            assert(retractions@.take(n as int).drop_last() =~= retractions@.take(n - 1));
        }
        assert(retractions@.take(retractions@.len() as int) =~= retractions@);
        owners
    }

    /// The edges and retractions that `entity` carries in `kinds`.
    fn relationship_ops(&self, kinds: &Vec<ComponentId>, entity: Entity) -> (ops: (
        Vec<RelationshipEdge>,
        Vec<RelationshipRetraction>,
    ))
        ensures
            ops.0@ == self@.edges_on(kinds@, entity),
            ops.1@ == self@.retractions_on(kinds@, entity),
            forall|j: int| 0 <= j < ops.0@.len() ==> C::is_inverse((#[trigger] ops.0@[j]).inverse),
    {
        let mut edges: Vec<RelationshipEdge> = Vec::new();
        let mut retractions: Vec<RelationshipRetraction> = Vec::new();
        let mut i: usize = 0;
        assert(kinds@.take(0) =~= Seq::<ComponentId>::empty());
        while i < kinds.len()
            invariant
                i <= kinds@.len(),
                edges@ == self@.edges_on(kinds@.take(i as int), entity),
                retractions@ == self@.retractions_on(kinds@.take(i as int), entity),
                forall|j: int|
                    0 <= j < edges@.len() ==> C::is_inverse((#[trigger] edges@[j]).inverse),
            decreases kinds@.len() - i,
        {
            assert(kinds@.take(i + 1).drop_last() =~= kinds@.take(i as int));
            if let Some(entry) = self.entry(kinds[i], entity) {
                proof {
                    C::edge_laws(entry.value.model());
                }
                if let Some(edge) = entry.value.relationship_edge() {
                    edges.push(edge);
                }
                let mut more = entry.value.relationship_retractions();
                retractions.append(&mut more);
            }
            i = i + 1;
        }
        assert(kinds@.take(kinds@.len() as int) =~= kinds@);
        (edges, retractions)
    }

    fn drop_rows(&mut self, kinds: &Vec<ComponentId>, entity: Entity) -> (owners: Vec<
        SystemInvocation,
    >)
        requires
            old(self).wf(),
            ascending(kinds@),
        ensures
            final(self).wf(),
            final(self)@ == old(self)@.drop_rows(kinds@, entity),
            owners@.map_values(|owner: SystemInvocation| owner@) == old(self)@.owners_on(
                kinds@,
                entity,
            ),
    {
        let ghost before = self@;
        let mut owners: Vec<SystemInvocation> = Vec::new();
        let ghost name = |owner: SystemInvocation| owner@;
        let mut i: usize = 0;
        assert(kinds@.take(0) =~= Seq::<ComponentId>::empty());
        assert(owners@.map_values(name) =~= Seq::<Invocation>::empty());
        while i < kinds.len()
            invariant
                i <= kinds@.len(),
                ascending(kinds@),
                self.wf(),
                name == (|owner: SystemInvocation| owner@),
                self@ == before.drop_rows(kinds@.take(i as int), entity),
                owners@.map_values(name) == before.owners_on(kinds@.take(i as int), entity),
            decreases kinds@.len() - i,
        {
            let kind = kinds[i];
            proof {
                assert(kinds@.take(i + 1).drop_last() =~= kinds@.take(i as int));
                lemma_drop_rows_elsewhere(before, kinds@.take(i as int), entity, kind);
            }
            if self.has(kind, entity) {
                let ghost row = self@;
                let removed = self.drop_entry(kind, entity);
                self.due(Hook::EntityRemove, kind, entity);
                self.due(Hook::Remove, kind, entity);
                if let Some(owner) = removed.owner {
                    self.unindex_derived(&owner, kind, entity);
                    let ghost listed = owners@;
                    owners.push(owner);
                    assert(owners@.map_values(name) =~= listed.map_values(name).push(owner@));
                }
                assert(self@ =~= row.drop_row(kind, entity));
            }
            i = i + 1;
        }
        assert(kinds@.take(kinds@.len() as int) =~= kinds@);
        owners
    }

    fn forget(&mut self, entity: Entity)
        requires
            old(self).wf(),
            forall|kind: ComponentId| !#[trigger] old(self)@.has(kind, entity),
        ensures
            final(self).wf(),
            final(self)@ == old(self)@.forget(entity),
    {
        let ghost before = *self;
        let keys = map_keys(&self.singleton_entities);
        let ghost keep = Set::new(
            |key: ComponentId| before.singleton_entities@[key] != entity.id(),
        );
        let mut i: usize = 0;
        while i < keys.len()
            invariant
                i <= keys@.len(),
                keys@.to_set() == before.singleton_entities@.dom(),
                keep == Set::new(
                    |key: ComponentId| before.singleton_entities@[key] != entity.id(),
                ),
                *self == (World {
                    singleton_entities: self.singleton_entities,
                    ..before
                }),
                forall|key: ComponentId| #[trigger]
                    self.singleton_entities@.contains_key(key) ==> (
                    before.singleton_entities@.contains_key(key) && self.singleton_entities@[key]
                        == before.singleton_entities@[key]),
                forall|key: ComponentId|
                    before.singleton_entities@.contains_key(key) && keep.contains(key)
                        ==> #[trigger] self.singleton_entities@.contains_key(key),
                forall|j: int|
                    0 <= j < i && !keep.contains(#[trigger] keys@[j])
                        ==> !self.singleton_entities@.contains_key(keys@[j]),
            decreases keys@.len() - i,
        {
            let key = keys[i];
            let held = match self.singleton_entities.get(&key) {
                Some(holder) => *holder == entity.raw(),
                None => false,
            };
            if held {
                self.singleton_entities.remove(&key);
            }
            i = i + 1;
        }
        proof {
            assert forall|key: ComponentId| #[trigger]
                self.singleton_entities@.contains_key(key) <==> (
                before.singleton_entities@.contains_key(key) && keep.contains(key)) by {
                if before.singleton_entities@.contains_key(key) && !keep.contains(key) {
                    assert(keys@.to_set().contains(key));
                    let j = choose|j: int| 0 <= j < keys@.len() && keys@[j] == key;
                    assert(!self.singleton_entities@.contains_key(keys@[j]));
                }
            }
            assert(self@.singletons =~= before@.forget(entity).singletons);
        }
        self.removed_entities.push(entity);
        assert(self@.stores == before@.stores);
        assert(self@.pending == before@.pending);
        let mut presence = self.presence.take();
        if let Some(index) = &mut presence {
            index.clear_entity(entity);
        }
        self.presence = presence;
        proof {
            assert(self.presence_wf()) by {
                if let Some(presence) = self.presence {
                    assert forall|k: ComponentId, e: Entity| #[trigger]
                        presence.has(k, e) <==> (presence.universe().contains(k) && self@.has(
                            k,
                            e,
                        )) by {
                        assert(before.presence->0.has(k, e) <==> (presence.universe().contains(k)
                            && before@.has(k, e)));
                        assert(self@.has(k, e) == before@.has(k, e));
                    }
                }
            }
        }
    }
}

/// Dropping an entity's components of some types leaves exactly those of the
/// other types.
pub proof fn lemma_drop_rows_empties<C: RelationshipTarget>(
    world: WorldModel<C>,
    kinds: Seq<ComponentId>,
    entity: Entity,
    kind: ComponentId,
)
    ensures
        world.drop_rows(kinds, entity).has(kind, entity) <==> (world.has(kind, entity)
            && !kinds.contains(kind)),
    decreases kinds.len(),
{
    if kinds.len() > 0 {
        let rest = kinds.drop_last();
        lemma_drop_rows_empties(world, rest, entity, kind);
        assert(kinds.contains(kind) <==> (rest.contains(kind) || kind == kinds.last())) by {
            if rest.contains(kind) {
                let j = choose|j: int| 0 <= j < rest.len() && rest[j] == kind;
                assert(kinds[j] == kind);
            }
            if kinds.contains(kind) {
                let j = choose|j: int| 0 <= j < kinds.len() && kinds[j] == kind;
                if j < rest.len() {
                    assert(rest[j] == kind);
                }
            }
            assert(kinds[kinds.len() - 1] == kinds.last());
        }
    }
}

proof fn lemma_drop_rows_elsewhere<C: RelationshipTarget>(
    world: WorldModel<C>,
    kinds: Seq<ComponentId>,
    entity: Entity,
    kind: ComponentId,
)
    requires
        !kinds.contains(kind),
    ensures
        world.drop_rows(kinds, entity).entry(kind, entity) == world.entry(kind, entity),
    decreases kinds.len(),
{
    if kinds.len() > 0 {
        let rest = kinds.drop_last();
        assert(!rest.contains(kind)) by {
            if rest.contains(kind) {
                let j = choose|j: int| 0 <= j < rest.len() && rest[j] == kind;
                assert(kinds[j] == kind);
            }
        }
        assert(kinds[kinds.len() - 1] == kinds.last());
        lemma_drop_rows_elsewhere(world, rest, entity, kind);
    }
}

impl<C: RelationshipTarget> World<C> {
    /// Removes one derived component if `owner` still owns it, and reports
    /// whether it did.
    fn remove_derived_entry(
        &mut self,
        kind: ComponentId,
        entity: Entity,
        owner: &SystemInvocation,
    ) -> (removed: bool)
        requires
            old(self).wf(),
        ensures
            final(self).wf(),
            final(self)@ == old(self)@.remove_owned(owner@, (kind, entity)),
            removed == old(self)@.owns(owner@, (kind, entity)),
    {
        let owned = match self.entry(kind, entity) {
            Some(entry) => entry.origin == Origin::Derived && match &entry.owner {
                Some(current) => current.same(owner),
                None => false,
            },
            None => false,
        };
        if !owned {
            return false;
        }
        let edge = self.edge_at(kind, entity);
        proof {
            C::edge_laws(self@.entry(kind, entity)->0.value);
        }
        let _ = self.drop_entry(kind, entity);
        self.due(Hook::Remove, kind, entity);
        self.retract_edge(entity, edge);
        true
    }

    /// Removes the derived components in `cells` that `owner` still owns, and
    /// returns the entities that lost one.
    fn remove_each_owned(&mut self, owner: &SystemInvocation, cells: &Vec<Cell>) -> (removed: Vec<
        Entity,
    >)
        requires
            old(self).wf(),
        ensures
            final(self).wf(),
            final(self)@ == old(self)@.remove_each_owned(owner@, cells@),
            removed@ == removed_cells(old(self)@, owner@, cells@),
    {
        let ghost before = self@;
        let mut removed: Vec<Entity> = Vec::new();
        let mut i: usize = 0;
        assert(cells@.take(0) =~= Seq::<Cell>::empty());
        while i < cells.len()
            invariant
                i <= cells@.len(),
                self.wf(),
                self@ == before.remove_each_owned(owner@, cells@.take(i as int)),
                removed@ == removed_cells(before, owner@, cells@.take(i as int)),
            decreases cells@.len() - i,
        {
            assert(cells@.take(i + 1).drop_last() =~= cells@.take(i as int));
            if self.remove_derived_entry(cells[i].0, cells[i].1, owner) {
                removed.push(cells[i].1);
            }
            i = i + 1;
        }
        assert(cells@.take(cells@.len() as int) =~= cells@);
        removed
    }

    /// Removes every derived component currently owned by `owner`, and forgets
    /// its spawn slots.
    pub fn remove_derived_owned(&mut self, owner: &SystemInvocation) -> (removed: Vec<Entity>)
        requires
            old(self).wf(),
        ensures
            final(self).wf(),
            final(self)@ == old(self)@.remove_derived_owned(owner@),
            removed@ == swept(old(self)@, owner@),
    {
        let ghost before = *self;
        let _ = self.derived_spawns.remove(owner);
        let cells = match self.derived_owners.remove(owner) {
            Some(cells) => cells,
            None => Vec::new(),
        };
        proof {
            assert(cells@ == outputs(before@.owned, owner@));
            assert(self@.stores == before@.stores);
            assert(self@ =~= WorldModel {
                spawns: before@.spawns.remove(owner@),
                owned: before@.owned.remove(owner@),
                ..before@
            });
        }
        self.remove_each_owned(owner, &cells)
    }

    /// Takes the outputs currently owned by `owner`, clearing its index entry.
    pub fn take_derived_outputs(&mut self, owner: &SystemInvocation) -> (cells: Vec<Cell>)
        requires
            old(self).wf(),
        ensures
            final(self).wf(),
            final(self)@ == (WorldModel {
                owned: old(self)@.owned.remove(owner@),
                ..old(self)@
            }),
            cells@ == outputs(old(self)@.owned, owner@),
    {
        let ghost before = *self;
        let cells = match self.derived_owners.remove(owner) {
            Some(cells) => cells,
            None => Vec::new(),
        };
        assert(self@.stores == before@.stores);
        cells
    }

    /// Whether the ownership index lists `cell` for `owner`.
    pub fn lists_output(&self, owner: &SystemInvocation, cell: Cell) -> (listed: bool)
        requires
            self.wf(),
        ensures
            listed == outputs(self@.owned, owner@).contains(cell),
    {
        match self.derived_owners.get(owner) {
            Some(cells) => {
                let at = find_cell(cells, cell);
                at.is_some()
            },
            None => false,
        }
    }

    /// Removes the outputs in `previous` that `owner` did not emit again.
    pub fn remove_derived_stale(&mut self, owner: &SystemInvocation, previous: &Vec<Cell>)
        requires
            old(self).wf(),
        ensures
            final(self).wf(),
            final(self)@ == old(self)@.remove_stale(owner@, previous@),
    {
        let ghost before = self@;
        let mut i: usize = 0;
        assert(previous@.take(0) =~= Seq::<Cell>::empty());
        while i < previous.len()
            invariant
                i <= previous@.len(),
                self.wf(),
                self@ == before.remove_stale(owner@, previous@.take(i as int)),
            decreases previous@.len() - i,
        {
            assert(previous@.take(i + 1).drop_last() =~= previous@.take(i as int));
            if !self.lists_output(owner, previous[i]) {
                let _ = self.remove_derived_entry(previous[i].0, previous[i].1, owner);
            }
            i = i + 1;
        }
        assert(previous@.take(previous@.len() as int) =~= previous@);
    }

    /// Returns whether any derived component is currently owned by `owner`.
    pub fn has_derived_owned(&self, owner: &SystemInvocation) -> (owns: bool)
        requires
            self.wf(),
        ensures
            owns == (outputs(self@.owned, owner@).len() > 0),
    {
        match self.derived_owners.get(owner) {
            Some(cells) => cells.len() > 0,
            None => false,
        }
    }

    /// Removes the derived components of every invocation that has one of
    /// `keys` among its rows.
    ///
    /// The returned entities form the next cleanup frontier: a derived entity
    /// touched by a bound request may itself own more derived outputs. The
    /// order in which the invocations are taken is left open.
    pub fn remove_derived_touched_by(&mut self, keys: &Vec<Entity>) -> (removed: Vec<Entity>)
        requires
            old(self).wf(),
        ensures
            final(self).wf(),
            exists|owners: Seq<Invocation>| #[trigger]
                lists_touched(owners, old(self)@, keys@) && final(self)@
                    == old(self)@.remove_derived_of(owners) && removed@ == swept_each(
                    old(self)@,
                    owners,
                ),
    {
        let ghost before = self@;
        let owners = self.owners_touched_by(keys);
        let ghost name = |owner: SystemInvocation| owner@;
        let ghost names = owners@.map_values(name);
        let mut removed: Vec<Entity> = Vec::new();
        let mut i: usize = 0;
        assert(names.take(0) =~= Seq::<Invocation>::empty());
        while i < owners.len()
            invariant
                i <= owners@.len(),
                self.wf(),
                name == (|owner: SystemInvocation| owner@),
                names == owners@.map_values(name),
                self@ == before.remove_derived_of(names.take(i as int)),
                removed@ == swept_each(before, names.take(i as int)),
            decreases owners@.len() - i,
        {
            assert(names.take(i + 1).drop_last() =~= names.take(i as int));
            assert(names[i as int] == owners@[i as int]@);
            let mut more = self.remove_derived_owned(&owners[i]);
            removed.append(&mut more);
            i = i + 1;
        }
        assert(names.take(names.len() as int) =~= names);
        assert(lists_touched(names, before, keys@));
        removed
    }

    /// The invocations with outputs that have one of `keys` among their rows.
    fn owners_touched_by(&self, keys: &Vec<Entity>) -> (owners: Vec<SystemInvocation>)
        requires
            self.wf(),
        ensures
            lists_touched(
                owners@.map_values(|owner: SystemInvocation| owner@),
                self@,
                keys@,
            ),
    {
        let mut owners: Vec<SystemInvocation> = Vec::new();
        let ghost name = |owner: SystemInvocation| owner@;
        let ghost order = self.derived_owners.order();
        proof {
            self.derived_owners.lemma_order();
        }
        let mut i: usize = 0;
        while i < self.derived_owners.len()
            invariant
                self.wf(),
                i <= order.len(),
                order == self.derived_owners.order(),
                order.no_duplicates(),
                name == (|owner: SystemInvocation| owner@),
                owners@.map_values(name).no_duplicates(),
                forall|j: int|
                    0 <= j < owners@.len() ==> order.take(i as int).contains(
                        (#[trigger] owners@[j])@,
                    ) && owners@[j]@.touched_by(keys@),
                forall|j: int|
                    0 <= j < i && (#[trigger] order[j]).touched_by(keys@)
                        ==> owners@.map_values(name).contains(order[j]),
            decreases order.len() - i,
        {
            let owner = self.derived_owners.key(i);
            let ghost before = owners@;
            let hit = owner.touches(keys);
            if hit {
                owners.push(owner.duplicate());
            }
            proof {
                let seen = order.take(i as int);
                let now = order.take(i + 1);
                assert(now =~= seen.push(order[i as int]));
                assert(now[i as int] == order[i as int]);
                assert forall|j: int| 0 <= j < owners@.len() implies now.contains(
                    (#[trigger] owners@[j])@,
                ) && owners@[j]@.touched_by(keys@) by {
                    if j < before.len() {
                        assert(owners@[j] == before[j]);
                        let n = choose|n: int| 0 <= n < seen.len() && seen[n] == before[j]@;
                        assert(now[n] == before[j]@);
                    }
                }
                let listed = owners@.map_values(name);
                let earlier = before.map_values(name);
                assert forall|a: int, b: int|
                    0 <= a < listed.len() && 0 <= b < listed.len() && a != b implies listed[a]
                    != listed[b] by {
                    let lo = if a < b { a } else { b };
                    let hi = if a < b { b } else { a };
                    assert(earlier[lo] == listed[lo]);
                    if hi < before.len() {
                        assert(earlier[hi] == listed[hi]);
                    } else {
                        let n = choose|n: int| 0 <= n < seen.len() && seen[n] == before[lo]@;
                        assert(order[n] == before[lo]@);
                    }
                }
                assert forall|j: int|
                    0 <= j < i + 1 && (#[trigger] order[j]).touched_by(
                        keys@,
                    ) implies listed.contains(order[j]) by {
                    if j < i {
                        let n = choose|n: int| 0 <= n < earlier.len() && earlier[n] == order[j];
                        assert(listed[n] == order[j]);
                    } else {
                        assert(listed[before.len() as int] == order[j]);
                    }
                }
            }
            i = i + 1;
        }
        proof {
            let listed = owners@.map_values(name);
            assert(order.take(order.len() as int) =~= order);
            assert forall|owner: Invocation|
                listed.contains(owner) <==> (#[trigger] self@.owned.contains_key(owner)
                    && owner.touched_by(keys@)) by {
                if listed.contains(owner) {
                    let j = choose|j: int| 0 <= j < listed.len() && listed[j] == owner;
                    assert(order.contains(owners@[j]@));
                }
                if self@.owned.contains_key(owner) && owner.touched_by(keys@) {
                    assert(order.contains(owner));
                    let j = choose|j: int| 0 <= j < order.len() && order[j] == owner;
                    assert(listed.contains(order[j]));
                }
            }
        }
        owners
    }
}

/// The entities that lose a component when `owner` gives up `cells`.
pub open spec fn removed_cells<C: RelationshipTarget>(
    world: WorldModel<C>,
    owner: Invocation,
    cells: Seq<Cell>,
) -> Seq<Entity>
    decreases cells.len(),
{
    if cells.len() == 0 {
        Seq::empty()
    } else {
        let rest = removed_cells(world, owner, cells.drop_last());
        if world.remove_each_owned(owner, cells.drop_last()).owns(owner, cells.last()) {
            rest.push(cells.last().1)
        } else {
            rest
        }
    }
}

/// The entities that lose a component when everything `owner` derived goes.
pub open spec fn swept<C: RelationshipTarget>(world: WorldModel<C>, owner: Invocation) -> Seq<
    Entity,
> {
    removed_cells(
        WorldModel {
            spawns: world.spawns.remove(owner),
            owned: world.owned.remove(owner),
            ..world
        },
        owner,
        outputs(world.owned, owner),
    )
}

/// The entities that lose a component when everything `owners` derived goes,
/// one owner after the other.
pub open spec fn swept_each<C: RelationshipTarget>(
    world: WorldModel<C>,
    owners: Seq<Invocation>,
) -> Seq<Entity>
    decreases owners.len(),
{
    if owners.len() == 0 {
        Seq::empty()
    } else {
        swept_each(world, owners.drop_last()) + swept(
            world.remove_derived_of(owners.drop_last()),
            owners.last(),
        )
    }
}

/// Whether `owners` lists, each once, the invocations with outputs that have
/// one of `keys` among their rows.
pub open spec fn lists_touched<C: RelationshipTarget>(
    owners: Seq<Invocation>,
    world: WorldModel<C>,
    keys: Seq<Entity>,
) -> bool {
    &&& owners.no_duplicates()
    &&& forall|owner: Invocation|
        owners.contains(owner) <==> (#[trigger] world.owned.contains_key(owner)
            && owner.touched_by(keys))
}

impl<C: RelationshipTarget> World<C> {
    /// Records an invocation's spawn into its next slot at commit time.
    pub fn record_derived_spawn(&mut self, owner: &SystemInvocation, entity: Entity)
        requires
            old(self).wf(),
        ensures
            final(self).wf(),
            final(self)@ == old(self)@.record_spawn(owner@, entity),
    {
        let ghost before = *self;
        let slot: usize = match self.spawn_cursors.get(owner) {
            Some(cursor) => *cursor,
            None => 0,
        };
        let after: usize = if slot == usize::MAX {
            slot
        } else {
            slot + 1
        };
        self.spawn_cursors.insert(owner.duplicate(), after);
        let mut spawns = match self.derived_spawns.remove(owner) {
            Some(spawns) => spawns,
            None => Vec::new(),
        };
        assert(spawns@ == before@.slots(owner@));
        if slot < spawns.len() {
            spawns.set(slot, entity);
        } else {
            spawns.push(entity);
        }
        self.derived_spawns.insert(owner.duplicate(), spawns);
        assert(self@.stores == before@.stores);
        assert(self@ =~= before@.record_spawn(owner@, entity));
    }

    /// The previous run's spawn slots for `owner`, in spawn order.
    pub fn spawn_slots(&self, owner: &SystemInvocation) -> (slots: Vec<Entity>)
        requires
            self.wf(),
        ensures
            slots@ == self@.slots(owner@),
    {
        match self.derived_spawns.get(owner) {
            Some(slots) => copy_entities(slots),
            None => Vec::new(),
        }
    }

    /// Ends the spawn phase of one commit, dropping unused trailing slots.
    pub fn finish_derived_spawns(&mut self, owner: &SystemInvocation)
        requires
            old(self).wf(),
        ensures
            final(self).wf(),
            final(self)@ == old(self)@.finish_spawns(owner@),
    {
        let ghost before = *self;
        let cursor: usize = match self.spawn_cursors.remove(owner) {
            Some(cursor) => cursor,
            None => 0,
        };
        if let Some(mut spawns) = self.derived_spawns.remove(owner) {
            spawns.truncate(cursor);
            assert(spawns@ =~= if cursor < before@.slots(owner@).len() {
                before@.slots(owner@).take(cursor as int)
            } else {
                before@.slots(owner@)
            });
            if spawns.len() > 0 {
                self.derived_spawns.insert(owner.duplicate(), spawns);
            }
        }
        assert(self@.stores == before@.stores);
        assert(self@.spawns =~= before@.finish_spawns(owner@).spawns);
    }

    /// Allocates a fresh entity id.
    pub fn spawn_empty(&mut self) -> (entity: Entity)
        requires
            old(self).wf(),
        ensures
            final(self).wf(),
            entity.id() == old(self)@.next_entity,
            final(self)@ == (WorldModel {
                next_entity: old(self)@.next_entity.wrapping_add(1),
                ..old(self)@
            }),
    {
        let entity = Entity::from_raw(self.next_entity);
        self.next_entity = self.next_entity.wrapping_add(1);
        assert(self@.stores == old(self)@.stores);
        entity
    }

    /// Sets where entity ids are allocated from: ids handed out while a command
    /// buffer was filled are taken.
    pub fn advance_entities(&mut self, next_entity: u64)
        requires
            old(self).wf(),
        ensures
            final(self).wf(),
            final(self)@ == (WorldModel { next_entity, ..old(self)@ }),
    {
        self.next_entity = next_entity;
        assert(self@.stores == old(self)@.stores);
    }

    /// Returns the entity for a singleton key, allocating one if needed.
    pub fn singleton_entity_or_spawn(&mut self, key: ComponentId) -> (entity: Entity)
        requires
            old(self).wf(),
        ensures
            final(self).wf(),
            if old(self)@.singletons.contains_key(key) {
                entity.id() == old(self)@.singletons[key] && final(self)@ == old(self)@
            } else {
                entity.id() == old(self)@.next_entity && final(self)@ == (WorldModel {
                    next_entity: old(self)@.next_entity.wrapping_add(1),
                    singletons: old(self)@.singletons.insert(key, entity.id()),
                    ..old(self)@
                })
            },
    {
        if let Some(existing) = self.singleton_entities.get(&key) {
            return Entity::from_raw(*existing);
        }
        let entity = self.spawn_empty();
        let ghost spawned = *self;
        self.singleton_entities.insert(key, entity.raw());
        assert(self@.stores == spawned@.stores);
        entity
    }

    /// Returns the entity for a singleton key, registering `candidate` if none
    /// exists yet.
    pub fn singleton_entity_or_register(&mut self, key: ComponentId, candidate: Entity) -> (entity:
        Entity)
        requires
            old(self).wf(),
        ensures
            final(self).wf(),
            if old(self)@.singletons.contains_key(key) {
                entity.id() == old(self)@.singletons[key] && final(self)@ == old(self)@
            } else {
                entity == candidate && final(self)@ == (WorldModel {
                    singletons: old(self)@.singletons.insert(key, candidate.id()),
                    ..old(self)@
                })
            },
    {
        if let Some(existing) = self.singleton_entities.get(&key) {
            return Entity::from_raw(*existing);
        }
        let ghost before = *self;
        self.singleton_entities.insert(key, candidate.raw());
        assert(self@.stores == before@.stores);
        candidate
    }

    /// Whether replacing a stored value in place would count as a change.
    fn changes(&self, entity: Entity, value: &C) -> (changed: bool)
        ensures
            changed == self@.changes(entity, value.model()),
    {
        let kind = value.component_id();
        match self.entry(kind, entity) {
            Some(entry) => C::is_tracked(kind) && match (entry.fingerprint, value.fingerprint()) {
                (Some(before), Some(after)) => before != after,
                _ => true,
            },
            None => false,
        }
    }

    /// Replaces a stored value in place, bumping revisions if the tracked value
    /// changed and keeping the fingerprint index current.
    fn rewrite(&mut self, entity: Entity, value: C)
        requires
            old(self).wf(),
        ensures
            final(self).wf(),
            final(self)@ == old(self)@.rewrite(entity, value.model()),
    {
        let kind = value.component_id();
        let ghost fact = value.model();
        if !self.has(kind, entity) {
            return ;
        }
        let ghost before = *self;
        let changed = self.changes(entity, &value);
        let fingerprint = value.fingerprint();
        let mut store = match self.stores.remove(&kind) {
            Some(store) => store,
            None => Store::new(),
        };
        if let Some(entry) = store.remove(entity.raw()) {
            let revision: u64 = if changed {
                self.revision = bump(self.revision);
                store.bump_watermark(self.revision);
                self.revision
            } else {
                entry.revision
            };
            let shared = Arc::new(value);
            if let Some(cell) = entry.cell {
                self.cells.insert(cell, Arc::clone(&shared));
            }
            let _ = store.insert(
                entity.raw(),
                ComponentEntry {
                    value: shared,
                    revision,
                    fingerprint,
                    origin: entry.origin,
                    owner: entry.owner,
                    cell: entry.cell,
                },
            );
        }
        proof {
            assert(store@.entries =~= before@.rewrite(entity, fact).stores[kind].entries);
        }
        self.stores.insert(kind, store);
        proof {
            lemma_rewrite_keeps_cells(before@, entity, fact);
            assert(self@.stores =~= before@.rewrite(entity, fact).stores);
            assert(self@.cells =~= before@.rewrite(entity, fact).cells);
            assert(self@ =~= before@.rewrite(entity, fact));
            assert(self.presence_wf()) by {
                if let Some(presence) = self.presence {
                    assert forall|k: ComponentId, e: Entity| #[trigger]
                        presence.has(k, e) <==> (presence.universe().contains(k) && self@.has(
                            k,
                            e,
                        )) by {
                        assert(self@.has(k, e) == before@.has(k, e));
                    }
                }
            }
        }
    }

    fn log_write(&mut self, kind: ComponentId, entity: Entity)
        requires
            old(self).wf(),
        ensures
            final(self).wf(),
            final(self)@ == (WorldModel { log: old(self)@.log.push((kind, entity)), ..old(self)@ }),
    {
        self.write_log.push((kind, entity));
        assert(self@.stores == old(self)@.stores);
    }

    fn edge_of(&self, kind: ComponentId, entity: Entity) -> (edge: Option<RelationshipEdge>)
        ensures
            edge == self@.edge_at(kind, entity),
    {
        match self.entry(kind, entity) {
            Some(entry) => entry.value.relationship_edge(),
            None => None,
        }
    }

    /// Moves a stored value into a cell that nothing shares.
    fn unshare(&mut self, kind: ComponentId, entity: Entity)
        requires
            old(self).wf(),
        ensures
            final(self).wf(),
            final(self)@ == old(self)@.unshared(kind, entity),
    {
        if !self.has(kind, entity) {
            return ;
        }
        let ghost before = *self;
        let mut store = match self.stores.remove(&kind) {
            Some(store) => store,
            None => Store::new(),
        };
        let cell = self.take_cell();
        if let Some(entry) = store.remove(entity.raw()) {
            let _ = store.insert(entity.raw(), ComponentEntry { cell, ..entry });
        }
        assert(store@.entries =~= before@.unshared(kind, entity).stores[kind].entries);
        self.stores.insert(kind, store);
        proof {
            lemma_unshared_keeps_cells(before@, kind, entity);
            assert(self@.stores =~= before@.unshared(kind, entity).stores);
            assert(self@.cells == before@.cells);
            assert(self@ =~= before@.unshared(kind, entity));
            assert(self.presence_wf()) by {
                if let Some(presence) = self.presence {
                    assert forall|k: ComponentId, e: Entity| #[trigger]
                        presence.has(k, e) <==> (presence.universe().contains(k) && self@.has(
                            k,
                            e,
                        )) by {
                        assert(self@.has(k, e) == before@.has(k, e));
                    }
                }
            }
        }
    }

    /// Replaces one component in the live world by a changed copy. Snapshots keep
    /// the value that they saw; otherwise this is a live update.
    pub fn update_component_copied(&mut self, entity: Entity, value: C) -> (changed: Option<bool>)
        requires
            old(self).wf(),
        ensures
            final(self).wf(),
            final(self)@ == old(self)@.update_copied(entity, value.model()),
            changed == if old(self)@.has(C::kind(value.model()), entity) {
                Some(old(self)@.moves(entity, value.model()))
            } else {
                None
            },
    {
        self.unshare(value.component_id(), entity);
        self.update_component_live(entity, value)
    }

    /// What the cell of an entry that was seen in a snapshot holds now.
    pub fn cell_value<'a>(&'a self, seen: &'a ComponentEntry<C>) -> (value: &'a C)
        ensures
            value.model() == self@.cell_value(seen@.cell, seen@.value),
    {
        match seen.cell {
            Some(cell) => match self.cells.get(&cell) {
                Some(value) => {
                    assert(self@.cells[cell] == value.model());
                    value
                },
                None => &seen.value,
            },
            None => &seen.value,
        }
    }

    /// Replaces one component in the live world and updates revision metadata.
    /// Snapshots read the new value.
    ///
    /// If the fingerprint is unchanged, the component keeps its existing
    /// revision. Components without fingerprints conservatively bump on every
    /// update. An edge that points elsewhere now is relinked. The result says
    /// whether the world moved; `None` means that the entity lacks the component.
    pub fn update_component_live(&mut self, entity: Entity, value: C) -> (changed: Option<bool>)
        requires
            old(self).wf(),
        ensures
            final(self).wf(),
            final(self)@ == old(self)@.update(entity, value.model()),
            changed == if old(self)@.has(C::kind(value.model()), entity) {
                Some(old(self)@.moves(entity, value.model()))
            } else {
                None
            },
    {
        let kind = value.component_id();
        if !self.has(kind, entity) {
            return None;
        }
        let changed = self.changes(entity, &value);
        let before = self.edge_of(kind, entity);
        let after = value.relationship_edge();
        let moved = changed || edge_retargets::<C>(before, after);
        proof {
            C::edge_laws(value.model());
            C::edge_laws(self@.entry(kind, entity)->0.value);
        }
        self.rewrite(entity, value);
        if changed {
            self.log_write(kind, entity);
        }
        self.relink(entity, before, after);
        Some(moved)
    }

    /// Reconciles rows mutated in place by a finished invocation.
    ///
    /// Recomputes each written row's fingerprint; tracked value changes bump
    /// the row and world revisions, and the fingerprint index is updated. Edges
    /// that point elsewhere now are relinked.
    pub fn reconcile_written(&mut self, writes: Vec<(Entity, C)>)
        requires
            old(self).wf(),
        ensures
            final(self).wf(),
            final(self)@ == old(self)@.reconcile_each(write_facts(writes@)),
    {
        let ghost before = self@;
        let ghost all = writes@;
        let mut writes = writes;
        let mut rest: Vec<(Entity, C)> = Vec::new();
        while writes.len() > 0
            invariant
                writes@ + rest@.reverse() =~= all,
            decreases writes@.len(),
        {
            let ghost left = writes@;
            if let Some(write) = writes.pop() {
                let ghost moved = rest@;
                rest.push(write);
                assert(left =~= writes@.push(write));
                assert(rest@.reverse() =~= seq![write] + moved.reverse());
            }
        }
        assert(rest@.reverse() =~= all);
        let ghost count = all.len() as int;
        assert(write_facts(all).take(0) =~= Seq::<(Entity, C::Model)>::empty());
        while rest.len() > 0
            invariant
                self.wf(),
                count == all.len(),
                rest@.len() <= count,
                rest@.reverse() =~= all.skip(count - rest@.len()),
                self@ == before.reconcile_each(write_facts(all).take(count - rest@.len())),
            decreases rest@.len(),
        {
            let ghost at = count - rest@.len();
            let ghost queue = rest@;
            if let Some((entity, value)) = rest.pop() {
                proof {
                    assert(queue.reverse()[0] == (entity, value));
                    assert(all.skip(at)[0] == all[at]);
                    assert(write_facts(all)[at] == (entity, value.model()));
                    assert(write_facts(all).take(at + 1).drop_last() =~= write_facts(all).take(at));
                    assert(rest@.reverse() =~= queue.reverse().drop_first());
                    assert(all.skip(at).drop_first() =~= all.skip(at + 1));
                }
                let kind = value.component_id();
                if self.stores.contains_key(&kind) {
                    let carried = self.has(kind, entity);
                    let old_edge = self.edge_of(kind, entity);
                    let new_edge = value.relationship_edge();
                    proof {
                        C::edge_laws(value.model());
                        if carried {
                            C::edge_laws(self@.entry(kind, entity)->0.value);
                        }
                    }
                    self.rewrite(entity, value);
                    self.log_write(kind, entity);
                    if carried {
                        self.relink(entity, old_edge, new_edge);
                    }
                }
            }
        }
        assert(write_facts(all).take(count) =~= write_facts(all));
    }

    /// The lifecycle hooks that became due and were not delivered yet, in order.
    pub fn due_hooks(&self) -> (due: &Vec<HookRun>)
        ensures
            due@ == self@.hooks,
    {
        &self.hooks
    }

    /// Delivers the lifecycle hooks that became due, in order.
    pub fn run_hooks(&mut self)
        requires
            old(self).wf(),
        ensures
            final(self).wf(),
            final(self)@ == (WorldModel { hooks: Seq::<HookRun>::empty(), ..old(self)@ }),
    {
        let ghost before = *self;
        let mut due: Vec<HookRun> = Vec::new();
        std::mem::swap(&mut due, &mut self.hooks);
        assert(self@.stores == before@.stores);
        let mut i: usize = 0;
        while i < due.len()
            invariant
                i <= due@.len(),
            decreases due@.len() - i,
        {
            let run = due[i];
            let context = ComponentHookContext::new(run.entity);
            match run.hook {
                Hook::Insert => C::on_insert(run.kind, context),
                Hook::Remove => C::on_remove(run.kind, context),
                Hook::EntityRemove => C::on_entity_remove(run.kind, context),
            }
            i = i + 1;
        }
    }

    /// Rolls the plan epoch when the write log has grown past its budget:
    /// clears the log, which makes every delta cursor stale.
    pub fn maybe_roll_plan_epoch(&mut self)
        requires
            old(self).wf(),
        ensures
            final(self).wf(),
            final(self)@ == if old(self)@.log.len() > WRITE_LOG_BUDGET {
                WorldModel {
                    epoch: next(old(self)@.epoch),
                    log: Seq::<Cell>::empty(),
                    ..old(self)@
                }
            } else {
                old(self)@
            },
    {
        if self.write_log.len() > WRITE_LOG_BUDGET {
            self.plan_epoch = bump(self.plan_epoch);
            self.write_log = Vec::new();
            assert(self@.stores == old(self)@.stores);
        }
    }

    /// The current write log and plan epoch.
    pub fn plan_log(&self) -> (log: (&Vec<Cell>, u64))
        ensures
            log.0@ == self@.log,
            log.1 == self@.epoch,
    {
        (&self.write_log, self.plan_epoch)
    }

    /// Installs the presence index over a closed component universe, before any
    /// component is stored.
    pub fn init_presence(&mut self, universe: &Vec<ComponentId>)
        requires
            old(self).wf(),
            old(self)@.stores.dom() == Set::<ComponentId>::empty(),
            universe@.len() <= u32::MAX,
        ensures
            final(self).wf(),
            final(self)@ == (WorldModel { universe: Some(universe@.to_set()), ..old(self)@ }),
    {
        self.presence = Some(PresenceIndex::new(universe));
        assert(self@.stores == old(self)@.stores);
        proof {
            assert forall|kind: ComponentId, entity: Entity| !#[trigger] self@.has(kind, entity) by {
                if self@.stores.contains_key(kind) {
                    assert(old(self)@.stores.dom().contains(kind));
                }
            }
        }
    }

    /// The presence index, when this world was built over a universe.
    pub fn presence(&self) -> (presence: Option<&PresenceIndex>)
        requires
            self.wf(),
        ensures
            match presence {
                Some(presence) => {
                    &&& self@.universe == Some(presence.universe())
                    &&& presence.wf()
                    &&& forall|kind: ComponentId, entity: Entity| #[trigger]
                        presence.has(kind, entity) <==> (presence.universe().contains(kind)
                            && self@.has(kind, entity))
                },
                None => self@.universe is None,
            },
    {
        self.presence.as_ref()
    }

    /// Drains the derived component writes recorded since the last drain.
    pub fn take_written_derived(&mut self) -> (written: Vec<Cell>)
        requires
            old(self).wf(),
        ensures
            final(self).wf(),
            written@ == old(self)@.written,
            final(self)@ == (WorldModel { written: Seq::<Cell>::empty(), ..old(self)@ }),
    {
        let mut written: Vec<Cell> = Vec::new();
        std::mem::swap(&mut written, &mut self.written_derived);
        assert(self@.stores == old(self)@.stores);
        written
    }

    /// Drains the entities removed since the last drain.
    pub fn take_removed_entities(&mut self) -> (removed: Vec<Entity>)
        requires
            old(self).wf(),
        ensures
            final(self).wf(),
            removed@ == old(self)@.removed,
            final(self)@ == (WorldModel { removed: Seq::<Entity>::empty(), ..old(self)@ }),
    {
        let mut removed: Vec<Entity> = Vec::new();
        std::mem::swap(&mut removed, &mut self.removed_entities);
        assert(self@.stores == old(self)@.stores);
        removed
    }

    fn share_stores(&self) -> (copy: BTreeMap<ComponentId, Store<C>>)
        requires
            self.stores_wf(),
        ensures
            copy@.dom() == self.stores@.dom(),
            forall|kind: ComponentId| #[trigger]
                copy@.contains_key(kind) ==> copy@[kind].wf() && copy@[kind]@
                    == self.stores@[kind]@,
    {
        let mut copy: BTreeMap<ComponentId, Store<C>> = BTreeMap::new();
        let kinds = map_keys(&self.stores);
        let mut i: usize = 0;
        while i < kinds.len()
            invariant
                self.stores_wf(),
                i <= kinds@.len(),
                kinds@.to_set() == self.stores@.dom(),
                forall|kind: ComponentId| #[trigger]
                    copy@.contains_key(kind) <==> kinds@.take(i as int).contains(kind),
                forall|kind: ComponentId| #[trigger]
                    copy@.contains_key(kind) ==> copy@[kind].wf() && copy@[kind]@
                        == self.stores@[kind]@,
            decreases kinds@.len() - i,
        {
            let kind = kinds[i];
            assert(kinds@.to_set().contains(kind));
            if let Some(store) = self.stores.get(&kind) {
                copy.insert(kind, store.share());
            }
            i = i + 1;
            proof {
                lemma_take_next(kinds@, i - 1);
            }
        }
        assert(kinds@.take(kinds@.len() as int) =~= kinds@);
        proof {
            assert forall|kind: ComponentId|
                copy@.contains_key(kind) <==> self.stores@.contains_key(kind) by {
                assert(kinds@.contains(kind) <==> kinds@.to_set().contains(kind));
            }
            assert(copy@.dom() =~= self.stores@.dom());
        }
        copy
    }

    fn share_singletons(&self) -> (copy: BTreeMap<ComponentId, u64>)
        ensures
            copy@ == self.singleton_entities@,
    {
        let mut copy: BTreeMap<ComponentId, u64> = BTreeMap::new();
        let keys = map_keys(&self.singleton_entities);
        let mut i: usize = 0;
        while i < keys.len()
            invariant
                i <= keys@.len(),
                keys@.to_set() == self.singleton_entities@.dom(),
                forall|key: ComponentId| #[trigger]
                    copy@.contains_key(key) <==> keys@.take(i as int).contains(key),
                forall|key: ComponentId| #[trigger]
                    copy@.contains_key(key) ==> copy@[key] == self.singleton_entities@[key],
            decreases keys@.len() - i,
        {
            let key = keys[i];
            assert(keys@.to_set().contains(key));
            if let Some(entity) = self.singleton_entities.get(&key) {
                copy.insert(key, *entity);
            }
            i = i + 1;
            proof {
                lemma_take_next(keys@, i - 1);
            }
        }
        assert(keys@.take(keys@.len() as int) =~= keys@);
        proof {
            assert forall|key: ComponentId|
                copy@.contains_key(key) <==> self.singleton_entities@.contains_key(key) by {
                assert(keys@.contains(key) <==> keys@.to_set().contains(key));
            }
            assert(copy@ =~= self.singleton_entities@);
        }
        copy
    }

    /// A structural copy of the world. Stored values are shared; commit
    /// bookkeeping is left out.
    pub fn snapshot(&self) -> (copy: Snapshot<C>)
        requires
            self.wf(),
        ensures
            copy.wf(),
            copy@ == self@.snapshot(),
    {
        let copy: World<C> = World {
            next_entity: self.next_entity,
            revision: self.revision,
            mutations: self.mutations,
            stores: self.share_stores(),
            singleton_entities: self.share_singletons(),
            derived_owners: InvocationMap::new(),
            derived_spawns: self.derived_spawns.share(),
            spawn_cursors: InvocationMap::new(),
            removed_entities: Vec::new(),
            pending_derived_from: Vec::new(),
            written_derived: Vec::new(),
            presence: match &self.presence {
                Some(presence) => Some(presence.share()),
                None => None,
            },
            write_log: Vec::new(),
            plan_epoch: self.plan_epoch,
            hooks: Vec::new(),
            cells: BTreeMap::new(),
            next_cell: self.next_cell,
        };
        proof {
            assert(copy@.stores =~= self@.stores);
            assert(copy@.pending =~= Seq::<PendingAnchor>::empty());
            assert(copy@.cells =~= Map::<u64, C::Model>::empty());
            assert(copy@ =~= self@.snapshot());
            if copy.presence is Some {
                let presence = copy.presence->0;
                assert forall|k: ComponentId, e: Entity| #[trigger]
                    presence.has(k, e) <==> (presence.universe().contains(k) && copy@.has(
                        k,
                        e,
                    )) by {
                    assert(self.presence->0.has(k, e) <==> (presence.universe().contains(k)
                        && self@.has(k, e)));
                }
            }
        }
        copy
    }
}

/// One more element of a sequence is seen.
proof fn lemma_take_next(keys: Seq<u64>, i: int)
    requires
        0 <= i < keys.len(),
    ensures
        forall|key: u64|
            keys.take(i + 1).contains(key) <==> (#[trigger] keys.take(i).contains(key) || key
                == keys[i]),
        forall|key: u64| #[trigger]
            keys.take(i + 1).contains(key) <==> (keys.take(i).contains(key) || key == keys[i]),
{
    let before = keys.take(i);
    let now = keys.take(i + 1);
    assert(now =~= before.push(keys[i]));
    assert forall|key: u64| #[trigger]
        now.contains(key) <==> (before.contains(key) || key == keys[i]) by {
        if before.contains(key) {
            let j = choose|j: int| 0 <= j < before.len() && before[j] == key;
            assert(now[j] == key);
        }
        assert(now[i] == keys[i]);
    }
}

/// The meanings of a list of in-place writes.
pub open spec fn write_facts<C: Component>(writes: Seq<(Entity, C)>) -> Seq<(Entity, C::Model)> {
    writes.map_values(|write: (Entity, C)| (write.0, write.1.model()))
}

impl<C: RelationshipTarget> World<C> {
    /// Borrows a component from the world.
    pub fn get(&self, kind: ComponentId, entity: Entity) -> (value: Option<&C>)
        ensures
            match value {
                Some(value) => self@.entry(kind, entity) matches Some(entry) && entry.value
                    == value.model(),
                None => !self@.has(kind, entity),
            },
    {
        match self.entry(kind, entity) {
            Some(entry) => Some(&*entry.value),
            None => None,
        }
    }

    /// Returns the revision of a component on an entity.
    pub fn revision(&self, kind: ComponentId, entity: Entity) -> (revision: Option<u64>)
        ensures
            revision == match self@.entry(kind, entity) {
                Some(entry) => Some(entry.revision),
                None => None,
            },
    {
        match self.entry(kind, entity) {
            Some(entry) => Some(entry.revision),
            None => None,
        }
    }

    /// Returns the stamped fingerprint of a component on an entity: `None` when
    /// the entity lacks the component or the component has no fingerprint.
    pub fn fingerprint(&self, kind: ComponentId, entity: Entity) -> (fingerprint: Option<u64>)
        ensures
            fingerprint == match self@.entry(kind, entity) {
                Some(entry) => entry.fingerprint,
                None => None,
            },
    {
        match self.entry(kind, entity) {
            Some(entry) => entry.fingerprint,
            None => None,
        }
    }

    /// Store size; `usize::MAX` for an absent store, so that it is never picked
    /// as a probing driver over a present one.
    pub fn store_len_dyn(&self, kind: ComponentId) -> (len: usize)
        ensures
            len == if self@.stores.contains_key(kind) {
                self@.stores[kind].entries.dom().len()
            } else {
                usize::MAX as nat
            },
    {
        match self.stores.get(&kind) {
            Some(store) => store.len(),
            None => usize::MAX,
        }
    }

    /// Number of entities that currently have a component of type `kind`.
    pub fn store_len(&self, kind: ComponentId) -> (len: usize)
        ensures
            len == self@.column(kind).entries.dom().len(),
    {
        match self.stores.get(&kind) {
            Some(store) => store.len(),
            None => 0,
        }
    }

    /// Entities that currently have a component of type `kind`, ascending.
    pub fn entities_with(&self, kind: ComponentId) -> (entities: Vec<Entity>)
        ensures
            entities@ == as_entities(sorted_keys(self@.column(kind).entries.dom())),
            ascending(ids(entities@)),
            forall|entity: Entity|
                entities@.contains(entity) <==> #[trigger] self@.has(kind, entity),
    {
        let raw: Vec<u64> = match self.stores.get(&kind) {
            Some(store) => store.entities(),
            None => {
                let none: Vec<u64> = Vec::new();
                proof {
                    assert(none@.to_set() =~= Set::<u64>::empty());
                    assert(self@.column(kind).entries.dom() =~= Set::<u64>::empty());
                    crate::model::lemma_sorted_keys(none@, Set::<u64>::empty());
                }
                none
            },
        };
        let entities = entities_of(&raw);
        proof {
            assert forall|entity: Entity|
                entities@.contains(entity) <==> #[trigger] self@.has(kind, entity) by {
                lemma_as_entities(raw@, entity);
                assert(raw@.contains(entity.id()) <==> raw@.to_set().contains(entity.id()));
            }
        }
        entities
    }

    /// Entities whose stored fingerprint for `kind` equals `fingerprint`,
    /// ascending: the pair candidates of an index-driven equality join.
    pub fn fingerprint_candidates(&self, kind: ComponentId, fingerprint: u64) -> (entities: Vec<
        Entity,
    >)
        requires
            self.wf(),
        ensures
            entities@ == as_entities(
                sorted_keys(stamped_with(self@.column(kind), fingerprint)),
            ),
            ascending(ids(entities@)),
            forall|entity: Entity|
                entities@.contains(entity) <==> (#[trigger] self@.has(kind, entity)
                    && self@.entry(kind, entity)->0.fingerprint == Some(fingerprint)),
    {
        let raw: Vec<u64> = match self.stores.get(&kind) {
            Some(store) => store.fingerprint_entities(fingerprint),
            None => {
                let none: Vec<u64> = Vec::new();
                proof {
                    assert(none@.to_set() =~= Set::<u64>::empty());
                    assert(stamped_with(self@.column(kind), fingerprint) =~= Set::<u64>::empty());
                    crate::model::lemma_sorted_keys(none@, Set::<u64>::empty());
                }
                none
            },
        };
        let entities = entities_of(&raw);
        proof {
            assert forall|entity: Entity|
                entities@.contains(entity) <==> (#[trigger] self@.has(kind, entity)
                    && self@.entry(kind, entity)->0.fingerprint == Some(fingerprint)) by {
                lemma_as_entities(raw@, entity);
                assert(raw@.contains(entity.id()) <==> raw@.to_set().contains(entity.id()));
            }
        }
        entities
    }

    /// Highest revision at which the store for `kind` changed; zero when no
    /// such store exists.
    pub fn store_watermark(&self, kind: ComponentId) -> (watermark: u64)
        ensures
            watermark == self@.column(kind).watermark,
    {
        match self.stores.get(&kind) {
            Some(store) => store.watermark(),
            None => 0,
        }
    }

    /// The entity that holds a singleton key.
    pub fn singleton_entity(&self, key: ComponentId) -> (entity: Option<Entity>)
        ensures
            match entity {
                Some(entity) => self@.singletons.contains_key(key) && self@.singletons[key]
                    == entity.id(),
                None => !self@.singletons.contains_key(key),
            },
    {
        match self.singleton_entities.get(&key) {
            Some(entity) => Some(Entity::from_raw(*entity)),
            None => None,
        }
    }

    /// The next entity id to be allocated.
    pub fn next_entity_raw(&self) -> (next_entity: u64)
        ensures
            next_entity == self@.next_entity,
    {
        self.next_entity
    }

    /// Current global revision.
    pub fn revision_raw(&self) -> (revision: u64)
        ensures
            revision == self@.revision,
    {
        self.revision
    }

    /// Current structural mutation counter.
    pub fn mutations_raw(&self) -> (mutations: u64)
        ensures
            mutations == self@.mutations,
    {
        self.mutations
    }
}

/// The ids of a list of entities.
pub open spec fn ids(entities: Seq<Entity>) -> Seq<u64> {
    entities.map_values(|entity: Entity| entity.id())
}

/// The entities with the given ids.
pub open spec fn as_entities(raw: Seq<u64>) -> Seq<Entity> {
    raw.map_values(|id: u64| Entity::of(id))
}

/// An entity is listed exactly when its id is.
pub proof fn lemma_as_entities(raw: Seq<u64>, entity: Entity)
    ensures
        as_entities(raw).contains(entity) <==> raw.contains(entity.id()),
{
    let entities = as_entities(raw);
    if entities.contains(entity) {
        let i = choose|i: int| 0 <= i < entities.len() && entities[i] == entity;
        assert(raw[i] == entity.id());
    }
    if raw.contains(entity.id()) {
        let i = choose|i: int| 0 <= i < raw.len() && raw[i] == entity.id();
        crate::entity::lemma_entity_is_its_id(entities[i], entity);
    }
}

/// The entities with the given ids.
pub fn entities_of(raw: &Vec<u64>) -> (entities: Vec<Entity>)
    ensures
        entities@ == as_entities(raw@),
        ids(entities@) == raw@,
{
    let mut entities: Vec<Entity> = Vec::new();
    let mut i: usize = 0;
    while i < raw.len()
        invariant
            i <= raw@.len(),
            entities@ =~= as_entities(raw@).take(i as int),
        decreases raw@.len() - i,
    {
        entities.push(Entity::from_raw(raw[i]));
        i = i + 1;
    }
    assert(entities@ =~= as_entities(raw@));
    assert(ids(entities@) =~= raw@);
    entities
}

} // verus!
