//! Component storage of the database.

use crate::component::{Component, ComponentId};
use crate::entity::Entity;
use crate::invocation::{Invocation, SystemInvocation};
use crate::keys::map_keys;
use crate::model::{ascending, next, sorted_keys, Entry, Origin};
use crate::store::ComponentEntry;
use std::collections::BTreeMap;
use std::sync::Arc;
use vstd::prelude::*;

verus! {

/// What the database stores.
#[verifier::ext_equal]
#[verifier::reject_recursive_types(C)]
pub struct TablesModel<C: Component> {
    pub next_entity: u64,
    pub revision: u64,
    pub tables: Map<ComponentId, Map<u64, Entry<C>>>,
}

/// Which derived entries are swept out.
pub enum Sweep<'a> {
    /// Those of one invocation.
    Owned(&'a SystemInvocation),
    /// Those whose invocation was keyed by one of these entities.
    Touched(&'a Vec<Entity>),
}

/// What a sweep takes.
pub enum SweepModel {
    Owned(Invocation),
    Touched(Seq<Entity>),
}

impl<'a> View for Sweep<'a> {
    type V = SweepModel;

    open spec fn view(&self) -> SweepModel {
        match *self {
            Sweep::Owned(owner) => SweepModel::Owned(owner@),
            Sweep::Touched(entities) => SweepModel::Touched(entities@),
        }
    }
}

impl SweepModel {
    /// Whether an entry is swept out.
    pub open spec fn takes<C: Component>(self, entry: Entry<C>) -> bool {
        entry.origin == Origin::Derived && match (self, entry.owner) {
            (SweepModel::Owned(owner), Some(found)) => found == owner,
            (SweepModel::Touched(entities), Some(found)) => found.touched_by(entities),
            (_, None) => false,
        }
    }
}

impl<C: Component> TablesModel<C> {
    /// Nothing stored.
    pub open spec fn empty() -> Self {
        TablesModel { next_entity: 0, revision: 0, tables: Map::empty() }
    }

    /// The entries of one component type.
    pub open spec fn table(self, kind: ComponentId) -> Map<u64, Entry<C>> {
        if self.tables.contains_key(kind) {
            self.tables[kind]
        } else {
            Map::empty()
        }
    }

    /// The entry of component `kind` on `entity`.
    pub open spec fn entry(self, kind: ComponentId, entity: Entity) -> Option<Entry<C>> {
        if self.table(kind).contains_key(entity.id()) {
            Some(self.table(kind)[entity.id()])
        } else {
            None
        }
    }

    /// Whether `entity` carries a component of type `kind`.
    pub open spec fn has(self, kind: ComponentId, entity: Entity) -> bool {
        self.table(kind).contains_key(entity.id())
    }

    /// The entities with a component of type `kind`, ascending.
    pub open spec fn entities_with(self, kind: ComponentId) -> Seq<u64> {
        sorted_keys(self.table(kind).dom())
    }

    /// Every value is filed under its own component type.
    pub open spec fn consistent(self) -> bool {
        forall|kind: ComponentId, id: u64|
            #![trigger self.tables[kind][id]]
            self.tables.contains_key(kind) && self.tables[kind].contains_key(id) ==> C::kind(
                self.tables[kind][id].value,
            ) == kind
    }

    /// A fresh entity was handed out.
    pub open spec fn spawned(self) -> Self {
        TablesModel { next_entity: next(self.next_entity), ..self }
    }

    /// Whether an insert repeats what is stored: a fingerprint, and the same one.
    pub open spec fn repeats(self, entity: Entity, value: C::Model) -> bool {
        self.entry(C::kind(value), entity) matches Some(entry) && entry.fingerprint is Some
            && entry.fingerprint == C::stamp(value)
    }

    /// The revision that an insert is stored under: the old one where it repeats
    /// what is stored, else a new one; an untracked component never makes one.
    pub open spec fn stored_revision(self, entity: Entity, value: C::Model) -> u64 {
        if !C::tracks(C::kind(value)) {
            self.revision
        } else if self.repeats(entity, value) {
            self.entry(C::kind(value), entity)->0.revision
        } else {
            next(self.revision)
        }
    }

    /// A component was inserted.
    pub open spec fn put(
        self,
        entity: Entity,
        value: C::Model,
        origin: Origin,
        owner: Option<Invocation>,
    ) -> Self {
        let kind = C::kind(value);
        TablesModel {
            revision: if C::tracks(kind) && !self.repeats(entity, value) {
                next(self.revision)
            } else {
                self.revision
            },
            tables: self.tables.insert(
                kind,
                self.table(kind).insert(
                    entity.id(),
                    Entry {
                        value,
                        revision: self.stored_revision(entity, value),
                        fingerprint: C::stamp(value),
                        origin,
                        owner,
                        cell: None,
                    },
                ),
            ),
            ..self
        }
    }

    /// Several components were inserted, in order.
    pub open spec fn put_all(
        self,
        entity: Entity,
        values: Seq<C::Model>,
        origin: Origin,
        owner: Option<Invocation>,
    ) -> Self
        decreases values.len(),
    {
        if values.len() == 0 {
            self
        } else {
            self.put_all(entity, values.drop_last(), origin, owner).put(
                entity,
                values.last(),
                origin,
                owner,
            )
        }
    }

    /// One component was removed.
    pub open spec fn removed(self, kind: ComponentId, entity: Entity) -> Self {
        if self.has(kind, entity) {
            TablesModel {
                revision: if C::tracks(kind) {
                    next(self.revision)
                } else {
                    self.revision
                },
                tables: self.tables.insert(kind, self.tables[kind].remove(entity.id())),
                ..self
            }
        } else {
            self
        }
    }

    /// The entries of a table that a sweep takes.
    pub open spec fn swept_keys(self, kind: ComponentId, sweep: SweepModel) -> Set<u64> {
        Set::new(
            |id: u64| self.table(kind).contains_key(id) && sweep.takes(self.table(kind)[id]),
        )
    }

    /// One table was swept; a tracked one that lost entries makes a new revision.
    pub open spec fn swept_table(self, kind: ComponentId, sweep: SweepModel) -> Self {
        TablesModel {
            revision: if C::tracks(kind) && !self.swept_keys(kind, sweep).is_empty() {
                next(self.revision)
            } else {
                self.revision
            },
            tables: self.tables.insert(
                kind,
                self.table(kind).remove_keys(self.swept_keys(kind, sweep)),
            ),
            ..self
        }
    }

    /// Several tables were swept, in order.
    pub open spec fn swept_each(self, kinds: Seq<ComponentId>, sweep: SweepModel) -> Self
        decreases kinds.len(),
    {
        if kinds.len() == 0 {
            self
        } else {
            self.swept_each(kinds.drop_last(), sweep).swept_table(kinds.last(), sweep)
        }
    }

    /// The component types with a table, ascending.
    pub open spec fn kinds(self) -> Seq<ComponentId> {
        sorted_keys(self.tables.dom())
    }

    /// Everything that a sweep takes is gone.
    pub open spec fn swept(self, sweep: SweepModel) -> Self {
        self.swept_each(self.kinds(), sweep)
    }

    /// The entities that lose an entry to a sweep.
    pub open spec fn losers(self, sweep: SweepModel) -> Set<u64> {
        Set::new(|id: u64| exists|kind: ComponentId| #[trigger]
            self.swept_keys(kind, sweep).contains(id))
    }

    /// An entity was removed from some tables, in order.
    pub open spec fn cleared_of(self, kinds: Seq<ComponentId>, entity: Entity) -> Self
        decreases kinds.len(),
    {
        if kinds.len() == 0 {
            self
        } else {
            self.cleared_of(kinds.drop_last(), entity).removed(kinds.last(), entity)
        }
    }

    /// An entity was removed from every table.
    pub open spec fn cleared(self, entity: Entity) -> Self {
        self.cleared_of(self.kinds(), entity)
    }

    /// The invocations that derived the components of an entity.
    pub open spec fn makers_in(self, kinds: Seq<ComponentId>, entity: Entity) -> Seq<Invocation>
        decreases kinds.len(),
    {
        if kinds.len() == 0 {
            Seq::empty()
        } else {
            let before = self.makers_in(kinds.drop_last(), entity);
            match self.entry(kinds.last(), entity) {
                Some(entry) => match entry.owner {
                    Some(owner) if entry.origin == Origin::Derived => before.push(owner),
                    _ => before,
                },
                None => before,
            }
        }
    }

    /// The invocations that derived the components of an entity.
    pub open spec fn makers(self, entity: Entity) -> Seq<Invocation> {
        self.makers_in(self.kinds(), entity)
    }
}

/// What a table holds.
pub open spec fn table_view<C: Component>(table: Map<u64, ComponentEntry<C>>) -> Map<
    u64,
    Entry<C>,
> {
    Map::new(|id: u64| table.contains_key(id), |id: u64| table[id]@)
}

/// Component storage of the database: one table per component type.
pub struct Tables<C> {
    next_entity: u64,
    revision: u64,
    tables: BTreeMap<u64, BTreeMap<u64, ComponentEntry<C>>>,
}

impl<C: Component> View for Tables<C> {
    type V = TablesModel<C>;

    closed spec fn view(&self) -> TablesModel<C> {
        TablesModel {
            next_entity: self.next_entity,
            revision: self.revision,
            tables: Map::new(
                |kind: ComponentId| self.tables@.contains_key(kind),
                |kind: ComponentId| table_view(self.tables@[kind]@),
            ),
        }
    }
}

impl<'a> Sweep<'a> {
    /// Whether an entry is swept out.
    pub fn takes<C: Component>(&self, entry: &ComponentEntry<C>) -> (taken: bool)
        ensures
            taken == self@.takes(entry@),
    {
        match &entry.owner {
            None => false,
            Some(found) => {
                if entry.origin != Origin::Derived {
                    return false;
                }
                match self {
                    Sweep::Owned(owner) => found.same(owner),
                    Sweep::Touched(entities) => found.touches(entities),
                }
            },
        }
    }
}

/// Sweeps one table; the swept ids in ascending order.
fn sweep_table<C: Component>(
    table: BTreeMap<u64, ComponentEntry<C>>,
    sweep: &Sweep,
) -> (swept: (BTreeMap<u64, ComponentEntry<C>>, Vec<u64>))
    ensures
        table_view(swept.0@) == table_view(table@).remove_keys(
            Set::new(
                |id: u64|
                    table_view(table@).contains_key(id) && sweep@.takes(table_view(table@)[id]),
            ),
        ),
        swept.1@.to_set() == Set::new(
            |id: u64|
                table_view(table@).contains_key(id) && sweep@.takes(table_view(table@)[id]),
        ),
{
    let ghost before = table_view(table@);
    let ghost taken = Set::new(|id: u64| before.contains_key(id) && sweep@.takes(before[id]));
    let mut table = table;
    let mut gone: Vec<u64> = Vec::new();
    let keys = map_keys(&table);
    let mut i: usize = 0;
    assert(table_view(table@) =~= before.remove_keys(gone@.to_set()));
    assert(keys@.to_set() =~= before.dom());
    while i < keys.len()
        invariant
            i <= keys@.len(),
            keys@.to_set() == before.dom(),
            taken == Set::new(|id: u64| before.contains_key(id) && sweep@.takes(before[id])),
            table_view(table@) == before.remove_keys(gone@.to_set()),
            ascending(keys@),
            forall|j: int| 0 <= j < gone@.len() ==> taken.contains(#[trigger] gone@[j]),
            forall|j: int| 0 <= j < gone@.len() ==> keys@.take(i as int).contains(#[trigger] gone@[j]),
            forall|j: int|
                0 <= j < i ==> (taken.contains(#[trigger] keys@[j]) ==> gone@.contains(keys@[j])),
        decreases keys@.len() - i,
    {
        let id: u64 = keys[i];
        let ghost gone_before = gone@;
        proof {
            assert(keys@.to_set().contains(id));
            assert forall|j: int| 0 <= j < gone@.len() implies #[trigger] gone@[j] != id by {
                let earlier = keys@.take(i as int);
                assert(earlier.contains(gone@[j]));
                let k = choose|k: int| 0 <= k < earlier.len() && earlier[k] == gone@[j];
                assert(keys@[k] < keys@[i as int]);
            }
            assert(table_view(table@).contains_key(id));
        }
        let take = match table.get(&id) {
            Some(entry) => sweep.takes(entry),
            None => false,
        };
        assert(take == taken.contains(id)) by {
            assert(table_view(table@)[id] == before[id]);
        }
        if take {
            let ghost held = table_view(table@);
            table.remove(&id);
            gone.push(id);
            proof {
                assert(table_view(table@) =~= held.remove(id));
                assert(gone@.to_set() =~= gone_before.to_set().insert(id)) by {
                    assert forall|x: u64|
                        gone@.to_set().contains(x) <==> gone_before.to_set().insert(id).contains(
                            x,
                        ) by {
                        if gone_before.contains(x) {
                            let k = choose|k: int|
                                0 <= k < gone_before.len() && gone_before[k] == x;
                            assert(gone@[k] == x);
                        }
                        assert(gone@[gone_before.len() as int] == id);
                    }
                }
                assert(table_view(table@) =~= before.remove_keys(gone@.to_set()));
            }
        }
        proof {
            assert forall|j: int| 0 <= j < gone@.len() implies keys@.take(i + 1).contains(
                #[trigger] gone@[j],
            ) by {
                if j < gone_before.len() {
                    assert(gone_before[j] == gone@[j]);
                    let earlier = keys@.take(i as int);
                    assert(earlier.contains(gone_before[j]));
                    let k = choose|k: int| 0 <= k < earlier.len() && earlier[k] == gone@[j];
                    assert(keys@.take(i + 1)[k] == gone@[j]);
                } else {
                    assert(keys@.take(i + 1)[i as int] == gone@[j]);
                }
            }
            assert forall|j: int| 0 <= j < i + 1 && taken.contains(#[trigger] keys@[j]) implies
                gone@.contains(keys@[j]) by {
                if j < i {
                    assert(gone_before.contains(keys@[j]));
                    let k = choose|k: int|
                        0 <= k < gone_before.len() && gone_before[k] == keys@[j];
                    assert(gone@[k] == keys@[j]);
                } else {
                    assert(gone@[gone@.len() - 1] == keys@[j]);
                }
            }
        }
        i = i + 1;
    }
    proof {
        assert(gone@.to_set() =~= taken) by {
            assert forall|x: u64| gone@.to_set().contains(x) <==> taken.contains(x) by {
                if taken.contains(x) {
                    assert(keys@.to_set().contains(x));
                    let k = choose|k: int| 0 <= k < keys@.len() && keys@[k] == x;
                    assert(gone@.contains(keys@[k]));
                }
            }
        }
    }
    (table, gone)
}

/// The counter value after `counter`; the last one stays where it is.
fn bump(counter: u64) -> (after: u64)
    ensures
        after == next(counter),
{
    if counter == u64::MAX {
        counter
    } else {
        counter + 1
    }
}

impl<C: Component> Tables<C> {
    /// Nothing stored.
    pub fn new() -> (tables: Self)
        ensures
            tables@ == TablesModel::<C>::empty(),
    {
        let tables = Tables { next_entity: 0, revision: 0, tables: BTreeMap::new() };
        assert(tables@ =~= TablesModel::<C>::empty());
        tables
    }

    /// The first entity that was not handed out.
    pub fn next_entity(&self) -> (next: u64)
        ensures
            next == self@.next_entity,
    {
        self.next_entity
    }

    /// Hands out a fresh entity.
    pub fn spawn_empty(&mut self) -> (entity: Entity)
        ensures
            entity == Entity::<crate::entity::Untyped>::of(old(self)@.next_entity),
            final(self)@ == old(self)@.spawned(),
    {
        let entity = Entity::from_raw(self.next_entity);
        self.next_entity = bump(self.next_entity);
        assert(self@.tables =~= old(self)@.tables);
        entity
    }

    /// The entry of component `kind` on `entity`.
    pub fn entry(&self, kind: ComponentId, entity: Entity) -> (entry: Option<&ComponentEntry<C>>)
        ensures
            match entry {
                Some(entry) => self@.entry(kind, entity) == Some(entry@),
                None => self@.entry(kind, entity) is None,
            },
    {
        match self.tables.get(&kind) {
            Some(table) => table.get(&entity.raw()),
            None => None,
        }
    }

    /// The component `kind` of `entity`.
    pub fn get(&self, kind: ComponentId, entity: Entity) -> (value: Option<&C>)
        ensures
            match value {
                Some(value) => self@.entry(kind, entity) matches Some(entry) && entry.value
                    == value.model(),
                None => self@.entry(kind, entity) is None,
            },
    {
        match self.entry(kind, entity) {
            Some(entry) => Some(&*entry.value),
            None => None,
        }
    }

    /// The revision that the component `kind` of `entity` was stored under.
    pub fn revision(&self, kind: ComponentId, entity: Entity) -> (revision: Option<u64>)
        ensures
            match revision {
                Some(revision) => self@.entry(kind, entity) matches Some(entry) && entry.revision
                    == revision,
                None => self@.entry(kind, entity) is None,
            },
    {
        match self.entry(kind, entity) {
            Some(entry) => Some(entry.revision),
            None => None,
        }
    }

    /// Whether `entity` carries a component of type `kind`.
    pub fn has(&self, kind: ComponentId, entity: Entity) -> (present: bool)
        ensures
            present == self@.has(kind, entity),
    {
        self.entry(kind, entity).is_some()
    }

    /// The entities with a component of type `kind`, ascending.
    pub fn entities_with(&self, kind: ComponentId) -> (entities: Vec<u64>)
        ensures
            entities@ == self@.entities_with(kind),
    {
        match self.tables.get(&kind) {
            Some(table) => {
                assert(self@.table(kind).dom() =~= table@.dom());
                map_keys(table)
            },
            None => {
                let entities: Vec<u64> = Vec::new();
                proof {
                    assert(self@.table(kind).dom() =~= Set::<u64>::empty());
                    assert(entities@.to_set() =~= Set::<u64>::empty());
                    crate::model::lemma_sorted_keys(entities@, self@.table(kind).dom());
                }
                entities
            },
        }
    }

    fn take_table(&mut self, kind: ComponentId) -> (table: BTreeMap<u64, ComponentEntry<C>>)
        ensures
            table_view(table@) == old(self)@.table(kind),
            final(self)@ == (TablesModel { tables: old(self)@.tables.remove(kind), ..old(self)@ }),
    {
        let taken = self.tables.remove(&kind);
        assert(self@.tables =~= old(self)@.tables.remove(kind));
        match taken {
            Some(table) => table,
            None => {
                let table: BTreeMap<u64, ComponentEntry<C>> = BTreeMap::new();
                assert(table_view(table@) =~= Map::<u64, Entry<C>>::empty());
                table
            },
        }
    }

    fn set_table(&mut self, kind: ComponentId, table: BTreeMap<u64, ComponentEntry<C>>)
        ensures
            final(self)@ == (TablesModel {
                tables: old(self)@.tables.insert(kind, table_view(table@)),
                ..old(self)@
            }),
    {
        self.tables.insert(kind, table);
        assert(self@.tables =~= old(self)@.tables.insert(kind, table_view(table@)));
    }

    /// Inserts a component.
    pub fn insert(
        &mut self,
        entity: Entity,
        value: Arc<C>,
        origin: Origin,
        owner: Option<SystemInvocation>,
    )
        ensures
            final(self)@ == old(self)@.put(
                entity,
                value.model(),
                origin,
                crate::invocation::owner_view(owner),
            ),
            old(self)@.consistent() ==> final(self)@.consistent(),
    {
        let kind: ComponentId = value.component_id();
        let fingerprint = value.fingerprint();
        let mut revision: u64 = self.revision;
        if C::is_tracked(kind) {
            let repeated = match self.entry(kind, entity) {
                Some(entry) => match (entry.fingerprint, fingerprint) {
                    (Some(stored), Some(new)) => if stored == new {
                        Some(entry.revision)
                    } else {
                        None
                    },
                    _ => None,
                },
                None => None,
            };
            match repeated {
                Some(old_revision) => {
                    revision = old_revision;
                },
                None => {
                    self.revision = bump(self.revision);
                    revision = self.revision;
                },
            }
        }
        assert(self@.tables =~= old(self)@.tables);
        let ghost model = value.model();
        let mut table = self.take_table(kind);
        let ghost held = table_view(table@);
        let entry = ComponentEntry { value, revision, fingerprint, origin, owner, cell: None };
        let ghost stored = entry@;
        table.insert(entity.raw(), entry);
        assert(table_view(table@) =~= held.insert(entity.id(), stored));
        self.set_table(kind, table);
        assert(self@.tables =~= old(self)@.tables.insert(kind, held.insert(entity.id(), stored)));
    }

    /// Removes one component.
    pub fn remove_component(&mut self, kind: ComponentId, entity: Entity) -> (removed: Option<
        ComponentEntry<C>,
    >)
        ensures
            match removed {
                Some(removed) => old(self)@.entry(kind, entity) == Some(removed@),
                None => old(self)@.entry(kind, entity) is None,
            },
            final(self)@ == old(self)@.removed(kind, entity),
            old(self)@.consistent() ==> final(self)@.consistent(),
    {
        if !self.has(kind, entity) {
            return None;
        }
        let mut table = self.take_table(kind);
        let ghost held = table_view(table@);
        let removed = table.remove(&entity.raw());
        assert(table_view(table@) =~= held.remove(entity.id()));
        self.set_table(kind, table);
        if C::is_tracked(kind) {
            self.revision = bump(self.revision);
        }
        assert(self@.tables =~= old(self)@.tables.insert(kind, held.remove(entity.id())));
        removed
    }

    /// Sweeps derived entries out of every table; the entities that lost one.
    pub fn sweep(&mut self, sweep: &Sweep) -> (losers: Vec<u64>)
        ensures
            final(self)@ == old(self)@.swept(sweep@),
            losers@.to_set() == old(self)@.losers(sweep@),
            old(self)@.consistent() ==> final(self)@.consistent(),
    {
        let ghost start = self@;
        let kinds = map_keys(&self.tables);
        let mut losers: Vec<u64> = Vec::new();
        let mut i: usize = 0;
        proof {
            assert(self.tables@.dom() =~= self@.tables.dom());
            assert(kinds@ == start.kinds());
            crate::model::lemma_sorted_keys_list(start.tables.dom());
            assert(losers@.to_set() =~= Set::<u64>::empty());
        }
        while i < kinds.len()
            invariant
                i <= kinds@.len(),
                start == old(self)@,
                kinds@ == start.kinds(),
                ascending(kinds@),
                self@ == start.swept_each(kinds@.take(i as int), sweep@),
                losers@.to_set() == lost_in(start, kinds@.take(i as int), sweep@),
            decreases kinds@.len() - i,
        {
            let kind: ComponentId = kinds[i];
            let ghost before = self@;
            let ghost lost = losers@;
            let table = self.take_table(kind);
            let ghost held = table_view(table@);
            let (table, mut gone) = sweep_table(table, sweep);
            let tracks = C::is_tracked(kind);
            let any = gone.len() > 0;
            proof {
                assert(gone@.to_set() =~= before.swept_keys(kind, sweep@));
                if gone@.len() > 0 {
                    assert(gone@.to_set().contains(gone@[0]));
                } else {
                    assert(gone@.to_set() =~= Set::<u64>::empty());
                }
                assert(any == !before.swept_keys(kind, sweep@).is_empty());
            }
            self.set_table(kind, table);
            if tracks && any {
                self.revision = bump(self.revision);
            }
            let ghost gone_set = gone@;
            losers.append(&mut gone);
            proof {
                let done = kinds@.take(i as int);
                let more = kinds@.take(i + 1);
                assert(more.drop_last() =~= done);
                assert(self@.tables =~= before.tables.insert(
                    kind,
                    held.remove_keys(before.swept_keys(kind, sweep@)),
                ));
                assert(self@ =~= before.swept_table(kind, sweep@));
                assert(!done.contains(kind)) by {
                    if done.contains(kind) {
                        let k = choose|k: int| 0 <= k < done.len() && done[k] == kind;
                        assert(kinds@[k] < kinds@[i as int]);
                    }
                }
                lemma_swept_each(start, done, sweep@);
                assert(before.swept_keys(kind, sweep@) =~= start.swept_keys(kind, sweep@));
                assert(losers@ == lost + gone_set);
                lemma_joined_sets(lost, gone_set);
                assert forall|id: u64|
                    losers@.to_set().contains(id) <==> lost_in(start, more, sweep@).contains(
                        id,
                    ) by {
                    if lost_in(start, more, sweep@).contains(id) {
                        let found = choose|found: ComponentId| #[trigger]
                            start.swept_keys(found, sweep@).contains(id) && more.contains(found);
                        let k = choose|k: int| 0 <= k < more.len() && more[k] == found;
                        if k < i {
                            assert(done[k] == found);
                        }
                    }
                    if lost_in(start, done, sweep@).contains(id) {
                        let found = choose|found: ComponentId| #[trigger]
                            start.swept_keys(found, sweep@).contains(id) && done.contains(found);
                        let k = choose|k: int| 0 <= k < done.len() && done[k] == found;
                        assert(more[k] == found);
                    }
                    assert(more[i as int] == kind);
                }
                assert(losers@.to_set() =~= lost_in(start, more, sweep@));
            }
            i = i + 1;
        }
        proof {
            assert(kinds@.take(kinds@.len() as int) =~= kinds@);
            lemma_swept(start, sweep@);
            assert(losers@.to_set() =~= start.losers(sweep@)) by {
                assert forall|id: u64|
                    losers@.to_set().contains(id) <==> start.losers(sweep@).contains(id) by {
                    if start.losers(sweep@).contains(id) {
                        let kind = choose|kind: ComponentId| #[trigger]
                            start.swept_keys(kind, sweep@).contains(id);
                        assert(start.tables.contains_key(kind));
                        assert(kinds@.to_set().contains(kind));
                        assert(kinds@.contains(kind));
                    }
                }
            }
        }
        losers
    }

    /// Removes an entity from every table; the invocations that derived its
    /// components.
    pub fn remove_entity(&mut self, entity: Entity) -> (makers: Vec<SystemInvocation>)
        ensures
            final(self)@ == old(self)@.cleared(entity),
            invocations_view(makers@) == old(self)@.makers(entity),
            old(self)@.consistent() ==> final(self)@.consistent(),
    {
        let ghost start = self@;
        let kinds = map_keys(&self.tables);
        let mut makers: Vec<SystemInvocation> = Vec::new();
        let mut i: usize = 0;
        proof {
            assert(self.tables@.dom() =~= self@.tables.dom());
            assert(kinds@ == start.kinds());
            assert(invocations_view(makers@) =~= Seq::<Invocation>::empty());
        }
        while i < kinds.len()
            invariant
                i <= kinds@.len(),
                start == old(self)@,
                kinds@ == start.kinds(),
                ascending(kinds@),
                start.consistent() ==> self@.consistent(),
                self@ == start.cleared_of(kinds@.take(i as int), entity),
                invocations_view(makers@) == start.makers_in(kinds@.take(i as int), entity),
            decreases kinds@.len() - i,
        {
            let kind: ComponentId = kinds[i];
            proof {
                let done = kinds@.take(i as int);
                assert(kinds@.take(i + 1).drop_last() =~= done);
                assert(!done.contains(kind)) by {
                    if done.contains(kind) {
                        let k = choose|k: int| 0 <= k < done.len() && done[k] == kind;
                        assert(kinds@[k] < kinds@[i as int]);
                    }
                }
                lemma_cleared_of(start, done, entity);
                assert(self@.table(kind) == start.table(kind));
            }
            if let Some(removed) = self.remove_component(kind, entity) {
                if removed.origin == Origin::Derived {
                    if let Some(owner) = removed.owner {
                        let ghost before = makers@;
                        makers.push(owner);
                        assert(invocations_view(makers@) =~= invocations_view(before).push(owner@));
                    }
                }
            }
            i = i + 1;
        }
        assert(kinds@.take(kinds@.len() as int) =~= kinds@);
        makers
    }

    /// Removes everything that an invocation derived.
    pub fn remove_derived_owned(&mut self, owner: &SystemInvocation)
        ensures
            final(self)@ == old(self)@.swept(SweepModel::Owned(owner@)),
            old(self)@.consistent() ==> final(self)@.consistent(),
    {
        self.sweep(&Sweep::Owned(owner));
    }

    /// Removes everything that was derived by an invocation keyed by one of
    /// `keys`; the entities that lost a component.
    pub fn remove_derived_touched_by(&mut self, keys: &Vec<Entity>) -> (losers: Vec<u64>)
        ensures
            final(self)@ == old(self)@.swept(SweepModel::Touched(keys@)),
            losers@.to_set() == old(self)@.losers(SweepModel::Touched(keys@)),
            old(self)@.consistent() ==> final(self)@.consistent(),
    {
        self.sweep(&Sweep::Touched(keys))
    }
}

/// What invocations are.
pub open spec fn invocations_view(invocations: Seq<SystemInvocation>) -> Seq<Invocation> {
    invocations.map_values(|invocation: SystemInvocation| invocation@)
}

/// Removing an entity from some tables takes its entry out of each of them and
/// leaves everything else as it is.
pub proof fn lemma_cleared_of<C: Component>(
    tables: TablesModel<C>,
    kinds: Seq<ComponentId>,
    entity: Entity,
)
    ensures
        tables.cleared_of(kinds, entity).next_entity == tables.next_entity,
        tables.cleared_of(kinds, entity).revision >= tables.revision,
        tables.cleared_of(kinds, entity).tables.dom() == tables.tables.dom(),
        forall|kind: ComponentId| #[trigger]
            tables.cleared_of(kinds, entity).table(kind) == if kinds.contains(kind) {
                tables.table(kind).remove(entity.id())
            } else {
                tables.table(kind)
            },
    decreases kinds.len(),
{
    if kinds.len() > 0 {
        let rest = kinds.drop_last();
        let last = kinds.last();
        let middle = tables.cleared_of(rest, entity);
        let all = tables.cleared_of(kinds, entity);
        lemma_cleared_of(tables, rest, entity);
        assert forall|kind: ComponentId| #[trigger]
            kinds.contains(kind) <==> (rest.contains(kind) || kind == last) by {
            if rest.contains(kind) {
                let k = choose|k: int| 0 <= k < rest.len() && rest[k] == kind;
                assert(kinds[k] == kind);
            }
            if kinds.contains(kind) {
                let k = choose|k: int| 0 <= k < kinds.len() && kinds[k] == kind;
                if k < rest.len() {
                    assert(rest[k] == kind);
                }
            }
            assert(kinds[kinds.len() - 1] == last);
        }
        assert forall|kind: ComponentId| #[trigger] all.table(kind) == if kinds.contains(kind) {
            tables.table(kind).remove(entity.id())
        } else {
            tables.table(kind)
        } by {
            if kind == last {
                assert(middle.table(kind).remove(entity.id()) =~= tables.table(kind).remove(
                    entity.id(),
                ));
                if !middle.has(kind, entity) {
                    assert(middle.table(kind) =~= middle.table(kind).remove(entity.id()));
                }
            } else {
                assert(all.table(kind) == middle.table(kind));
                assert(kinds.contains(kind) == rest.contains(kind));
            }
        }
        assert(all.tables.dom() =~= tables.tables.dom());
    }
}

/// A removed entity is gone from every table, and nothing else is.
pub proof fn lemma_cleared<C: Component>(tables: TablesModel<C>, entity: Entity)
    ensures
        tables.cleared(entity).revision >= tables.revision,
        forall|kind: ComponentId, other: Entity| #[trigger]
            tables.cleared(entity).entry(kind, other) == if other.id() == entity.id() {
                None
            } else {
                tables.entry(kind, other)
            },
{
    crate::model::lemma_sorted_keys_list(tables.tables.dom());
    lemma_cleared_of(tables, tables.kinds(), entity);
    assert forall|kind: ComponentId, other: Entity| #[trigger]
        tables.cleared(entity).entry(kind, other) == if other.id() == entity.id() {
            None
        } else {
            tables.entry(kind, other)
        } by {
        assert(tables.kinds().to_set().contains(kind) <==> tables.tables.dom().contains(kind));
        assert(tables.cleared(entity).table(kind) == tables.cleared_of(
            tables.kinds(),
            entity,
        ).table(kind));
    }
}

/// The entities that lose an entry in one of `kinds`.
pub open spec fn lost_in<C: Component>(
    tables: TablesModel<C>,
    kinds: Seq<ComponentId>,
    sweep: SweepModel,
) -> Set<u64> {
    Set::new(
        |id: u64|
            exists|kind: ComponentId| #[trigger]
                tables.swept_keys(kind, sweep).contains(id) && kinds.contains(kind),
    )
}

proof fn lemma_joined_sets(a: Seq<u64>, b: Seq<u64>)
    ensures
        (a + b).to_set() == a.to_set().union(b.to_set()),
{
    assert forall|x: u64|
        (a + b).to_set().contains(x) <==> a.to_set().union(b.to_set()).contains(x) by {
        if a.contains(x) {
            let k = choose|k: int| 0 <= k < a.len() && a[k] == x;
            assert((a + b)[k] == x);
        }
        if b.contains(x) {
            let k = choose|k: int| 0 <= k < b.len() && b[k] == x;
            assert((a + b)[a.len() + k] == x);
        }
        if (a + b).contains(x) {
            let k = choose|k: int| 0 <= k < (a + b).len() && (a + b)[k] == x;
            if k < a.len() {
                assert(a[k] == x);
            } else {
                assert(b[k - a.len()] == x);
            }
        }
    }
    assert((a + b).to_set() =~= a.to_set().union(b.to_set()));
}

/// Sweeping some tables takes from each of them what the sweep takes, leaves the
/// others as they are, and never takes a revision back.
pub proof fn lemma_swept_each<C: Component>(
    tables: TablesModel<C>,
    kinds: Seq<ComponentId>,
    sweep: SweepModel,
)
    ensures
        tables.swept_each(kinds, sweep).next_entity == tables.next_entity,
        tables.swept_each(kinds, sweep).revision >= tables.revision,
        forall|kind: ComponentId| #[trigger]
            tables.swept_each(kinds, sweep).table(kind) == if kinds.contains(kind) {
                tables.table(kind).remove_keys(tables.swept_keys(kind, sweep))
            } else {
                tables.table(kind)
            },
        (forall|kind: ComponentId| #[trigger]
            kinds.contains(kind) ==> tables.tables.contains_key(kind)) ==> tables.swept_each(
            kinds,
            sweep,
        ).tables.dom() == tables.tables.dom(),
    decreases kinds.len(),
{
    if kinds.len() > 0 {
        let rest = kinds.drop_last();
        let last = kinds.last();
        let middle = tables.swept_each(rest, sweep);
        let all = tables.swept_each(kinds, sweep);
        lemma_swept_each(tables, rest, sweep);
        assert(kinds.contains(last));
        assert forall|kind: ComponentId| #[trigger]
            kinds.contains(kind) <==> (rest.contains(kind) || kind == last) by {
            if rest.contains(kind) {
                let k = choose|k: int| 0 <= k < rest.len() && rest[k] == kind;
                assert(kinds[k] == kind);
            }
            if kinds.contains(kind) {
                let k = choose|k: int| 0 <= k < kinds.len() && kinds[k] == kind;
                if k < rest.len() {
                    assert(rest[k] == kind);
                }
            }
        }
        assert forall|kind: ComponentId| #[trigger] all.table(kind) == if kinds.contains(kind) {
            tables.table(kind).remove_keys(tables.swept_keys(kind, sweep))
        } else {
            tables.table(kind)
        } by {
            if kind == last {
                assert(all.table(kind) == middle.table(kind).remove_keys(
                    middle.swept_keys(kind, sweep),
                ));
                assert(all.table(kind) =~= tables.table(kind).remove_keys(
                    tables.swept_keys(kind, sweep),
                ));
            } else {
                assert(all.table(kind) == middle.table(kind));
                assert(kinds.contains(kind) == rest.contains(kind));
            }
        }
        if forall|kind: ComponentId| #[trigger]
            kinds.contains(kind) ==> tables.tables.contains_key(kind) {
            assert forall|kind: ComponentId| #[trigger] rest.contains(kind) implies
                tables.tables.contains_key(kind) by {
                assert(kinds.contains(kind));
            }
            assert(all.tables.dom() =~= tables.tables.dom());
        }
    } else {
        assert(tables.swept_each(kinds, sweep) == tables);
        assert forall|kind: ComponentId| !kinds.contains(kind) by {}
    }
}

/// A sweep takes exactly what it is to take: nothing else goes, nothing is
/// added, and no revision is taken back.
pub proof fn lemma_swept<C: Component>(tables: TablesModel<C>, sweep: SweepModel)
    ensures
        tables.swept(sweep).next_entity == tables.next_entity,
        tables.swept(sweep).revision >= tables.revision,
        tables.swept(sweep).tables.dom() == tables.tables.dom(),
        forall|kind: ComponentId| #[trigger]
            tables.swept(sweep).table(kind) == tables.table(kind).remove_keys(
                tables.swept_keys(kind, sweep),
            ),
        tables.consistent() ==> tables.swept(sweep).consistent(),
{
    let kinds = tables.kinds();
    let after = tables.swept(sweep);
    crate::model::lemma_sorted_keys_list(tables.tables.dom());
    assert forall|kind: ComponentId| kinds.contains(kind) <==> tables.tables.contains_key(kind) by {
        assert(kinds.to_set().contains(kind) <==> tables.tables.dom().contains(kind));
    }
    lemma_swept_each(tables, kinds, sweep);
    assert forall|kind: ComponentId| #[trigger] after.table(kind) == tables.table(
        kind,
    ).remove_keys(tables.swept_keys(kind, sweep)) by {
        if !tables.tables.contains_key(kind) {
            assert(tables.table(kind).remove_keys(tables.swept_keys(kind, sweep)) =~= Map::empty());
        }
    }
    if tables.consistent() {
        assert forall|kind: ComponentId, id: u64|
            #![trigger after.tables[kind][id]]
            after.tables.contains_key(kind) && after.tables[kind].contains_key(id) implies C::kind(
            after.tables[kind][id].value,
        ) == kind by {
            assert(after.table(kind) == after.tables[kind]);
            assert(tables.tables.contains_key(kind));
            assert(tables.tables[kind][id] == after.tables[kind][id]);
        }
    }
}

} // verus!
