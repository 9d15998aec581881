//! Storage of one component type.

use crate::component::Component;
use crate::invocation::{copy_owner, owner_view, SystemInvocation};
use crate::keys::{map_keys, set_elements};
use crate::model::{ascending, later, sorted_keys, Column, Entry, Origin};
use std::collections::{BTreeMap, BTreeSet};
use std::sync::Arc;
use vstd::prelude::*;

verus! {

/// Fingerprint to entities index for equality lookups. No bucket is empty.
pub struct FingerprintIndex {
    buckets: BTreeMap<u64, BTreeSet<u64>>,
}

impl View for FingerprintIndex {
    type V = Set<(u64, u64)>;

    closed spec fn view(&self) -> Set<(u64, u64)> {
        Set::new(
            |pair: (u64, u64)|
                self.buckets@.contains_key(pair.0) && self.buckets@[pair.0]@.contains(pair.1),
        )
    }
}

impl FingerprintIndex {
    /// No bucket is kept for a fingerprint that nothing has.
    pub closed spec fn wf(&self) -> bool {
        forall|fingerprint: u64| #[trigger]
            self.buckets@.contains_key(fingerprint) ==> !self.buckets@[fingerprint]@.is_empty()
    }

    /// The entities indexed under `fingerprint`.
    pub open spec fn bucket(&self, fingerprint: u64) -> Set<u64> {
        Set::new(|entity: u64| self@.contains((fingerprint, entity)))
    }

    /// An empty index.
    pub fn new() -> (index: Self)
        ensures
            index.wf(),
            index@ == Set::<(u64, u64)>::empty(),
    {
        let index = FingerprintIndex { buckets: BTreeMap::new() };
        assert(index@ =~= Set::<(u64, u64)>::empty());
        index
    }

    /// Indexes `entity` under `fingerprint`, if there is one.
    pub fn index_fingerprint(&mut self, entity: u64, fingerprint: Option<u64>)
        requires
            old(self).wf(),
        ensures
            final(self).wf(),
            final(self)@ == match fingerprint {
                Some(fingerprint) => old(self)@.insert((fingerprint, entity)),
                None => old(self)@,
            },
    {
        if let Some(fingerprint) = fingerprint {
            let mut bucket = match self.buckets.remove(&fingerprint) {
                Some(bucket) => bucket,
                None => BTreeSet::new(),
            };
            bucket.insert(entity);
            assert(bucket@.contains(entity));
            self.buckets.insert(fingerprint, bucket);
            assert(self@ =~= old(self)@.insert((fingerprint, entity)));
        }
    }

    /// Drops `entity` from under `fingerprint`; an emptied bucket goes with it.
    pub fn unindex_fingerprint(&mut self, entity: u64, fingerprint: Option<u64>)
        requires
            old(self).wf(),
        ensures
            final(self).wf(),
            final(self)@ == match fingerprint {
                Some(fingerprint) => old(self)@.remove((fingerprint, entity)),
                None => old(self)@,
            },
    {
        if let Some(fingerprint) = fingerprint {
            if let Some(mut bucket) = self.buckets.remove(&fingerprint) {
                let ghost before = bucket@;
                bucket.remove(&entity);
                assert(bucket@ == before.remove(entity));
                if !bucket.is_empty() {
                    self.buckets.insert(fingerprint, bucket);
                } else {
                    assert forall|other: u64| other != entity implies !before.contains(other) by {
                        assert(!bucket@.contains(other));
                    }
                }
            }
            assert(self@ =~= old(self)@.remove((fingerprint, entity)));
        }
    }

    /// The entities indexed under `fingerprint`, ascending.
    pub fn entities(&self, fingerprint: u64) -> (entities: Vec<u64>)
        ensures
            ascending(entities@),
            entities@.to_set() == self.bucket(fingerprint),
            entities@ == sorted_keys(self.bucket(fingerprint)),
    {
        match self.buckets.get(&fingerprint) {
            Some(bucket) => {
                assert(self.bucket(fingerprint) =~= bucket@);
                set_elements(bucket)
            },
            None => {
                let entities: Vec<u64> = Vec::new();
                proof {
                    assert(self.bucket(fingerprint) =~= Set::<u64>::empty());
                    assert(entities@.to_set() =~= Set::<u64>::empty());
                    crate::model::lemma_sorted_keys(entities@, self.bucket(fingerprint));
                }
                entities
            },
        }
    }
}

/// Stored component value plus tracking metadata. Values sit behind a shared
/// handle, so that snapshots copy no component data.
pub struct ComponentEntry<C> {
    pub value: Arc<C>,
    pub revision: u64,
    pub fingerprint: Option<u64>,
    pub origin: Origin,
    pub owner: Option<SystemInvocation>,
    /// The number of the cell that holds the value.
    pub cell: Option<u64>,
}

impl<C: Component> View for ComponentEntry<C> {
    type V = Entry<C>;

    open spec fn view(&self) -> Entry<C> {
        Entry {
            value: self.value.model(),
            revision: self.revision,
            fingerprint: self.fingerprint,
            origin: self.origin,
            owner: owner_view(self.owner),
            cell: self.cell,
        }
    }
}

impl<C: Component> ComponentEntry<C> {
    /// Another handle to the same stored component.
    pub fn share(&self) -> (copy: Self)
        ensures
            copy@ == self@,
    {
        ComponentEntry {
            value: Arc::clone(&self.value),
            revision: self.revision,
            fingerprint: self.fingerprint,
            origin: self.origin,
            owner: copy_owner(&self.owner),
            cell: self.cell,
        }
    }
}

/// Storage of one component type: its entries, the fingerprint index over
/// them, and the highest revision at which the store changed.
pub struct Store<C> {
    entries: BTreeMap<u64, ComponentEntry<C>>,
    by_fingerprint: FingerprintIndex,
    watermark: u64,
}

impl<C: Component> View for Store<C> {
    type V = Column<C>;

    closed spec fn view(&self) -> Column<C> {
        Column {
            entries: Map::new(
                |entity: u64| self.entries@.contains_key(entity),
                |entity: u64| self.entries@[entity]@,
            ),
            watermark: self.watermark,
        }
    }
}

impl<C: Component> Store<C> {
    /// The index lists exactly the fingerprints of the entries.
    pub closed spec fn wf(&self) -> bool {
        &&& self.by_fingerprint.wf()
        &&& forall|fingerprint: u64, entity: u64| #[trigger]
            self.by_fingerprint@.contains((fingerprint, entity)) <==> (
            self.entries@.contains_key(entity) && self.entries@[entity].fingerprint == Some(
                fingerprint,
            ))
    }

    /// An empty store.
    pub fn new() -> (store: Self)
        ensures
            store.wf(),
            store@ == (Column::<C> { entries: Map::empty(), watermark: 0 }),
    {
        let store = Store {
            entries: BTreeMap::new(),
            by_fingerprint: FingerprintIndex::new(),
            watermark: 0,
        };
        assert(store@.entries =~= Map::<u64, Entry<C>>::empty());
        store
    }

    /// The entry of `entity`.
    pub fn get(&self, entity: u64) -> (entry: Option<&ComponentEntry<C>>)
        ensures
            match entry {
                Some(entry) => self@.entries.contains_key(entity) && entry@
                    == self@.entries[entity],
                None => !self@.entries.contains_key(entity),
            },
    {
        self.entries.get(&entity)
    }

    /// Whether `entity` has an entry.
    pub fn contains(&self, entity: u64) -> (present: bool)
        ensures
            present == self@.entries.contains_key(entity),
    {
        self.entries.contains_key(&entity)
    }

    /// Number of entries in the store.
    pub fn len(&self) -> (len: usize)
        ensures
            len == self@.entries.dom().len(),
    {
        assert(self@.entries.dom() =~= self.entries@.dom());
        self.entries.len()
    }

    /// Entities present in the store, ascending.
    pub fn entities(&self) -> (entities: Vec<u64>)
        ensures
            ascending(entities@),
            entities@.to_set() == self@.entries.dom(),
            entities@ == sorted_keys(self@.entries.dom()),
    {
        assert(self@.entries.dom() =~= self.entries@.dom());
        map_keys(&self.entries)
    }

    /// Highest revision at which this store changed.
    pub fn watermark(&self) -> (watermark: u64)
        ensures
            watermark == self@.watermark,
    {
        self.watermark
    }

    /// Raises the change watermark.
    pub fn bump_watermark(&mut self, revision: u64)
        requires
            old(self).wf(),
        ensures
            final(self).wf(),
            final(self)@ == (Column { watermark: later(old(self)@.watermark, revision), ..old(
                self,
            )@ }),
    {
        if self.watermark < revision {
            self.watermark = revision;
        }
        assert(self@.entries =~= old(self)@.entries);
    }

    /// Entities whose stored fingerprint equals `fingerprint`, ascending.
    pub fn fingerprint_entities(&self, fingerprint: u64) -> (entities: Vec<u64>)
        requires
            self.wf(),
        ensures
            ascending(entities@),
            entities@.to_set() == stamped_with(self@, fingerprint),
            entities@ == sorted_keys(stamped_with(self@, fingerprint)),
    {
        assert(self.by_fingerprint.bucket(fingerprint) =~= stamped_with(self@, fingerprint));
        self.by_fingerprint.entities(fingerprint)
    }

    /// Sets the entry of `entity`, keeping the fingerprint index exact.
    pub fn insert(&mut self, entity: u64, entry: ComponentEntry<C>) -> (previous: Option<
        ComponentEntry<C>,
    >)
        requires
            old(self).wf(),
        ensures
            final(self).wf(),
            final(self)@ == (Column { entries: old(self)@.entries.insert(entity, entry@), ..old(
                self,
            )@ }),
            match previous {
                Some(previous) => old(self)@.entries.contains_key(entity) && previous@
                    == old(self)@.entries[entity],
                None => !old(self)@.entries.contains_key(entity),
            },
    {
        let fingerprint = entry.fingerprint;
        let ghost stored = entry@;
        let previous = self.entries.insert(entity, entry);
        if let Some(previous) = &previous {
            self.by_fingerprint.unindex_fingerprint(entity, previous.fingerprint);
        }
        self.by_fingerprint.index_fingerprint(entity, fingerprint);
        assert(self@.entries =~= old(self)@.entries.insert(entity, stored));
        previous
    }

    /// Takes the entry of `entity` out of the store.
    pub fn remove(&mut self, entity: u64) -> (removed: Option<ComponentEntry<C>>)
        requires
            old(self).wf(),
        ensures
            final(self).wf(),
            final(self)@ == (Column { entries: old(self)@.entries.remove(entity), ..old(self)@ }),
            match removed {
                Some(removed) => old(self)@.entries.contains_key(entity) && removed@
                    == old(self)@.entries[entity],
                None => !old(self)@.entries.contains_key(entity),
            },
    {
        let removed = self.entries.remove(&entity);
        if let Some(removed) = &removed {
            self.by_fingerprint.unindex_fingerprint(entity, removed.fingerprint);
        }
        assert(self@.entries =~= old(self)@.entries.remove(entity));
        removed
    }

    /// A structural copy that shares every stored value.
    pub fn share(&self) -> (copy: Self)
        requires
            self.wf(),
        ensures
            copy.wf(),
            copy@ == self@,
    {
        let mut copy = Store::new();
        let keys = map_keys(&self.entries);
        let mut i: usize = 0;
        while i < keys.len()
            invariant
                i <= keys.len(),
                copy.wf(),
                keys@.to_set() == self.entries@.dom(),
                copy@.watermark == 0,
                forall|entity: u64| #[trigger]
                    copy@.entries.contains_key(entity) <==> keys@.take(i as int).contains(entity),
                forall|entity: u64| #[trigger]
                    copy@.entries.contains_key(entity) ==> copy@.entries[entity]
                        == self@.entries[entity],
            decreases keys.len() - i,
        {
            let key = keys[i];
            assert(keys@.to_set().contains(key));
            if let Some(entry) = self.entries.get(&key) {
                let _ = copy.insert(key, entry.share());
            }
            i = i + 1;
            proof {
                let before = keys@.take(i - 1);
                let now = keys@.take(i as int);
                assert(now =~= before.push(key));
                assert forall|entity: u64| #[trigger]
                    copy@.entries.contains_key(entity) <==> now.contains(entity) by {
                    if before.contains(entity) {
                        let j = choose|j: int| 0 <= j < before.len() && before[j] == entity;
                        assert(now[j] == entity);
                    }
                    assert(now[i - 1] == key);
                }
            }
        }
        assert(keys@.take(keys@.len() as int) =~= keys@);
        proof {
            assert forall|entity: u64|
                copy@.entries.contains_key(entity) <==> self@.entries.contains_key(entity) by {
                assert(keys@.contains(entity) <==> keys@.to_set().contains(entity));
            }
            assert(copy@.entries =~= self@.entries);
        }
        copy.bump_watermark(self.watermark);
        copy
    }
}

/// The entities of a column whose entry has `fingerprint`.
pub open spec fn stamped_with<C: Component>(column: Column<C>, fingerprint: u64) -> Set<u64> {
    Set::new(
        |entity: u64|
            column.entries.contains_key(entity) && column.entries[entity].fingerprint == Some(
                fingerprint,
            ),
    )
}

} // verus!
